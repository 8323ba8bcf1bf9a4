use unitylan::api::{valid_label, ExposeScope, MeshService, Proto, ServiceKind};
use unitylan::fw::{Exposed, Firewall, PeerSets};
use unitylan::net::{endpoint_v4, Endpoint, Ip};
use unitylan::p2p::{
    bind_for, pull, pull_services, request, respond, AttestationBlob, OwnAttestations, OwnServices,
    P2pRequest, P2pResponse, ReqBody, RespBody, Window,
};

const WINDOW: Window = Window { oldest: 3, current: 5 };
const MAX_SERVICES_PER_DEVICE: usize = 16;

fn ga(blob: &str) -> AttestationBlob {
    AttestationBlob {
        attestation: blob.into(),
        community_name: "c".into(),
        att_schema: 1,
    }
}

/// A firewall that serves `mc` to the peers given and to nobody else.
fn serving(peers: Vec<u32>) -> Firewall {
    let mut f = Firewall::load(
        "unl0".to_string(),
        vec![Exposed {
            proto: Proto::Tcp,
            port: 25565,
            scope: ExposeScope::OwnDevices,
            name: Some("mc".to_string()),
            kind: ServiceKind::Port,
        }],
        None,
        16,
        4,
    );
    f.update_peers(PeerSets { nets: vec![], own_devices: peers });
    f
}

fn none() -> OwnServices<Firewall> {
    OwnServices::none()
}

fn ask(
    proto: u32,
    body: ReqBody,
    from: Endpoint,
    own: &OwnAttestations,
    services: &OwnServices<Firewall>,
) -> P2pResponse {
    respond(Some(P2pRequest { proto, body }), from, own, services, WINDOW).expect("no p2p reply")
}

fn localhost() -> Endpoint {
    endpoint_v4(127, 0, 0, 1, 40000)
}

#[test]
fn serves_own_attestations_and_reflects_refreshes() {
    let mut own = OwnAttestations::new();
    own.set(vec![ga("blobA"), ga("blobB")]);
    match ask(5, ReqBody::GetAttestations, localhost(), &own, &none()).body {
        RespBody::Attestations { attestations: a } => {
            assert_eq!(a.len(), 2);
            assert_eq!(a[0].attestation, "blobA");
        }
        _ => panic!("expected attestations"),
    }

    // A later grant is served on the next request (no restart).
    own.set(vec![ga("blobC")]);
    match ask(5, ReqBody::GetAttestations, localhost(), &own, &none()).body {
        RespBody::Attestations { attestations: a } => assert_eq!(a[0].attestation, "blobC"),
        _ => panic!("expected refreshed attestations"),
    }
}

/// Announcements are per-asker: the source address of the request decides what comes back, so
/// a peer outside a service's scope is told nothing rather than told-and-denied.
#[test]
fn services_are_announced_per_asker() {
    let source = || OwnServices::new(serving(vec![0x7f00_0001]));
    let own = OwnAttestations::new();
    let reply = ask(5, ReqBody::GetServices, localhost(), &own, &source());
    let got = pull_services(reply.body, MAX_SERVICES_PER_DEVICE).unwrap();
    assert_eq!(got.len(), 1);
    assert_eq!(got[0].name, "mc");
    assert_eq!(got[0].port, 25565);
    let reply = ask(5, ReqBody::GetServices, endpoint_v4(10, 0, 0, 1, 1), &own, &source());
    assert!(pull_services(reply.body, MAX_SERVICES_PER_DEVICE).unwrap().is_empty());
    let v6 = Endpoint { ip: Ip::V6(1), port: 1 };
    let reply = ask(5, ReqBody::GetServices, v6, &own, &source());
    assert!(pull_services(reply.body, MAX_SERVICES_PER_DEVICE).unwrap().is_empty());
}

#[test]
fn a_request_and_its_reply_carry_the_version() {
    let services = OwnServices::new(serving(vec![0x7f00_0001]));
    let req = request(ReqBody::GetServices, WINDOW);
    assert_eq!(req.proto, 5);
    let reply = respond(Some(req), localhost(), &OwnAttestations::new(), &services, WINDOW).unwrap();
    assert_eq!(reply.proto, 5);
}

/// A peer's list is peer-supplied data: a label we could never resolve costs that label, not
/// the rest of the reply, and the count is bounded before it reaches our maps.
#[test]
fn a_peers_unusable_labels_are_dropped_without_losing_the_rest() {
    let mut names = vec!["../etc/passwd".to_string(), "good".to_string()];
    names.extend((0..64).map(|i| format!("flood{i}")));
    let services = names
        .iter()
        .map(|n| MeshService {
            name: n.clone(),
            proto: Proto::Tcp,
            port: 1,
            kind: ServiceKind::Port,
        })
        .collect();
    let got = pull_services(RespBody::Services { services }, MAX_SERVICES_PER_DEVICE).unwrap();
    assert!(got.iter().all(|s| valid_label(&s.name)));
    assert!(
        got.iter().any(|s| s.name == "good"),
        "the usable one survives"
    );
    assert!(got.len() <= MAX_SERVICES_PER_DEVICE);
}

/// A peer that predates services answers `Unsupported`, which is "no services" — not an error
/// the caller has to special-case, since services are additive.
#[test]
fn an_older_peer_reports_no_services_rather_than_failing() {
    let reply = ask(5, ReqBody::GetServices, localhost(), &OwnAttestations::new(), &none());
    assert!(pull_services(reply.body, MAX_SERVICES_PER_DEVICE).unwrap().is_empty());
    assert!(pull_services(RespBody::Unsupported, MAX_SERVICES_PER_DEVICE)
        .unwrap()
        .is_empty());
}

#[test]
fn unknown_request_type_gets_unsupported() {
    assert!(matches!(
        ask(5, ReqBody::Unknown, localhost(), &OwnAttestations::new(), &none()).body,
        RespBody::Unsupported
    ));
}

/// A newer peer's response is no attestation and no service, and is said to be neither.
#[test]
fn unknown_response_type_decodes_as_unknown() {
    match pull(RespBody::Unknown) {
        Err(t) => assert_eq!(t, "peer replied with an unrecognized p2p response type"),
        Ok(_) => panic!("nothing was pulled"),
    }
    match pull_services(RespBody::Unknown, 3) {
        Err(t) => assert_eq!(t, "peer replied with an unrecognized p2p response type"),
        Ok(_) => panic!("nothing was pulled"),
    }
    match pull(RespBody::Unsupported) {
        Err(t) => assert_eq!(t, "peer does not support attestation pull"),
        Ok(_) => panic!("nothing was pulled"),
    }
}

#[test]
fn peer_outside_our_version_window_gets_unsupported() {
    let mut own = OwnAttestations::new();
    own.set(vec![ga("blobA")]);
    // A peer far below our floor: answered, but not with attestations it might misread.
    assert!(matches!(
        ask(1, ReqBody::GetAttestations, localhost(), &own, &none()).body,
        RespBody::Unsupported
    ));
    assert!(matches!(
        ask(6, ReqBody::GetAttestations, localhost(), &own, &none()).body,
        RespBody::Unsupported
    ));

    // …while a peer inside the window is served normally.
    assert!(matches!(
        ask(3, ReqBody::GetAttestations, localhost(), &own, &none()).body,
        RespBody::Attestations { .. }
    ));
    // A version from before versions were told is served too.
    assert!(matches!(
        ask(0, ReqBody::GetAttestations, localhost(), &own, &none()).body,
        RespBody::Attestations { .. }
    ));
}

#[test]
fn what_is_no_request_draws_no_reply() {
    assert!(respond(None, localhost(), &OwnAttestations::new(), &none(), WINDOW).is_none());
}

#[test]
fn a_request_is_sent_from_the_family_it_goes_to() {
    assert_eq!(bind_for(localhost()), Endpoint { ip: Ip::V4(0), port: 0 });
    assert_eq!(
        bind_for(Endpoint { ip: Ip::V6(9), port: 1 }),
        Endpoint { ip: Ip::V6(0), port: 0 }
    );
}

#[test]
fn pulled_attestations_are_handed_over_as_they_came() {
    let r = RespBody::Attestations { attestations: vec![ga("x"), ga("y")] };
    let got = pull(r).unwrap();
    assert_eq!(got.len(), 2);
    assert_eq!(got[1].attestation, "y");
}
