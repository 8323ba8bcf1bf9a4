use hickory_proto::op::{Message, Query, ResponseCode};
use hickory_proto::rr::{Name, RData, RecordType};
use unitylan::dns::{answer, certificate_alias, empty_zone, update};
use unitylan::mesh::{SeedPeer, SelfDevice};
use unitylan::net::{v4, Net};

fn query_bytes(name: &str) -> Vec<u8> {
    let mut m = Message::query();
    m.add_query(Query::query(Name::from_ascii(name).unwrap(), RecordType::A));
    m.to_vec().unwrap()
}

/// Bytes that look random and are the same every time.
fn seeded_bytes(seed: u64, len: usize) -> Vec<u8> {
    let mut x = seed.wrapping_mul(0x9e37_79b9_7f4a_7c15) | 1;
    (0..len)
        .map(|_| {
            x ^= x << 13;
            x ^= x >> 7;
            x ^= x << 17;
            (x >> 32) as u8
        })
        .collect()
}

/// The resolver answers UDP from the mesh, so every peer can reach it — and parsing happens
/// before any check could turn a peer away. Sweep junk at every length, plus truncations of a
/// real query (the shape a clipped datagram takes), asserting only that it returns. A panic
/// here would let one peer stop the privileged daemon.
#[test]
fn parsing_never_panics_on_arbitrary_datagrams() {
    let zone = empty_zone();
    for seed in 0..200u64 {
        for len in 0..80 {
            answer(&seeded_bytes(seed, len), &zone);
        }
    }
    let real = query_bytes("host-b.nodeb.lan.unity.internal");
    for n in 0..=real.len() {
        answer(&real[..n], &zone);
    }
}

#[test]
fn resolves_known_name_and_nxdomains_unknown() {
    let mut zone = empty_zone();
    zone.insert("host-b.nodeb.lan.unity.internal".into(), v4(100, 69, 1, 2));

    // Known name → A record with the mapped IP.
    let reply = answer(&query_bytes("host-b.nodeb.lan.unity.internal."), &zone).unwrap();
    let msg = Message::from_vec(&reply).unwrap();
    assert_eq!(msg.answers.len(), 1, "expected one answer");
    match &msg.answers[0].data {
        RData::A(a) => assert_eq!(a.0.octets(), [100, 69, 1, 2]),
        other => panic!("expected A, got {other:?}"),
    }
    assert_eq!(msg.answers[0].ttl, 30);
    assert!(msg.metadata.authoritative);

    // Unknown .unity.internal name → NXDomain, no answers.
    let reply = answer(&query_bytes("nope.nodeb.lan.unity.internal."), &zone).unwrap();
    let msg = Message::from_vec(&reply).unwrap();
    assert!(msg.answers.is_empty());
    assert_eq!(msg.metadata.response_code, ResponseCode::NXDomain);
}

#[test]
fn a_certificate_alias_swaps_the_suffix_and_nothing_else() {
    // `.internal` is reserved, so no CA will ever issue for a `unity.internal` name. The alias is
    // the same host under a real domain, which *can* be certified.
    assert_eq!(
        certificate_alias("laptop.gordon.unity.internal", Some("mesh.example.com")).as_deref(),
        Some("laptop.gordon.mesh.example.com")
    );
    // The bare primary alias too.
    assert_eq!(
        certificate_alias("gordon.unity.internal", Some("mesh.example.com")).as_deref(),
        Some("gordon.mesh.example.com")
    );
    // No configured domain → no alias; the deployment issues no certificates.
    assert_eq!(
        certificate_alias("laptop.gordon.unity.internal", None),
        None
    );
    // Not one of ours → left alone.
    assert_eq!(
        certificate_alias("evil.example.com", Some("mesh.example.com")),
        None
    );
}

#[test]
fn the_certificate_alias_resolves_to_the_same_address() {
    let mut zone = empty_zone();
    zone.cert_domain = Some("mesh.example.com".into());
    zone.insert("laptop.gordon.unity.internal".into(), v4(100, 73, 61, 4));
    zone.insert("laptop.gordon.mesh.example.com".into(), v4(100, 73, 61, 4));

    for name in [
        "laptop.gordon.unity.internal.",
        "laptop.gordon.mesh.example.com.",
    ] {
        let reply = answer(&query_bytes(name), &zone).unwrap();
        let msg = Message::from_vec(&reply).unwrap();
        assert_eq!(msg.answers.len(), 1, "{name} should resolve");
    }
}

#[test]
fn an_unknown_name_under_the_certificate_domain_draws_no_denial() {
    // The coordinator is authoritative for that zone, not us — we serve only the specific alias
    // names we hold attestations for, so we have no standing to say a name does not exist.
    let mut zone = empty_zone();
    zone.cert_domain = Some("mesh.example.com".into());

    let reply = answer(&query_bytes("nobody.mesh.example.com."), &zone).unwrap();
    let msg = Message::from_vec(&reply).unwrap();
    assert!(msg.answers.is_empty());
    assert_eq!(msg.metadata.response_code, ResponseCode::NoError);

    // ...whereas an unknown name in our own zone is an authoritative NXDOMAIN, as before.
    let reply = answer(&query_bytes("nobody.unity.internal."), &zone).unwrap();
    let msg = Message::from_vec(&reply).unwrap();
    assert_eq!(msg.metadata.response_code, ResponseCode::NXDomain);
}

#[test]
fn does_not_speak_for_names_outside_the_zone() {
    // Even a name planted in the map is not answered if it's outside our suffix: no A record and
    // no authoritative NXDOMAIN, since we aren't its authority.
    let mut zone = empty_zone();
    zone.insert("evil.example.com".into(), v4(10, 0, 0, 1));

    let reply = answer(&query_bytes("evil.example.com."), &zone).unwrap();
    let msg = Message::from_vec(&reply).unwrap();
    assert!(msg.answers.is_empty());
    assert_eq!(msg.metadata.response_code, ResponseCode::NoError);
}

#[test]
fn serves_over_udp_socket() {
    let mut zone = empty_zone();
    zone.insert("host-b.nodeb.lan.unity.internal".into(), v4(100, 69, 1, 2));
    let reply = answer(&query_bytes("host-b.nodeb.lan.unity.internal."), &zone).unwrap();
    // What goes onto a socket fits a datagram.
    assert!(reply.len() <= 512);
    let msg = Message::from_vec(&reply).unwrap();
    assert_eq!(msg.answers.len(), 1);
}

#[test]
fn other_types_are_neither_answered_nor_denied() {
    let zone = empty_zone();
    let mut m = Message::query();
    m.add_query(Query::query(
        Name::from_ascii("nobody.unity.internal.").unwrap(),
        RecordType::AAAA,
    ));
    let reply = answer(&m.to_vec().unwrap(), &zone).unwrap();
    let msg = Message::from_vec(&reply).unwrap();
    assert!(msg.answers.is_empty());
    assert_eq!(msg.metadata.response_code, ResponseCode::NoError);
    assert_eq!(msg.queries.len(), 1);
}

fn me(domain: Option<&str>) -> SelfDevice {
    SelfDevice {
        community_name: "c".into(),
        user_id: 1,
        username: "alice".into(),
        networks: Vec::new(),
        wg_ip: v4(100, 64, 0, 1),
        wg_net: Net { addr: v4(100, 64, 0, 0), prefix: 10 },
        hostname: "Laptop.alice.unity.internal".into(),
        is_primary: true,
        grant_expires_at: 0,
        primary_alias: Some("alice.unity.internal".into()),
        networks_status: Vec::new(),
        dns_domain: domain.map(|d| d.to_string()),
    }
}

fn seed(hostname: &str, last: u8) -> SeedPeer {
    SeedPeer {
        pubkey: [last; 32],
        user_id: 2,
        username: "bob".into(),
        ip: v4(100, 64, 0, last),
        endpoint: None,
        punch: None,
        hostname: hostname.into(),
        primary_alias: None,
        networks: vec![],
        relay: None,
        ice: None,
        rev: 0,
        expires_at: 0,
    }
}

#[test]
fn the_zone_follows_the_membership() {
    let mut zone = empty_zone();
    let seeds = vec![seed("box.bob.unity.internal", 7)];
    assert!(update(&mut zone, &me(None), &seeds));
    assert!(!update(&mut zone, &me(None), &seeds), "the same membership");
    assert_eq!(zone.names.len(), 3);
    assert_eq!(
        zone.names.get(&"laptop.alice.unity.internal".to_string()),
        Some(&v4(100, 64, 0, 1))
    );
    assert!(update(&mut zone, &me(None), &vec![]), "a peer left");
    assert_eq!(zone.names.len(), 2);
    assert!(update(&mut zone, &me(Some("mesh.example.com")), &seeds));
    assert_eq!(zone.names.len(), 6);
    assert_eq!(
        zone.names.get(&"box.bob.mesh.example.com".to_string()),
        Some(&v4(100, 64, 0, 7))
    );
    assert_eq!(zone.insert("x.unity.internal".into(), 1), None);
    assert_eq!(zone.insert("x.unity.internal".into(), 2), Some(1));
}
