use unitylan::assoc::Assoc;
use unitylan::coord::{
    AnchorInfo, Attestation, CoordError, Grant, GuildAttestation, Reading, RegisterResp, Seed,
    UpgradeRequired,
};
use unitylan::daemon::SentReport;
use unitylan::keys::PinError;
use unitylan::lifecycle::{
    answered_attempt, failed_attempt, Attempt, MeshLoop, Next, Overlay,
};
use unitylan::membership::{refreshing, registering, Identity, Membership};
use unitylan::mesh::{HeldPeer, ObservedEndpoint, RelayReport};
use unitylan::net::{endpoint_v4, v4, Net};
use unitylan::netcfg::{LocalNet, SavedNet};

const GUILD: u64 = 42;
const ANCHOR: [u8; 32] = [0xaa; 32];

fn blob(pubkey: [u8; 32], expires_at: u64, anchor: [u8; 32]) -> GuildAttestation {
    GuildAttestation {
        community_name: "acme".into(),
        readings: vec![Reading {
            guild_id: GUILD,
            anchor,
            attestation: Attestation {
                guild_id: GUILD,
                user_id: 5,
                username: "neo".into(),
                device_name: "box".into(),
                is_primary: false,
                wg_ip: v4(100, 64, 0, pubkey[0]),
                wg_net: Net { addr: v4(100, 64, 0, 0), prefix: 10 },
                wg_pubkey: pubkey,
                issued_at: 0,
                expires_at,
            },
        }],
    }
}

fn seed(pubkey: [u8; 32]) -> Seed {
    Seed {
        attestations: vec![blob(pubkey, 10_000, ANCHOR)],
        endpoint: None,
        punch: None,
        networks: Vec::new(),
        relay: None,
        ice: None,
        rev: 1,
    }
}

fn answer(anchor: [u8; 32], seeds: Vec<Seed>) -> RegisterResp {
    RegisterResp {
        anchors: vec![AnchorInfo { guild_id: GUILD, pubkey: anchor, rotated_from: Vec::new() }],
        grant: Some(Grant {
            networks: vec!["games".into()],
            attestations: vec![blob([1; 32], 10_000, ANCHOR)],
        }),
        networks: Vec::new(),
        dns_domain: None,
        seeds,
        partial: false,
        removed: Vec::new(),
    }
}

#[test]
fn an_answer_makes_the_device_and_its_peers() {
    let mut pins = Assoc::new();
    let mut m = Membership::new();
    let t = m.take_in(&answer(ANCHOR, vec![seed([2; 32]), seed([3; 32])]), &mut pins);
    assert_eq!(t.written, vec![GUILD]);
    assert!(t.refused.is_none());
    assert_eq!(m.device.as_ref().unwrap().wg_ip, v4(100, 64, 0, 1));
    assert_eq!(m.seeds.len(), 2);

    // A swapped anchor is refused, and nothing is lost by it.
    let t = m.take_in(&answer([0xee; 32], vec![]), &mut pins);
    assert!(t.written.is_empty());
    assert!(matches!(
        t.refused,
        Some(CoordError::Anchor(PinError::NoPath { guild_id: GUILD }))
    ));
    assert_eq!(m.seeds.len(), 2);

    // A partial answer removes what it says.
    let delta = RegisterResp {
        partial: true,
        removed: vec![[3; 32]],
        ..answer(ANCHOR, vec![])
    };
    assert!(m.take_in(&delta, &mut pins).refused.is_none());
    assert_eq!(m.seeds.len(), 1);
    assert_eq!(m.seeds[0].pubkey, [2; 32]);

    // A device whose access is revoked keeps its name and loses its peers.
    let revoked = RegisterResp { grant: None, ..answer(ANCHOR, vec![]) };
    assert!(m.take_in(&revoked, &mut pins).refused.is_none());
    assert!(m.seeds.is_empty());
    assert!(m.device.is_some());
}

#[test]
fn a_grant_that_no_pin_reads_is_refused() {
    let mut pins = Assoc::new();
    let mut m = Membership::new();
    let forged = RegisterResp {
        grant: Some(Grant {
            networks: Vec::new(),
            attestations: vec![blob([1; 32], 10_000, [0xee; 32])],
        }),
        ..answer(ANCHOR, vec![seed([2; 32])])
    };
    assert!(matches!(m.take_in(&forged, &mut pins).refused, Some(CoordError::NoGrant)));
    assert!(m.seeds.is_empty() && m.device.is_none());
}

fn news() -> SentReport {
    let mut r = SentReport::new();
    r.observed =
        vec![ObservedEndpoint { pubkey: [1; 32], endpoint: endpoint_v4(1, 2, 3, 4, 5) }];
    r
}

#[test]
fn what_was_told_is_told_once() {
    let mut pins = Assoc::new();
    let mut m = Membership::new();
    let mut l = MeshLoop::new(7, false, 15);
    l.poll(&news(), None, 100, 60, &vec![], &vec![]);
    let resp = answer(ANCHOR, vec![seed([2; 32])]);
    let (taken, next) = l.answered(&mut m, &mut pins, &resp, 9, news());
    assert!(taken.refused.is_none());
    assert!(matches!(next, Next::Remesh(Overlay::Relay)));
    assert_eq!(m.seeds.len(), 1);
    let p = l.poll(&news(), None, 100, 60, &vec![], &vec![]);
    assert!(!p.withdraw);
    assert_eq!(p.issue, Some(Some(9)));
}

/// A removal in an answer that is refused is not lost: it is asked for again at the same version.
#[test]
fn a_refused_answer_is_asked_for_again() {
    let mut pins = Assoc::new();
    let mut m = Membership::new();
    let mut l = MeshLoop::new(7, true, 15);
    let quiet = SentReport::new();
    let all = answer(ANCHOR, vec![seed([2; 32]), seed([3; 32])]);
    l.answered(&mut m, &mut pins, &all, 8, SentReport::new());
    let removal = |anchor: [u8; 32], signer: [u8; 32]| RegisterResp {
        grant: Some(Grant {
            networks: Vec::new(),
            attestations: vec![blob([1; 32], 10_000, signer)],
        }),
        partial: true,
        removed: vec![[3; 32]],
        ..answer(anchor, vec![])
    };
    for bad in [removal([0xee; 32], ANCHOR), removal(ANCHOR, [0xee; 32])] {
        assert_eq!(l.poll(&quiet, None, 100, 60, &vec![], &vec![]).issue, Some(Some(8)));
        let (taken, next) = l.answered(&mut m, &mut pins, &bad, 9, news());
        assert!(matches!(taken.refused, Some(CoordError::Anchor(_)) | Some(CoordError::NoGrant)));
        assert!(matches!(next, Next::Wait { secs: 15, refused: None }));
        assert!(!l.coord_online && !l.pending);
        assert_eq!(l.since, Some(8));
        assert!(l.sent.observed.is_empty());
        assert_eq!(m.seeds.len(), 2);
    }
    assert_eq!(l.poll(&quiet, None, 100, 60, &vec![], &vec![]).issue, Some(Some(8)));
    let (taken, next) = l.answered(&mut m, &mut pins, &removal(ANCHOR, ANCHOR), 9, news());
    assert!(taken.refused.is_none() && matches!(next, Next::Remesh(Overlay::Ice)));
    assert!(l.coord_online);
    assert_eq!((l.since, m.seeds.len()), (Some(9), 1));
    assert_eq!(l.sent.observed.len(), 1);
}

#[test]
fn a_registration_is_ready_only_with_a_grant_that_is_read() {
    let mut pins = Assoc::new();
    let mut m = Membership::new();
    let none = RegisterResp { grant: None, ..answer(ANCHOR, vec![]) };
    let (t, a) = answered_attempt(&mut m, &mut pins, &none);
    assert!(t.refused.is_none() && matches!(a, Attempt::NoNetworks) && m.device.is_none());
    let (t, a) = answered_attempt(&mut m, &mut pins, &answer(ANCHOR, vec![]));
    assert!(t.refused.is_none() && matches!(a, Attempt::Ready) && m.device.is_some());

    let mut fresh = Membership::new();
    let (t, a) = answered_attempt(&mut fresh, &mut pins, &answer([0xee; 32], vec![]));
    assert!(t.refused.is_some() && fresh.device.is_none());
    match a {
        Attempt::Failed(why) => assert!(why.contains("no valid rotation path"), "{why}"),
        _ => panic!("a swapped anchor was let through"),
    }
    match failed_attempt(&CoordError::NoGrant) {
        Attempt::Failed(why) => assert_eq!(
            why,
            "verifying grant: no grant attestation verified against a pinned guild anchor"
        ),
        _ => panic!("a grant that nobody reads was let through"),
    }
    let rejected = CoordError::Rejected("coordinator rejected /register: 401: log in".into());
    assert!(matches!(failed_attempt(&rejected), Attempt::Failed(w) if w.ends_with("log in")));
    let old = CoordError::Upgrade(UpgradeRequired("too old".into()));
    assert!(matches!(failed_attempt(&old), Attempt::Refused(w) if w == "too old"));
}

#[test]
fn a_peer_renews_itself_and_nobody_else() {
    let mut pins = Assoc::new();
    let mut m = Membership::new();
    m.take_in(&answer(ANCHOR, vec![seed([2; 32]), seed([3; 32])]), &mut pins);
    let pinned = vec![(GUILD, ANCHOR)];
    assert!(m.pulled(0, &vec![blob([2; 32], 20_000, ANCHOR)], &pinned));
    assert_eq!(m.seeds[0].expires_at, 20_000);
    assert_eq!(m.seeds[1].expires_at, 10_000);
    assert!(!m.pulled(1, &vec![blob([2; 32], 30_000, ANCHOR)], &pinned));
    assert!(!m.pulled(1, &vec![blob([3; 32], 30_000, [0xee; 32])], &pinned));
    assert_eq!(m.seeds[1].expires_at, 10_000);
}

#[test]
fn statements_carry_what_the_owner_decided() {
    let who = Identity {
        wg_pubkey: [1; 32],
        device_name: "laptop".into(),
        endpoint: Some(endpoint_v4(1, 2, 3, 4, 51820)),
        enrollment_key: Some("k".into()),
    };
    let saved = SavedNet {
        disabled: Some(vec![(1, 2)]),
        paused: Some(true),
        known: None,
        disable_new: None,
        peer_own: Some(false),
        blocked: None,
    };
    let local = LocalNet::load(&saved, true, true);
    let relay = RelayReport {
        capable: true,
        addr: None,
        secret: Some("s".into()),
        need_relay: Vec::new(),
        allocated: Vec::new(),
    };
    let r = registering(&who, &local, &relay, Some("old".into()));
    assert_eq!(r.disabled_networks, vec![(1, 2)]);
    assert!(r.paused && !r.peer_own_devices && r.since.is_none());
    assert_eq!(r.supersede.as_deref(), Some("old"));

    let mut report = SentReport::new();
    report.relay_need = vec![[9; 32]];
    report.observed =
        vec![ObservedEndpoint { pubkey: [2; 32], endpoint: endpoint_v4(9, 9, 9, 9, 9) }];
    let held = vec![HeldPeer { pubkey: [2; 32], rev: 7 }];
    let r = refreshing(&who, &local, &relay, &report, Some(3), held);
    assert_eq!(r.since, Some(3));
    assert!(r.supersede.is_none());
    assert_eq!(r.relay.need_relay, vec![[9; 32]]);
    assert!(r.relay.capable);
    assert_eq!(r.observed.len(), 1);
    assert_eq!(r.held[0].rev, 7);
}
