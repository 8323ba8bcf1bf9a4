use unitylan::api::PeerReach;
use unitylan::assoc::Assoc;
use unitylan::daemon::{
    drop_lapsed, due_for_pull, echo_targets, measure, survey, want_relay, Handshake, PeerConn, PeerStats, Round,
    SentReport, BOOTSTRAP_STUCK_SECS,
};
use unitylan::mesh::{
    IceEndpoint, IceParams, NetworkStatus, ObservedEndpoint, RelayAllocation, SeedPeer,
    SharedNetwork,
};
use unitylan::net::{endpoint_v4, v4};
use unitylan::netcfg::NetId;
use unitylan::peering::{filter_active, peer_sets};
use unitylan::tunnel::PeerConfig;

const STUCK: u64 = 30;

#[test]
fn step_ages_attempt_then_flags_the_flip() {
    let t0 = 5_000;
    let mut c = PeerConn::new();
    // First sight, unconnected inside the grace window: Direct, and never a flip (no prior).
    let s = c.step(t0, false, false, false, false, false, STUCK);
    assert_eq!(s.reach, PeerReach::Direct);
    assert!(s.flipped.is_none());
    // Aged past the classifier grace with no handshake → Unreachable, and the edge is reported.
    let s = c.step(t0 + STUCK * 1000, false, false, false, false, false, STUCK);
    assert_eq!(s.reach, PeerReach::Unreachable);
    assert_eq!(s.flipped, Some((false, PeerReach::Direct)));
    // A handshake clears the attempt timer: back to Direct/up, flip reported once more.
    let s = c.step(t0 + (STUCK + 1) * 1000, false, true, false, false, false, STUCK);
    assert_eq!(s.reach, PeerReach::Direct);
    assert_eq!(s.flipped, Some((false, PeerReach::Unreachable)));
    // Steady state re-reports the same pair without a flip.
    assert!(c
        .step(t0 + (STUCK + 2) * 1000, false, true, false, false, false, STUCK)
        .flipped
        .is_none());
}

#[test]
fn step_bootstrap_timer_arms_and_clears() {
    let t0 = 5_000;
    let mut c = PeerConn::new();
    // Unpunchable + unconnected arms the bootstrap timer, but not stuck yet.
    assert!(!c.step(t0, false, false, true, false, false, STUCK).bootstrap_stuck);
    // Aged past the bootstrap grace → stuck (drives ICE escalation).
    assert!(
        c.step(t0 + BOOTSTRAP_STUCK_SECS * 1000, false, false, true, false, false, STUCK)
            .bootstrap_stuck
    );
    // A handshake clears it even while still unpunchable.
    assert!(
        !c.step(t0 + (BOOTSTRAP_STUCK_SECS + 1) * 1000, false, true, true, false, false, STUCK)
            .bootstrap_stuck
    );
}

#[test]
fn step_relay_and_ice_override_the_classifier() {
    let t0 = 5_000;
    let mut c = PeerConn::new();
    // Aged-out + punched would classify Unreachable, but an active relay wins.
    let s = c.step(t0 + STUCK * 1000, true, false, false, true, false, STUCK);
    assert_eq!(s.reach, PeerReach::Relayed);
    // ICE likewise wins over the punch classifier.
    let s = c.step(t0 + STUCK * 1000, true, false, false, false, true, STUCK);
    assert_eq!(s.reach, PeerReach::Ice);
}

#[test]
fn sent_report_stale_on_each_reportable_change() {
    let ep = endpoint_v4(1, 2, 3, 4, 5);
    let observed = || vec![ObservedEndpoint { pubkey: [1; 32], endpoint: ep }];
    let relay_need = || vec![[2u8; 32]];
    let relay_alloc = || vec![RelayAllocation { peer: [3; 32], relayed: ep }];
    let ice = || {
        vec![IceEndpoint {
            peer: [4; 32],
            params: IceParams { ufrag: "u".into(), pwd: "p".into(), candidates: vec![] },
        }]
    };

    // Already holding exactly these sets → not stale against them (the idle recheck keeps parking).
    let sent = SentReport {
        observed: observed(),
        relay_need: relay_need(),
        relay_alloc: relay_alloc(),
        ice_offers: ice(),
    };
    assert!(!sent.stale(&observed(), &relay_need(), &relay_alloc(), &ice()));

    // Any single set differing makes the held poll stale (must drop it and report at once).
    assert!(sent.stale(&vec![], &relay_need(), &relay_alloc(), &ice()), "observed");
    assert!(sent.stale(&observed(), &vec![], &relay_alloc(), &ice()), "relay_need");
    assert!(sent.stale(&observed(), &relay_need(), &vec![], &ice()), "relay_alloc");
    assert!(sent.stale(&observed(), &relay_need(), &relay_alloc(), &vec![]), "ice");

    // Nothing reported yet is stale against any non-empty report, but not against an empty one.
    assert!(SentReport::new().stale(&observed(), &vec![], &vec![], &vec![]));
    assert!(!SentReport::new().stale(&vec![], &vec![], &vec![], &vec![]));
}

/// Stable fake ids per role name, so two seeds naming the same network agree on its identity.
fn ids(name: &str) -> (u64, u64) {
    match name {
        "minecraft" => (900_100, 7001),
        "factorio" => (900_200, 7002),
        other => panic!("unknown fixture network {other}"),
    }
}

fn seed(user_id: u64, last_octet: u8, nets: &[&str]) -> SeedPeer {
    SeedPeer {
        pubkey: [0; 32],
        user_id,
        username: "u".into(),
        ip: v4(100, 64, 0, last_octet),
        endpoint: None,
        punch: None,
        hostname: "d.u.unity.internal".into(),
        primary_alias: None,
        networks: nets
            .iter()
            .map(|n| {
                let (guild_id, role_id) = ids(n);
                SharedNetwork {
                    name: (*n).into(),
                    community: "acme".into(),
                    guild_id,
                    role_id,
                }
            })
            .collect(),
        relay: None,
        ice: None,
        rev: 0,
        expires_at: 0,
    }
}

/// The own-device source set is drawn from peer *identity*, not from any network — so it admits
/// our other devices (whatever networks they're in) and nobody else. Getting this wrong would
/// hand a stranger a port the owner scoped to themselves.
#[test]
fn own_device_sources_are_the_owners_devices_only() {
    let me = 7;
    let seeds = vec![
        seed(me, 2, &["minecraft"]), // another device of ours
        seed(me, 3, &[]),            // ...and one sharing no network at all
        seed(99, 4, &["minecraft"]), // a co-member, not us
    ];

    let (sets, _) = peer_sets(&seeds, Some(me));
    assert_eq!(sets.own_devices, vec![v4(100, 64, 0, 2), v4(100, 64, 0, 3)]);
    let mc = sets
        .nets
        .iter()
        .find(|n| n.name == "minecraft")
        .expect("minecraft network present");
    assert_eq!(
        mc.ips,
        vec![v4(100, 64, 0, 2), v4(100, 64, 0, 4)],
        "network grouping is unaffected by the own-device split",
    );
    assert_eq!((mc.guild_id, mc.role_id), ids("minecraft"));
}

/// A coordinator that predates the network ids sends none, so its networks arrive with `0`s.
/// Zero is not an identity — inventing one would merge every such network into a single source
/// set and cross-admit all of them — so they're dropped from the scopable set entirely.
#[test]
fn networks_without_ids_are_not_scopable() {
    let mut s = seed(7, 2, &["minecraft"]);
    s.networks[0].guild_id = 0;
    s.networks[0].role_id = 0;

    let (sets, unidentified) = peer_sets(&vec![s], Some(1));
    assert!(
        sets.nets.is_empty(),
        "a network with no identity must not become a scope target",
    );
    assert_eq!(unidentified, vec!["minecraft".to_string()]);
}

/// Before enrollment we don't know who we are, so nothing qualifies as our own device.
#[test]
fn own_device_sources_are_empty_without_an_identity() {
    let (sets, _) = peer_sets(&vec![seed(7, 2, &["minecraft"])], None);
    assert!(sets.own_devices.is_empty());
}

#[test]
fn a_blocked_user_is_no_peer_in_any_network() {
    let seeds = vec![seed(5, 2, &["minecraft"]), seed(6, 3, &["minecraft", "factorio"])];
    let status = |name: &str, enabled: bool| {
        let (guild_id, role_id) = ids(name);
        NetworkStatus { guild_id, role_id, name: name.into(), guild_name: "acme".into(), enabled }
    };
    let nets = vec![status("minecraft", true), status("factorio", true)];
    let mut blocked: Assoc<u64, String> = Assoc::new();
    let mut disabled: Assoc<NetId, ()> = Assoc::new();
    let both = filter_active(&seeds, &disabled, &blocked, &nets);
    assert_eq!(both.len(), 2);
    blocked.insert(6, "six".to_string());
    let left = filter_active(&seeds, &disabled, &blocked, &nets);
    assert_eq!(left.len(), 1);
    assert_eq!(left[0].user_id, 5);
    disabled.insert(ids("minecraft"), ());
    assert!(filter_active(&seeds, &disabled, &blocked, &nets).is_empty());
}

fn keyed(user_id: u64, key: u8) -> SeedPeer {
    SeedPeer { pubkey: [key; 32], ..seed(user_id, key, &[]) }
}

fn peer(last: u8) -> PeerConfig {
    PeerConfig {
        public_key: [last; 32],
        allowed_ips: vec![(v4(100, 64, 0, last), 32)],
        endpoint: None,
        keepalive: Some(25),
    }
}

#[test]
fn a_peer_that_stays_dark_wants_help() {
    let seeds = vec![keyed(5, 2), keyed(5, 3)];
    let peers = vec![peer(2), peer(3)];
    let mut conns: Assoc<[u8; 32], PeerConn> = Assoc::new();
    let mut stats = Assoc::new();
    stats.insert(
        [2u8; 32],
        PeerStats {
            endpoint: None,
            handshake: Handshake::Ago(1_000),
            rx_bytes: 10,
            tx_bytes: 20,
        },
    );
    let stats = Some(stats);
    let none = vec![];
    let round = |now: u64| Round {
        now,
        seeds: &seeds,
        stats: &stats,
        relaying: &none,
        icing: &none,
        ice_enabled: true,
        stuck_after: STUCK,
    };
    let first = survey(&round(1_000), &mut conns, &peers);
    assert_eq!(first.len(), 2);
    assert!(first[0].up);
    assert_eq!(first[0].rx_bytes, 10);
    assert_eq!(first[0].last_handshake_secs, Some(1));
    assert!(!first[1].up);
    assert!(want_relay(&peers, &first).is_empty());
    let later = survey(&round(1_000 + STUCK * 1_000), &mut conns, &peers);
    assert_eq!(later[1].step.reach, PeerReach::Unreachable);
    assert_eq!(want_relay(&peers, &later), vec![[3u8; 32]]);
    // An echo that came back is shown, and tells that the peer answers.
    assert_eq!(echo_targets(&peers), vec![v4(100, 64, 0, 2), v4(100, 64, 0, 3)]);
    let mut latency = Assoc::new();
    latency.insert(v4(100, 64, 0, 2), 12);
    let m = measure(&peers, &later, &latency);
    assert_eq!(m.live.get(&v4(100, 64, 0, 2)).unwrap().latency_ms, Some(12));
    assert_eq!(m.live.get(&v4(100, 64, 0, 3)).unwrap().reach, PeerReach::Unreachable);
    assert_eq!(m.reachable.get(&[2u8; 32]), Some(&true));
    assert_eq!(m.reachable.get(&[3u8; 32]), Some(&false));
    // A peer that left is forgotten.
    survey(&round(90_000), &mut conns, &vec![peer(2)]);
    assert!(!conns.contains(&[3u8; 32]));
}

#[test]
fn lapsed_peers_go() {
    let mut a = keyed(1, 2);
    a.expires_at = 100;
    let mut b = keyed(1, 3);
    b.expires_at = 1_000;
    assert!(due_for_pull(&a, 50, 60));
    assert!(!due_for_pull(&b, 50, 60));
    let mut seeds = vec![a, b];
    assert_eq!(drop_lapsed(&mut seeds, 500), 1);
    assert_eq!(seeds.len(), 1);
    assert_eq!(seeds[0].pubkey, [3u8; 32]);
}
