use unitylan::assoc::Assoc;
use unitylan::mesh::{IceParams, RelayInfo, SeedPeer};
use unitylan::net::{endpoint_v4, v4, Endpoint};
use unitylan::tunnel::{
    apply_seeds, choose_way, sync_ice, sync_relays, Endpoints, PeerConfig, PeerOp, KEEPALIVE,
};

type Ways = Assoc<[u8; 32], Endpoint>;

fn seed(key: u8) -> SeedPeer {
    SeedPeer {
        pubkey: [key; 32],
        user_id: 1,
        username: "u".into(),
        ip: v4(100, 64, 0, key),
        endpoint: Some(endpoint_v4(10, 0, 0, key, 51820)),
        punch: Some(endpoint_v4(203, 0, 113, key, 4000)),
        hostname: "d.u.unity.internal".into(),
        primary_alias: None,
        networks: vec![],
        relay: None,
        ice: None,
        rev: 0,
        expires_at: 0,
    }
}

fn relay() -> RelayInfo {
    RelayInfo {
        turn_addr: endpoint_v4(198, 51, 100, 1, 3478),
        username: "u".into(),
        credential: "c".into(),
        realm: "r".into(),
        peer_relayed: None,
    }
}

/// A way on the local segment is taken before the place that the coordinator names, that before a
/// negotiated path, that before a relay, and that before a punch.
#[test]
fn ways_are_taken_in_order() {
    let mut s = seed(2);
    let (mut r, mut i, mut l): (Ways, Ways, Ways) = (Assoc::new(), Assoc::new(), Assoc::new());
    let a = endpoint_v4(127, 0, 0, 1, 1);
    let b = endpoint_v4(127, 0, 0, 1, 2);
    let c = endpoint_v4(192, 168, 0, 9, 3);
    l.insert([2; 32], c);
    i.insert([2; 32], b);
    r.insert([2; 32], a);
    assert_eq!(choose_way(&s, &Endpoints { relay: &r, ice: &i, lan: &l }), Some(c));
    l.remove(&[2; 32]);
    assert_eq!(choose_way(&s, &Endpoints { relay: &r, ice: &i, lan: &l }), s.endpoint);
    s.endpoint = None;
    assert_eq!(choose_way(&s, &Endpoints { relay: &r, ice: &i, lan: &l }), Some(b));
    i.remove(&[2; 32]);
    assert_eq!(choose_way(&s, &Endpoints { relay: &r, ice: &i, lan: &l }), Some(a));
    r.remove(&[2; 32]);
    assert_eq!(choose_way(&s, &Endpoints { relay: &r, ice: &i, lan: &l }), s.punch);
    s.punch = None;
    assert_eq!(choose_way(&s, &Endpoints { relay: &r, ice: &i, lan: &l }), None);
}

#[test]
fn the_tunnel_is_told_only_of_what_changed() {
    let none: Ways = Assoc::new();
    let w = Endpoints { relay: &none, ice: &none, lan: &none };
    let mut peers: Vec<PeerConfig> = Vec::new();
    let ops = apply_seeds(&vec![seed(2), seed(3)], &mut peers, &w);
    assert_eq!(ops.len(), 2);
    assert_eq!(peers.len(), 2);
    assert_eq!(peers[0].allowed_ips, vec![(v4(100, 64, 0, 2), 32)]);
    assert_eq!(peers[0].keepalive, Some(KEEPALIVE));
    assert!(matches!(&ops[0], PeerOp::Put(p) if p.public_key == [2; 32]));

    assert!(apply_seeds(&vec![seed(2), seed(3)], &mut peers, &w).is_empty());

    // A peer that left is removed, and one that moved is taken up anew.
    let mut moved = seed(2);
    moved.ip = v4(100, 64, 0, 99);
    let ops = apply_seeds(&vec![moved], &mut peers, &w);
    assert!(ops.iter().any(|o| matches!(o, PeerOp::Remove(k) if *k == [3; 32])));
    assert!(ops.iter().any(|o| matches!(o, PeerOp::Remove(k) if *k == [2; 32])));
    assert!(matches!(ops.last(), Some(PeerOp::Put(p)) if p.public_key == [2; 32]));
    assert_eq!(peers.len(), 1);
    assert_eq!(peers[0].allowed_ips, vec![(v4(100, 64, 0, 99), 32)]);
}

#[test]
fn a_reservation_is_a_relay_session() {
    let mut s = seed(2);
    s.relay = Some(relay());
    let plans = sync_relays(&vec![seed(3), s]);
    assert_eq!(plans.len(), 1);
    assert_eq!(plans[0].peer, [2; 32]);
    assert_eq!(plans[0].info.username, "u");
}

#[test]
fn the_lower_key_leads_and_a_relay_is_asked_first() {
    let coord = endpoint_v4(192, 0, 2, 1, 3478);
    let mut s = seed(2);
    s.relay = Some(relay());
    let plans = sync_ice(&vec![s, seed(3)], &[1; 32], Some(coord), &vec![[2; 32]], &vec![]);
    assert_eq!(plans.len(), 1, "only a peer that wants a path");
    assert!(plans[0].config.controlling);
    assert_eq!(plans[0].config.stun, vec![relay().turn_addr, coord]);

    // A session that is under way is kept, and the higher key follows.
    let mut offered = seed(3);
    offered.ice = Some(IceParams { ufrag: "a".into(), pwd: "b".into(), candidates: vec![] });
    let plans = sync_ice(&vec![offered], &[9; 32], None, &vec![], &vec![[3; 32]]);
    assert_eq!(plans.len(), 1);
    assert!(!plans[0].config.controlling);
    assert_eq!(plans[0].config.remote.as_ref().unwrap().ufrag, "a");
}
