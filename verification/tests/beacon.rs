use unitylan::assoc::Assoc;
use unitylan::beacon::{
    announce_gap, answer_probe, decode, encode, encode_kinded, Beacon, Candidate, LanState,
    Received, ANNOUNCE_LEN, CAND_TTL, KIND_ACK, KIND_PROBE, MAC_LEN, NONCE_LEN, PROBE_BACKOFF,
    PROBE_GRACE, RETRY_COOLDOWN, SEND_INTERVAL, SETTLE, STALE_GRACE, VERIFY_GRACE,
};
use unitylan::net::{endpoint_v4, Endpoint};

fn ep(last: u8, port: u16) -> Endpoint {
    endpoint_v4(192, 168, 4, last, port)
}

const NONCE: [u8; NONCE_LEN] = [3u8; NONCE_LEN];
const MAC: [u8; MAC_LEN] = [4u8; MAC_LEN];

#[test]
fn codec_roundtrips() {
    let pk = [7u8; 32];
    let m = decode(&encode(&pk, 51820)).unwrap();
    assert_eq!(m.pk, pk);
    assert_eq!(m.port, 51820);
    assert!(m.kinded.is_none());

    let probe = decode(&encode_kinded(&pk, 51820, KIND_PROBE, &NONCE, &MAC)).unwrap();
    let k = probe.kinded.unwrap();
    assert_eq!(k.kind, KIND_PROBE);
    assert_eq!(k.nonce, NONCE);
    assert_eq!(k.mac, MAC);
    assert_eq!(
        decode(&encode_kinded(&pk, 1, KIND_ACK, &NONCE, &MAC))
            .unwrap()
            .kinded
            .unwrap()
            .kind,
        KIND_ACK
    );
}

#[test]
fn codec_rejects_junk() {
    assert!(decode(b"nope").is_none()); // wrong length
    let mut bad = encode(&[1u8; 32], 1);
    bad[4] = 9; // unknown version
    assert!(decode(&bad).is_none());
    let mut bad_kind = encode_kinded(&[1u8; 32], 1, KIND_PROBE, &NONCE, &MAC);
    bad_kind[ANNOUNCE_LEN] = 9; // unknown kind
    assert!(decode(&bad_kind).is_none());
}

#[test]
fn announcements_begin_with_a_burst() {
    let gaps: Vec<u64> = (0..5).map(announce_gap).collect();
    assert_eq!(gaps, vec![0, 1_000, 2_000, SEND_INTERVAL, SEND_INTERVAL]);
}

/// A beacon that has heard of one candidate.
fn with_candidate(pk: [u8; 32], addr: Endpoint, seen: u64) -> Beacon {
    let mut b = Beacon::new();
    set_candidate(&mut b, pk, addr, seen);
    b
}

/// Overwrite a peer's candidate (a rotating-source flood, or a refreshed beacon).
fn set_candidate(b: &mut Beacon, pk: [u8; 32], addr: Endpoint, seen: u64) {
    b.candidates.insert(pk, Candidate { addr, seen });
}

/// Pretend a probe for `pk` was answered by `addr` at `at`.
fn seed_ack(b: &mut Beacon, pk: [u8; 32], addr: Endpoint, at: u64) {
    assert!(b.record_ack(pk, addr, &MAC, Some(MAC), at));
}

fn health(peers: &[([u8; 32], bool)]) -> Assoc<[u8; 32], bool> {
    let mut a = Assoc::new();
    for (k, ok) in peers {
        a.insert(*k, *ok);
    }
    a
}

fn route(b: &mut Beacon, now: u64, reachable: &Assoc<[u8; 32], bool>, pk: &[u8; 32]) -> Option<Endpoint> {
    b.select(now, reachable).routes.get(pk).copied()
}

const T0: u64 = 1_000_000;

#[test]
fn adopts_lan_endpoint_once_the_probe_is_answered() {
    // The core flow: a candidate is not routed until a valid ack arrives, then confirms.
    let pk = [1u8; 32];
    let addr = ep(118, 51820);
    let t0 = T0;
    let mut b = with_candidate(pk, addr, t0);

    // First pass: unproven → Probing, not routed (works the same whether the peer is up or down).
    let up = health(&[(pk, true)]);
    let first = b.select(t0, &up);
    assert!(first.routes.get(&pk).is_none());
    assert_eq!(first.probes, vec![(pk, addr)]);
    assert!(matches!(b.states.get(&pk), Some(LanState::Probing { .. })));

    // The peer answers the probe → switch, then confirm Active after SETTLE.
    seed_ack(&mut b, pk, addr, t0);
    let t1 = t0 + 1_000;
    assert_eq!(route(&mut b, t1, &up, &pk), Some(addr));
    assert_eq!(route(&mut b, t1 + SETTLE + 1, &up, &pk), Some(addr));
    assert!(matches!(b.states.get(&pk), Some(LanState::Active { .. })));
}

#[test]
fn unanswered_probe_never_routes_and_backs_off() {
    // A forged or dead candidate can't be answered (no WG key), so it never routes — neither a
    // working tunnel (ok=true) nor a dark one (ok=false) is ever disturbed.
    for ok in [true, false] {
        let pk = [9u8; 32];
        let addr = ep(200, 51820); // attacker-advertised / dead endpoint
        let t0 = T0;
        let mut b = with_candidate(pk, addr, t0);
        let health = health(&[(pk, ok)]);

        assert!(route(&mut b, t0, &health, &pk).is_none()); // Probing, not routed
        let t1 = t0 + PROBE_GRACE + 1;
        assert!(route(&mut b, t1, &health, &pk).is_none()); // gave up
        assert!(!b.states.contains(&pk));
        // ...and doesn't re-probe until the backoff elapses.
        assert!(route(&mut b, t1 + 1_000, &health, &pk).is_none());
        assert!(!b.states.contains(&pk));
        // After the backoff, it tries again.
        let t2 = t1 + PROBE_BACKOFF + 1_000;
        set_candidate(&mut b, pk, addr, t2);
        assert!(route(&mut b, t2, &health, &pk).is_none());
        assert!(matches!(b.states.get(&pk), Some(LanState::Probing { .. })));
    }
}

#[test]
fn reverts_endpoint_that_answers_but_carries_no_traffic() {
    // The peer answered the probe (so the candidate is genuine), but WG traffic never flows —
    // revert after the grace and hold off for the short cooldown.
    let pk = [2u8; 32];
    let addr = ep(118, 51820);
    let t0 = T0;
    let mut b = with_candidate(pk, addr, t0);
    let down = health(&[(pk, false)]);
    seed_ack(&mut b, pk, addr, t0);

    // Ack present → switch and route while verifying...
    assert_eq!(route(&mut b, t0, &down, &pk), Some(addr));
    // ...but still no traffic past the grace → reverts and holds off.
    assert!(route(&mut b, t0 + VERIFY_GRACE + 1, &down, &pk).is_none());
    let Some(LanState::Failed { until, .. }) = b.states.get(&pk) else {
        panic!("expected Failed");
    };
    assert_eq!(*until, t0 + VERIFY_GRACE + 1 + RETRY_COOLDOWN);
}

#[test]
fn proven_endpoint_survives_a_blip_and_returns_quickly() {
    // Stickiness: a LAN path that carried traffic isn't demoted on brief loss, and when it does
    // go it returns after the short cooldown.
    let pk = [3u8; 32];
    let addr = ep(118, 51820);
    let t0 = T0;
    let mut b = with_candidate(pk, addr, t0);
    let up = health(&[(pk, true)]);
    let down = health(&[(pk, false)]);
    seed_ack(&mut b, pk, addr, t0);

    // Probe answered → Trying → Active.
    b.select(t0, &up);
    b.select(t0 + SETTLE + 1, &up);
    assert!(matches!(b.states.get(&pk), Some(LanState::Active { .. })));

    // A blip well inside STALE_GRACE keeps the LAN endpoint routed.
    let t1 = t0 + SETTLE + 10_000;
    assert_eq!(route(&mut b, t1, &down, &pk), Some(addr));

    // Sustained loss past STALE_GRACE demotes it — with the short cooldown.
    let t2 = t0 + SETTLE + STALE_GRACE + 1_000;
    assert!(route(&mut b, t2, &down, &pk).is_none());
    let Some(LanState::Failed { until, .. }) = b.states.get(&pk) else {
        panic!("expected Failed");
    };
    assert_eq!(*until, t2 + RETRY_COOLDOWN);

    // Once the short cooldown elapses and the probe still answers, it re-adopts.
    let t3 = t2 + RETRY_COOLDOWN + 1_000;
    set_candidate(&mut b, pk, addr, t3);
    seed_ack(&mut b, pk, addr, t3);
    assert_eq!(route(&mut b, t3, &down, &pk), Some(addr));
}

#[test]
fn trying_sticks_to_its_address_ignoring_rotation() {
    // While verifying one candidate, a changed candidate address (a rotating flood) must not
    // hijack the in-flight attempt.
    let pk = [6u8; 32];
    let a1 = ep(118, 51820); // the real LAN endpoint we committed to
    let t0 = T0;
    let mut b = with_candidate(pk, a1, t0);
    let down = health(&[(pk, false)]);
    seed_ack(&mut b, pk, a1, t0);
    assert_eq!(route(&mut b, t0, &down, &pk), Some(a1));

    // Attacker overwrites the candidate mid-verification, still within SETTLE.
    set_candidate(&mut b, pk, ep(202, 51820), t0);
    // still a1, not the injected address
    assert_eq!(route(&mut b, t0 + 1_000, &down, &pk), Some(a1));
}

#[test]
fn expired_candidate_drops_adoption() {
    let pk = [3u8; 32];
    let addr = ep(118, 51820);
    let t0 = T0;
    let mut b = with_candidate(pk, addr, t0);
    let up = health(&[(pk, true)]);
    seed_ack(&mut b, pk, addr, t0);
    b.select(t0, &up); // ack present → Trying
    // No fresh beacon: past the TTL the candidate is gone → no LAN route, state cleared.
    assert!(route(&mut b, t0 + CAND_TTL + 1_000, &up, &pk).is_none());
    assert!(!b.states.contains(&pk));
}

#[test]
fn peer_leaving_mesh_clears_state() {
    let pk = [4u8; 32];
    let t0 = T0;
    let mut b = with_candidate(pk, ep(118, 51820), t0);
    seed_ack(&mut b, pk, ep(118, 51820), t0);
    b.select(t0, &health(&[(pk, true)])); // ack → Trying, holds state
    assert!(b.states.contains(&pk));
    // Peer absent from `reachable` (left the mesh) → state forgotten.
    b.select(t0 + 1, &health(&[]));
    assert!(!b.states.contains(&pk));
}

#[test]
fn select_publishes_member_set_for_ingestion_gate() {
    // `select` must expose the authenticated peer set so the recv task can drop beacons for
    // non-members (the candidate-map growth bound).
    let pk = [7u8; 32];
    let other = [8u8; 32];
    let t0 = T0;
    let mut b = with_candidate(pk, ep(118, 51820), t0);
    b.select(t0, &health(&[(pk, false), (other, true)]));
    assert!(b.members.contains(&pk) && b.members.contains(&other));
}

/// The wire's side of the exchange, with the authenticators given: a peer's probe is answered with an
/// answer that carries its nonce; its answer to a probe of ours is taken for the address we asked; and
/// a probe without an authenticator is not answered.
#[test]
fn authenticated_probe_and_ack_over_real_sockets() {
    let my_pub = [1u8; 32];
    let peer_pub = [2u8; 32];
    let from = endpoint_v4(127, 0, 0, 1, 40_000);
    let mut b = Beacon::new();
    let probe = encode_kinded(&peer_pub, 51830, KIND_PROBE, &NONCE, &MAC);
    // Only current mesh peers are listened to.
    assert!(matches!(b.receive(&my_pub, &probe, from, T0), Received::Ignored));
    b.select(T0, &health(&[(peer_pub, true)]));

    match b.receive(&my_pub, &probe, from, T0) {
        Received::Probe { pk, nonce, mac } => {
            assert_eq!((pk, nonce, mac), (peer_pub, NONCE, MAC));
        }
        _ => panic!("expected a probe"),
    }
    let reply = answer_probe(&my_pub, 51820, &NONCE, &MAC, Some(MAC), Some([9u8; MAC_LEN])).unwrap();
    let ack = decode(&reply).unwrap();
    let k = ack.kinded.expect("ack is a kinded message");
    assert_eq!(k.kind, KIND_ACK);
    assert_eq!(k.nonce, NONCE); // our ack echoes the probe nonce
    assert_eq!(ack.pk, my_pub);
    assert_eq!(k.mac, [9u8; MAC_LEN]);
    assert!(
        answer_probe(&my_pub, 51820, &NONCE, &[0u8; MAC_LEN], Some(MAC), Some([9u8; MAC_LEN]))
            .is_none(),
        "a forged probe must not be answered"
    );
    // Neither is one of a key that has no authenticator.
    assert!(answer_probe(&my_pub, 51820, &NONCE, &MAC, None, Some([9u8; MAC_LEN])).is_none());
    assert!(answer_probe(&my_pub, 51820, &NONCE, &MAC, Some(MAC), None).is_none());
    // The candidate was noted, with the port that it announced.
    assert_eq!(
        b.candidates.get(&peer_pub).unwrap().addr,
        endpoint_v4(127, 0, 0, 1, 51830)
    );

    // We probe it, and its answer is for the address that we asked.
    let at = endpoint_v4(127, 0, 0, 1, 51830);
    let (bytes, to) = b
        .probe(&my_pub, 51820, 51821, peer_pub, at, [5u8; NONCE_LEN], Some(MAC), T0)
        .unwrap();
    assert_eq!(decode(&bytes).unwrap().kinded.unwrap().nonce, [5u8; NONCE_LEN]);
    assert_eq!(to, endpoint_v4(127, 0, 0, 1, 51821));
    let answer = encode_kinded(&peer_pub, 51830, KIND_ACK, &[5u8; NONCE_LEN], &MAC);
    match b.receive(&my_pub, &answer, from, T0 + 1) {
        Received::Ack { pk, addr, .. } => assert_eq!((pk, addr), (peer_pub, at)),
        _ => panic!("expected an answer"),
    }
    // It counts only with the authenticator that is expected.
    assert!(!b.record_ack(peer_pub, at, &[0u8; MAC_LEN], Some(MAC), T0 + 1));
    assert!(!b.record_ack(peer_pub, at, &MAC, None, T0 + 1));
    assert_eq!(b.acks.len(), 0);
    assert!(b.record_ack(peer_pub, at, &MAC, Some(MAC), T0 + 1));
    assert_eq!(b.acks.get(&peer_pub).unwrap().addr, at);
    // An answer to nothing that was asked is no answer.
    let other = encode_kinded(&peer_pub, 51830, KIND_ACK, &[6u8; NONCE_LEN], &MAC);
    assert!(!matches!(b.receive(&my_pub, &other, from, T0 + 1), Received::Ack { .. }));
    // Our own beacon is not a peer's.
    assert!(matches!(
        b.receive(&my_pub, &encode(&my_pub, 1), from, T0),
        Received::Ignored
    ));
}
