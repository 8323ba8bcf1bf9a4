use unitylan::assoc::Assoc;
use unitylan::coord::{
    accept, apply_pulled, ensure_ok, held_for_refresh, manage, merge_seeds, oauth_complete,
    outside_offer, pin_all, pkce_config,
    pinned_anchors, post, refresh, register, request_timeout_secs, route_url, self_device,
    stun_addr, stun_at, verified_seeds, verify_against_pinned, verify_grant, verify_pulled,
    AnchorInfo, Attestation, CoordError, CoordReq, Grant, GuildAttestation, Hello, Reading,
    RegisterResp, Seed,
};
use unitylan::control::server::ManageOp;
use unitylan::keys::{load_all_pinned, AnchorFile, PinError};
use unitylan::mesh::{NetworkStatus, RelayReport, SeedPeer};
use unitylan::net::{endpoint_v4, v4, Net};
use unitylan::url::UrlParts;

const GUILD: u64 = 42;

/// Who signed a blob, and with which anchor.
#[derive(Clone, Copy, PartialEq)]
enum Signer {
    Honest,
    Attacker,
}

impl Signer {
    fn anchor(self) -> [u8; 32] {
        match self {
            Signer::Honest => [0xaa; 32],
            Signer::Attacker => [0xee; 32],
        }
    }
}

type Pins = Assoc<u64, Vec<u8>>;

/// The honest anchor is pinned for the guild.
fn pins() -> Pins {
    let mut p = Assoc::new();
    p.insert(GUILD, Signer::Honest.anchor().to_vec());
    p
}

fn named(key: Signer) -> AnchorInfo {
    AnchorInfo { guild_id: GUILD, pubkey: key.anchor(), rotated_from: Vec::new() }
}

/// An answer that names `key` as the guild's anchor.
fn resp(key: Signer, seeds: Vec<Seed>) -> RegisterResp {
    RegisterResp {
        anchors: vec![named(key)],
        grant: None,
        networks: Vec::new(),
        dns_domain: None,
        seeds,
        partial: false,
        removed: Vec::new(),
    }
}

fn carrier_grade() -> Net {
    Net { addr: v4(100, 64, 0, 0), prefix: 10 }
}

/// The attestation every test here signs, varying only the fields any of them care about; the
/// owner identity is fixed because nothing verifies against it.
fn test_attestation(
    guild_id: u64,
    wg_ip: u32,
    wg_net: Net,
    wg_pubkey: [u8; 32],
    expires_at: u64,
) -> Attestation {
    Attestation {
        guild_id,
        user_id: 5,
        username: "neo".into(),
        device_name: "box".into(),
        is_primary: false,
        wg_ip,
        wg_net,
        wg_pubkey,
        issued_at: 0,
        expires_at,
    }
}

fn signed_ga(key: Signer, att: Attestation) -> GuildAttestation {
    GuildAttestation {
        community_name: "c".into(),
        readings: vec![Reading {
            guild_id: att.guild_id,
            anchor: key.anchor(),
            attestation: att,
        }],
    }
}

fn seed_with_ip(key: Signer, guild_id: u64, wg_ip: u32) -> Seed {
    let att = test_attestation(guild_id, wg_ip, carrier_grade(), [9u8; 32], 10_000);
    Seed {
        attestations: vec![signed_ga(key, att)],
        endpoint: None,
        punch: None,
        networks: Vec::new(),
        relay: None,
        ice: None,
        rev: 0,
    }
}

fn seed_signed_by(key: Signer, guild_id: u64) -> Seed {
    seed_with_ip(key, guild_id, v4(100, 64, 0, 9))
}

/// After we pin the honest anchor for a guild, a later response that self-signs its seeds with an
/// attacker key must be rejected — seeds are verified against the PINNED anchor, not the anchor the
/// response carries.
#[test]
fn seeds_verified_against_pinned_not_response_anchor() {
    // Rejection is per-peer (it's skipped, not an error), so the property to assert is that it was
    // never *admitted* — a forged seed must never become a peer we route to.
    let forged = resp(Signer::Attacker, vec![seed_signed_by(Signer::Attacker, GUILD)]);
    assert!(
        verified_seeds(&forged, &pins()).is_empty(),
        "seeds signed by a non-pinned anchor must never be peered"
    );

    // Sanity: seeds legitimately signed by the pinned anchor still verify.
    let honest = resp(Signer::Honest, vec![seed_signed_by(Signer::Honest, GUILD)]);
    assert_eq!(verified_seeds(&honest, &pins()).len(), 1);

    // The isolation property itself: one forged seed alongside an honest one drops only the
    // forgery.
    let mixed = resp(
        Signer::Honest,
        vec![
            seed_signed_by(Signer::Attacker, GUILD),
            seed_with_ip(Signer::Honest, GUILD, v4(100, 64, 0, 11)),
        ],
    );
    let peers = verified_seeds(&mixed, &pins());
    assert_eq!(peers.len(), 1, "only the honestly-signed peer is admitted");
    assert_eq!(peers[0].ip, v4(100, 64, 0, 11));
}

/// A partially-upgraded mesh puts both attestation layouts in one snapshot. Each seed is read by its
/// own layout, so peers on either side of the rollout mesh together.
#[test]
fn seeds_of_mixed_layouts_all_verify() {
    let resp = resp(
        Signer::Honest,
        vec![
            seed_with_ip(Signer::Honest, GUILD, v4(100, 64, 0, 9)),
            seed_with_ip(Signer::Honest, GUILD, v4(100, 64, 0, 10)),
        ],
    );
    let peers = verified_seeds(&resp, &pins());
    assert_eq!(peers.len(), 2, "both layouts must be admitted");
}

/// Defence in depth: a seed whose signature verifies but whose signed `wg_ip` falls outside its
/// signed `wg_net` is dropped (not routed) — a compromised/buggy guild key can't point a
/// co-member's `/32` at an off-mesh address. The in-net peer in the same batch still admits.
#[test]
fn seed_wg_ip_outside_signed_net_is_dropped() {
    let resp = resp(
        Signer::Honest,
        vec![
            seed_with_ip(Signer::Honest, GUILD, v4(100, 64, 0, 9)),
            // 10.0.0.1 is not inside the signed 100.64.0.0/10 → must be skipped.
            seed_with_ip(Signer::Honest, GUILD, v4(10, 0, 0, 1)),
        ],
    );
    let peers = verified_seeds(&resp, &pins());
    assert_eq!(peers.len(), 1, "only the in-mesh peer is admitted");
    assert_eq!(peers[0].ip, v4(100, 64, 0, 9));
}

fn sp(pubkey: [u8; 32], rev: u64, expires_at: u64) -> SeedPeer {
    SeedPeer {
        pubkey,
        user_id: 1,
        username: "u".into(),
        ip: v4(100, 64, 0, 1),
        endpoint: None,
        punch: None,
        hostname: "h".into(),
        primary_alias: None,
        networks: vec![],
        relay: None,
        ice: None,
        rev,
        expires_at,
    }
}

/// Delta sync: a full response replaces the held set; a partial one upserts the changed peers,
/// drops the `removed` ones, and leaves everything it didn't mention untouched.
#[test]
fn merge_seeds_full_replaces_delta_upserts_and_drops() {
    let a = [9u8; 32]; // matches the pubkey seed_signed_by mints
    let b = [8u8; 32];
    let prev = vec![sp(a, 100, 9999), sp(b, 200, 9999)];

    // Full response (partial = false) replaces outright — prev and `removed` are ignored.
    let full = resp(Signer::Honest, vec![seed_signed_by(Signer::Honest, GUILD)]);
    let merged = merge_seeds(&prev, &full, &pins());
    assert_eq!(merged.len(), 1);
    assert_eq!(merged[0].pubkey, a);

    // Delta: A changed (resent), B removed, nothing else present → {A'} only.
    let delta = RegisterResp { partial: true, removed: vec![b], ..full };
    let merged = merge_seeds(&prev, &delta, &pins());
    assert_eq!(merged.len(), 1);
    assert!(merged.iter().any(|p| p.pubkey == a) && !merged.iter().any(|p| p.pubkey == b));

    // Delta that mentions nothing keeps the whole held set (unchanged peers survive).
    let empty = RegisterResp { partial: true, ..resp(Signer::Honest, vec![]) };
    let merged = merge_seeds(&prev, &empty, &pins());
    assert_eq!(merged.len(), 2, "an empty delta must not drop held peers");
}

/// Normally echo held `(pubkey, rev)`, but return empty (force a full attestation refresh) once the
/// soonest-expiring peer is within the margin.
#[test]
fn held_for_refresh_echoes_then_forces_full_near_expiry() {
    let now = 1_000;
    let held = held_for_refresh(&vec![sp([1; 32], 42, now + 10_000)], now, 900);
    assert_eq!(held.len(), 1);
    assert_eq!(held[0].rev, 42);
    // Within the margin of expiry → empty → full refresh.
    assert!(held_for_refresh(&vec![sp([1; 32], 42, now + 100)], now, 900).is_empty());
    // No peers → nothing to diff → empty (a full is fine).
    assert!(held_for_refresh(&vec![], now, 900).is_empty());
}

/// A blob for `pubkey` signed by `key` for `guild`, expiring at `expires_at`.
fn signed_att(key: Signer, guild: u64, pubkey: [u8; 32], expires_at: u64) -> GuildAttestation {
    let att = test_attestation(guild, v4(100, 64, 0, 9), carrier_grade(), pubkey, expires_at);
    signed_ga(key, att)
}

/// Peer-direct pull verification: adopt only a pinned-anchor-valid attestation for the *expected*
/// pubkey that is strictly fresher than what we hold. Reject wrong pubkey, non-fresher, unpinned.
#[test]
fn verify_pulled_adopts_only_fresher_valid_for_expected_pubkey() {
    let pk = [7u8; 32];
    let now = 1_000;
    let fresh = vec![signed_att(Signer::Honest, GUILD, pk, now + 1800)];

    let pinned = load_all_pinned(&vec![AnchorFile {
        name: format!("{GUILD}.pub"),
        bytes: Some(Signer::Honest.anchor().to_vec()),
    }]);

    // Valid, right pubkey, fresher than what we hold (0) → adopted.
    let att = verify_pulled(&fresh, pk, 0, &pinned).expect("should adopt");
    assert_eq!(att.wg_pubkey, pk);
    assert_eq!(att.expires_at, now + 1800);

    // Not strictly fresher than what we already hold → nothing to adopt.
    assert!(verify_pulled(&fresh, pk, now + 1800, &pinned).is_none());
    // A peer serving a valid attestation for a *different* device → rejected (pubkey binding).
    assert!(verify_pulled(&fresh, [8u8; 32], 0, &pinned).is_none());
    // Signed by a non-pinned (attacker) key → rejected.
    let forged = vec![signed_att(Signer::Attacker, GUILD, pk, now + 1800)];
    assert!(verify_pulled(&forged, pk, 0, &pinned).is_none());
    assert!(verify_against_pinned(&forged[0], &pinned).is_none());
    assert!(verify_against_pinned(&fresh[0], &pinned).is_some());
    // The right key of another guild reads nothing.
    assert!(verify_against_pinned(&fresh[0], &vec![(7, Signer::Honest.anchor())]).is_none());
}

/// `apply_pulled` advances expiry + identity from the verified attestation but leaves the
/// coordinator-brokered transport fields (endpoint here) untouched.
#[test]
fn apply_pulled_advances_expiry_keeps_transport() {
    let mut seed = sp([7; 32], 42, 100);
    seed.endpoint = Some(endpoint_v4(203, 0, 113, 9, 51820));
    let att = test_attestation(GUILD, v4(100, 64, 0, 9), carrier_grade(), [7u8; 32], 9_999);
    apply_pulled(&mut seed, &att);
    assert_eq!(seed.expires_at, 9_999);
    assert_eq!(seed.username, att.username);
    assert_eq!(seed.ip, v4(100, 64, 0, 9));
    assert_eq!(
        seed.rev, 42,
        "rev is coordinator-owned, not touched by a pull"
    );
    assert_eq!(
        seed.endpoint,
        Some(endpoint_v4(203, 0, 113, 9, 51820)),
        "transport fields stay — a peer serves only its own identity"
    );
}

#[test]
fn a_grant_is_this_device_only_under_a_pinned_anchor() {
    let att = |key| {
        signed_ga(
            key,
            test_attestation(GUILD, v4(100, 64, 0, 9), carrier_grade(), [7u8; 32], 9_999),
        )
    };
    let grant = |key| Grant { networks: vec!["mc".into()], attestations: vec![att(key)] };
    let pinned = vec![(GUILD, Signer::Honest.anchor())];
    assert!(verify_grant(&grant(Signer::Honest), &pinned).is_some());
    assert!(verify_grant(&grant(Signer::Attacker), &pinned).is_none());
    let nets = vec![NetworkStatus {
        guild_id: 1,
        role_id: 2,
        name: "mc".into(),
        guild_name: "c".into(),
        enabled: true,
    }];
    let answer = |key| RegisterResp {
        grant: Some(grant(key)),
        dns_domain: Some("mesh.example.com".into()),
        ..resp(Signer::Honest, vec![])
    };
    let told = RegisterResp { networks: nets, ..answer(Signer::Honest) };
    let d = self_device(&told, &pinned).ok().unwrap().unwrap();
    assert_eq!(d.hostname, "box.neo.unity.internal");
    assert_eq!(d.grant_expires_at, 9_999);
    assert_eq!(d.dns_domain.as_deref(), Some("mesh.example.com"));
    assert_eq!(d.networks_status.len(), 1);
    assert!(matches!(self_device(&resp(Signer::Honest, vec![]), &pinned), Ok(None)));
    assert!(matches!(
        self_device(&answer(Signer::Attacker), &pinned),
        Err(CoordError::NoGrant)
    ));
}

/// The first anchor that is seen for a guild is pinned; another is refused, unless a rotation leads
/// to it.
#[test]
fn anchors_are_pinned_at_first_sight_and_move_only_by_rotation() {
    let mut held: Pins = Assoc::new();
    let first = pin_all(&vec![named(Signer::Honest)], &mut held);
    assert_eq!(first.written, vec![GUILD]);
    assert!(first.refused.is_none());
    assert!(pin_all(&vec![named(Signer::Honest)], &mut held).written.is_empty());

    let swapped = pin_all(&vec![named(Signer::Attacker)], &mut held);
    assert_eq!(swapped.refused, Some(PinError::NoPath { guild_id: GUILD }));
    assert_eq!(pinned_anchors(&vec![named(Signer::Attacker)], &held), vec![
        (GUILD, Signer::Honest.anchor())
    ]);

    let mut rotated = named(Signer::Attacker);
    rotated.rotated_from = vec![Signer::Honest.anchor()];
    assert_eq!(pin_all(&vec![rotated], &mut held).written, vec![GUILD]);
    assert_eq!(pinned_anchors(&vec![named(Signer::Honest)], &held), vec![
        (GUILD, Signer::Attacker.anchor())
    ]);
}

/// An answer that names a swapped anchor is refused as a whole, though its grant would be read under
/// that anchor.
#[test]
fn a_swapped_anchor_refuses_the_answer() {
    let mut held = pins();
    let att = test_attestation(GUILD, v4(100, 64, 0, 9), carrier_grade(), [7u8; 32], 9_999);
    let forged = RegisterResp {
        grant: Some(Grant {
            networks: Vec::new(),
            attestations: vec![signed_ga(Signer::Attacker, att)],
        }),
        ..resp(Signer::Attacker, vec![])
    };
    let a = accept(&forged, &mut held);
    assert!(a.written.is_empty());
    assert!(matches!(
        a.device,
        Err(CoordError::Anchor(PinError::NoPath { guild_id: GUILD }))
    ));
    // At first sight the same answer is believed.
    let mut fresh: Pins = Assoc::new();
    let a = accept(&forged, &mut fresh);
    assert_eq!(a.written, vec![GUILD]);
    assert_eq!(a.device.ok().unwrap().unwrap().hostname, "box.neo.unity.internal");
}

fn statement() -> CoordReq {
    CoordReq {
        wg_pubkey: [1; 32],
        device_name: "box".into(),
        endpoint: None,
        enrollment_key: None,
        since: Some(9),
        disabled_networks: vec![],
        observed: vec![],
        supersede: None,
        paused: false,
        peer_own_devices: true,
        relay: RelayReport::none(),
        ice: vec![],
        held: vec![],
    }
}

fn hello() -> Hello {
    Hello { proto: 5, proto_min: 3, caps: vec!["ice".into()], client_version: "1.2.3".into() }
}

#[test]
fn a_first_registration_waits_for_nothing() {
    let mut first = statement();
    first.supersede = Some("old-token".into());
    let r = register(first, &hello());
    assert_eq!(r.since, None);
    assert_eq!(r.supersede.as_deref(), Some("old-token"));
    let mut again = statement();
    again.supersede = Some("old-token".into());
    let r = refresh(again, &hello());
    assert_eq!(r.since, Some(9));
    assert_eq!(r.supersede, None);
    let r = post(statement(), &hello());
    assert_eq!(r.proto, 5);
    assert_eq!(r.caps, vec!["ice".to_string()]);
}

#[test]
fn requests_go_to_their_routes() {
    let base = "https://c.example.com";
    assert_eq!(pkce_config(base), "https://c.example.com/oauth/pkce-config");
    let (url, body) = oauth_complete(base, [7; 32], "tok");
    assert_eq!(url, "https://c.example.com/oauth/complete");
    assert_eq!(body.access_token, "tok");
    let (url, body) = manage(base, "t".into(), ManageOp::List);
    assert_eq!(url, "https://c.example.com/devices/manage");
    assert!(matches!(body.op, ManageOp::List) && body.token == "t");

    assert_eq!(route_url("https://c.example.com", "register"), "https://c.example.com/register");
    assert_eq!(route_url("https://c.example.com", "refresh"), "https://c.example.com/refresh");
    assert!(request_timeout_secs(900) > 900);
}

#[test]
fn a_refusal_says_why() {
    assert!(ensure_ok(200, "200 OK", "register", "").is_ok());
    match ensure_ok(403, "403 Forbidden", "register", "no") {
        Err(CoordError::Rejected(t)) => {
            assert_eq!(t, "coordinator rejected register: 403 Forbidden: no")
        }
        _ => panic!("expected a refusal"),
    }
    match ensure_ok(426, "426 Upgrade Required", "register", "use 2.0") {
        Err(CoordError::Upgrade(u)) => assert_eq!(u.to_text(), "use 2.0"),
        _ => panic!("expected an upgrade"),
    }
}

#[test]
fn an_address_is_learned_at_the_coordinators_host() {
    assert_eq!(
        stun_addr("https://coord.example.com:8443/api", Some(3478)),
        Some(("coord.example.com".to_string(), 3478))
    );
    assert_eq!(stun_addr("not a url", Some(3478)), None);
    assert_eq!(stun_addr("https://coord.example.com", None), None);
    assert_eq!(stun_at(Some(UrlParts { host: None, port: None }), Some(1)), None);
}

#[test]
fn a_version_outside_what_was_offered_is_noticed() {
    assert!(!outside_offer(0, &hello()));
    assert!(!outside_offer(3, &hello()));
    assert!(!outside_offer(5, &hello()));
    assert!(outside_offer(2, &hello()));
    assert!(outside_offer(6, &hello()));
}
