use unitylan::api::{MeshService, Proto, ServiceKind};
use unitylan::mesh::{SeedPeer, SelfDevice};
use unitylan::mesh_services::{
    own_claims, peer_claims, resolve, Claim, Resolved, ServiceBook, REFRESH,
};
use unitylan::net::{v4, Net};

fn claim(pubkey: u8, name: &str, user: &str, last: u8) -> Claim {
    Claim {
        pubkey: [pubkey; 32],
        ip: v4(100, 64, 0, last),
        name: name.into(),
        hostname: format!("{name}.{user}.unity.internal"),
        proto: Proto::Tcp,
        port: 25565,
        kind: ServiceKind::Port,
    }
}

fn address(r: &Resolved, name: &str) -> u32 {
    *r.names.get(&name.to_string()).unwrap()
}

/// The tiebreak must not depend on the order claims happened to arrive in — two devices seeing
/// the same conflict have no way to compare notes, so the rule has to be a pure function.
#[test]
fn a_label_two_of_an_owners_devices_claim_resolves_to_the_lowest_key_either_way() {
    let a = || claim(1, "mc", "alice", 5);
    let b = || claim(2, "mc", "alice", 9);
    for order in [vec![a(), b()], vec![b(), a()]] {
        let r = resolve(&order, &vec![]);
        assert_eq!(address(&r, "mc.alice.unity.internal"), v4(100, 64, 0, 5));
        assert_eq!(r.shadowed, vec![([2u8; 32], "mc".to_string())]);
    }
}

/// A service label can never take a device's name away: the device name is coordinator-allocated
/// and attested, the service label is self-asserted, so the attested one wins.
#[test]
fn a_device_name_is_never_shadowed_by_a_service() {
    let taken = "mc.alice.unity.internal".to_string();
    let r = resolve(&vec![claim(1, "mc", "alice", 5)], &vec![taken]);
    assert_eq!(r.names.len(), 0, "the device keeps its own name");
    assert_eq!(r.shadowed, vec![([1u8; 32], "mc".to_string())]);
}

/// Same label, different owners, is not a conflict at all — the names differ.
#[test]
fn the_same_label_under_two_owners_is_two_names() {
    let r = resolve(
        &vec![claim(1, "mc", "alice", 5), claim(2, "mc", "bob", 9)],
        &vec![],
    );
    assert_eq!(r.names.len(), 2);
    assert!(r.shadowed.is_empty());
}

#[test]
fn three_claims_leave_one_name_in_any_order() {
    let c = |k: u8| claim(k, "mc", "alice", k);
    for order in [[3, 1, 2], [1, 2, 3], [2, 3, 1], [3, 2, 1]] {
        let r = resolve(&order.iter().map(|k| c(*k)).collect(), &vec![]);
        assert_eq!(address(&r, "mc.alice.unity.internal"), v4(100, 64, 0, 1));
        let mut lost: Vec<u8> = r.shadowed.iter().map(|s| s.0[0]).collect();
        lost.sort();
        assert_eq!(lost, vec![2, 3]);
    }
}

/// A device that claims one label on two protocols has the name, and has lost nothing.
#[test]
fn one_label_on_two_protocols_is_no_conflict() {
    let tcp = claim(1, "mc", "alice", 5);
    let udp = Claim { proto: Proto::Udp, ..claim(1, "mc", "alice", 5) };
    let r = resolve(&vec![tcp, udp], &vec![]);
    assert_eq!(r.names.len(), 1);
    assert_eq!(address(&r, "mc.alice.unity.internal"), v4(100, 64, 0, 5));
    assert!(r.shadowed.is_empty());
    // Both are lost to a lower key.
    let lower = claim(0, "mc", "alice", 9);
    let tcp = claim(1, "mc", "alice", 5);
    let udp = Claim { proto: Proto::Udp, ..claim(1, "mc", "alice", 5) };
    let r = resolve(&vec![tcp, lower, udp], &vec![]);
    assert_eq!(address(&r, "mc.alice.unity.internal"), v4(100, 64, 0, 9));
    assert!(!r.shadowed.is_empty());
    assert!(r.shadowed.iter().all(|(k, n)| *k == [1u8; 32] && n == "mc"));
}

fn me() -> SelfDevice {
    SelfDevice {
        community_name: "c".into(),
        user_id: 1,
        username: "alice".into(),
        networks: Vec::new(),
        wg_ip: v4(100, 64, 0, 1),
        wg_net: Net { addr: v4(100, 64, 0, 0), prefix: 10 },
        hostname: "laptop.alice.unity.internal".into(),
        is_primary: true,
        grant_expires_at: 0,
        primary_alias: None,
        networks_status: Vec::new(),
        dns_domain: Some("mesh.example.com".into()),
    }
}

fn service(name: &str, port: u16, kind: ServiceKind) -> MeshService {
    MeshService { name: name.into(), proto: Proto::Tcp, port, kind }
}

/// The kind has to survive from the announcement into the claim: it is what tells the frontend
/// a name is reached over https under the certificate domain rather than dialled on the port
/// below it. Dropped here, every web service is displayed as its loopback backend.
#[test]
fn a_web_services_kind_reaches_the_claim() {
    let own = vec![
        service("wiki", 8080, ServiceKind::Web),
        service("mc", 25565, ServiceKind::Port),
    ];
    let claims = own_claims(&me(), [1u8; 32], &own);
    assert_eq!(claims[0].kind, ServiceKind::Web);
    assert_eq!(claims[1].kind, ServiceKind::Port);
}

#[test]
fn a_claim_is_named_under_its_owner() {
    let claims = own_claims(&me(), [1u8; 32], &vec![service("Wiki", 8080, ServiceKind::Web)]);
    assert_eq!(claims[0].hostname, "wiki.alice.unity.internal");
    assert_eq!(claims[0].name, "Wiki");
    assert_eq!(claims[0].ip, v4(100, 64, 0, 1));
    assert_eq!(claims[0].port, 8080);
}

#[test]
fn a_peer_is_polled_again_only_once_its_entry_is_stale() {
    let mut book = ServiceBook::new();
    let key = [7u8; 32];
    let now = 5_000;
    assert!(book.is_due(&key, now), "never polled");
    book.set(key, vec![], now);
    assert!(!book.is_due(&key, now));
    assert!(!book.is_due(&key, now + REFRESH - 1));
    assert!(book.is_due(&key, now + REFRESH));
}

#[test]
fn re_announcing_the_same_list_is_not_a_change() {
    let mut book = ServiceBook::new();
    let now = 5_000;
    let svc = || service("mc", 25565, ServiceKind::Port);
    assert!(book.set([1u8; 32], vec![svc()], now), "first sight");
    assert!(!book.set([1u8; 32], vec![svc()], now), "identical");
    assert!(book.set([1u8; 32], vec![], now), "withdrawn");
}

#[test]
fn a_departed_peers_services_are_forgotten() {
    let mut book = ServiceBook::new();
    let now = 5_000;
    book.set([1u8; 32], vec![], now);
    book.set([2u8; 32], vec![], now);
    book.retain_peers(&vec![[1u8; 32]]);
    assert!(!book.is_due(&[1u8; 32], now), "still held");
    assert!(book.is_due(&[2u8; 32], now), "forgotten");
}

fn seed(key: u8, user: &str) -> SeedPeer {
    SeedPeer {
        pubkey: [key; 32],
        user_id: key as u64,
        username: user.into(),
        ip: v4(100, 64, 0, key),
        endpoint: None,
        punch: None,
        hostname: format!("d.{user}.unity.internal"),
        primary_alias: None,
        networks: vec![],
        relay: None,
        ice: None,
        rev: 0,
        expires_at: 0,
    }
}

#[test]
fn peers_claim_what_they_last_said() {
    let mut book = ServiceBook::new();
    book.set([2u8; 32], vec![service("mc", 1, ServiceKind::Port)], 0);
    book.set([9u8; 32], vec![service("gone", 1, ServiceKind::Port)], 0);
    assert_eq!(book.get(&[2u8; 32]).len(), 1);
    assert!(book.get(&[5u8; 32]).is_empty());
    let claims = peer_claims(&vec![seed(1, "alice"), seed(2, "bob")], &book);
    assert_eq!(claims.len(), 1);
    assert_eq!(claims[0].hostname, "mc.bob.unity.internal");
    assert_eq!(claims[0].ip, v4(100, 64, 0, 2));
}
