use unitylan::api::{ExposeScope, Proto, ServiceKind};
use unitylan::fw::nftables::{
    cgnat_conflict, compat_handles, compat_present, compat_rules, ensure_cgnat_compat,
    insert_args, remove_cgnat_compat, ruleset, set_name, NftBackend,
};
use unitylan::fw::{Exposed, FirewallBackend, NetInfo, PeerSets};
use unitylan::net::v4;

const P2P_PORT: u16 = 51822;
const COMPAT_COMMENT: &str = "unitylan-cgnat-compat";

fn exp(proto: Proto, port: u16, scope: ExposeScope) -> Exposed {
    Exposed { proto, port, scope, name: None, kind: ServiceKind::Port }
}

const MESH: ExposeScope = ExposeScope::Net { guild_id: 900_100, role_id: 7001 };

fn by_net(name: &str, ips: Vec<u32>) -> PeerSets {
    PeerSets {
        nets: vec![NetInfo {
            guild_id: 900_100,
            role_id: 7001,
            guild: "acme".into(),
            name: name.into(),
            ips,
        }],
        own_devices: Vec::new(),
    }
}

fn rules(exposed: Vec<Exposed>, peers: &PeerSets) -> String {
    ruleset("unl0", None, &exposed, peers, P2P_PORT)
}

#[test]
fn ruleset_has_default_deny_and_unscoped_ports() {
    let rs = rules(
        vec![
            exp(Proto::Tcp, 25565, ExposeScope::AllPeers),
            exp(Proto::Udp, 34197, ExposeScope::AllPeers),
        ],
        &PeerSets::new(),
    );
    assert!(rs.contains("iifname != \"unl0\" accept"));
    assert!(rs.contains("ct state established,related accept"));
    assert!(rs.contains("icmp type echo-request accept"));
    assert!(rs.contains(&format!("udp dport {} accept", P2P_PORT)));
    assert!(rs.contains("tcp dport { 25565 } accept"));
    assert!(rs.contains("udp dport { 34197 } accept"));
    assert!(rs.trim_end().ends_with("input drop"));
}

#[test]
fn scoped_expose_builds_source_set_and_rule() {
    let peers = by_net("mesh", vec![v4(100, 64, 0, 2), v4(100, 64, 0, 3)]);
    let rs = rules(vec![exp(Proto::Tcp, 9001, MESH)], &peers);
    // Named set populated with the network's peer IPs. The set name is built from the ids, so
    // it needs no sanitizing and cannot collide with another network's.
    assert!(rs.contains("add set inet unitylan net_900100_7001 { type ipv4_addr ; }"));
    assert!(rs.contains("add element inet unitylan net_900100_7001 { 100.64.0.2, 100.64.0.3 }"));
    // Port scoped to that set.
    assert!(rs.contains("ip saddr @net_900100_7001 tcp dport 9001 accept"));
    // Not a global port accept.
    assert!(!rs.contains("tcp dport { 9001 } accept"));
}

/// A realistic slice of `nft list ruleset` with Tailscale's anti-spoof rule in place.
const TS_RULESET: &str = r#"table ip filter {
	chain ts-input {
		iifname "lo" accept
		iifname != "tailscale0" ip saddr 100.64.0.0/10 counter packets 289 bytes 33404 drop
	}
}"#;

#[test]
fn cgnat_conflict_flags_tailscale_drop_but_not_our_own_ruleset() {
    // Tailscale's anti-spoof rule blackholes the mesh range on non-tailscale interfaces.
    let c = cgnat_conflict(TS_RULESET).expect("detects the drop");
    assert!(c.rule.contains("drop"));

    // Our own ruleset drops with a bare verdict (no CGNAT match) → no false positive.
    let ours = rules(
        vec![exp(Proto::Tcp, 25565, ExposeScope::AllPeers)],
        &PeerSets::new(),
    );
    assert!(cgnat_conflict(&ours).is_none());

    // A benign accept referencing the range must not trip it either.
    assert!(cgnat_conflict("ip saddr 100.64.0.0/10 accept").is_none());
}

/// The auto-fix inserts into someone else's chain, so it has to locate that chain exactly —
/// a wrong family/table/chain either errors or lands the exemption where it does nothing.
#[test]
fn cgnat_conflict_reports_the_enclosing_chain() {
    let c = cgnat_conflict(TS_RULESET).expect("detects the drop");
    assert_eq!(c.at.family, "ip");
    assert_eq!(c.at.table, "filter");
    assert_eq!(c.at.chain, "ts-input");
}

const INSTALLED: &str = r#"table ip filter {
	chain ts-input {
		iifname "unl0" accept comment "unitylan-cgnat-compat"
		iifname != "tailscale0" ip saddr 100.64.0.0/10 counter drop
	}
}"#;

/// Idempotency: the reconcile re-runs constantly, and a per-reconcile duplicate would stack
/// exemptions in a foreign chain without bound.
#[test]
fn compat_rule_is_detected_only_for_its_own_interface() {
    let installed = INSTALLED;
    assert!(compat_present(installed, "iifname \"unl0\""));
    // A different interface's exemption is not ours.
    assert!(!compat_present(installed, "iifname \"unl1\""));
    assert!(!compat_present(TS_RULESET, "iifname \"unl0\""));
}

/// Traffic to our *own* mesh address loops back on `lo`, so an interface-scoped exemption never
/// matches it — which is how the `.internal` resolver ended up silently blackholed while ping
/// worked. The loopback rule is scoped to this host's address, not the whole CGNAT block.
#[test]
fn compat_rules_cover_loopback_to_our_own_mesh_address() {
    let addr = v4(100, 73, 208, 187);
    let rules = compat_rules("unl0", Some(addr));
    assert_eq!(rules.len(), 2);
    assert_eq!(rules[1].key, "ip saddr 100.73.208.187 iifname \"lo\"");
    assert_eq!(
        rules[1].args,
        vec![
            "ip",
            "saddr",
            "100.73.208.187",
            "iifname",
            "lo",
            "accept",
            "comment",
            COMPAT_COMMENT
        ]
    );
    // Not the whole /10 — only this host's own traffic is re-permitted.
    assert!(!rules[1].args.iter().any(|a| a.contains("/10")));
    // Before the interface has an address there is nothing to scope to, so just the iface rule.
    assert_eq!(compat_rules("unl0", None).len(), 1);
}

const LISTED: &str = r#"table ip filter {
	chain ts-input {
		iifname "unl0" accept comment "unitylan-cgnat-compat" # handle 42
		ip saddr 100.73.208.187 iifname "lo" accept comment "unitylan-cgnat-compat" # handle 43
		iifname != "tailscale0" ip saddr 100.64.0.0/10 counter drop # handle 7
	}
}"#;

/// Teardown must find *every* rule it inserted, or one outlives the engine in a foreign chain.
#[test]
fn compat_handles_locate_all_our_rules_for_deletion() {
    let found = compat_handles(LISTED);
    assert_eq!(found.len(), 2);
    for h in &found {
        assert_eq!(
            (h.at.family.as_str(), h.at.table.as_str(), h.at.chain.as_str()),
            ("ip", "filter", "ts-input")
        );
    }
    let handles: Vec<&str> = found.iter().map(|h| h.handle.as_str()).collect();
    assert_eq!(handles, vec!["42", "43"]);
    // Never claims a rule that isn't ours — the drop must survive.
    assert!(compat_handles(TS_RULESET).is_empty());
}

#[test]
fn scoped_expose_with_no_peers_still_defines_empty_set() {
    let rs = rules(vec![exp(Proto::Tcp, 9001, MESH)], &PeerSets::new());
    assert!(rs.contains("add set inet unitylan net_900100_7001 { type ipv4_addr ; }"));
    assert!(!rs.contains("add element")); // no IPs → no elements, port reachable by nobody
    assert!(rs.contains("ip saddr @net_900100_7001 tcp dport 9001 accept"));
}

/// The own-device scope gets its own source set, fed from the owner's devices rather than any
/// network. Set names come from ids now, so a role *named* like the own-device set cannot
/// collide with it either.
#[test]
fn own_device_scope_has_its_own_set_that_a_role_name_cannot_collide_with() {
    let mut peers = by_net("own devices", vec![v4(100, 64, 0, 9)]);
    peers.own_devices = vec![v4(100, 64, 0, 2)];
    let rs = rules(
        vec![
            exp(Proto::Tcp, 9001, ExposeScope::OwnDevices),
            exp(Proto::Tcp, 9002, MESH),
        ],
        &peers,
    );
    assert!(rs.contains("add element inet unitylan own_devices { 100.64.0.2 }"));
    assert!(rs.contains("add element inet unitylan net_900100_7001 { 100.64.0.9 }"));
    assert!(rs.contains("ip saddr @own_devices tcp dport 9001 accept"));
    assert!(rs.contains("ip saddr @net_900100_7001 tcp dport 9002 accept"));
    assert_eq!(set_name(&MESH), "net_900100_7001");
    assert_eq!(set_name(&ExposeScope::OwnDevices), "own_devices");
}

#[test]
fn exemptions_are_added_once_and_taken_out_again() {
    let plan = ensure_cgnat_compat(TS_RULESET, "unl0", Some(v4(100, 73, 208, 187))).unwrap();
    assert_eq!(plan.missing.len(), 2);
    assert_eq!(
        insert_args(&plan.conflict.at, &plan.missing[0]),
        vec![
            "insert", "rule", "ip", "filter", "ts-input", "iifname", "unl0", "accept", "comment",
            COMPAT_COMMENT
        ]
    );
    assert!(ensure_cgnat_compat(INSTALLED, "unl0", None).is_none());
    assert!(ensure_cgnat_compat("table ip filter {\n}", "unl0", None).is_none());
    assert_eq!(
        remove_cgnat_compat(LISTED),
        vec![
            vec!["delete", "rule", "ip", "filter", "ts-input", "handle", "42"],
            vec!["delete", "rule", "ip", "filter", "ts-input", "handle", "43"],
        ]
    );
}

#[test]
fn the_mesh_address_is_not_reached_from_elsewhere() {
    let b = NftBackend {};
    let with = b.apply("unl0", Some(v4(100, 64, 0, 1)), &vec![], &PeerSets::new(), P2P_PORT);
    let without = b.apply("unl0", None, &vec![], &PeerSets::new(), P2P_PORT);
    assert!(with.contains("100.64.0.1"));
    assert!(!without.contains("100.64.0.1"));
    assert!(with.lines().count() > without.lines().count());
    assert!(b.reset().contains("unitylan"));
}

#[test]
fn an_interface_with_a_slash_is_no_conflict() {
    let peers = by_net("mesh", vec![v4(100, 64, 0, 2)]);
    let exposed = vec![exp(Proto::Tcp, 9001, MESH), exp(Proto::Udp, 53, ExposeScope::AllPeers)];
    let rs = ruleset("wg/0", Some(v4(100, 64, 0, 1)), &exposed, &peers, P2P_PORT);
    assert!(rs.contains("wg/0"));
    assert!(cgnat_conflict(&rs).is_none());
    // What drops the shared block is told, whatever it is called.
    assert!(cgnat_conflict("iifname \"wg/0\" ip saddr 100.64.0.0/10 drop").is_some());
}
