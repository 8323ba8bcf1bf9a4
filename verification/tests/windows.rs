use unitylan::api::{ExposeScope, Proto, ServiceKind};
use unitylan::fw::windows::{ps_proto, ps_quote, remove_group, run_fw_ps, script, WindowsFwBackend};
use unitylan::fw::{Exposed, FirewallBackend, NetInfo, PeerSets};
use unitylan::net::v4;

fn exp(proto: Proto, port: u16, scope: ExposeScope) -> Exposed {
    Exposed { proto, port, scope, name: None, kind: ServiceKind::Port }
}

const MESH: ExposeScope = ExposeScope::Net { guild_id: 900_100, role_id: 7001 };

fn by_net(name: &str, ips: Vec<u32>) -> PeerSets {
    PeerSets {
        nets: vec![NetInfo {
            guild_id: 900_100,
            role_id: 7001,
            guild: "".into(),
            name: name.into(),
            ips,
        }],
        own_devices: Vec::new(),
    }
}

#[test]
fn script_resets_group_and_opens_unscoped_ports() {
    let s = script(
        "unl0",
        &vec![
            exp(Proto::Tcp, 25565, ExposeScope::AllPeers),
            exp(Proto::Udp, 34197, ExposeScope::AllPeers),
        ],
        &PeerSets::new(),
    );
    assert!(s.contains("Remove-NetFirewallRule -Group 'UnityLAN'"));
    assert!(s.contains("-Protocol ICMPv4 -IcmpType 8 -InterfaceAlias 'unl0'"));
    assert!(s.contains("-Action Allow -Protocol TCP -LocalPort 25565 -InterfaceAlias 'unl0'"));
    assert!(s.contains("-Action Allow -Protocol UDP -LocalPort 34197 -InterfaceAlias 'unl0'"));
    // Unscoped exposes reach any peer — no remote-address restriction.
    assert!(!s.contains("-RemoteAddress"));
    // Every New-NetFirewallRule tolerates a missing interface (pre-up install): one
    // `-ErrorAction SilentlyContinue` per rule (ICMP echo + the two ports).
    assert_eq!(
        s.matches("-ErrorAction SilentlyContinue | Out-Null")
            .count(),
        3
    );
}

#[test]
fn scoped_expose_restricts_to_network_peer_ips() {
    let peers = by_net("mesh", vec![v4(100, 64, 0, 2), v4(100, 64, 0, 3)]);
    let s = script("unl0", &vec![exp(Proto::Tcp, 9001, MESH)], &peers);
    assert!(s.contains(
        "-LocalPort 9001 -InterfaceAlias 'unl0' -RemoteAddress 100.64.0.2,100.64.0.3"
    ));
    assert!(s.contains("scope:mesh"));
}

/// The own-device scope restricts to the owner's other devices, which are not in any network —
/// so a network's peers must not leak into the rule.
#[test]
fn own_device_scope_restricts_to_the_owners_devices() {
    let mut peers = by_net("mesh", vec![v4(100, 64, 0, 9)]);
    peers.own_devices = vec![v4(100, 64, 0, 2)];
    let s = script("unl0", &vec![exp(Proto::Tcp, 9001, ExposeScope::OwnDevices)], &peers);
    assert!(s.contains("-LocalPort 9001 -InterfaceAlias 'unl0' -RemoteAddress 100.64.0.2"));
    assert!(
        !s.contains("100.64.0.9"),
        "a network peer must not be admitted"
    );
}

#[test]
fn scoped_expose_with_no_peers_is_omitted() {
    let s = script("unl0", &vec![exp(Proto::Tcp, 9001, MESH)], &PeerSets::new());
    // No peers in the network → the port is opened to nobody (relies on default-deny).
    assert!(!s.contains("-LocalPort 9001"));
    assert!(!s.contains("-RemoteAddress"));
}

#[test]
fn quotes_are_doubled() {
    assert_eq!(ps_quote("it's"), "'it''s'");
    assert_eq!(ps_quote(""), "''");
    assert_eq!(ps_proto(Proto::Udp), "UDP");
}

#[test]
fn the_hosts_own_ports_are_open_everywhere() {
    let b = WindowsFwBackend { listen_port: 51820, beacon_port: Some(51821) };
    let s = b.apply("unl0", None, &vec![], &PeerSets::new(), 51822);
    assert!(s.contains("51820"));
    assert!(s.contains("51821"));
    let quiet = WindowsFwBackend { listen_port: 51820, beacon_port: None };
    assert!(!quiet.apply("unl0", None, &vec![], &PeerSets::new(), 51822).contains("51821"));
    assert_eq!(b.reset().trim_end(), run_fw_ps(&remove_group()).trim_end());
    assert!(run_fw_ps("x").contains("exit 0"));
}
