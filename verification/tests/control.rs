use unitylan::api::{ExposeScope, PeerReach, Proto, RemoveScope, ServiceKind};
use unitylan::assoc::Assoc;
use unitylan::control::access::{
    grant_dir_traversal, grant_socket_access, SocketGrant, CONTROL_PIPE_SDDL, SOCKET_MODE,
};
use unitylan::control::client::{
    client_expose, client_set_blocked, client_status, LoginResp, Reply,
};
use unitylan::control::server::{
    received, resolve_scope, After, Control, ControlRequest, ControlResponse, ExposeOp, ManageOp,
    Outcome, Received, MAX_REQUEST_BYTES,
};
use unitylan::control::status::{
    own_device_networks, set_connected, set_logged_out, set_needs_login, set_update_available,
    set_update_ready, shared, update, PeerStatus, Posture,
};
use unitylan::fw::Firewall;
use unitylan::mesh::{NetworkStatus, SeedPeer, SelfDevice, SharedNetwork};
use unitylan::net::{v4, Net};
use unitylan::netcfg::{LocalNet, NetId, SavedNet};

const OWN_DEVICES_LABEL: &str = "My devices";

fn seed(user_id: u64, nets: &[(&str, &str)]) -> SeedPeer {
    SeedPeer {
        pubkey: [0; 32],
        user_id,
        username: "u".into(),
        ip: v4(100, 64, 0, 2),
        endpoint: None,
        punch: None,
        hostname: "d.u.unity.internal".into(),
        primary_alias: None,
        networks: nets
            .iter()
            .map(|(n, c)| SharedNetwork {
                guild_id: 1,
                role_id: 2,
                name: (*n).into(),
                community: (*c).into(),
            })
            .collect(),
        relay: None,
        ice: None,
        rev: 0,
        expires_at: 0,
    }
}

#[test]
fn own_device_gets_my_devices_tag_prepended() {
    // Same user (7) → "My devices" leads, real networks follow, in display order.
    let mine = seed(7, &[("Engineering", "acme")]);
    let tagged = own_device_networks(&mine, 7);
    assert_eq!(tagged[0].name, OWN_DEVICES_LABEL);
    assert!(tagged[0].community.is_empty());
    assert_eq!(tagged[1].name, "Engineering");

    // An own device sharing no network still gets the tag (the whole point of the feature).
    let bare = seed(7, &[]);
    assert_eq!(own_device_networks(&bare, 7).len(), 1);
    assert_eq!(own_device_networks(&bare, 7)[0].name, OWN_DEVICES_LABEL);

    // A different user's peer is untouched — no tag, no leak.
    let other = seed(9, &[("Engineering", "acme")]);
    let untouched = own_device_networks(&other, 7);
    assert_eq!(untouched.len(), 1);
    assert_eq!(untouched[0].name, "Engineering");
}

#[test]
fn a_setter_tells_only_of_a_change() {
    let mut s = shared();
    assert!(!s.connected);
    assert!(set_connected(&mut s, true));
    assert!(!set_connected(&mut s, true));
    assert!(set_needs_login(&mut s, true));
    assert!(set_update_available(&mut s, "1.2.3", "1.2.2"));
    assert!(!set_update_available(&mut s, "1.2.3", "1.2.2"));
    assert_eq!(s.update_available.as_deref(), Some("1.2.3"));
    assert!(set_update_available(&mut s, "1.2.3", "1.2.3"));
    assert_eq!(s.update_available, None);
    assert!(set_update_ready(&mut s, true));
    assert!(!set_update_ready(&mut s, true) && s.update_ready);
    set_logged_out(&mut s);
    assert!(s.needs_login && s.device.is_none() && !s.connected);
}

fn network(guild_id: u64, role_id: u64, name: &str, guild: &str) -> NetworkStatus {
    NetworkStatus {
        guild_id,
        role_id,
        name: name.into(),
        guild_name: guild.into(),
        enabled: true,
    }
}

fn device() -> SelfDevice {
    SelfDevice {
        user_id: 7,
        username: "me".into(),
        wg_ip: v4(100, 64, 0, 1),
        hostname: "laptop.me.unity.internal".into(),
        is_primary: true,
        community_name: "acme".into(),
        networks: vec!["Engineering".into()],
        networks_status: vec![network(1, 2, "Engineering", "acme")],
        wg_net: Net { addr: v4(100, 64, 0, 0), prefix: 10 },
        grant_expires_at: 0,
        primary_alias: None,
        dns_domain: None,
    }
}

#[test]
fn a_status_shows_the_device_its_peers_and_what_the_owner_decided() {
    let mut s = shared();
    let mut disabled: Assoc<NetId, ()> = Assoc::new();
    disabled.insert((1, 2), ());
    let mut blocked: Assoc<u64, String> = Assoc::new();
    blocked.insert(9, "nine".into());
    let p = Posture {
        connected: true,
        disable_new_networks: false,
        peer_own_devices: false,
        coordinator_online: true,
    };
    update(&mut s, &device(), &vec![seed(8, &[])], &disabled, &blocked, p, "1.0");
    assert_eq!(s.device.as_ref().unwrap().hostname, "laptop.me.unity.internal");
    assert_eq!(s.peers.len(), 1);
    assert!(!s.networks[0].enabled, "the local choice is shown at once");
    assert_eq!(s.blocked[0].user_id, 9);
    assert_eq!(s.identity.as_deref(), Some("me"));
    assert_eq!(s.engine_version, "1.0");
}

fn control(fw: bool) -> Control {
    let saved = SavedNet {
        disabled: None,
        paused: None,
        known: None,
        disable_new: None,
        peer_own: None,
        blocked: None,
    };
    let mut status = shared();
    status.networks = vec![network(1, 2, "games", "acme"), network(3, 4, "games", "home")];
    Control {
        status,
        fw: if fw {
            Some(Firewall::load("unl0".into(), vec![], None, 16, 4))
        } else {
            None
        },
        localnet: LocalNet::load(&saved, true, true),
        token: None,
        pending_update: None,
    }
}

fn said(o: Outcome) -> String {
    match o {
        Outcome::Reply(ControlResponse::Error(e)) => e,
        _ => panic!("no error"),
    }
}

#[test]
fn what_cannot_be_done_is_said() {
    let mut c = control(false);
    assert_eq!(said(c.dispatch(ControlRequest::Manage(ManageOp::List))), "device not enrolled yet");
    assert_eq!(
        said(c.dispatch(ControlRequest::Expose(ExposeOp::List))),
        "firewall disabled (set firewall = true)"
    );
    assert_eq!(said(c.dispatch(ControlRequest::ApplyUpdate)), "no verified update is staged");
    c.token = Some("t".into());
    assert!(matches!(
        c.dispatch(ControlRequest::Manage(ManageOp::List)),
        Outcome::Forward { token, op: ManageOp::List } if token == "t"
    ));
    c.pending_update = Some("2.0".into());
    assert!(matches!(
        c.dispatch(ControlRequest::ApplyUpdate),
        Outcome::Update(ControlResponse::Update { version, .. }) if version == "2.0"
    ));
    assert!(matches!(c.dispatch(ControlRequest::Watch), Outcome::Watch));
    assert!(matches!(c.dispatch(ControlRequest::Login), Outcome::Login));
    assert!(matches!(c.dispatch(ControlRequest::Logout), Outcome::LogOut(_)));
}

fn add(scope: ExposeScope) -> ControlRequest {
    ControlRequest::Expose(ExposeOp::Add {
        proto: Proto::Tcp,
        port: 80,
        scope,
        name: None,
        kind: ServiceKind::Port,
    })
}

#[test]
fn a_name_is_settled_to_the_one_network_that_has_it() {
    let mut c = control(true);
    let ambiguous = ExposeScope::Unresolved { guild: None, name: "games".into() };
    let why = said(c.dispatch(add(ambiguous)));
    assert!(why.contains("games"), "{why}");
    assert!(c.fw.as_ref().unwrap().exposed.is_empty(), "a refused request changes nothing");

    let one = ExposeScope::Unresolved { guild: Some("home".into()), name: "games".into() };
    match c.dispatch(add(one)) {
        Outcome::ApplyRules(ControlResponse::Expose(r)) => {
            assert_eq!(r.exposed.len(), 1);
            assert!(matches!(
                r.exposed[0].scope,
                ExposeScope::Net { guild_id: 3, role_id: 4 }
            ));
        }
        _ => panic!("not exposed"),
    }

    let gone = ExposeScope::Unresolved { guild: None, name: "chess".into() };
    assert!(resolve_scope(gone, &c.status.networks).is_err());
    match c.dispatch(ControlRequest::Expose(ExposeOp::Remove {
        proto: Proto::Tcp,
        port: 80,
        scope: RemoveScope::All,
    })) {
        Outcome::ApplyRules(ControlResponse::Expose(r)) => assert!(r.exposed.is_empty()),
        _ => panic!("not closed"),
    }
}

fn shown_peer(user_id: u64) -> PeerStatus {
    PeerStatus {
        hostname: "d.u.unity.internal".into(),
        wg_ip: 1,
        endpoint: None,
        user_id,
        username: "u".into(),
        reach: PeerReach::Direct,
        up: true,
        latency_ms: None,
        rx_bytes: 0,
        tx_bytes: 0,
        last_handshake_secs: None,
        networks: vec![],
    }
}

#[test]
fn a_blocked_user_is_shown_no_more() {
    let mut c = control(false);
    c.status.peers = vec![shown_peer(5), shown_peer(6)];
    let o = c.dispatch(ControlRequest::BlockPeer { user_id: 5, username: "five".into() });
    let after = match o {
        Outcome::Save { changed: true, after } => after,
        _ => panic!("not saved"),
    };
    assert!(c.localnet.take_wake(), "the mesh is rebuilt");
    match c.finish(after, None) {
        ControlResponse::Status(s) => {
            assert_eq!(s.peers.len(), 1);
            assert_eq!(s.peers[0].user_id, 6);
            assert_eq!(s.blocked.len(), 1);
            assert_eq!(s.blocked[0].username, "five");
        }
        _ => panic!("no status"),
    }
    let again = c.dispatch(ControlRequest::BlockPeer { user_id: 5, username: "five".into() });
    assert!(matches!(again, Outcome::Save { changed: false, after: After::Blocked }));
    assert!(matches!(
        c.finish(After::Blocked, Some("disk full".into())),
        ControlResponse::Error(e) if e == "disk full"
    ));
}

#[test]
fn a_switched_network_is_told_at_once() {
    let mut c = control(false);
    let o = c.dispatch(ControlRequest::SetNetwork { guild_id: 3, role_id: 4, enabled: false });
    match o {
        Outcome::Save { changed, after } => {
            assert!(changed);
            match c.finish(after, None) {
                ControlResponse::Network { message, networks } => {
                    assert_eq!(
                        message,
                        "network 3/4 peering disabled (locally; syncs to coordinator on next refresh)"
                    );
                    assert!(networks[0].enabled && !networks[1].enabled);
                }
                _ => panic!("no networks"),
            }
        }
        _ => panic!("not saved"),
    }
    let o = c.dispatch(ControlRequest::SetConnected { connected: false });
    match o {
        Outcome::Save { changed: true, after } => {
            assert!(matches!(
                c.finish(after, None),
                ControlResponse::Connected { connected: false, .. }
            ));
        }
        _ => panic!("not saved"),
    }
    assert!(c.localnet.is_paused());
}

#[test]
fn a_request_is_bounded() {
    assert!(matches!(received(0), Received::Closed));
    assert!(matches!(received(1), Received::Line));
    assert!(matches!(received(MAX_REQUEST_BYTES), Received::TooLong));
}

#[test]
fn another_answer_than_the_one_asked_for_is_no_answer() {
    assert!(client_status(Reply::Status(shared())).is_ok());
    assert_eq!(client_status(Reply::Error("no".into())).err().unwrap(), "no");
    let login = Reply::Login(LoginResp { authorize_url: "u".into() });
    assert_eq!(client_expose(login).err().unwrap(), "unexpected response");
    assert!(matches!(
        client_set_blocked(4, Some("four".into())),
        ControlRequest::BlockPeer { user_id: 4, username } if username == "four"
    ));
    assert!(matches!(
        client_set_blocked(4, None),
        ControlRequest::UnblockPeer { user_id: 4 }
    ));
}

#[test]
fn the_socket_is_the_groups_or_the_callers() {
    assert_eq!(
        grant_socket_access(Some("wheel"), Some(10), Some("1000"), Some("1000")),
        SocketGrant { owner: None, group: Some(10), no_such_group: false }
    );
    assert!(grant_socket_access(Some("nope"), None, None, None).no_such_group);
    assert_eq!(
        grant_socket_access(None, None, Some("1000"), Some("1001")),
        SocketGrant { owner: Some(1000), group: Some(1001), no_such_group: false }
    );
    assert_eq!(
        grant_socket_access(None, None, Some("x"), Some("1001")),
        SocketGrant { owner: None, group: None, no_such_group: false }
    );
    assert_eq!(grant_dir_traversal(Some("wheel"), Some(10), Some("1")), Some(10));
    assert_eq!(grant_dir_traversal(None, None, Some("1")), Some(1));
    assert_eq!(SOCKET_MODE, 0o660);
    assert!(CONTROL_PIPE_SDDL.starts_with("D:P("));
}
