use unitylan::api::{ExposeScope, PeerReach, Proto, RemoveScope};
use unitylan::command::{begin, finish, logged_in_line, proceed, uninstall, CtlCmd, CtlNext};
use unitylan::control::client::{LoginResp, ManageResp, NetworkResp, Reply};
use unitylan::control::server::{ControlRequest, ExposeOp, ManageOp};
use unitylan::control::status::{shared, BlockedUser, DeviceStatus, PeerStatus, StatusReport};
use unitylan::ctl::{
    b64_key, base64_std, expose_scope, key_of, parse_port, remove_scope, status_lines, KeyError,
    OwnedDevice,
};
use unitylan::mesh::NetworkStatus;
use unitylan::net::v4;

#[test]
fn a_port_is_a_number_with_or_without_its_protocol() {
    assert_eq!(parse_port("25565").ok(), Some((Proto::Tcp, 25565)));
    assert_eq!(parse_port("UDP/53").ok(), Some((Proto::Udp, 53)));
    assert_eq!(
        parse_port("sctp/1").err().unwrap().to_text(),
        "bad protocol 'sctp' (use tcp or udp)"
    );
    assert_eq!(parse_port("tcp/65536").err().unwrap().to_text(), "bad port '65536'");
    assert_eq!(parse_port("x").err().unwrap().to_text(), "bad port 'x'");
}

#[test]
fn a_scope_is_a_network_or_the_owners_devices_or_everyone() {
    assert!(matches!(expose_scope(None, None, false), ExposeScope::AllPeers));
    assert!(matches!(expose_scope(Some("g".into()), None, true), ExposeScope::OwnDevices));
    assert!(matches!(
        expose_scope(Some("g".into()), Some("c".into()), false),
        ExposeScope::Unresolved { guild: Some(c), name } if c == "c" && name == "g"
    ));
    assert!(matches!(remove_scope(None, None, false), RemoveScope::All));
    assert!(matches!(
        remove_scope(None, None, true),
        RemoveScope::Exact(ExposeScope::OwnDevices)
    ));
}

#[test]
fn keys_are_written_and_read_as_base64() {
    let key = [7u8; 32];
    let t = base64_std(&key);
    assert_eq!(t, "BwcHBwcHBwcHBwcHBwcHBwcHBwcHBwcHBwcHBwcHBwc=");
    assert_eq!(b64_key(&t), Ok(key));
    assert_eq!(b64_key("%"), Err(KeyError::NotBase64));
    assert_eq!(b64_key("AAAA"), Err(KeyError::NotAKey));
    assert_eq!(key_of(&vec![7; 32]), Ok(key));
    assert_eq!(key_of(&vec![7; 31]), Err(KeyError::NotAKey));
}

fn peer(hostname: &str, user_id: u64, username: &str, reach: PeerReach) -> PeerStatus {
    PeerStatus {
        hostname: hostname.into(),
        wg_ip: v4(100, 64, 0, 2),
        endpoint: None,
        user_id,
        username: username.into(),
        reach,
        up: true,
        latency_ms: None,
        rx_bytes: 0,
        tx_bytes: 0,
        last_handshake_secs: None,
        networks: vec![],
    }
}

fn status() -> StatusReport {
    let mut s = shared();
    s.connected = true;
    s.device = Some(DeviceStatus {
        wg_ip: v4(100, 64, 0, 1),
        hostname: "laptop.me.unity.internal".into(),
        is_primary: true,
        networks: vec!["games".into(), "work".into()],
    });
    s.peers = vec![peer("box.u.unity.internal", 5, "five", PeerReach::Relayed)];
    s.networks = vec![NetworkStatus {
        guild_id: 1,
        role_id: 2,
        name: "games".into(),
        guild_name: "acme".into(),
        enabled: true,
    }];
    s.blocked = vec![BlockedUser { user_id: 9, username: "nine".into() }];
    s
}

#[test]
fn a_status_is_shown_in_lines() {
    let lines = status_lines(&status(), &vec![Some("1.2.3.4:51820".into())]);
    assert_eq!(
        lines,
        vec![
            "device:  100.64.0.1 laptop.me.unity.internal [primary]".to_string(),
            "networks: games, work".to_string(),
            "peers (1):".to_string(),
            format!(
                "  {:<16} {:<40} {}  [relayed]",
                "100.64.0.2", "box.u.unity.internal", "1.2.3.4:51820"
            ),
            "blocked (1):".to_string(),
            "  nine (id 9)".to_string(),
        ]
    );
    let mut bare = shared();
    bare.needs_login = true;
    bare.update_available = Some("2.0".into());
    assert_eq!(
        status_lines(&bare, &vec![]),
        vec![
            "not logged in — run `unitylan-engine ctl login`",
            "mesh: disconnected — run `unitylan-engine ctl connect`",
            "not joined to any network",
            "update:  v2.0 available",
            "peers (0):",
        ]
    );
}

fn done(r: Result<CtlNext, String>) -> Vec<String> {
    match r {
        Ok(CtlNext::Done(lines)) => lines,
        _ => panic!("not done"),
    }
}

#[test]
fn a_command_asks_and_says_what_came_of_it() {
    assert!(matches!(begin(&CtlCmd::Status), Ok(ControlRequest::Status)));
    assert!(matches!(
        begin(&CtlCmd::Disconnect),
        Ok(ControlRequest::SetConnected { connected: false })
    ));
    assert!(matches!(begin(&CtlCmd::Exposes), Ok(ControlRequest::Expose(ExposeOp::List))));
    let bad = CtlCmd::Expose { port: "x".into(), net: None, guild: None, own_devices: false };
    assert_eq!(begin(&bad).err().unwrap(), "bad port 'x'");

    let login = Reply::Login(LoginResp { authorize_url: "https://u".into() });
    let lines = done(proceed(&CtlCmd::Login, login, &vec![]));
    assert!(lines[0].contains("https://u"));
    let devices = Reply::Manage(ManageResp {
        message: "devices".into(),
        devices: vec![OwnedDevice {
            device_name: "laptop".into(),
            is_primary: true,
            is_self: true,
        }],
    });
    assert_eq!(
        done(proceed(&CtlCmd::Devices, devices, &vec![])),
        vec!["devices", "  laptop [primary] (this device)"]
    );
    let failed = proceed(&CtlCmd::Update, Reply::Error("no update".into()), &vec![]);
    assert_eq!(failed.err().unwrap(), "no update");
}

#[test]
fn a_name_is_looked_up_before_it_is_acted_on() {
    let at = vec![None];
    let on = CtlCmd::Net { enabled: false, network: "games".into() };
    assert!(matches!(begin(&on), Ok(ControlRequest::Status)));
    assert!(matches!(
        proceed(&on, Reply::Status(status()), &at),
        Ok(CtlNext::Ask(ControlRequest::SetNetwork { guild_id: 1, role_id: 2, enabled: false }))
    ));
    let nets = status().networks;
    let told = Reply::Network(NetworkResp { message: "ok".into(), networks: nets });
    assert_eq!(done(finish(&on, told)), vec!["ok", "  games [on]"]);

    let unknown = CtlCmd::Net { enabled: true, network: "chess".into() };
    assert_eq!(
        proceed(&unknown, Reply::Status(status()), &at).err().unwrap(),
        "no network named 'chess' (yours: games)"
    );

    let block = CtlCmd::Block { user: "five".into() };
    assert!(matches!(
        proceed(&block, Reply::Status(status()), &at),
        Ok(CtlNext::Ask(ControlRequest::BlockPeer { user_id: 5, .. }))
    ));
    assert_eq!(
        done(finish(&block, Reply::Status(status()))),
        vec!["blocked five (1 user(s) blocked)"]
    );
    let stranger = CtlCmd::Block { user: "who".into() };
    assert_eq!(
        proceed(&stranger, Reply::Status(status()), &at).err().unwrap(),
        "no peer with handle 'who'"
    );
    let unblock = CtlCmd::Unblock { user: "nine".into() };
    assert!(matches!(
        proceed(&unblock, Reply::Status(status()), &at),
        Ok(CtlNext::Ask(ControlRequest::UnblockPeer { user_id: 9 }))
    ));
    assert_eq!(done(finish(&unblock, Reply::Status(shared()))), vec!["un-blocked nine"]);
}

#[test]
fn removing_the_engine_keeps_its_state_unless_purged() {
    let kept = uninstall(Some("t".into()), "laptop".into(), "/s", false);
    assert!(matches!(
        kept.leave,
        Some((t, ManageOp::Remove { device_name })) if t == "t" && device_name == "laptop"
    ));
    assert!(!kept.wipe);
    assert_eq!(
        kept.message,
        "Kept local state (device identity) at /s — pass --purge to wipe it."
    );
    let wiped = uninstall(None, "laptop".into(), "/s", true);
    assert!(wiped.leave.is_none() && wiped.wipe);
    assert_eq!(wiped.message, "Wiped local state at /s.");
    assert_eq!(
        logged_in_line(&None),
        "Logged in ✓  (no networks yet — join a role in Discord)"
    );
}
