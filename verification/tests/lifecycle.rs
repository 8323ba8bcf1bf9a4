use unitylan::assoc::Assoc;
use unitylan::coord::CoordError;
use unitylan::daemon::{Handshake, PeerStats, RunOutcome, SentReport, DNS_PORT};
use unitylan::lifecycle::{
    apply_state, dns_bind, logout, observed_now, register_until_ready, relay_address,
    resolve_endpoint, start_relay, teardown, withdrawal, Attempt, Event, LeaveStep, MeshLoop, Next,
    Overlay,
};
use unitylan::mesh::{NetworkStatus, ObservedEndpoint, SeedPeer, SelfDevice, SharedNetwork};
use unitylan::net::{endpoint_v4, v4, Ip, Net};
use unitylan::netcfg::{LocalNet, SavedNet};
use unitylan::ping::{probe, Echo};
use unitylan::upnp::{
    default_route_ipv4, exhausted_text, map_port, Mapped, PortWalk, WalkStep, PORT_FALLBACK_TRIES,
};

fn news() -> SentReport {
    let mut r = SentReport::new();
    r.observed =
        vec![ObservedEndpoint { pubkey: [1; 32], endpoint: endpoint_v4(1, 2, 3, 4, 5) }];
    r
}

#[test]
fn an_idle_device_leaves_its_request_with_the_coordinator() {
    let mut l = MeshLoop::new(7, true, 15);
    let quiet = SentReport::new();
    let first = l.poll(&quiet, None, 100, 60, &vec![], &vec![]);
    assert!(!first.withdraw);
    assert_eq!(first.issue, Some(Some(7)));
    let again = l.poll(&quiet, Some(1_000), 100, 60, &vec![], &vec![]);
    assert!(!again.withdraw && again.issue.is_none());

    // News, or the device's own attestation about to lapse, replaces the request.
    let told = l.poll(&news(), None, 100, 60, &vec![], &vec![]);
    assert!(told.withdraw);
    assert_eq!(told.issue, Some(None));
    let renewed = l.poll(&quiet, Some(160), 100, 60, &vec![], &vec![]);
    assert!(renewed.withdraw && renewed.issue == Some(None));
}

#[test]
fn each_event_calls_for_its_own() {
    let mut l = MeshLoop::new(1, true, 15);
    assert!(matches!(l.handle(Event::Shutdown), Next::End(RunOutcome::Stopped)));
    assert!(matches!(
        l.handle(Event::Restart { plan: true, service: false }),
        Next::End(RunOutcome::ReExec)
    ));
    assert!(matches!(
        l.handle(Event::Restart { plan: true, service: true }),
        Next::End(RunOutcome::RestartService)
    ));
    assert!(matches!(l.handle(Event::Logout), Next::Leave));
    assert!(matches!(l.handle(Event::Toggle), Next::Remesh(Overlay::Ice)));
    assert!(matches!(
        l.handle(Event::Recheck { ice_changed: false, lan_changed: true }),
        Next::Apply
    ));
    assert!(matches!(
        l.handle(Event::Recheck { ice_changed: false, lan_changed: false }),
        Next::Nothing
    ));
    let failed = l.handle(Event::Failed { error: CoordError::NoGrant });
    assert!(matches!(failed, Next::Wait { secs: 15, refused: None }));
    assert!(!l.coord_online);
}

#[test]
fn host_state_is_undone_before_the_interface() {
    let steps = teardown(true, true, true, true);
    assert_eq!(steps[0], LeaveStep::Withdraw);
    let at = |s: LeaveStep| steps.iter().position(|x| *x == s).unwrap();
    assert!(at(LeaveStep::ResetFirewall) < at(LeaveStep::InterfaceDown));
    assert!(at(LeaveStep::RevertResolver) < at(LeaveStep::InterfaceDown));
    assert_eq!(teardown(false, false, false, false).len(), 2);
    let out = logout(true, false, false, false, false);
    assert_eq!(
        out,
        vec![LeaveStep::Unenroll, LeaveStep::InterfaceDown, LeaveStep::ClearEnrollment]
    );
    let w = withdrawal([1; 32], "laptop".into(), None, None, true);
    assert!(w.paused && w.since.is_none());
}

#[test]
fn registering_waits_as_long_as_it_helps() {
    assert!(register_until_ready(Attempt::Ready, 15).ready);
    let r = register_until_ready(Attempt::NoNetworks, 1);
    assert_eq!((r.needs_login, r.wait_secs, r.wakes_on_login), (Some(false), 2, true));
    let r = register_until_ready(Attempt::Refused("old".into()), 15);
    assert_eq!((r.wait_secs, r.wakes_on_login), (300, false));
    assert_eq!(r.refused.as_deref(), Some("old"));
    let r = register_until_ready(Attempt::Failed("device not enrolled".into()), 15);
    assert_eq!((r.needs_login, r.wait_secs), (Some(true), 15));
    let r = register_until_ready(Attempt::Failed("timeout".into()), 15);
    assert_eq!(r.needs_login, Some(false));
}

#[test]
fn where_the_device_is_reached() {
    let set = endpoint_v4(1, 1, 1, 1, 51820);
    let mapped = endpoint_v4(2, 2, 2, 2, 51820);
    assert_eq!(resolve_endpoint(Some(set), true, Some(mapped)), Some(set));
    assert_eq!(resolve_endpoint(None, true, Some(mapped)), Some(mapped));
    assert_eq!(resolve_endpoint(None, false, Some(mapped)), None);
    assert_eq!(relay_address(true, Some(set), 3478), Some(endpoint_v4(1, 1, 1, 1, 3478)));
    assert_eq!(relay_address(false, Some(set), 3478), None);
    assert!(start_relay(Some(set), Some("s".into())).capable);
    assert!(!start_relay(Some(set), None).capable);
    assert_eq!(dns_bind(true, v4(100, 64, 0, 1)), Some(endpoint_v4(100, 64, 0, 1, DNS_PORT)));
    assert_eq!(dns_bind(false, 1), None);
}

#[test]
fn observations_are_in_order_of_key() {
    let at = |last: u8| Some(endpoint_v4(9, 9, 9, last, 1));
    let stat = |e| PeerStats { endpoint: e, handshake: Handshake::Never, rx_bytes: 0, tx_bytes: 0 };
    let mut stats = Assoc::new();
    stats.insert([3u8; 32], stat(at(3)));
    stats.insert([1u8; 32], stat(at(1)));
    stats.insert([2u8; 32], stat(None));
    let seen = observed_now(&Some(stats), &SentReport::new());
    let keys: Vec<u8> = seen.iter().map(|o| o.pubkey[0]).collect();
    assert_eq!(keys, vec![1, 3]);
    // Figures that could not be read are no change.
    assert_eq!(observed_now(&None, &news()).len(), 1);
}

fn member(user_id: u64) -> SeedPeer {
    SeedPeer {
        pubkey: [2; 32],
        user_id,
        username: "u".into(),
        ip: v4(100, 64, 0, 2),
        endpoint: None,
        punch: None,
        hostname: "d.u.unity.internal".into(),
        primary_alias: None,
        networks: vec![SharedNetwork {
            name: "games".into(),
            community: "acme".into(),
            guild_id: 1,
            role_id: 2,
        }],
        relay: None,
        ice: None,
        rev: 0,
        expires_at: 0,
    }
}

#[test]
fn a_new_network_does_not_peer_even_once_where_it_starts_out_disabled() {
    let device = Some(SelfDevice {
        community_name: "acme".into(),
        user_id: 1,
        username: "me".into(),
        networks: vec!["games".into()],
        wg_ip: v4(100, 64, 0, 1),
        wg_net: Net { addr: v4(100, 64, 0, 0), prefix: 10 },
        hostname: "l.me.unity.internal".into(),
        is_primary: true,
        grant_expires_at: 0,
        primary_alias: None,
        networks_status: vec![NetworkStatus {
            guild_id: 1,
            role_id: 2,
            name: "games".into(),
            guild_name: "acme".into(),
            enabled: true,
        }],
        dns_domain: None,
    });
    let saved = SavedNet {
        disabled: None,
        paused: None,
        known: None,
        disable_new: None,
        peer_own: None,
        blocked: None,
    };
    let seeds = vec![member(5)];
    let mut closed = LocalNet::load(&saved, true, true);
    let a = apply_state(&mut closed, &device, &seeds);
    assert!(a.link_up && a.active.is_empty());
    closed.set(1, 2, true);
    assert_eq!(apply_state(&mut closed, &device, &seeds).active.len(), 1);

    let mut open = LocalNet::load(&saved, false, true);
    assert_eq!(apply_state(&mut open, &device, &seeds).active.len(), 1);
    open.set_paused(true);
    let p = apply_state(&mut open, &device, &seeds);
    assert!(!p.link_up && p.active.is_empty());
    assert!(apply_state(&mut open, &None, &seeds).active.is_empty());
}

#[test]
fn a_port_in_use_is_followed_by_the_next() {
    let mut w = PortWalk::new(51820);
    assert_eq!(w.next(), WalkStep::Ask(51820));
    assert_eq!(w.answer(Mapped::InUse), WalkStep::Ask(51821));
    assert_eq!(w.answer(Mapped::Done), WalkStep::Mapped(51821));

    let mut w = PortWalk::new(51820);
    for _ in 1..PORT_FALLBACK_TRIES {
        assert!(matches!(w.answer(Mapped::InUse), WalkStep::Ask(_)));
    }
    assert_eq!(w.answer(Mapped::InUse), WalkStep::Exhausted);
    assert_eq!(
        exhausted_text(51820),
        "router refused UPnP port mapping: 8 external ports from 51820 all in use"
    );

    // Past the last port there is none, and a refusal ends the walk.
    let mut w = PortWalk::new(65535);
    assert_eq!(w.answer(Mapped::InUse), WalkStep::Exhausted);
    let mut w = PortWalk::new(1);
    assert_eq!(w.answer(Mapped::Refused), WalkStep::Refused);
    assert_eq!(map_port(Ip::V4(9), 51821).port, 51821);
    assert_eq!(default_route_ipv4(Ip::V4(v4(192, 168, 0, 2))), Some(v4(192, 168, 0, 2)));
    assert_eq!(default_route_ipv4(Ip::V4(v4(127, 0, 0, 1))), None);
    assert_eq!(default_route_ipv4(Ip::V4(0)), None);
    assert_eq!(default_route_ipv4(Ip::V6(1)), None);
}

#[test]
fn an_echo_tells_the_time_it_took() {
    let r = probe(&vec![
        Echo { ip: 1, rtt_ms: Some(12) },
        Echo { ip: 2, rtt_ms: None },
        Echo { ip: 3, rtt_ms: Some(1_001) },
    ]);
    assert_eq!(r.get(&1), Some(&12));
    assert_eq!(r.get(&2), None);
    assert_eq!(r.get(&3), None);
}
