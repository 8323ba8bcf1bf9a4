use unitylan::net::{v4, Net};
use unitylan::netcfg::{lan_overlap_warning, LocalAddr, LocalNet, SavedNet};

fn nothing() -> SavedNet {
    SavedNet {
        disabled: None,
        paused: None,
        known: None,
        disable_new: None,
        peer_own: None,
        blocked: None,
    }
}

fn fresh() -> LocalNet {
    LocalNet::load(&nothing(), true, true)
}

fn reload(ln: &LocalNet) -> LocalNet {
    LocalNet::load(&ln.saved(), true, true)
}

#[test]
fn paused_flag_persists_and_reloads() {
    let mut ln = fresh();
    assert!(!ln.is_paused(), "defaults to connected");

    // First toggle changes; a redundant set does not.
    assert!(ln.set_paused(true));
    assert!(!ln.set_paused(true));
    assert!(ln.is_paused());

    // A fresh load sees the persisted state; the per-network opt-out is untouched.
    let mut reloaded = reload(&ln);
    assert!(reloaded.is_paused());
    assert_eq!(reloaded.snapshot().len(), 0);

    // Reconnecting clears it.
    assert!(reloaded.set_paused(false));
    assert!(!reload(&reloaded).is_paused());
}

#[test]
fn new_networks_disabled_on_discovery_when_policy_set() {
    // Policy on: a freshly-seen network is opted out; re-seeing it doesn't re-disable.
    let mut ln = fresh();
    assert!(ln.reconcile_new(&vec![(1, 10)]), "new net disabled");
    assert!(ln.snapshot().contains(&(1, 10)));
    assert!(!ln.reconcile_new(&vec![(1, 10)]), "already known");

    // A manual enable sticks even though the network stays known (not re-disabled).
    assert!(ln.set(1, 10, true));
    assert!(!ln.reconcile_new(&vec![(1, 10)]));
    assert!(!ln.snapshot().contains(&(1, 10)));

    // Known set + policy survive a reload; policy is now settable.
    assert!(ln.set_disable_new(false));
    let mut reloaded = reload(&ln);
    assert!(
        !reloaded.disable_new(),
        "persisted policy wins over config default"
    );
    // Policy off: a new network is recorded but left enabled.
    assert!(!reloaded.reconcile_new(&vec![(2, 20)]));
    assert!(!reloaded.snapshot().contains(&(2, 20)));
}

#[test]
fn peer_own_devices_persists_and_reloads() {
    // Defaults to the config-seeded value (enabled).
    let mut ln = fresh();
    assert!(ln.peer_own_devices());

    // First toggle changes; a redundant set does not.
    assert!(ln.set_peer_own_devices(false));
    assert!(!ln.set_peer_own_devices(false));
    assert!(!ln.peer_own_devices());

    // The persisted value wins over the config default on reload.
    assert!(!reload(&ln).peer_own_devices());
}

#[test]
fn blocked_users_persist_and_reload() {
    let mut ln = fresh();
    assert_eq!(ln.blocked_snapshot().len(), 0, "defaults to none blocked");

    // First block changes; blocking the same user again does not.
    assert!(ln.set_blocked(333, "alice".into(), true));
    assert!(!ln.set_blocked(333, "alice".into(), true));
    assert_eq!(
        ln.blocked_snapshot().get(&333).map(String::as_str),
        Some("alice")
    );

    // The block survives a reload (keyed by user_id, handle kept for display).
    let mut reloaded = reload(&ln);
    assert_eq!(
        reloaded.blocked_snapshot().get(&333).map(String::as_str),
        Some("alice")
    );

    // Un-blocking changes once, then is a no-op; the persisted set empties.
    assert!(reloaded.set_blocked(333, String::new(), false));
    assert!(!reloaded.set_blocked(333, String::new(), false));
    assert_eq!(reload(&reloaded).blocked_snapshot().len(), 0);
}

#[test]
fn a_decision_about_the_mesh_wakes_it_once() {
    let mut ln = fresh();
    assert!(!ln.take_wake());
    ln.set(1, 2, false);
    assert_eq!(ln.as_refs(), vec![(1, 2)]);
    assert!(ln.take_wake());
    assert!(!ln.take_wake());
    // What a new network starts out as bears on no peer.
    ln.set_disable_new(false);
    assert!(!ln.take_wake());
}

#[test]
fn a_local_subnet_in_the_meshs_block_is_warned_of() {
    let mesh = Net { addr: v4(100, 64, 0, 0), prefix: 10 };
    let at = |name: &str, ip: u32, mask: u32, loopback: bool| LocalAddr {
        name: name.into(),
        ip,
        mask,
        loopback,
    };
    let slash24 = v4(255, 255, 255, 0);
    let clear = vec![
        at("lo", v4(100, 64, 0, 1), slash24, true),
        at("unl0", v4(100, 64, 0, 1), slash24, false),
        at("eth0", v4(192, 168, 1, 5), slash24, false),
        // No mask at all: its bits are not in a row.
        at("odd0", v4(100, 64, 0, 1), 0xff00_ff00, false),
    ];
    assert!(lan_overlap_warning(mesh, "unl0", &clear).is_none());
    let met = vec![
        at("eth0", v4(192, 168, 1, 5), slash24, false),
        at("eth1", v4(100, 100, 7, 9), slash24, false),
    ];
    assert_eq!(
        lan_overlap_warning(mesh, "unl0", &met).unwrap(),
        "mesh range 100.64.0.0/10 overlaps local interface eth1 (100.100.7.0/24)"
    );
}
