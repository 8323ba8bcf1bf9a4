use unitylan::versions::{Scope, ScopeSet, Versions};

fn set<const N: usize>(scopes: [Scope; N]) -> ScopeSet {
    ScopeSet::of(&scopes.to_vec())
}

#[test]
fn bump_moves_only_subscribed_scopes() {
    let mut v = Versions::new();
    let a = set([Scope::Guild(1), Scope::User(7)]);
    let b = set([Scope::Guild(2), Scope::User(8)]);
    let (a0, b0) = (v.aggregate(&a), v.aggregate(&b));

    v.bump(Scope::Guild(1));
    assert_ne!(v.aggregate(&a), a0, "guild 1's members see the change");
    assert_eq!(v.aggregate(&b), b0, "a disjoint guild's members do not");

    v.bump(Scope::User(8));
    assert_ne!(v.aggregate(&b), b0, "own-device scope wakes its owner");
}

#[test]
fn aggregate_tracks_scope_set_changes() {
    let v = Versions::new();
    // Losing a guild changes the ETag even when no counter moved, so a client whose membership
    // shrank never mistakes its old version for the current one and parks on stale state.
    assert_ne!(
        v.aggregate(&set([Scope::Guild(1), Scope::User(7)])),
        v.aggregate(&set([Scope::User(7)]))
    );
}

#[test]
fn global_bumps_once_per_batch() {
    let mut v = Versions::new();
    let g0 = v.global();
    v.bump_all(&vec![Scope::Guild(1), Scope::Guild(2), Scope::User(3)]);
    assert_eq!(v.global(), g0 + 1);
    v.bump_all(&vec![]); // nothing changed → no wake
    assert_eq!(v.global(), g0 + 1);
}

#[test]
fn the_order_of_a_set_does_not_show() {
    let v = Versions::new();
    let a = set([Scope::User(7), Scope::Guild(9), Scope::Guild(1), Scope::Guild(9)]);
    let b = set([Scope::Guild(1), Scope::Guild(9), Scope::User(7)]);
    assert_eq!(a.items, vec![Scope::Guild(1), Scope::Guild(9), Scope::User(7)]);
    assert_eq!(v.aggregate(&a), v.aggregate(&b));
    // A community and a user of one number are two scopes.
    assert_ne!(v.aggregate(&set([Scope::Guild(7)])), v.aggregate(&set([Scope::User(7)])));
}

#[test]
fn a_scope_without_a_counter_has_seen_no_change() {
    let mut v = Versions::new();
    let a = set([Scope::Guild(1)]);
    let before = v.aggregate(&a);
    let r = v.subscribe(Scope::Guild(1));
    assert_eq!(v.aggregate(&a), before);
    v.unsubscribe(r);
}

#[test]
fn a_receiver_sees_its_own_scope_change() {
    let mut v = Versions::new();
    let a = v.subscribe(Scope::Guild(1));
    let b = v.subscribe(Scope::Guild(1));
    let c = v.subscribe(Scope::User(7));
    let all = v.subscribe_global();
    assert_eq!(v.waiters(), 3);
    assert!(!v.has_changed(&a));
    v.bump_all(&vec![Scope::Guild(1), Scope::Guild(1)]);
    assert!(v.has_changed(&a));
    assert!(v.has_changed(&b));
    assert!(!v.has_changed(&c));
    assert_ne!(v.global(), all);
    v.unsubscribe(a);
    assert_eq!(v.waiters(), 2);
    assert_eq!(v.subscribe(Scope::Guild(1)).seen, 2);
}
