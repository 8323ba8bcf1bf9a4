use unitylan::net::endpoint_v4;
use unitylan::proxy::{
    binary, decide, drop_privileges, more_room, primary_gid, proxy_file_name, run_as, spawn,
    stop_windows_service, windows_service_control, windows_spawn, Action, DropStep, GroupListing,
    Ids, Proxy, ServiceState, Waited,
};

#[test]
fn it_runs_only_while_there_is_something_to_serve() {
    assert_eq!(decide(true, false), Action::Start);
    assert_eq!(decide(false, true), Action::Stop);
    assert_eq!(decide(true, true), Action::Leave);
    assert_eq!(decide(false, false), Action::Leave);
}

/// The isolation is the feature. An engine that is root and has not been told who to run the
/// proxy as must refuse rather than run it as root — that would look like it worked while
/// giving away exactly what the separate process was for.
#[test]
fn a_root_engine_refuses_to_start_an_unconfigured_proxy() {
    let err = run_as(None, 0).expect_err("root with no user must refuse");
    assert!(
        err.contains("[proxy] user"),
        "the message names the fix: {err}"
    );
    assert!(err.contains("enabled = false"), "and the way out: {err}");

    assert_eq!(
        run_as(Some("unitylan-proxy"), 0).unwrap().as_deref(),
        Some("unitylan-proxy")
    );
    // A rootless engine has no privileges to drop, so running as itself is already the goal.
    assert_eq!(run_as(None, 1000).unwrap(), None);
}

/// The child must keep the groups its account is a member of: the packaged proxy reaches the
/// certificate key through exactly such a membership.
#[test]
fn the_resolved_ids_carry_the_accounts_group_list() {
    let listing = GroupListing { fitted: true, count: 2, groups: vec![0, 42, 0, 0] };
    let root = Ids::lookup(0, 0, listing, false);
    assert_eq!(root.uid, 0);
    assert!(
        root.groups.contains(&root.gid),
        "the primary group is always in the list, got {:?}",
        root.groups
    );
    assert!(
        !root.groups.is_empty(),
        "an empty list would clear them all"
    );
    assert_eq!(root.groups, vec![0, 42]);
    assert_eq!(primary_gid(Some("root"), Some(&root)), Some(root.gid));
    assert_eq!(primary_gid(None, None), None);
    // An account that does not exist has no group.
    assert_eq!(primary_gid(Some("no-such-unitylan-user"), None), None);
}

#[test]
fn a_listing_that_does_not_fit_is_made_again() {
    let small = GroupListing { fitted: false, count: 40, groups: vec![7; 16] };
    assert_eq!(more_room(&small), Some(40));
    let enough = GroupListing { fitted: true, count: 3, groups: vec![1, 2, 3] };
    assert_eq!(more_room(&enough), None);
    // A second listing that fails leaves the primary group alone.
    let failed = GroupListing { fitted: false, count: 40, groups: vec![7; 40] };
    assert_eq!(Ids::lookup(5, 6, failed, true).groups, vec![6]);
    let none = GroupListing { fitted: true, count: 0, groups: vec![] };
    assert_eq!(Ids::lookup(5, 6, none, false).groups, vec![6]);
    let negative = GroupListing { fitted: false, count: -1, groups: vec![9, 9] };
    assert_eq!(more_room(&negative), None);
    assert_eq!(Ids::lookup(5, 6, negative, false).groups, vec![6]);
}

#[test]
fn privileges_are_dropped_with_the_user_last() {
    assert_eq!(
        drop_privileges(),
        vec![DropStep::SetGroups, DropStep::SetGid, DropStep::SetUid]
    );
}

#[test]
fn the_binary_sits_beside_the_engine_unless_told_otherwise() {
    let explicit = "/opt/unitylan/proxy";
    assert_eq!(binary(Some(explicit), None, false), explicit);
    let found = binary(None, Some("/usr/bin"), false);
    assert_eq!(found, format!("/usr/bin/{}", proxy_file_name(false)));
    assert_eq!(binary(None, None, true), "unitylan-proxy.exe");
}

#[test]
fn the_proxy_gets_no_environment_but_a_log_filter() {
    let l = spawn("/run/control.sock", "LISTEN_VAR", Some("debug"));
    assert_eq!(l.args, vec!["/run/control.sock".to_string()]);
    assert_eq!(
        l.env,
        vec![
            ("LISTEN_VAR".to_string(), "3".to_string()),
            ("RUST_LOG".to_string(), "debug".to_string())
        ]
    );
    assert_eq!(l.fd, 3);
    assert_eq!(spawn("/s", "V", Some("")).env.len(), 1);
    assert_eq!(spawn("/s", "V", None).env.len(), 1);
}

#[test]
fn a_service_is_only_moved_when_it_has_to_be() {
    assert_eq!(windows_service_control(true, ServiceState::Running), Action::Leave);
    assert_eq!(windows_service_control(true, ServiceState::Stopped), Action::Start);
    assert_eq!(windows_service_control(false, ServiceState::Other), Action::Stop);
    assert_eq!(stop_windows_service(None), Action::Leave);
    assert_eq!(stop_windows_service(Some(ServiceState::Stopped)), Action::Leave);
    assert_eq!(stop_windows_service(Some(ServiceState::Running)), Action::Stop);
    assert!(windows_spawn(None).is_ok());
    assert!(windows_spawn(Some("me")).unwrap_err().contains("no effect on Windows"));
}

#[test]
fn a_proxy_that_exited_or_moved_is_noticed() {
    let p = Proxy { bound_to: endpoint_v4(100, 64, 0, 1, 443) };
    assert!(p.alive(Waited::Running));
    assert!(!p.alive(Waited::Exited));
    assert!(!p.alive(Waited::Unknown));
    assert!(!p.moved(endpoint_v4(100, 64, 0, 1, 443)));
    assert!(p.moved(endpoint_v4(100, 64, 0, 2, 443)));
}
