use unitylan::cert::{
    account_path, cert_path, certs_dir, clamp_expiry, collect, decide, failed,
    grant_key_group, issue, issued, key_path, not_after, note_pending, reconcile, reload_command,
    run_reload, state_path, Action, Authz, AuthzStatus, CertNames, IssueError, IssuePlan,
    IssuedState, Reconcile, Reloaded, RENEW_BEFORE, SETTLE,
};

#[test]
fn certificate_names_swap_the_suffix_for_the_public_domain() {
    let names = CertNames::new(
        "laptop.gordon.unity.internal",
        Some("gordon.unity.internal"),
        "mesh.example.com",
        &[],
    )
    .unwrap();
    assert_eq!(names.device, "laptop.gordon.mesh.example.com");
    assert_eq!(names.primary.as_deref(), Some("gordon.mesh.example.com"));
}

#[test]
fn a_non_primary_device_orders_its_own_name_and_its_wildcard() {
    let names = CertNames::new(
        "desktop.gordon.unity.internal",
        None,
        "mesh.example.com",
        &[],
    )
    .unwrap();
    assert_eq!(names.all().len(), 2);
    assert!(names.primary.is_none());
    assert_eq!(
        names.all(),
        vec![
            "desktop.gordon.mesh.example.com".to_string(),
            "*.desktop.gordon.mesh.example.com".to_string(),
        ]
    );
}

#[test]
fn the_wildcard_stops_at_this_device() {
    // `*.<user>.<domain>` would match a sibling device's own name — `laptop.gordon.…` — and so
    // hand whichever machine held it a publicly-trusted certificate for the owner's others.
    // The glob is anchored one level lower, under this device.
    let names = CertNames::new(
        "laptop.gordon.unity.internal",
        Some("gordon.unity.internal"),
        "mesh.example.com",
        &[],
    )
    .unwrap();
    assert_eq!(names.wildcard(), "*.laptop.gordon.mesh.example.com");
    assert!(!names
        .all()
        .contains(&"*.gordon.mesh.example.com".to_string()));
}

const NOW: u64 = 1_800_000_000;

fn recon(enabled: bool, exposed: bool, domain: Option<&'static str>) -> Reconcile<'static> {
    Reconcile {
        state_dir: "/nonexistent",
        coordinator: "http://coordinator.invalid",
        token: "t".into(),
        acme_directory: None,
        hostname: "laptop.gordon.unity.internal",
        primary_alias: None,
        dns_domain: domain,
        enabled,
        exposed,
        services: Vec::new(),
    }
}

fn held(names: CertNames, expires_in: u64) -> IssuedState {
    let mut s = IssuedState::new();
    s.names = Some(names);
    s.expires_at = NOW + expires_in;
    s
}

fn names() -> CertNames {
    CertNames::new(
        "laptop.gordon.unity.internal",
        None,
        "mesh.example.com",
        &[],
    )
    .unwrap()
}

#[test]
fn a_web_service_is_named_under_the_user_not_the_device() {
    // `jellyfin.gordon`, beside `laptop.gordon` — not `jellyfin.laptop.gordon`. The service
    // belongs to the owner and may move between their devices; the name should not have to
    // change when it does.
    let names = CertNames::new(
        "laptop.gordon.unity.internal",
        None,
        "mesh.example.com",
        &["jellyfin".to_string(), "git".to_string()],
    )
    .unwrap();
    assert_eq!(
        names.services,
        vec![
            "jellyfin.gordon.mesh.example.com".to_string(),
            "git.gordon.mesh.example.com".to_string(),
        ]
    );
    assert!(names
        .all()
        .contains(&"jellyfin.gordon.mesh.example.com".to_string()));
}

/// Naming three services in a row is one intent; issuing per change would spend three of the
/// CA's weekly allowance — shared by the whole deployment — on the first minutes of setup.
#[test]
fn a_changed_service_set_batches_instead_of_reissuing_per_change() {
    let mut r = recon(true, true, Some("mesh.example.com"));
    let mut state = held(names(), 60 * 24 * 3600); // a live certificate, nowhere near renewal
    assert!(
        matches!(decide(&r, &state, NOW), Action::Idle(None)),
        "settled"
    );

    // The owner names a web service: the held certificate no longer covers what we want.
    r.services = vec!["jellyfin".to_string()];
    assert!(note_pending(&r, &mut state, NOW), "stamped when it changed");
    assert_eq!(state.pending_since, NOW);
    assert!(
        matches!(decide(&r, &state, NOW + 60), Action::Idle(Some(_))),
        "still inside the settle window"
    );

    // A second service a minute later does not restart the clock — the window is about the
    // burst, not the latest change.
    r.services = vec!["jellyfin".to_string(), "git".to_string()];
    assert!(!note_pending(&r, &mut state, NOW + 60), "stamp unchanged");
    assert_eq!(state.pending_since, NOW);

    // Once it settles, one order covers both.
    match decide(&r, &state, NOW + SETTLE) {
        Action::Issue(names) => assert_eq!(names.services.len(), 2),
        other => panic!(
            "expected an issue after the settle window, got {:?}",
            matches!(other, Action::Idle(_))
        ),
    }
}

/// First issuance has nothing to batch and nothing to protect, so it must not wait.
#[test]
fn a_device_with_no_certificate_yet_does_not_wait_out_the_settle_window() {
    let mut r = recon(true, true, Some("mesh.example.com"));
    r.services = vec!["jellyfin".to_string()];
    let mut state = IssuedState::new();
    note_pending(&r, &mut state, NOW);
    assert_eq!(state.pending_since, 0, "nothing held, nothing pending");
    assert!(matches!(decide(&r, &state, NOW), Action::Issue(_)));
}

/// ...and neither does a renewal: that certificate is expiring regardless, so waiting only eats
/// into the margin.
#[test]
fn a_renewal_is_not_held_up_by_a_changed_service_set() {
    let mut r = recon(true, true, Some("mesh.example.com"));
    r.services = vec!["jellyfin".to_string()];
    let mut state = held(names(), RENEW_BEFORE - 3600);
    note_pending(&r, &mut state, NOW);
    assert!(matches!(decide(&r, &state, NOW), Action::Issue(_)));
}

#[test]
fn nothing_happens_without_a_domain_or_an_opt_in() {
    // Both are silent rather than "blocked": the feature simply doesn't apply, and nagging about
    // it would be noise on every device that never wanted it.
    let idle =
        |r: Reconcile<'_>| matches!(decide(&r, &IssuedState::new(), NOW), Action::Idle(None));
    assert!(idle(recon(true, true, None)), "no certificate domain");
    assert!(
        idle(recon(false, true, Some("mesh.example.com"))),
        "not opted in"
    );
}

#[test]
fn an_opted_in_device_with_nothing_listening_is_told_why() {
    // A certificate is only useful if something is serving, and issuing one publishes this
    // device's name to public logs forever — so an unused device does not silently spend that.
    let r = recon(true, false, Some("mesh.example.com"));
    let Action::Idle(Some(why)) = decide(&r, &IssuedState::new(), NOW) else {
        panic!("should be blocked with a reason");
    };
    assert!(why.contains("expose a port"), "{why}");
}

#[test]
fn un_exposing_stops_renewal_but_keeps_the_certificate() {
    // Yanking a live certificate out from under a service that may still be reading it would be
    // worse than letting it run to its natural expiry.
    let r = recon(true, false, Some("mesh.example.com"));
    let Action::Idle(Some(why)) = decide(&r, &held(names(), 10 * 86_400), NOW) else {
        panic!("should be blocked with a reason");
    };
    assert!(why.contains("not be renewed"), "{why}");
}

#[test]
fn a_valid_certificate_is_left_alone_until_renewal_is_due() {
    // The duplicate-certificate limit is the reason this gate exists: re-ordering a certificate
    // we already hold burns it for nothing.
    let r = recon(true, true, Some("mesh.example.com"));
    assert!(matches!(
        decide(&r, &held(names(), 60 * 86_400), NOW),
        Action::Idle(None)
    ));
    assert!(matches!(
        decide(&r, &held(names(), 10 * 86_400), NOW),
        Action::Issue(_)
    ));
}

#[test]
fn a_rename_does_not_invalidate_the_pinned_certificate() {
    // The certificate names what it was issued for. A device answering to a new mesh name still
    // holds a valid certificate for the old one, and reissuing on every rename would spend the
    // weekly budget on cosmetics.
    let r = recon(true, true, Some("mesh.example.com"));
    let stale = held(
        CertNames::new(
            "laptop.oldname.unity.internal",
            None,
            "mesh.example.com",
            &[],
        )
        .unwrap(),
        60 * 86_400,
    );
    // The device's *own* name changed, so this one does reissue — that is the deliberate case.
    assert!(matches!(decide(&r, &stale, NOW), Action::Issue(_)));
    // ...while an unchanged name with plenty of life left is left alone.
    assert!(matches!(
        decide(&r, &held(names(), 60 * 86_400), NOW),
        Action::Idle(None)
    ));
}

#[test]
fn a_failure_backs_off_before_retrying() {
    let r = recon(true, true, Some("mesh.example.com"));
    let mut failed = IssuedState::new();
    failed.failures = 2;
    failed.last_failure = NOW - 60;
    let Action::Idle(Some(why)) = decide(&r, &failed, NOW) else {
        panic!("should be waiting out the backoff");
    };
    assert!(why.contains("retrying"), "{why}");
    // Once the window passes it tries again.
    assert!(matches!(
        decide(&r, &failed, NOW + failed.backoff()),
        Action::Issue(_)
    ));
}

#[test]
fn backoff_grows_then_caps() {
    // A failing device must not keep hammering: the duplicate-certificate limit is ~5 a week, so
    // a tight retry loop would lock this device out for days.
    let mut s = IssuedState::new();
    assert_eq!(s.backoff(), 0);
    s.failures = 1;
    assert_eq!(s.backoff(), 600);
    s.failures = 3;
    assert_eq!(s.backoff(), 2400);
    s.failures = 99;
    assert_eq!(s.backoff(), 24 * 60 * 60);
}

fn authz(status: AuthzStatus, challenge: Option<(&str, &str)>) -> Authz {
    Authz {
        status,
        challenge: challenge.map(|(a, b)| (a.to_string(), b.to_string())),
    }
}

#[test]
fn an_order_collects_what_each_name_has_to_publish() {
    let names = CertNames::new(
        "laptop.gordon.unity.internal",
        Some("gordon.unity.internal"),
        "mesh.example.com",
        &["git".to_string()],
    )
    .unwrap();
    let authzs = vec![
        authz(AuthzStatus::Pending, Some(("laptop.gordon.mesh.example.com", "a"))),
        authz(AuthzStatus::Pending, Some(("laptop.gordon.mesh.example.com", "b"))),
        authz(AuthzStatus::Valid, None),
        authz(AuthzStatus::Pending, Some(("gordon.mesh.example.com", "c"))),
        authz(AuthzStatus::Pending, Some(("git.gordon.mesh.example.com", "d"))),
    ];
    let c = collect(&names, &authzs).ok().unwrap();
    assert_eq!(c.device, vec!["a".to_string(), "b".to_string()]);
    assert_eq!(c.primary.as_deref(), Some("c"));
    assert_eq!(c.services.get(&"git".to_string()).map(|s| s.as_str()), Some("d"));
    assert!(matches!(
        collect(&names, &vec![authz(AuthzStatus::Pending, None)]),
        Err(IssueError::NoDns01)
    ));
    assert!(matches!(
        collect(&names, &vec![authz(AuthzStatus::Pending, Some(("x.example.org", "e")))]),
        Err(IssueError::NotOrdered(n)) if n == "x.example.org"
    ));
    assert!(matches!(
        collect(&names, &vec![authz(AuthzStatus::Other("invalid".into()), None)]),
        Err(IssueError::Status(s)) if s == "invalid"
    ));
    assert!(matches!(issue(&names, &authzs, 1), Err(IssueError::TooMany(2))));
    assert!(matches!(issue(&names, &authzs, 8), Ok(IssuePlan::Publish(_))));
    assert!(matches!(issue(&names, &vec![], 8), Ok(IssuePlan::Finalize)));
    let valid = vec![authz(AuthzStatus::Valid, Some(("gordon.mesh.example.com", "c")))];
    assert!(matches!(issue(&names, &valid, 8), Ok(IssuePlan::Finalize)));
    // The alias alone is published too, before anything is finalized.
    let alias = vec![
        authz(AuthzStatus::Valid, None),
        authz(AuthzStatus::Pending, Some(("gordon.mesh.example.com", "c"))),
    ];
    match issue(&names, &alias, 8) {
        Ok(IssuePlan::Publish(c)) => {
            assert!(c.device.is_empty());
            assert_eq!(c.primary.as_deref(), Some("c"));
        }
        _ => panic!("expected a value to publish"),
    }
}

#[test]
fn a_certificate_that_is_issued_or_not_leaves_its_mark() {
    let r = recon(true, true, Some("mesh.example.com"));
    let mut state = IssuedState::new();
    let b = reconcile(&r, &mut state, NOW);
    let (wanted, directory) = b.order.expect("a first certificate is ordered");
    assert_eq!(wanted.device, "laptop.gordon.mesh.example.com");
    assert_eq!(directory, "https://acme-v02.api.letsencrypt.org/directory");
    let status = failed(&mut state, b.status, "no".to_string(), NOW);
    assert_eq!(status.blocked.as_deref(), Some("no"));
    assert_eq!(state.failures, 1);
    assert_eq!(state.last_failure, NOW);
    let mut later = reconcile(&r, &mut state, NOW + 600);
    let order = later.order.take().expect("the wait is over");
    let status = issued(&r, &mut state, later.status, order.0, NOW + 90 * 86_400);
    assert_eq!(state.failures, 0);
    assert_eq!(status.expires_at, NOW + 90 * 86_400);
    assert_eq!(status.cert_path.as_deref(), Some("/nonexistent/certs/cert.pem"));
    assert!(reconcile(&r, &mut state, NOW + 700).order.is_none());
}

#[test]
fn files_lie_under_the_state() {
    assert_eq!(certs_dir("/s"), "/s/certs");
    assert_eq!(cert_path("/s"), "/s/certs/cert.pem");
    assert_eq!(key_path("/s"), "/s/certs/key.pem");
    assert_eq!(account_path("/s"), "/s/certs/acme-account.json");
    assert_eq!(state_path("/s"), "/s/certs/issued.json");
}

/// A certificate that ends on 13 February 2027, at 15:25:41.
const CHAIN: &str = "-----BEGIN CERTIFICATE-----\n\
MIIBjDCCATGgAwIBAgIUVYoQuYIgIHdp5QyrPA9ZLpwfFT8wCgYIKoZIzj0EAwIw\n\
GzEZMBcGA1UEAwwQbWVzaC5leGFtcGxlLmNvbTAeFw0yNjExMTUxNTI1NDFaFw0y\n\
NzAyMTMxNTI1NDFaMBsxGTAXBgNVBAMMEG1lc2guZXhhbXBsZS5jb20wWTATBgcq\n\
hkjOPQIBBggqhkjOPQMBBwNCAASj2x4WOvLaV521HnAF5E7Vt3YMwo1OWmktpIQL\n\
njYxa8QG8ISjey8yAXPAIZTq8xBsjAezbgeabKHuWNBJGN+Uo1MwUTAdBgNVHQ4E\n\
FgQUTq4mDcGOTkuXl8W13ORcS8EMToUwHwYDVR0jBBgwFoAUTq4mDcGOTkuXl8W1\n\
3ORcS8EMToUwDwYDVR0TAQH/BAUwAwEB/zAKBggqhkjOPQQDAgNJADBGAiEAneVR\n\
hKj7LTkcUPm93r7EAq2htqEanlFXuxyN6TpxDJMCIQDc2Rz7KtXuu0cQQGiiluLz\n\
FEczm6sP34BvWdWuTLlJwg==\n\
-----END CERTIFICATE-----\n\
";

#[test]
fn an_expiry_is_read_from_a_certificate() {
    assert_eq!(not_after("not a certificate"), None);
    assert_eq!(not_after(CHAIN), Some(1_802_532_341));
    assert_eq!(clamp_expiry(-5), 0);
    assert_eq!(clamp_expiry(7), 7);
}

#[test]
fn a_key_is_handed_to_a_group_that_exists() {
    let g = grant_key_group("/s", "tls", Some(42), false).ok().unwrap();
    assert_eq!((g.path.as_str(), g.gid, g.mode), ("/s/certs/key.pem", 42, 0o640));
    assert_eq!(
        grant_key_group("/s", "tls", None, false).err().unwrap(),
        "no such group \"tls\" for the certificate key"
    );
    assert!(grant_key_group("/s", "tls", Some(42), true)
        .err()
        .unwrap()
        .contains("unix-only"));
}

#[test]
fn a_reload_command_is_run_as_it_is() {
    assert!(reload_command(&vec![]).is_none());
    let (p, a) = reload_command(&vec!["nginx".into(), "-s".into(), "reload".into()]).unwrap();
    assert_eq!(p, "nginx");
    assert_eq!(a, vec!["-s".to_string(), "reload".to_string()]);
    assert_eq!(run_reload("nginx", Reloaded::Succeeded), None);
    assert_eq!(
        run_reload("nginx", Reloaded::Failed("exit status: 1".into())).unwrap(),
        "the certificate reload command \"nginx\" exited with exit status: 1"
    );
    assert_eq!(
        run_reload("say \"hi\"", Reloaded::Outlived(60)).unwrap(),
        "the certificate reload command \"say \\\"hi\\\"\" outlived its 60s deadline and was killed"
    );
}
