use unitylan::api::{ExposeScope, Proto};
use unitylan::config::{
    build_firewall, config_search_paths, default_config, first_existing, load_config, pick_config,
    resolve_existing_config, Config, ConfigSource, ExposeSeed, Platform, DEFAULT_PORT,
};

fn texts(v: &[&str]) -> Vec<String> {
    v.iter().map(|s| s.to_string()).collect()
}

#[test]
fn search_path_prefers_the_working_directory_then_the_installed_location() {
    let paths = config_search_paths(&Platform::Unix);
    assert_eq!(paths[0], "engine.toml");
    assert!(paths.len() > 1, "no installed location to fall back to");
    assert!(paths.contains(&"/etc/unitylan/engine.toml".to_string()));

    // The ProgramData home is canonical and must be searched before the legacy beside-exe
    // path, so a config migrated to ProgramData wins over a leftover next to the exe.
    let paths = config_search_paths(&Platform::Windows {
        program_data: Some(r"C:\ProgramData".into()),
        exe_dir: Some(r"C:\Program Files\Engine".into()),
    });
    let program_data = paths
        .iter()
        .position(|p| p.contains(r"UnityLAN\engine.toml"))
        .expect("ProgramData\\UnityLAN config on the search path");
    let legacy = paths
        .iter()
        .position(|p| p.starts_with(r"C:\Program Files\Engine"))
        .expect("legacy beside-exe config on the search path");
    assert!(
        program_data < legacy,
        "ProgramData must be searched before the legacy beside-exe path"
    );
}

/// The engine runs as root, so a config planted in a user-writable home directory must never
/// be picked up implicitly — it would name the coordinator the daemon trusts.
#[test]
fn search_path_never_reaches_into_a_home_directory() {
    for p in config_search_paths(&Platform::Unix) {
        let s = p.to_lowercase();
        assert!(
            !s.contains("/home/") && !s.contains("/users/") && !s.contains(".config"),
            "home-directory candidate on the search path: {s}"
        );
    }
}

#[test]
fn first_existing_skips_missing_and_takes_the_earliest_hit() {
    let paths = texts(&["absent.toml", "first.toml", "second.toml"]);
    assert_eq!(
        first_existing(&paths, &vec![false, true, true]),
        Some("first.toml".to_string())
    );
    assert_eq!(first_existing(&texts(&["absent.toml"]), &vec![false]), None);
}

/// An explicit `-c` is never second-guessed: a typo'd path must fail loudly rather than fall
/// through to whatever deployment happens to be installed on the box.
#[test]
fn an_explicit_path_is_taken_as_is_even_when_it_does_not_exist() {
    let p = resolve_existing_config(
        Some("/nonexistent/typo.toml".into()),
        &texts(&["engine.toml"]),
        &vec![true],
    )
    .unwrap();
    assert_eq!(p, "/nonexistent/typo.toml");
}

/// Coming up empty has to say where it looked, or the user has no idea what to fix.
#[test]
fn an_empty_search_lists_every_place_it_tried() {
    let candidates = texts(&["a.toml", "b.toml"]);
    let msg = pick_config(&candidates, &vec![false, false]).unwrap_err();
    assert!(msg.contains("a.toml") && msg.contains("b.toml"), "{msg}");
    assert!(msg.contains("-c"), "{msg}");
}

#[test]
fn a_config_is_written_only_where_none_is_named_or_found() {
    let candidates = texts(&["a.toml", "b.toml"]);
    let none = vec![false, false];
    assert!(matches!(
        load_config(Some("x".into()), &candidates, &none),
        ConfigSource::Named(p) if p == "x"
    ));
    assert!(matches!(
        load_config(None, &candidates, &vec![false, true]),
        ConfigSource::Found(p) if p == "b.toml"
    ));
    assert!(matches!(load_config(None, &candidates, &none), ConfigSource::Fresh));
    assert!(default_config().contains("listen_port = 51820"));
}

fn config() -> Config {
    Config::new("https://c.example.com".into(), "/var/lib/unitylan".into())
}

#[test]
fn the_control_socket_lies_beside_the_state_unless_it_is_set() {
    let mut c = config();
    assert_eq!(c.listen_port, DEFAULT_PORT);
    assert!(c.control_socket_path().starts_with("/var/lib/unitylan/"));
    c.control_socket = Some("/run/x.sock".into());
    assert_eq!(c.control_socket_path(), "/run/x.sock");
    assert_eq!(c.control_name(false, None), "/run/x.sock");
}

#[test]
fn a_device_is_named_as_it_is_set_or_after_its_host() {
    let mut c = config();
    assert_eq!(c.device_name(Some("box")), "box");
    c.device_name = Some("laptop".into());
    assert_eq!(c.device_name(Some("box")), "laptop");
    c.override_key(Some("k".into()));
    assert_eq!(c.enrollment_key.as_deref(), Some("k"));
    c.override_key(None);
    assert_eq!(c.enrollment_key.as_deref(), Some("k"));
}

#[test]
fn configured_ports_are_exposed_when_the_firewall_is_on() {
    let mut c = config();
    c.expose.push(ExposeSeed {
        port: 53,
        proto: "UDP".into(),
        net: Some("games".into()),
        guild: None,
    });
    c.firewall = true;
    let seeds = build_firewall(&c).ok().unwrap().unwrap();
    assert_eq!(seeds.len(), 1);
    assert_eq!(seeds[0].proto, Proto::Udp);
    assert!(matches!(
        &seeds[0].scope,
        ExposeScope::Unresolved { guild: None, name } if name == "games"
    ));
    c.firewall = false;
    assert!(build_firewall(&c).ok().unwrap().is_none());
}
