use unitylan::api::{ExposeScope, Proto, RemoveScope, ServiceKind};
use unitylan::fw::{
    default_backend, Backend, ExposeError, Exposed, Firewall, NetInfo, PeerSets,
};
use unitylan::net::v4;

const MAX_SERVICES_PER_DEVICE: usize = 16;
const MAX_WEB_SERVICES: usize = 4;

/// What an earlier run wrote down, as it is read back.
struct Disk(Option<Vec<Exposed>>);

impl Disk {
    fn save(&mut self, f: &Firewall) {
        self.0 = Some(f.exposed.iter().map(|e| e.copy()).collect());
    }

    fn load(&self, seeds: Vec<Exposed>) -> Firewall {
        let saved = self.0.as_ref().map(|v| v.iter().map(|e| e.copy()).collect());
        Firewall::load(
            "unl0".to_string(),
            seeds,
            saved,
            MAX_SERVICES_PER_DEVICE,
            MAX_WEB_SERVICES,
        )
    }
}

fn fw(seeds: Vec<Exposed>) -> Firewall {
    Disk(None).load(seeds)
}

fn seed(port: u16) -> Exposed {
    Exposed {
        proto: Proto::Tcp,
        port,
        scope: ExposeScope::AllPeers,
        name: None,
        kind: ServiceKind::Port,
    }
}

fn network_ids(name: &str) -> (u64, u64) {
    match name {
        "minecraft" => (900_100, 7001),
        "factorio" => (900_200, 7002),
        other => panic!("unknown fixture network {other}"),
    }
}

fn info(guild: &str, name: &str, ips: Vec<u32>) -> NetInfo {
    let (guild_id, role_id) = network_ids(name);
    NetInfo { guild_id, role_id, guild: guild.into(), name: name.into(), ips }
}

/// A peer set where `minecraft` has one member and `own_devices` another, so a scoped service
/// can be asked about from inside and outside its scope.
fn peers_with(minecraft: &[u32], own: &[u32]) -> PeerSets {
    PeerSets {
        nets: vec![info("g", "minecraft", minecraft.to_vec())],
        own_devices: own.to_vec(),
    }
}

fn net(name: &str) -> ExposeScope {
    let (guild_id, role_id) = network_ids(name);
    ExposeScope::Net { guild_id, role_id }
}

fn by_net(name: &str, ips: Vec<u32>) -> PeerSets {
    PeerSets { nets: vec![info("acme", name, ips)], own_devices: Vec::new() }
}

/// The name is scoped exactly like the port. A peer that cannot reach a service must not learn
/// it exists — otherwise the announcement leaks what the firewall is there to withhold.
#[test]
fn a_peer_outside_a_services_scope_is_not_told_the_name() {
    let mut f = fw(vec![]);
    let inside = v4(100, 64, 0, 5);
    let outside = v4(100, 64, 0, 6);
    f.update_peers(peers_with(&[inside], &[]));
    f.expose(
        Proto::Tcp,
        25565,
        net("minecraft"),
        Some("mc".into()),
        ServiceKind::Port,
    )
    .ok()
    .unwrap();

    assert_eq!(f.services_for(inside).len(), 1);
    assert_eq!(f.services_for(inside)[0].name, "mc");
    assert!(
        f.services_for(outside).is_empty(),
        "a peer outside the scope learns nothing"
    );
    // Our own list is not scoped — it is what *we* serve, for our own display and resolver.
    assert_eq!(f.own_services().len(), 1);
}

/// An unscoped service is announced to every peer, matching a port that is open to every peer.
#[test]
fn an_unscoped_service_is_announced_to_anyone() {
    let mut f = fw(vec![]);
    f.update_peers(peers_with(&[], &[]));
    f.expose(
        Proto::Tcp,
        8096,
        ExposeScope::AllPeers,
        Some("jellyfin".into()),
        ServiceKind::Port,
    )
    .ok()
    .unwrap();
    assert_eq!(f.services_for(v4(100, 64, 0, 9)).len(), 1);
}

/// One service on two ports is one name, and closing it by name closes both — otherwise
/// deleting a service would mean recalling which ports it was assembled from.
#[test]
fn a_service_spanning_two_ports_is_named_once_and_closed_once() {
    let mut f = fw(vec![]);
    for proto in [Proto::Tcp, Proto::Udp] {
        f.expose(
            proto,
            25565,
            ExposeScope::AllPeers,
            Some("mc".into()),
            ServiceKind::Port,
        )
        .ok()
        .unwrap();
    }
    assert_eq!(f.own_services().len(), 2, "two ports");
    assert_eq!(f.services_for(v4(100, 64, 0, 9)).len(), 2);

    let (removed, left) = f.unexpose_named("mc");
    assert_eq!(removed, 2);
    assert!(left.is_empty());
    assert_eq!(f.unexpose_named("mc").0, 0, "already gone");
}

/// Naming an already-open port is how an existing exposure gets a name — the alternative is
/// closing and reopening it, which drops traffic for no reason.
#[test]
fn re_exposing_a_port_with_a_name_names_it_in_place() {
    let mut f = fw(vec![]);
    f.expose(
        Proto::Tcp,
        8096,
        ExposeScope::AllPeers,
        None,
        ServiceKind::Port,
    )
    .ok()
    .unwrap();
    assert!(f.own_services().is_empty());
    let listed = f
        .expose(
            Proto::Tcp,
            8096,
            ExposeScope::AllPeers,
            Some("jellyfin".into()),
            ServiceKind::Port,
        )
        .ok()
        .unwrap();
    assert_eq!(listed.len(), 1, "still one exposure, now named");
    assert_eq!(listed[0].name.as_deref(), Some("jellyfin"));
}

#[test]
fn a_bad_label_is_refused_and_the_count_is_capped() {
    let mut f = fw(vec![]);
    assert!(matches!(
        f.expose(
            Proto::Tcp,
            1,
            ExposeScope::AllPeers,
            Some("NOPE".into()),
            ServiceKind::Port
        ),
        Err(ExposeError::BadLabel)
    ));
    for i in 0..MAX_SERVICES_PER_DEVICE {
        f.expose(
            Proto::Tcp,
            1000 + i as u16,
            ExposeScope::AllPeers,
            Some(format!("s{i}")),
            ServiceKind::Port,
        )
        .ok()
        .unwrap();
    }
    assert!(
        matches!(
            f.expose(
                Proto::Tcp,
                2000,
                ExposeScope::AllPeers,
                Some("extra".into()),
                ServiceKind::Port,
            ),
            Err(ExposeError::TooManyNames)
        ),
        "the cap counts names, and this would be one too many"
    );
    // ...but re-naming an existing one is not a new name, so it still goes through.
    f.expose(
        Proto::Tcp,
        3000,
        ExposeScope::AllPeers,
        Some("s0".into()),
        ServiceKind::Port,
    )
    .ok()
    .unwrap();
}

/// Only web services reach the coordinator. A plain port service is announced peer-to-peer and
/// the coordinator never learns it exists — which is what keeps that the narrow exception it is.
#[test]
fn only_web_services_are_offered_to_the_coordinator() {
    let mut f = fw(vec![]);
    f.expose(
        Proto::Tcp,
        8096,
        ExposeScope::AllPeers,
        Some("jellyfin".into()),
        ServiceKind::Web,
    )
    .ok()
    .unwrap();
    f.expose(
        Proto::Tcp,
        25565,
        ExposeScope::AllPeers,
        Some("mc".into()),
        ServiceKind::Port,
    )
    .ok()
    .unwrap();

    assert_eq!(f.web_service_labels(), vec!["jellyfin".to_string()]);
    // ...while both are announced to peers, which is where a game server belongs.
    assert_eq!(f.own_services().len(), 2);
}

/// What was written down before names existed must still load, with its ports unnamed.
#[test]
fn an_exposure_written_before_names_loads_as_an_unnamed_port() {
    let f = Disk(Some(vec![seed(8080)])).load(vec![]);
    assert_eq!(f.list().len(), 1);
    assert_eq!(f.list()[0].name, None);
    assert!(f.own_services().is_empty());
}

#[test]
fn exposed_ports_survive_a_restart() {
    let mut disk = Disk(None);

    // First run: config seeds 25565, the owner opens 8082 at runtime.
    let mut f = disk.load(vec![seed(25565)]);
    f.expose(
        Proto::Tcp,
        8082,
        ExposeScope::AllPeers,
        None,
        ServiceKind::Port,
    )
    .ok()
    .unwrap();
    disk.save(&f);

    // A restart reloads both from disk — not just the config seed.
    let mut reloaded = disk.load(vec![seed(25565)]);
    let ports: Vec<u16> = reloaded.list().iter().map(|e| e.port).collect();
    assert_eq!(ports, vec![25565, 8082]);

    // ...and an unexpose sticks too, even for a config-seeded port.
    reloaded.unexpose(Proto::Tcp, 25565, RemoveScope::All);
    disk.save(&reloaded);
    let ports: Vec<u16> = disk.load(vec![seed(25565)]).list().iter().map(|e| e.port).collect();
    assert_eq!(ports, vec![8082], "persisted set wins over the config seed");
}

#[test]
fn exact_scope_removal_leaves_siblings() {
    let mut f = fw(Vec::new());
    for scope in [ExposeScope::AllPeers, net("minecraft"), ExposeScope::OwnDevices] {
        f.expose(Proto::Tcp, 8082, scope, None, ServiceKind::Port).ok().unwrap();
    }

    // Closing one scope leaves the other exposures of the same port alone.
    let left = f.unexpose(Proto::Tcp, 8082, RemoveScope::Exact(net("minecraft")));
    assert_eq!(left.len(), 2);
    assert!(matches!(left[0].scope, ExposeScope::AllPeers));
    assert!(matches!(left[1].scope, ExposeScope::OwnDevices));

    // `All` still closes every scope at once.
    f.expose(Proto::Tcp, 8082, net("minecraft"), None, ServiceKind::Port).ok().unwrap();
    assert!(f.unexpose(Proto::Tcp, 8082, RemoveScope::All).is_empty());
}

#[test]
fn scoped_expose_reports_inactive_without_peers() {
    let mut f = fw(Vec::new());
    f.expose(
        Proto::Tcp,
        8082,
        ExposeScope::AllPeers,
        None,
        ServiceKind::Port,
    )
    .ok()
    .unwrap();
    f.expose(Proto::Tcp, 25565, net("minecraft"), None, ServiceKind::Port).ok().unwrap();

    // No peers yet: the scoped port is exposed but unreachable; the unscoped one is fine.
    let listed = f.list();
    assert!(listed[0].active, "unscoped exposures are always active");
    assert!(
        !listed[1].active,
        "no peers in 'minecraft' -> empty source set"
    );

    // A peer joining the network makes it reachable...
    assert!(f.update_peers(by_net("minecraft", vec![v4(100, 64, 0, 2)])));
    assert!(f.list()[1].active);
    assert!(
        !f.update_peers(by_net("minecraft", vec![v4(100, 64, 0, 2)])),
        "the same peers again"
    );

    // ...and a logout (peers cleared) takes it back out without dropping the exposure.
    f.update_peers(PeerSets::new());
    let listed = f.list();
    assert_eq!(listed.len(), 2, "exposure kept across a peer-set rebuild");
    assert!(!listed[1].active);
}

/// The own-device scope draws from its own source set, not from any network — so a port scoped
/// to it is unreachable while the owner has only this device, and reachable once a second one
/// comes online, regardless of what networks are in play.
#[test]
fn own_device_scope_tracks_the_owners_devices_not_a_network() {
    let mut f = fw(Vec::new());
    f.expose(
        Proto::Tcp,
        8082,
        ExposeScope::OwnDevices,
        None,
        ServiceKind::Port,
    )
    .ok()
    .unwrap();

    assert!(!f.list()[0].active, "sole device -> nobody to reach it");

    // Peers in a network don't grant the own-device scope anything.
    f.update_peers(by_net("minecraft", vec![v4(100, 64, 0, 2)]));
    assert!(
        !f.list()[0].active,
        "a network peer must not satisfy the own-device scope",
    );

    f.update_peers(PeerSets { own_devices: vec![v4(100, 64, 0, 3)], nets: vec![] });
    assert!(f.list()[0].active);
}

/// What was written down outlives upgrades, so what was kept before ids has to keep loading — and
/// keep meaning what it meant.
#[test]
fn a_pre_upgrade_state_file_still_loads() {
    let saved = vec![
        seed(25565),
        Exposed {
            proto: Proto::Udp,
            port: 34197,
            scope: ExposeScope::Unresolved { guild: None, name: "factorio".into() },
            name: None,
            kind: ServiceKind::Port,
        },
    ];
    let listed = Disk(Some(saved)).load(Vec::new()).list();
    assert!(matches!(listed[0].scope, ExposeScope::AllPeers));
    assert!(
        matches!(
            &listed[1].scope,
            ExposeScope::Unresolved { guild: None, name } if name == "factorio"
        ),
        "a bare name stays unqualified until it can be resolved against held networks",
    );
}

fn engineering(guild_id: u64, role_id: u64, guild: &str, ip: u32) -> NetInfo {
    NetInfo {
        guild_id,
        role_id,
        guild: guild.into(),
        name: "Engineering".into(),
        ips: vec![ip],
    }
}

/// The reason a scope carries ids. Two guilds may each have a role named `Engineering`; they
/// are different networks with different members, so a port scoped to one must not admit the
/// other's peers — and their names are identical, so only the ids tell them apart.
#[test]
fn same_role_name_in_two_guilds_are_separate_source_sets() {
    let acme_ip = v4(100, 64, 0, 2);
    let play_ip = v4(100, 64, 0, 3);
    let peers = PeerSets {
        nets: vec![
            engineering(900_100, 7001, "acme", acme_ip),
            engineering(900_200, 7002, "playhouse", play_ip),
        ],
        own_devices: Vec::new(),
    };

    assert_eq!(
        peers.sources(&ExposeScope::Net { guild_id: 900_100, role_id: 7001 }),
        Some(&[acme_ip][..]),
    );
    assert_eq!(
        peers.sources(&ExposeScope::Net { guild_id: 900_200, role_id: 7002 }),
        Some(&[play_ip][..]),
    );

    // Both render distinctly, so the two are told apart wherever they're listed.
    assert_eq!(
        peers.label(&ExposeScope::Net { guild_id: 900_100, role_id: 7001 }),
        "Engineering @ acme",
    );
}

/// A scope stored before ids, or one whose network has gone, names only a role. It resolves
/// while exactly one network matches — and once two do, there is no way to tell which was
/// meant, so it admits nobody rather than both.
#[test]
fn an_unqualified_scope_resolves_alone_and_fails_closed_when_ambiguous() {
    let acme_ip = v4(100, 64, 0, 2);
    let scope = ExposeScope::Unresolved { guild: None, name: "Engineering".into() };

    let one = PeerSets {
        nets: vec![engineering(900_100, 7001, "acme", acme_ip)],
        own_devices: Vec::new(),
    };
    assert_eq!(
        one.sources(&scope),
        Some(&[acme_ip][..]),
        "sole match resolves"
    );

    let ambiguous = PeerSets {
        nets: vec![
            engineering(900_100, 7001, "acme", acme_ip),
            engineering(900_200, 7002, "playhouse", v4(100, 64, 0, 3)),
        ],
        own_devices: Vec::new(),
    };
    assert_eq!(
        ambiguous.sources(&scope),
        Some(&[][..]),
        "ambiguous must admit nobody, never both guilds",
    );

    // Naming the guild disambiguates it again.
    assert_eq!(
        ambiguous.sources(&ExposeScope::Unresolved {
            guild: Some("acme".into()),
            name: "Engineering".into(),
        }),
        Some(&[acme_ip][..]),
    );

    // The ports that nobody can reach for it are told of.
    let mut f = fw(vec![seed(1)]);
    f.expose(Proto::Tcp, 2, scope, None, ServiceKind::Port).ok().unwrap();
    assert_eq!(f.ambiguous(&ambiguous), vec![1]);
    assert!(f.ambiguous(&one).is_empty());
}

#[test]
fn exposing_twice_is_exposing_once() {
    let mut f = fw(vec![]);
    for _ in 0..2 {
        f.expose(Proto::Tcp, 80, ExposeScope::AllPeers, None, ServiceKind::Port).ok().unwrap();
    }
    assert_eq!(f.list().len(), 1);
    assert!(f.set_mesh_addr(7));
    assert!(!f.set_mesh_addr(7));
}

#[test]
fn the_platform_decides_how_rules_are_written() {
    let f = fw(vec![seed(80)]);
    let linux = default_backend(false, 51820, None);
    assert!(matches!(linux, Backend::Nft(_)));
    assert!(f.init(&linux, 51822).contains("tcp dport { 80 } accept"));
    assert_eq!(f.init(&linux, 51822), f.reconcile(&linux, 51822));
    let windows = default_backend(true, 51820, Some(51821));
    assert!(f.reconcile(&windows, 51822).contains("51821"));
    assert!(f.reset(&windows).contains("Remove-NetFirewallRule"));
}
