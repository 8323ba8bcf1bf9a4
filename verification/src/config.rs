//! The engine's configuration: what is looked for where, what stands in for what is not set, and
//! what follows from it.
use crate::api::{self, ExposeScope, Proto, ServiceKind};
use crate::fw::{self, Exposed};
use crate::net::Endpoint;
use crate::text;
use vstd::prelude::*;
use vstd::string::*;

verus! {

/// The name of the mesh interface, unless another is set.
pub open spec fn default_iface() -> Seq<char> {
    "unl0"@
}

/// The port of the tunnel, unless another is set.
pub const DEFAULT_PORT: u16 = 51820;

/// How long to wait for the coordinator, in seconds, unless another time is set.
pub const DEFAULT_REFRESH: u64 = 15;

/// The port of a relay, unless another is set: the one that is registered for it.
pub const DEFAULT_RELAY_PORT: u16 = 3478;

/// Where a login comes back to, unless another place is set.
pub open spec fn default_oauth_redirect() -> Seq<char> {
    "http://127.0.0.1:8765/callback"@
}

/// The configuration.
pub struct Config {
    /// Where the coordinator is.
    pub coordinator: String,
    /// Where the engine keeps its keys and its state.
    pub state_dir: String,
    /// A key that binds this device to its owner when it first registers.
    pub enrollment_key: Option<String>,
    pub device_name: Option<String>,
    /// The mesh interface.
    pub iface: String,
    pub listen_port: u16,
    /// Where the device can be dialled, when that is known.
    pub endpoint: Option<Endpoint>,
    /// Whether to have the router map a port.
    pub upnp: bool,
    pub refresh_secs: u64,
    /// Where to answer for names in the mesh, if that is to be done.
    pub dns_bind: Option<Endpoint>,
    /// Whether to have the host's resolver ask this device for names in the mesh.
    pub resolver_hook: bool,
    pub control_socket: Option<String>,
    /// The group that may use the control socket.
    pub control_group: Option<String>,
    pub firewall: bool,
    /// The ports to expose at first.
    pub expose: Vec<ExposeSeed>,
    pub oauth_redirect: String,
    /// Whether a new network starts out disabled, at first.
    pub disable_new_networks: bool,
    /// Whether to relay for others.
    pub relay: bool,
    pub relay_port: u16,
}

/// A port to expose.
pub struct ExposeSeed {
    pub port: u16,
    /// `udp`, in any case; anything else is TCP.
    pub proto: String,
    /// The network to expose it to; every peer, when there is none.
    pub net: Option<String>,
    /// The community of the network, where two have one of its name.
    pub guild: Option<String>,
}

impl Config {
    /// A configuration in which nothing is set that need not be.
    pub fn new(coordinator: String, state_dir: String) -> (r: Config)
        ensures
            r.coordinator@ == coordinator@,
            r.state_dir@ == state_dir@,
            r.enrollment_key is None,
            r.device_name is None,
            r.iface@ == default_iface(),
            r.listen_port == DEFAULT_PORT,
            r.endpoint is None,
            r.upnp,
            r.refresh_secs == DEFAULT_REFRESH,
            r.dns_bind is None,
            r.resolver_hook,
            r.control_socket is None,
            r.control_group is None,
            r.firewall,
            r.expose.len() == 0,
            r.oauth_redirect@ == default_oauth_redirect(),
            r.disable_new_networks,
            !r.relay,
            r.relay_port == DEFAULT_RELAY_PORT,
    {
        Config {
            coordinator,
            state_dir,
            enrollment_key: None,
            device_name: None,
            iface: "unl0".to_owned(),
            listen_port: DEFAULT_PORT,
            endpoint: None,
            upnp: true,
            refresh_secs: DEFAULT_REFRESH,
            dns_bind: None,
            resolver_hook: true,
            control_socket: None,
            control_group: None,
            firewall: true,
            expose: Vec::new(),
            oauth_redirect: "http://127.0.0.1:8765/callback".to_owned(),
            disable_new_networks: true,
            relay: false,
            relay_port: DEFAULT_RELAY_PORT,
        }
    }

    /// Where the control socket is, on a system with paths for sockets.
    pub open spec fn socket_path(&self) -> Seq<char> {
        match self.control_socket {
            Some(p) => p@,
            None => text::joined(self.state_dir@, "control.sock"@),
        }
    }

    /// Where the control socket is.
    pub fn control_socket_path(&self) -> (r: String)
        ensures
            r@ == self.socket_path(),
    {
        match &self.control_socket {
            Some(p) => p.clone(),
            None => text::join_path(self.state_dir.as_str(), "control.sock"),
        }
    }

    /// The name of the control channel. `pipe` says that it is a named pipe, and `stem` is then the
    /// name of the configured socket file without its extension.
    pub fn control_name(&self, pipe: bool, stem: Option<&str>) -> (r: String)
        ensures
            r@ == if pipe {
                "unitylan-"@ + match stem {
                    Some(s) => s@,
                    None => "control"@,
                }
            } else {
                self.socket_path()
            },
    {
        if !pipe {
            return self.control_socket_path();
        }
        let mut r = "unitylan-".to_owned();
        match stem {
            Some(s) => {
                r.append(s);
            },
            None => {
                r.append("control");
            },
        }
        r
    }

    /// This device's name: the one that is set, or else the host's, which is not empty.
    pub open spec fn name(&self, hostname: Option<Seq<char>>) -> Seq<char> {
        match self.device_name {
            Some(n) => n@,
            None => match hostname {
                Some(h) => if h.len() > 0 {
                    h
                } else {
                    "device"@
                },
                None => "device"@,
            },
        }
    }

    /// This device's name. `hostname` is the host's.
    pub fn device_name(&self, hostname: Option<&str>) -> (r: String)
        ensures
            r@ == self.name(text::opt_str(hostname)),
    {
        if let Some(n) = &self.device_name {
            return n.clone();
        }
        if let Some(h) = hostname {
            if text::chars_of(h).len() > 0 {
                return h.to_owned();
            }
        }
        "device".to_owned()
    }

    /// Takes an enrollment key from the command line. It wins over the one that is set, so that it
    /// need not be written down.
    pub fn override_key(&mut self, key: Option<String>)
        ensures
            *final(self) == (Config {
                enrollment_key: if key is Some {
                    key
                } else {
                    old(self).enrollment_key
                },
                ..*old(self)
            }),
    {
        if let Some(k) = key {
            self.enrollment_key = Some(k);
        }
    }
}

impl ExposeSeed {
    /// The protocol of the port.
    pub open spec fn protocol(&self) -> Proto {
        if text::lower(self.proto@) == "udp"@ {
            Proto::Udp
        } else {
            Proto::Tcp
        }
    }

    /// The exposure that is asked for, if its scope can be told.
    pub open spec fn asked(&self) -> Option<fw::ExposedView> {
        let scope = match (self.net, self.guild) {
            (Some(n), g) => Some(
                api::ScopeView::Unresolved { guild: text::opt_text(g), name: n@ },
            ),
            (None, None) => Some(api::ScopeView::AllPeers),
            (None, Some(_)) => None,
        };
        match scope {
            Some(s) => Some(
                fw::ExposedView {
                    proto: self.protocol(),
                    port: self.port,
                    scope: s,
                    name: None,
                    kind: ServiceKind::Port,
                },
            ),
            None => None,
        }
    }

    /// Whom the port is exposed to, if that can be told: a community alone names nobody.
    pub fn scope(&self) -> (r: Option<ExposeScope>)
        ensures
            match (self.net, self.guild) {
                (Some(n), g) => r matches Some(ExposeScope::Unresolved { guild, name }) && name@ == n@
                    && text::opt_text(guild) == text::opt_text(g),
                (None, None) => r == Some(ExposeScope::AllPeers),
                (None, Some(_)) => r is None,
            },
    {
        match (&self.net, &self.guild) {
            (Some(n), g) => Some(
                ExposeScope::Unresolved { guild: g.clone(), name: n.clone() },
            ),
            (None, None) => Some(ExposeScope::AllPeers),
            (None, Some(_)) => None,
        }
    }

    /// The exposure that is asked for, if its scope can be told.
    pub fn exposed(&self) -> (r: Option<Exposed>)
        ensures
            match r {
                Some(e) => self.asked() == Some(e@),
                None => self.asked() is None,
            },
    {
        let scope = match self.scope() {
            Some(s) => s,
            None => {
                return None;
            },
        };
        let proto = if text::same(text::to_lower(self.proto.as_str()).as_str(), "udp") {
            Proto::Udp
        } else {
            Proto::Tcp
        };
        Some(Exposed { proto, port: self.port, scope, name: None, kind: ServiceKind::Port })
    }
}

/// The exposures that a configuration asks for, if the scope of each can be told.
pub open spec fn asked_for(seeds: Seq<ExposeSeed>) -> Option<Seq<fw::ExposedView>>
    decreases seeds.len(),
{
    if seeds.len() == 0 {
        Some(seq![])
    } else {
        match (asked_for(seeds.drop_last()), seeds.last().asked()) {
            (Some(s), Some(e)) => Some(s.push(e)),
            _ => None,
        }
    }
}

proof fn lemma_asked_for(seeds: Seq<ExposeSeed>, i: int)
    requires
        0 <= i <= seeds.len(),
        asked_for(seeds.take(i)) is None,
    ensures
        asked_for(seeds) is None,
    decreases seeds.len() - i,
{
    if i < seeds.len() {
        assert(seeds.take(i + 1).drop_last() =~= seeds.take(i));
        lemma_asked_for(seeds, i + 1);
    } else {
        assert(seeds.take(i) =~= seeds);
    }
}

/// The exposures that the firewall starts out with. There is no firewall where it is switched off, and
/// it is an error when the scope of an exposure cannot be told.
pub fn build_firewall(cfg: &Config) -> (r: Result<Option<Vec<Exposed>>, String>)
    ensures
        match r {
            Ok(None) => !cfg.firewall,
            Ok(Some(v)) => cfg.firewall && asked_for(cfg.expose@) == Some(fw::exposed_views(v@)),
            Err(t) => cfg.firewall && asked_for(cfg.expose@) is None && t@
                == "reading the `expose` list"@,
        },
{
    if !cfg.firewall {
        return Ok(None);
    }
    let ghost all = cfg.expose@;
    let mut out: Vec<Exposed> = Vec::new();
    let mut i: usize = 0;
    assert(fw::exposed_views(out@) =~= seq![]);
    assert(asked_for(all.take(0)) == Some(Seq::<fw::ExposedView>::empty()));
    while i < cfg.expose.len()
        invariant
            i <= cfg.expose.len(),
            cfg.firewall,
            all == cfg.expose@,
            asked_for(all.take(i as int)) == Some(fw::exposed_views(out@)),
        decreases cfg.expose.len() - i,
    {
        assert(all.take(i + 1).drop_last() =~= all.take(i as int));
        match cfg.expose[i].exposed() {
            Some(e) => {
                let ghost ev = e@;
                let ghost before = fw::exposed_views(out@);
                out.push(e);
                assert(fw::exposed_views(out@) =~= before.push(ev));
            },
            None => {
                proof {
                    lemma_asked_for(all, i + 1);
                }
                return Err("reading the `expose` list".to_owned());
            },
        }
        i += 1;
    }
    assert(all.take(i as int) =~= all);
    Ok(Some(out))
}

/// The configuration that is written where none is found.
pub fn default_config() -> (r: &'static str)
    ensures
        r@
            == "coordinator = \"http://127.0.0.1:8080\"\nstate_dir = \"engine-state\"\niface = \"unl0\"\nlisten_port = 51820\nendpoint = \"127.0.0.1:51820\"\nrefresh_secs = 15\n"@,
{
    "coordinator = \"http://127.0.0.1:8080\"\nstate_dir = \"engine-state\"\niface = \"unl0\"\nlisten_port = 51820\nendpoint = \"127.0.0.1:51820\"\nrefresh_secs = 15\n"
}

/// The kind of system, and what it says of where programs keep their data.
pub enum Platform {
    Unix,
    Windows {
        /// Where programs keep their data.
        program_data: Option<String>,
        /// Where this program is.
        exe_dir: Option<String>,
    },
}

/// Where a configuration is looked for, in order: where the program runs, and then where it is
/// installed. Never in anyone's home: the engine runs as root, and would there take a configuration
/// that any user may write.
pub open spec fn search_paths(p: Platform) -> Seq<Seq<char>> {
    match p {
        Platform::Unix => seq!["engine.toml"@, "/etc/unitylan/engine.toml"@],
        Platform::Windows { program_data, exe_dir } => {
            let first = seq!["engine.toml"@];
            let second = match program_data {
                Some(d) => first.push(d@ + "\\UnityLAN\\engine.toml"@),
                None => first,
            };
            match exe_dir {
                Some(d) => second.push(d@ + "\\engine.toml"@),
                None => second,
            }
        },
    }
}

/// Where a configuration is looked for, in order.
pub fn config_search_paths(p: &Platform) -> (r: Vec<String>)
    ensures
        text::texts(r@) == search_paths(*p),
{
    let mut out: Vec<String> = Vec::new();
    assert(text::texts(out@) =~= seq![]);
    text::push_text(&mut out, "engine.toml".to_owned());
    match p {
        Platform::Unix => {
            text::push_text(&mut out, "/etc/unitylan/engine.toml".to_owned());
        },
        Platform::Windows { program_data, exe_dir } => {
            if let Some(d) = program_data {
                let mut t = d.clone();
                t.append("\\UnityLAN\\engine.toml");
                text::push_text(&mut out, t);
            }
            if let Some(d) = exe_dir {
                let mut t = d.clone();
                t.append("\\engine.toml");
                text::push_text(&mut out, t);
            }
        },
    }
    assert(text::texts(out@) =~= search_paths(*p));
    out
}

/// The first place at or after `i` where there is a file, or the length.
pub open spec fn file_from(files: Seq<bool>, i: int) -> int
    decreases files.len() - i,
{
    if i >= files.len() {
        files.len() as int
    } else if files[i] {
        i
    } else {
        file_from(files, i + 1)
    }
}

/// The first of the places where there is a file. `files` says where there is one.
pub fn first_existing(paths: &Vec<String>, files: &Vec<bool>) -> (r: Option<String>)
    requires
        paths.len() == files.len(),
    ensures
        ({
            let i = file_from(files@, 0);
            match r {
                Some(p) => 0 <= i < paths.len() && p@ == paths@[i]@,
                None => i == paths.len(),
            }
        }),
{
    let mut i: usize = 0;
    while i < files.len()
        invariant
            i <= files.len(),
            paths.len() == files.len(),
            file_from(files@, 0) == file_from(files@, i as int),
        decreases files.len() - i,
    {
        if files[i] {
            return Some(paths[i].clone());
        }
        i += 1;
    }
    None
}

/// What is said when no configuration is found.
pub open spec fn none_found(paths: Seq<Seq<char>>) -> Seq<char> {
    "no engine.toml found (looked in: "@ + text::join(paths, ", "@) + "); pass -c <path>"@
}

/// The first of the places where there is a file, or a text that names every place.
pub fn pick_config(candidates: &Vec<String>, files: &Vec<bool>) -> (r: Result<String, String>)
    requires
        candidates.len() == files.len(),
    ensures
        ({
            let i = file_from(files@, 0);
            match r {
                Ok(p) => 0 <= i < candidates.len() && p@ == candidates@[i]@,
                Err(t) => i == candidates.len() && t@ == none_found(text::texts(candidates@)),
            }
        }),
{
    match first_existing(candidates, files) {
        Some(p) => Ok(p),
        None => {
            let mut t = "no engine.toml found (looked in: ".to_owned();
            t.append(text::join_with(candidates, ", ").as_str());
            t.append("); pass -c <path>");
            Err(t)
        },
    }
}

/// The configuration of an installation that exists. One that is named is taken as it is, so that a
/// mistyped path fails rather than reach another installation.
pub fn resolve_existing_config(
    arg: Option<String>,
    candidates: &Vec<String>,
    files: &Vec<bool>,
) -> (r: Result<String, String>)
    requires
        candidates.len() == files.len(),
    ensures
        match arg {
            Some(a) => r matches Ok(p) && p@ == a@,
            None => {
                let i = file_from(files@, 0);
                match r {
                    Ok(p) => 0 <= i < candidates.len() && p@ == candidates@[i]@,
                    Err(t) => i == candidates.len() && t@ == none_found(text::texts(candidates@)),
                }
            },
        },
{
    match arg {
        Some(p) => Ok(p),
        None => pick_config(candidates, files),
    }
}

/// Which configuration to load.
pub enum ConfigSource {
    /// One that was named.
    Named(String),
    /// One that was found.
    Found(String),
    /// The one where the program runs, which is to be written first.
    Fresh,
}

/// Which configuration to load. Only where none is named and none is found is one written.
pub fn load_config(arg: Option<String>, candidates: &Vec<String>, files: &Vec<bool>) -> (r:
    ConfigSource)
    requires
        candidates.len() == files.len(),
    ensures
        match arg {
            Some(a) => r matches ConfigSource::Named(p) && p@ == a@,
            None => {
                let i = file_from(files@, 0);
                match r {
                    ConfigSource::Found(p) => 0 <= i < candidates.len() && p@ == candidates@[i]@,
                    ConfigSource::Fresh => i == candidates.len(),
                    ConfigSource::Named(_) => false,
                }
            },
        },
{
    match arg {
        Some(p) => ConfigSource::Named(p),
        None => match first_existing(candidates, files) {
            Some(p) => ConfigSource::Found(p),
            None => ConfigSource::Fresh,
        },
    }
}

/// The first place with a file is taken, and none where there is none.
pub proof fn law_first_file_is_taken(files: Seq<bool>)
    ensures
        ({
            let i = file_from(files, 0);
            &&& 0 <= i <= files.len()
            &&& i < files.len() ==> files[i]
            &&& forall|j: int| 0 <= j < i ==> !(#[trigger] files[j])
        }),
{
    lemma_file_from(files, 0);
}

proof fn lemma_file_from(files: Seq<bool>, i: int)
    requires
        0 <= i <= files.len(),
    ensures
        ({
            let k = file_from(files, i);
            &&& i <= k <= files.len()
            &&& k < files.len() ==> files[k]
            &&& forall|j: int| i <= j < k ==> !(#[trigger] files[j])
        }),
    decreases files.len() - i,
{
    if i < files.len() && !files[i] {
        lemma_file_from(files, i + 1);
    }
}

/// Where a configuration is looked for: where the program runs, and then where the system keeps them.
pub proof fn law_where_a_configuration_is_looked_for(d: String, e: String)
    ensures
        search_paths(Platform::Unix) == seq!["engine.toml"@, "/etc/unitylan/engine.toml"@],
        search_paths(Platform::Windows { program_data: Some(d), exe_dir: Some(e) }) == seq![
            "engine.toml"@,
            d@ + "\\UnityLAN\\engine.toml"@,
            e@ + "\\engine.toml"@,
        ],
        search_paths(Platform::Windows { program_data: None, exe_dir: Some(e) }) == seq![
            "engine.toml"@,
            e@ + "\\engine.toml"@,
        ],
        search_paths(Platform::Windows { program_data: Some(d), exe_dir: None }) == seq![
            "engine.toml"@,
            d@ + "\\UnityLAN\\engine.toml"@,
        ],
        search_paths(Platform::Windows { program_data: None, exe_dir: None }) == seq![
            "engine.toml"@,
        ],
{
    let both = search_paths(Platform::Windows { program_data: Some(d), exe_dir: Some(e) });
    assert(both =~= seq![
        "engine.toml"@,
        d@ + "\\UnityLAN\\engine.toml"@,
        e@ + "\\engine.toml"@,
    ]);
    assert(search_paths(Platform::Windows { program_data: None, exe_dir: Some(e) }) =~= seq![
        "engine.toml"@,
        e@ + "\\engine.toml"@,
    ]);
    assert(search_paths(Platform::Windows { program_data: Some(d), exe_dir: None }) =~= seq![
        "engine.toml"@,
        d@ + "\\UnityLAN\\engine.toml"@,
    ]);
}

/// Every port that is configured is asked for, in order; a list with one that names a community but no
/// network is refused as a whole.
pub proof fn law_every_configured_port_is_asked_for(
    a: Seq<ExposeSeed>,
    b: Seq<ExposeSeed>,
    s: ExposeSeed,
)
    ensures
        asked_for(seq![]) == Some(Seq::<fw::ExposedView>::empty()),
        asked_for(a + b) == if asked_for(a) is Some && asked_for(b) is Some {
            Some(asked_for(a)->0 + asked_for(b)->0)
        } else {
            None
        },
        s.net is None && s.guild is Some ==> asked_for(seq![s]) is None,
        s.net is Some || s.guild is None ==> asked_for(seq![s]) == Some(
            seq![
                fw::ExposedView {
                    proto: if text::lower(s.proto@) == "udp"@ {
                        Proto::Udp
                    } else {
                        Proto::Tcp
                    },
                    port: s.port,
                    scope: if s.net is Some {
                        api::ScopeView::Unresolved {
                            guild: text::opt_text(s.guild),
                            name: s.net->0@,
                        }
                    } else {
                        api::ScopeView::AllPeers
                    },
                    name: None,
                    kind: ServiceKind::Port,
                },
            ],
        ),
    decreases b.len(),
{
    assert(seq![s].drop_last() =~= seq![]);
    let none: Seq<fw::ExposedView> = seq![];
    assert(asked_for(seq![]) == Some(none));
    if let Some(e) = s.asked() {
        assert(none.push(e) =~= seq![e]);
    }
    if b.len() == 0 {
        assert(a + b =~= a);
        assert(b =~= seq![]);
        if let Some(x) = asked_for(a) {
            assert(x + none =~= x);
        }
    } else {
        law_every_configured_port_is_asked_for(a, b.drop_last(), s);
        assert((a + b).drop_last() =~= a + b.drop_last());
        if let (Some(x), Some(y), Some(e)) = (
            asked_for(a),
            asked_for(b.drop_last()),
            b.last().asked(),
        ) {
            assert(x + y.push(e) =~= (x + y).push(e));
        }
    }
}

/// What the device is called: as it is configured to be, else as the host is, else just a device; and
/// where its control socket is: as it is configured, else in its state.
pub proof fn law_names_that_are_not_configured(c: Config, h: Seq<char>)
    ensures
        c.device_name matches Some(n) ==> c.name(Some(h)) == n@ && c.name(None) == n@,
        c.device_name is None && h.len() > 0 ==> c.name(Some(h)) == h,
        c.device_name is None && h.len() == 0 ==> c.name(Some(h)) == "device"@,
        c.device_name is None ==> c.name(None) == "device"@,
        c.control_socket matches Some(p) ==> c.socket_path() == p@,
        c.control_socket is None ==> c.socket_path() == text::joined(
            c.state_dir@,
            "control.sock"@,
        ),
        default_iface() == "unl0"@,
        default_oauth_redirect() == "http://127.0.0.1:8765/callback"@,
{
}

} // verus!
