//! Host firewall: which ports peers reach.
//!
//! Inbound traffic on the mesh interface is denied unless a port is exposed, and an exposure may be
//! scoped to a network or to the owner's own devices. This module holds the exposed set, who each
//! scope admits, and which services a peer may learn of; the rules themselves are rendered by
//! [`nftables`] and [`windows`], and the caller installs them and saves the set.
pub mod nftables;
pub mod windows;

use crate::api::{
    self, name_at_guild, valid_label, ExposeScope, MeshService, Proto, RemoveScope, ServiceKind,
};
use crate::order;
use crate::text;
use nftables::NftBackend;
use vstd::prelude::*;
use vstd::string::*;
use windows::WindowsFwBackend;

verus! {

/// The firewall of a platform: what to hand it. `apply` gives a script that replaces the rules, and
/// `reset` one that removes them.
pub trait FirewallBackend {
    /// The script that replaces the rules.
    spec fn script(
        &self,
        iface: Seq<char>,
        mesh_addr: Option<u32>,
        exposed: Seq<ExposedView>,
        peers: PeersView,
        p2p_port: u16,
    ) -> Seq<char>;

    /// The script that removes the rules.
    spec fn clearing(&self) -> Seq<char>;

    /// Refuse what newly arrives on `iface` but for pings and the exposed ports, each for the peers
    /// of its scope. `mesh_addr` is this host's address in the mesh once it has one, and `p2p_port`
    /// the port of the mesh's own refresh traffic.
    fn apply(
        &self,
        iface: &str,
        mesh_addr: Option<u32>,
        exposed: &Vec<Exposed>,
        peers: &PeerSets,
        p2p_port: u16,
    ) -> (r: String)
        ensures
            r@ == self.script(iface@, mesh_addr, exposed_views(exposed@), peers@, p2p_port),
    ;

    /// Remove every rule of the mesh.
    fn reset(&self) -> (r: String)
        ensures
            r@ == self.clearing(),
    ;
}

/// The firewall of the host's platform.
pub enum Backend {
    Nft(NftBackend),
    Windows(WindowsFwBackend),
}

impl FirewallBackend for Backend {
    open spec fn script(
        &self,
        iface: Seq<char>,
        mesh_addr: Option<u32>,
        exposed: Seq<ExposedView>,
        peers: PeersView,
        p2p_port: u16,
    ) -> Seq<char> {
        match self {
            Backend::Nft(b) => b.script(iface, mesh_addr, exposed, peers, p2p_port),
            Backend::Windows(b) => b.script(iface, mesh_addr, exposed, peers, p2p_port),
        }
    }

    open spec fn clearing(&self) -> Seq<char> {
        match self {
            Backend::Nft(b) => b.clearing(),
            Backend::Windows(b) => b.clearing(),
        }
    }

    fn apply(
        &self,
        iface: &str,
        mesh_addr: Option<u32>,
        exposed: &Vec<Exposed>,
        peers: &PeerSets,
        p2p_port: u16,
    ) -> (r: String) {
        match self {
            Backend::Nft(b) => b.apply(iface, mesh_addr, exposed, peers, p2p_port),
            Backend::Windows(b) => b.apply(iface, mesh_addr, exposed, peers, p2p_port),
        }
    }

    fn reset(&self) -> (r: String) {
        match self {
            Backend::Nft(b) => b.reset(),
            Backend::Windows(b) => b.reset(),
        }
    }
}

/// The firewall of the host's platform. On Windows the tunnel's own port, and the beacon's when there
/// is one, have to be opened on the host's interfaces; elsewhere those are left alone.
pub fn default_backend(windows: bool, listen_port: u16, beacon_port: Option<u16>) -> (r: Backend)
    ensures
        match r {
            Backend::Nft(_) => !windows,
            Backend::Windows(b) => windows && b.listen_port == listen_port && b.beacon_port
                == beacon_port,
        },
{
    if windows {
        Backend::Windows(WindowsFwBackend { listen_port, beacon_port })
    } else {
        Backend::Nft(NftBackend {  })
    }
}

/// A port opened to peers, and to whom.
pub struct Exposed {
    pub proto: Proto,
    pub port: u16,
    pub scope: ExposeScope,
    /// The service name that the port answers to, when the owner named it.
    pub name: Option<String>,
    pub kind: ServiceKind,
}

/// The model of an exposure.
pub struct ExposedView {
    pub proto: Proto,
    pub port: u16,
    pub scope: api::ScopeView,
    pub name: Option<Seq<char>>,
    pub kind: ServiceKind,
}

impl View for Exposed {
    type V = ExposedView;

    open spec fn view(&self) -> ExposedView {
        ExposedView {
            proto: self.proto,
            port: self.port,
            scope: self.scope@,
            name: text::opt_text(self.name),
            kind: self.kind,
        }
    }
}

/// The models of a list of exposures.
pub open spec fn exposed_views(s: Seq<Exposed>) -> Seq<ExposedView> {
    s.map_values(|e: Exposed| e@)
}

impl Exposed {
    /// A copy of the exposure.
    pub fn copy(&self) -> (r: Exposed)
        ensures
            r@ == self@,
    {
        Exposed {
            proto: self.proto,
            port: self.port,
            scope: self.scope.copy(),
            name: self.name.clone(),
            kind: self.kind,
        }
    }
}

/// One network: its identity, its labels, and its members.
pub struct NetInfo {
    pub guild_id: u64,
    pub role_id: u64,
    /// The community's label.
    pub guild: String,
    /// The role's name.
    pub name: String,
    pub ips: Vec<u32>,
}

/// The model of a network.
#[verifier::ext_equal]
pub struct NetView {
    pub guild_id: u64,
    pub role_id: u64,
    pub guild: Seq<char>,
    pub name: Seq<char>,
    pub ips: Seq<u32>,
}

impl View for NetInfo {
    type V = NetView;

    open spec fn view(&self) -> NetView {
        NetView {
            guild_id: self.guild_id,
            role_id: self.role_id,
            guild: self.guild@,
            name: self.name@,
            ips: self.ips@,
        }
    }
}

/// The networks that a device sees and who is in them, and the owner's other devices. A network is
/// known by its ids, never by its name.
pub struct PeerSets {
    pub nets: Vec<NetInfo>,
    pub own_devices: Vec<u32>,
}

/// The model of the peer sets.
#[verifier::ext_equal]
pub struct PeersView {
    pub nets: Seq<NetView>,
    pub own_devices: Seq<u32>,
}

/// The models of a list of networks.
pub open spec fn net_views(s: Seq<NetInfo>) -> Seq<NetView> {
    s.map_values(|n: NetInfo| n@)
}

impl View for PeerSets {
    type V = PeersView;

    open spec fn view(&self) -> PeersView {
        PeersView { nets: net_views(self.nets@), own_devices: self.own_devices@ }
    }
}

/// The first index at or after `i` of the network with these ids, or the length when there is none.
pub open spec fn net_from(nets: Seq<NetView>, guild_id: u64, role_id: u64, i: int) -> int
    decreases nets.len() - i,
{
    if i >= nets.len() {
        nets.len() as int
    } else if nets[i].guild_id == guild_id && nets[i].role_id == role_id {
        i
    } else {
        net_from(nets, guild_id, role_id, i + 1)
    }
}

/// Whether a network is one that a typed name could mean.
pub open spec fn means(n: NetView, guild: Option<Seq<char>>, name: Seq<char>) -> bool {
    n.name == name && (guild matches Some(g) ==> n.guild == g)
}

impl PeersView {
    /// The networks that a typed name could mean.
    pub open spec fn matching(self, guild: Option<Seq<char>>, name: Seq<char>) -> Seq<NetView> {
        self.nets.filter(|n: NetView| means(n, guild, name))
    }

    /// The addresses that a scope admits; `None` when it does not restrict the source at all.
    pub open spec fn sources(self, scope: api::ScopeView) -> Option<Seq<u32>> {
        match scope {
            api::ScopeView::AllPeers => None,
            api::ScopeView::OwnDevices => Some(self.own_devices),
            api::ScopeView::Net { guild_id, role_id } => {
                let i = net_from(self.nets, guild_id, role_id, 0);
                if i < self.nets.len() {
                    Some(self.nets[i].ips)
                } else {
                    Some(seq![])
                }
            },
            api::ScopeView::Unresolved { guild, name } => {
                let hits = self.matching(guild, name);
                if hits.len() == 1 {
                    Some(hits[0].ips)
                } else {
                    Some(seq![])
                }
            },
        }
    }

    /// Whether a scope admits an address.
    pub open spec fn admits(self, scope: api::ScopeView, ip: u32) -> bool {
        match self.sources(scope) {
            None => true,
            Some(ips) => ips.contains(ip),
        }
    }

    /// How a scope is shown.
    pub open spec fn label(self, scope: api::ScopeView) -> Seq<char> {
        match scope {
            api::ScopeView::Net { guild_id, role_id } => {
                let i = net_from(self.nets, guild_id, role_id, 0);
                if i < self.nets.len() {
                    api::at_guild(self.nets[i].name, self.nets[i].guild)
                } else {
                    scope.fallback_label()
                }
            },
            _ => scope.fallback_label(),
        }
    }
}

fn same_ips(a: &Vec<u32>, b: &Vec<u32>) -> (r: bool)
    ensures
        r == (a@ == b@),
{
    if a.len() != b.len() {
        return false;
    }
    let mut i: usize = 0;
    while i < a.len()
        invariant
            i <= a.len(),
            a.len() == b.len(),
            forall|j: int| 0 <= j < i ==> a@[j] == b@[j],
        decreases a.len() - i,
    {
        if a[i] != b[i] {
            return false;
        }
        i += 1;
    }
    assert(a@ =~= b@);
    true
}

fn has_ip(ips: &[u32], ip: u32) -> (r: bool)
    ensures
        r == ips@.contains(ip),
{
    let mut i: usize = 0;
    while i < ips.len()
        invariant
            i <= ips.len(),
            forall|j: int| 0 <= j < i ==> ips@[j] != ip,
        decreases ips.len() - i,
    {
        if ips[i] == ip {
            return true;
        }
        i += 1;
    }
    false
}

impl NetInfo {
    /// The role and its community as one text.
    pub fn label(&self) -> (r: String)
        ensures
            r@ == api::at_guild(self.name@, self.guild@),
    {
        name_at_guild(self.name.as_str(), self.guild.as_str())
    }

    fn same(&self, other: &NetInfo) -> (r: bool)
        ensures
            r == (self@ == other@),
    {
        self.guild_id == other.guild_id && self.role_id == other.role_id && self.guild
            == other.guild && self.name == other.name && same_ips(&self.ips, &other.ips)
    }

    fn means(&self, guild: &Option<String>, name: &String) -> (r: bool)
        ensures
            r == means(self@, text::opt_text(*guild), name@),
    {
        if self.name != *name {
            return false;
        }
        match guild {
            Some(g) => self.guild == *g,
            None => true,
        }
    }
}

impl PeerSets {
    /// No networks and no other devices.
    pub fn new() -> (r: PeerSets)
        ensures
            r@ == (PeersView { nets: seq![], own_devices: seq![] }),
    {
        let r = PeerSets { nets: Vec::new(), own_devices: Vec::new() };
        assert(r@ =~= PeersView { nets: seq![], own_devices: seq![] });
        r
    }

    fn find(&self, guild_id: u64, role_id: u64) -> (i: usize)
        ensures
            i == net_from(self@.nets, guild_id, role_id, 0),
            i <= self.nets.len(),
    {
        let ghost ns = self@.nets;
        let mut i: usize = 0;
        while i < self.nets.len() && !(self.nets[i].guild_id == guild_id && self.nets[i].role_id
            == role_id)
            invariant
                i <= self.nets.len(),
                ns == net_views(self.nets@),
                net_from(ns, guild_id, role_id, 0) == net_from(ns, guild_id, role_id, i as int),
            decreases self.nets.len() - i,
        {
            i += 1;
        }
        i
    }

    /// The networks that a typed name could mean, by index. More than one is an ambiguity that is
    /// not guessed at.
    pub fn matching(&self, guild: &Option<String>, name: &String) -> (r: Vec<usize>)
        ensures
            forall|k: int| 0 <= k < r.len() ==> #[trigger] r@[k] < self.nets.len(),
            r@.map_values(|i: usize| self.nets@[i as int]@) == self@.matching(
                text::opt_text(*guild),
                name@,
            ),
    {
        let ghost ns = self@.nets;
        let ghost p = |n: NetView| means(n, text::opt_text(*guild), name@);
        let mut out: Vec<usize> = Vec::new();
        let mut i: usize = 0;
        proof {
            reveal(Seq::filter);
        }
        assert(out@.map_values(|i: usize| self.nets@[i as int]@) =~= ns.take(0).filter(p));
        while i < self.nets.len()
            invariant
                i <= self.nets.len(),
                ns == net_views(self.nets@),
                p == (|n: NetView| means(n, text::opt_text(*guild), name@)),
                forall|k: int| 0 <= k < out.len() ==> #[trigger] out@[k] < i,
                out@.map_values(|i: usize| self.nets@[i as int]@) == ns.take(i as int).filter(p),
            decreases self.nets.len() - i,
        {
            proof {
                reveal(Seq::filter);
                assert(ns.take(i + 1).drop_last() =~= ns.take(i as int));
            }
            let ghost before = out@.map_values(|i: usize| self.nets@[i as int]@);
            if self.nets[i].means(guild, name) {
                out.push(i);
                assert(out@.map_values(|i: usize| self.nets@[i as int]@) =~= before.push(
                    ns[i as int],
                ));
            }
            i += 1;
        }
        assert(ns.take(i as int) =~= ns);
        out
    }

    /// The addresses that a scope admits; `None` when it does not restrict the source at all. A scope
    /// with nobody in it admits nobody, and so does a name that two networks carry.
    pub fn sources(&self, scope: &ExposeScope) -> (r: Option<&[u32]>)
        ensures
            match r {
                Some(ips) => self@.sources(scope@) == Some(ips@),
                None => self@.sources(scope@) is None,
            },
    {
        match scope {
            ExposeScope::AllPeers => None,
            ExposeScope::OwnDevices => Some(self.own_devices.as_slice()),
            ExposeScope::Net { guild_id, role_id } => {
                let i = self.find(*guild_id, *role_id);
                if i < self.nets.len() {
                    Some(self.nets[i].ips.as_slice())
                } else {
                    let none: &[u32] = &[];
                    assert(none@ =~= seq![]);
                    Some(none)
                }
            },
            ExposeScope::Unresolved { guild, name } => {
                let hits = self.matching(guild, name);
                let ghost hv = hits@.map_values(|i: usize| self.nets@[i as int]@);
                assert(hv.len() == hits.len());
                if hits.len() == 1 {
                    let i: usize = hits[0];
                    assert(hv[0] == self.nets@[i as int]@);
                    Some(self.nets[i].ips.as_slice())
                } else {
                    let none: &[u32] = &[];
                    assert(none@ =~= seq![]);
                    Some(none)
                }
            },
        }
    }

    /// How a scope is shown: by its network's label while that is visible.
    pub fn label(&self, scope: &ExposeScope) -> (r: String)
        ensures
            r@ == self@.label(scope@),
    {
        match scope {
            ExposeScope::Net { guild_id, role_id } => {
                let i = self.find(*guild_id, *role_id);
                if i < self.nets.len() {
                    self.nets[i].label()
                } else {
                    scope.fallback_label()
                }
            },
            _ => scope.fallback_label(),
        }
    }

    /// Whether two peer sets are the same.
    pub fn same(&self, other: &PeerSets) -> (r: bool)
        ensures
            r == (self@ == other@),
    {
        if !same_ips(&self.own_devices, &other.own_devices) {
            return false;
        }
        let ghost a = self@.nets;
        let ghost b = other@.nets;
        if self.nets.len() != other.nets.len() {
            assert(a.len() != b.len());
            return false;
        }
        let mut i: usize = 0;
        while i < self.nets.len()
            invariant
                i <= self.nets.len(),
                self.nets.len() == other.nets.len(),
                a == net_views(self.nets@),
                b == net_views(other.nets@),
                a == self@.nets,
                b == other@.nets,
                forall|j: int| 0 <= j < i ==> a[j] == b[j],
            decreases self.nets.len() - i,
        {
            if !self.nets[i].same(&other.nets[i]) {
                assert(a[i as int] != b[i as int]);
                return false;
            }
            assert(a[i as int] == b[i as int]);
            i += 1;
        }
        assert(a =~= b);
        true
    }
}

/// An exposure as it is listed.
pub struct ExposedPort {
    pub proto: Proto,
    pub port: u16,
    pub scope: ExposeScope,
    pub label: String,
    pub name: Option<String>,
    pub kind: ServiceKind,
    /// Whether anyone can reach the port now.
    pub active: bool,
}

/// The model of a listed exposure.
pub struct PortView {
    pub proto: Proto,
    pub port: u16,
    pub scope: api::ScopeView,
    pub label: Seq<char>,
    pub name: Option<Seq<char>>,
    pub kind: ServiceKind,
    pub active: bool,
}

impl View for ExposedPort {
    type V = PortView;

    open spec fn view(&self) -> PortView {
        PortView {
            proto: self.proto,
            port: self.port,
            scope: self.scope@,
            label: self.label@,
            name: text::opt_text(self.name),
            kind: self.kind,
            active: self.active,
        }
    }
}

/// The models of a list of listed exposures.
pub open spec fn port_views(s: Seq<ExposedPort>) -> Seq<PortView> {
    s.map_values(|p: ExposedPort| p@)
}

/// How an exposure is listed. A port open to everyone is always active; a scoped one is while its
/// scope admits somebody.
pub open spec fn listed(e: ExposedView, peers: PeersView) -> PortView {
    PortView {
        proto: e.proto,
        port: e.port,
        scope: e.scope,
        label: peers.label(e.scope),
        name: e.name,
        kind: e.kind,
        active: peers.sources(e.scope) matches Some(ips) ==> ips.len() > 0,
    }
}

/// Why a port was not exposed.
#[derive(Clone, Copy, Debug, PartialEq, Eq, Structural)]
pub enum ExposeError {
    /// The name is no service label.
    BadLabel,
    /// The device serves as many named services as it may.
    TooManyNames,
}

/// The host firewall's state. Who each scope admits follows the peers; the exposed set is the
/// owner's.
pub struct Firewall {
    pub iface: String,
    pub exposed: Vec<Exposed>,
    pub peers: PeerSets,
    /// This host's mesh address, once it has one.
    pub mesh_addr: Option<u32>,
    /// How many named services a device may announce.
    pub max_services: usize,
    /// How many web services a device may have certified.
    pub max_web_services: usize,
}

/// The model of the firewall's state.
#[verifier::ext_equal]
pub struct FirewallView {
    pub iface: Seq<char>,
    pub exposed: Seq<ExposedView>,
    pub peers: PeersView,
    pub mesh_addr: Option<u32>,
    pub max_services: usize,
    pub max_web_services: usize,
}

impl View for Firewall {
    type V = FirewallView;

    open spec fn view(&self) -> FirewallView {
        FirewallView {
            iface: self.iface@,
            exposed: exposed_views(self.exposed@),
            peers: self.peers@,
            mesh_addr: self.mesh_addr,
            max_services: self.max_services,
            max_web_services: self.max_web_services,
        }
    }
}

/// The names that a list of exposures carries.
pub open spec fn name_set(s: Seq<ExposedView>) -> Set<Seq<char>>
    decreases s.len(),
{
    if s.len() == 0 {
        Set::empty()
    } else {
        match s.last().name {
            Some(n) => name_set(s.drop_last()).insert(n),
            None => name_set(s.drop_last()),
        }
    }
}

/// Whether an exposure is of this port and scope.
pub open spec fn is_exposure(
    e: ExposedView,
    proto: Proto,
    port: u16,
    scope: api::ScopeView,
) -> bool {
    e.proto == proto && e.port == port && e.scope == scope
}

/// The first index at or after `i` of the exposure of this port and scope, or the length.
pub open spec fn exposure_from(
    s: Seq<ExposedView>,
    proto: Proto,
    port: u16,
    scope: api::ScopeView,
    i: int,
) -> int
    decreases s.len() - i,
{
    if i >= s.len() {
        s.len() as int
    } else if is_exposure(s[i], proto, port, scope) {
        i
    } else {
        exposure_from(s, proto, port, scope, i + 1)
    }
}

/// The exposed set after an exposure: a new one at the end, or the present one, renamed when a name
/// is given.
pub open spec fn with_exposure(s: Seq<ExposedView>, e: ExposedView) -> Seq<ExposedView> {
    let i = exposure_from(s, e.proto, e.port, e.scope, 0);
    if i < s.len() {
        if e.name is Some {
            s.update(i, e)
        } else {
            s
        }
    } else {
        s.push(e)
    }
}

/// Whether and why an exposure under this name is refused.
pub open spec fn expose_verdict(
    s: Seq<ExposedView>,
    name: Option<Seq<char>>,
    max_services: nat,
) -> Result<(), ExposeError> {
    match name {
        None => Ok(()),
        Some(n) => if !api::is_label(n) {
            Err(ExposeError::BadLabel)
        } else if name_set(s).insert(n).len() > max_services {
            Err(ExposeError::TooManyNames)
        } else {
            Ok(())
        },
    }
}

/// Whether closing this port and scope closes an exposure.
pub open spec fn closes(
    e: ExposedView,
    proto: Proto,
    port: u16,
    scope: api::RemoveView,
) -> bool {
    e.proto == proto && e.port == port && match scope {
        api::RemoveView::All => true,
        api::RemoveView::Exact(s) => e.scope == s,
    }
}

/// The service that a named exposure announces.
pub open spec fn service_of(e: ExposedView) -> api::ServiceView {
    api::ServiceView { name: e.name->0, proto: e.proto, port: e.port, kind: e.kind }
}

/// The services of the named exposures that satisfy `p`, each once, in order.
pub open spec fn services_where(
    s: Seq<ExposedView>,
    p: spec_fn(ExposedView) -> bool,
) -> Seq<api::ServiceView>
    decreases s.len(),
{
    if s.len() == 0 {
        seq![]
    } else {
        let before = services_where(s.drop_last(), p);
        if s.last().name is Some && p(s.last()) && !before.contains(service_of(s.last())) {
            before.push(service_of(s.last()))
        } else {
            before
        }
    }
}

/// The first `n` elements, or all when there are fewer.
pub open spec fn at_most<A>(s: Seq<A>, n: nat) -> Seq<A> {
    if s.len() <= n {
        s
    } else {
        s.take(n as int)
    }
}

/// The exposures that an address reaches.
pub open spec fn reached_by(peers: PeersView, ip: u32) -> spec_fn(ExposedView) -> bool {
    |e: ExposedView| peers.admits(e.scope, ip)
}

/// The named services that an address is told of.
pub open spec fn announced(f: FirewallView, ip: u32) -> Seq<api::ServiceView> {
    at_most(services_where(f.exposed, reached_by(f.peers, ip)), f.max_services as nat)
}

/// The names of the web services, in order, as often as they occur.
pub open spec fn web_names(s: Seq<Exposed>) -> Seq<String>
    decreases s.len(),
{
    if s.len() == 0 {
        seq![]
    } else {
        let before = web_names(s.drop_last());
        match s.last().name {
            Some(n) => if s.last().kind == ServiceKind::Web {
                before.push(n)
            } else {
                before
            },
            None => before,
        }
    }
}

/// A list without the texts that repeat the one before them.
pub open spec fn dedup(s: Seq<Seq<char>>) -> Seq<Seq<char>>
    decreases s.len(),
{
    if s.len() == 0 {
        seq![]
    } else {
        let before = dedup(s.drop_last());
        if before.len() > 0 && before.last() == s.last() {
            before
        } else {
            before.push(s.last())
        }
    }
}

/// Whether a scope names a role which two networks carry.
pub open spec fn is_ambiguous(scope: api::ScopeView, peers: PeersView) -> bool {
    match scope {
        api::ScopeView::Unresolved { guild, name } => peers.matching(guild, name).len() > 1,
        _ => false,
    }
}

/// The indices of the exposures with an ambiguous scope, in order.
pub open spec fn ambiguous_in(s: Seq<ExposedView>, peers: PeersView) -> Seq<usize>
    decreases s.len(),
{
    if s.len() == 0 {
        seq![]
    } else if is_ambiguous(s.last().scope, peers) {
        ambiguous_in(s.drop_last(), peers).push((s.len() - 1) as usize)
    } else {
        ambiguous_in(s.drop_last(), peers)
    }
}

fn has_service(v: &Vec<MeshService>, m: &MeshService) -> (r: bool)
    ensures
        r == api::service_views(v@).contains(m@),
{
    let ghost vs = api::service_views(v@);
    let mut i: usize = 0;
    while i < v.len()
        invariant
            i <= v.len(),
            vs == api::service_views(v@),
            forall|j: int| 0 <= j < i ==> vs[j] != m@,
        decreases v.len() - i,
    {
        if v[i].same(m) {
            assert(vs[i as int] == m@);
            return true;
        }
        assert(vs[i as int] != m@);
        i += 1;
    }
    false
}

impl Firewall {
    /// The firewall of an interface. `saved` is the exposed set of an earlier run; without one the
    /// configured `seeds` are exposed.
    pub fn load(
        iface: String,
        seeds: Vec<Exposed>,
        saved: Option<Vec<Exposed>>,
        max_services: usize,
        max_web_services: usize,
    ) -> (r: Firewall)
        ensures
            r@ == (FirewallView {
                iface: iface@,
                exposed: exposed_views(
                    match saved {
                        Some(v) => v@,
                        None => seeds@,
                    },
                ),
                peers: PeersView { nets: seq![], own_devices: seq![] },
                mesh_addr: None,
                max_services,
                max_web_services,
            }),
    {
        Firewall {
            iface,
            exposed: match saved {
                Some(v) => v,
                None => seeds,
            },
            peers: PeerSets::new(),
            mesh_addr: None,
            max_services,
            max_web_services,
        }
    }

    /// The script that makes the rules what they are to be. It is run before the device registers, so
    /// that the rules are there when the interface is.
    pub fn init<B: FirewallBackend>(&self, backend: &B, p2p_port: u16) -> (r: String)
        ensures
            r@ == backend.script(
                self@.iface,
                self@.mesh_addr,
                self@.exposed,
                self@.peers,
                p2p_port,
            ),
    {
        self.reconcile(backend, p2p_port)
    }

    /// The script that makes the rules what they are to be: after a change of what is exposed, of the
    /// peers, or of the mesh address.
    pub fn reconcile<B: FirewallBackend>(&self, backend: &B, p2p_port: u16) -> (r: String)
        ensures
            r@ == backend.script(
                self@.iface,
                self@.mesh_addr,
                self@.exposed,
                self@.peers,
                p2p_port,
            ),
    {
        backend.apply(self.iface.as_str(), self.mesh_addr, &self.exposed, &self.peers, p2p_port)
    }

    /// The script that removes the rules.
    pub fn reset<B: FirewallBackend>(&self, backend: &B) -> (r: String)
        ensures
            r@ == backend.clearing(),
    {
        backend.reset()
    }

    /// Takes in the current peers; returns whether they changed, which is when the rules want
    /// installing again.
    pub fn update_peers(&mut self, peers: PeerSets) -> (changed: bool)
        ensures
            changed == (old(self)@.peers != peers@),
            final(self)@ == (FirewallView { peers: peers@, ..old(self)@ }),
    {
        if self.peers.same(&peers) {
            return false;
        }
        self.peers = peers;
        true
    }

    /// Takes in this host's mesh address; returns whether it changed, which is when the rules want
    /// installing again.
    pub fn set_mesh_addr(&mut self, addr: u32) -> (changed: bool)
        ensures
            changed == (old(self).mesh_addr != Some(addr)),
            final(self)@ == (FirewallView { mesh_addr: Some(addr), ..old(self)@ }),
    {
        let changed = match self.mesh_addr {
            Some(a) => a != addr,
            None => true,
        };
        self.mesh_addr = Some(addr);
        changed
    }

    /// The exposures that name a role which two networks carry, by index. Such a port is open to
    /// nobody until one is named.
    pub fn ambiguous(&self, peers: &PeerSets) -> (r: Vec<usize>)
        ensures
            r@ == ambiguous_in(self@.exposed, peers@),
    {
        let ghost es = self@.exposed;
        let mut out: Vec<usize> = Vec::new();
        let mut i: usize = 0;
        assert(es.take(0) =~= seq![]);
        while i < self.exposed.len()
            invariant
                i <= self.exposed.len(),
                es == exposed_views(self.exposed@),
                out@ == ambiguous_in(es.take(i as int), peers@),
            decreases self.exposed.len() - i,
        {
            assert(es.take(i + 1).drop_last() =~= es.take(i as int));
            assert(es[i as int].scope == self.exposed@[i as int].scope@);
            match &self.exposed[i].scope {
                ExposeScope::Unresolved { guild, name } => {
                    let hits = peers.matching(guild, name);
                    assert(hits@.map_values(|i: usize| peers.nets@[i as int]@).len() == hits.len());
                    if hits.len() > 1 {
                        out.push(i);
                    }
                },
                _ => {},
            }
            i += 1;
        }
        assert(es.take(i as int) =~= es);
        out
    }

    fn find(&self, proto: Proto, port: u16, scope: &ExposeScope) -> (i: usize)
        ensures
            i == exposure_from(self@.exposed, proto, port, scope@, 0),
            i <= self.exposed.len(),
    {
        let ghost es = self@.exposed;
        let mut i: usize = 0;
        while i < self.exposed.len() && !(self.exposed[i].proto == proto && self.exposed[i].port
            == port && self.exposed[i].scope.same(scope))
            invariant
                i <= self.exposed.len(),
                es == exposed_views(self.exposed@),
                exposure_from(es, proto, port, scope@, 0) == exposure_from(
                    es,
                    proto,
                    port,
                    scope@,
                    i as int,
                ),
            decreases self.exposed.len() - i,
        {
            i += 1;
        }
        i
    }

    fn count_names(&self, name: &String) -> (n: usize)
        ensures
            n == name_set(self@.exposed).insert(name@).len(),
    {
        let ghost es = self@.exposed;
        let mut seen: Vec<String> = Vec::new();
        seen.push(name.clone());
        let ghost start = Set::<Seq<char>>::empty().insert(name@);
        let mut i: usize = 0;
        assert(text::texts(seen@) =~= seq![name@]);
        assert(es.take(0) =~= seq![]);
        assert(text::texts(seen@).to_set() =~= start) by {
            assert(text::texts(seen@)[0] == name@);
        }
        while i < self.exposed.len()
            invariant
                i <= self.exposed.len(),
                es == exposed_views(self.exposed@),
                text::texts(seen@).no_duplicates(),
                text::texts(seen@).to_set() == name_set(es.take(i as int)).insert(name@),
            decreases self.exposed.len() - i,
        {
            assert(es.take(i + 1).drop_last() =~= es.take(i as int));
            let ghost before = text::texts(seen@);
            match &self.exposed[i].name {
                Some(n) => {
                    assert(es[i as int].name == Some(n@));
                    if !text::list_has(&seen, n.as_str()) {
                        seen.push(n.clone());
                        assert(text::texts(seen@) =~= before.push(n@));
                        assert(before.push(n@).to_set() =~= before.to_set().insert(n@)) by {
                            broadcast use vstd::seq_lib::group_seq_properties;

                        }
                    } else {
                        assert(before.to_set().contains(n@));
                    }
                    assert(text::texts(seen@).to_set() =~= name_set(es.take(i + 1)).insert(name@));
                },
                None => {},
            }
            i += 1;
        }
        assert(es.take(i as int) =~= es);
        proof {
            text::texts(seen@).unique_seq_to_set();
        }
        seen.len()
    }

    /// Opens a port. Exposing an open port again changes nothing, unless a name is given: that is how
    /// a port is named and a name is changed.
    pub fn expose(
        &mut self,
        proto: Proto,
        port: u16,
        scope: ExposeScope,
        name: Option<String>,
        kind: ServiceKind,
    ) -> (r: Result<Vec<ExposedPort>, ExposeError>)
        ensures
            match expose_verdict(
                old(self)@.exposed,
                text::opt_text(name),
                old(self).max_services as nat,
            ) {
                Err(e) => r == Err::<Vec<ExposedPort>, ExposeError>(e) && final(self)@ == old(
                    self,
                )@,
                Ok(()) => {
                    &&& final(self)@ == (FirewallView {
                        exposed: with_exposure(
                            old(self)@.exposed,
                            ExposedView {
                                proto,
                                port,
                                scope: scope@,
                                name: text::opt_text(name),
                                kind,
                            },
                        ),
                        ..old(self)@
                    })
                    &&& r matches Ok(v) && port_views(v@) == final(self)@.exposed.map_values(
                        |e: ExposedView| listed(e, final(self)@.peers),
                    )
                },
            },
    {
        match &name {
            Some(n) => {
                if !valid_label(n.as_str()) {
                    return Err(ExposeError::BadLabel);
                }
                if self.count_names(n) > self.max_services {
                    return Err(ExposeError::TooManyNames);
                }
            },
            None => {},
        }
        let ghost es = self@.exposed;
        let ghost sv = scope@;
        let i = self.find(proto, port, &scope);
        proof {
            lemma_exposure_from(es, proto, port, sv, 0);
        }
        if i < self.exposed.len() {
            if name.is_some() {
                let ghost nv = text::opt_text(name);
                self.exposed[i].name = name;
                self.exposed[i].kind = kind;
                assert(self@.exposed =~= es.update(
                    i as int,
                    ExposedView { proto, port, scope: sv, name: nv, kind },
                ));
            }
        } else {
            let e = Exposed { proto, port, scope, name, kind };
            self.exposed.push(e);
            assert(self@.exposed =~= es.push(e@));
        }
        Ok(self.list())
    }

    /// Closes a port: in every scope, or only in one.
    pub fn unexpose(&mut self, proto: Proto, port: u16, scope: RemoveScope) -> (r: Vec<ExposedPort>)
        ensures
            final(self)@ == (FirewallView {
                exposed: old(self)@.exposed.filter(
                    |e: ExposedView| !closes(e, proto, port, scope@),
                ),
                ..old(self)@
            }),
            port_views(r@) == final(self)@.exposed.map_values(
                |e: ExposedView| listed(e, final(self)@.peers),
            ),
    {
        let ghost es = self@.exposed;
        let ghost p = |e: ExposedView| !closes(e, proto, port, scope@);
        let mut rest: Vec<Exposed> = Vec::new();
        std::mem::swap(&mut rest, &mut self.exposed);
        let mut out: Vec<Exposed> = Vec::new();
        let ghost all = rest@;
        let ghost mut k: int = 0;
        proof {
            reveal(Seq::filter);
        }
        assert(exposed_views(out@) =~= es.take(0).filter(p));
        while rest.len() > 0
            invariant
                0 <= k <= all.len(),
                es == exposed_views(all),
                rest@ == all.skip(k),
                p == (|e: ExposedView| !closes(e, proto, port, scope@)),
                exposed_views(out@) == es.take(k).filter(p),
            decreases rest.len(),
        {
            let e = rest.remove(0);
            proof {
                reveal(Seq::filter);
                assert(es.take(k + 1).drop_last() =~= es.take(k));
                assert(all.skip(k).remove(0) =~= all.skip(k + 1));
                k = k + 1;
            }
            let hit = e.proto == proto && e.port == port && (match &scope {
                RemoveScope::All => true,
                RemoveScope::Exact(s) => e.scope.same(s),
            });
            let ghost before = exposed_views(out@);
            if !hit {
                out.push(e);
                assert(exposed_views(out@) =~= before.push(e@));
            }
        }
        assert(es.take(k) =~= es);
        self.exposed = out;
        self.list()
    }

    /// Closes every port that carries a name; the first result is how many there were.
    pub fn unexpose_named(&mut self, name: &str) -> (r: (usize, Vec<ExposedPort>))
        ensures
            final(self)@ == (FirewallView {
                exposed: old(self)@.exposed.filter(|e: ExposedView| e.name != Some(name@)),
                ..old(self)@
            }),
            r.0 == old(self)@.exposed.len() - final(self)@.exposed.len(),
            port_views(r.1@) == final(self)@.exposed.map_values(
                |e: ExposedView| listed(e, final(self)@.peers),
            ),
    {
        let ghost es = self@.exposed;
        let ghost p = |e: ExposedView| e.name != Some(name@);
        let total: usize = self.exposed.len();
        let mut rest: Vec<Exposed> = Vec::new();
        std::mem::swap(&mut rest, &mut self.exposed);
        let mut out: Vec<Exposed> = Vec::new();
        let ghost all = rest@;
        let ghost mut k: int = 0;
        proof {
            reveal(Seq::filter);
        }
        assert(exposed_views(out@) =~= es.take(0).filter(p));
        while rest.len() > 0
            invariant
                0 <= k <= all.len(),
                es == exposed_views(all),
                rest@ == all.skip(k),
                p == (|e: ExposedView| e.name != Some(name@)),
                exposed_views(out@) == es.take(k).filter(p),
                out.len() <= k,
            decreases rest.len(),
        {
            let e = rest.remove(0);
            proof {
                reveal(Seq::filter);
                assert(es.take(k + 1).drop_last() =~= es.take(k));
                assert(all.skip(k).remove(0) =~= all.skip(k + 1));
                k = k + 1;
            }
            let hit = match &e.name {
                Some(n) => text::same(n.as_str(), name),
                None => false,
            };
            let ghost before = exposed_views(out@);
            if !hit {
                out.push(e);
                assert(exposed_views(out@) =~= before.push(e@));
            }
        }
        assert(es.take(k) =~= es);
        let removed: usize = total - out.len();
        self.exposed = out;
        (removed, self.list())
    }

    /// The exposed set as it is listed.
    pub fn list(&self) -> (r: Vec<ExposedPort>)
        ensures
            port_views(r@) == self@.exposed.map_values(|e: ExposedView| listed(e, self@.peers)),
    {
        let ghost want = self@.exposed.map_values(|e: ExposedView| listed(e, self@.peers));
        let mut out: Vec<ExposedPort> = Vec::new();
        let mut i: usize = 0;
        while i < self.exposed.len()
            invariant
                i <= self.exposed.len(),
                want == self@.exposed.map_values(|e: ExposedView| listed(e, self@.peers)),
                port_views(out@) == want.take(i as int),
            decreases self.exposed.len() - i,
        {
            let e = &self.exposed[i];
            let active = match self.peers.sources(&e.scope) {
                Some(ips) => ips.len() > 0,
                None => true,
            };
            let p = ExposedPort {
                proto: e.proto,
                port: e.port,
                scope: e.scope.copy(),
                label: self.peers.label(&e.scope),
                name: e.name.clone(),
                kind: e.kind,
                active,
            };
            let ghost before = port_views(out@);
            assert(self@.exposed[i as int] == e@);
            assert(p@ == want[i as int]);
            out.push(p);
            assert(port_views(out@) =~= before.push(p@));
            assert(want.take(i + 1) =~= want.take(i as int).push(want[i as int]));
            i += 1;
        }
        assert(want.take(i as int) =~= want);
        out
    }

    /// The named services that a peer may reach. A peer that a scope does not admit does not learn
    /// the name either.
    pub fn services_for(&self, peer: u32) -> (r: Vec<MeshService>)
        ensures
            api::service_views(r@) == announced(self@, peer),
    {
        let ghost es = self@.exposed;
        let ghost p = reached_by(self@.peers, peer);
        let mut out: Vec<MeshService> = Vec::new();
        let mut i: usize = 0;
        assert(es.take(0) =~= seq![]);
        assert(api::service_views(out@) =~= seq![]);
        while i < self.exposed.len()
            invariant
                i <= self.exposed.len(),
                es == exposed_views(self.exposed@),
                p == reached_by(self@.peers, peer),
                api::service_views(out@) == services_where(es.take(i as int), p),
            decreases self.exposed.len() - i,
        {
            assert(es.take(i + 1).drop_last() =~= es.take(i as int));
            let e = &self.exposed[i];
            assert(es[i as int] == e@);
            match &e.name {
                Some(n) => {
                    let admitted = match self.peers.sources(&e.scope) {
                        Some(ips) => has_ip(ips, peer),
                        None => true,
                    };
                    assert(admitted == p(e@));
                    if admitted {
                        let m = MeshService {
                            name: n.clone(),
                            proto: e.proto,
                            port: e.port,
                            kind: e.kind,
                        };
                        assert(m@ == service_of(e@));
                        let ghost before = api::service_views(out@);
                        if !has_service(&out, &m) {
                            out.push(m);
                            assert(api::service_views(out@) =~= before.push(m@));
                        }
                    }
                },
                None => {},
            }
            i += 1;
        }
        assert(es.take(i as int) =~= es);
        let ghost whole = api::service_views(out@);
        if out.len() > self.max_services {
            out.truncate(self.max_services);
            assert(api::service_views(out@) =~= whole.take(self.max_services as int));
        }
        out
    }

    /// The device's own named services, whoever asks.
    pub fn own_services(&self) -> (r: Vec<MeshService>)
        ensures
            api::service_views(r@) == services_where(self@.exposed, |e: ExposedView| true),
    {
        let ghost es = self@.exposed;
        let ghost p = |e: ExposedView| true;
        let mut out: Vec<MeshService> = Vec::new();
        let mut i: usize = 0;
        assert(es.take(0) =~= seq![]);
        assert(api::service_views(out@) =~= seq![]);
        while i < self.exposed.len()
            invariant
                i <= self.exposed.len(),
                es == exposed_views(self.exposed@),
                p == (|e: ExposedView| true),
                api::service_views(out@) == services_where(es.take(i as int), p),
            decreases self.exposed.len() - i,
        {
            assert(es.take(i + 1).drop_last() =~= es.take(i as int));
            let e = &self.exposed[i];
            assert(es[i as int] == e@);
            match &e.name {
                Some(n) => {
                    let m = MeshService {
                        name: n.clone(),
                        proto: e.proto,
                        port: e.port,
                        kind: e.kind,
                    };
                    assert(m@ == service_of(e@));
                    let ghost before = api::service_views(out@);
                    if !has_service(&out, &m) {
                        out.push(m);
                        assert(api::service_views(out@) =~= before.push(m@));
                    }
                },
                None => {},
            }
            i += 1;
        }
        assert(es.take(i as int) =~= es);
        out
    }

    /// The labels of the web services, sorted, each once: the names that a certificate covers.
    pub fn web_service_labels(&self) -> (r: Vec<String>)
        ensures
            text::texts(r@) == at_most(
                dedup(text::texts(order::sorted(web_names(self.exposed@)))),
                self.max_web_services as nat,
            ),
    {
        let mut names: Vec<String> = Vec::new();
        let mut i: usize = 0;
        assert(self.exposed@.take(0) =~= seq![]);
        while i < self.exposed.len()
            invariant
                i <= self.exposed.len(),
                names@ == web_names(self.exposed@.take(i as int)),
            decreases self.exposed.len() - i,
        {
            assert(self.exposed@.take(i + 1).drop_last() =~= self.exposed@.take(i as int));
            match &self.exposed[i].name {
                Some(n) => {
                    if self.exposed[i].kind == ServiceKind::Web {
                        names.push(n.clone());
                    }
                },
                None => {},
            }
            i += 1;
        }
        assert(self.exposed@.take(i as int) =~= self.exposed@);
        let ordered = order::sort(names);
        let ghost os = text::texts(ordered@);
        let mut out: Vec<String> = Vec::new();
        let mut j: usize = 0;
        assert(os.take(0) =~= seq![]);
        assert(text::texts(out@) =~= seq![]);
        while j < ordered.len()
            invariant
                j <= ordered.len(),
                os == text::texts(ordered@),
                text::texts(out@) == dedup(os.take(j as int)),
            decreases ordered.len() - j,
        {
            assert(os.take(j + 1).drop_last() =~= os.take(j as int));
            let ghost before = text::texts(out@);
            assert(before.len() == out.len());
            let repeated = out.len() > 0 && out[out.len() - 1] == ordered[j];
            if out.len() > 0 {
                assert(before.last() == out@[out.len() - 1]@);
            }
            if !repeated {
                out.push(ordered[j].clone());
                assert(text::texts(out@) =~= before.push(os[j as int]));
            }
            j += 1;
        }
        assert(os.take(j as int) =~= os);
        let ghost whole = text::texts(out@);
        if out.len() > self.max_web_services {
            out.truncate(self.max_web_services);
            assert(text::texts(out@) =~= whole.take(self.max_web_services as int));
        }
        out
    }
}

/// The exposure that the search finds is of the port and scope, and none before it is.
pub proof fn lemma_exposure_from(
    s: Seq<ExposedView>,
    proto: Proto,
    port: u16,
    scope: api::ScopeView,
    i: int,
)
    requires
        0 <= i <= s.len(),
    ensures
        i <= exposure_from(s, proto, port, scope, i) <= s.len(),
        exposure_from(s, proto, port, scope, i) < s.len() ==> is_exposure(
            s[exposure_from(s, proto, port, scope, i)],
            proto,
            port,
            scope,
        ),
        forall|j: int|
            i <= j < exposure_from(s, proto, port, scope, i) ==> !is_exposure(
                #[trigger] s[j],
                proto,
                port,
                scope,
            ),
    decreases s.len() - i,
{
    if i < s.len() && !is_exposure(s[i], proto, port, scope) {
        lemma_exposure_from(s, proto, port, scope, i + 1);
    }
}

/// A name that two networks carry admits nobody, rather than both.
pub proof fn law_ambiguous_admits_nobody(peers: PeersView, scope: api::ScopeView, ip: u32)
    requires
        is_ambiguous(scope, peers),
    ensures
        peers.sources(scope) == Some(Seq::<u32>::empty()),
        !peers.admits(scope, ip),
{
}

/// A network's scope admits the members of the network with its ids, whatever networks carry the
/// same name.
pub proof fn law_networks_are_told_apart_by_ids(
    peers: PeersView,
    guild_id: u64,
    role_id: u64,
    ip: u32,
)
    requires
        peers.admits(api::ScopeView::Net { guild_id, role_id }, ip),
    ensures
        exists|i: int|
            0 <= i < peers.nets.len() && (#[trigger] peers.nets[i]).guild_id == guild_id
                && peers.nets[i].role_id == role_id && peers.nets[i].ips.contains(ip),
{
    lemma_net_from(peers.nets, guild_id, role_id, 0);
    let i = net_from(peers.nets, guild_id, role_id, 0);
    if i < peers.nets.len() {
        assert(peers.nets[i].ips.contains(ip));
    }
}

proof fn lemma_net_from(nets: Seq<NetView>, guild_id: u64, role_id: u64, i: int)
    requires
        0 <= i <= nets.len(),
    ensures
        i <= net_from(nets, guild_id, role_id, i) <= nets.len(),
        net_from(nets, guild_id, role_id, i) < nets.len() ==> nets[net_from(
            nets,
            guild_id,
            role_id,
            i,
        )].guild_id == guild_id && nets[net_from(nets, guild_id, role_id, i)].role_id == role_id,
    decreases nets.len() - i,
{
    if i < nets.len() && !(nets[i].guild_id == guild_id && nets[i].role_id == role_id) {
        lemma_net_from(nets, guild_id, role_id, i + 1);
    }
}

proof fn lemma_services_where(
    s: Seq<ExposedView>,
    p: spec_fn(ExposedView) -> bool,
    m: api::ServiceView,
)
    ensures
        services_where(s, p).contains(m) <==> exists|i: int|
            0 <= i < s.len() && (#[trigger] s[i]).name is Some && p(s[i]) && service_of(s[i]) == m,
        services_where(s, p).no_duplicates(),
    decreases s.len(),
{
    let all = services_where(s, p);
    if s.len() > 0 {
        let t = s.drop_last();
        let before = services_where(t, p);
        lemma_services_where(t, p, m);
        if before.contains(m) {
            let i = choose|i: int|
                0 <= i < t.len() && (#[trigger] t[i]).name is Some && p(t[i]) && service_of(t[i])
                    == m;
            assert(s[i] == t[i]);
            let k = choose|k: int| 0 <= k < before.len() && before[k] == m;
            assert(all[k] == m);
        }
        if all.contains(m) && !before.contains(m) {
            let k = choose|k: int| 0 <= k < all.len() && all[k] == m;
            if k < before.len() {
                assert(before[k] == m);
            }
            assert(s[s.len() - 1] == s.last());
        }
        if exists|i: int|
            0 <= i < s.len() && (#[trigger] s[i]).name is Some && p(s[i]) && service_of(s[i]) == m {
            let i = choose|i: int|
                0 <= i < s.len() && (#[trigger] s[i]).name is Some && p(s[i]) && service_of(s[i])
                    == m;
            if i < t.len() {
                assert(t[i] == s[i]);
            } else if !before.contains(m) {
                assert(all[all.len() - 1] == m);
            }
        }
        assert forall|a: int, b: int| 0 <= a < b < all.len() implies all[a] != all[b] by {
            if b == before.len() {
                assert(before.contains(before[a]));
            }
        }
    } else {
        assert(all =~= seq![]);
    }
}

/// A peer is told of a service only if the scope of an exposure of it admits the peer.
pub proof fn law_announced_only_to_the_admitted(f: FirewallView, peer: u32, m: api::ServiceView)
    requires
        announced(f, peer).contains(m),
    ensures
        exists|i: int|
            0 <= i < f.exposed.len() && (#[trigger] f.exposed[i]).name == Some(m.name)
                && service_of(f.exposed[i]) == m && f.peers.admits(f.exposed[i].scope, peer),
{
    let p = reached_by(f.peers, peer);
    let all = services_where(f.exposed, p);
    let some = announced(f, peer);
    let k = choose|k: int| 0 <= k < some.len() && some[k] == m;
    assert(all[k] == m);
    lemma_services_where(f.exposed, p, m);
    let i = choose|i: int|
        0 <= i < f.exposed.len() && (#[trigger] f.exposed[i]).name is Some && p(f.exposed[i])
            && service_of(f.exposed[i]) == m;
    assert(f.exposed[i].name == Some(m.name));
}

/// A peer that every exposure of a name shuts out does not learn the name.
pub proof fn law_shut_out_peer_learns_nothing(f: FirewallView, peer: u32, m: api::ServiceView)
    requires
        forall|i: int|
            0 <= i < f.exposed.len() && (#[trigger] f.exposed[i]).name == Some(m.name)
                ==> !f.peers.admits(f.exposed[i].scope, peer),
    ensures
        !announced(f, peer).contains(m),
{
    if announced(f, peer).contains(m) {
        law_announced_only_to_the_admitted(f, peer, m);
    }
}

/// Every named service that a peer may reach is announced to it, once, as long as there are no more
/// of them than one peer may be told of.
pub proof fn law_admitted_are_told(f: FirewallView, peer: u32, i: int)
    requires
        0 <= i < f.exposed.len(),
        f.exposed[i].name is Some,
        f.peers.admits(f.exposed[i].scope, peer),
        services_where(f.exposed, reached_by(f.peers, peer)).len() <= f.max_services,
    ensures
        announced(f, peer).contains(service_of(f.exposed[i])),
        announced(f, peer).no_duplicates(),
{
    let p = reached_by(f.peers, peer);
    lemma_services_where(f.exposed, p, service_of(f.exposed[i]));
    assert(p(f.exposed[i]));
}

proof fn lemma_exposure_absent(
    s: Seq<ExposedView>,
    proto: Proto,
    port: u16,
    scope: api::ScopeView,
    i: int,
)
    requires
        0 <= i <= s.len(),
        forall|j: int| i <= j < s.len() ==> !is_exposure(#[trigger] s[j], proto, port, scope),
    ensures
        exposure_from(s, proto, port, scope, i) == s.len(),
    decreases s.len() - i,
{
    if i < s.len() {
        lemma_exposure_absent(s, proto, port, scope, i + 1);
    }
}

proof fn lemma_exposure_at(
    s: Seq<ExposedView>,
    proto: Proto,
    port: u16,
    scope: api::ScopeView,
    i: int,
    k: int,
)
    requires
        0 <= i <= k < s.len(),
        is_exposure(s[k], proto, port, scope),
        forall|j: int| i <= j < k ==> !is_exposure(#[trigger] s[j], proto, port, scope),
    ensures
        exposure_from(s, proto, port, scope, i) == k,
    decreases k - i,
{
    if i < k {
        assert(!is_exposure(s[i], proto, port, scope));
        lemma_exposure_at(s, proto, port, scope, i + 1, k);
    }
}

/// Exposing a port twice is exposing it once.
pub proof fn law_expose_is_idempotent(s: Seq<ExposedView>, e: ExposedView)
    ensures
        with_exposure(with_exposure(s, e), e) == with_exposure(s, e),
{
    let once = with_exposure(s, e);
    let k = exposure_from(s, e.proto, e.port, e.scope, 0);
    lemma_exposure_from(s, e.proto, e.port, e.scope, 0);
    assert(is_exposure(once[k], e.proto, e.port, e.scope));
    assert forall|j: int| 0 <= j < k implies !is_exposure(
        #[trigger] once[j],
        e.proto,
        e.port,
        e.scope,
    ) by {
        assert(once[j] == s[j]);
    }
    lemma_exposure_at(once, e.proto, e.port, e.scope, 0, k);
    if e.name is Some {
        assert(once.update(k, e) =~= once);
    }
}

proof fn lemma_filter_keeps_all<A>(s: Seq<A>, p: spec_fn(A) -> bool)
    requires
        forall|i: int| 0 <= i < s.len() ==> p(#[trigger] s[i]),
    ensures
        s.filter(p) == s,
    decreases s.len(),
{
    reveal(Seq::filter);
    if s.len() > 0 {
        assert forall|i: int| 0 <= i < s.drop_last().len() implies p(
            #[trigger] s.drop_last()[i],
        ) by {
            assert(s.drop_last()[i] == s[i]);
        }
        lemma_filter_keeps_all(s.drop_last(), p);
        assert(s.drop_last().push(s.last()) =~= s);
        assert(p(s[s.len() - 1]));
    } else {
        assert(s.filter(p) =~= s);
    }
}

/// Closing what was just opened gives back the exposed set as it was.
pub proof fn law_unexpose_undoes_expose(s: Seq<ExposedView>, e: ExposedView)
    requires
        forall|i: int|
            0 <= i < s.len() ==> !is_exposure(#[trigger] s[i], e.proto, e.port, e.scope),
    ensures
        with_exposure(s, e).filter(
            |x: ExposedView| !closes(x, e.proto, e.port, api::RemoveView::Exact(e.scope)),
        ) == s,
{
    let p = |x: ExposedView| !closes(x, e.proto, e.port, api::RemoveView::Exact(e.scope));
    lemma_exposure_absent(s, e.proto, e.port, e.scope, 0);
    assert forall|i: int| 0 <= i < s.len() implies p(#[trigger] s[i]) by {
        assert(!is_exposure(s[i], e.proto, e.port, e.scope));
    }
    lemma_filter_keeps_all(s, p);
    reveal(Seq::filter);
    assert(s.push(e).drop_last() =~= s);
}

proof fn lemma_name_set(s: Seq<ExposedView>, n: Seq<char>)
    ensures
        name_set(s).finite(),
        name_set(s).contains(n) <==> exists|i: int|
            0 <= i < s.len() && (#[trigger] s[i]).name == Some(n),
    decreases s.len(),
{
    if s.len() > 0 {
        let t = s.drop_last();
        lemma_name_set(t, n);
        if name_set(t).contains(n) {
            let i = choose|i: int| 0 <= i < t.len() && (#[trigger] t[i]).name == Some(n);
            assert(s[i].name == Some(n));
        }
        if s.last().name == Some(n) {
            assert(s[s.len() - 1].name == Some(n));
        }
        if exists|i: int| 0 <= i < s.len() && (#[trigger] s[i]).name == Some(n) {
            let i = choose|i: int| 0 <= i < s.len() && (#[trigger] s[i]).name == Some(n);
            if i < t.len() {
                assert(t[i].name == Some(n));
            }
        }
    }
}

/// A device never serves more named services than it may: an exposure that is not refused keeps
/// within the bound.
pub proof fn law_names_stay_bounded(s: Seq<ExposedView>, e: ExposedView, max_services: nat)
    requires
        name_set(s).len() <= max_services,
        expose_verdict(s, e.name, max_services) is Ok,
    ensures
        name_set(with_exposure(s, e)).len() <= max_services,
{
    let t = with_exposure(s, e);
    lemma_exposure_from(s, e.proto, e.port, e.scope, 0);
    let bound = match e.name {
        Some(n) => name_set(s).insert(n),
        None => name_set(s),
    };
    assert forall|n: Seq<char>| name_set(t).contains(n) implies bound.contains(n) by {
        lemma_name_set(t, n);
        lemma_name_set(s, n);
        let i = choose|i: int| 0 <= i < t.len() && (#[trigger] t[i]).name == Some(n);
        if i < s.len() && t[i] == s[i] {
            assert(s[i].name == Some(n));
        } else {
            assert(t[i] == e);
        }
    }
    lemma_name_set(s, seq![]);
    lemma_name_set(t, seq![]);
    assert(name_set(t).subset_of(bound));
    vstd::set_lib::lemma_len_subset(name_set(t), bound);
}

/// The bound counts names, not exposures: within it, a name that the device serves already is never
/// refused for the count.
pub proof fn law_known_name_is_not_one_more(s: Seq<ExposedView>, n: Seq<char>, max_services: nat)
    requires
        name_set(s).len() <= max_services,
        name_set(s).contains(n),
        api::is_label(n),
    ensures
        expose_verdict(s, Some(n), max_services) is Ok,
{
    assert(name_set(s).insert(n) =~= name_set(s));
}

proof fn lemma_dedup(s: Seq<Seq<char>>)
    requires
        forall|i: int, j: int| 0 <= i <= j < s.len() ==> order::text_le(s[i], s[j]),
    ensures
        dedup(s).len() > 0 <==> s.len() > 0,
        s.len() > 0 ==> dedup(s).last() == s.last(),
        forall|i: int, j: int|
            0 <= i < j < dedup(s).len() ==> order::text_le(dedup(s)[i], dedup(s)[j]) && dedup(s)[i]
                != dedup(s)[j],
        forall|x: Seq<char>| #[trigger] dedup(s).contains(x) <==> s.contains(x),
    decreases s.len(),
{
    if s.len() > 0 {
        let t = s.drop_last();
        assert forall|i: int, j: int| 0 <= i <= j < t.len() implies order::text_le(t[i], t[j]) by {
            assert(order::text_le(s[i], s[j]));
        }
        lemma_dedup(t);
        let b = dedup(t);
        let d = dedup(s);
        assert forall|i: int, j: int| 0 <= i < j < d.len() implies order::text_le(d[i], d[j])
            && d[i] != d[j] by {
            if j == b.len() {
                assert(b.contains(b[i]));
                assert(t.contains(b[i]));
                let k = choose|k: int| 0 <= k < t.len() && t[k] == b[i];
                assert(order::text_le(s[k], s[s.len() - 1]));
                if b[i] == s.last() {
                    if i < b.len() - 1 {
                        assert(order::text_le(b[i], b[b.len() - 1]));
                        assert(order::text_le(s[t.len() - 1], s[s.len() - 1]));
                        order::lemma_text_antisym(b[i], b[b.len() - 1]);
                    }
                }
            }
        }
        assert forall|x: Seq<char>| #[trigger] d.contains(x) <==> s.contains(x) by {
            if d.contains(x) {
                let k = choose|k: int| 0 <= k < d.len() && d[k] == x;
                if k < b.len() {
                    assert(b.contains(x));
                    let m = choose|m: int| 0 <= m < t.len() && t[m] == x;
                    assert(s[m] == x);
                } else {
                    assert(s[s.len() - 1] == x);
                }
            }
            if s.contains(x) {
                let m = choose|m: int| 0 <= m < s.len() && s[m] == x;
                if m < t.len() {
                    assert(t[m] == x);
                    assert(b.contains(x));
                    let k = choose|k: int| 0 <= k < b.len() && b[k] == x;
                    assert(d[k] == x);
                } else {
                    assert(d[d.len() - 1] == x);
                }
            }
        }
    } else {
        assert(dedup(s) =~= s);
    }
}

proof fn lemma_web_names(s: Seq<Exposed>, x: Seq<char>)
    ensures
        text::texts(web_names(s)).contains(x) <==> exists|i: int|
            0 <= i < s.len() && (#[trigger] s[i])@.name == Some(x) && s[i].kind == ServiceKind::Web,
    decreases s.len(),
{
    let w = text::texts(web_names(s));
    if s.len() > 0 {
        let t = s.drop_last();
        lemma_web_names(t, x);
        let b = text::texts(web_names(t));
        assert(w.len() == b.len() ==> w =~= b);
        assert(w.len() == b.len() + 1 ==> w =~= b.push(s.last()@.name->0));
        if b.contains(x) {
            let i = choose|i: int|
                0 <= i < t.len() && (#[trigger] t[i])@.name == Some(x) && t[i].kind
                    == ServiceKind::Web;
            assert(s[i] == t[i]);
            let k = choose|k: int| 0 <= k < b.len() && b[k] == x;
            assert(w[k] == x);
        }
        if w.contains(x) && !b.contains(x) {
            let k = choose|k: int| 0 <= k < w.len() && w[k] == x;
            if k < b.len() {
                assert(b[k] == x);
            }
            assert(s[s.len() - 1] == s.last());
        }
        if exists|i: int|
            0 <= i < s.len() && (#[trigger] s[i])@.name == Some(x) && s[i].kind
                == ServiceKind::Web {
            let i = choose|i: int|
                0 <= i < s.len() && (#[trigger] s[i])@.name == Some(x) && s[i].kind
                    == ServiceKind::Web;
            if i < t.len() {
                assert(t[i] == s[i]);
            } else {
                assert(w[w.len() - 1] == x);
            }
        }
    } else {
        assert(w =~= seq![]);
    }
}

/// The labels offered to the coordinator are strictly sorted, and are the names of web services and,
/// before the bound cuts them, of all of them: no other service is ever offered.
pub proof fn law_only_web_services_are_offered(s: Seq<Exposed>)
    ensures
        ({
            let d = dedup(text::texts(order::sorted(web_names(s))));
            &&& forall|i: int, j: int|
                0 <= i < j < d.len() ==> order::text_le(d[i], d[j]) && d[i] != d[j]
            &&& forall|x: Seq<char>| #[trigger]
                d.contains(x) <==> exists|i: int|
                    0 <= i < s.len() && (#[trigger] s[i])@.name == Some(x) && s[i].kind
                        == ServiceKind::Web
        }),
{
    let w = web_names(s);
    let o = order::sorted(w);
    let t = text::texts(o);
    order::lemma_sorted(w);
    assert forall|i: int, j: int| 0 <= i <= j < t.len() implies order::text_le(t[i], t[j]) by {
        assert(order::TotalOrder::leq(&o[i], &o[j]));
    }
    lemma_dedup(t);
    let d = dedup(t);
    assert forall|x: Seq<char>| #[trigger] d.contains(x) <==> exists|i: int|
        0 <= i < s.len() && (#[trigger] s[i])@.name == Some(x) && s[i].kind == ServiceKind::Web by {
        lemma_web_names(s, x);
        if t.contains(x) {
            let k = choose|k: int| 0 <= k < t.len() && t[k] == x;
            order::lemma_sorted_contains(w, o[k]);
            assert(o.contains(o[k]));
            let m = choose|m: int| 0 <= m < w.len() && w[m] == o[k];
            assert(text::texts(w)[m] == x);
        }
        if text::texts(w).contains(x) {
            let m = choose|m: int| 0 <= m < w.len() && text::texts(w)[m] == x;
            order::lemma_sorted_contains(w, w[m]);
            assert(w.contains(w[m]));
            let k = choose|k: int| 0 <= k < o.len() && o[k] == w[m];
            assert(t[k] == x);
        }
    }
}

/// Whom a scope admits. All peers: everybody. The owner's devices: just them. A network: just the members
/// of the first with its ids, and nobody where there is none.
pub proof fn law_whom_a_scope_admits(peers: PeersView, guild_id: u64, role_id: u64, i: int, ip: u32)
    ensures
        peers.sources(api::ScopeView::AllPeers) is None,
        peers.admits(api::ScopeView::AllPeers, ip),
        peers.sources(api::ScopeView::OwnDevices) == Some(peers.own_devices),
        peers.admits(api::ScopeView::OwnDevices, ip) <==> peers.own_devices.contains(ip),
        0 <= i < peers.nets.len() && peers.nets[i].guild_id == guild_id && peers.nets[i].role_id
            == role_id && (forall|j: int|
            0 <= j < i ==> (#[trigger] peers.nets[j]).guild_id != guild_id || peers.nets[j].role_id
                != role_id) ==> peers.sources(api::ScopeView::Net { guild_id, role_id }) == Some(
            peers.nets[i].ips,
        ) && (peers.admits(api::ScopeView::Net { guild_id, role_id }, ip)
            <==> peers.nets[i].ips.contains(ip)),
        (forall|j: int|
            0 <= j < peers.nets.len() ==> (#[trigger] peers.nets[j]).guild_id != guild_id
                || peers.nets[j].role_id != role_id) ==> peers.sources(
            api::ScopeView::Net { guild_id, role_id },
        ) == Some(Seq::<u32>::empty()) && !peers.admits(
            api::ScopeView::Net { guild_id, role_id },
            ip,
        ),
{
    lemma_net_from(peers.nets, guild_id, role_id, 0);
    let k = net_from(peers.nets, guild_id, role_id, 0);
    if 0 <= i < peers.nets.len() && peers.nets[i].guild_id == guild_id && peers.nets[i].role_id
        == role_id && forall|j: int|
        0 <= j < i ==> (#[trigger] peers.nets[j]).guild_id != guild_id || peers.nets[j].role_id
            != role_id {
        lemma_net_at(peers.nets, guild_id, role_id, 0, i);
    }
    if k < peers.nets.len() {
        assert(peers.nets[k].guild_id == guild_id);
    }
}

proof fn lemma_net_at(nets: Seq<NetView>, guild_id: u64, role_id: u64, from: int, i: int)
    requires
        0 <= from <= i < nets.len(),
        nets[i].guild_id == guild_id,
        nets[i].role_id == role_id,
        forall|j: int|
            from <= j < i ==> (#[trigger] nets[j]).guild_id != guild_id || nets[j].role_id != role_id,
    ensures
        net_from(nets, guild_id, role_id, from) == i,
    decreases i - from,
{
    if from < i {
        assert(nets[from].guild_id != guild_id || nets[from].role_id != role_id);
        lemma_net_at(nets, guild_id, role_id, from + 1, i);
    }
}

proof fn lemma_filter_one<A>(s: Seq<A>, p: spec_fn(A) -> bool, i: int)
    requires
        0 <= i < s.len(),
        p(s[i]),
        forall|j: int| 0 <= j < s.len() && j != i ==> !p(#[trigger] s[j]),
    ensures
        s.filter(p) == seq![s[i]],
    decreases s.len(),
{
    reveal(Seq::filter);
    let t = s.drop_last();
    if i < t.len() {
        assert(!p(s[s.len() - 1]));
        assert forall|j: int| 0 <= j < t.len() && j != i implies !p(#[trigger] t[j]) by {
            assert(t[j] == s[j]);
        }
        lemma_filter_one(t, p, i);
    } else {
        assert forall|j: int| 0 <= j < t.len() implies !p(#[trigger] t[j]) by {
            assert(t[j] == s[j]);
        }
        lemma_filter_none(t, p);
        assert(s.filter(p) =~= seq![s[i]]);
    }
}

proof fn lemma_filter_none<A>(s: Seq<A>, p: spec_fn(A) -> bool)
    requires
        forall|j: int| 0 <= j < s.len() ==> !p(#[trigger] s[j]),
    ensures
        s.filter(p).len() == 0,
    decreases s.len(),
{
    reveal(Seq::filter);
    if s.len() > 0 {
        let t = s.drop_last();
        assert(!p(s[s.len() - 1]));
        assert forall|j: int| 0 <= j < t.len() implies !p(#[trigger] t[j]) by {
            assert(t[j] == s[j]);
        }
        lemma_filter_none(t, p);
    }
}

/// A scope that is still a typed name admits the members of the one network that it can mean, by the
/// role's name and, where it was typed, by the community's label; and nobody where it can mean none.
pub proof fn law_typed_name_admits_the_one_it_means(
    peers: PeersView,
    guild: Option<Seq<char>>,
    name: Seq<char>,
    i: int,
)
    ensures
        0 <= i < peers.nets.len() && peers.nets[i].name == name && (guild is None || guild == Some(
            peers.nets[i].guild,
        )) && (forall|j: int|
            0 <= j < peers.nets.len() && j != i ==> (#[trigger] peers.nets[j]).name != name || (
            guild is Some && guild != Some(peers.nets[j].guild))) ==> peers.sources(
            api::ScopeView::Unresolved { guild, name },
        ) == Some(peers.nets[i].ips),
        (forall|j: int|
            0 <= j < peers.nets.len() ==> (#[trigger] peers.nets[j]).name != name || (guild is Some
                && guild != Some(peers.nets[j].guild))) ==> peers.sources(
            api::ScopeView::Unresolved { guild, name },
        ) == Some(Seq::<u32>::empty()),
{
    let p = |n: NetView| means(n, guild, name);
    if 0 <= i < peers.nets.len() && peers.nets[i].name == name && (guild is None || guild == Some(
        peers.nets[i].guild,
    )) && forall|j: int|
        0 <= j < peers.nets.len() && j != i ==> (#[trigger] peers.nets[j]).name != name || (
        guild is Some && guild != Some(peers.nets[j].guild)) {
        lemma_filter_one(peers.nets, p, i);
    }
    if forall|j: int|
        0 <= j < peers.nets.len() ==> (#[trigger] peers.nets[j]).name != name || (guild is Some
            && guild != Some(peers.nets[j].guild)) {
        lemma_filter_none(peers.nets, p);
    }
}

/// What exposing a port does: the port is then exposed to the scope, under the name and as the kind that
/// were given, where a name was; without one, an exposure that was there stays as it was. Every other
/// exposure is as it was, and none is added but this.
pub proof fn law_exposing_opens_just_that(s: Seq<ExposedView>, e: ExposedView)
    ensures
        ({
            let r = with_exposure(s, e);
            let known = exists|i: int|
                0 <= i < s.len() && (#[trigger] s[i]).proto == e.proto && s[i].port == e.port
                    && s[i].scope == e.scope;
            &&& exists|k: int|
                0 <= k < r.len() && (#[trigger] r[k]).proto == e.proto && r[k].port == e.port
                    && r[k].scope == e.scope
            &&& e.name is Some || !known ==> r.contains(e)
            &&& e.name is None && known ==> r == s
            &&& r.len() == if known {
                s.len()
            } else {
                s.len() + 1
            }
            &&& forall|j: int|
                0 <= j < s.len() && ((#[trigger] s[j]).proto != e.proto || s[j].port != e.port
                    || s[j].scope != e.scope) ==> r[j] == s[j]
        }),
{
    let r = with_exposure(s, e);
    let k = exposure_from(s, e.proto, e.port, e.scope, 0);
    lemma_exposure_from(s, e.proto, e.port, e.scope, 0);
    if k < s.len() {
        assert(s[k].proto == e.proto && s[k].port == e.port && s[k].scope == e.scope);
        assert(r[k].proto == e.proto);
    } else {
        assert(r[k] == e);
        assert forall|i: int| 0 <= i < s.len() implies !((#[trigger] s[i]).proto == e.proto
            && s[i].port == e.port && s[i].scope == e.scope) by {
            assert(!is_exposure(s[i], e.proto, e.port, e.scope));
        }
    }
}

/// When an exposure is refused: for a name that is no label; or for one that would be one more than a
/// device may announce, counting each name once. A port without a name never is.
pub proof fn law_when_an_exposure_is_refused(
    s: Seq<ExposedView>,
    name: Option<Seq<char>>,
    max_services: nat,
)
    requires
        name_set(s).len() <= max_services,
    ensures
        name is None ==> expose_verdict(s, name, max_services) is Ok,
        name matches Some(n) ==> {
            &&& expose_verdict(s, name, max_services) == Err::<(), ExposeError>(
                ExposeError::BadLabel,
            ) <==> !api::is_label(n)
            &&& expose_verdict(s, name, max_services) == Err::<(), ExposeError>(
                ExposeError::TooManyNames,
            ) <==> api::is_label(n) && name_set(s).len() == max_services && forall|i: int|
                0 <= i < s.len() ==> (#[trigger] s[i]).name != Some(n)
        },
{
    if let Some(n) = name {
        lemma_name_set(s, n);
        if name_set(s).contains(n) {
            assert(name_set(s).insert(n) =~= name_set(s));
        } else {
            assert(name_set(s).insert(n).len() == name_set(s).len() + 1);
        }
    }
}

/// The names that a device serves are those of its exposures.
pub proof fn law_names_are_those_of_the_exposures(s: Seq<ExposedView>, n: Seq<char>)
    ensures
        name_set(s).finite(),
        name_set(s).contains(n) <==> exists|i: int|
            0 <= i < s.len() && (#[trigger] s[i]).name == Some(n),
{
    lemma_name_set(s, n);
}

/// Closing a port closes its exposures, all of them or those to the scope that is named, and no other.
pub proof fn law_closing_closes_just_that(
    e: ExposedView,
    proto: Proto,
    port: u16,
    scope: api::ScopeView,
)
    ensures
        closes(e, proto, port, api::RemoveView::All) <==> e.proto == proto && e.port == port,
        closes(e, proto, port, api::RemoveView::Exact(scope)) <==> e.proto == proto && e.port == port
            && e.scope == scope,
{
}

/// What a peer is told is a service as it is exposed: by its name, its protocol, its port and its kind.
/// It is told of no more than there may be.
pub proof fn law_announced_as_exposed(f: FirewallView, peer: u32, m: api::ServiceView)
    requires
        announced(f, peer).contains(m),
    ensures
        announced(f, peer).len() <= f.max_services,
        exists|i: int|
            0 <= i < f.exposed.len() && (#[trigger] f.exposed[i]).name == Some(m.name)
                && f.exposed[i].proto == m.proto && f.exposed[i].port == m.port && f.exposed[i].kind
                == m.kind && f.peers.admits(f.exposed[i].scope, peer),
{
    law_announced_only_to_the_admitted(f, peer, m);
    let i = choose|i: int|
        0 <= i < f.exposed.len() && (#[trigger] f.exposed[i]).name == Some(m.name) && service_of(
            f.exposed[i],
        ) == m && f.peers.admits(f.exposed[i].scope, peer);
    assert(f.exposed[i].proto == m.proto);
}

/// Every service that is exposed under a name is among a device's own, as it is exposed, and no other is.
pub proof fn law_own_services_are_the_named_exposures(s: Seq<ExposedView>, m: api::ServiceView)
    ensures
        services_where(s, |e: ExposedView| true).contains(m) <==> exists|i: int|
            0 <= i < s.len() && (#[trigger] s[i]).name == Some(m.name) && s[i].proto == m.proto
                && s[i].port == m.port && s[i].kind == m.kind,
        services_where(s, |e: ExposedView| true).no_duplicates(),
{
    let p = |e: ExposedView| true;
    lemma_services_where(s, p, m);
    if services_where(s, p).contains(m) {
        let i = choose|i: int|
            0 <= i < s.len() && (#[trigger] s[i]).name is Some && p(s[i]) && service_of(s[i]) == m;
        assert(s[i].name == Some(m.name));
    }
    if exists|i: int|
        0 <= i < s.len() && (#[trigger] s[i]).name == Some(m.name) && s[i].proto == m.proto
            && s[i].port == m.port && s[i].kind == m.kind {
        let i = choose|i: int|
            0 <= i < s.len() && (#[trigger] s[i]).name == Some(m.name) && s[i].proto == m.proto
                && s[i].port == m.port && s[i].kind == m.kind;
        assert(s[i].name is Some && p(s[i]) && service_of(s[i]) == m);
    }
}

/// Where more is to be told than there may be, what is told is the first of it.
pub proof fn law_bounded_list_is_a_prefix<A>(s: Seq<A>, n: nat)
    ensures
        at_most(s, n).len() == if s.len() < n {
            s.len()
        } else {
            n
        },
        forall|i: int| 0 <= i < at_most(s, n).len() ==> #[trigger] at_most(s, n)[i] == s[i],
{
}

/// An exposure is listed as it is, with what its scope is called, and as active if and only if somebody
/// can reach it.
pub proof fn law_listed_as_it_is(e: ExposedView, peers: PeersView)
    ensures
        listed(e, peers).proto == e.proto,
        listed(e, peers).port == e.port,
        listed(e, peers).scope == e.scope,
        listed(e, peers).name == e.name,
        listed(e, peers).kind == e.kind,
        listed(e, peers).label == peers.label(e.scope),
        listed(e, peers).active <==> exists|ip: u32| #[trigger] peers.admits(e.scope, ip),
{
    match peers.sources(e.scope) {
        Some(ips) => {
            if ips.len() > 0 {
                assert(ips.contains(ips[0]));
                assert(peers.admits(e.scope, ips[0]));
            }
            assert forall|ip: u32| #[trigger] peers.admits(e.scope, ip) implies ips.len() > 0 by {
                assert(ips.contains(ip));
            }
        },
        None => {
            assert(peers.admits(e.scope, 0));
        },
    }
}

/// A network's scope is shown by the network's name and its community's, while the network is visible,
/// and by its ids when it is not.
pub proof fn law_scope_is_shown_by_its_network(peers: PeersView, guild_id: u64, role_id: u64, i: int)
    ensures
        0 <= i < peers.nets.len() && peers.nets[i].guild_id == guild_id && peers.nets[i].role_id
            == role_id && (forall|j: int|
            0 <= j < i ==> (#[trigger] peers.nets[j]).guild_id != guild_id || peers.nets[j].role_id
                != role_id) ==> peers.label(api::ScopeView::Net { guild_id, role_id }) == if peers.nets[
        i].guild.len() == 0 {
            peers.nets[i].name
        } else {
            peers.nets[i].name + " @ "@ + peers.nets[i].guild
        },
        (forall|j: int|
            0 <= j < peers.nets.len() ==> (#[trigger] peers.nets[j]).guild_id != guild_id
                || peers.nets[j].role_id != role_id) ==> peers.label(
            api::ScopeView::Net { guild_id, role_id },
        ) == text::dec(guild_id as nat) + "/"@ + text::dec(role_id as nat),
        peers.label(api::ScopeView::AllPeers) == "all peers"@,
        peers.label(api::ScopeView::OwnDevices) == "own devices"@,
{
    lemma_net_from(peers.nets, guild_id, role_id, 0);
    if 0 <= i < peers.nets.len() && peers.nets[i].guild_id == guild_id && peers.nets[i].role_id
        == role_id && forall|j: int|
        0 <= j < i ==> (#[trigger] peers.nets[j]).guild_id != guild_id || peers.nets[j].role_id
            != role_id {
        lemma_net_at(peers.nets, guild_id, role_id, 0, i);
    }
    let k = net_from(peers.nets, guild_id, role_id, 0);
    if k < peers.nets.len() {
        assert(peers.nets[k].guild_id == guild_id);
    }
}

/// The exposures that are told to be ambiguous are those whose typed name two networks or more can mean,
/// each by its place, in order.
pub proof fn law_ambiguous_are_those_that_mean_two(s: Seq<ExposedView>, peers: PeersView, k: usize)
    requires
        s.len() <= usize::MAX,
    ensures
        ambiguous_in(s, peers).contains(k) <==> k < s.len() && (
        s[k as int].scope matches api::ScopeView::Unresolved { guild, name } && peers.nets.filter(
            |n: NetView| n.name == name && (guild is None || guild == Some(n.guild)),
        ).len() > 1),
        forall|i: int, j: int|
            0 <= i < j < ambiguous_in(s, peers).len() ==> ambiguous_in(s, peers)[i] < ambiguous_in(
                s,
                peers,
            )[j],
        forall|i: int|
            0 <= i < ambiguous_in(s, peers).len() ==> #[trigger] ambiguous_in(s, peers)[i]
                < s.len(),
    decreases s.len(),
{
    if s.len() > 0 {
        let t = s.drop_last();
        let n = (s.len() - 1) as usize;
        law_ambiguous_are_those_that_mean_two(t, peers, k);
        let before = ambiguous_in(t, peers);
        let all = ambiguous_in(s, peers);
        if let api::ScopeView::Unresolved { guild, name } = s.last().scope {
            assert((|n: NetView| means(n, guild, name)) =~= (|n: NetView|
                n.name == name && (guild is None || guild == Some(n.guild))));
        }
        if before.contains(k) {
            let i = choose|i: int| 0 <= i < before.len() && before[i] == k;
            assert(all[i] == k);
        }
        if all.contains(k) && !before.contains(k) {
            let i = choose|i: int| 0 <= i < all.len() && all[i] == k;
            if i < before.len() {
                assert(before[i] == k);
            }
        }
        if all.len() > before.len() {
            assert(all[before.len() as int] == n);
        }
        if k < t.len() {
            assert(t[k as int] == s[k as int]);
        }
    }
}

} // verus!
