//! Values that engines, frontends and the coordinator exchange.
use crate::text;
use vstd::prelude::*;
use vstd::string::*;

verus! {

/// A transport protocol.
#[derive(Clone, Copy, Debug, PartialEq, Eq, Structural)]
pub enum Proto {
    Tcp,
    Udp,
}

impl Proto {
    /// The protocol's name in lower case.
    pub open spec fn text(self) -> Seq<char> {
        match self {
            Proto::Tcp => "tcp"@,
            Proto::Udp => "udp"@,
        }
    }

    /// The protocol's name in lower case.
    pub fn as_str(self) -> (r: &'static str)
        ensures
            r@ == self.text(),
    {
        match self {
            Proto::Tcp => "tcp",
            Proto::Udp => "udp",
        }
    }
}

/// Whether a service is opened in a browser, which decides if its name goes into a certificate.
#[derive(Clone, Copy, Debug, PartialEq, Eq, Structural)]
pub enum ServiceKind {
    Port,
    Web,
}

/// To whom a port is open.
pub enum ExposeScope {
    /// To every peer.
    AllPeers,
    /// To the owner's other devices.
    OwnDevices,
    /// To the members of a network.
    Net { guild_id: u64, role_id: u64 },
    /// To the members of the one network with this role name, and community when one is given.
    Unresolved { guild: Option<String>, name: String },
}

/// The model of a scope.
pub enum ScopeView {
    AllPeers,
    OwnDevices,
    Net { guild_id: u64, role_id: u64 },
    Unresolved { guild: Option<Seq<char>>, name: Seq<char> },
}

impl View for ExposeScope {
    type V = ScopeView;

    open spec fn view(&self) -> ScopeView {
        match self {
            ExposeScope::AllPeers => ScopeView::AllPeers,
            ExposeScope::OwnDevices => ScopeView::OwnDevices,
            ExposeScope::Net { guild_id, role_id } => ScopeView::Net {
                guild_id: *guild_id,
                role_id: *role_id,
            },
            ExposeScope::Unresolved { guild, name } => ScopeView::Unresolved {
                guild: text::opt_text(*guild),
                name: name@,
            },
        }
    }
}

/// A role and its community as one text; just the role when there is no community.
pub open spec fn at_guild(name: Seq<char>, guild: Seq<char>) -> Seq<char> {
    if guild.len() == 0 {
        name
    } else {
        name + " @ "@ + guild
    }
}

/// A role and its community as one text; just the role when there is no community.
pub fn name_at_guild(name: &str, guild: &str) -> (r: String)
    ensures
        r@ == at_guild(name@, guild@),
{
    let mut out = name.to_owned();
    if !guild.is_empty() {
        out.append(" @ ");
        out.append(guild);
    }
    out
}

impl ScopeView {
    /// How a scope is shown when its network is not visible.
    pub open spec fn fallback_label(self) -> Seq<char> {
        match self {
            ScopeView::AllPeers => "all peers"@,
            ScopeView::OwnDevices => "own devices"@,
            ScopeView::Net { guild_id, role_id } => text::dec(guild_id as nat) + "/"@ + text::dec(
                role_id as nat,
            ),
            ScopeView::Unresolved { guild, name } => match guild {
                Some(g) => at_guild(name, g),
                None => name,
            },
        }
    }
}

impl ExposeScope {
    /// Whether two scopes are the same.
    pub fn same(&self, other: &ExposeScope) -> (r: bool)
        ensures
            r == (self@ == other@),
    {
        match (self, other) {
            (ExposeScope::AllPeers, ExposeScope::AllPeers) => true,
            (ExposeScope::OwnDevices, ExposeScope::OwnDevices) => true,
            (
                ExposeScope::Net { guild_id: a, role_id: b },
                ExposeScope::Net { guild_id: c, role_id: d },
            ) => *a == *c && *b == *d,
            (
                ExposeScope::Unresolved { guild: a, name: b },
                ExposeScope::Unresolved { guild: c, name: d },
            ) => text::same_opt(a, c) && *b == *d,
            _ => false,
        }
    }

    /// A copy of the scope.
    pub fn copy(&self) -> (r: ExposeScope)
        ensures
            r@ == self@,
    {
        match self {
            ExposeScope::AllPeers => ExposeScope::AllPeers,
            ExposeScope::OwnDevices => ExposeScope::OwnDevices,
            ExposeScope::Net { guild_id, role_id } => ExposeScope::Net {
                guild_id: *guild_id,
                role_id: *role_id,
            },
            ExposeScope::Unresolved { guild, name } => ExposeScope::Unresolved {
                guild: guild.clone(),
                name: name.clone(),
            },
        }
    }

    /// How a scope is shown when its network is not visible.
    pub fn fallback_label(&self) -> (r: String)
        ensures
            r@ == self@.fallback_label(),
    {
        match self {
            ExposeScope::AllPeers => "all peers".to_owned(),
            ExposeScope::OwnDevices => "own devices".to_owned(),
            ExposeScope::Net { guild_id, role_id } => {
                let mut s = text::decimal(*guild_id);
                s.append("/");
                s.append(text::decimal(*role_id).as_str());
                s
            },
            ExposeScope::Unresolved { guild, name } => match guild {
                Some(g) => name_at_guild(name.as_str(), g.as_str()),
                None => name.clone(),
            },
        }
    }
}

/// Which exposures of a port to close.
pub enum RemoveScope {
    /// Those of every scope.
    All,
    /// The one with this scope.
    Exact(ExposeScope),
}

/// The model of which exposures to close.
pub enum RemoveView {
    All,
    Exact(ScopeView),
}

impl View for RemoveScope {
    type V = RemoveView;

    open spec fn view(&self) -> RemoveView {
        match self {
            RemoveScope::All => RemoveView::All,
            RemoveScope::Exact(s) => RemoveView::Exact(s@),
        }
    }
}

/// A named service that a device offers.
pub struct MeshService {
    pub name: String,
    pub proto: Proto,
    pub port: u16,
    pub kind: ServiceKind,
}

/// The model of a service.
pub struct ServiceView {
    pub name: Seq<char>,
    pub proto: Proto,
    pub port: u16,
    pub kind: ServiceKind,
}

impl View for MeshService {
    type V = ServiceView;

    open spec fn view(&self) -> ServiceView {
        ServiceView { name: self.name@, proto: self.proto, port: self.port, kind: self.kind }
    }
}

impl MeshService {
    /// Whether two services are the same.
    pub fn same(&self, other: &MeshService) -> (r: bool)
        ensures
            r == (self@ == other@),
    {
        self.name == other.name && self.proto == other.proto && self.port == other.port && self.kind
            == other.kind
    }

    /// A copy of the service.
    pub fn copy(&self) -> (r: MeshService)
        ensures
            r@ == self@,
    {
        MeshService { name: self.name.clone(), proto: self.proto, port: self.port, kind: self.kind }
    }
}

/// The models of a list of services.
pub open spec fn service_views(s: Seq<MeshService>) -> Seq<ServiceView> {
    s.map_values(|m: MeshService| m@)
}

/// A lower-case letter, a digit or a hyphen.
pub open spec fn label_char(c: char) -> bool {
    ('a' <= c && c <= 'z') || text::is_digit(c) || c == '-'
}

/// A service label is a DNS label: 1 to 63 lower-case letters, digits and hyphens, with no hyphen at
/// either end.
pub open spec fn is_label(s: Seq<char>) -> bool {
    &&& 1 <= s.len() <= 63
    &&& forall|i: int| 0 <= i < s.len() ==> label_char(#[trigger] s[i])
    &&& s[0] != '-'
    &&& s.last() != '-'
}

/// Whether a text can be a service's label.
pub fn valid_label(name: &str) -> (r: bool)
    ensures
        r == is_label(name@),
{
    let v = text::chars_of(name);
    if v.len() == 0 || v.len() > 63 {
        return false;
    }
    if v[0] == '-' || v[v.len() - 1] == '-' {
        return false;
    }
    let mut i: usize = 0;
    while i < v.len()
        invariant
            i <= v.len(),
            v@ == name@,
            forall|j: int| 0 <= j < i ==> label_char(#[trigger] v@[j]),
        decreases v.len() - i,
    {
        let c = v[i];
        if !(('a' <= c && c <= 'z') || ('0' <= c && c <= '9') || c == '-') {
            assert(!label_char(v@[i as int]));
            return false;
        }
        i += 1;
    }
    true
}

/// How a peer is reached.
#[derive(Clone, Copy, Debug, PartialEq, Eq, Structural)]
pub enum PeerReach {
    /// Without help.
    Direct,
    /// By punching, which has not got through yet.
    Punching,
    /// Not at all.
    Unreachable,
    /// Through a relay.
    Relayed,
    /// By a negotiated path.
    Ice,
}

/// How a peer is reached without a relay or a negotiated path: a peer that has been without a
/// connection for `stuck_after` seconds is not reached.
pub open spec fn reach_of(punched: bool, connected: bool, age_secs: int, stuck_after: int) -> PeerReach {
    if connected {
        PeerReach::Direct
    } else if age_secs >= stuck_after {
        PeerReach::Unreachable
    } else if punched {
        PeerReach::Punching
    } else {
        PeerReach::Direct
    }
}

/// How a peer is reached without a relay or a negotiated path.
pub fn classify_reach(punched: bool, connected: bool, age_secs: u64, stuck_after: u64) -> (r: PeerReach)
    ensures
        r == reach_of(punched, connected, age_secs as int, stuck_after as int),
{
    if connected {
        PeerReach::Direct
    } else if age_secs >= stuck_after {
        PeerReach::Unreachable
    } else if punched {
        PeerReach::Punching
    } else {
        PeerReach::Direct
    }
}

/// A service label is a DNS label: one to 63 lower-case letters, digits and hyphens, of which no hyphen
/// stands at an end.
pub proof fn law_what_a_label_is(s: Seq<char>)
    ensures
        is_label(s) <==> {
            &&& 1 <= s.len() <= 63
            &&& s[0] != '-'
            &&& s[s.len() - 1] != '-'
            &&& forall|i: int|
                0 <= i < s.len() ==> ('a' <= #[trigger] s[i] <= 'z') || ('0' <= s[i] <= '9') || s[i]
                    == '-'
        },
{
    if is_label(s) {
        assert forall|i: int| 0 <= i < s.len() implies ('a' <= #[trigger] s[i] <= 'z') || ('0'
            <= s[i] <= '9') || s[i] == '-' by {
            assert(label_char(s[i]));
        }
    }
}

/// What a scope is called: everyone, the owner's devices, a network by its numbers, or what was typed.
pub proof fn law_what_a_scope_is_called(
    guild_id: u64,
    role_id: u64,
    guild: Seq<char>,
    name: Seq<char>,
)
    ensures
        ScopeView::AllPeers.fallback_label() == "all peers"@,
        ScopeView::OwnDevices.fallback_label() == "own devices"@,
        (ScopeView::Net { guild_id, role_id }).fallback_label() == text::dec(guild_id as nat)
            + "/"@ + text::dec(role_id as nat),
        (ScopeView::Unresolved { guild: None, name }).fallback_label() == name,
        guild.len() > 0 ==> (ScopeView::Unresolved { guild: Some(guild), name }).fallback_label()
            == name + " @ "@ + guild,
        Proto::Tcp.text() == "tcp"@,
        Proto::Udp.text() == "udp"@,
{
}

/// How a peer is reached without help: directly while it answers, and after it did not for too long not
/// at all; in between by what is tried.
pub proof fn law_how_a_peer_is_reached_without_help(
    punched: bool,
    connected: bool,
    age_secs: int,
    stuck_after: int,
)
    ensures
        connected ==> reach_of(punched, connected, age_secs, stuck_after) == PeerReach::Direct,
        !connected && age_secs >= stuck_after ==> reach_of(
            punched,
            connected,
            age_secs,
            stuck_after,
        ) == PeerReach::Unreachable,
        !connected && age_secs < stuck_after ==> reach_of(
            punched,
            connected,
            age_secs,
            stuck_after,
        ) == if punched {
            PeerReach::Punching
        } else {
            PeerReach::Direct
        },
{
}

} // verus!
