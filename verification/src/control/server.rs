//! What the daemon does with a frontend's request.
//!
//! A request is taken in [`Control::dispatch`]. What it needs done outside, such as saving a
//! decision, is handed to the caller, and [`Control::finish`] gives the reply once that is done.
use crate::api::{self, ExposeScope, Proto, RemoveScope, ServiceKind};
use crate::control::status::{self, set_blocked, set_disable_new, set_peer_own, StatusReport};
use crate::fw::{self, ExposeError, ExposedPort, Firewall};
use crate::mesh::{self, NetworkStatus};
use crate::netcfg::{self, LocalNet};
use crate::text;
use vstd::prelude::*;
use vstd::string::*;

verus! {

/// The most bytes that a request may have. A caller that never ends its line is cut off there.
pub const MAX_REQUEST_BYTES: u64 = 65_536;

/// The most connections at a time.
pub const MAX_CONTROL_CONNS: usize = 256;

/// How long a caller may take to send its request, in seconds.
pub const REQUEST_READ_TIMEOUT: u64 = 10;

/// What was read of a request.
#[derive(Clone, Copy, Debug, PartialEq, Eq, Structural)]
pub enum Received {
    /// Nothing: the caller hung up.
    Closed,
    /// As much as is ever read, so that the line may go on.
    TooLong,
    /// A line.
    Line,
}

/// What was read, by the number of bytes.
pub fn received(n: u64) -> (r: Received)
    ensures
        r == if n == 0 {
            Received::Closed
        } else if n >= MAX_REQUEST_BYTES {
            Received::TooLong
        } else {
            Received::Line
        },
{
    if n == 0 {
        Received::Closed
    } else if n >= MAX_REQUEST_BYTES {
        Received::TooLong
    } else {
        Received::Line
    }
}

/// The label of a held network.
pub open spec fn label_of(n: mesh::NetworkView) -> Seq<char> {
    api::at_guild(n.name, n.guild_name)
}

/// The labels of the held networks, with commas between them.
pub open spec fn listing(held: Seq<mesh::NetworkView>) -> Seq<char> {
    text::join(held.map_values(|n: mesh::NetworkView| label_of(n)), ", "@)
}

/// The label of a held network: its role, and its community where it has one.
pub fn net_label(n: &NetworkStatus) -> (r: String)
    ensures
        r@ == label_of(n@),
{
    api::name_at_guild(n.name.as_str(), n.guild_name.as_str())
}

fn list_labels(held: &Vec<NetworkStatus>) -> (r: String)
    ensures
        r@ == listing(mesh::network_status_views(held@)),
{
    let ghost want = mesh::network_status_views(held@).map_values(
        |n: mesh::NetworkView| label_of(n),
    );
    let mut out: Vec<String> = Vec::new();
    let mut i: usize = 0;
    assert(text::texts(out@) =~= want.take(0));
    while i < held.len()
        invariant
            i <= held.len(),
            want == mesh::network_status_views(held@).map_values(
                |n: mesh::NetworkView| label_of(n),
            ),
            text::texts(out@) == want.take(i as int),
        decreases held.len() - i,
    {
        text::push_text(&mut out, net_label(&held[i]));
        assert(want.take(i + 1) =~= want.take(i as int).push(want[i as int]));
        i += 1;
    }
    assert(want.take(i as int) =~= want);
    text::join_with(&out, ", ")
}

/// Whether a held network is one that a typed name could mean.
pub open spec fn meant(n: mesh::NetworkView, guild: Option<Seq<char>>, name: Seq<char>) -> bool {
    n.name == name && (guild matches Some(g) ==> n.guild_name == g)
}

/// The held networks that a typed name could mean.
pub open spec fn hits(
    held: Seq<mesh::NetworkView>,
    guild: Option<Seq<char>>,
    name: Seq<char>,
) -> Seq<mesh::NetworkView> {
    held.filter(|n: mesh::NetworkView| meant(n, guild, name))
}

/// Whether a network is held.
pub open spec fn is_held(held: Seq<mesh::NetworkView>, guild_id: u64, role_id: u64) -> bool {
    exists|i: int|
        0 <= i < held.len() && (#[trigger] held[i]).guild_id == guild_id && held[i].role_id
            == role_id
}

/// What a scope comes to, or why it is refused. Only ids come out of it: a typed name is the one
/// held network that it means. Where it could mean two, neither is taken, or a port would be opened
/// to a community that was never named.
pub open spec fn resolved(scope: api::ScopeView, held: Seq<mesh::NetworkView>) -> Result<
    api::ScopeView,
    Seq<char>,
> {
    match scope {
        api::ScopeView::Net { guild_id, role_id } => if is_held(held, guild_id, role_id) {
            Ok(scope)
        } else {
            Err(
                "not a member of network "@ + text::dec(guild_id as nat) + "/"@ + text::dec(
                    role_id as nat,
                ) + " (your networks: "@ + listing(held) + ")"@,
            )
        },
        api::ScopeView::Unresolved { guild, name } => {
            let hs = hits(held, guild, name);
            if hs.len() == 0 {
                Err(
                    "not a member of network '"@ + name + "' (your networks: "@ + listing(held)
                        + ")"@,
                )
            } else if hs.len() == 1 {
                Ok(api::ScopeView::Net { guild_id: hs[0].guild_id, role_id: hs[0].role_id })
            } else {
                Err(
                    "network '"@ + name + "' is ambiguous — you hold it in "@ + text::dec(
                        hs.len(),
                    ) + " communities ("@ + text::join(
                        hs.map_values(|n: mesh::NetworkView| n.guild_name),
                        ", "@,
                    ) + "). Name one with `--guild`."@,
                )
            }
        },
        _ => Ok(scope),
    }
}

fn holds(held: &Vec<NetworkStatus>, guild_id: u64, role_id: u64) -> (r: bool)
    ensures
        r == is_held(mesh::network_status_views(held@), guild_id, role_id),
{
    let ghost all = mesh::network_status_views(held@);
    let mut i: usize = 0;
    while i < held.len()
        invariant
            i <= held.len(),
            all == mesh::network_status_views(held@),
            forall|j: int|
                0 <= j < i ==> !((#[trigger] all[j]).guild_id == guild_id && all[j].role_id
                    == role_id),
        decreases held.len() - i,
    {
        assert(all[i as int] == held@[i as int]@);
        if held[i].guild_id == guild_id && held[i].role_id == role_id {
            return true;
        }
        i += 1;
    }
    false
}

fn find_hits(held: &Vec<NetworkStatus>, guild: &Option<String>, name: &String) -> (r: (
    Vec<NetworkStatus>,
    Vec<String>,
))
    ensures
        mesh::network_status_views(r.0@) == hits(
            mesh::network_status_views(held@),
            text::opt_text(*guild),
            name@,
        ),
        text::texts(r.1@) == hits(
            mesh::network_status_views(held@),
            text::opt_text(*guild),
            name@,
        ).map_values(|n: mesh::NetworkView| n.guild_name),
{
    let ghost all = mesh::network_status_views(held@);
    let ghost p = |n: mesh::NetworkView| meant(n, text::opt_text(*guild), name@);
    let mut out: Vec<NetworkStatus> = Vec::new();
    let mut names: Vec<String> = Vec::new();
    let mut i: usize = 0;
    proof {
        reveal(Seq::filter);
        assert(mesh::network_status_views(out@) =~= all.take(0).filter(p));
        assert(text::texts(names@) =~= mesh::network_status_views(out@).map_values(
            |n: mesh::NetworkView| n.guild_name,
        ));
    }
    while i < held.len()
        invariant
            i <= held.len(),
            all == mesh::network_status_views(held@),
            p == (|n: mesh::NetworkView| meant(n, text::opt_text(*guild), name@)),
            mesh::network_status_views(out@) == all.take(i as int).filter(p),
            text::texts(names@) == mesh::network_status_views(out@).map_values(
                |n: mesh::NetworkView| n.guild_name,
            ),
        decreases held.len() - i,
    {
        proof {
            reveal(Seq::filter);
            assert(all.take(i + 1).drop_last() =~= all.take(i as int));
            assert(all[i as int] == held@[i as int]@);
        }
        let n = &held[i];
        let fits = n.name == *name && match guild {
            Some(g) => n.guild_name == *g,
            None => true,
        };
        assert(fits == p(n@));
        if fits {
            let ghost before = mesh::network_status_views(out@);
            text::push_text(&mut names, n.guild_name.clone());
            out.push(n.copy());
            assert(mesh::network_status_views(out@) =~= before.push(n@));
            assert(text::texts(names@) =~= mesh::network_status_views(out@).map_values(
                |n: mesh::NetworkView| n.guild_name,
            ));
        }
        i += 1;
    }
    assert(all.take(i as int) =~= all);
    assert(p =~= (|n: mesh::NetworkView| meant(n, text::opt_text(*guild), name@)));
    (out, names)
}

/// What a scope comes to among the held networks, or why it is refused.
pub fn resolve_scope(scope: ExposeScope, held: &Vec<NetworkStatus>) -> (r: Result<
    ExposeScope,
    String,
>)
    ensures
        match (r, resolved(scope@, mesh::network_status_views(held@))) {
            (Ok(s), Ok(v)) => s@ == v,
            (Err(t), Err(v)) => t@ == v,
            _ => false,
        },
{
    match scope {
        ExposeScope::Net { guild_id, role_id } => {
            if holds(held, guild_id, role_id) {
                return Ok(ExposeScope::Net { guild_id, role_id });
            }
            let mut t = "not a member of network ".to_owned();
            t.append(text::decimal(guild_id).as_str());
            t.append("/");
            t.append(text::decimal(role_id).as_str());
            t.append(" (your networks: ");
            t.append(list_labels(held).as_str());
            t.append(")");
            Err(t)
        },
        ExposeScope::Unresolved { guild, name } => {
            let (hs, guilds) = find_hits(held, &guild, &name);
            let ghost views = mesh::network_status_views(hs@);
            if hs.len() == 0 {
                assert(views.len() == 0);
                let mut t = "not a member of network '".to_owned();
                t.append(name.as_str());
                t.append("' (your networks: ");
                t.append(list_labels(held).as_str());
                t.append(")");
                Err(t)
            } else if hs.len() == 1 {
                assert(views.len() == 1 && views[0] == hs@[0]@);
                Ok(ExposeScope::Net { guild_id: hs[0].guild_id, role_id: hs[0].role_id })
            } else {
                assert(views.len() == hs@.len());
                let mut t = "network '".to_owned();
                t.append(name.as_str());
                t.append("' is ambiguous — you hold it in ");
                t.append(text::decimal(hs.len() as u64).as_str());
                t.append(" communities (");
                t.append(text::join_with(&guilds, ", ").as_str());
                t.append("). Name one with `--guild`.");
                Err(t)
            }
        },
        other => Ok(other),
    }
}

/// A scope that comes out is settled: it never carries a typed name.
pub proof fn law_names_are_settled(scope: api::ScopeView, held: Seq<mesh::NetworkView>)
    ensures
        resolved(scope, held) matches Ok(s) ==> s !is Unresolved,
{
}

/// A network that comes out is held, so that no port is opened to a community the owner is not in.
pub proof fn law_only_held_networks(
    scope: api::ScopeView,
    held: Seq<mesh::NetworkView>,
    guild_id: u64,
    role_id: u64,
)
    requires
        resolved(scope, held) == Ok::<api::ScopeView, Seq<char>>(
            api::ScopeView::Net { guild_id, role_id },
        ),
    ensures
        is_held(held, guild_id, role_id),
{
    match scope {
        api::ScopeView::Unresolved { guild, name } => {
            let hs = hits(held, guild, name);
            lemma_hit_is_held(held, guild, name, 0);
            let n = hs[0];
            let k = choose|k: int| 0 <= k < held.len() && held[k] == n;
            assert(held[k].guild_id == guild_id);
        },
        _ => {},
    }
}

proof fn lemma_hit_is_held(
    held: Seq<mesh::NetworkView>,
    guild: Option<Seq<char>>,
    name: Seq<char>,
    i: int,
)
    requires
        0 <= i < hits(held, guild, name).len(),
    ensures
        held.contains(hits(held, guild, name)[i]),
    decreases held.len(),
{
    reveal(Seq::filter);
    if held.len() > 0 {
        let t = held.drop_last();
        let before = hits(t, guild, name);
        if i < before.len() {
            lemma_hit_is_held(t, guild, name, i);
            let k = choose|k: int| 0 <= k < t.len() && t[k] == before[i];
            assert(held[k] == before[i]);
        } else {
            assert(held[held.len() - 1] == hits(held, guild, name)[i]);
        }
    }
}

/// What is asked about exposed ports.
#[allow(inconsistent_fields)]
pub enum ExposeOp {
    List,
    Add {
        proto: Proto,
        port: u16,
        scope: ExposeScope,
        name: Option<String>,
        kind: ServiceKind,
    },
    Remove { proto: Proto, port: u16, scope: RemoveScope },
}

/// The reply about exposed ports: what was done, and what is exposed now.
pub struct ExposeResp {
    pub message: String,
    pub exposed: Vec<ExposedPort>,
}

/// The label of an exposure among those that are listed.
pub open spec fn label_from(
    ports: Seq<fw::PortView>,
    proto: Proto,
    port: u16,
    scope: api::ScopeView,
    i: int,
) -> Seq<char>
    decreases ports.len() - i,
{
    if i >= ports.len() {
        scope.fallback_label()
    } else if ports[i].proto == proto && ports[i].port == port && ports[i].scope == scope {
        ports[i].label
    } else {
        label_from(ports, proto, port, scope, i + 1)
    }
}

/// What is exposed, as it is listed.
pub open spec fn ports_of(f: fw::FirewallView) -> Seq<fw::PortView> {
    f.exposed.map_values(|e: fw::ExposedView| fw::listed(e, f.peers))
}

/// Why a name was refused.
pub open spec fn refusal(e: ExposeError, name: Option<Seq<char>>, max: usize) -> Seq<char> {
    match e {
        ExposeError::BadLabel => "'"@ + match name {
            Some(n) => n,
            None => seq![],
        } + "' is not a service label"@,
        ExposeError::TooManyNames => "this device already serves "@ + text::dec(max as nat)
            + " named services, the most one device may announce"@,
    }
}

/// The firewall once a port was opened.
pub open spec fn opened(f: fw::FirewallView, e: fw::ExposedView) -> fw::FirewallView {
    fw::FirewallView { exposed: fw::with_exposure(f.exposed, e), ..f }
}

/// The firewall once ports were closed.
pub open spec fn closed(
    f: fw::FirewallView,
    proto: Proto,
    port: u16,
    scope: api::RemoveView,
) -> fw::FirewallView {
    fw::FirewallView {
        exposed: f.exposed.filter(|e: fw::ExposedView| !fw::closes(e, proto, port, scope)),
        ..f
    }
}

/// What a request about exposed ports comes to: the firewall after it, and what is said; or why it
/// is refused.
pub open spec fn exposing(f: fw::FirewallView, op: ExposeOp, held: Seq<mesh::NetworkView>) -> Result<
    (fw::FirewallView, Seq<char>),
    Seq<char>,
> {
    match op {
        ExposeOp::List => Ok((f, "exposed ports"@)),
        ExposeOp::Add { proto, port, scope, name, kind } => match resolved(scope@, held) {
            Err(t) => Err(t),
            Ok(s) => {
                let n = text::opt_text(name);
                match fw::expose_verdict(f.exposed, n, f.max_services as nat) {
                    Err(e) => Err(refusal(e, n, f.max_services)),
                    Ok(_) => {
                        let g = opened(
                            f,
                            fw::ExposedView { proto, port, scope: s, name: n, kind },
                        );
                        Ok(
                            (
                                g,
                                "exposed "@ + proto.text() + "/"@ + text::dec(port as nat)
                                    + " ("@ + label_from(ports_of(g), proto, port, s, 0) + ")"@,
                            ),
                        )
                    },
                }
            },
        },
        ExposeOp::Remove { proto, port, scope } => Ok(
            (
                closed(f, proto, port, scope@),
                "closed "@ + proto.text() + "/"@ + text::dec(port as nat) + match scope@ {
                    api::RemoveView::Exact(s) => " ("@ + s.fallback_label() + ")"@,
                    api::RemoveView::All => seq![],
                },
            ),
        ),
    }
}

fn find_label(ports: &Vec<ExposedPort>, proto: Proto, port: u16, scope: &ExposeScope) -> (r: String)
    ensures
        r@ == label_from(fw::port_views(ports@), proto, port, scope@, 0),
{
    let ghost all = fw::port_views(ports@);
    let mut i: usize = 0;
    while i < ports.len()
        invariant
            i <= ports.len(),
            all == fw::port_views(ports@),
            label_from(all, proto, port, scope@, 0) == label_from(
                all,
                proto,
                port,
                scope@,
                i as int,
            ),
        decreases ports.len() - i,
    {
        assert(all[i as int] == ports@[i as int]@);
        let p = &ports[i];
        if p.proto == proto && p.port == port && p.scope.same(scope) {
            return p.label.clone();
        }
        i += 1;
    }
    scope.fallback_label()
}

/// Does what is asked about exposed ports, or says why not. What changed is to be saved, and the
/// rules to be applied.
pub fn apply_expose(f: &mut Firewall, op: ExposeOp, held: &Vec<NetworkStatus>) -> (r: Result<
    ExposeResp,
    String,
>)
    ensures
        match (r, exposing(old(f)@, op, mesh::network_status_views(held@))) {
            (Ok(x), Ok((g, m))) => final(f)@ == g && x.message@ == m && fw::port_views(x.exposed@)
                == ports_of(g),
            (Err(t), Err(v)) => t@ == v && final(f)@ == old(f)@,
            _ => false,
        },
{
    let ghost was = f@;
    match op {
        ExposeOp::List => {
            let exposed = f.list();
            assert(fw::port_views(exposed@) =~= ports_of(was));
            Ok(ExposeResp { message: "exposed ports".to_owned(), exposed })
        },
        ExposeOp::Add { proto, port, scope, name, kind } => {
            let s = match resolve_scope(scope, held) {
                Ok(s) => s,
                Err(t) => {
                    return Err(t);
                },
            };
            let max = f.max_services;
            let shown = name.clone();
            match f.expose(proto, port, s.copy(), name, kind) {
                Ok(exposed) => {
                    assert(fw::port_views(exposed@) =~= ports_of(f@));
                    let mut m = "exposed ".to_owned();
                    m.append(proto.as_str());
                    m.append("/");
                    m.append(text::decimal(port as u64).as_str());
                    m.append(" (");
                    m.append(find_label(&exposed, proto, port, &s).as_str());
                    m.append(")");
                    Ok(ExposeResp { message: m, exposed })
                },
                Err(ExposeError::BadLabel) => {
                    let mut t = "'".to_owned();
                    match &shown {
                        Some(n) => {
                            t.append(n.as_str());
                        },
                        None => {
                            assert(t@ + seq![] =~= t@);
                        },
                    }
                    t.append("' is not a service label");
                    Err(t)
                },
                Err(ExposeError::TooManyNames) => {
                    let mut t = "this device already serves ".to_owned();
                    t.append(text::decimal(max as u64).as_str());
                    t.append(" named services, the most one device may announce");
                    Err(t)
                },
            }
        },
        ExposeOp::Remove { proto, port, scope } => {
            let mut m = "closed ".to_owned();
            m.append(proto.as_str());
            m.append("/");
            m.append(text::decimal(port as u64).as_str());
            match &scope {
                RemoveScope::Exact(s) => {
                    let mut l = " (".to_owned();
                    l.append(s.fallback_label().as_str());
                    l.append(")");
                    m.append(l.as_str());
                },
                RemoveScope::All => {
                    assert(m@ + seq![] =~= m@);
                },
            }
            let exposed = f.unexpose(proto, port, scope);
            assert(fw::port_views(exposed@) =~= ports_of(f@));
            Ok(ExposeResp { message: m, exposed })
        },
    }
}

/// What the owner's devices are managed by, at the coordinator.
pub enum ManageOp {
    List,
    Rename { new_name: String },
    SetPrimary { device_name: String },
    Remove { device_name: String },
}

/// What a frontend asks for.
pub enum ControlRequest {
    /// The status.
    Status,
    /// The status, and every status after it.
    Watch,
    /// Something about the owner's devices.
    Manage(ManageOp),
    /// Something about exposed ports.
    Expose(ExposeOp),
    /// To peer in a network, or not to.
    SetNetwork { guild_id: u64, role_id: u64, enabled: bool },
    /// To log in.
    Login,
    /// To connect the mesh, or disconnect it.
    SetConnected { connected: bool },
    /// To log out.
    Logout,
    /// To refuse a user's devices.
    BlockPeer { user_id: u64, username: String },
    /// To let them in again.
    UnblockPeer { user_id: u64 },
    /// Whether a new network starts out disabled.
    SetNewNetworkDefault { disable: bool },
    /// Whether the owner's devices peer with one another.
    SetOwnDevicePeering { enabled: bool },
    /// To apply the update that is ready.
    ApplyUpdate,
}

/// What a frontend is told.
pub enum ControlResponse {
    Status(StatusReport),
    Expose(ExposeResp),
    Network { message: String, networks: Vec<NetworkStatus> },
    Connected { connected: bool, message: String },
    Logout { message: String },
    Update { version: String, message: String },
    Error(String),
}

/// A decision that is to be saved before it is told.
#[derive(Clone, Copy, Debug, PartialEq, Eq, Structural)]
pub enum After {
    Network { guild_id: u64, role_id: u64, enabled: bool },
    Connected { connected: bool },
    Blocked,
    NewDefault { disable: bool },
    OwnPeering { enabled: bool },
}

/// What a request calls for.
pub enum Outcome {
    /// To be told this.
    Reply(ControlResponse),
    /// To be told the status, and every change of it, until the caller hangs up.
    Watch,
    /// To be forwarded to the coordinator, under the device's token.
    Forward { token: String, op: ManageOp },
    /// To begin a login, and to be told where it goes on.
    Login,
    /// To be told this, and the mesh to be left.
    LogOut(ControlResponse),
    /// To be told this, and the update to be applied.
    Update(ControlResponse),
    /// The exposed set to be saved and the rules to be applied, and then to be told this.
    ApplyRules(ControlResponse),
    /// The local decisions to be saved, if they changed, and then to be finished.
    Save { changed: bool, after: After },
}

/// All that requests bear on.
pub struct Control {
    pub status: StatusReport,
    /// The firewall, when there is one.
    pub fw: Option<Firewall>,
    pub localnet: LocalNet,
    /// The device's token, once it registered.
    pub token: Option<String>,
    /// The version of the update that is ready.
    pub pending_update: Option<String>,
}

/// The model of all that requests bear on.
pub struct ControlView {
    pub status: status::StatusView,
    pub fw: Option<fw::FirewallView>,
    pub localnet: netcfg::LocalView,
    pub token: Option<Seq<char>>,
    pub pending_update: Option<Seq<char>>,
}

impl View for Control {
    type V = ControlView;

    open spec fn view(&self) -> ControlView {
        ControlView {
            status: self.status@,
            fw: match self.fw {
                Some(f) => Some(f@),
                None => None,
            },
            localnet: self.localnet@,
            token: text::opt_text(self.token),
            pending_update: text::opt_text(self.pending_update),
        }
    }
}

/// The local decisions after a request.
pub open spec fn decided(v: netcfg::LocalView, req: ControlRequest) -> netcfg::LocalView {
    match req {
        ControlRequest::SetNetwork { guild_id, role_id, enabled } => netcfg::LocalView {
            disabled: if enabled {
                v.disabled.remove((guild_id, role_id))
            } else {
                v.disabled.insert((guild_id, role_id))
            },
            wake: v.wake || v.disabled.contains((guild_id, role_id)) == enabled,
            ..v
        },
        ControlRequest::SetConnected { connected } => netcfg::LocalView {
            paused: !connected,
            wake: v.wake || v.paused == connected,
            ..v
        },
        ControlRequest::BlockPeer { user_id, username } => netcfg::LocalView {
            blocked: v.blocked.insert(user_id, username@),
            wake: v.wake || !v.blocked.contains_key(user_id),
            ..v
        },
        ControlRequest::UnblockPeer { user_id } => netcfg::LocalView {
            blocked: v.blocked.remove(user_id),
            wake: v.wake || v.blocked.contains_key(user_id),
            ..v
        },
        ControlRequest::SetNewNetworkDefault { disable } => netcfg::LocalView {
            disable_new: disable,
            ..v
        },
        ControlRequest::SetOwnDevicePeering { enabled } => netcfg::LocalView {
            peer_own: enabled,
            wake: v.wake || v.peer_own != enabled,
            ..v
        },
        _ => v,
    }
}

/// What is finished once the local decisions are saved.
pub open spec fn after_of(req: ControlRequest) -> Option<After> {
    match req {
        ControlRequest::SetNetwork { guild_id, role_id, enabled } => Some(
            After::Network { guild_id, role_id, enabled },
        ),
        ControlRequest::SetConnected { connected } => Some(After::Connected { connected }),
        ControlRequest::BlockPeer { .. } => Some(After::Blocked),
        ControlRequest::UnblockPeer { .. } => Some(After::Blocked),
        ControlRequest::SetNewNetworkDefault { disable } => Some(After::NewDefault { disable }),
        ControlRequest::SetOwnDevicePeering { enabled } => Some(After::OwnPeering { enabled }),
        _ => None,
    }
}

/// Whether a request changes what is saved. A blocked user who takes a new name changes nothing
/// that is saved.
pub open spec fn is_change(v: netcfg::LocalView, req: ControlRequest) -> bool {
    match req {
        ControlRequest::SetNetwork { guild_id, role_id, enabled } => v.disabled.contains(
            (guild_id, role_id),
        ) == enabled,
        ControlRequest::SetConnected { connected } => v.paused == connected,
        ControlRequest::BlockPeer { user_id, .. } => !v.blocked.contains_key(user_id),
        ControlRequest::UnblockPeer { user_id } => v.blocked.contains_key(user_id),
        ControlRequest::SetNewNetworkDefault { disable } => v.disable_new != disable,
        ControlRequest::SetOwnDevicePeering { enabled } => v.peer_own != enabled,
        _ => false,
    }
}

/// Whether a reply is an error with this text.
pub open spec fn says(r: ControlResponse, t: Seq<char>) -> bool {
    r matches ControlResponse::Error(e) && e@ == t
}

/// Whether this is what a request calls for.
pub open spec fn answers(v: ControlView, w: ControlView, req: ControlRequest, o: Outcome) -> bool {
    let same = w == v;
    match (req, o) {
        (ControlRequest::Status, Outcome::Reply(ControlResponse::Status(s))) => same && s@
            == v.status,
        (ControlRequest::Watch, Outcome::Watch) => same,
        (ControlRequest::Manage(op), Outcome::Forward { token, op: forwarded }) => same && v.token
            == Some(token@) && forwarded == op,
        (ControlRequest::Manage(op), Outcome::Reply(r)) => same && v.token is None && says(
            r,
            "device not enrolled yet"@,
        ),
        (ControlRequest::Expose(op), Outcome::Reply(r)) => match v.fw {
            None => same && says(r, "firewall disabled (set firewall = true)"@),
            Some(f) => match exposing(f, op, v.status.networks) {
                Err(t) => same && says(r, t),
                Ok((g, m)) => op is List && same && (r matches ControlResponse::Expose(x)
                    && x.message@ == m && fw::port_views(x.exposed@) == ports_of(g)),
            },
        },
        (ControlRequest::Expose(op), Outcome::ApplyRules(r)) => match v.fw {
            None => false,
            Some(f) => match exposing(f, op, v.status.networks) {
                Err(t) => false,
                Ok((g, m)) => op !is List && w == (ControlView { fw: Some(g), ..v }) && (
                r matches ControlResponse::Expose(x) && x.message@ == m && fw::port_views(
                    x.exposed@,
                ) == ports_of(g)),
            },
        },
        (ControlRequest::Login, Outcome::Login) => same,
        (ControlRequest::Logout, Outcome::LogOut(ControlResponse::Logout { message })) => same
            && message@ == "logging out — tearing down the mesh and un-enrolling"@,
        (ControlRequest::ApplyUpdate, Outcome::Update(ControlResponse::Update {
            version,
            message,
        })) => same && v.pending_update == Some(version@) && message@
            == "downloading and applying the update; the engine will restart"@,
        (ControlRequest::ApplyUpdate, Outcome::Reply(r)) => same && v.pending_update is None
            && says(r, "no verified update is staged"@),
        (_, Outcome::Save { changed, after }) => {
            &&& after_of(req) == Some(after)
            &&& changed == is_change(v.localnet, req)
            &&& w == (ControlView { localnet: decided(v.localnet, req), ..v })
        },
        _ => false,
    }
}

fn error(t: &str) -> (r: Outcome)
    ensures
        r matches Outcome::Reply(e) && says(e, t@),
{
    Outcome::Reply(ControlResponse::Error(t.to_owned()))
}

/// The networks with one of them switched.
pub open spec fn switched(
    nets: Seq<mesh::NetworkView>,
    guild_id: u64,
    role_id: u64,
    enabled: bool,
) -> Seq<mesh::NetworkView> {
    nets.map_values(
        |n: mesh::NetworkView|
            if n.guild_id == guild_id && n.role_id == role_id {
                mesh::NetworkView { enabled, ..n }
            } else {
                n
            },
    )
}

fn switch(nets: &Vec<NetworkStatus>, guild_id: u64, role_id: u64, enabled: bool) -> (r: Vec<
    NetworkStatus,
>)
    ensures
        mesh::network_status_views(r@) == switched(
            mesh::network_status_views(nets@),
            guild_id,
            role_id,
            enabled,
        ),
{
    let ghost want = switched(mesh::network_status_views(nets@), guild_id, role_id, enabled);
    let mut out: Vec<NetworkStatus> = Vec::new();
    let mut i: usize = 0;
    assert(mesh::network_status_views(out@) =~= want.take(0));
    while i < nets.len()
        invariant
            i <= nets.len(),
            want == switched(mesh::network_status_views(nets@), guild_id, role_id, enabled),
            mesh::network_status_views(out@) == want.take(i as int),
        decreases nets.len() - i,
    {
        let mut n = nets[i].copy();
        if n.guild_id == guild_id && n.role_id == role_id {
            n.enabled = enabled;
        }
        let ghost nv = n@;
        assert(nv =~= want[i as int]);
        let ghost before = mesh::network_status_views(out@);
        out.push(n);
        assert(mesh::network_status_views(out@) =~= before.push(nv));
        assert(want.take(i + 1) =~= want.take(i as int).push(want[i as int]));
        i += 1;
    }
    assert(want.take(i as int) =~= want);
    out
}

/// What is said of a switched network.
pub open spec fn network_text(guild_id: u64, role_id: u64, enabled: bool) -> Seq<char> {
    "network "@ + text::dec(guild_id as nat) + "/"@ + text::dec(role_id as nat) + " peering "@
        + if enabled {
        "enabled"@
    } else {
        "disabled"@
    } + " (locally; syncs to coordinator on next refresh)"@
}

/// What is said of a connected or disconnected mesh.
pub open spec fn connected_text(connected: bool) -> Seq<char> {
    "mesh "@ + if connected {
        "connected"@
    } else {
        "disconnected"@
    } + " (locally; syncs to coordinator on next refresh)"@
}

/// Whether this is what is told of a saved decision, and what is shown from then on.
pub open spec fn finishes(v: ControlView, w: ControlView, after: After, r: ControlResponse) -> bool {
    match (after, r) {
        (After::Network { guild_id, role_id, enabled }, ControlResponse::Network {
            message,
            networks,
        }) => w == v && message@ == network_text(guild_id, role_id, enabled)
            && mesh::network_status_views(networks@) == switched(
            v.status.networks,
            guild_id,
            role_id,
            enabled,
        ),
        (After::Connected { connected }, ControlResponse::Connected { connected: c, message }) => w
            == v && c == connected && message@ == connected_text(connected),
        (After::Blocked, ControlResponse::Status(s)) => {
            &&& s@ == w.status
            &&& status::lists(w.status.blocked, v.localnet.blocked)
            &&& w == (ControlView {
                status: status::StatusView {
                    peers: status::unblocked(v.status.peers, v.localnet.blocked.dom()),
                    blocked: w.status.blocked,
                    ..v.status
                },
                ..v
            })
        },
        (After::NewDefault { disable }, ControlResponse::Status(s)) => s@ == w.status && w == (
        ControlView {
            status: status::StatusView { disable_new_networks: disable, ..v.status },
            ..v
        }),
        (After::OwnPeering { enabled }, ControlResponse::Status(s)) => s@ == w.status && w == (
        ControlView {
            status: status::StatusView { peer_own_devices: enabled, ..v.status },
            ..v
        }),
        _ => false,
    }
}

impl Control {
    /// The local decisions are well formed.
    pub open spec fn wf(&self) -> bool {
        self.localnet.wf()
    }

    /// What a request calls for. A decision about the mesh is taken here, and marks the mesh to be
    /// rebuilt at once; the coordinator learns of it with the next refresh.
    pub fn dispatch(&mut self, req: ControlRequest) -> (o: Outcome)
        requires
            old(self).wf(),
        ensures
            final(self).wf(),
            answers(old(self)@, final(self)@, req, o),
    {
        match req {
            ControlRequest::Status => Outcome::Reply(ControlResponse::Status(self.status.copy())),
            ControlRequest::Watch => Outcome::Watch,
            ControlRequest::Manage(op) => match &self.token {
                Some(t) => Outcome::Forward { token: t.clone(), op },
                None => error("device not enrolled yet"),
            },
            ControlRequest::Expose(op) => {
                let listing_only = match &op {
                    ExposeOp::List => true,
                    _ => false,
                };
                match &mut self.fw {
                    None => error("firewall disabled (set firewall = true)"),
                    Some(f) => match apply_expose(f, op, &self.status.networks) {
                        Err(t) => Outcome::Reply(ControlResponse::Error(t)),
                        Ok(x) => if listing_only {
                            Outcome::Reply(ControlResponse::Expose(x))
                        } else {
                            Outcome::ApplyRules(ControlResponse::Expose(x))
                        },
                    },
                }
            },
            ControlRequest::Login => Outcome::Login,
            ControlRequest::Logout => Outcome::LogOut(
                ControlResponse::Logout {
                    message: "logging out — tearing down the mesh and un-enrolling".to_owned(),
                },
            ),
            ControlRequest::ApplyUpdate => match &self.pending_update {
                Some(v) => Outcome::Update(
                    ControlResponse::Update {
                        version: v.clone(),
                        message:
                            "downloading and applying the update; the engine will restart".to_owned(),
                    },
                ),
                None => error("no verified update is staged"),
            },
            ControlRequest::SetNetwork { guild_id, role_id, enabled } => {
                let changed = self.localnet.set(guild_id, role_id, enabled);
                Outcome::Save { changed, after: After::Network { guild_id, role_id, enabled } }
            },
            ControlRequest::SetConnected { connected } => {
                let changed = self.localnet.set_paused(!connected);
                Outcome::Save { changed, after: After::Connected { connected } }
            },
            ControlRequest::BlockPeer { user_id, username } => {
                let changed = self.localnet.set_blocked(user_id, username, true);
                Outcome::Save { changed, after: After::Blocked }
            },
            ControlRequest::UnblockPeer { user_id } => {
                let changed = self.localnet.set_blocked(user_id, String::new(), false);
                Outcome::Save { changed, after: After::Blocked }
            },
            ControlRequest::SetNewNetworkDefault { disable } => {
                let changed = self.localnet.set_disable_new(disable);
                Outcome::Save { changed, after: After::NewDefault { disable } }
            },
            ControlRequest::SetOwnDevicePeering { enabled } => {
                let changed = self.localnet.set_peer_own_devices(enabled);
                Outcome::Save { changed, after: After::OwnPeering { enabled } }
            },
        }
    }

    /// The reply to a request whose decision was saved, or, with the error, was not. A saved decision
    /// is shown at once, before the mesh is rebuilt.
    pub fn finish(&mut self, after: After, failed: Option<String>) -> (r: ControlResponse)
        requires
            old(self).wf(),
        ensures
            final(self).wf(),
            match failed {
                Some(t) => final(self)@ == old(self)@ && says(r, t@),
                None => finishes(old(self)@, final(self)@, after, r),
            },
    {
        if let Some(t) = failed {
            return ControlResponse::Error(t);
        }
        match after {
            After::Network { guild_id, role_id, enabled } => {
                let mut m = "network ".to_owned();
                m.append(text::decimal(guild_id).as_str());
                m.append("/");
                m.append(text::decimal(role_id).as_str());
                m.append(" peering ");
                if enabled {
                    m.append("enabled");
                } else {
                    m.append("disabled");
                }
                m.append(" (locally; syncs to coordinator on next refresh)");
                ControlResponse::Network {
                    message: m,
                    networks: switch(&self.status.networks, guild_id, role_id, enabled),
                }
            },
            After::Connected { connected } => {
                let mut m = "mesh ".to_owned();
                if connected {
                    m.append("connected");
                } else {
                    m.append("disconnected");
                }
                m.append(" (locally; syncs to coordinator on next refresh)");
                ControlResponse::Connected { connected, message: m }
            },
            After::Blocked => {
                let blocked = self.localnet.blocked_snapshot();
                assert(blocked@.dom() =~= netcfg::text_map(blocked@).dom());
                set_blocked(&mut self.status, blocked);
                ControlResponse::Status(self.status.copy())
            },
            After::NewDefault { disable } => {
                set_disable_new(&mut self.status, disable);
                ControlResponse::Status(self.status.copy())
            },
            After::OwnPeering { enabled } => {
                set_peer_own(&mut self.status, enabled);
                ControlResponse::Status(self.status.copy())
            },
        }
    }
}

/// A request that is refused changes nothing.
pub proof fn law_refused_request_changes_nothing(
    v: ControlView,
    w: ControlView,
    req: ControlRequest,
    t: String,
)
    requires
        answers(v, w, req, Outcome::Reply(ControlResponse::Error(t))),
    ensures
        w == v,
{
}

/// A user who is blocked is shown no more, though the mesh is not rebuilt yet.
pub proof fn law_blocked_user_is_shown_no_more(
    v: ControlView,
    w: ControlView,
    r: ControlResponse,
    i: int,
)
    requires
        finishes(v, w, After::Blocked, r),
        0 <= i < w.status.peers.len(),
    ensures
        !v.localnet.blocked.contains_key(w.status.peers[i].user_id),
{
    lemma_unblocked(v.status.peers, v.localnet.blocked.dom(), i);
}

proof fn lemma_unblocked(peers: Seq<status::ShownPeer>, blocked: Set<u64>, i: int)
    requires
        0 <= i < status::unblocked(peers, blocked).len(),
    ensures
        !blocked.contains(status::unblocked(peers, blocked)[i].user_id),
    decreases peers.len(),
{
    reveal(Seq::filter);
    if peers.len() > 0 {
        if i < status::unblocked(peers.drop_last(), blocked).len() {
            lemma_unblocked(peers.drop_last(), blocked, i);
        }
    }
}

proof fn lemma_hits(
    a: Seq<mesh::NetworkView>,
    b: Seq<mesh::NetworkView>,
    n: mesh::NetworkView,
    guild: Option<Seq<char>>,
    name: Seq<char>,
)
    ensures
        hits(seq![], guild, name) == Seq::<mesh::NetworkView>::empty(),
        hits(seq![n], guild, name) == if n.name == name && (guild is None || guild->0
            == n.guild_name) {
            seq![n]
        } else {
            seq![]
        },
        hits(a + b, guild, name) == hits(a, guild, name) + hits(b, guild, name),
    decreases b.len(),
{
    reveal(Seq::filter);
    let p = |n: mesh::NetworkView| meant(n, guild, name);
    assert(seq![n].drop_last() =~= seq![]);
    assert(Seq::<mesh::NetworkView>::empty().filter(p) =~= seq![]);
    assert(hits(seq![n], guild, name) =~= if p(n) {
        seq![n]
    } else {
        seq![]
    });
    if b.len() == 0 {
        assert(a + b =~= a);
        assert(hits(a, guild, name) + hits(b, guild, name) =~= hits(a, guild, name));
    } else {
        lemma_hits(a, b.drop_last(), n, guild, name);
        assert((a + b).drop_last() =~= a + b.drop_last());
        assert(hits(a + b, guild, name) =~= hits(a, guild, name) + hits(b, guild, name));
    }
}

proof fn lemma_no_hits(held: Seq<mesh::NetworkView>, guild: Option<Seq<char>>, name: Seq<char>)
    requires
        forall|j: int|
            0 <= j < held.len() ==> (#[trigger] held[j]).name != name || (guild is Some
                && guild->0 != held[j].guild_name),
    ensures
        hits(held, guild, name).len() == 0,
    decreases held.len(),
{
    if held.len() == 0 {
        assert(held =~= seq![]);
        lemma_hits(seq![], seq![], arbitrary(), guild, name);
    } else {
        let f = held.drop_last();
        let n = held.last();
        assert forall|j: int| 0 <= j < f.len() implies (#[trigger] f[j]).name != name || (
        guild is Some && guild->0 != f[j].guild_name) by {
            assert(f[j] == held[j]);
        }
        lemma_no_hits(f, guild, name);
        lemma_hits(f, seq![n], n, guild, name);
        assert(f + seq![n] =~= held);
        assert(held[held.len() - 1] == n);
    }
}

/// A typed name is the one held network that it means: by its role, and by its community where that is
/// typed too. Where no held network is meant it is refused, and so it is where two are.
pub proof fn law_typed_name_is_the_one_it_means(
    held: Seq<mesh::NetworkView>,
    guild: Option<Seq<char>>,
    name: Seq<char>,
    i: int,
    k: int,
)
    requires
        0 <= i < held.len(),
        held[i].name == name,
        guild is Some ==> held[i].guild_name == guild->0,
    ensures
        (forall|j: int|
            0 <= j < held.len() && j != i ==> (#[trigger] held[j]).name != name || (guild is Some
                && held[j].guild_name != guild->0)) ==> resolved(
            api::ScopeView::Unresolved { guild, name },
            held,
        ) == Ok::<api::ScopeView, Seq<char>>(
            api::ScopeView::Net { guild_id: held[i].guild_id, role_id: held[i].role_id },
        ),
        i < k < held.len() && held[k].name == name && (guild is Some ==> held[k].guild_name
            == guild->0) ==> resolved(api::ScopeView::Unresolved { guild, name }, held) is Err,
{
    let a = held.take(i);
    let n = held[i];
    let b = held.skip(i + 1);
    lemma_hits(a, seq![n], n, guild, name);
    lemma_hits(a + seq![n], b, n, guild, name);
    assert(a + seq![n] + b =~= held);
    if forall|j: int|
        0 <= j < held.len() && j != i ==> (#[trigger] held[j]).name != name || (guild is Some
            && held[j].guild_name != guild->0) {
        assert forall|j: int| 0 <= j < a.len() implies (#[trigger] a[j]).name != name || (
        guild is Some && guild->0 != a[j].guild_name) by {
            assert(a[j] == held[j]);
        }
        assert forall|j: int| 0 <= j < b.len() implies (#[trigger] b[j]).name != name || (
        guild is Some && guild->0 != b[j].guild_name) by {
            assert(b[j] == held[j + i + 1]);
        }
        lemma_no_hits(a, guild, name);
        lemma_no_hits(b, guild, name);
        assert(hits(held, guild, name)[0] == n);
    }
    if i < k < held.len() && held[k].name == name && (guild is Some ==> held[k].guild_name
        == guild->0) {
        let c = b.take(k - i - 1);
        let d = b.skip(k - i);
        let m = held[k];
        lemma_hits(c, seq![m], m, guild, name);
        lemma_hits(c + seq![m], d, m, guild, name);
        assert(c + seq![m] + d =~= b);
    }
}

/// What no held network is called is refused by its name, with what is held; so is a network by its ids
/// that is not held. A held network, every peer, and the owner's devices are what they are.
pub proof fn law_only_what_is_held_is_settled(
    held: Seq<mesh::NetworkView>,
    guild: Option<Seq<char>>,
    name: Seq<char>,
    guild_id: u64,
    role_id: u64,
)
    ensures
        (forall|j: int|
            0 <= j < held.len() ==> (#[trigger] held[j]).name != name || (guild is Some
                && held[j].guild_name != guild->0)) ==> resolved(
            api::ScopeView::Unresolved { guild, name },
            held,
        ) == Err::<api::ScopeView, Seq<char>>(
            "not a member of network '"@ + name + "' (your networks: "@ + listing(held) + ")"@,
        ),
        (exists|j: int|
            0 <= j < held.len() && (#[trigger] held[j]).guild_id == guild_id && held[j].role_id
                == role_id) ==> resolved(api::ScopeView::Net { guild_id, role_id }, held) == Ok::<
            api::ScopeView,
            Seq<char>,
        >(api::ScopeView::Net { guild_id, role_id }),
        (forall|j: int|
            0 <= j < held.len() ==> (#[trigger] held[j]).guild_id != guild_id || held[j].role_id
                != role_id) ==> resolved(api::ScopeView::Net { guild_id, role_id }, held) == Err::<
            api::ScopeView,
            Seq<char>,
        >(
            "not a member of network "@ + text::dec(guild_id as nat) + "/"@ + text::dec(
                role_id as nat,
            ) + " (your networks: "@ + listing(held) + ")"@,
        ),
        resolved(api::ScopeView::AllPeers, held) == Ok::<api::ScopeView, Seq<char>>(
            api::ScopeView::AllPeers,
        ),
        resolved(api::ScopeView::OwnDevices, held) == Ok::<api::ScopeView, Seq<char>>(
            api::ScopeView::OwnDevices,
        ),
{
    if forall|j: int|
        0 <= j < held.len() ==> (#[trigger] held[j]).name != name || (guild is Some
            && held[j].guild_name != guild->0) {
        lemma_no_hits(held, guild, name);
    }
}

/// Every held network is listed by its role and its community, with a comma between any two.
pub proof fn law_every_held_network_is_listed(
    a: Seq<mesh::NetworkView>,
    b: Seq<mesh::NetworkView>,
    n: mesh::NetworkView,
)
    ensures
        listing(seq![]) == Seq::<char>::empty(),
        listing(seq![n]) == if n.guild_name.len() == 0 {
            n.name
        } else {
            n.name + " @ "@ + n.guild_name
        },
        a.len() > 0 && b.len() > 0 ==> listing(a + b) == listing(a) + ", "@ + listing(b),
{
    let f = |n: mesh::NetworkView| label_of(n);
    let none: Seq<mesh::NetworkView> = seq![];
    assert(none.map_values(f) =~= seq![]);
    assert(seq![n].map_values(f) =~= seq![label_of(n)]);
    assert((a + b).map_values(f) =~= a.map_values(f) + b.map_values(f));
    text::law_joined_part_by_part(a.map_values(f), b.map_values(f), label_of(n), ", "@);
}

/// Switching a network switches that one and no other, and nothing else of it.
pub proof fn law_one_network_is_switched(
    nets: Seq<mesh::NetworkView>,
    guild_id: u64,
    role_id: u64,
    enabled: bool,
    i: int,
)
    requires
        0 <= i < nets.len(),
    ensures
        ({
            let s = switched(nets, guild_id, role_id, enabled);
            &&& s.len() == nets.len()
            &&& s[i].name == nets[i].name
            &&& s[i].guild_name == nets[i].guild_name
            &&& s[i].guild_id == nets[i].guild_id
            &&& s[i].role_id == nets[i].role_id
            &&& s[i].enabled == if nets[i].guild_id == guild_id && nets[i].role_id == role_id {
                enabled
            } else {
                nets[i].enabled
            }
        }),
{
}

/// A decision about a network disables or enables just that network; it is saved and told if it
/// changes anything, and the mesh is then rebuilt.
pub proof fn law_decision_about_a_network(
    v: ControlView,
    w: ControlView,
    guild_id: u64,
    role_id: u64,
    enabled: bool,
    o: Outcome,
    id: (u64, u64),
)
    requires
        answers(v, w, ControlRequest::SetNetwork { guild_id, role_id, enabled }, o),
    ensures
        ({
            let news = v.localnet.disabled.contains((guild_id, role_id)) == enabled;
            &&& o == (Outcome::Save {
                changed: news,
                after: After::Network { guild_id, role_id, enabled },
            })
            &&& w.localnet.disabled.contains(id) <==> if id == (guild_id, role_id) {
                !enabled
            } else {
                v.localnet.disabled.contains(id)
            }
            &&& w.localnet.wake == (v.localnet.wake || news)
            &&& w.localnet.paused == v.localnet.paused
            &&& w.localnet.known == v.localnet.known
            &&& w.localnet.blocked == v.localnet.blocked
            &&& w.localnet.disable_new == v.localnet.disable_new
            &&& w.localnet.peer_own == v.localnet.peer_own
            &&& w.status == v.status && w.fw == v.fw && w.token == v.token && w.pending_update
                == v.pending_update
        }),
{
}

/// A decision about a user blocks the user under the name that is given, or lets the user in again, and
/// nobody else; the mesh is rebuilt where that is a change.
pub proof fn law_decision_about_a_user(
    v: ControlView,
    w: ControlView,
    user_id: u64,
    username: String,
    o: Outcome,
    u: u64,
)
    ensures
        answers(v, w, ControlRequest::BlockPeer { user_id, username }, o) ==> {
            let news = !v.localnet.blocked.contains_key(user_id);
            &&& o == (Outcome::Save { changed: news, after: After::Blocked })
            &&& w.localnet.blocked.contains_key(user_id)
            &&& w.localnet.blocked[user_id] == username@
            &&& u != user_id ==> w.localnet.blocked.contains_key(u)
                == v.localnet.blocked.contains_key(u) && w.localnet.blocked[u]
                == v.localnet.blocked[u]
            &&& w.localnet.wake == (v.localnet.wake || news)
            &&& w.localnet.disabled == v.localnet.disabled && w.localnet.paused == v.localnet.paused
            &&& w.status == v.status && w.fw == v.fw
        },
        answers(v, w, ControlRequest::UnblockPeer { user_id }, o) ==> {
            let news = v.localnet.blocked.contains_key(user_id);
            &&& o == (Outcome::Save { changed: news, after: After::Blocked })
            &&& !w.localnet.blocked.contains_key(user_id)
            &&& u != user_id ==> w.localnet.blocked.contains_key(u)
                == v.localnet.blocked.contains_key(u) && w.localnet.blocked[u]
                == v.localnet.blocked[u]
            &&& w.localnet.wake == (v.localnet.wake || news)
            &&& w.localnet.disabled == v.localnet.disabled && w.localnet.paused == v.localnet.paused
            &&& w.status == v.status && w.fw == v.fw
        },
{
}

/// The three switches are set as they are asked to be, each alone. Connecting and the peering of the
/// owner's devices rebuild the mesh where they change; how new networks start out does not.
pub proof fn law_decision_about_a_switch(v: ControlView, w: ControlView, on: bool, o: Outcome)
    ensures
        answers(v, w, ControlRequest::SetConnected { connected: on }, o) ==> {
            &&& o == (Outcome::Save {
                changed: v.localnet.paused == on,
                after: After::Connected { connected: on },
            })
            &&& w.localnet == (netcfg::LocalView {
                paused: !on,
                wake: v.localnet.wake || v.localnet.paused == on,
                ..v.localnet
            })
            &&& w.status == v.status && w.fw == v.fw
        },
        answers(v, w, ControlRequest::SetNewNetworkDefault { disable: on }, o) ==> {
            &&& o == (Outcome::Save {
                changed: v.localnet.disable_new != on,
                after: After::NewDefault { disable: on },
            })
            &&& w.localnet == (netcfg::LocalView { disable_new: on, ..v.localnet })
            &&& w.status == v.status && w.fw == v.fw
        },
        answers(v, w, ControlRequest::SetOwnDevicePeering { enabled: on }, o) ==> {
            &&& o == (Outcome::Save {
                changed: v.localnet.peer_own != on,
                after: After::OwnPeering { enabled: on },
            })
            &&& w.localnet == (netcfg::LocalView {
                peer_own: on,
                wake: v.localnet.wake || v.localnet.peer_own != on,
                ..v.localnet
            })
            &&& w.status == v.status && w.fw == v.fw
        },
{
}

/// What needs the coordinator or the caller changes nothing here: the status is told as it is, a watch
/// and a login begin, what is managed goes on under the device's token or is refused without one, and an
/// update is applied if one is ready.
pub proof fn law_what_is_passed_on(v: ControlView, w: ControlView, op: ManageOp, o: Outcome)
    ensures
        answers(v, w, ControlRequest::Status, o) ==> w == v && (o matches Outcome::Reply(r) && (
        r matches ControlResponse::Status(s) && s@ == v.status)),
        answers(v, w, ControlRequest::Watch, o) ==> w == v && o is Watch,
        answers(v, w, ControlRequest::Login, o) ==> w == v && o is Login,
        answers(v, w, ControlRequest::Logout, o) ==> w == v && (o matches Outcome::LogOut(r) && (
        r matches ControlResponse::Logout { message } && message@
            == "logging out — tearing down the mesh and un-enrolling"@)),
        answers(v, w, ControlRequest::Manage(op), o) ==> w == v && if v.token is Some {
            o matches Outcome::Forward { token, op: p } && token@ == v.token->0 && p == op
        } else {
            o matches Outcome::Reply(r) && (r matches ControlResponse::Error(t) && t@
                == "device not enrolled yet"@)
        },
        answers(v, w, ControlRequest::ApplyUpdate, o) ==> w == v && if v.pending_update is Some {
            o matches Outcome::Update(r) && (r matches ControlResponse::Update { version, message }
                && version@ == v.pending_update->0 && message@
                == "downloading and applying the update; the engine will restart"@)
        } else {
            o matches Outcome::Reply(r) && (r matches ControlResponse::Error(t) && t@
                == "no verified update is staged"@)
        },
{
}

/// Opening a port opens it to the scope that is meant, under the name and the kind that are given, and
/// closing one closes just what is asked for; either way the rules are then applied, and nothing but the
/// exposed ports changes. Without a firewall both are refused.
pub proof fn law_ports_are_opened_and_closed(
    v: ControlView,
    w: ControlView,
    op: ExposeOp,
    o: Outcome,
)
    requires
        answers(v, w, ControlRequest::Expose(op), o),
    ensures
        v.fw is None ==> w == v && (o matches Outcome::Reply(r) && (r matches ControlResponse::Error(
            t,
        ) && t@ == "firewall disabled (set firewall = true)"@)),
        op is List ==> w == v,
        v.fw is Some && !(o is ApplyRules) ==> w == v,
        o is ApplyRules ==> {
            &&& v.fw is Some
            &&& w.fw is Some
            &&& w.status == v.status && w.localnet == v.localnet && w.token == v.token
                && w.pending_update == v.pending_update
            &&& w.fw->0.peers == v.fw->0.peers
            &&& w.fw->0.max_services == v.fw->0.max_services
            &&& op matches ExposeOp::Remove { proto, port, scope } ==> w.fw->0.exposed
                == v.fw->0.exposed.filter(
                |e: fw::ExposedView| !fw::closes(e, proto, port, scope@),
            )
            &&& op matches ExposeOp::Add { proto, port, scope, name, kind } ==> {
                let named = match name {
                    Some(t) => Some(t@),
                    None => None,
                };
                &&& resolved(scope@, v.status.networks) is Ok
                &&& w.fw->0.exposed == fw::with_exposure(
                    v.fw->0.exposed,
                    fw::ExposedView {
                        proto,
                        port,
                        scope: resolved(scope@, v.status.networks)->Ok_0,
                        name: named,
                        kind,
                    },
                )
            }
        },
{
}

/// What is told once a decision is saved, and what is shown from then on.
pub proof fn law_what_is_told_of_a_decision(
    v: ControlView,
    w: ControlView,
    guild_id: u64,
    role_id: u64,
    on: bool,
    r: ControlResponse,
)
    ensures
        finishes(v, w, After::Network { guild_id, role_id, enabled: on }, r) ==> w == v && (
        r matches ControlResponse::Network { message, networks } && {
            &&& message@ == "network "@ + text::dec(guild_id as nat) + "/"@ + text::dec(
                role_id as nat,
            ) + " peering "@ + (if on {
                "enabled"@
            } else {
                "disabled"@
            }) + " (locally; syncs to coordinator on next refresh)"@
            &&& mesh::network_status_views(networks@) == switched(
                v.status.networks,
                guild_id,
                role_id,
                on,
            )
        }),
        finishes(v, w, After::Connected { connected: on }, r) ==> w == v && (
        r matches ControlResponse::Connected { connected, message } && {
            &&& connected == on
            &&& message@ == "mesh "@ + (if on {
                "connected"@
            } else {
                "disconnected"@
            }) + " (locally; syncs to coordinator on next refresh)"@
        }),
        finishes(v, w, After::NewDefault { disable: on }, r) ==> (r matches ControlResponse::Status(
            s,
        ) && s@ == w.status) && w.status == (status::StatusView {
            disable_new_networks: on,
            ..v.status
        }) && w.localnet == v.localnet && w.fw == v.fw,
        finishes(v, w, After::OwnPeering { enabled: on }, r) ==> (r matches ControlResponse::Status(
            s,
        ) && s@ == w.status) && w.status == (status::StatusView {
            peer_own_devices: on,
            ..v.status
        }) && w.localnet == v.localnet && w.fw == v.fw,
        finishes(v, w, After::Blocked, r) ==> (r matches ControlResponse::Status(s) && s@
            == w.status) && w.localnet == v.localnet && w.fw == v.fw && w.status.networks
            == v.status.networks && w.status.device == v.status.device,
{
}

/// A user who is not blocked goes on being shown, and the blocked ones are listed as they are.
pub proof fn law_others_go_on_being_shown(
    v: ControlView,
    w: ControlView,
    r: ControlResponse,
    i: int,
    u: u64,
)
    requires
        finishes(v, w, After::Blocked, r),
        0 <= i < v.status.peers.len(),
        !v.localnet.blocked.contains_key(v.status.peers[i].user_id),
    ensures
        w.status.peers.contains(v.status.peers[i]),
        v.localnet.blocked.contains_key(u) <==> exists|k: int|
            0 <= k < w.status.blocked.len() && (#[trigger] w.status.blocked[k]).user_id == u,
{
    lemma_still_shown(v.status.peers, v.localnet.blocked.dom(), i);
    if v.localnet.blocked.contains_key(u) {
        let x = status::BlockedView { user_id: u, username: v.localnet.blocked[u] };
        assert(w.status.blocked.contains(x));
        let k = choose|k: int| 0 <= k < w.status.blocked.len() && w.status.blocked[k] == x;
        assert(w.status.blocked[k].user_id == u);
    }
    if exists|k: int| 0 <= k < w.status.blocked.len() && (#[trigger] w.status.blocked[k]).user_id
        == u {
        let k = choose|k: int|
            0 <= k < w.status.blocked.len() && (#[trigger] w.status.blocked[k]).user_id == u;
        assert(w.status.blocked.contains(w.status.blocked[k]));
    }
}

proof fn lemma_still_shown(peers: Seq<status::ShownPeer>, blocked: Set<u64>, i: int)
    requires
        0 <= i < peers.len(),
        !blocked.contains(peers[i].user_id),
    ensures
        status::unblocked(peers, blocked).contains(peers[i]),
    decreases peers.len(),
{
    reveal(Seq::filter);
    let f = status::unblocked(peers.drop_last(), blocked);
    let all = status::unblocked(peers, blocked);
    if i < peers.len() - 1 {
        lemma_still_shown(peers.drop_last(), blocked, i);
        let k = choose|k: int| 0 <= k < f.len() && f[k] == peers[i];
        assert(all[k] == peers[i]);
    } else {
        assert(all.last() == peers[i]);
    }
}

/// An exposed port is told of by the label under which it is listed, and one that is not listed by what
/// its scope is called.
pub proof fn law_label_of_an_exposed_port(
    ports: Seq<fw::PortView>,
    proto: Proto,
    port: u16,
    scope: api::ScopeView,
)
    ensures
        (forall|j: int|
            0 <= j < ports.len() ==> (#[trigger] ports[j]).proto != proto || ports[j].port != port
                || ports[j].scope != scope) ==> label_from(ports, proto, port, scope, 0)
            == scope.fallback_label(),
        forall|i: int|
            0 <= i < ports.len() && (#[trigger] ports[i]).proto == proto && ports[i].port == port
                && ports[i].scope == scope && (forall|j: int|
                0 <= j < i ==> (#[trigger] ports[j]).proto != proto || ports[j].port != port
                    || ports[j].scope != scope) ==> label_from(ports, proto, port, scope, 0)
                == ports[i].label,
{
    if forall|j: int|
        0 <= j < ports.len() ==> (#[trigger] ports[j]).proto != proto || ports[j].port != port
            || ports[j].scope != scope {
        lemma_label_at(ports, proto, port, scope, 0, ports.len() as int);
    }
    assert forall|i: int|
        0 <= i < ports.len() && (#[trigger] ports[i]).proto == proto && ports[i].port == port
            && ports[i].scope == scope && (forall|j: int|
            0 <= j < i ==> (#[trigger] ports[j]).proto != proto || ports[j].port != port
                || ports[j].scope != scope) implies label_from(ports, proto, port, scope, 0)
        == ports[i].label by {
        lemma_label_at(ports, proto, port, scope, 0, i);
    }
}

proof fn lemma_label_at(
    ports: Seq<fw::PortView>,
    proto: Proto,
    port: u16,
    scope: api::ScopeView,
    i: int,
    k: int,
)
    requires
        0 <= i <= k <= ports.len(),
        forall|j: int|
            i <= j < k ==> (#[trigger] ports[j]).proto != proto || ports[j].port != port
                || ports[j].scope != scope,
        k < ports.len() ==> ports[k].proto == proto && ports[k].port == port && ports[k].scope
            == scope,
    ensures
        label_from(ports, proto, port, scope, i) == if k < ports.len() {
            ports[k].label
        } else {
            scope.fallback_label()
        },
    decreases k - i,
{
    if i < k {
        assert(ports[i].proto != proto || ports[i].port != port || ports[i].scope != scope);
        lemma_label_at(ports, proto, port, scope, i + 1, k);
    }
}

/// What is said when a name is refused.
pub proof fn law_why_a_name_is_refused(n: Seq<char>, max: usize)
    ensures
        refusal(ExposeError::BadLabel, Some(n), max) == "'"@ + n + "' is not a service label"@,
        refusal(ExposeError::TooManyNames, Some(n), max) == "this device already serves "@
            + text::dec(max as nat) + " named services, the most one device may announce"@,
{
}

} // verus!
