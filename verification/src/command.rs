//! What each command asks of a running daemon, and what it says of the answers.
//!
//! A command is one request and its answer, or two where a name has to be looked up first. The caller
//! carries them over the control channel and prints the lines.
use crate::api::{ExposeScope, RemoveScope, ServiceKind};
use crate::control::client::{
    self, client_apply_update, client_expose, client_login, client_manage, client_set_blocked,
    client_set_connected, client_set_network, client_set_own_device_peering, client_status, Reply,
};
use crate::control::server::{ControlRequest, ExposeOp, ManageOp};
use crate::control::status;
use crate::ctl::{
    self, expose_scope, find_blocked, find_network, find_user, network_line, parse_port,
    print_devices, print_exposed, remove_scope, status_lines,
};
use crate::fw;
use crate::mesh::{self, SelfDevice};
use crate::net::{self, v4_text};
use crate::text;
use vstd::prelude::*;
use vstd::string::*;

verus! {

/// A command for a running daemon.
pub enum CtlCmd {
    Status,
    Devices,
    Rename { new_name: String },
    SetPrimary { device: String },
    Remove { device: String },
    Expose { port: String, net: Option<String>, guild: Option<String>, own_devices: bool },
    Unexpose { port: String, net: Option<String>, guild: Option<String>, own_devices: bool },
    Exposes,
    Login,
    Connect,
    Disconnect,
    Update,
    Net { enabled: bool, network: String },
    OwnDevices { enabled: bool },
    Block { user: String },
    Unblock { user: String },
}

/// Whether a scope is the one that the words of a command name.
pub open spec fn names_scope(
    s: ExposeScope,
    net: Option<String>,
    guild: Option<String>,
    own_devices: bool,
) -> bool {
    match (net, own_devices) {
        (_, true) => s == ExposeScope::OwnDevices,
        (Some(n), false) => s matches ExposeScope::Unresolved { guild: g, name } && name@ == n@
            && text::opt_text(g) == text::opt_text(guild),
        (None, false) => s == ExposeScope::AllPeers,
    }
}

/// Whether what is to be closed is what the words of a command name.
pub open spec fn names_closing(
    s: RemoveScope,
    net: Option<String>,
    guild: Option<String>,
    own_devices: bool,
) -> bool {
    if net is None && !own_devices {
        s is All
    } else {
        s matches RemoveScope::Exact(x) && names_scope(x, net, guild, own_devices)
    }
}

/// Whether this is what a port argument says.
pub open spec fn says_port(arg: Seq<char>, proto: crate::api::Proto, port: u16) -> bool {
    let (p, n) = ctl::port_parts(arg);
    p == Some(proto) && text::uint(n, 65535) == Some(port as nat)
}

/// Whether a port argument says nothing.
pub open spec fn says_no_port(arg: Seq<char>) -> bool {
    let (p, n) = ctl::port_parts(arg);
    p is None || text::uint(n, 65535) is None
}

/// Whether this is what a command asks first.
pub open spec fn asks(cmd: CtlCmd, r: ControlRequest) -> bool {
    match cmd {
        CtlCmd::Status | CtlCmd::Net { .. } | CtlCmd::Block { .. } | CtlCmd::Unblock { .. } => r
            == ControlRequest::Status,
        CtlCmd::Devices => r == ControlRequest::Manage(ManageOp::List),
        CtlCmd::Rename { new_name } => r matches ControlRequest::Manage(ManageOp::Rename {
            new_name: n,
        }) && n@ == new_name@,
        CtlCmd::SetPrimary { device } => r matches ControlRequest::Manage(ManageOp::SetPrimary {
            device_name,
        }) && device_name@ == device@,
        CtlCmd::Remove { device } => r matches ControlRequest::Manage(ManageOp::Remove {
            device_name,
        }) && device_name@ == device@,
        CtlCmd::Expose { port, net, guild, own_devices } => r matches ControlRequest::Expose(
            ExposeOp::Add { proto, port: k, scope, name, kind },
        ) && says_port(port@, proto, k) && names_scope(scope, net, guild, own_devices) && name
            is None && kind == ServiceKind::Port,
        CtlCmd::Unexpose { port, net, guild, own_devices } => r matches ControlRequest::Expose(
            ExposeOp::Remove { proto, port: k, scope },
        ) && says_port(port@, proto, k) && names_closing(scope, net, guild, own_devices),
        CtlCmd::Exposes => r == ControlRequest::Expose(ExposeOp::List),
        CtlCmd::Login => r == ControlRequest::Login,
        CtlCmd::Connect => r == (ControlRequest::SetConnected { connected: true }),
        CtlCmd::Disconnect => r == (ControlRequest::SetConnected { connected: false }),
        CtlCmd::Update => r == ControlRequest::ApplyUpdate,
        CtlCmd::OwnDevices { enabled } => r == (ControlRequest::SetOwnDevicePeering { enabled }),
    }
}

/// What is said of a port argument that says nothing.
pub open spec fn port_trouble(arg: Seq<char>) -> Seq<char> {
    match (ctl::port_parts(arg).0, text::split_once(arg, '/')) {
        (None, Some((p, _))) => "bad protocol '"@ + text::lower(p) + "' (use tcp or udp)"@,
        _ => "bad port '"@ + ctl::port_parts(arg).1 + "'"@,
    }
}

/// Why a command cannot be asked at all: its port is no port.
pub open spec fn unaskable(cmd: CtlCmd) -> Option<Seq<char>> {
    match cmd {
        CtlCmd::Expose { port, .. } | CtlCmd::Unexpose { port, .. } => if says_no_port(port@) {
            Some(port_trouble(port@))
        } else {
            None
        },
        _ => None,
    }
}

/// What a command asks first; or why it cannot be asked.
pub fn begin(cmd: &CtlCmd) -> (r: Result<ControlRequest, String>)
    ensures
        match r {
            Ok(q) => unaskable(*cmd) is None && asks(*cmd, q),
            Err(t) => unaskable(*cmd) == Some(t@),
        },
{
    let q = match cmd {
        CtlCmd::Status | CtlCmd::Net { .. } | CtlCmd::Block { .. } | CtlCmd::Unblock { .. } =>
            ControlRequest::Status,
        CtlCmd::Devices => ControlRequest::Manage(ManageOp::List),
        CtlCmd::Rename { new_name } => ControlRequest::Manage(
            ManageOp::Rename { new_name: new_name.clone() },
        ),
        CtlCmd::SetPrimary { device } => ControlRequest::Manage(
            ManageOp::SetPrimary { device_name: device.clone() },
        ),
        CtlCmd::Remove { device } => ControlRequest::Manage(
            ManageOp::Remove { device_name: device.clone() },
        ),
        CtlCmd::Expose { port, net, guild, own_devices } => {
            match parse_port(port.as_str()) {
                Ok((proto, k)) => ControlRequest::Expose(
                    ExposeOp::Add {
                        proto,
                        port: k,
                        scope: expose_scope(net.clone(), guild.clone(), *own_devices),
                        name: None,
                        kind: ServiceKind::Port,
                    },
                ),
                Err(e) => {
                    return Err(e.to_text());
                },
            }
        },
        CtlCmd::Unexpose { port, net, guild, own_devices } => {
            match parse_port(port.as_str()) {
                Ok((proto, k)) => ControlRequest::Expose(
                    ExposeOp::Remove {
                        proto,
                        port: k,
                        scope: remove_scope(net.clone(), guild.clone(), *own_devices),
                    },
                ),
                Err(e) => {
                    return Err(e.to_text());
                },
            }
        },
        CtlCmd::Exposes => ControlRequest::Expose(ExposeOp::List),
        CtlCmd::Login => ControlRequest::Login,
        CtlCmd::Connect => ControlRequest::SetConnected { connected: true },
        CtlCmd::Disconnect => ControlRequest::SetConnected { connected: false },
        CtlCmd::Update => ControlRequest::ApplyUpdate,
        CtlCmd::OwnDevices { enabled } => ControlRequest::SetOwnDevicePeering { enabled: *enabled },
    };
    Ok(q)
}

/// What comes of an answer.
pub enum CtlNext {
    /// It is all said.
    Done(Vec<String>),
    /// There is more to ask.
    Ask(ControlRequest),
}

/// What comes of an answer, as a model.
#[verifier::ext_equal]
pub enum NextView {
    Done(Seq<Seq<char>>),
    Switch { guild_id: u64, role_id: u64, enabled: bool },
    Block { user_id: u64, username: Seq<char> },
    Unblock { user_id: u64 },
    Fail(Seq<char>),
}

/// Whether a result is the one of the model.
pub open spec fn comes_to(r: Result<CtlNext, String>, v: NextView) -> bool {
    match v {
        NextView::Done(lines) => r matches Ok(CtlNext::Done(l)) && text::texts(l@) == lines,
        NextView::Switch { guild_id, role_id, enabled } => r == Ok::<CtlNext, String>(
            CtlNext::Ask(ControlRequest::SetNetwork { guild_id, role_id, enabled }),
        ),
        NextView::Block { user_id, username } => r matches Ok(
            CtlNext::Ask(ControlRequest::BlockPeer { user_id: u, username: n }),
        ) && u == user_id && n@ == username,
        NextView::Unblock { user_id } => r == Ok::<CtlNext, String>(
            CtlNext::Ask(ControlRequest::UnblockPeer { user_id }),
        ),
        NextView::Fail(t) => r matches Err(x) && x@ == t,
    }
}

/// The lines of the answer about networks.
pub open spec fn network_lines(message: Seq<char>, nets: Seq<mesh::NetworkView>) -> Seq<Seq<char>> {
    seq![message] + nets.map_values(
        |n: mesh::NetworkView|
            "  "@ + n.name + " ["@ + if n.enabled {
                "on"@
            } else {
                "off"@
            } + "]"@,
    )
}

/// What comes of the status that a name is looked up in.
pub open spec fn looked_up(cmd: CtlCmd, s: status::StatusView) -> NextView {
    match cmd {
        CtlCmd::Net { enabled, network } => {
            let i = ctl::network_from(s.networks, network@, 0);
            if i < s.networks.len() {
                NextView::Switch {
                    guild_id: s.networks[i].guild_id,
                    role_id: s.networks[i].role_id,
                    enabled,
                }
            } else {
                NextView::Fail(
                    "no network named '"@ + network@ + "' (yours: "@ + text::join(
                        s.networks.map_values(|n: mesh::NetworkView| n.name),
                        ", "@,
                    ) + ")"@,
                )
            }
        },
        CtlCmd::Block { user } => {
            let i = ctl::user_from(s.peers, user@, 0);
            if i < s.peers.len() {
                NextView::Block { user_id: s.peers[i].user_id, username: user@ }
            } else {
                NextView::Fail("no peer with handle '"@ + user@ + "'"@)
            }
        },
        CtlCmd::Unblock { user } => {
            let i = ctl::blocked_from(s.blocked, user@, 0);
            if i < s.blocked.len() {
                NextView::Unblock { user_id: s.blocked[i].user_id }
            } else {
                NextView::Fail("no blocked user with handle '"@ + user@ + "'"@)
            }
        },
        _ => NextView::Done(seq![]),
    }
}

/// What comes of the answer to a command's first request.
pub open spec fn answered(
    cmd: CtlCmd,
    reply: Reply,
    endpoints: Seq<Option<Seq<char>>>,
) -> NextView {
    match (cmd, reply) {
        (CtlCmd::Status, Reply::Status(s)) => NextView::Done(ctl::shown_lines(s@, endpoints)),
        (
            CtlCmd::Devices
            | CtlCmd::Rename { .. }
            | CtlCmd::SetPrimary { .. }
            | CtlCmd::Remove { .. },
            Reply::Manage(m),
        ) => NextView::Done(
            seq![m.message@] + m.devices@.map_values(|d: ctl::OwnedDevice| ctl::owned_line(d)),
        ),
        (CtlCmd::Expose { .. } | CtlCmd::Unexpose { .. } | CtlCmd::Exposes, Reply::Expose(e)) =>
            NextView::Done(ctl::exposed_lines(e.message@, fw::port_views(e.exposed@))),
        (CtlCmd::Login, Reply::Login(l)) => NextView::Done(
            seq![
                "Open this URL to log in with Discord:\n\n  "@ + l.authorize_url@ + "\n"@,
                "The daemon binds this device once you complete the browser step."@,
            ],
        ),
        (CtlCmd::Connect | CtlCmd::Disconnect, Reply::Connected(c)) => NextView::Done(
            seq![c.message@],
        ),
        (CtlCmd::Update, Reply::Update(u)) => NextView::Done(
            seq![u.message@ + " (v"@ + u.version@ + ")"@],
        ),
        (CtlCmd::OwnDevices { .. }, Reply::Status(s)) => NextView::Done(
            seq![
                "own-device peering "@ + if s.peer_own_devices {
                    "on"@
                } else {
                    "off"@
                } + " (locally; syncs to coordinator on next refresh)"@,
            ],
        ),
        (
            CtlCmd::Net { .. } | CtlCmd::Block { .. } | CtlCmd::Unblock { .. },
            Reply::Status(s),
        ) => looked_up(cmd, s@),
        (_, other) => NextView::Fail(client::trouble(other)),
    }
}

/// What a command makes of the answer to its first request. `endpoints` are the peers' endpoints as
/// text, one for each peer of a status.
pub fn proceed(cmd: &CtlCmd, reply: Reply, endpoints: &Vec<Option<String>>) -> (r: Result<
    CtlNext,
    String,
>)
    requires
        reply matches Reply::Status(s) ==> s.peers@.len() == endpoints@.len(),
    ensures
        comes_to(r, answered(*cmd, reply, ctl::opt_texts(endpoints@))),
{
    match cmd {
        CtlCmd::Status => match client_status(reply) {
            Ok(s) => Ok(CtlNext::Done(status_lines(&s, endpoints))),
            Err(t) => Err(t),
        },
        CtlCmd::Devices
        | CtlCmd::Rename { .. }
        | CtlCmd::SetPrimary { .. }
        | CtlCmd::Remove { .. } => match client_manage(reply) {
            Ok(m) => Ok(CtlNext::Done(print_devices(m.message.as_str(), &m.devices))),
            Err(t) => Err(t),
        },
        CtlCmd::Expose { .. } | CtlCmd::Unexpose { .. } | CtlCmd::Exposes => match client_expose(
            reply,
        ) {
            Ok(e) => Ok(CtlNext::Done(print_exposed(&e))),
            Err(t) => Err(t),
        },
        CtlCmd::Login => match client_login(reply) {
            Ok(l) => {
                let mut t = "Open this URL to log in with Discord:\n\n  ".to_owned();
                t.append(l.authorize_url.as_str());
                t.append("\n");
                let mut out: Vec<String> = Vec::new();
                assert(text::texts(out@) =~= seq![]);
                text::push_text(&mut out, t);
                text::push_text(
                    &mut out,
                    "The daemon binds this device once you complete the browser step.".to_owned(),
                );
                assert(text::texts(out@) =~= seq![
                    "Open this URL to log in with Discord:\n\n  "@ + l.authorize_url@ + "\n"@,
                    "The daemon binds this device once you complete the browser step."@,
                ]);
                Ok(CtlNext::Done(out))
            },
            Err(t) => Err(t),
        },
        CtlCmd::Connect | CtlCmd::Disconnect => match client_set_connected(reply) {
            Ok(c) => Ok(CtlNext::Done(one_line(c.message))),
            Err(t) => Err(t),
        },
        CtlCmd::Update => match client_apply_update(reply) {
            Ok(u) => {
                let mut t = u.message.clone();
                t.append(" (v");
                t.append(u.version.as_str());
                t.append(")");
                Ok(CtlNext::Done(one_line(t)))
            },
            Err(t) => Err(t),
        },
        CtlCmd::OwnDevices { .. } => match client_set_own_device_peering(reply) {
            Ok(s) => {
                let mut t = "own-device peering ".to_owned();
                if s.peer_own_devices {
                    t.append("on");
                } else {
                    t.append("off");
                }
                t.append(" (locally; syncs to coordinator on next refresh)");
                Ok(CtlNext::Done(one_line(t)))
            },
            Err(t) => Err(t),
        },
        CtlCmd::Net { enabled, network } => match client_status(reply) {
            Ok(s) => match find_network(&s.networks, network.as_str()) {
                Ok((guild_id, role_id)) => Ok(
                    CtlNext::Ask(
                        ControlRequest::SetNetwork { guild_id, role_id, enabled: *enabled },
                    ),
                ),
                Err(t) => Err(t),
            },
            Err(t) => Err(t),
        },
        CtlCmd::Block { user } => match client_status(reply) {
            Ok(s) => match find_user(&s.peers, user.as_str()) {
                Ok(id) => Ok(CtlNext::Ask(client_set_blocked(id, Some(user.clone())))),
                Err(t) => Err(t),
            },
            Err(t) => Err(t),
        },
        CtlCmd::Unblock { user } => match client_status(reply) {
            Ok(s) => match find_blocked(&s.blocked, user.as_str()) {
                Ok(id) => Ok(CtlNext::Ask(client_set_blocked(id, None))),
                Err(t) => Err(t),
            },
            Err(t) => Err(t),
        },
    }
}

fn one_line(t: String) -> (r: Vec<String>)
    ensures
        text::texts(r@) == seq![t@],
{
    let mut out: Vec<String> = Vec::new();
    assert(text::texts(out@) =~= seq![]);
    let ghost tv = t@;
    text::push_text(&mut out, t);
    assert(text::texts(out@) =~= seq![tv]);
    out
}

/// What comes of the answer to a command's second request.
pub open spec fn finished(cmd: CtlCmd, reply: Reply) -> NextView {
    match (cmd, reply) {
        (CtlCmd::Net { .. }, Reply::Network(n)) => NextView::Done(
            network_lines(n.message@, mesh::network_status_views(n.networks@)),
        ),
        (CtlCmd::Block { user }, Reply::Status(s)) => NextView::Done(
            seq!["blocked "@ + user@ + " ("@ + text::dec(s.blocked@.len()) + " user(s) blocked)"@],
        ),
        (CtlCmd::Unblock { user }, Reply::Status(_)) => NextView::Done(
            seq!["un-blocked "@ + user@],
        ),
        (_, other) => NextView::Fail(client::trouble(other)),
    }
}

/// What a command makes of the answer to its second request.
pub fn finish(cmd: &CtlCmd, reply: Reply) -> (r: Result<CtlNext, String>)
    requires
        cmd is Net || cmd is Block || cmd is Unblock,
    ensures
        comes_to(r, finished(*cmd, reply)),
{
    match cmd {
        CtlCmd::Net { .. } => match client_set_network(reply) {
            Ok(n) => {
                let ghost nets = mesh::network_status_views(n.networks@);
                let ghost want = network_lines(n.message@, nets);
                let mut out: Vec<String> = one_line(n.message.clone());
                assert(text::texts(out@) =~= want.take(1));
                let mut i: usize = 0;
                while i < n.networks.len()
                    invariant
                        i <= n.networks.len(),
                        nets == mesh::network_status_views(n.networks@),
                        want == network_lines(n.message@, nets),
                        text::texts(out@) == want.take(i + 1),
                    decreases n.networks.len() - i,
                {
                    assert(nets[i as int] == n.networks@[i as int]@);
                    let t = network_line(&n.networks[i]);
                    assert(t@ == want[i + 1]);
                    text::push_text(&mut out, t);
                    assert(text::texts(out@) =~= want.take(i + 2));
                    i += 1;
                }
                assert(want.take(i + 1) =~= want);
                Ok(CtlNext::Done(out))
            },
            Err(t) => Err(t),
        },
        CtlCmd::Block { user } => match client_status(reply) {
            Ok(s) => {
                let mut t = "blocked ".to_owned();
                t.append(user.as_str());
                t.append(" (");
                t.append(text::decimal(s.blocked.len() as u64).as_str());
                t.append(" user(s) blocked)");
                Ok(CtlNext::Done(one_line(t)))
            },
            Err(t) => Err(t),
        },
        _ => match client_status(reply) {
            Ok(_) => {
                let mut t = "un-blocked ".to_owned();
                if let CtlCmd::Unblock { user } = cmd {
                    t.append(user.as_str());
                }
                Ok(CtlNext::Done(one_line(t)))
            },
            Err(t) => Err(t),
        },
    }
}

/// The device that a registration found.
pub open spec fn device_line(d: mesh::DeviceView) -> Seq<char> {
    "  "@ + ctl::padded(net::dotted(d.wg_ip), 16) + " "@ + ctl::padded(d.hostname, 44) + " ["@
        + d.community_name + " · networks: "@ + text::join(d.networks, ", "@) + "]"@
}

/// The line of the device that a registration found.
pub fn registered_line(d: &SelfDevice) -> (r: String)
    ensures
        r@ == device_line(d@),
{
    let mut t = "  ".to_owned();
    t.append(ctl::pad(v4_text(d.wg_ip).as_str(), 16).as_str());
    t.append(" ");
    t.append(ctl::pad(d.hostname.as_str(), 44).as_str());
    t.append(" [");
    t.append(d.community_name.as_str());
    t.append(" · networks: ");
    t.append(text::join_with(&d.networks, ", ").as_str());
    t.append("]");
    t
}

/// What is said once a login is through.
pub fn logged_in_line(d: &Option<SelfDevice>) -> (r: String)
    ensures
        r@ == match *d {
            Some(x) => "Logged in ✓  "@ + net::dotted(x@.wg_ip) + " — "@ + x@.hostname,
            None => "Logged in ✓  (no networks yet — join a role in Discord)"@,
        },
{
    match d {
        Some(x) => {
            let mut t = "Logged in ✓  ".to_owned();
            t.append(v4_text(x.wg_ip).as_str());
            t.append(" — ");
            t.append(x.hostname.as_str());
            t
        },
        None => "Logged in ✓  (no networks yet — join a role in Discord)".to_owned(),
    }
}

/// What removing the engine comes to.
pub struct Uninstall {
    /// The token and the operation to have the coordinator drop this device by.
    pub leave: Option<(String, ManageOp)>,
    /// Whether the local state is wiped.
    pub wipe: bool,
    /// What is said at the end.
    pub message: String,
}

/// What removing the engine comes to. A device without a token is not enrolled. The local state is
/// kept for another installation, unless it is to be purged.
pub fn uninstall(token: Option<String>, device_name: String, state_dir: &str, purge: bool) -> (r:
    Uninstall)
    ensures
        match token {
            Some(t) => r.leave matches Some((a, ManageOp::Remove { device_name: n })) && a@ == t@
                && n@ == device_name@,
            None => r.leave is None,
        },
        r.wipe == purge,
        r.message@ == if purge {
            "Wiped local state at "@ + state_dir@ + "."@
        } else {
            "Kept local state (device identity) at "@ + state_dir@
                + " — pass --purge to wipe it."@
        },
{
    let leave = match token {
        Some(t) => Some((t, ManageOp::Remove { device_name })),
        None => None,
    };
    let message = if purge {
        let mut t = "Wiped local state at ".to_owned();
        t.append(state_dir);
        t.append(".");
        t
    } else {
        let mut t = "Kept local state (device identity) at ".to_owned();
        t.append(state_dir);
        t.append(" — pass --purge to wipe it.");
        t
    };
    Uninstall { leave, wipe: purge, message }
}

/// An error that the daemon gives is what a command ends with, whatever it asked.
pub proof fn law_daemon_errors_are_told(
    cmd: CtlCmd,
    e: String,
    endpoints: Seq<Option<Seq<char>>>,
)
    ensures
        answered(cmd, Reply::Error(e), endpoints) == NextView::Fail(e@),
        finished(cmd, Reply::Error(e)) == NextView::Fail(e@),
{
}

/// A second request is made only for a name that was found, and only to block, let in or switch it.
pub proof fn law_only_names_are_looked_up(
    cmd: CtlCmd,
    reply: Reply,
    endpoints: Seq<Option<Seq<char>>>,
)
    requires
        !(cmd is Net || cmd is Block || cmd is Unblock),
    ensures
        answered(cmd, reply, endpoints) is Done || answered(cmd, reply, endpoints) is Fail,
{
}

/// What each command asks: as many words as it takes, each where it belongs. What a name stands for is
/// looked up in the status first.
pub proof fn law_what_a_command_asks(cmd: CtlCmd, r: ControlRequest)
    requires
        asks(cmd, r),
    ensures
        cmd is Status || cmd is Net || cmd is Block || cmd is Unblock ==> r is Status,
        cmd is Devices ==> r is Manage && r->Manage_0 is List,
        cmd matches CtlCmd::Rename { new_name } ==> (r matches ControlRequest::Manage(op) && (
        op matches ManageOp::Rename { new_name: n } && n@ == new_name@)),
        cmd matches CtlCmd::SetPrimary { device } ==> (r matches ControlRequest::Manage(op) && (
        op matches ManageOp::SetPrimary { device_name } && device_name@ == device@)),
        cmd matches CtlCmd::Remove { device } ==> (r matches ControlRequest::Manage(op) && (
        op matches ManageOp::Remove { device_name } && device_name@ == device@)),
        cmd is Exposes ==> r is Expose && r->Expose_0 is List,
        cmd is Login ==> r is Login,
        cmd is Connect ==> r == (ControlRequest::SetConnected { connected: true }),
        cmd is Disconnect ==> r == (ControlRequest::SetConnected { connected: false }),
        cmd is Update ==> r is ApplyUpdate,
        cmd matches CtlCmd::OwnDevices { enabled } ==> r == (ControlRequest::SetOwnDevicePeering {
            enabled,
        }),
{
}

/// What is exposed is the port that was typed, without a name, to whom the words say: to the owner's
/// devices, to the network that is named, or to everyone.
pub proof fn law_what_is_asked_to_be_exposed(
    port: String,
    net: Option<String>,
    guild: Option<String>,
    own_devices: bool,
    r: ControlRequest,
)
    requires
        asks(CtlCmd::Expose { port, net, guild, own_devices }, r),
    ensures
        r matches ControlRequest::Expose(op) && (op matches ExposeOp::Add {
            proto,
            port: k,
            scope,
            name,
            kind,
        } && {
            &&& ctl::port_parts(port@).0 == Some(proto)
            &&& text::uint(ctl::port_parts(port@).1, 65535) == Some(k as nat)
            &&& name is None
            &&& kind == ServiceKind::Port
            &&& own_devices ==> scope is OwnDevices
            &&& !own_devices && net is None ==> scope is AllPeers
            &&& !own_devices && net is Some ==> (scope matches ExposeScope::Unresolved {
                guild: g,
                name: n,
            } && n@ == net->0@ && (guild is Some <==> g is Some) && (guild is Some ==> g->0@
                == guild->0@))
        }),
{
}

/// What is closed is the port that was typed: of whom the words say, and where they say nobody of
/// everyone that it is open to.
pub proof fn law_what_is_asked_to_be_closed(
    port: String,
    net: Option<String>,
    guild: Option<String>,
    own_devices: bool,
    r: ControlRequest,
)
    requires
        asks(CtlCmd::Unexpose { port, net, guild, own_devices }, r),
    ensures
        r matches ControlRequest::Expose(op) && (op matches ExposeOp::Remove {
            proto,
            port: k,
            scope,
        } && {
            &&& ctl::port_parts(port@).0 == Some(proto)
            &&& text::uint(ctl::port_parts(port@).1, 65535) == Some(k as nat)
            &&& !own_devices && net is None ==> scope is All
            &&& own_devices ==> (scope matches RemoveScope::Exact(x) && x is OwnDevices)
            &&& !own_devices && net is Some ==> (scope matches RemoveScope::Exact(x) && (
            x matches ExposeScope::Unresolved { guild: g, name: n } && n@ == net->0@))
        }),
{
}

/// A command cannot be asked if and only if it is about a port and what was typed is none; it is told
/// what was wrong with it.
pub proof fn law_when_a_command_cannot_be_asked(
    cmd: CtlCmd,
    port: String,
    net: Option<String>,
    guild: Option<String>,
    own: bool,
    proto: Seq<char>,
    n: Seq<char>,
)
    requires
        !proto.contains('/'),
        !n.contains('/'),
    ensures
        !(cmd is Expose) && !(cmd is Unexpose) ==> unaskable(cmd) is None,
        unaskable(CtlCmd::Expose { port, net, guild, own_devices: own }) == unaskable(
            CtlCmd::Unexpose { port, net, guild, own_devices: own },
        ),
        port@ == n ==> unaskable(CtlCmd::Expose { port, net, guild, own_devices: own })
            == if text::uint(n, 65535) is Some {
            None
        } else {
            Some("bad port '"@ + n + "'"@)
        },
        port@ == proto + seq!['/'] + n && (text::lower(proto) == "tcp"@ || text::lower(proto)
            == "udp"@) ==> unaskable(CtlCmd::Expose { port, net, guild, own_devices: own })
            == if text::uint(n, 65535) is Some {
            None
        } else {
            Some("bad port '"@ + n + "'"@)
        },
        port@ == proto + seq!['/'] + n && text::lower(proto) != "tcp"@ && text::lower(proto)
            != "udp"@ ==> unaskable(CtlCmd::Expose { port, net, guild, own_devices: own }) == Some(
            "bad protocol '"@ + text::lower(proto) + "' (use tcp or udp)"@,
        ),
{
    ctl::law_how_a_port_is_typed(proto, n);
    text::law_split_at_the_first(proto, n, '/');
    text::law_split_at_the_first(n, proto, '/');
}

/// A name that is found in the status is asked about by its number, and one that is not is told so.
pub proof fn law_names_are_asked_about_by_number(
    s: status::StatusView,
    enabled: bool,
    name: String,
    i: int,
)
    ensures
        0 <= i < s.networks.len() && s.networks[i].name == name@ && (forall|j: int|
            0 <= j < i ==> (#[trigger] s.networks[j]).name != name@) ==> looked_up(
            CtlCmd::Net { enabled, network: name },
            s,
        ) == (NextView::Switch {
            guild_id: s.networks[i].guild_id,
            role_id: s.networks[i].role_id,
            enabled,
        }),
        (forall|j: int| 0 <= j < s.networks.len() ==> (#[trigger] s.networks[j]).name != name@)
            ==> looked_up(CtlCmd::Net { enabled, network: name }, s) is Fail,
        0 <= i < s.peers.len() && s.peers[i].username == name@ && (forall|j: int|
            0 <= j < i ==> (#[trigger] s.peers[j]).username != name@) ==> looked_up(
            CtlCmd::Block { user: name },
            s,
        ) == (NextView::Block { user_id: s.peers[i].user_id, username: name@ }),
        (forall|j: int| 0 <= j < s.peers.len() ==> (#[trigger] s.peers[j]).username != name@)
            ==> looked_up(CtlCmd::Block { user: name }, s) == NextView::Fail(
            "no peer with handle '"@ + name@ + "'"@,
        ),
        0 <= i < s.blocked.len() && s.blocked[i].username == name@ && (forall|j: int|
            0 <= j < i ==> (#[trigger] s.blocked[j]).username != name@) ==> looked_up(
            CtlCmd::Unblock { user: name },
            s,
        ) == (NextView::Unblock { user_id: s.blocked[i].user_id }),
        (forall|j: int| 0 <= j < s.blocked.len() ==> (#[trigger] s.blocked[j]).username != name@)
            ==> looked_up(CtlCmd::Unblock { user: name }, s) == NextView::Fail(
            "no blocked user with handle '"@ + name@ + "'"@,
        ),
{
    ctl::law_found_by_name(s.networks, s.peers, s.blocked, name@);
    let a = ctl::network_from(s.networks, name@, 0);
    let b = ctl::user_from(s.peers, name@, 0);
    let c = ctl::blocked_from(s.blocked, name@, 0);
    if 0 <= i < a {
        assert(s.networks[i].name != name@);
    }
    if 0 <= i < b {
        assert(s.peers[i].username != name@);
    }
    if 0 <= i < c {
        assert(s.blocked[i].username != name@);
    }
}

/// Each network is listed with whether it is on, behind what is said of them.
pub proof fn law_each_network_is_listed(message: Seq<char>, nets: Seq<mesh::NetworkView>, i: int)
    requires
        0 <= i < nets.len(),
    ensures
        network_lines(message, nets).len() == nets.len() + 1,
        network_lines(message, nets)[0] == message,
        network_lines(message, nets)[i + 1] == "  "@ + nets[i].name + " ["@ + (if nets[i].enabled {
            "on"@
        } else {
            "off"@
        }) + "]"@,
{
}

/// What is told of each answer that fits its command, and that any other is a failure.
pub proof fn law_what_is_told_of_an_answer(
    cmd: CtlCmd,
    reply: Reply,
    endpoints: Seq<Option<Seq<char>>>,
)
    ensures
        cmd is Status && (reply is Status) ==> answered(cmd, reply, endpoints) == NextView::Done(
            ctl::shown_lines(reply->Status_0@, endpoints),
        ),
        (cmd is Devices || cmd is Rename || cmd is SetPrimary || cmd is Remove) && (reply is Manage)
            ==> (answered(cmd, reply, endpoints) matches NextView::Done(l) && l.len()
            == reply->Manage_0.devices@.len() + 1 && l[0] == reply->Manage_0.message@),
        (cmd is Expose || cmd is Unexpose || cmd is Exposes) && (reply is Expose) ==> answered(
            cmd,
            reply,
            endpoints,
        ) == NextView::Done(
            ctl::exposed_lines(
                reply->Expose_0.message@,
                fw::port_views(reply->Expose_0.exposed@),
            ),
        ),
        (cmd is Connect || cmd is Disconnect) && (reply is Connected) ==> answered(
            cmd,
            reply,
            endpoints,
        ) == NextView::Done(seq![reply->Connected_0.message@]),
        cmd is Update && (reply is Update) ==> answered(cmd, reply, endpoints) == NextView::Done(
            seq![reply->Update_0.message@ + " (v"@ + reply->Update_0.version@ + ")"@],
        ),
        cmd is Status && !(reply is Status) ==> answered(cmd, reply, endpoints) is Fail,
        cmd is Devices && !(reply is Manage) ==> answered(cmd, reply, endpoints) is Fail,
        cmd is Exposes && !(reply is Expose) ==> answered(cmd, reply, endpoints) is Fail,
        cmd is Connect && !(reply is Connected) ==> answered(cmd, reply, endpoints) is Fail,
{
}

/// What is told once a name was asked about.
pub proof fn law_what_is_told_in_the_end(
    user: String,
    enabled: bool,
    network: String,
    reply: Reply,
)
    ensures
        reply is Network ==> finished(CtlCmd::Net { enabled, network }, reply) == NextView::Done(
            network_lines(
                reply->Network_0.message@,
                mesh::network_status_views(reply->Network_0.networks@),
            ),
        ),
        reply is Status ==> finished(CtlCmd::Block { user }, reply) == NextView::Done(
            seq![
                "blocked "@ + user@ + " ("@ + text::dec(reply->Status_0.blocked@.len())
                    + " user(s) blocked)"@,
            ],
        ),
        reply is Status ==> finished(CtlCmd::Unblock { user }, reply) == NextView::Done(
            seq!["un-blocked "@ + user@],
        ),
{
}

} // verus!
