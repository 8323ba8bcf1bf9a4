//! The command line's side of the control channel: what is asked for, and how replies are shown.
use crate::api::{ExposeScope, PeerReach, Proto, RemoveScope};
use crate::assoc::PubKey;
use crate::control::server::ExposeResp;
use crate::control::status::{self, BlockedUser, PeerStatus, StatusReport};
use crate::fw;
use crate::mesh::{self, NetworkStatus};
use crate::net::{self, v4_text};
use crate::text;
use base64::Engine;
use vstd::prelude::*;
use vstd::string::*;

verus! {

/// Why a port argument is refused.
pub enum PortError {
    /// What stands before the slash is no protocol.
    BadProtocol(String),
    /// What is given is no port.
    BadPort(String),
}

impl PortError {
    /// What is said of the refusal.
    pub open spec fn text(self) -> Seq<char> {
        match self {
            PortError::BadProtocol(p) => "bad protocol '"@ + p@ + "' (use tcp or udp)"@,
            PortError::BadPort(p) => "bad port '"@ + p@ + "'"@,
        }
    }

    /// What is said of the refusal.
    pub fn to_text(&self) -> (r: String)
        ensures
            r@ == self.text(),
    {
        match self {
            PortError::BadProtocol(p) => {
                let mut t = "bad protocol '".to_owned();
                t.append(p.as_str());
                t.append("' (use tcp or udp)");
                t
            },
            PortError::BadPort(p) => {
                let mut t = "bad port '".to_owned();
                t.append(p.as_str());
                t.append("'");
                t
            },
        }
    }
}

/// The protocol that a word names, in any case.
pub open spec fn proto_of(s: Seq<char>) -> Option<Proto> {
    if text::lower(s) == "tcp"@ {
        Some(Proto::Tcp)
    } else if text::lower(s) == "udp"@ {
        Some(Proto::Udp)
    } else {
        None
    }
}

/// A port argument in its two parts: the protocol, which is TCP when none is given, and the number.
pub open spec fn port_parts(arg: Seq<char>) -> (Option<Proto>, Seq<char>) {
    match text::split_once(arg, '/') {
        Some((p, n)) => (proto_of(p), n),
        None => (Some(Proto::Tcp), arg),
    }
}

/// Reads a port argument: a number, or a protocol, a slash and a number.
pub fn parse_port(arg: &str) -> (r: Result<(Proto, u16), PortError>)
    ensures
        ({
            let (proto, n) = port_parts(arg@);
            match r {
                Ok((p, k)) => proto == Some(p) && text::uint(n, 65535) == Some(k as nat),
                Err(PortError::BadProtocol(w)) => proto is None && (text::split_once(
                    arg@,
                    '/',
                ) matches Some((a, b)) && w@ == text::lower(a)),
                Err(PortError::BadPort(w)) => proto is Some && text::uint(n, 65535) is None && w@
                    == n,
            }
        }),
{
    let (proto, n) = match text::split_once_at(arg, '/') {
        Some((p, n)) => {
            let w = text::to_lower(p.as_str());
            let proto = if text::same(w.as_str(), "tcp") {
                Proto::Tcp
            } else if text::same(w.as_str(), "udp") {
                Proto::Udp
            } else {
                return Err(PortError::BadProtocol(w));
            };
            (proto, n)
        },
        None => (Proto::Tcp, arg.to_owned()),
    };
    match text::parse_uint(n.as_str(), 65535) {
        Some(k) => Ok((proto, k as u16)),
        None => Err(PortError::BadPort(n)),
    }
}

/// The scope that is asked for: the owner's own devices, or a network by its name, or every peer.
pub fn expose_scope(net: Option<String>, guild: Option<String>, own_devices: bool) -> (r: ExposeScope)
    ensures
        match (net, own_devices) {
            (_, true) => r == ExposeScope::OwnDevices,
            (Some(n), false) => r matches ExposeScope::Unresolved { guild: g, name } && name@ == n@
                && text::opt_text(g) == text::opt_text(guild),
            (None, false) => r == ExposeScope::AllPeers,
        },
{
    match (net, own_devices) {
        (_, true) => ExposeScope::OwnDevices,
        (Some(n), false) => ExposeScope::Unresolved { guild, name: n },
        (None, false) => ExposeScope::AllPeers,
    }
}

/// The scope that is to be closed: every one, unless one is named.
pub fn remove_scope(net: Option<String>, guild: Option<String>, own_devices: bool) -> (r: RemoveScope)
    ensures
        match (net, own_devices) {
            (None, false) => r is All,
            (_, true) => r == RemoveScope::Exact(ExposeScope::OwnDevices),
            (Some(n), false) => r matches RemoveScope::Exact(ExposeScope::Unresolved {
                guild: g,
                name,
            }) && name@ == n@ && text::opt_text(g) == text::opt_text(guild),
        },
{
    match (net, own_devices) {
        (None, false) => RemoveScope::All,
        (n, own) => RemoveScope::Exact(expose_scope(n, guild, own)),
    }
}

/// `s` with spaces behind it, up to a width.
pub open spec fn padded(s: Seq<char>, width: nat) -> Seq<char>
    decreases width - s.len(),
{
    if s.len() >= width {
        s
    } else {
        padded(s.push(' '), width)
    }
}

pub fn pad(s: &str, width: usize) -> (r: String)
    ensures
        r@ == padded(s@, width as nat),
{
    let mut n: usize = text::chars_of(s).len();
    let mut out = s.to_owned();
    while n < width
        invariant
            n == out@.len(),
            padded(s@, width as nat) == padded(out@, width as nat),
        decreases width - n,
    {
        out.push(' ');
        n += 1;
    }
    out
}

/// How it is said that a peer is not reached plainly.
pub open spec fn reach_note(r: PeerReach) -> Seq<char> {
    match r {
        PeerReach::Direct => ""@,
        PeerReach::Punching => "  [hole-punching…]"@,
        PeerReach::Unreachable =>
            "  [unreachable: no direct path — symmetric NAT, a blocked UDP port, or no relay]"@,
        PeerReach::Relayed => "  [relayed]"@,
        PeerReach::Ice => "  [ice]"@,
    }
}

fn note_of(r: PeerReach) -> (s: &'static str)
    ensures
        s@ == reach_note(r),
{
    match r {
        PeerReach::Direct => "",
        PeerReach::Punching => "  [hole-punching…]",
        PeerReach::Unreachable =>
            "  [unreachable: no direct path — symmetric NAT, a blocked UDP port, or no relay]",
        PeerReach::Relayed => "  [relayed]",
        PeerReach::Ice => "  [ice]",
    }
}

/// A peer's line. `endpoint` is where it can be dialled, as text.
pub open spec fn peer_line(p: status::ShownPeer, endpoint: Option<Seq<char>>) -> Seq<char> {
    "  "@ + padded(net::dotted(p.wg_ip), 16) + " "@ + padded(p.hostname, 40) + " "@ + match endpoint {
        Some(e) => e,
        None => "-"@,
    } + reach_note(p.reach)
}

/// The lines of the peers.
pub open spec fn peer_lines(peers: Seq<status::ShownPeer>, endpoints: Seq<Option<Seq<char>>>) -> Seq<
    Seq<char>,
>
    recommends
        peers.len() == endpoints.len(),
{
    Seq::new(peers.len(), |i: int| peer_line(peers[i], endpoints[i]))
}

/// The texts of a list of strings that may be absent.
pub open spec fn opt_texts(s: Seq<Option<String>>) -> Seq<Option<Seq<char>>> {
    s.map_values(|x: Option<String>| text::opt_text(x))
}

/// One line, if it is to be shown.
pub open spec fn line_if(on: bool, s: Seq<char>) -> Seq<Seq<char>> {
    if on {
        seq![s]
    } else {
        seq![]
    }
}

/// The lines of this device.
pub open spec fn device_lines(d: Option<status::ShownDevice>) -> Seq<Seq<char>> {
    match d {
        None => seq!["not joined to any network"@],
        Some(d) => seq![
            "device:  "@ + net::dotted(d.wg_ip) + " "@ + d.hostname + if d.is_primary {
                " [primary]"@
            } else {
                ""@
            },
            "networks: "@ + text::join(d.networks, ", "@),
        ],
    }
}

/// The line of an update.
pub open spec fn update_lines(available: Option<Seq<char>>, ready: bool) -> Seq<Seq<char>> {
    match available {
        None => seq![],
        Some(v) => seq![
            "update:  v"@ + v + " available"@ + if ready {
                " (staged — run `unitylan-engine ctl update`)"@
            } else {
                ""@
            },
        ],
    }
}

/// The lines of the blocked users.
pub open spec fn blocked_lines(b: Seq<status::BlockedView>) -> Seq<Seq<char>> {
    if b.len() == 0 {
        seq![]
    } else {
        seq!["blocked ("@ + text::dec(b.len()) + "):"@] + b.map_values(
            |u: status::BlockedView|
                "  "@ + u.username + " (id "@ + text::dec(u.user_id as nat) + ")"@,
        )
    }
}

/// The lines of a status.
pub open spec fn shown_lines(r: status::StatusView, endpoints: Seq<Option<Seq<char>>>) -> Seq<
    Seq<char>,
> {
    line_if(r.needs_login, "not logged in — run `unitylan-engine ctl login`"@) + line_if(
        !r.connected,
        "mesh: disconnected — run `unitylan-engine ctl connect`"@,
    ) + device_lines(r.device) + update_lines(r.update_available, r.update_ready) + seq![
        "peers ("@ + text::dec(r.peers.len()) + "):"@,
    ] + peer_lines(r.peers, endpoints) + blocked_lines(r.blocked)
}

fn push_device(out: &mut Vec<String>, r: &StatusReport)
    ensures
        text::texts(final(out)@) == text::texts(old(out)@) + device_lines(r@.device),
{
    let ghost before = text::texts(out@);
    match &r.device {
        None => {
            text::push_text(out, "not joined to any network".to_owned());
        },
        Some(d) => {
            let mut t = "device:  ".to_owned();
            t.append(v4_text(d.wg_ip).as_str());
            t.append(" ");
            t.append(d.hostname.as_str());
            if d.is_primary {
                t.append(" [primary]");
            } else {
                t.append("");
            }
            text::push_text(out, t);
            let mut n = "networks: ".to_owned();
            n.append(text::join_with(&d.networks, ", ").as_str());
            text::push_text(out, n);
        },
    }
    assert(text::texts(out@) =~= before + device_lines(r@.device));
}

fn push_update(out: &mut Vec<String>, r: &StatusReport)
    ensures
        text::texts(final(out)@) == text::texts(old(out)@) + update_lines(
            r@.update_available,
            r@.update_ready,
        ),
{
    let ghost before = text::texts(out@);
    if let Some(v) = &r.update_available {
        let mut t = "update:  v".to_owned();
        t.append(v.as_str());
        t.append(" available");
        if r.update_ready {
            t.append(" (staged — run `unitylan-engine ctl update`)");
        } else {
            t.append("");
        }
        text::push_text(out, t);
    }
    assert(text::texts(out@) =~= before + update_lines(r@.update_available, r@.update_ready));
}

fn push_peers(out: &mut Vec<String>, peers: &Vec<PeerStatus>, endpoints: &Vec<Option<String>>)
    requires
        peers.len() == endpoints.len(),
    ensures
        text::texts(final(out)@) == text::texts(old(out)@) + peer_lines(
            status::shown_peer_views(peers@),
            opt_texts(endpoints@),
        ),
{
    let ghost before = text::texts(out@);
    let ghost want = peer_lines(status::shown_peer_views(peers@), opt_texts(endpoints@));
    let mut i: usize = 0;
    assert(text::texts(out@) =~= before + want.take(0));
    while i < peers.len()
        invariant
            i <= peers.len(),
            peers.len() == endpoints.len(),
            want == peer_lines(status::shown_peer_views(peers@), opt_texts(endpoints@)),
            text::texts(out@) == before + want.take(i as int),
        decreases peers.len() - i,
    {
        let p = &peers[i];
        let mut t = "  ".to_owned();
        t.append(pad(v4_text(p.wg_ip).as_str(), 16).as_str());
        t.append(" ");
        t.append(pad(p.hostname.as_str(), 40).as_str());
        t.append(" ");
        match &endpoints[i] {
            Some(e) => {
                t.append(e.as_str());
            },
            None => {
                t.append("-");
            },
        }
        t.append(note_of(p.reach));
        assert(t@ == want[i as int]);
        text::push_text(out, t);
        assert(text::texts(out@) =~= before + want.take(i + 1));
        i += 1;
    }
    assert(want.take(i as int) =~= want);
}

fn push_blocked(out: &mut Vec<String>, b: &Vec<BlockedUser>)
    ensures
        text::texts(final(out)@) == text::texts(old(out)@) + blocked_lines(
            status::blocked_user_views(b@),
        ),
{
    let ghost before = text::texts(out@);
    let ghost views = status::blocked_user_views(b@);
    if b.len() == 0 {
        assert(views.len() == 0);
        assert(text::texts(out@) =~= before + blocked_lines(views));
        return;
    }
    let mut t = "blocked (".to_owned();
    t.append(text::decimal(b.len() as u64).as_str());
    t.append("):");
    assert(t@ == "blocked ("@ + text::dec(views.len()) + "):"@);
    text::push_text(out, t);
    let ghost head = text::texts(out@);
    let ghost want = views.map_values(
        |u: status::BlockedView| "  "@ + u.username + " (id "@ + text::dec(u.user_id as nat) + ")"@,
    );
    let mut i: usize = 0;
    assert(head =~= head + want.take(0));
    while i < b.len()
        invariant
            i <= b.len(),
            views == status::blocked_user_views(b@),
            want == views.map_values(
                |u: status::BlockedView|
                    "  "@ + u.username + " (id "@ + text::dec(u.user_id as nat) + ")"@,
            ),
            text::texts(out@) == head + want.take(i as int),
        decreases b.len() - i,
    {
        let mut t = "  ".to_owned();
        t.append(b[i].username.as_str());
        t.append(" (id ");
        t.append(text::decimal(b[i].user_id).as_str());
        t.append(")");
        assert(t@ == want[i as int]);
        text::push_text(out, t);
        assert(text::texts(out@) =~= head + want.take(i + 1));
        i += 1;
    }
    assert(want.take(i as int) =~= want);
    assert(text::texts(out@) =~= before + blocked_lines(views));
}

/// The lines of a status. `endpoints` are the peers' endpoints as text, one for each peer.
pub fn status_lines(r: &StatusReport, endpoints: &Vec<Option<String>>) -> (lines: Vec<String>)
    requires
        r.peers.len() == endpoints.len(),
    ensures
        text::texts(lines@) == shown_lines(r@, opt_texts(endpoints@)),
{
    let mut out: Vec<String> = Vec::new();
    assert(text::texts(out@) =~= seq![]);
    if r.needs_login {
        text::push_text(&mut out, "not logged in — run `unitylan-engine ctl login`".to_owned());
    }
    let ghost a = line_if(r.needs_login, "not logged in — run `unitylan-engine ctl login`"@);
    assert(text::texts(out@) =~= a);
    if !r.connected {
        text::push_text(
            &mut out,
            "mesh: disconnected — run `unitylan-engine ctl connect`".to_owned(),
        );
    }
    assert(text::texts(out@) =~= a + line_if(
        !r.connected,
        "mesh: disconnected — run `unitylan-engine ctl connect`"@,
    ));
    push_device(&mut out, r);
    push_update(&mut out, r);
    let mut t = "peers (".to_owned();
    t.append(text::decimal(r.peers.len() as u64).as_str());
    t.append("):");
    assert(t@ == "peers ("@ + text::dec(r@.peers.len()) + "):"@);
    let ghost before = text::texts(out@);
    let ghost tv = t@;
    text::push_text(&mut out, t);
    assert(text::texts(out@) =~= before + seq![tv]);
    push_peers(&mut out, &r.peers, endpoints);
    push_blocked(&mut out, &r.blocked);
    out
}

/// The lines of the exposed ports.
pub open spec fn exposed_lines(message: Seq<char>, ports: Seq<fw::PortView>) -> Seq<Seq<char>> {
    seq![message] + ports.map_values(
        |e: fw::PortView|
            "  "@ + e.proto.text() + "/"@ + text::dec(e.port as nat) + " ("@ + e.label + ")"@
                + if e.active {
                ""@
            } else {
                "  [no peers online]"@
            },
    )
}

/// The lines of the exposed ports.
pub fn print_exposed(resp: &ExposeResp) -> (lines: Vec<String>)
    ensures
        text::texts(lines@) == exposed_lines(resp.message@, fw::port_views(resp.exposed@)),
{
    let mut out: Vec<String> = Vec::new();
    assert(text::texts(out@) =~= seq![]);
    text::push_text(&mut out, resp.message.clone());
    let ghost want = exposed_lines(resp.message@, fw::port_views(resp.exposed@));
    assert(text::texts(out@) =~= want.take(1));
    let mut i: usize = 0;
    while i < resp.exposed.len()
        invariant
            i <= resp.exposed.len(),
            want == exposed_lines(resp.message@, fw::port_views(resp.exposed@)),
            text::texts(out@) == want.take(i + 1),
        decreases resp.exposed.len() - i,
    {
        let e = &resp.exposed[i];
        let mut t = "  ".to_owned();
        t.append(e.proto.as_str());
        t.append("/");
        t.append(text::decimal(e.port as u64).as_str());
        t.append(" (");
        t.append(e.label.as_str());
        t.append(")");
        if e.active {
            t.append("");
        } else {
            t.append("  [no peers online]");
        }
        assert(t@ == want[i + 1]);
        text::push_text(&mut out, t);
        assert(text::texts(out@) =~= want.take(i + 2));
        i += 1;
    }
    assert(want.take(i + 1) =~= want);
    out
}

/// One of the owner's devices.
pub struct OwnedDevice {
    pub device_name: String,
    pub is_primary: bool,
    /// Whether it is this device.
    pub is_self: bool,
}

/// The line of one of the owner's devices.
pub open spec fn owned_line(d: OwnedDevice) -> Seq<char> {
    "  "@ + d.device_name@ + if d.is_primary {
        " [primary]"@
    } else {
        ""@
    } + if d.is_self {
        " (this device)"@
    } else {
        ""@
    }
}

/// The lines of the owner's devices.
pub fn print_devices(message: &str, devices: &Vec<OwnedDevice>) -> (lines: Vec<String>)
    ensures
        text::texts(lines@) == seq![message@] + devices@.map_values(
            |d: OwnedDevice| owned_line(d),
        ),
{
    let mut out: Vec<String> = Vec::new();
    assert(text::texts(out@) =~= seq![]);
    text::push_text(&mut out, message.to_owned());
    let ghost want = seq![message@] + devices@.map_values(|d: OwnedDevice| owned_line(d));
    assert(text::texts(out@) =~= want.take(1));
    let mut i: usize = 0;
    while i < devices.len()
        invariant
            i <= devices.len(),
            want == seq![message@] + devices@.map_values(|d: OwnedDevice| owned_line(d)),
            text::texts(out@) == want.take(i + 1),
        decreases devices.len() - i,
    {
        let d = &devices[i];
        let mut t = "  ".to_owned();
        t.append(d.device_name.as_str());
        if d.is_primary {
            t.append(" [primary]");
        } else {
            t.append("");
        }
        if d.is_self {
            t.append(" (this device)");
        } else {
            t.append("");
        }
        assert(t@ == want[i + 1]);
        text::push_text(&mut out, t);
        assert(text::texts(out@) =~= want.take(i + 2));
        i += 1;
    }
    assert(want.take(i + 1) =~= want);
    out
}

/// The first network at or after `i` with a name, or the length.
pub open spec fn network_from(nets: Seq<mesh::NetworkView>, name: Seq<char>, i: int) -> int
    decreases nets.len() - i,
{
    if i >= nets.len() {
        nets.len() as int
    } else if nets[i].name == name {
        i
    } else {
        network_from(nets, name, i + 1)
    }
}

/// The ids of a network, by its name.
pub fn find_network(nets: &Vec<NetworkStatus>, name: &str) -> (r: Result<(u64, u64), String>)
    ensures
        ({
            let all = mesh::network_status_views(nets@);
            let i = network_from(all, name@, 0);
            match r {
                Ok((g, q)) => 0 <= i < all.len() && all[i].guild_id == g && all[i].role_id == q,
                Err(t) => i == all.len() && t@ == "no network named '"@ + name@ + "' (yours: "@
                    + text::join(all.map_values(|n: mesh::NetworkView| n.name), ", "@) + ")"@,
            }
        }),
{
    let ghost all = mesh::network_status_views(nets@);
    let ghost want = all.map_values(|n: mesh::NetworkView| n.name);
    let mut names: Vec<String> = Vec::new();
    let mut i: usize = 0;
    assert(text::texts(names@) =~= want.take(0));
    while i < nets.len()
        invariant
            i <= nets.len(),
            all == mesh::network_status_views(nets@),
            want == all.map_values(|n: mesh::NetworkView| n.name),
            text::texts(names@) == want.take(i as int),
            network_from(all, name@, 0) == network_from(all, name@, i as int),
        decreases nets.len() - i,
    {
        assert(all[i as int] == nets@[i as int]@);
        if text::same(nets[i].name.as_str(), name) {
            return Ok((nets[i].guild_id, nets[i].role_id));
        }
        text::push_text(&mut names, nets[i].name.clone());
        assert(want.take(i + 1) =~= want.take(i as int).push(want[i as int]));
        i += 1;
    }
    assert(want.take(i as int) =~= want);
    let mut t = "no network named '".to_owned();
    t.append(name);
    t.append("' (yours: ");
    t.append(text::join_with(&names, ", ").as_str());
    t.append(")");
    Err(t)
}

/// The first peer at or after `i` of a user with a name, or the length.
pub open spec fn user_from(peers: Seq<status::ShownPeer>, name: Seq<char>, i: int) -> int
    decreases peers.len() - i,
{
    if i >= peers.len() {
        peers.len() as int
    } else if peers[i].username == name {
        i
    } else {
        user_from(peers, name, i + 1)
    }
}

/// The id of a user, by the name of one of the shown peers.
pub fn find_user(peers: &Vec<PeerStatus>, name: &str) -> (r: Result<u64, String>)
    ensures
        ({
            let all = status::shown_peer_views(peers@);
            let i = user_from(all, name@, 0);
            match r {
                Ok(id) => 0 <= i < all.len() && all[i].user_id == id,
                Err(t) => i == all.len() && t@ == "no peer with handle '"@ + name@ + "'"@,
            }
        }),
{
    let ghost all = status::shown_peer_views(peers@);
    let mut i: usize = 0;
    while i < peers.len()
        invariant
            i <= peers.len(),
            all == status::shown_peer_views(peers@),
            user_from(all, name@, 0) == user_from(all, name@, i as int),
        decreases peers.len() - i,
    {
        assert(all[i as int] == peers@[i as int]@);
        if text::same(peers[i].username.as_str(), name) {
            return Ok(peers[i].user_id);
        }
        i += 1;
    }
    let mut t = "no peer with handle '".to_owned();
    t.append(name);
    t.append("'");
    Err(t)
}

/// The first blocked user at or after `i` with a name, or the length.
pub open spec fn blocked_from(b: Seq<status::BlockedView>, name: Seq<char>, i: int) -> int
    decreases b.len() - i,
{
    if i >= b.len() {
        b.len() as int
    } else if b[i].username == name {
        i
    } else {
        blocked_from(b, name, i + 1)
    }
}

/// The id of a blocked user, by name. A user whose devices are gone is found here too.
pub fn find_blocked(b: &Vec<BlockedUser>, name: &str) -> (r: Result<u64, String>)
    ensures
        ({
            let all = status::blocked_user_views(b@);
            let i = blocked_from(all, name@, 0);
            match r {
                Ok(id) => 0 <= i < all.len() && all[i].user_id == id,
                Err(t) => i == all.len() && t@ == "no blocked user with handle '"@ + name@ + "'"@,
            }
        }),
{
    let ghost all = status::blocked_user_views(b@);
    let mut i: usize = 0;
    while i < b.len()
        invariant
            i <= b.len(),
            all == status::blocked_user_views(b@),
            blocked_from(all, name@, 0) == blocked_from(all, name@, i as int),
        decreases b.len() - i,
    {
        assert(all[i as int] == b@[i as int]@);
        if text::same(b[i].username.as_str(), name) {
            return Ok(b[i].user_id);
        }
        i += 1;
    }
    let mut t = "no blocked user with handle '".to_owned();
    t.append(name);
    t.append("'");
    Err(t)
}

/// The line of a network that was switched.
pub fn network_line(n: &NetworkStatus) -> (r: String)
    ensures
        r@ == "  "@ + n.name@ + " ["@ + if n.enabled {
            "on"@
        } else {
            "off"@
        } + "]"@,
{
    let mut t = "  ".to_owned();
    t.append(n.name.as_str());
    t.append(" [");
    if n.enabled {
        t.append("on");
    } else {
        t.append("off");
    }
    t.append("]");
    t
}

/// Bytes as base64 text, by the standard alphabet with padding.
pub uninterp spec fn base64_text(b: Seq<u8>) -> Seq<char>;

/// The bytes that a base64 text stands for, by the standard alphabet with padding.
pub uninterp spec fn base64_bytes(s: Seq<char>) -> Option<Seq<u8>>;

/// Bytes as base64 text: `base64::Engine::encode` with `general_purpose::STANDARD`. Decoding the text
/// with the same engine gives the bytes back.
#[verifier::external_body]
fn encode_base64(b: &[u8]) -> (r: String)
    ensures
        r@ == base64_text(b@),
        base64_bytes(r@) == Some(b@),
{
    base64::engine::general_purpose::STANDARD.encode(b)
}

/// The bytes that a base64 text stands for: `base64::Engine::decode` with
/// `general_purpose::STANDARD`. There are none when the text is not what that engine would write.
#[verifier::external_body]
fn decode_base64(s: &str) -> (r: Option<Vec<u8>>)
    ensures
        match r {
            Some(b) => base64_bytes(s@) == Some(b@),
            None => base64_bytes(s@) is None,
        },
{
    base64::engine::general_purpose::STANDARD.decode(s).ok()
}

/// Bytes as base64 text.
pub fn base64_std(b: &[u8]) -> (r: String)
    ensures
        r@ == base64_text(b@),
        base64_bytes(r@) == Some(b@),
{
    encode_base64(b)
}

/// Why a key is refused.
#[derive(Clone, Copy, Debug, PartialEq, Eq, Structural)]
pub enum KeyError {
    /// The text is no base64.
    NotBase64,
    /// The key has not the length of one.
    NotAKey,
}

/// A key out of its bytes.
pub fn key_of(b: &Vec<u8>) -> (r: Result<PubKey, KeyError>)
    ensures
        match r {
            Ok(k) => b@ == k@,
            Err(e) => e == KeyError::NotAKey && b@.len() != 32,
        },
{
    if b.len() != 32 {
        return Err(KeyError::NotAKey);
    }
    let mut k: PubKey = [0u8; 32];
    let mut i: usize = 0;
    while i < 32
        invariant
            i <= 32,
            b.len() == 32,
            forall|j: int| 0 <= j < i ==> k@[j] == b@[j],
        decreases 32 - i,
    {
        k[i] = b[i];
        i += 1;
    }
    assert(k@ =~= b@);
    Ok(k)
}

/// A key out of its base64 text.
pub fn b64_key(s: &str) -> (r: Result<PubKey, KeyError>)
    ensures
        match r {
            Ok(k) => base64_bytes(s@) == Some(k@),
            Err(KeyError::NotBase64) => base64_bytes(s@) is None,
            Err(KeyError::NotAKey) => base64_bytes(s@) matches Some(b) && b.len() != 32,
        },
{
    match decode_base64(s) {
        Some(b) => key_of(&b),
        None => Err(KeyError::NotBase64),
    }
}

/// A port argument is a number, which is of TCP, or a protocol in whatever case, a slash and a number.
pub proof fn law_how_a_port_is_typed(proto: Seq<char>, n: Seq<char>)
    requires
        !proto.contains('/'),
        !n.contains('/'),
    ensures
        port_parts(n) == (Some(Proto::Tcp), n),
        port_parts(proto + seq!['/'] + n).1 == n,
        port_parts(proto + seq!['/'] + n).0 == if text::lower(proto) == "tcp"@ {
            Some(Proto::Tcp)
        } else if text::lower(proto) == "udp"@ {
            Some(Proto::Udp)
        } else {
            None
        },
{
    text::law_split_at_the_first(proto, n, '/');
    text::law_split_at_the_first(n, proto, '/');
}

/// A short text is filled up with blanks behind it, and a long one is left as it is.
pub proof fn law_filled_up_with_blanks(s: Seq<char>, width: nat)
    ensures
        s.len() >= width ==> padded(s, width) == s,
        s.len() < width ==> padded(s, width) == s + Seq::new(
            (width - s.len()) as nat,
            |i: int| ' ',
        ),
    decreases width - s.len(),
{
    if s.len() < width {
        law_filled_up_with_blanks(s.push(' '), width);
        if s.len() + 1 < width {
            assert(s.push(' ') + Seq::new((width - s.len() - 1) as nat, |i: int| ' ') =~= s
                + Seq::new((width - s.len()) as nat, |i: int| ' '));
        } else {
            assert(s.push(' ') =~= s + Seq::new((width - s.len()) as nat, |i: int| ' '));
        }
    }
}

/// Each peer has a line: its address, its name, where it can be dialled, and how it is reached where
/// that is not plainly.
pub proof fn law_each_peer_has_a_line(
    peers: Seq<status::ShownPeer>,
    endpoints: Seq<Option<Seq<char>>>,
    i: int,
)
    requires
        peers.len() == endpoints.len(),
        0 <= i < peers.len(),
    ensures
        peer_lines(peers, endpoints).len() == peers.len(),
        ({
            let start = "  "@ + padded(net::dotted(peers[i].wg_ip), 16) + " "@ + padded(
                peers[i].hostname,
                40,
            ) + " "@ + (if endpoints[i] is Some {
                endpoints[i]->0
            } else {
                "-"@
            });
            let line = peer_lines(peers, endpoints)[i];
            &&& peers[i].reach == PeerReach::Direct ==> line == start
            &&& peers[i].reach == PeerReach::Punching ==> line == start + "  [hole-punching…]"@
            &&& peers[i].reach == PeerReach::Unreachable ==> line == start
                + "  [unreachable: no direct path — symmetric NAT, a blocked UDP port, or no relay]"@
            &&& peers[i].reach == PeerReach::Relayed ==> line == start + "  [relayed]"@
            &&& peers[i].reach == PeerReach::Ice ==> line == start + "  [ice]"@
        }),
{
    reveal_strlit("");
    let start = "  "@ + padded(net::dotted(peers[i].wg_ip), 16) + " "@ + padded(
        peers[i].hostname,
        40,
    ) + " "@ + (if endpoints[i] is Some {
        endpoints[i]->0
    } else {
        "-"@
    });
    assert(start + ""@ =~= start);
}

/// The lines of a status: what is amiss first, then the device and its networks, an update, every peer,
/// and every blocked user.
pub proof fn law_lines_of_a_status(
    r: status::StatusView,
    endpoints: Seq<Option<Seq<char>>>,
    d: status::ShownDevice,
)
    requires
        r.device == Some(d),
        r.peers.len() == endpoints.len(),
    ensures
        ({
            let lines = shown_lines(r, endpoints);
            let a: int = if r.needs_login {
                1
            } else {
                0
            };
            let b: int = if r.connected {
                a
            } else {
                a + 1
            };
            let u: int = if r.update_available is Some {
                b + 3
            } else {
                b + 2
            };
            let n = u + 1 + r.peers.len();
            &&& lines.len() == n + (if r.blocked.len() > 0 {
                r.blocked.len() as int + 1
            } else {
                0
            })
            &&& r.needs_login ==> lines[0] == "not logged in — run `unitylan-engine ctl login`"@
            &&& !r.connected ==> lines[a]
                == "mesh: disconnected — run `unitylan-engine ctl connect`"@
            &&& d.is_primary ==> lines[b] == "device:  "@ + net::dotted(d.wg_ip) + " "@ + d.hostname
                + " [primary]"@
            &&& !d.is_primary ==> lines[b] == "device:  "@ + net::dotted(d.wg_ip) + " "@ + d.hostname
            &&& lines[b + 1] == "networks: "@ + text::join(d.networks, ", "@)
            &&& r.update_available is Some && r.update_ready ==> lines[b + 2] == "update:  v"@
                + r.update_available->0 + " available"@
                + " (staged — run `unitylan-engine ctl update`)"@
            &&& r.update_available is Some && !r.update_ready ==> lines[b + 2] == "update:  v"@
                + r.update_available->0 + " available"@
            &&& lines[u] == "peers ("@ + text::dec(r.peers.len()) + "):"@
            &&& forall|i: int|
                0 <= i < r.peers.len() ==> lines[u + 1 + i] == #[trigger] peer_line(
                    r.peers[i],
                    endpoints[i],
                )
            &&& r.blocked.len() > 0 ==> lines[n] == "blocked ("@ + text::dec(r.blocked.len())
                + "):"@
            &&& forall|i: int|
                0 <= i < r.blocked.len() ==> lines[n + 1 + i] == "  "@ + (
                #[trigger] r.blocked[i]).username + " (id "@ + text::dec(
                    r.blocked[i].user_id as nat,
                ) + ")"@
        }),
{
    reveal_strlit("");
    let plain = "device:  "@ + net::dotted(d.wg_ip) + " "@ + d.hostname;
    assert(plain + ""@ =~= plain);
    if let Some(v) = r.update_available {
        let up = "update:  v"@ + v + " available"@;
        assert(up + ""@ =~= up);
    }
    let p1 = line_if(r.needs_login, "not logged in — run `unitylan-engine ctl login`"@);
    let p2 = p1 + line_if(!r.connected, "mesh: disconnected — run `unitylan-engine ctl connect`"@);
    let p3 = p2 + device_lines(r.device);
    let p4 = p3 + update_lines(r.update_available, r.update_ready);
    let p5 = p4 + seq!["peers ("@ + text::dec(r.peers.len()) + "):"@];
    let p6 = p5 + peer_lines(r.peers, endpoints);
    let lines = shown_lines(r, endpoints);
    assert(lines =~= p6 + blocked_lines(r.blocked));
    let u = p4.len() as int;
    assert forall|i: int| 0 <= i < r.peers.len() implies lines[u + 1 + i] == #[trigger] peer_line(
        r.peers[i],
        endpoints[i],
    ) by {
        assert(p6[u + 1 + i] == peer_lines(r.peers, endpoints)[i]);
    }
    let n = p6.len() as int;
    assert forall|i: int| 0 <= i < r.blocked.len() implies lines[n + 1 + i] == "  "@ + (
    #[trigger] r.blocked[i]).username + " (id "@ + text::dec(r.blocked[i].user_id as nat) + ")"@ by {
        assert(lines[n + 1 + i] == blocked_lines(r.blocked)[1 + i]);
    }
}

/// A device that is in no network says so.
pub proof fn law_device_without_a_network()
    ensures
        device_lines(None) == seq!["not joined to any network"@],
{
}

/// Each exposed port has a line, behind what is said of them: its protocol, its number and whom it is
/// open to, and whether anybody of those is there.
pub proof fn law_each_exposed_port_has_a_line(
    message: Seq<char>,
    ports: Seq<fw::PortView>,
    i: int,
)
    requires
        0 <= i < ports.len(),
    ensures
        exposed_lines(message, ports).len() == ports.len() + 1,
        exposed_lines(message, ports)[0] == message,
        ({
            let start = "  "@ + (if ports[i].proto == Proto::Tcp {
                "tcp"@
            } else {
                "udp"@
            }) + "/"@ + text::dec(ports[i].port as nat) + " ("@ + ports[i].label + ")"@;
            let line = exposed_lines(message, ports)[i + 1];
            &&& ports[i].active ==> line == start
            &&& !ports[i].active ==> line == start + "  [no peers online]"@
        }),
{
    reveal_strlit("");
    let start = "  "@ + ports[i].proto.text() + "/"@ + text::dec(ports[i].port as nat) + " ("@
        + ports[i].label + ")"@;
    assert(start + ""@ =~= start);
}

/// Each of the owner's devices is told by its name, and which is the first and which is this one.
pub proof fn law_line_of_an_owned_device(d: OwnedDevice)
    ensures
        ({
            let name = "  "@ + d.device_name@;
            &&& !d.is_primary && !d.is_self ==> owned_line(d) == name
            &&& d.is_primary && !d.is_self ==> owned_line(d) == name + " [primary]"@
            &&& !d.is_primary && d.is_self ==> owned_line(d) == name + " (this device)"@
            &&& d.is_primary && d.is_self ==> owned_line(d) == name + " [primary]"@
                + " (this device)"@
        }),
{
    reveal_strlit("");
    let name = "  "@ + d.device_name@;
    assert(name + ""@ =~= name);
    assert(name + ""@ + ""@ =~= name);
    assert(name + " [primary]"@ + ""@ =~= name + " [primary]"@);
}

/// A network, a user and a blocked user are each the first with the name that was typed; there is none
/// if and only if no one has it.
pub proof fn law_found_by_name(
    nets: Seq<mesh::NetworkView>,
    peers: Seq<status::ShownPeer>,
    blocked: Seq<status::BlockedView>,
    name: Seq<char>,
)
    ensures
        ({
            let i = network_from(nets, name, 0);
            &&& 0 <= i <= nets.len()
            &&& i < nets.len() ==> nets[i].name == name
            &&& forall|j: int| 0 <= j < i ==> (#[trigger] nets[j]).name != name
        }),
        ({
            let i = user_from(peers, name, 0);
            &&& 0 <= i <= peers.len()
            &&& i < peers.len() ==> peers[i].username == name
            &&& forall|j: int| 0 <= j < i ==> (#[trigger] peers[j]).username != name
        }),
        ({
            let i = blocked_from(blocked, name, 0);
            &&& 0 <= i <= blocked.len()
            &&& i < blocked.len() ==> blocked[i].username == name
            &&& forall|j: int| 0 <= j < i ==> (#[trigger] blocked[j]).username != name
        }),
{
    lemma_network_from(nets, name, 0);
    lemma_user_from(peers, name, 0);
    lemma_blocked_from(blocked, name, 0);
}

proof fn lemma_network_from(nets: Seq<mesh::NetworkView>, name: Seq<char>, i: int)
    requires
        0 <= i <= nets.len(),
    ensures
        ({
            let k = network_from(nets, name, i);
            &&& i <= k <= nets.len()
            &&& k < nets.len() ==> nets[k].name == name
            &&& forall|j: int| i <= j < k ==> (#[trigger] nets[j]).name != name
        }),
    decreases nets.len() - i,
{
    if i < nets.len() && nets[i].name != name {
        lemma_network_from(nets, name, i + 1);
    }
}

proof fn lemma_user_from(peers: Seq<status::ShownPeer>, name: Seq<char>, i: int)
    requires
        0 <= i <= peers.len(),
    ensures
        ({
            let k = user_from(peers, name, i);
            &&& i <= k <= peers.len()
            &&& k < peers.len() ==> peers[k].username == name
            &&& forall|j: int| i <= j < k ==> (#[trigger] peers[j]).username != name
        }),
    decreases peers.len() - i,
{
    if i < peers.len() && peers[i].username != name {
        lemma_user_from(peers, name, i + 1);
    }
}

proof fn lemma_blocked_from(b: Seq<status::BlockedView>, name: Seq<char>, i: int)
    requires
        0 <= i <= b.len(),
    ensures
        ({
            let k = blocked_from(b, name, i);
            &&& i <= k <= b.len()
            &&& k < b.len() ==> b[k].username == name
            &&& forall|j: int| i <= j < k ==> (#[trigger] b[j]).username != name
        }),
    decreases b.len() - i,
{
    if i < b.len() && b[i].username != name {
        lemma_blocked_from(b, name, i + 1);
    }
}

} // verus!
