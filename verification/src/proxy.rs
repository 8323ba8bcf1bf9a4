//! The TLS proxy: when it runs, and as whom.
//!
//! The proxy is a process of its own so that what peers send is parsed where no keys are. That holds
//! only if it runs without privileges, so an engine that is root and was not told whom to run it as
//! refuses to. Starting and stopping the process is the caller's.
use crate::net::Endpoint;
use crate::text;
use vstd::prelude::*;
use vstd::string::*;

verus! {

/// The descriptor that the listener is handed over on. The engine binds it: the port is a privileged
/// one, and the proxy then needs no privilege at all.
pub const LISTEN_FD: u64 = 3;

/// What is to be done about the proxy.
#[derive(Clone, Copy, Debug, PartialEq, Eq, Structural)]
pub enum Action {
    /// To start it: there is something to serve.
    Start,
    /// To stop it: there is nothing to serve.
    Stop,
    /// To leave it.
    Leave,
}

/// What is to be done about the proxy.
pub fn decide(has_services: bool, running: bool) -> (r: Action)
    ensures
        r == if has_services == running {
            Action::Leave
        } else if has_services {
            Action::Start
        } else {
            Action::Stop
        },
{
    match (has_services, running) {
        (true, false) => Action::Start,
        (false, true) => Action::Stop,
        _ => Action::Leave,
    }
}

/// Why a root engine does not run the proxy.
pub open spec fn root_refusal() -> Seq<char> {
    "the TLS proxy would run as root, which is what running it in its own process is meant to avoid. Set `[proxy] user` to an unprivileged account (the packages create `unitylan-proxy`), or set `[proxy] enabled = false` to serve TLS yourself."@
}

/// Whom the proxy is to run as; as the engine itself where that is nobody in particular. An engine that
/// is root and was not told refuses.
pub fn run_as(configured: Option<&str>, euid: u32) -> (r: Result<Option<String>, String>)
    ensures
        match (configured, r) {
            (Some(u), Ok(Some(w))) => w@ == u@,
            (None, Ok(None)) => euid != 0,
            (None, Err(t)) => euid == 0 && t@ == root_refusal(),
            _ => false,
        },
{
    match (configured, euid) {
        (Some(user), _) => Ok(Some(user.to_owned())),
        (None, 0) => Err(
            "the TLS proxy would run as root, which is what running it in its own process is meant to avoid. Set `[proxy] user` to an unprivileged account (the packages create `unitylan-proxy`), or set `[proxy] enabled = false` to serve TLS yourself.".to_owned(),
        ),
        (None, _) => Ok(None),
    }
}

/// The name of the proxy's program.
pub open spec fn file_name(windows: bool) -> Seq<char> {
    if windows {
        "unitylan-proxy.exe"@
    } else {
        "unitylan-proxy"@
    }
}

/// The name of the proxy's program.
pub fn proxy_file_name(windows: bool) -> (r: &'static str)
    ensures
        r@ == file_name(windows),
{
    if windows {
        "unitylan-proxy.exe"
    } else {
        "unitylan-proxy"
    }
}

/// Where the proxy's program is: where the configuration says, or beside the engine.
pub fn binary(configured: Option<&str>, engine_dir: Option<&str>, windows: bool) -> (r: String)
    ensures
        r@ == match (configured, engine_dir) {
            (Some(p), _) => p@,
            (None, Some(d)) => text::joined(d@, file_name(windows)),
            (None, None) => file_name(windows),
        },
{
    match (configured, engine_dir) {
        (Some(p), _) => p.to_owned(),
        (None, Some(d)) => text::join_path(d, proxy_file_name(windows)),
        (None, None) => proxy_file_name(windows).to_owned(),
    }
}

/// How the proxy is started.
pub struct Launch {
    pub args: Vec<String>,
    /// All of its environment: nothing of the engine's crosses over.
    pub env: Vec<(String, String)>,
    /// Where the listener is found.
    pub fd: u64,
}

/// Names and values, as models.
pub open spec fn env_views(s: Seq<(String, String)>) -> Seq<(Seq<char>, Seq<char>)> {
    s.map_values(|e: (String, String)| (e.0@, e.1@))
}

/// All of the proxy's environment: where its listener is, and the log filter when there is one. An
/// empty filter matches nothing, so it is not passed on.
pub open spec fn environment(var: Seq<char>, filter: Option<Seq<char>>) -> Seq<
    (Seq<char>, Seq<char>),
> {
    let fd = seq![(var, text::dec(LISTEN_FD as nat))];
    match filter {
        Some(f) => if f.len() > 0 {
            fd.push(("RUST_LOG"@, f))
        } else {
            fd
        },
        None => fd,
    }
}

/// How the proxy is started: with the control socket that it reads its configuration from, and told
/// by the variable `var` where its listener is.
pub fn spawn(socket: &str, var: &str, filter: Option<&str>) -> (r: Launch)
    ensures
        text::texts(r.args@) == seq![socket@],
        env_views(r.env@) == environment(var@, text::opt_str(filter)),
        r.fd == LISTEN_FD,
{
    let mut args: Vec<String> = Vec::new();
    assert(text::texts(args@) =~= seq![]);
    text::push_text(&mut args, socket.to_owned());
    assert(text::texts(args@) =~= seq![socket@]);
    let mut env: Vec<(String, String)> = Vec::new();
    env.push((var.to_owned(), text::decimal(LISTEN_FD)));
    let ghost fd = seq![(var@, text::dec(LISTEN_FD as nat))];
    assert(env_views(env@) =~= fd);
    if let Some(f) = filter {
        if text::chars_of(f).len() > 0 {
            env.push(("RUST_LOG".to_owned(), f.to_owned()));
            assert(env_views(env@) =~= fd.push(("RUST_LOG"@, f@)));
        }
    }
    Launch { args, env, fd: LISTEN_FD }
}

/// Nothing of the engine's environment reaches the proxy but a log filter.
pub proof fn law_environment_does_not_cross(
    var: Seq<char>,
    filter: Option<Seq<char>>,
    i: int,
)
    requires
        0 <= i < environment(var, filter).len(),
    ensures
        ({
            let (k, v) = environment(var, filter)[i];
            (k == var && v == text::dec(LISTEN_FD as nat)) || (k == "RUST_LOG"@ && filter == Some(
                v,
            ))
        }),
{
}

/// What is known of the proxy's process.
#[derive(Clone, Copy, Debug, PartialEq, Eq, Structural)]
pub enum Waited {
    Running,
    Exited,
    /// It could not be asked.
    Unknown,
}

/// A proxy that was started.
pub struct Proxy {
    /// The address that it serves on. It was given a socket and cannot bind another, so that a device
    /// that moves needs another proxy.
    pub bound_to: Endpoint,
}

impl Proxy {
    /// Whether it is still up. One that is not is started again.
    pub fn alive(&self, w: Waited) -> (r: bool)
        ensures
            r == (w == Waited::Running),
    {
        w == Waited::Running
    }

    /// Whether it serves on another address than the device has.
    pub fn moved(&self, addr: Endpoint) -> (r: bool)
        ensures
            r == (self.bound_to != addr),
    {
        self.bound_to != addr
    }
}

/// What a listing of an account's groups gave: whether they fitted, how many there are, and those
/// that were written.
pub struct GroupListing {
    pub fitted: bool,
    pub count: i32,
    pub groups: Vec<u32>,
}

/// How much room to list the groups again with, where the first listing did not fit.
pub fn more_room(first: &GroupListing) -> (r: Option<u32>)
    ensures
        r == if !first.fitted && first.count > 0 {
            Some(first.count as u32)
        } else {
            None
        },
{
    if !first.fitted && first.count > 0 {
        Some(first.count as u32)
    } else {
        None
    }
}

/// The first `count` of a list.
pub open spec fn counted(groups: Seq<u32>, count: i32) -> Seq<u32> {
    let n = if count < 0 {
        0
    } else {
        count as int
    };
    if n < groups.len() {
        groups.take(n)
    } else {
        groups
    }
}

/// The groups of an account: those that were listed, or its primary group alone.
pub open spec fn group_list(gid: u32, l: GroupListing, again: bool) -> Seq<u32> {
    let g = if again && !l.fitted {
        seq![gid]
    } else {
        counted(l.groups@, l.count)
    };
    if g.len() == 0 {
        seq![gid]
    } else {
        g
    }
}

/// An account that the proxy runs under: its user, its primary group, and every group that it is a
/// member of. All the groups are carried along: the account is in one in order to reach the
/// certificate's key.
pub struct Ids {
    pub uid: u32,
    pub gid: u32,
    pub groups: Vec<u32>,
}

impl Ids {
    /// The account, from the listing of its groups; `again` tells that it is the second one, made with
    /// more room. Without a listing the primary group alone is still right, and tighter.
    pub fn lookup(uid: u32, gid: u32, listing: GroupListing, again: bool) -> (r: Ids)
        ensures
            r.uid == uid,
            r.gid == gid,
            r.groups@ == group_list(gid, listing, again),
            r.groups@.len() > 0,
    {
        let mut groups = listing.groups;
        if again && !listing.fitted {
            groups = Vec::new();
            groups.push(gid);
            assert(groups@ =~= seq![gid]);
        } else {
            let n: usize = if listing.count < 0 {
                0
            } else {
                listing.count as usize
            };
            if n < groups.len() {
                groups.truncate(n);
            }
        }
        if groups.len() == 0 {
            groups.push(gid);
            assert(groups@ =~= seq![gid]);
        }
        Ids { uid, gid, groups }
    }
}

/// The group that the read-only control endpoint is handed to: the primary group of the account that
/// the proxy runs as. There is none without an account, or where it does not exist.
pub fn primary_gid(user: Option<&str>, found: Option<&Ids>) -> (r: Option<u32>)
    ensures
        r == match (user, found) {
            (Some(_), Some(ids)) => Some(ids.gid),
            _ => None,
        },
{
    match (user, found) {
        (Some(_), Some(ids)) => Some(ids.gid),
        _ => None,
    }
}

/// The steps of becoming an account, in their order.
#[derive(Clone, Copy, Debug, PartialEq, Eq, Structural)]
pub enum DropStep {
    SetGroups,
    SetGid,
    SetUid,
}

/// The steps of becoming an account. The user comes last: it takes away the privilege that the groups
/// need.
pub fn drop_privileges() -> (r: Vec<DropStep>)
    ensures
        r@ == seq![DropStep::SetGroups, DropStep::SetGid, DropStep::SetUid],
{
    let mut v: Vec<DropStep> = Vec::new();
    v.push(DropStep::SetGroups);
    v.push(DropStep::SetGid);
    v.push(DropStep::SetUid);
    assert(v@ =~= seq![DropStep::SetGroups, DropStep::SetGid, DropStep::SetUid]);
    v
}

/// The state of the proxy's service, where the system runs it as one.
#[derive(Clone, Copy, Debug, PartialEq, Eq, Structural)]
pub enum ServiceState {
    Running,
    Stopped,
    Other,
}

/// What is to be done about the proxy's service.
pub fn windows_service_control(start: bool, state: ServiceState) -> (r: Action)
    ensures
        r == match (start, state) {
            (true, ServiceState::Running) => Action::Leave,
            (false, ServiceState::Stopped) => Action::Leave,
            (true, _) => Action::Start,
            (false, _) => Action::Stop,
        },
{
    match (start, state) {
        (true, ServiceState::Running) => Action::Leave,
        (false, ServiceState::Stopped) => Action::Leave,
        (true, _) => Action::Start,
        (false, _) => Action::Stop,
    }
}

/// What is to be done so that the proxy's program is not in use. A service that cannot be asked is as
/// good as stopped.
pub fn stop_windows_service(state: Option<ServiceState>) -> (r: Action)
    ensures
        r == match state {
            None => Action::Leave,
            Some(ServiceState::Stopped) => Action::Leave,
            Some(_) => Action::Stop,
        },
{
    match state {
        Some(s) => windows_service_control(false, s),
        None => Action::Leave,
    }
}

/// Whether the service may be started: it has an account of its own, so that one in the configuration
/// would look as if it had taken effect.
pub fn windows_spawn(run_as: Option<&str>) -> (r: Result<(), String>)
    ensures
        match r {
            Ok(_) => run_as is None,
            Err(t) => run_as is Some && t@
                == "`[proxy] user` has no effect on Windows — the proxy runs as NT AUTHORITY\\LocalService, set when its service was registered. Remove the setting."@,
        },
{
    if run_as.is_some() {
        return Err(
            "`[proxy] user` has no effect on Windows — the proxy runs as NT AUTHORITY\\LocalService, set when its service was registered. Remove the setting.".to_owned(),
        );
    }
    Ok(())
}

/// The proxy is told where its listener is, and the log filter if there is one that filters anything.
pub proof fn law_all_that_the_proxy_is_told(var: Seq<char>, f: Seq<char>)
    ensures
        environment(var, None) == seq![(var, text::dec(3))],
        f.len() == 0 ==> environment(var, Some(f)) == seq![(var, text::dec(3))],
        f.len() > 0 ==> environment(var, Some(f)) == seq![
            (var, text::dec(3)),
            ("RUST_LOG"@, f),
        ],
        file_name(true) == "unitylan-proxy.exe"@,
        file_name(false) == "unitylan-proxy"@,
{
    assert(seq![(var, text::dec(3))].push(("RUST_LOG"@, f)) =~= seq![
        (var, text::dec(3)),
        ("RUST_LOG"@, f),
    ]);
}

/// An account keeps every group that was listed of it, in order; where nothing was listed, or a second
/// listing did not fit either, its primary group alone.
pub proof fn law_every_listed_group_is_kept(gid: u32, l: GroupListing, again: bool)
    ensures
        0 < l.count <= l.groups@.len() && (l.fitted || !again) ==> group_list(gid, l, again)
            == l.groups@.take(l.count as int),
        l.count > l.groups@.len() && l.groups@.len() > 0 && (l.fitted || !again) ==> group_list(
            gid,
            l,
            again,
        ) == l.groups@,
        l.count <= 0 || l.groups@.len() == 0 || (again && !l.fitted) ==> group_list(gid, l, again)
            == seq![gid],
{
    if 0 < l.count && l.count == l.groups@.len() {
        assert(l.groups@.take(l.count as int) =~= l.groups@);
    }
}

} // verus!
