//! Who may use the control channel.
//!
//! The daemon is privileged and its frontends are not, so the channel is opened to the group that the
//! configuration names, or to the user who started the daemon through `sudo`; otherwise to nobody.
//! Changing owners and modes is the caller's.
use crate::text;
use vstd::prelude::*;

verus! {

/// The mode of the control socket.
pub const SOCKET_MODE: u32 = 0o660;

/// The mode of the directory that the control socket is in: those who know a path in it may open it,
/// and nobody else may list it.
pub const TRAVERSAL_MODE: u32 = 0o710;

/// The access list of the control pipe, where it is one: the system and administrators may do
/// everything, and whoever is logged in at the machine may read and write. Nobody else may do anything.
pub const CONTROL_PIPE_SDDL: &'static str = "D:P(A;;FA;;;SY)(A;;FA;;;BA)(A;;GRGW;;;IU)";

/// Who gets the control socket.
#[derive(Clone, Copy, Debug, PartialEq, Eq, Structural)]
pub struct SocketGrant {
    pub owner: Option<u32>,
    pub group: Option<u32>,
    /// Whether the group that the configuration names does not exist.
    pub no_such_group: bool,
}

/// The number that an environment variable holds.
pub open spec fn id_in(v: Option<Seq<char>>) -> Option<u32> {
    match v {
        Some(s) => match text::uint(s, u32::MAX as nat) {
            Some(n) => Some(n as u32),
            None => None,
        },
        None => None,
    }
}

fn read_id(v: Option<&str>) -> (r: Option<u32>)
    ensures
        r == id_in(text::opt_str(v)),
{
    match v {
        Some(s) => match text::parse_uint(s, u32::MAX as u64) {
            Some(n) => Some(n as u32),
            None => None,
        },
        None => None,
    }
}

/// Who gets the control socket.
pub open spec fn granted(
    named: bool,
    gid: Option<u32>,
    sudo_uid: Option<Seq<char>>,
    sudo_gid: Option<Seq<char>>,
) -> SocketGrant {
    if named {
        SocketGrant { owner: None, group: gid, no_such_group: gid is None }
    } else {
        match id_in(sudo_uid) {
            Some(u) => SocketGrant {
                owner: Some(u),
                group: id_in(sudo_gid),
                no_such_group: false,
            },
            None => SocketGrant { owner: None, group: None, no_such_group: false },
        }
    }
}

/// Who gets the control socket. `group` is the group that the configuration names, and `gid` its
/// number where there is such a group; the others are what `sudo` says of who started the daemon.
pub fn grant_socket_access(
    group: Option<&str>,
    gid: Option<u32>,
    sudo_uid: Option<&str>,
    sudo_gid: Option<&str>,
) -> (r: SocketGrant)
    ensures
        r == granted(group is Some, gid, text::opt_str(sudo_uid), text::opt_str(sudo_gid)),
{
    match group {
        Some(_) => SocketGrant { owner: None, group: gid, no_such_group: gid.is_none() },
        None => match read_id(sudo_uid) {
            Some(u) => SocketGrant {
                owner: Some(u),
                group: read_id(sudo_gid),
                no_such_group: false,
            },
            None => SocketGrant { owner: None, group: None, no_such_group: false },
        },
    }
}

/// The group that may pass through the directory of the control socket, if any: the same one that gets
/// the socket.
pub fn grant_dir_traversal(group: Option<&str>, gid: Option<u32>, sudo_gid: Option<&str>) -> (r:
    Option<u32>)
    ensures
        r == if group is Some {
            gid
        } else {
            id_in(text::opt_str(sudo_gid))
        },
{
    match group {
        Some(_) => gid,
        None => read_id(sudo_gid),
    }
}

/// The socket and its directory are opened to the same group.
pub proof fn law_grants_agree(
    gid: Option<u32>,
    sudo_uid: Option<Seq<char>>,
    sudo_gid: Option<Seq<char>>,
)
    ensures
        granted(true, gid, sudo_uid, sudo_gid).group == gid,
        id_in(sudo_uid) is Some ==> granted(false, gid, sudo_uid, sudo_gid).group == id_in(
            sudo_gid,
        ),
{
}

/// Without a group and without `sudo`, nobody but the daemon's own user gets in.
pub proof fn law_closed_by_default(gid: Option<u32>, sudo_gid: Option<Seq<char>>)
    ensures
        granted(false, gid, None, sudo_gid).owner is None,
        granted(false, gid, None, sudo_gid).group is None,
{
}

/// A named group gets the socket and nobody else does; it is told when there is no such group. Without
/// one, whoever started the daemon by `sudo` owns it together with their group, if those are numbers.
pub proof fn law_who_gets_the_socket(
    gid: Option<u32>,
    uid: u32,
    sudo_gid: u32,
    other: Option<Seq<char>>,
)
    ensures
        granted(true, gid, other, other) == (SocketGrant {
            owner: None,
            group: gid,
            no_such_group: gid is None,
        }),
        granted(false, gid, Some(text::dec(uid as nat)), Some(text::dec(sudo_gid as nat))) == (
        SocketGrant { owner: Some(uid), group: Some(sudo_gid), no_such_group: false }),
        granted(false, gid, Some(text::dec(uid as nat)), None) == (SocketGrant {
            owner: Some(uid),
            group: None,
            no_such_group: false,
        }),
        granted(false, gid, None, other) == (SocketGrant {
            owner: None,
            group: None,
            no_such_group: false,
        }),
{
    text::law_decimal_is_read_back(uid as nat, u32::MAX as nat);
    text::law_decimal_is_read_back(sudo_gid as nat, u32::MAX as nat);
}

} // verus!
