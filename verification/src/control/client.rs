//! The frontend's side of the control channel: which answer goes with which request.
//!
//! Connecting, and putting requests and answers on the wire, is the caller's.
use crate::control::server::{ControlRequest, ExposeResp};
use crate::control::status::StatusReport;
use crate::ctl::OwnedDevice;
use crate::mesh::NetworkStatus;
use vstd::prelude::*;
use vstd::string::*;

verus! {

/// The answer about the owner's devices.
pub struct ManageResp {
    pub message: String,
    pub devices: Vec<OwnedDevice>,
}

/// The answer about logging in.
pub struct LoginResp {
    pub authorize_url: String,
}

/// The answer about connecting.
pub struct ConnectedResp {
    pub connected: bool,
    pub message: String,
}

/// The answer about an update.
pub struct UpdateResp {
    pub version: String,
    pub message: String,
}

/// The answer about networks.
pub struct NetworkResp {
    pub message: String,
    pub networks: Vec<NetworkStatus>,
}

/// What the daemon answered.
pub enum Reply {
    Status(StatusReport),
    Manage(ManageResp),
    Expose(ExposeResp),
    Login(LoginResp),
    Connected(ConnectedResp),
    Update(UpdateResp),
    Network(NetworkResp),
    Error(String),
    /// Something else.
    Other,
}

/// Why an answer other than the one that goes with the request is of no use: it is the error that
/// the daemon gave, or no answer to that request at all.
pub open spec fn trouble(r: Reply) -> Seq<char> {
    match r {
        Reply::Error(e) => e@,
        _ => "unexpected response"@,
    }
}

fn refused(r: Reply) -> (t: String)
    ensures
        t@ == trouble(r),
{
    match r {
        Reply::Error(e) => e,
        _ => "unexpected response".to_owned(),
    }
}

/// Reads an answer as the daemon's status.
pub fn client_status(reply: Reply) -> (r: Result<StatusReport, String>)
    ensures
        match (reply, r) {
            (Reply::Status(x), Ok(y)) => y == x,
            (Reply::Status(_), Err(_)) => false,
            (_, Ok(_)) => false,
            (x, Err(t)) => t@ == trouble(x),
        },
{
    match reply {
        Reply::Status(x) => Ok(x),
        other => Err(refused(other)),
    }
}

/// Reads an answer as the owner's devices.
pub fn client_manage(reply: Reply) -> (r: Result<ManageResp, String>)
    ensures
        match (reply, r) {
            (Reply::Manage(x), Ok(y)) => y == x,
            (Reply::Manage(_), Err(_)) => false,
            (_, Ok(_)) => false,
            (x, Err(t)) => t@ == trouble(x),
        },
{
    match reply {
        Reply::Manage(x) => Ok(x),
        other => Err(refused(other)),
    }
}

/// Reads an answer as the exposed ports.
pub fn client_expose(reply: Reply) -> (r: Result<ExposeResp, String>)
    ensures
        match (reply, r) {
            (Reply::Expose(x), Ok(y)) => y == x,
            (Reply::Expose(_), Err(_)) => false,
            (_, Ok(_)) => false,
            (x, Err(t)) => t@ == trouble(x),
        },
{
    match reply {
        Reply::Expose(x) => Ok(x),
        other => Err(refused(other)),
    }
}

/// Reads an answer as where to log in.
pub fn client_login(reply: Reply) -> (r: Result<LoginResp, String>)
    ensures
        match (reply, r) {
            (Reply::Login(x), Ok(y)) => y == x,
            (Reply::Login(_), Err(_)) => false,
            (_, Ok(_)) => false,
            (x, Err(t)) => t@ == trouble(x),
        },
{
    match reply {
        Reply::Login(x) => Ok(x),
        other => Err(refused(other)),
    }
}

/// Reads an answer as whether the mesh is connected.
pub fn client_set_connected(reply: Reply) -> (r: Result<ConnectedResp, String>)
    ensures
        match (reply, r) {
            (Reply::Connected(x), Ok(y)) => y == x,
            (Reply::Connected(_), Err(_)) => false,
            (_, Ok(_)) => false,
            (x, Err(t)) => t@ == trouble(x),
        },
{
    match reply {
        Reply::Connected(x) => Ok(x),
        other => Err(refused(other)),
    }
}

/// Reads an answer as the update that is applied.
pub fn client_apply_update(reply: Reply) -> (r: Result<UpdateResp, String>)
    ensures
        match (reply, r) {
            (Reply::Update(x), Ok(y)) => y == x,
            (Reply::Update(_), Err(_)) => false,
            (_, Ok(_)) => false,
            (x, Err(t)) => t@ == trouble(x),
        },
{
    match reply {
        Reply::Update(x) => Ok(x),
        other => Err(refused(other)),
    }
}

/// Reads an answer as the networks.
pub fn client_set_network(reply: Reply) -> (r: Result<NetworkResp, String>)
    ensures
        match (reply, r) {
            (Reply::Network(x), Ok(y)) => y == x,
            (Reply::Network(_), Err(_)) => false,
            (_, Ok(_)) => false,
            (x, Err(t)) => t@ == trouble(x),
        },
{
    match reply {
        Reply::Network(x) => Ok(x),
        other => Err(refused(other)),
    }
}

/// Reads the answer to a change of own-device peering: the status that it left.
pub fn client_set_own_device_peering(reply: Reply) -> (r: Result<StatusReport, String>)
    ensures
        match (reply, r) {
            (Reply::Status(x), Ok(y)) => y == x,
            (Reply::Status(_), Err(_)) => false,
            (_, Ok(_)) => false,
            (x, Err(t)) => t@ == trouble(x),
        },
{
    client_status(reply)
}

/// The request to refuse a user's devices, given a name to show; or to let them in again, given none.
pub fn client_set_blocked(user_id: u64, username: Option<String>) -> (r: ControlRequest)
    ensures
        match username {
            Some(n) => r == (ControlRequest::BlockPeer { user_id, username: n }),
            None => r == (ControlRequest::UnblockPeer { user_id }),
        },
{
    match username {
        Some(username) => ControlRequest::BlockPeer { user_id, username },
        None => ControlRequest::UnblockPeer { user_id },
    }
}

/// An error is told in the daemon's words, and an answer to something else as unexpected.
pub proof fn law_trouble_is_told_as_it_is(e: String, r: Reply)
    ensures
        trouble(Reply::Error(e)) == e@,
        !(r is Error) ==> trouble(r) == "unexpected response"@,
{
}

} // verus!
