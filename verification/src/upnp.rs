//! A way in through the home router.
//!
//! Which port is asked of the router, and what follows from its answers. The mapping makes a device
//! dialable; without one it is reached in other ways, so no failure is fatal. Talking to the router is
//! the caller's.
use crate::net::{Endpoint, Ip};
use crate::text;
use vstd::prelude::*;
use vstd::string::*;

verus! {

/// How long the router is asked to keep a mapping, in seconds. It ends by itself when the engine is
/// killed.
pub const LEASE_SECS: u32 = 3600;

/// How often a mapping is renewed, in seconds.
pub const RENEW_SECS: u32 = 1800;

/// How many external ports are tried.
pub const PORT_FALLBACK_TRIES: u16 = 8;

/// What the router answered.
#[derive(Clone, Copy, Debug, PartialEq, Eq, Structural)]
pub enum Mapped {
    Done,
    /// Another device behind the router has that port.
    InUse,
    /// Something that another port would not help.
    Refused,
}

/// What follows from the router's answers.
#[derive(Clone, Copy, Debug, PartialEq, Eq, Structural)]
pub enum WalkStep {
    /// To ask for this port.
    Ask(u16),
    /// This port is mapped.
    Mapped(u16),
    /// To give up, as the router refused.
    Refused,
    /// To give up, as every port that was tried is in use.
    Exhausted,
}

/// A walk over external ports. The port within stays the same, so that the tunnel's socket does not
/// move.
pub struct PortWalk {
    /// The port that is preferred: the one that the tunnel listens on.
    pub port: u16,
    /// How many were tried before the one that is asked for.
    pub tried: u16,
}

impl PortWalk {
    /// The port that is asked for, while there is one.
    pub open spec fn asking(&self) -> Option<u16> {
        if self.tried < PORT_FALLBACK_TRIES && self.port + self.tried <= 65535 {
            Some((self.port + self.tried) as u16)
        } else {
            None
        }
    }

    /// What is to be done about the port that comes next.
    pub open spec fn step(&self) -> WalkStep {
        match self.asking() {
            Some(p) => WalkStep::Ask(p),
            None => WalkStep::Exhausted,
        }
    }

    /// A walk from the preferred port.
    pub fn new(port: u16) -> (r: PortWalk)
        ensures
            r.port == port,
            r.tried == 0,
            r.asking() == Some(port),
    {
        PortWalk { port, tried: 0 }
    }

    /// The port to ask for.
    pub fn next(&self) -> (r: WalkStep)
        ensures
            r == self.step(),
    {
        if self.tried < PORT_FALLBACK_TRIES && self.tried <= 65535 - self.port {
            WalkStep::Ask(self.port + self.tried)
        } else {
            WalkStep::Exhausted
        }
    }

    /// What follows from the answer about the port that was asked for. Only a port in use is followed
    /// by another.
    pub fn answer(&mut self, how: Mapped) -> (r: WalkStep)
        requires
            old(self).asking() is Some,
        ensures
            final(self).port == old(self).port,
            match how {
                Mapped::Done => r == WalkStep::Mapped(old(self).asking()->0) && final(self).tried
                    == old(self).tried,
                Mapped::Refused => r == WalkStep::Refused && final(self).tried == old(self).tried,
                Mapped::InUse => final(self).tried == old(self).tried + 1 && r == final(self).step(),
            },
    {
        match how {
            Mapped::Done => WalkStep::Mapped(self.port + self.tried),
            Mapped::Refused => WalkStep::Refused,
            Mapped::InUse => {
                self.tried = self.tried + 1;
                self.next()
            },
        }
    }
}

/// Every port that is asked for lies within a few of the preferred one, and each is asked for once.
pub proof fn law_walk_is_short(w: PortWalk, v: PortWalk)
    requires
        w.port == v.port,
        w.asking() is Some,
        v.asking() == w.asking(),
    ensures
        w.tried == v.tried,
        w.port <= w.asking()->0 < w.port + PORT_FALLBACK_TRIES,
{
}

/// What is said when every port is in use.
pub fn exhausted_text(port: u16) -> (r: String)
    ensures
        r@ == "router refused UPnP port mapping: "@ + text::dec(PORT_FALLBACK_TRIES as nat)
            + " external ports from "@ + text::dec(port as nat) + " all in use"@,
{
    let mut t = "router refused UPnP port mapping: ".to_owned();
    t.append(text::decimal(PORT_FALLBACK_TRIES as u64).as_str());
    t.append(" external ports from ");
    t.append(text::decimal(port as u64).as_str());
    t.append(" all in use");
    t
}

/// Where peers dial, once a port is mapped: the router's address, and the port without.
pub fn map_port(external_ip: Ip, external: u16) -> (r: Endpoint)
    ensures
        r == (Endpoint { ip: external_ip, port: external }),
{
    Endpoint { ip: external_ip, port: external }
}

/// The address that the router forwards to, if the one that the default route uses will do: it is an
/// IPv4 address of this host in its network.
pub fn default_route_ipv4(ip: Ip) -> (r: Option<u32>)
    ensures
        r == match ip {
            Ip::V4(a) => if a / 16777216 != 127 && a != 0 {
                Some(a)
            } else {
                None
            },
            Ip::V6(_) => None,
        },
{
    match ip {
        Ip::V4(a) => if a / 16777216 != 127 && a != 0 {
            Some(a)
        } else {
            None
        },
        Ip::V6(_) => None,
    }
}

/// Ports are asked for one after another from the preferred one on, as many as are tried and as there
/// are.
pub proof fn law_ports_are_asked_for_in_turn(w: PortWalk)
    ensures
        w.tried < 8 && w.port + w.tried <= 65535 ==> w.step() == WalkStep::Ask(
            (w.port + w.tried) as u16,
        ),
        w.tried >= 8 || w.port + w.tried > 65535 ==> w.step()
            == WalkStep::Exhausted,
{
}

} // verus!
