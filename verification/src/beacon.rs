//! LAN peer discovery.
//!
//! Engines broadcast their public key and WireGuard port on the local segment. A received beacon is
//! only a hint: before a peer is routed through the address it came from, the peer must answer a
//! probe with an authenticated acknowledgement. This module holds the datagram format, what a
//! received datagram leads to, and the state machine that adopts and drops LAN endpoints.
use crate::assoc::{self, same_key, Assoc, PubKey};
use crate::clock::CLOCK_MAX;
use crate::net::Endpoint;
use vstd::prelude::*;

verus! {

/// Version of the datagram format.
pub const VERSION: u8 = 1;

/// Length of an announcement: tag, version, public key, port.
pub const ANNOUNCE_LEN: usize = 39;

/// Length of a probe's nonce.
pub const NONCE_LEN: usize = 16;

/// Length of an authenticator.
pub const MAC_LEN: usize = 16;

/// Length of a probe or its answer: an announcement, a kind, a nonce and an authenticator.
pub const KINDED_LEN: usize = 72;

/// Kind of a probe.
pub const KIND_PROBE: u8 = 1;

/// Kind of an answer to a probe.
pub const KIND_ACK: u8 = 2;

/// The port that beacons are sent to unless configured otherwise.
pub const DEFAULT_PORT: u16 = 51821;

/// Milliseconds between announcements, once the first three are out.
pub const SEND_INTERVAL: u64 = 30_000;

/// A candidate is dropped this long after its last beacon.
pub const CAND_TTL: u64 = 90_000;

/// How long to wait for an answer before giving a candidate up.
pub const PROBE_GRACE: u64 = 6_000;

/// How long an answer, and the probe that asked for it, count.
pub const PROBE_ACK_TTL: u64 = 10_000;

/// After an unanswered probe, how long the peer is not probed again.
pub const PROBE_BACKOFF: u64 = 60_000;

/// After switching to a LAN endpoint, how long health is ignored.
pub const SETTLE: u64 = 3_000;

/// A just-switched endpoint that is not reachable within this time is given up.
pub const VERIFY_GRACE: u64 = 8_000;

/// A proven endpoint is given up after this long unreachable.
pub const STALE_GRACE: u64 = 60_000;

/// How long a peer is held off the LAN after an endpoint was given up.
pub const RETRY_COOLDOWN: u64 = 30_000;

/// The time from `since` to `now`, none when `since` is later.
pub open spec fn elapsed(now: u64, since: u64) -> int {
    if now >= since {
        now - since
    } else {
        0
    }
}

fn since(now: u64, at: u64) -> (r: u64)
    ensures
        r == elapsed(now, at),
{
    if now >= at {
        now - at
    } else {
        0
    }
}

/// Whether `at` is less than `ttl` before `now`.
pub open spec fn within(now: u64, at: u64, ttl: u64) -> bool {
    elapsed(now, at) < ttl
}

fn is_within(now: u64, at: u64, ttl: u64) -> (r: bool)
    ensures
        r == within(now, at, ttl),
{
    since(now, at) < ttl
}

/// The tag that every datagram starts with.
pub open spec fn magic() -> Seq<u8> {
    seq![85u8, 76u8, 66u8, 49u8]
}

/// The announcement of a public key at a port.
pub open spec fn announcement(pk: Seq<u8>, port: u16) -> Seq<u8> {
    magic() + seq![VERSION] + pk + seq![(port % 256) as u8, (port / 256) as u8]
}

/// A probe or its answer.
pub open spec fn kinded_message(
    pk: Seq<u8>,
    port: u16,
    kind: u8,
    nonce: Seq<u8>,
    mac: Seq<u8>,
) -> Seq<u8> {
    announcement(pk, port) + seq![kind] + nonce + mac
}

/// The kind and authenticator of a probe or its answer.
pub struct Kinded {
    pub kind: u8,
    pub nonce: [u8; 16],
    pub mac: [u8; 16],
}

/// The model of a kind and authenticator.
pub struct KindedView {
    pub kind: u8,
    pub nonce: Seq<u8>,
    pub mac: Seq<u8>,
}

impl View for Kinded {
    type V = KindedView;

    open spec fn view(&self) -> KindedView {
        KindedView { kind: self.kind, nonce: self.nonce@, mac: self.mac@ }
    }
}

/// A datagram that was understood.
pub struct Msg {
    pub pk: [u8; 32],
    pub port: u16,
    pub kinded: Option<Kinded>,
}

/// The model of a datagram.
pub struct MsgView {
    pub pk: Seq<u8>,
    pub port: u16,
    pub kinded: Option<KindedView>,
}

impl View for Msg {
    type V = MsgView;

    open spec fn view(&self) -> MsgView {
        MsgView {
            pk: self.pk@,
            port: self.port,
            kinded: match self.kinded {
                Some(k) => Some(k@),
                None => None,
            },
        }
    }
}

/// What a datagram says, when it is well formed and of a known version and kind.
pub open spec fn message_of(buf: Seq<u8>) -> Option<MsgView> {
    if buf.len() < ANNOUNCE_LEN || buf.take(4) != magic() || buf[4] != VERSION {
        None
    } else {
        let pk = buf.subrange(5, 37);
        let port = (buf[37] + buf[38] * 256) as u16;
        if buf.len() == ANNOUNCE_LEN {
            Some(MsgView { pk, port, kinded: None })
        } else if buf.len() == KINDED_LEN && (buf[39] == KIND_PROBE || buf[39] == KIND_ACK) {
            Some(
                MsgView {
                    pk,
                    port,
                    kinded: Some(
                        KindedView {
                            kind: buf[39],
                            nonce: buf.subrange(40, 56),
                            mac: buf.subrange(56, 72),
                        },
                    ),
                },
            )
        } else {
            None
        }
    }
}

/// Encodes the announcement of a public key at a port.
pub fn encode(pubkey: &[u8; 32], port: u16) -> (r: Vec<u8>)
    ensures
        r@ == announcement(pubkey@, port),
        r@.len() == ANNOUNCE_LEN,
{
    let mut buf: Vec<u8> = Vec::new();
    buf.push(85);
    buf.push(76);
    buf.push(66);
    buf.push(49);
    buf.push(VERSION);
    let ghost head = magic() + seq![VERSION];
    assert(buf@ =~= head);
    let mut i: usize = 0;
    while i < 32
        invariant
            i <= 32,
            buf@ == head + pubkey@.take(i as int),
        decreases 32 - i,
    {
        buf.push(pubkey[i]);
        assert(pubkey@.take(i + 1) =~= pubkey@.take(i as int).push(pubkey@[i as int]));
        i += 1;
    }
    assert(pubkey@.take(32) =~= pubkey@);
    buf.push((port % 256) as u8);
    buf.push((port / 256) as u8);
    assert(buf@ =~= announcement(pubkey@, port));
    buf
}

/// Encodes a probe or its answer.
pub fn encode_kinded(
    pubkey: &[u8; 32],
    port: u16,
    kind: u8,
    nonce: &[u8; 16],
    mac: &[u8; 16],
) -> (r: Vec<u8>)
    ensures
        r@ == kinded_message(pubkey@, port, kind, nonce@, mac@),
        r@.len() == KINDED_LEN,
{
    let mut buf = encode(pubkey, port);
    buf.push(kind);
    let ghost head = announcement(pubkey@, port) + seq![kind];
    assert(buf@ =~= head);
    let mut i: usize = 0;
    while i < 16
        invariant
            i <= 16,
            buf@ == head + nonce@.take(i as int),
        decreases 16 - i,
    {
        buf.push(nonce[i]);
        assert(nonce@.take(i + 1) =~= nonce@.take(i as int).push(nonce@[i as int]));
        i += 1;
    }
    assert(nonce@.take(16) =~= nonce@);
    let ghost head2 = head + nonce@;
    let mut j: usize = 0;
    while j < 16
        invariant
            j <= 16,
            buf@ == head2 + mac@.take(j as int),
        decreases 16 - j,
    {
        buf.push(mac[j]);
        assert(mac@.take(j + 1) =~= mac@.take(j as int).push(mac@[j as int]));
        j += 1;
    }
    assert(mac@.take(16) =~= mac@);
    buf
}

fn bytes16(buf: &[u8], from: usize) -> (r: [u8; 16])
    requires
        from + 16 <= buf.len(),
    ensures
        r@ == buf@.subrange(from as int, from + 16),
{
    let mut out: [u8; 16] = [0;16];
    let mut i: usize = 0;
    while i < 16
        invariant
            i <= 16,
            from + 16 <= buf.len(),
            forall|j: int| 0 <= j < i ==> out@[j] == buf@[from + j],
        decreases 16 - i,
    {
        out[i] = buf[from + i];
        i += 1;
    }
    assert(out@ =~= buf@.subrange(from as int, from + 16));
    out
}

fn bytes32(buf: &[u8], from: usize) -> (r: [u8; 32])
    requires
        from + 32 <= buf.len(),
    ensures
        r@ == buf@.subrange(from as int, from + 32),
{
    let mut out: [u8; 32] = [0;32];
    let mut i: usize = 0;
    while i < 32
        invariant
            i <= 32,
            from + 32 <= buf.len(),
            forall|j: int| 0 <= j < i ==> out@[j] == buf@[from + j],
        decreases 32 - i,
    {
        out[i] = buf[from + i];
        i += 1;
    }
    assert(out@ =~= buf@.subrange(from as int, from + 32));
    out
}

/// Parses a datagram; anything malformed or of another version or kind is ignored.
pub fn decode(buf: &[u8]) -> (r: Option<Msg>)
    ensures
        match r {
            Some(m) => message_of(buf@) == Some(m@),
            None => message_of(buf@) is None,
        },
{
    if buf.len() < ANNOUNCE_LEN {
        return None;
    }
    if buf[0] != 85 || buf[1] != 76 || buf[2] != 66 || buf[3] != 49 {
        proof {
            let t = buf@.take(4);
            assert(t[0] == buf@[0] && t[1] == buf@[1] && t[2] == buf@[2] && t[3] == buf@[3]);
        }
        return None;
    }
    assert(buf@.take(4) =~= magic());
    if buf[4] != VERSION {
        return None;
    }
    let pk = bytes32(buf, 5);
    let port: u16 = buf[37] as u16 + buf[38] as u16 * 256;
    if buf.len() == ANNOUNCE_LEN {
        return Some(Msg { pk, port, kinded: None });
    }
    if buf.len() == KINDED_LEN && (buf[39] == KIND_PROBE || buf[39] == KIND_ACK) {
        let k = Kinded { kind: buf[39], nonce: bytes16(buf, 40), mac: bytes16(buf, 56) };
        return Some(Msg { pk, port, kinded: Some(k) });
    }
    None
}

proof fn lemma_announced(pk: Seq<u8>, port: u16, rest: Seq<u8>)
    requires
        pk.len() == 32,
    ensures
        ({
            let b = announcement(pk, port) + rest;
            &&& b.take(4) == magic()
            &&& b[4] == VERSION
            &&& b.subrange(5, 37) == pk
            &&& (b[37] + b[38] * 256) as u16 == port
            &&& b.len() == 39 + rest.len()
        }),
{
    let b = announcement(pk, port) + rest;
    assert(b.take(4) =~= magic());
    assert(b.subrange(5, 37) =~= pk);
    assert(b[37] == (port % 256) as u8 && b[38] == (port / 256) as u8);
}

/// An announcement is understood as what it announces.
pub proof fn law_announcement_roundtrips(pk: Seq<u8>, port: u16)
    requires
        pk.len() == 32,
    ensures
        message_of(announcement(pk, port)) == Some(MsgView { pk, port, kinded: None }),
{
    lemma_announced(pk, port, seq![]);
    assert(announcement(pk, port) + seq![] =~= announcement(pk, port));
}

/// A probe or its answer is understood as what it carries.
pub proof fn law_kinded_roundtrips(
    pk: Seq<u8>,
    port: u16,
    kind: u8,
    nonce: Seq<u8>,
    mac: Seq<u8>,
)
    requires
        pk.len() == 32,
        nonce.len() == NONCE_LEN,
        mac.len() == MAC_LEN,
        kind == KIND_PROBE || kind == KIND_ACK,
    ensures
        message_of(kinded_message(pk, port, kind, nonce, mac)) == Some(
            MsgView { pk, port, kinded: Some(KindedView { kind, nonce, mac }) },
        ),
{
    let b = kinded_message(pk, port, kind, nonce, mac);
    let rest = seq![kind] + nonce + mac;
    lemma_announced(pk, port, rest);
    assert(b =~= announcement(pk, port) + rest);
    assert(b.subrange(40, 56) =~= nonce);
    assert(b.subrange(56, 72) =~= mac);
    assert(b[39] == kind);
}

/// A LAN endpoint learned from a beacon.
#[derive(Clone, Copy, Debug, PartialEq, Eq, Structural)]
pub struct Candidate {
    /// Where the beacon came from, with the port that it announced.
    pub addr: Endpoint,
    pub seen: u64,
}

/// How far the adoption of a peer's LAN endpoint has come.
#[derive(Clone, Copy, Debug, PartialEq, Eq, Structural)]
pub enum LanState {
    /// Waiting for an answer from `addr`. Not routed.
    Probing { addr: Endpoint, since: u64 },
    /// Routed to `addr`, waiting for traffic to flow.
    Trying { addr: Endpoint, since: u64 },
    /// Traffic flows through `addr`.
    Active { addr: Endpoint, last_ok: u64 },
    /// `addr` was given up; held off until `until`.
    Failed { addr: Endpoint, until: u64 },
}

impl LanState {
    /// The address that the state is about.
    pub open spec fn addr(self) -> Endpoint {
        match self {
            LanState::Probing { addr, .. } => addr,
            LanState::Trying { addr, .. } => addr,
            LanState::Active { addr, .. } => addr,
            LanState::Failed { addr, .. } => addr,
        }
    }

    /// The endpoint that the peer is routed to, when it is.
    pub open spec fn route(self) -> Option<Endpoint> {
        match self {
            LanState::Trying { addr, .. } => Some(addr),
            LanState::Active { addr, .. } => Some(addr),
            _ => None,
        }
    }
}

/// An answer to a probe: which address answered, and when.
#[derive(Clone, Copy, Debug, PartialEq, Eq, Structural)]
pub struct Ack {
    pub addr: Endpoint,
    pub at: u64,
}

/// A probe that was sent and may still be answered.
#[derive(Clone, Copy)]
pub struct Pending {
    pub nonce: [u8; 16],
    pub addr: Endpoint,
    pub at: u64,
}

/// What is known of the LAN.
pub struct Beacon {
    pub candidates: Assoc<[u8; 32], Candidate>,
    /// The peers of the mesh; beacons of others are dropped.
    pub members: Assoc<[u8; 32], bool>,
    pub acks: Assoc<[u8; 32], Ack>,
    pub pending: Assoc<[u8; 32], Pending>,
    /// Peers whose probe went unanswered, and until when they are not probed again.
    pub probe_backoff: Assoc<[u8; 32], u64>,
    pub states: Assoc<[u8; 32], LanState>,
}

/// Whether `addr` answered a probe recently enough to act on.
pub open spec fn fresh(ack: Option<Ack>, addr: Endpoint, now: u64) -> bool {
    ack matches Some(a) && a.addr == addr && elapsed(now, a.at) < PROBE_ACK_TTL
}

/// What one step of the state machine leads to for a peer.
pub struct Step {
    /// The next state; `None` when the LAN is not used for the peer.
    pub next: Option<LanState>,
    /// Until when the peer is not probed.
    pub backoff: Option<u64>,
    /// The address to probe now.
    pub probe: Option<Endpoint>,
}

/// The step that starts adopting a candidate.
pub open spec fn begin_step(
    ack: Option<Ack>,
    backoff: Option<u64>,
    cand: Candidate,
    now: u64,
) -> Step {
    if fresh(ack, cand.addr, now) {
        Step {
            next: Some(LanState::Trying { addr: cand.addr, since: now }),
            backoff,
            probe: None,
        }
    } else if backoff matches Some(until) && now < until {
        Step { next: None, backoff, probe: None }
    } else {
        Step {
            next: Some(LanState::Probing { addr: cand.addr, since: now }),
            backoff,
            probe: Some(cand.addr),
        }
    }
}

/// The step from a peer's state, given its live candidate and whether it is reachable.
pub open spec fn peer_step(
    state: Option<LanState>,
    ack: Option<Ack>,
    backoff: Option<u64>,
    cand: Candidate,
    ok: bool,
    now: u64,
) -> Step {
    match state {
        None => begin_step(ack, backoff, cand, now),
        Some(LanState::Probing { addr, since }) => if fresh(ack, addr, now) {
            Step { next: Some(LanState::Trying { addr, since: now }), backoff, probe: None }
        } else if elapsed(now, since) >= PROBE_GRACE {
            Step { next: None, backoff: Some((now + PROBE_BACKOFF) as u64), probe: None }
        } else {
            Step { next: state, backoff, probe: Some(addr) }
        },
        Some(LanState::Trying { addr, since }) => Step {
            next: Some(
                if elapsed(now, since) < SETTLE {
                    LanState::Trying { addr, since }
                } else if ok {
                    LanState::Active { addr, last_ok: now }
                } else if elapsed(now, since) >= VERIFY_GRACE {
                    LanState::Failed { addr, until: (now + RETRY_COOLDOWN) as u64 }
                } else {
                    LanState::Trying { addr, since }
                },
            ),
            backoff,
            probe: None,
        },
        Some(LanState::Active { addr, last_ok }) => Step {
            next: Some(
                if ok {
                    LanState::Active { addr, last_ok: now }
                } else if elapsed(now, last_ok) >= STALE_GRACE {
                    LanState::Failed { addr, until: (now + RETRY_COOLDOWN) as u64 }
                } else {
                    LanState::Active { addr, last_ok }
                },
            ),
            backoff,
            probe: None,
        },
        Some(LanState::Failed { addr, until }) => if now < until {
            Step { next: state, backoff, probe: None }
        } else {
            begin_step(ack, backoff, cand, now)
        },
    }
}

/// The candidates with a recent beacon.
pub open spec fn live_candidates(m: Map<Seq<u8>, Candidate>, now: u64) -> Map<Seq<u8>, Candidate> {
    assoc::retained(m, |k: Seq<u8>, c: Candidate| within(now, c.seen, CAND_TTL))
}

/// The answers that still count.
pub open spec fn live_acks(m: Map<Seq<u8>, Ack>, now: u64) -> Map<Seq<u8>, Ack> {
    assoc::retained(m, |k: Seq<u8>, a: Ack| within(now, a.at, PROBE_ACK_TTL))
}

/// The peers routed to a LAN endpoint, and the probes to send.
pub struct Selection {
    pub routes: Assoc<[u8; 32], Endpoint>,
    pub probes: Vec<([u8; 32], Endpoint)>,
}

/// What a received datagram calls for.
pub enum Received {
    /// Nothing; it was not understood or not from a peer.
    Ignored,
    /// Nothing more than noting the candidate.
    Noted,
    /// Answering, if the probe's authenticator holds.
    Probe { pk: [u8; 32], nonce: [u8; 16], mac: [u8; 16] },
    /// Recording that `addr` answered, if the answer's authenticator holds.
    Ack { pk: [u8; 32], addr: Endpoint, nonce: [u8; 16], mac: [u8; 16] },
}

/// The milliseconds to wait before the announcement with this number.
pub open spec fn announce_wait(n: u64) -> u64 {
    if n < 3 {
        (n * 1000) as u64
    } else {
        SEND_INTERVAL
    }
}

/// The milliseconds to wait before the announcement with this number: a burst of three, then a
/// steady interval.
pub fn announce_gap(n: u64) -> (r: u64)
    ensures
        r == announce_wait(n),
{
    if n < 3 {
        n * 1000
    } else {
        SEND_INTERVAL
    }
}

fn same16(a: &[u8; 16], b: &[u8; 16]) -> (r: bool)
    ensures
        r == (a@ == b@),
{
    let mut i: usize = 0;
    while i < 16
        invariant
            i <= 16,
            forall|j: int| 0 <= j < i ==> a@[j] == b@[j],
        decreases 16 - i,
    {
        if a[i] != b[i] {
            return false;
        }
        i += 1;
    }
    assert(a@ =~= b@);
    true
}

/// Whether an authenticator is the expected one. None is expected of a key that cannot have made one.
pub open spec fn authentic(mac: Seq<u8>, expected: Option<[u8; 16]>) -> bool {
    expected matches Some(e) && e@ == mac
}

fn is_authentic(mac: &[u8; 16], expected: &Option<[u8; 16]>) -> (r: bool)
    ensures
        r == authentic(mac@, *expected),
{
    match expected {
        Some(e) => same16(e, mac),
        None => false,
    }
}

/// The answer to a probe that carries the authenticator `mac`, given the expected one and the answer's
/// own. A probe is answered if and only if its authenticator is the expected one and the answer has
/// one.
pub fn answer_probe(
    my_pubkey: &[u8; 32],
    my_wg_port: u16,
    nonce: &[u8; 16],
    mac: &[u8; 16],
    expected: Option<[u8; 16]>,
    ack_mac: Option<[u8; 16]>,
) -> (r: Option<Vec<u8>>)
    ensures
        r is Some <==> authentic(mac@, expected) && ack_mac is Some,
        r matches Some(v) ==> v@ == kinded_message(
            my_pubkey@,
            my_wg_port,
            KIND_ACK,
            nonce@,
            ack_mac->0@,
        ),
{
    if !is_authentic(mac, &expected) {
        return None;
    }
    match ack_mac {
        Some(own) => Some(encode_kinded(my_pubkey, my_wg_port, KIND_ACK, nonce, &own)),
        None => None,
    }
}

impl Beacon {
    /// The keys of each table are distinct.
    pub open spec fn wf(&self) -> bool {
        &&& self.candidates.wf()
        &&& self.members.wf()
        &&& self.acks.wf()
        &&& self.pending.wf()
        &&& self.probe_backoff.wf()
        &&& self.states.wf()
    }

    /// Nothing known yet.
    pub fn new() -> (r: Beacon)
        ensures
            r.wf(),
            r.candidates@ == Map::<Seq<u8>, Candidate>::empty(),
            r.members@ == Map::<Seq<u8>, bool>::empty(),
            r.acks@ == Map::<Seq<u8>, Ack>::empty(),
            r.pending@ == Map::<Seq<u8>, Pending>::empty(),
            r.probe_backoff@ == Map::<Seq<u8>, u64>::empty(),
            r.states@ == Map::<Seq<u8>, LanState>::empty(),
    {
        Beacon {
            candidates: Assoc::new(),
            members: Assoc::new(),
            acks: Assoc::new(),
            pending: Assoc::new(),
            probe_backoff: Assoc::new(),
            states: Assoc::new(),
        }
    }

    /// Takes in a datagram from `from`. A peer's beacon makes its address a candidate. A probe is
    /// handed out to be verified and answered, and so is the answer to a probe of ours that is still
    /// fresh and has its nonce; any other answer is only a beacon.
    pub fn receive(
        &mut self,
        my_pubkey: &[u8; 32],
        datagram: &[u8],
        from: Endpoint,
        now: u64,
    ) -> (r: Received)
        requires
            old(self).wf(),
        ensures
            final(self).wf(),
            final(self).members == old(self).members,
            final(self).acks == old(self).acks,
            final(self).pending == old(self).pending,
            final(self).probe_backoff == old(self).probe_backoff,
            final(self).states == old(self).states,
            match message_of(datagram@) {
                Some(m) if m.pk != my_pubkey@ && old(self).members@.contains_key(m.pk) => {
                    let addr = Endpoint { ip: from.ip, port: m.port };
                    &&& final(self).candidates@ == old(self).candidates@.insert(
                        m.pk,
                        Candidate { addr, seen: now },
                    )
                    &&& match m.kinded {
                        None => r is Noted,
                        Some(k) => if k.kind == KIND_PROBE {
                            r matches Received::Probe { pk, nonce, mac } && pk@ == m.pk && nonce@
                                == k.nonce && mac@ == k.mac
                        } else if old(self).pending@.contains_key(m.pk) && old(
                            self,
                        ).pending@[m.pk].nonce@ == k.nonce && elapsed(
                            now,
                            old(self).pending@[m.pk].at,
                        ) < PROBE_ACK_TTL {
                            r matches Received::Ack { pk, addr: a, nonce, mac } && pk@ == m.pk && a
                                == addr && nonce@ == k.nonce && mac@ == k.mac
                        } else {
                            r is Noted
                        },
                    }
                },
                _ => r is Ignored && final(self).candidates == old(self).candidates,
            },
    {
        let msg = match decode(datagram) {
            Some(m) => m,
            None => {
                return Received::Ignored;
            },
        };
        if same_key(&msg.pk, my_pubkey) {
            return Received::Ignored;
        }
        if !self.members.contains(&msg.pk) {
            return Received::Ignored;
        }
        let addr = Endpoint { ip: from.ip, port: msg.port };
        self.candidates.insert(msg.pk, Candidate { addr, seen: now });
        match msg.kinded {
            None => Received::Noted,
            Some(k) => {
                if k.kind == KIND_PROBE {
                    return Received::Probe { pk: msg.pk, nonce: k.nonce, mac: k.mac };
                }
                match self.pending.get(&msg.pk) {
                    Some(p) => {
                        if same16(&p.nonce, &k.nonce) && since(now, p.at) < PROBE_ACK_TTL {
                            return Received::Ack {
                                pk: msg.pk,
                                addr,
                                nonce: k.nonce,
                                mac: k.mac,
                            };
                        }
                    },
                    None => {},
                }
                Received::Noted
            },
        }
    }

    /// Takes in the answer to a probe of ours, given the authenticator that it carries and the expected
    /// one. It counts if and only if they are the same; otherwise nothing changes.
    pub fn record_ack(
        &mut self,
        pk: [u8; 32],
        addr: Endpoint,
        mac: &[u8; 16],
        expected: Option<[u8; 16]>,
        now: u64,
    ) -> (counts: bool)
        requires
            old(self).wf(),
        ensures
            final(self).wf(),
            counts == authentic(mac@, expected),
            counts ==> final(self).acks@ == old(self).acks@.insert(pk@, Ack { addr, at: now }),
            !counts ==> *final(self) == *old(self),
            final(self).candidates == old(self).candidates,
            final(self).members == old(self).members,
            final(self).pending == old(self).pending,
            final(self).probe_backoff == old(self).probe_backoff,
            final(self).states == old(self).states,
    {
        if !is_authentic(mac, &expected) {
            return false;
        }
        self.acks.insert(pk, Ack { addr, at: now });
        true
    }

    /// The probe of a peer at `addr` and where to send it, given a nonce and its authenticator; it is
    /// then awaited. `None` when there is no such authenticator.
    pub fn probe(
        &mut self,
        my_pubkey: &[u8; 32],
        my_wg_port: u16,
        beacon_port: u16,
        pk: [u8; 32],
        addr: Endpoint,
        nonce: [u8; 16],
        mac: Option<[u8; 16]>,
        now: u64,
    ) -> (r: Option<(Vec<u8>, Endpoint)>)
        requires
            old(self).wf(),
        ensures
            final(self).wf(),
            final(self).candidates == old(self).candidates,
            final(self).members == old(self).members,
            final(self).acks == old(self).acks,
            final(self).probe_backoff == old(self).probe_backoff,
            final(self).states == old(self).states,
            match mac {
                None => r is None && final(self).pending == old(self).pending,
                Some(m) => {
                    &&& final(self).pending@ == old(self).pending@.insert(
                        pk@,
                        Pending { nonce, addr, at: now },
                    )
                    &&& r matches Some((payload, dst)) && payload@ == kinded_message(
                        my_pubkey@,
                        my_wg_port,
                        KIND_PROBE,
                        nonce@,
                        m@,
                    ) && dst == (Endpoint { ip: addr.ip, port: beacon_port })
                },
            },
    {
        match mac {
            None => None,
            Some(m) => {
                self.pending.insert(pk, Pending { nonce, addr, at: now });
                Some(
                    (
                        encode_kinded(my_pubkey, my_wg_port, KIND_PROBE, &nonce, &m),
                        Endpoint { ip: addr.ip, port: beacon_port },
                    ),
                )
            },
        }
    }

    fn ack_fresh(&self, pk: &[u8; 32], addr: Endpoint, now: u64) -> (r: bool)
        requires
            self.wf(),
        ensures
            r == fresh(self.acks@.get(pk@), addr, now),
    {
        match self.acks.get(pk) {
            Some(a) => a.addr == addr && since(now, a.at) < PROBE_ACK_TTL,
            None => false,
        }
    }

    fn begin(&self, pk: &[u8; 32], cand: &Candidate, now: u64) -> (r: (
        Option<LanState>,
        Option<Endpoint>,
    ))
        requires
            self.wf(),
        ensures
            ({
                let want = begin_step(
                    self.acks@.get(pk@),
                    self.probe_backoff@.get(pk@),
                    *cand,
                    now,
                );
                r.0 == want.next && r.1 == want.probe && self.probe_backoff@.get(pk@)
                    == want.backoff
            }),
    {
        if self.ack_fresh(pk, cand.addr, now) {
            return (Some(LanState::Trying { addr: cand.addr, since: now }), None);
        }
        match self.probe_backoff.get(pk) {
            Some(until) => {
                if now < *until {
                    return (None, None);
                }
            },
            None => {},
        }
        (Some(LanState::Probing { addr: cand.addr, since: now }), Some(cand.addr))
    }

    /// Advances one peer, given its live candidate and whether it is reachable. The results are the
    /// next state and the address to probe.
    ///
    /// Nothing is routed without an authenticated answer, and an address in flight is kept until its
    /// attempt is decided, whatever candidates come in meanwhile.
    pub fn step(&mut self, pk: &[u8; 32], cand: &Candidate, ok: bool, now: u64) -> (r: (
        Option<LanState>,
        Option<Endpoint>,
    ))
        requires
            old(self).wf(),
            now <= CLOCK_MAX,
        ensures
            final(self).wf(),
            final(self).candidates == old(self).candidates,
            final(self).members == old(self).members,
            final(self).acks == old(self).acks,
            final(self).pending == old(self).pending,
            final(self).states == old(self).states,
            ({
                let want = peer_step(
                    old(self).states@.get(pk@),
                    old(self).acks@.get(pk@),
                    old(self).probe_backoff@.get(pk@),
                    *cand,
                    ok,
                    now,
                );
                &&& r.0 == want.next
                &&& r.1 == want.probe
                &&& final(self).probe_backoff@.get(pk@) == want.backoff
                &&& forall|k: Seq<u8>|
                    k != pk@ ==> #[trigger] final(self).probe_backoff@.get(k) == old(
                        self,
                    ).probe_backoff@.get(k)
            }),
    {
        let state = match self.states.get(pk) {
            Some(s) => *s,
            None => {
                return self.begin(pk, cand, now);
            },
        };
        match state {
            LanState::Probing { addr, since: started } => {
                if self.ack_fresh(pk, addr, now) {
                    return (Some(LanState::Trying { addr, since: now }), None);
                }
                if since(now, started) >= PROBE_GRACE {
                    self.probe_backoff.insert(*pk, now + PROBE_BACKOFF);
                    return (None, None);
                }
                (Some(LanState::Probing { addr, since: started }), Some(addr))
            },
            LanState::Trying { addr, since: started } => {
                let waited: u64 = since(now, started);
                let next = if waited < SETTLE {
                    LanState::Trying { addr, since: started }
                } else if ok {
                    LanState::Active { addr, last_ok: now }
                } else if waited >= VERIFY_GRACE {
                    LanState::Failed { addr, until: now + RETRY_COOLDOWN }
                } else {
                    LanState::Trying { addr, since: started }
                };
                (Some(next), None)
            },
            LanState::Active { addr, last_ok } => {
                let next = if ok {
                    LanState::Active { addr, last_ok: now }
                } else if since(now, last_ok) >= STALE_GRACE {
                    LanState::Failed { addr, until: now + RETRY_COOLDOWN }
                } else {
                    LanState::Active { addr, last_ok }
                };
                (Some(next), None)
            },
            LanState::Failed { addr, until } => {
                if now < until {
                    (Some(LanState::Failed { addr, until }), None)
                } else {
                    self.begin(pk, cand, now)
                }
            },
        }
    }
}

/// What an iteration of the mesh loop leads to for the peer `k`: peers that left the mesh or are not
/// heard on the LAN are forgotten, the others take a step.
pub open spec fn selected(b: Beacon, reachable: Map<Seq<u8>, bool>, now: u64, k: Seq<u8>) -> Step {
    if !reachable.contains_key(k) {
        Step { next: None, backoff: None, probe: None }
    } else if !live_candidates(b.candidates@, now).contains_key(k) {
        Step { next: None, backoff: b.probe_backoff@.get(k), probe: None }
    } else {
        peer_step(
            b.states@.get(k),
            b.acks@.get(k),
            b.probe_backoff@.get(k),
            b.candidates@[k],
            reachable[k],
            now,
        )
    }
}

/// The endpoint that a step routes the peer to.
pub open spec fn routed(s: Step) -> Option<Endpoint> {
    match s.next {
        Some(st) => st.route(),
        None => None,
    }
}

/// `probes` holds exactly one probe for each peer of `m` whose step asks for one.
pub open spec fn probes_for(
    probes: Seq<([u8; 32], Endpoint)>,
    b: Beacon,
    reachable: Map<Seq<u8>, bool>,
    now: u64,
    m: Map<Seq<u8>, bool>,
) -> bool {
    &&& forall|i: int|
        0 <= i < probes.len() ==> m.contains_key((#[trigger] probes[i]).0@) && selected(
            b,
            reachable,
            now,
            probes[i].0@,
        ).probe == Some(probes[i].1)
    &&& forall|i: int, j: int|
        0 <= i < j < probes.len() ==> (#[trigger] probes[i]).0@ != (#[trigger] probes[j]).0@
    &&& forall|k: Seq<u8>| #[trigger]
        m.contains_key(k) && selected(b, reachable, now, k).probe is Some ==> exists|i: int|
            0 <= i < probes.len() && (#[trigger] probes[i]).0@ == k
}

proof fn lemma_ack_live(m: Map<Seq<u8>, Ack>, now: u64, k: Seq<u8>, addr: Endpoint)
    ensures
        fresh(live_acks(m, now).get(k), addr, now) == fresh(m.get(k), addr, now),
{
}

proof fn lemma_step_acks(
    state: Option<LanState>,
    a: Map<Seq<u8>, Ack>,
    k: Seq<u8>,
    backoff: Option<u64>,
    cand: Candidate,
    ok: bool,
    now: u64,
)
    ensures
        peer_step(state, live_acks(a, now).get(k), backoff, cand, ok, now) == peer_step(
            state,
            a.get(k),
            backoff,
            cand,
            ok,
            now,
        ),
{
    lemma_ack_live(a, now, k, cand.addr);
    if let Some(s) = state {
        lemma_ack_live(a, now, k, s.addr());
    }
}

impl Beacon {
    fn forget(&mut self, now: u64, reachable: &Assoc<[u8; 32], bool>)
        requires
            old(self).wf(),
            reachable.wf(),
        ensures
            final(self).wf(),
            final(self).members@ == reachable@,
            final(self).candidates@ == live_candidates(old(self).candidates@, now),
            final(self).acks@ == live_acks(old(self).acks@, now),
            final(self).pending@ == assoc::retained(
                old(self).pending@,
                |k: Seq<u8>, p: Pending|
                    reachable@.contains_key(k) && within(now, p.at, CAND_TTL),
            ),
            final(self).states@ == assoc::retained(
                old(self).states@,
                |k: Seq<u8>, s: LanState| reachable@.contains_key(k),
            ),
            final(self).probe_backoff@ == assoc::retained(
                old(self).probe_backoff@,
                |k: Seq<u8>, t: u64| reachable@.contains_key(k),
            ),
    {
        let mut members: Assoc<[u8; 32], bool> = Assoc::new();
        let mut i: usize = 0;
        let ghost s = reachable.entries@;
        assert(assoc::map_of(s.take(0)) =~= Map::<Seq<u8>, bool>::empty());
        while i < reachable.entries.len()
            invariant
                s == reachable.entries@,
                reachable.wf(),
                i <= s.len(),
                members.wf(),
                members@ == assoc::map_of(s.take(i as int)),
            decreases s.len() - i,
        {
            proof {
                assert(s.take(i + 1) =~= s.take(i as int).push(s[i as int]));
                assoc::lemma_prefix(s, i as int);
                assoc::lemma_pushed(s.take(i as int), s[i as int].0, s[i as int].1);
            }
            members.insert(reachable.entries[i].0, reachable.entries[i].1);
            i += 1;
        }
        assert(s.take(i as int) =~= s);
        self.members = members;
        self.candidates.retain(
            |k: &PubKey, c: &Candidate| -> (b: bool)
                ensures (b == within(now, c.seen, CAND_TTL)) { is_within(now, c.seen, CAND_TTL) },
            Ghost(|k: Seq<u8>, c: Candidate| within(now, c.seen, CAND_TTL)),
        );
        self.acks.retain(
            |k: &PubKey, a: &Ack| -> (b: bool)
                ensures (b == within(now, a.at, PROBE_ACK_TTL)) { is_within(now, a.at, PROBE_ACK_TTL) },
            Ghost(|k: Seq<u8>, a: Ack| within(now, a.at, PROBE_ACK_TTL)),
        );
        self.pending.retain(
            |k: &PubKey, p: &Pending| -> (b: bool)
                ensures (b == (reachable@.contains_key(k@) && within(now, p.at, CAND_TTL))) { reachable.contains(k) && is_within(now, p.at, CAND_TTL) },
            Ghost(
                |k: Seq<u8>, p: Pending|
                    reachable@.contains_key(k) && within(now, p.at, CAND_TTL),
            ),
        );
        self.states.retain(
            |k: &PubKey, st: &LanState| -> (b: bool)
                ensures (b == reachable@.contains_key(k@)) { reachable.contains(k) },
            Ghost(|k: Seq<u8>, st: LanState| reachable@.contains_key(k)),
        );
        self.probe_backoff.retain(
            |k: &PubKey, t: &u64| -> (b: bool)
                ensures (b == reachable@.contains_key(k@)) { reachable.contains(k) },
            Ghost(|k: Seq<u8>, t: u64| reachable@.contains_key(k)),
        );
    }

    /// Decides, for one iteration of the mesh loop, which peers are routed through a LAN endpoint and
    /// which addresses are probed. `reachable` holds every peer of the mesh and whether it answered.
    pub fn select(&mut self, now: u64, reachable: &Assoc<[u8; 32], bool>) -> (r: Selection)
        requires
            old(self).wf(),
            reachable.wf(),
            now <= CLOCK_MAX,
        ensures
            final(self).wf(),
            final(self).members@ == reachable@,
            final(self).candidates@ == live_candidates(old(self).candidates@, now),
            final(self).acks@ == live_acks(old(self).acks@, now),
            final(self).pending@ == assoc::retained(
                old(self).pending@,
                |k: Seq<u8>, p: Pending|
                    reachable@.contains_key(k) && within(now, p.at, CAND_TTL),
            ),
            forall|k: Seq<u8>| #[trigger]
                final(self).states@.get(k) == selected(*old(self), reachable@, now, k).next,
            forall|k: Seq<u8>| #[trigger]
                final(self).probe_backoff@.get(k) == selected(
                    *old(self),
                    reachable@,
                    now,
                    k,
                ).backoff,
            r.routes.wf(),
            forall|k: Seq<u8>| #[trigger]
                r.routes@.get(k) == routed(selected(*old(self), reachable@, now, k)),
            probes_for(r.probes@, *old(self), reachable@, now, reachable@),
    {
        let ghost b0 = *self;
        self.forget(now, reachable);
        let mut routes: Assoc<[u8; 32], Endpoint> = Assoc::new();
        let mut probes: Vec<([u8; 32], Endpoint)> = Vec::new();
        let ghost s = reachable.entries@;
        let ghost states0 = self.states@;
        let ghost backoff0 = self.probe_backoff@;
        let mut i: usize = 0;
        assert(assoc::map_of(s.take(0)) =~= Map::<Seq<u8>, bool>::empty());
        while i < reachable.entries.len()
            invariant
                s == reachable.entries@,
                reachable.wf(),
                now <= CLOCK_MAX,
                i <= s.len(),
                self.wf(),
                self.members@ == reachable@,
                self.candidates@ == live_candidates(b0.candidates@, now),
                self.acks@ == live_acks(b0.acks@, now),
                self.pending@ == assoc::retained(
                    b0.pending@,
                    |k: Seq<u8>, p: Pending|
                        reachable@.contains_key(k) && within(now, p.at, CAND_TTL),
                ),
                states0 == assoc::retained(
                    b0.states@,
                    |k: Seq<u8>, st: LanState| reachable@.contains_key(k),
                ),
                backoff0 == assoc::retained(
                    b0.probe_backoff@,
                    |k: Seq<u8>, t: u64| reachable@.contains_key(k),
                ),
                forall|k: Seq<u8>| #[trigger]
                    self.states@.get(k) == (if assoc::map_of(s.take(i as int)).contains_key(
                        k,
                    ) {
                        selected(b0, reachable@, now, k).next
                    } else {
                        states0.get(k)
                    }),
                forall|k: Seq<u8>| #[trigger]
                    self.probe_backoff@.get(k) == (if assoc::map_of(
                        s.take(i as int),
                    ).contains_key(k) {
                        selected(b0, reachable@, now, k).backoff
                    } else {
                        backoff0.get(k)
                    }),
                routes.wf(),
                forall|k: Seq<u8>| #[trigger]
                    routes@.get(k) == (if assoc::map_of(s.take(i as int)).contains_key(k) {
                        routed(selected(b0, reachable@, now, k))
                    } else {
                        None
                    }),
                probes_for(
                    probes@,
                    b0,
                    reachable@,
                    now,
                    assoc::map_of(s.take(i as int)),
                ),
            decreases s.len() - i,
        {
            let pk: [u8; 32] = reachable.entries[i].0;
            let ok: bool = reachable.entries[i].1;
            let ghost m0 = assoc::map_of(s.take(i as int));
            let ghost m1 = assoc::map_of(s.take(i + 1));
            let ghost want = selected(b0, reachable@, now, pk@);
            proof {
                assert(s.take(i + 1) =~= s.take(i as int).push(s[i as int]));
                assoc::lemma_prefix(s, i as int);
                assoc::lemma_pushed(s.take(i as int), s[i as int].0, s[i as int].1);
                assoc::lemma_entry(s, i as int);
                assert(m1 == m0.insert(pk@, ok));
                assert(self.states@.get(pk@) == b0.states@.get(pk@));
                assert(self.probe_backoff@.get(pk@) == b0.probe_backoff@.get(pk@));
            }
            let ghost before = *self;
            let ghost probes_before = probes@;
            let ghost routes_before = routes@;
            match self.candidates.get(&pk) {
                None => {
                    self.states.remove(&pk);
                    assert(want.next is None && want.probe is None);
                },
                Some(c) => {
                    let cand = *c;
                    proof {
                        lemma_step_acks(
                            b0.states@.get(pk@),
                            b0.acks@,
                            pk@,
                            b0.probe_backoff@.get(pk@),
                            cand,
                            ok,
                            now,
                        );
                    }
                    let (next, probe) = self.step(&pk, &cand, ok, now);
                    assert(next == want.next && probe == want.probe);
                    match next {
                        Some(st) => {
                            match st {
                                LanState::Trying { addr, .. } => {
                                    routes.insert(pk, addr);
                                },
                                LanState::Active { addr, .. } => {
                                    routes.insert(pk, addr);
                                },
                                _ => {},
                            }
                            self.states.insert(pk, st);
                        },
                        None => {
                            self.states.remove(&pk);
                        },
                    }
                    match probe {
                        Some(a) => {
                            probes.push((pk, a));
                        },
                        None => {},
                    }
                },
            }
            proof {
                assert forall|k: Seq<u8>| #[trigger]
                    self.states@.get(k) == (if m1.contains_key(k) {
                        selected(b0, reachable@, now, k).next
                    } else {
                        states0.get(k)
                    }) by {
                    assert(before.states@.get(k) == (if m0.contains_key(k) {
                        selected(b0, reachable@, now, k).next
                    } else {
                        states0.get(k)
                    }));
                }
                assert forall|k: Seq<u8>| #[trigger]
                    self.probe_backoff@.get(k) == (if m1.contains_key(k) {
                        selected(b0, reachable@, now, k).backoff
                    } else {
                        backoff0.get(k)
                    }) by {
                    assert(before.probe_backoff@.get(k) == (if m0.contains_key(k) {
                        selected(b0, reachable@, now, k).backoff
                    } else {
                        backoff0.get(k)
                    }));
                }
                assert forall|k: Seq<u8>| #[trigger]
                    routes@.get(k) == (if m1.contains_key(k) {
                        routed(selected(b0, reachable@, now, k))
                    } else {
                        None
                    }) by {
                    assert(routes_before.get(k) == (if m0.contains_key(k) {
                        routed(selected(b0, reachable@, now, k))
                    } else {
                        None
                    }));
                }
                assert(probes_for(probes@, b0, reachable@, now, m1)) by {
                    assert forall|k: Seq<u8>| #[trigger]
                        m1.contains_key(k) && selected(
                            b0,
                            reachable@,
                            now,
                            k,
                        ).probe is Some implies exists|j: int|
                        0 <= j < probes@.len() && (#[trigger] probes@[j]).0@ == k by {
                        if m0.contains_key(k) {
                            let j = choose|j: int|
                                0 <= j < probes_before.len() && (
                                #[trigger] probes_before[j]).0@ == k;
                            assert(probes@[j].0@ == k);
                        } else {
                            assert(probes@[probes@.len() - 1].0@ == k);
                        }
                    }
                    assert forall|j: int| 0 <= j < probes@.len() implies m1.contains_key(
                        (#[trigger] probes@[j]).0@,
                    ) && selected(b0, reachable@, now, probes@[j].0@).probe == Some(
                        probes@[j].1,
                    ) by {
                        if j < probes_before.len() {
                            assert(probes@[j] == probes_before[j]);
                        }
                    }
                }
            }
            i += 1;
        }
        assert(s.take(i as int) =~= s);
        assert forall|k: Seq<u8>| #[trigger] self.states@.get(k) == selected(
            b0,
            reachable@,
            now,
            k,
        ).next by {}
        Selection { routes, probes }
    }
}

/// Nothing is routed without an authenticated answer: a peer that is routed to an address was routed
/// to it before, or the address answered a probe within the time that an answer counts.
pub proof fn law_routed_only_when_answered(
    b: Beacon,
    reachable: Map<Seq<u8>, bool>,
    now: u64,
    k: Seq<u8>,
)
    ensures
        routed(selected(b, reachable, now, k)) matches Some(addr) ==> {
            ||| b.states@.get(k) matches Some(st) && st.route() == Some(addr)
            ||| fresh(b.acks@.get(k), addr, now)
        },
{
}

/// An attempt keeps its address: while an address is probed or routed, no other candidate takes its
/// place.
pub proof fn law_sticks_to_address(
    b: Beacon,
    reachable: Map<Seq<u8>, bool>,
    now: u64,
    k: Seq<u8>,
)
    ensures
        (b.states@.get(k) matches Some(st) && !(st is Failed) && selected(
            b,
            reachable,
            now,
            k,
        ).next matches Some(next)) ==> selected(b, reachable, now, k).next->0.addr()
            == b.states@.get(k)->0.addr(),
{
}

/// A peer that left the mesh, or is no longer heard, is neither routed to the LAN nor remembered.
pub proof fn law_forgets_the_absent(
    b: Beacon,
    reachable: Map<Seq<u8>, bool>,
    now: u64,
    k: Seq<u8>,
)
    requires
        !reachable.contains_key(k) || !live_candidates(b.candidates@, now).contains_key(k),
    ensures
        selected(b, reachable, now, k).next is None,
        routed(selected(b, reachable, now, k)) is None,
        selected(b, reachable, now, k).probe is None,
{
}

/// Whether a peer is in the mesh and was heard on the LAN within the last minute and a half.
pub open spec fn heard(b: Beacon, reachable: Map<Seq<u8>, bool>, now: u64, k: Seq<u8>) -> bool {
    reachable.contains_key(k) && b.candidates@.contains_key(k) && b.candidates@[k].seen <= now && now
        - b.candidates@[k].seen < 90_000
}

/// Whether an address of a peer answered a probe within the last ten seconds.
pub open spec fn answered(b: Beacon, now: u64, k: Seq<u8>, addr: Endpoint) -> bool {
    b.acks@.contains_key(k) && b.acks@[k].addr == addr && b.acks@[k].at <= now && now - b.acks@[k].at
        < 10_000
}

/// How a peer that is heard comes to be routed on the LAN. Where it announces is tried as soon as it has
/// answered; until then it is probed there, unless it is held off; and once it was probed for six
/// seconds without an answer it is let be, and held off for a minute.
pub proof fn law_from_heard_to_tried(
    b: Beacon,
    reachable: Map<Seq<u8>, bool>,
    now: u64,
    k: Seq<u8>,
)
    requires
        now <= CLOCK_MAX,
        heard(b, reachable, now, k),
        b.acks@.contains_key(k) ==> b.acks@[k].at <= now,
    ensures
        ({
            let s = selected(b, reachable, now, k);
            let at = b.candidates@[k].addr;
            let idle = !b.states@.contains_key(k) || (b.states@[k] matches LanState::Failed {
                addr,
                until,
            } && now >= until);
            let held_off = b.probe_backoff@.contains_key(k) && now < b.probe_backoff@[k];
            &&& idle && answered(b, now, k, at) ==> s.next == Some(
                LanState::Trying { addr: at, since: now },
            ) && routed(s) == Some(at) && s.probe is None
            &&& idle && !answered(b, now, k, at) && held_off ==> s.next is None && s.probe is None
                && routed(s) is None
            &&& idle && !answered(b, now, k, at) && !held_off ==> s.next == Some(
                LanState::Probing { addr: at, since: now },
            ) && s.probe == Some(at) && routed(s) is None
            &&& (b.states@.contains_key(k) && b.states@[k] matches LanState::Probing { addr, since })
                ==> {
                let addr = b.states@[k]->Probing_addr;
                let since = b.states@[k]->Probing_since;
                since <= now ==> {
                    &&& answered(b, now, k, addr) ==> s.next == Some(
                        LanState::Trying { addr, since: now },
                    ) && s.probe is None
                    &&& !answered(b, now, k, addr) && now - since < 6_000 ==> s.next == Some(
                        LanState::Probing { addr, since },
                    ) && s.probe == Some(addr)
                    &&& !answered(b, now, k, addr) && now - since >= 6_000 ==> s.next is None
                        && s.probe is None && s.backoff == Some((now + 60_000) as u64)
                }
            }
        }),
{
}

/// What becomes of a peer that is routed on the LAN. For three seconds its health is not looked at. Then
/// it is proven once it is reachable, and given up where it is not within eight seconds. Once proven, it
/// is given up after a minute out of reach. What was given up is let be for half a minute.
pub proof fn law_from_tried_to_proven_or_given_up(
    b: Beacon,
    reachable: Map<Seq<u8>, bool>,
    now: u64,
    k: Seq<u8>,
)
    requires
        now <= CLOCK_MAX,
        heard(b, reachable, now, k),
        b.states@.contains_key(k),
    ensures
        ({
            let s = selected(b, reachable, now, k);
            let ok = reachable[k];
            match b.states@[k] {
                LanState::Trying { addr, since } => since <= now ==> s.next == Some(
                    if now - since < 3_000 {
                        LanState::Trying { addr, since }
                    } else if ok {
                        LanState::Active { addr, last_ok: now }
                    } else if now - since < 8_000 {
                        LanState::Trying { addr, since }
                    } else {
                        LanState::Failed { addr, until: (now + 30_000) as u64 }
                    },
                ) && s.probe is None,
                LanState::Active { addr, last_ok } => last_ok <= now ==> s.next == Some(
                    if ok {
                        LanState::Active { addr, last_ok: now }
                    } else if now - last_ok < 60_000 {
                        LanState::Active { addr, last_ok }
                    } else {
                        LanState::Failed { addr, until: (now + 30_000) as u64 }
                    },
                ) && s.probe is None,
                LanState::Failed { addr, until } => now < until ==> s.next == Some(
                    LanState::Failed { addr, until },
                ) && s.probe is None && routed(s) is None,
                LanState::Probing { .. } => true,
            }
        }),
{
}

/// A peer is routed on the LAN while an address is tried or proven, at that address, and else not.
pub proof fn law_routed_while_tried_or_proven(s: Step)
    ensures
        routed(s) == match s.next {
            Some(LanState::Trying { addr, since }) => Some(addr),
            Some(LanState::Active { addr, last_ok }) => Some(addr),
            _ => None,
        },
{
}

/// A device announces itself three times in its first seconds, and every half minute from then on.
pub proof fn law_announcements_come_in_a_burst_then_steadily(n: u64)
    ensures
        announce_wait(0) == 0,
        announce_wait(1) == 1_000,
        announce_wait(2) == 2_000,
        n >= 3 ==> announce_wait(n) == 30_000,
{
}

/// A datagram is understood only if it carries the tag and the version, and has the length of an
/// announcement, or that of a probe or an answer and is one.
pub proof fn law_nothing_else_is_understood(buf: Seq<u8>)
    requires
        message_of(buf) is Some,
    ensures
        buf.len() == 39 || (buf.len() == 72 && (buf[39] == 1 || buf[39] == 2)),
        buf[0] == 85 && buf[1] == 76 && buf[2] == 66 && buf[3] == 49,
        buf[4] == VERSION,
        message_of(buf)->0.kinded is Some <==> buf.len() == 72,
{
    assert(buf.take(4)[0] == magic()[0] && buf.take(4)[1] == magic()[1]);
    assert(buf.take(4)[2] == magic()[2] && buf.take(4)[3] == magic()[3]);
}

/// What stands where in an announcement, a probe and an answer: the tag, the version, the key, the port
/// with its lower half first, and then the kind, the nonce and the authenticator.
pub proof fn law_layout_of_a_datagram(
    pk: Seq<u8>,
    port: u16,
    kind: u8,
    nonce: Seq<u8>,
    mac: Seq<u8>,
)
    requires
        pk.len() == 32,
        nonce.len() == 16,
        mac.len() == 16,
    ensures
        ({
            let a = announcement(pk, port);
            let m = kinded_message(pk, port, kind, nonce, mac);
            &&& a.len() == 39
            &&& a[0] == 85 && a[1] == 76 && a[2] == 66 && a[3] == 49 && a[4] == 1
            &&& a.subrange(5, 37) == pk
            &&& a[37] == port % 256
            &&& a[38] == port / 256
            &&& m.len() == 72
            &&& m.take(39) == a
            &&& m[39] == kind
            &&& m.subrange(40, 56) == nonce
            &&& m.subrange(56, 72) == mac
        }),
{
    let a = announcement(pk, port);
    let m = kinded_message(pk, port, kind, nonce, mac);
    assert(a.subrange(5, 37) =~= pk);
    assert(m.take(39) =~= a);
    assert(m.subrange(40, 56) =~= nonce);
    assert(m.subrange(56, 72) =~= mac);
}

/// What a datagram says is read from where it stands.
pub proof fn law_read_from_where_it_stands(buf: Seq<u8>)
    requires
        message_of(buf) is Some,
    ensures
        ({
            let m = message_of(buf)->0;
            &&& m.pk == buf.subrange(5, 37)
            &&& m.port == buf[37] + 256 * buf[38]
            &&& m.kinded matches Some(k) ==> k.kind == buf[39] && k.nonce == buf.subrange(40, 56)
                && k.mac == buf.subrange(56, 72)
        }),
{
}

/// An authenticator counts if and only if it is the one that is expected.
pub proof fn law_only_the_expected_authenticator_counts(mac: Seq<u8>, e: [u8; 16])
    ensures
        authentic(mac, Some(e)) <==> mac == e@,
        !authentic(mac, None),
{
}

} // verus!
