//! A round of the mesh daemon: how each peer is doing, which of them need help, what is shown of
//! them, and whose attestations are to be renewed.
use crate::api::{self, classify_reach, PeerReach};
use crate::assoc::{same_key, Assoc, PubKey};
use crate::control::status::PeerLive;
use crate::mesh::{
    self, same_allocations, same_keys, same_observations, same_offers, IceEndpoint,
    ObservedEndpoint, RelayAllocation, SeedPeer,
};
use crate::net::Endpoint;
use crate::order;
use crate::tunnel::{self, PeerConfig};
use vstd::prelude::*;

verus! {

/// A peer whose last handshake is younger than this, in milliseconds, is connected. It lies well
/// above the keepalive, so that a live tunnel always stays within.
pub const HANDSHAKE_FRESH: u64 = 180_000;

/// The port of the name service, on the device's own address in the mesh.
pub const DNS_PORT: u16 = 53;

/// How near its expiry, in seconds, an attestation is when the coordinator is asked for all of them.
/// Before that the peers are asked, each for its own.
pub const COORD_FULL_MARGIN: u64 = 120;

/// How long to wait, in seconds, once the coordinator refused this build's protocol. Only an update
/// helps, so there is no hurry; but one may come at any time.
pub const PROTO_MISMATCH_BACKOFF: u64 = 300;

/// How often, in seconds, the tunnel's own figures are looked at.
pub const STATS_RECHECK: u64 = 2;

/// How long, in seconds, a peer that cannot even be punched towards is waited for. There is nothing
/// to wait for, so it is shorter than for the others.
pub const BOOTSTRAP_STUCK_SECS: u64 = 15;

/// What is kept of a peer's connection from one round to the next. Times are in milliseconds.
#[derive(Clone, Copy)]
pub struct PeerConn {
    /// Since when the peer is without a connection.
    pub attempt_since: Option<u64>,
    /// Since when the peer is without a connection and cannot be punched towards.
    pub bootstrap_since: Option<u64>,
    /// What was last reported: whether the peer is up, and how it is reached.
    pub last: Option<(bool, PeerReach)>,
}

/// What a round found of a peer.
#[derive(Clone, Copy)]
pub struct PeerStep {
    pub reach: PeerReach,
    /// What was reported before, when that has changed.
    pub flipped: Option<(bool, PeerReach)>,
    /// Whether the peer has been beyond punching for too long.
    pub bootstrap_stuck: bool,
}

/// Whole seconds from `then` to `now`; none when `then` is ahead.
pub open spec fn secs_between(now: u64, then: u64) -> int {
    if now >= then {
        (now - then) / 1000
    } else {
        0
    }
}

fn secs_since(now: u64, then: u64) -> (r: u64)
    ensures
        r == secs_between(now, then),
{
    if now >= then {
        (now - then) / 1000
    } else {
        0
    }
}

/// A timer that runs while `on` holds, from the first moment it did.
pub open spec fn armed(since: Option<u64>, on: bool, now: u64) -> Option<u64> {
    if !on {
        None
    } else if since is Some {
        since
    } else {
        Some(now)
    }
}

impl PeerConn {
    /// A peer that was not seen before.
    pub open spec fn fresh() -> PeerConn {
        PeerConn { attempt_since: None, bootstrap_since: None, last: None }
    }

    /// A peer that was not seen before.
    pub fn new() -> (r: PeerConn)
        ensures
            r == PeerConn::fresh(),
    {
        PeerConn { attempt_since: None, bootstrap_since: None, last: None }
    }

    /// How the peer is reached in this round. A relay or a negotiated path in use is what counts;
    /// without one, it is how long the peer has been without a connection.
    pub open spec fn reach_now(
        self,
        now: u64,
        punched: bool,
        connected: bool,
        relaying: bool,
        icing: bool,
        stuck_after: u64,
    ) -> PeerReach {
        if relaying {
            PeerReach::Relayed
        } else if icing {
            PeerReach::Ice
        } else {
            let age = match armed(self.attempt_since, !connected, now) {
                Some(t) => secs_between(now, t),
                None => 0,
            };
            api::reach_of(punched, connected, age, stuck_after as int)
        }
    }

    /// What is kept after a round.
    pub open spec fn after(
        self,
        now: u64,
        connected: bool,
        unpunchable: bool,
        reach: PeerReach,
    ) -> PeerConn {
        PeerConn {
            attempt_since: armed(self.attempt_since, !connected, now),
            bootstrap_since: armed(self.bootstrap_since, unpunchable && !connected, now),
            last: Some((connected, reach)),
        }
    }

    /// What a round finds.
    pub open spec fn found(
        self,
        now: u64,
        connected: bool,
        unpunchable: bool,
        reach: PeerReach,
    ) -> PeerStep {
        PeerStep {
            reach,
            flipped: match self.last {
                Some(was) => if was != (connected, reach) {
                    Some(was)
                } else {
                    None
                },
                None => None,
            },
            bootstrap_stuck: match armed(self.bootstrap_since, unpunchable && !connected, now) {
                Some(t) => secs_between(now, t) >= BOOTSTRAP_STUCK_SECS,
                None => false,
            },
        }
    }

    /// Takes a round's findings in: ages the timers, says how the peer is reached, and whether that
    /// or the connection changed since the last round.
    pub fn step(
        &mut self,
        now: u64,
        punched: bool,
        connected: bool,
        unpunchable: bool,
        relaying: bool,
        icing: bool,
        stuck_after: u64,
    ) -> (r: PeerStep)
        ensures
            ({
                let reach = old(self).reach_now(
                    now,
                    punched,
                    connected,
                    relaying,
                    icing,
                    stuck_after,
                );
                &&& r == old(self).found(now, connected, unpunchable, reach)
                &&& *final(self) == old(self).after(now, connected, unpunchable, reach)
            }),
    {
        if connected {
            self.attempt_since = None;
        } else if self.attempt_since.is_none() {
            self.attempt_since = Some(now);
        }
        let age: u64 = match self.attempt_since {
            Some(t) => secs_since(now, t),
            None => 0,
        };
        if !(unpunchable && !connected) {
            self.bootstrap_since = None;
        } else if self.bootstrap_since.is_none() {
            self.bootstrap_since = Some(now);
        }
        let bootstrap_stuck = match self.bootstrap_since {
            Some(t) => secs_since(now, t) >= BOOTSTRAP_STUCK_SECS,
            None => false,
        };
        let reach = if relaying {
            PeerReach::Relayed
        } else if icing {
            PeerReach::Ice
        } else {
            classify_reach(punched, connected, age, stuck_after)
        };
        let flipped = match self.last {
            Some((up, how)) => if up != connected || how != reach {
                Some((up, how))
            } else {
                None
            },
            None => None,
        };
        self.last = Some((connected, reach));
        PeerStep { reach, flipped, bootstrap_stuck }
    }
}

/// A connection ends every wait: it clears both timers, whatever they were at.
pub proof fn law_connection_clears_the_timers(
    c: PeerConn,
    now: u64,
    unpunchable: bool,
    reach: PeerReach,
)
    ensures
        c.after(now, true, unpunchable, reach).attempt_since is None,
        c.after(now, true, unpunchable, reach).bootstrap_since is None,
        !c.found(now, true, unpunchable, reach).bootstrap_stuck,
{
}

/// A steady peer is reported once: a round that finds what the last one found flags nothing.
pub proof fn law_steady_peer_does_not_flip(
    c: PeerConn,
    t: u64,
    now: u64,
    connected: bool,
    u: bool,
    v: bool,
    reach: PeerReach,
)
    ensures
        c.after(t, connected, u, reach).found(now, connected, v, reach).flipped is None,
{
}

/// A peer that stays without a connection is found out of reach once it was so for long enough,
/// counted from the first round that found it so, unless it is relayed or negotiated with.
pub proof fn law_stuck_peer_is_found_out(
    c: PeerConn,
    t: u64,
    now: u64,
    punched: bool,
    u: bool,
    reach: PeerReach,
    stuck_after: u64,
)
    requires
        c.attempt_since is None,
        t <= now,
        (now - t) / 1000 >= stuck_after,
    ensures
        c.after(t, false, u, reach).reach_now(now, punched, false, false, false, stuck_after)
            == PeerReach::Unreachable,
{
}

/// What the coordinator was last told. While it stands, the request that the coordinator holds is
/// up to date.
pub struct SentReport {
    /// Where peers were seen to send from, sorted by key.
    pub observed: Vec<ObservedEndpoint>,
    /// The peers that a relay is wanted for, sorted.
    pub relay_need: Vec<PubKey>,
    /// The addresses on relays, sorted by peer.
    pub relay_alloc: Vec<RelayAllocation>,
    /// The offers, sorted by peer.
    pub ice_offers: Vec<IceEndpoint>,
}

/// The model of what the coordinator was told.
#[verifier::ext_equal]
pub struct SentView {
    pub observed: Seq<mesh::ObservedView>,
    pub relay_need: Seq<Seq<u8>>,
    pub relay_alloc: Seq<mesh::AllocationView>,
    pub ice_offers: Seq<mesh::OfferView>,
}

impl View for SentReport {
    type V = SentView;

    open spec fn view(&self) -> SentView {
        SentView {
            observed: mesh::observation_views(self.observed@),
            relay_need: mesh::keys_of(self.relay_need@),
            relay_alloc: mesh::allocation_views(self.relay_alloc@),
            ice_offers: mesh::offer_views(self.ice_offers@),
        }
    }
}

impl SentReport {
    /// Nothing was told.
    pub fn new() -> (r: SentReport)
        ensures
            r@ == (SentView {
                observed: seq![],
                relay_need: seq![],
                relay_alloc: seq![],
                ice_offers: seq![],
            }),
    {
        let r = SentReport {
            observed: Vec::new(),
            relay_need: Vec::new(),
            relay_alloc: Vec::new(),
            ice_offers: Vec::new(),
        };
        assert(r@ =~= SentView {
            observed: seq![],
            relay_need: seq![],
            relay_alloc: seq![],
            ice_offers: seq![],
        });
        r
    }

    /// Whether there is news: something to tell differs from what was told.
    pub fn stale(
        &self,
        observed: &Vec<ObservedEndpoint>,
        relay_need: &Vec<PubKey>,
        relay_alloc: &Vec<RelayAllocation>,
        ice_offers: &Vec<IceEndpoint>,
    ) -> (r: bool)
        ensures
            r == (self@ != (SentView {
                observed: mesh::observation_views(observed@),
                relay_need: mesh::keys_of(relay_need@),
                relay_alloc: mesh::allocation_views(relay_alloc@),
                ice_offers: mesh::offer_views(ice_offers@),
            })),
    {
        !(same_observations(&self.observed, observed) && same_keys(&self.relay_need, relay_need)
            && same_allocations(&self.relay_alloc, relay_alloc) && same_offers(
            &self.ice_offers,
            ice_offers,
        ))
    }
}

/// How the main loop ends.
#[derive(Clone, Copy, Debug, PartialEq, Eq, Structural)]
pub enum RunOutcome {
    /// For good.
    Stopped,
    /// To start the new program in the place of this one.
    ReExec,
    /// For the service manager to start the new program.
    RestartService,
}

/// When a peer last completed a handshake, as the tunnel tells it.
#[derive(Clone, Copy, Debug, PartialEq, Eq, Structural)]
pub enum Handshake {
    Never,
    /// At a time that lies ahead: the clock was set back.
    Ahead,
    /// So many milliseconds ago.
    Ago(u64),
}

impl Handshake {
    /// Whether the peer is connected.
    pub open spec fn is_fresh(self) -> bool {
        match self {
            Handshake::Never => false,
            Handshake::Ahead => true,
            Handshake::Ago(ms) => ms < HANDSHAKE_FRESH,
        }
    }

    /// Its age in whole seconds, when it has one.
    pub open spec fn age(self) -> Option<u64> {
        match self {
            Handshake::Ago(ms) => Some((ms / 1000) as u64),
            _ => None,
        }
    }
}

/// What the tunnel tells of a peer.
#[derive(Clone, Copy, Debug, PartialEq, Eq, Structural)]
pub struct PeerStats {
    /// Where the peer was last seen to send from.
    pub endpoint: Option<Endpoint>,
    pub handshake: Handshake,
    pub rx_bytes: u64,
    pub tx_bytes: u64,
}

/// What a round finds of one peer.
#[derive(Clone, Copy)]
pub struct PeerReport {
    pub step: PeerStep,
    pub up: bool,
    /// The age of the last handshake, in seconds.
    pub last_handshake_secs: Option<u64>,
    pub rx_bytes: u64,
    pub tx_bytes: u64,
    /// Whether a relay or a negotiated path is wanted for the peer.
    pub wants_help: bool,
}

/// Whether a seed of a peer can neither be dialled nor, as `punchable` says, punched towards.
pub open spec fn undialled(seeds: Seq<mesh::SeedView>, k: Seq<u8>, punchable: bool) -> bool {
    exists|i: int|
        0 <= i < seeds.len() && (#[trigger] seeds[i]).pubkey == k && seeds[i].endpoint is None && (
        seeds[i].punch is Some) == punchable
}

fn is_undialled(seeds: &Vec<SeedPeer>, k: &PubKey, punchable: bool) -> (r: bool)
    ensures
        r == undialled(mesh::seed_views(seeds@), k@, punchable),
{
    let ghost all = mesh::seed_views(seeds@);
    let mut i: usize = 0;
    while i < seeds.len()
        invariant
            i <= seeds.len(),
            all == mesh::seed_views(seeds@),
            forall|j: int|
                0 <= j < i ==> !((#[trigger] all[j]).pubkey == k@ && all[j].endpoint is None && (
                all[j].punch is Some) == punchable),
        decreases seeds.len() - i,
    {
        let s = &seeds[i];
        assert(all[i as int] == s@);
        if same_key(&s.pubkey, k) && s.endpoint.is_none() && s.punch.is_some() == punchable {
            assert(undialled(all, k@, punchable));
            return true;
        }
        i += 1;
    }
    false
}

/// What the tunnel tells of a peer, when it could be asked and knows the peer.
pub open spec fn stats_at(stats: Option<Map<Seq<u8>, PeerStats>>, k: Seq<u8>) -> Option<PeerStats> {
    match stats {
        Some(m) => if m.contains_key(k) {
            Some(m[k])
        } else {
            None
        },
        None => None,
    }
}

/// What is known at the start of a round.
pub struct Round<'a> {
    pub now: u64,
    pub seeds: &'a Vec<SeedPeer>,
    /// What the tunnel tells; nothing when it could not be asked.
    pub stats: &'a Option<Assoc<PubKey, PeerStats>>,
    /// The peers that a relay is in use for.
    pub relaying: &'a Vec<PubKey>,
    /// The peers that a negotiated path is in use for.
    pub icing: &'a Vec<PubKey>,
    /// Whether paths are negotiated here at all.
    pub ice_enabled: bool,
    /// How long, in seconds, a peer may be without a connection before it counts as out of reach.
    pub stuck_after: u64,
}

/// The model of what is known at the start of a round.
pub struct RoundView {
    pub now: u64,
    pub seeds: Seq<mesh::SeedView>,
    pub stats: Option<Map<Seq<u8>, PeerStats>>,
    pub relaying: Seq<Seq<u8>>,
    pub icing: Seq<Seq<u8>>,
    pub ice_enabled: bool,
    pub stuck_after: u64,
}

impl<'a> View for Round<'a> {
    type V = RoundView;

    open spec fn view(&self) -> RoundView {
        RoundView {
            now: self.now,
            seeds: mesh::seed_views(self.seeds@),
            stats: match *self.stats {
                Some(m) => Some(m@),
                None => None,
            },
            relaying: mesh::keys_of(self.relaying@),
            icing: mesh::keys_of(self.icing@),
            ice_enabled: self.ice_enabled,
            stuck_after: self.stuck_after,
        }
    }
}

impl<'a> Round<'a> {
    /// The figures are well formed.
    pub open spec fn wf(&self) -> bool {
        match *self.stats {
            Some(m) => m.wf(),
            None => true,
        }
    }
}

impl RoundView {
    /// A peer's last handshake.
    pub open spec fn handshake(self, k: Seq<u8>) -> Handshake {
        match stats_at(self.stats, k) {
            Some(s) => s.handshake,
            None => Handshake::Never,
        }
    }

    /// How a peer is reached.
    pub open spec fn reach(self, c: PeerConn, k: Seq<u8>) -> PeerReach {
        c.reach_now(
            self.now,
            undialled(self.seeds, k, true),
            self.handshake(k).is_fresh(),
            self.relaying.contains(k),
            self.icing.contains(k),
            self.stuck_after,
        )
    }

    /// What is kept of a peer after the round.
    pub open spec fn kept(self, c: PeerConn, k: Seq<u8>) -> PeerConn {
        c.after(
            self.now,
            self.handshake(k).is_fresh(),
            undialled(self.seeds, k, false),
            self.reach(c, k),
        )
    }

    /// What the round finds of a peer. Help is wanted for a peer that is out of reach, for one that
    /// has help (it reads as connected, and its help would else be withdrawn), and, where paths are
    /// negotiated, for one that has been beyond punching for too long.
    pub open spec fn report(self, c: PeerConn, k: Seq<u8>) -> PeerReport {
        let up = self.handshake(k).is_fresh();
        let reach = self.reach(c, k);
        let step = c.found(self.now, up, undialled(self.seeds, k, false), reach);
        let stats = stats_at(self.stats, k);
        PeerReport {
            step,
            up,
            last_handshake_secs: self.handshake(k).age(),
            rx_bytes: match stats {
                Some(s) => s.rx_bytes,
                None => 0,
            },
            tx_bytes: match stats {
                Some(s) => s.tx_bytes,
                None => 0,
            },
            wants_help: self.relaying.contains(k) || self.icing.contains(k) || reach
                == PeerReach::Unreachable || (self.ice_enabled && step.bootstrap_stuck),
        }
    }
}

/// What is kept of a peer, or of one that was not seen before.
pub open spec fn conn_at(conns: Map<Seq<u8>, PeerConn>, k: Seq<u8>) -> PeerConn {
    if conns.contains_key(k) {
        conns[k]
    } else {
        PeerConn::fresh()
    }
}

fn stats_of(r: &Round<'_>, k: &PubKey) -> (s: Option<PeerStats>)
    requires
        r.wf(),
    ensures
        s == stats_at(r@.stats, k@),
{
    match r.stats {
        Some(m) => match m.get(k) {
            Some(s) => Some(*s),
            None => None,
        },
        None => None,
    }
}

fn round_of(r: &Round<'_>, c: &mut PeerConn, k: &PubKey) -> (o: PeerReport)
    requires
        r.wf(),
    ensures
        o == r@.report(*old(c), k@),
        *final(c) == r@.kept(*old(c), k@),
{
    let stats = stats_of(r, k);
    let (up, age): (bool, Option<u64>) = match stats {
        Some(s) => match s.handshake {
            Handshake::Never => (false, None),
            Handshake::Ahead => (true, None),
            Handshake::Ago(ms) => (ms < HANDSHAKE_FRESH, Some(ms / 1000)),
        },
        None => (false, None),
    };
    let relaying = mesh::has_key(r.relaying, k);
    let icing = mesh::has_key(r.icing, k);
    let step = c.step(
        r.now,
        is_undialled(r.seeds, k, true),
        up,
        is_undialled(r.seeds, k, false),
        relaying,
        icing,
        r.stuck_after,
    );
    PeerReport {
        step,
        up,
        last_handshake_secs: age,
        rx_bytes: match stats {
            Some(s) => s.rx_bytes,
            None => 0,
        },
        tx_bytes: match stats {
            Some(s) => s.tx_bytes,
            None => 0,
        },
        wants_help: relaying || icing || step.reach == PeerReach::Unreachable || (r.ice_enabled
            && step.bootstrap_stuck),
    }
}

/// What a round finds of the tunnel's peers.
pub open spec fn reports_of(
    r: RoundView,
    conns: Map<Seq<u8>, PeerConn>,
    peers: Seq<tunnel::PeerView>,
) -> Seq<PeerReport> {
    peers.map_values(
        |p: tunnel::PeerView| r.report(conn_at(conns, p.public_key), p.public_key),
    )
}

/// What is kept of the tunnel's peers after a round. Nothing is kept of a peer that left.
pub open spec fn conns_after(
    r: RoundView,
    conns: Map<Seq<u8>, PeerConn>,
    peers: Seq<tunnel::PeerView>,
) -> Map<Seq<u8>, PeerConn>
    decreases peers.len(),
{
    if peers.len() == 0 {
        Map::empty()
    } else {
        let k = peers.last().public_key;
        conns_after(r, conns, peers.drop_last()).insert(k, r.kept(conn_at(conns, k), k))
    }
}

/// Looks at every peer of the tunnel.
pub fn survey(r: &Round<'_>, conns: &mut Assoc<PubKey, PeerConn>, peers: &Vec<PeerConfig>) -> (o:
    Vec<PeerReport>)
    requires
        r.wf(),
        old(conns).wf(),
    ensures
        final(conns).wf(),
        o@ == reports_of(r@, old(conns)@, tunnel::peer_views(peers@)),
        final(conns)@ == conns_after(r@, old(conns)@, tunnel::peer_views(peers@)),
{
    let ghost was = conns@;
    let ghost all = tunnel::peer_views(peers@);
    let ghost want = reports_of(r@, was, all);
    let mut out: Vec<PeerReport> = Vec::new();
    let mut next: Assoc<PubKey, PeerConn> = Assoc::new();
    let mut i: usize = 0;
    assert(out@ =~= want.take(0));
    while i < peers.len()
        invariant
            i <= peers.len(),
            r.wf(),
            conns.wf(),
            conns@ == was,
            next.wf(),
            all == tunnel::peer_views(peers@),
            want == reports_of(r@, was, all),
            out@ == want.take(i as int),
            next@ == conns_after(r@, was, all.take(i as int)),
        decreases peers.len() - i,
    {
        assert(all.take(i + 1).drop_last() =~= all.take(i as int));
        assert(all[i as int] == peers@[i as int]@);
        let k = peers[i].public_key;
        let mut c = match conns.get(&k) {
            Some(c) => *c,
            None => PeerConn::new(),
        };
        assert(c == conn_at(was, k@));
        let o = round_of(r, &mut c, &k);
        out.push(o);
        next.insert(k, c);
        assert(out@ =~= want.take(i + 1));
        i += 1;
    }
    assert(all.take(i as int) =~= all);
    assert(want.take(i as int) =~= want);
    *conns = next;
    out
}

/// The peers that help is wanted for, among those that were looked at.
pub open spec fn helpless(peers: Seq<PeerConfig>, reports: Seq<PeerReport>) -> Seq<PubKey>
    decreases peers.len(),
{
    if peers.len() == 0 || reports.len() == 0 || peers.len() != reports.len() {
        seq![]
    } else {
        let before = helpless(peers.drop_last(), reports.drop_last());
        if reports.last().wants_help {
            before.push(peers.last().public_key)
        } else {
            before
        }
    }
}

/// The peers that help is wanted for, sorted, so that an unchanged set compares as such.
pub fn want_relay(peers: &Vec<PeerConfig>, reports: &Vec<PeerReport>) -> (r: Vec<PubKey>)
    requires
        peers.len() == reports.len(),
    ensures
        r@ == order::sorted(helpless(peers@, reports@)),
{
    let mut out: Vec<PubKey> = Vec::new();
    let mut i: usize = 0;
    assert(out@ =~= helpless(peers@.take(0), reports@.take(0)));
    while i < peers.len()
        invariant
            i <= peers.len(),
            peers.len() == reports.len(),
            out@ == helpless(peers@.take(i as int), reports@.take(i as int)),
        decreases peers.len() - i,
    {
        assert(peers@.take(i + 1).drop_last() =~= peers@.take(i as int));
        assert(reports@.take(i + 1).drop_last() =~= reports@.take(i as int));
        if reports[i].wants_help {
            out.push(peers[i].public_key);
        }
        i += 1;
    }
    assert(peers@.take(i as int) =~= peers@);
    assert(reports@.take(i as int) =~= reports@);
    order::sort(out)
}

/// Help that a peer has is not withdrawn for working: a peer that is relayed or negotiated with
/// stays among those that help is wanted for.
pub proof fn law_help_is_not_withdrawn(r: RoundView, c: PeerConn, k: Seq<u8>)
    requires
        r.relaying.contains(k) || r.icing.contains(k),
    ensures
        r.report(c, k).wants_help,
{
}

/// A peer that left the mesh leaves nothing behind.
pub proof fn law_departed_peer_is_forgotten(
    r: RoundView,
    conns: Map<Seq<u8>, PeerConn>,
    peers: Seq<tunnel::PeerView>,
    k: Seq<u8>,
)
    requires
        forall|i: int| 0 <= i < peers.len() ==> (#[trigger] peers[i]).public_key != k,
    ensures
        !conns_after(r, conns, peers).contains_key(k),
    decreases peers.len(),
{
    if peers.len() > 0 {
        let t = peers.drop_last();
        assert forall|i: int| 0 <= i < t.len() implies (#[trigger] t[i]).public_key != k by {
            assert(t[i] == peers[i]);
        }
        law_departed_peer_is_forgotten(r, conns, t, k);
        assert(peers[peers.len() - 1].public_key != k);
    }
}

/// The address that a peer is echoed at: its first.
pub open spec fn echoed_at(p: tunnel::PeerView) -> Option<u32> {
    if p.allowed_ips.len() > 0 {
        Some(p.allowed_ips[0].0)
    } else {
        None
    }
}

/// The addresses that peers are echoed at.
pub open spec fn echoed_of(peers: Seq<tunnel::PeerView>) -> Seq<u32>
    decreases peers.len(),
{
    if peers.len() == 0 {
        seq![]
    } else {
        match echoed_at(peers.last()) {
            Some(ip) => echoed_of(peers.drop_last()).push(ip),
            None => echoed_of(peers.drop_last()),
        }
    }
}

/// The addresses to send an echo to, one for each peer that has any.
pub fn echo_targets(peers: &Vec<PeerConfig>) -> (r: Vec<u32>)
    ensures
        r@ == echoed_of(tunnel::peer_views(peers@)),
{
    let ghost all = tunnel::peer_views(peers@);
    let mut out: Vec<u32> = Vec::new();
    let mut i: usize = 0;
    assert(out@ =~= echoed_of(all.take(0)));
    while i < peers.len()
        invariant
            i <= peers.len(),
            all == tunnel::peer_views(peers@),
            out@ == echoed_of(all.take(i as int)),
        decreases peers.len() - i,
    {
        assert(all.take(i + 1).drop_last() =~= all.take(i as int));
        assert(all[i as int] == peers@[i as int]@);
        if peers[i].allowed_ips.len() > 0 {
            out.push(peers[i].allowed_ips[0].0);
        }
        i += 1;
    }
    assert(all.take(i as int) =~= all);
    out
}

/// What is measured of a peer, at an address.
pub open spec fn measured(r: PeerReport, latency: Map<u32, u32>, ip: u32) -> PeerLive {
    PeerLive {
        reach: r.step.reach,
        up: r.up,
        latency_ms: if latency.contains_key(ip) {
            Some(latency[ip])
        } else {
            None
        },
        rx_bytes: r.rx_bytes,
        tx_bytes: r.tx_bytes,
        last_handshake_secs: r.last_handshake_secs,
    }
}

/// What is measured of the peers that were looked at, by their addresses.
pub open spec fn all_measured(
    peers: Seq<tunnel::PeerView>,
    reports: Seq<PeerReport>,
    latency: Map<u32, u32>,
) -> Map<u32, PeerLive>
    decreases peers.len(),
{
    if peers.len() == 0 || peers.len() != reports.len() {
        Map::empty()
    } else {
        let before = all_measured(peers.drop_last(), reports.drop_last(), latency);
        match echoed_at(peers.last()) {
            Some(ip) => before.insert(ip, measured(reports.last(), latency, ip)),
            None => before,
        }
    }
}

/// Whether each peer answered its echo, of those that were sent one. It is what shows that a path on
/// the local segment carries traffic: the session itself stays the same over another path.
pub open spec fn answering(peers: Seq<tunnel::PeerView>, latency: Map<u32, u32>) -> Map<
    Seq<u8>,
    bool,
>
    decreases peers.len(),
{
    if peers.len() == 0 {
        Map::empty()
    } else {
        let before = answering(peers.drop_last(), latency);
        match echoed_at(peers.last()) {
            Some(ip) => before.insert(peers.last().public_key, latency.contains_key(ip)),
            None => before,
        }
    }
}

/// What a round measured: what to show of each peer, and which of them answered.
pub struct Measured {
    pub live: Assoc<u32, PeerLive>,
    pub reachable: Assoc<PubKey, bool>,
}

/// What a round measured, with the echoes that came back.
pub fn measure(
    peers: &Vec<PeerConfig>,
    reports: &Vec<PeerReport>,
    latency: &Assoc<u32, u32>,
) -> (r: Measured)
    requires
        peers.len() == reports.len(),
        latency.wf(),
    ensures
        r.live.wf(),
        r.live@ == all_measured(tunnel::peer_views(peers@), reports@, latency@),
        r.reachable.wf(),
        r.reachable@ == answering(tunnel::peer_views(peers@), latency@),
{
    let ghost all = tunnel::peer_views(peers@);
    let mut live: Assoc<u32, PeerLive> = Assoc::new();
    let mut reachable: Assoc<PubKey, bool> = Assoc::new();
    let mut i: usize = 0;
    assert(live@ == all_measured(all.take(0), reports@.take(0), latency@));
    assert(reachable@ == answering(all.take(0), latency@));
    while i < peers.len()
        invariant
            i <= peers.len(),
            peers.len() == reports.len(),
            latency.wf(),
            live.wf(),
            reachable.wf(),
            all == tunnel::peer_views(peers@),
            live@ == all_measured(all.take(i as int), reports@.take(i as int), latency@),
            reachable@ == answering(all.take(i as int), latency@),
        decreases peers.len() - i,
    {
        assert(all.take(i + 1).drop_last() =~= all.take(i as int));
        assert(reports@.take(i + 1).drop_last() =~= reports@.take(i as int));
        assert(all[i as int] == peers@[i as int]@);
        let p = &peers[i];
        if p.allowed_ips.len() > 0 {
            let ip: u32 = p.allowed_ips[0].0;
            let latency_ms: Option<u32> = match latency.get(&ip) {
                Some(t) => Some(*t),
                None => None,
            };
            let o = reports[i];
            live.insert(
                ip,
                PeerLive {
                    reach: o.step.reach,
                    up: o.up,
                    latency_ms,
                    rx_bytes: o.rx_bytes,
                    tx_bytes: o.tx_bytes,
                    last_handshake_secs: o.last_handshake_secs,
                },
            );
            reachable.insert(p.public_key, latency_ms.is_some());
        }
        i += 1;
    }
    assert(all.take(i as int) =~= all);
    assert(reports@.take(i as int) =~= reports@);
    Measured { live, reachable }
}

/// Exactly the peers with an address are in the round's answers.
pub proof fn law_every_routed_peer_is_accounted_for(
    peers: Seq<tunnel::PeerView>,
    latency: Map<u32, u32>,
    k: Seq<u8>,
)
    ensures
        answering(peers, latency).contains_key(k) <==> exists|i: int|
            0 <= i < peers.len() && (#[trigger] peers[i]).public_key == k && echoed_at(
                peers[i],
            ) is Some,
    decreases peers.len(),
{
    if peers.len() > 0 {
        let t = peers.drop_last();
        law_every_routed_peer_is_accounted_for(t, latency, k);
        if exists|i: int|
            0 <= i < t.len() && (#[trigger] t[i]).public_key == k && echoed_at(t[i]) is Some {
            let i = choose|i: int|
                0 <= i < t.len() && (#[trigger] t[i]).public_key == k && echoed_at(t[i]) is Some;
            assert(peers[i] == t[i]);
        }
        if exists|i: int|
            0 <= i < peers.len() && (#[trigger] peers[i]).public_key == k && echoed_at(
                peers[i],
            ) is Some {
            let i = choose|i: int|
                0 <= i < peers.len() && (#[trigger] peers[i]).public_key == k && echoed_at(
                    peers[i],
                ) is Some;
            if i < t.len() {
                assert(t[i] == peers[i]);
            }
        }
        assert(peers[peers.len() - 1] == peers.last());
    }
}

/// Whether a peer is to be asked for a fresh attestation of itself.
pub open spec fn due(expires_at: u64, now: u64, margin: u64) -> bool {
    expires_at <= now + margin
}

/// Whether a peer is to be asked for a fresh attestation of itself.
pub fn due_for_pull(seed: &SeedPeer, now: u64, margin: u64) -> (r: bool)
    requires
        now + margin <= u64::MAX,
    ensures
        r == due(seed@.expires_at, now, margin),
{
    seed.expires_at <= now + margin
}

/// The peers whose attestations have not lapsed.
pub open spec fn unlapsed(seeds: Seq<mesh::SeedView>, now: u64) -> Seq<mesh::SeedView> {
    seeds.filter(|s: mesh::SeedView| s.expires_at > now)
}

/// Drops the peers whose attestations lapsed, and says how many. A peer that was revoked cannot get
/// a fresh one, so that a revocation takes hold while the coordinator is out of reach.
pub fn drop_lapsed(seeds: &mut Vec<SeedPeer>, now: u64) -> (dropped: usize)
    ensures
        mesh::seed_views(final(seeds)@) == unlapsed(mesh::seed_views(old(seeds)@), now),
        dropped == old(seeds)@.len() - final(seeds)@.len(),
{
    let ghost all = mesh::seed_views(seeds@);
    let ghost p = |s: mesh::SeedView| s.expires_at > now;
    let before: usize = seeds.len();
    let mut rest: Vec<SeedPeer> = Vec::new();
    std::mem::swap(&mut rest, seeds);
    let ghost mut done: int = 0;
    proof {
        reveal(Seq::filter);
        assert(all.skip(0) =~= all);
        assert(mesh::seed_views(seeds@) =~= all.take(0).filter(p));
    }
    while rest.len() > 0
        invariant
            0 <= done <= all.len(),
            all.len() == before,
            mesh::seed_views(rest@) == all.skip(done),
            p == (|s: mesh::SeedView| s.expires_at > now),
            mesh::seed_views(seeds@) == all.take(done).filter(p),
            seeds@.len() <= done,
        decreases rest.len(),
    {
        let ghost views = mesh::seed_views(rest@);
        let s = rest.remove(0);
        proof {
            reveal(Seq::filter);
            assert(views.len() == rest@.len() + 1 && views == all.skip(done));
            assert(s@ == views[0]);
            assert(s@ == all[done]);
            assert(mesh::seed_views(rest@) =~= views.skip(1));
            assert(all.skip(done).skip(1) =~= all.skip(done + 1));
            assert(all.take(done + 1).drop_last() =~= all.take(done));
            done = done + 1;
        }
        if s.expires_at > now {
            let ghost was = mesh::seed_views(seeds@);
            let ghost sv = s@;
            seeds.push(s);
            assert(mesh::seed_views(seeds@) =~= was.push(sv));
        }
    }
    proof {
        assert(all.skip(done).len() == mesh::seed_views(rest@).len());
        assert(all.take(done) =~= all);
        assert(p =~= (|s: mesh::SeedView| s.expires_at > now));
    }
    before - seeds.len()
}

/// Access ends at expiry: after lapsed peers are dropped, every peer left has time left.
pub proof fn law_no_lapsed_peer_stays(seeds: Seq<mesh::SeedView>, now: u64, i: int)
    requires
        0 <= i < unlapsed(seeds, now).len(),
    ensures
        unlapsed(seeds, now)[i].expires_at > now,
    decreases seeds.len(),
{
    reveal(Seq::filter);
    let p = |s: mesh::SeedView| s.expires_at > now;
    if seeds.len() > 0 {
        if i < unlapsed(seeds.drop_last(), now).len() {
            law_no_lapsed_peer_stays(seeds.drop_last(), now, i);
        }
    }
}

/// How a peer is reached. One that a relay or a negotiated path is in use for: by that. One that is
/// connected: directly. One that is not: out of reach, once it has been without a connection for as many
/// seconds as there may be, counted from the round that first found it so; before that it is punched
/// towards, where it can be, and else still dialled.
pub proof fn law_how_a_peer_is_reached(
    c: PeerConn,
    now: u64,
    punched: bool,
    connected: bool,
    relaying: bool,
    icing: bool,
    stuck_after: u64,
)
    requires
        c.attempt_since matches Some(t) ==> t <= now,
    ensures
        ({
            let secs: int = match c.attempt_since {
                Some(t) => (now - t) / 1000,
                None => 0,
            };
            c.reach_now(now, punched, connected, relaying, icing, stuck_after) == if relaying {
                PeerReach::Relayed
            } else if icing {
                PeerReach::Ice
            } else if connected {
                PeerReach::Direct
            } else if secs >= stuck_after {
                PeerReach::Unreachable
            } else if punched {
                PeerReach::Punching
            } else {
                PeerReach::Direct
            }
        }),
{
}

/// The wait for a peer runs from the round that first found it without a connection: later rounds that
/// find it so do not begin it anew. So does the wait for one that cannot be punched towards, which is
/// over after fifteen seconds, and which ends where the peer can be punched towards after all.
pub proof fn law_waits_run_from_their_beginning(
    c: PeerConn,
    t: u64,
    now: u64,
    u: bool,
    reach: PeerReach,
)
    requires
        t <= now,
    ensures
        c.attempt_since is None ==> c.after(t, false, u, reach).attempt_since == Some(t),
        c.attempt_since is Some ==> c.after(t, false, u, reach).attempt_since == c.attempt_since,
        c.bootstrap_since is None ==> c.after(t, false, true, reach).bootstrap_since == Some(t),
        c.bootstrap_since is Some ==> c.after(t, false, true, reach).bootstrap_since
            == c.bootstrap_since,
        c.after(t, false, false, reach).bootstrap_since is None,
        !c.found(now, false, false, reach).bootstrap_stuck,
        c.bootstrap_since == Some(t) ==> (c.found(now, false, true, reach).bootstrap_stuck <==> (now
            - t) / 1000 >= 15),
        c.bootstrap_since is None ==> !c.found(now, false, true, reach).bootstrap_stuck,
        c.after(t, false, u, reach).last == Some((false, reach)),
        c.after(t, true, u, reach).last == Some((true, reach)),
{
}

/// A change is told, with what was before: whenever the connection or the way is another than the last
/// round reported, and only then. The first round of a peer tells no change.
pub proof fn law_every_change_is_told(
    c: PeerConn,
    now: u64,
    connected: bool,
    u: bool,
    reach: PeerReach,
)
    ensures
        c.found(now, connected, u, reach).reach == reach,
        c.last is None ==> c.found(now, connected, u, reach).flipped is None,
        c.last matches Some((was_up, was_reach)) ==> c.found(now, connected, u, reach).flipped == if (
        was_up != connected || was_reach != reach) {
            Some((was_up, was_reach))
        } else {
            None
        },
{
}

/// What a round reports of a peer: it is up if its last handshake is younger than three minutes, and help
/// is wanted for it if it has help, is out of reach, or, where paths are negotiated, has been beyond
/// punching for too long. The rest is what the tunnel tells, and nothing where that knows no such peer.
pub proof fn law_what_a_round_reports(r: RoundView, c: PeerConn, k: Seq<u8>)
    ensures
        ({
            let o = r.report(c, k);
            let told = match r.stats {
                Some(m) => if m.contains_key(k) {
                    Some(m[k])
                } else {
                    None
                },
                None => None,
            };
            &&& match told {
                Some(s) => {
                    &&& o.up <==> match s.handshake {
                        Handshake::Never => false,
                        Handshake::Ahead => true,
                        Handshake::Ago(ms) => ms < 180_000,
                    }
                    &&& o.rx_bytes == s.rx_bytes
                    &&& o.tx_bytes == s.tx_bytes
                    &&& s.handshake matches Handshake::Ago(ms) ==> o.last_handshake_secs == Some(
                        (ms / 1000) as u64,
                    )
                    &&& s.handshake !is Ago ==> o.last_handshake_secs is None
                },
                None => !o.up && o.rx_bytes == 0 && o.tx_bytes == 0 && o.last_handshake_secs is None,
            }
            &&& o.step.reach == c.reach_now(
                r.now,
                exists|i: int|
                    0 <= i < r.seeds.len() && (#[trigger] r.seeds[i]).pubkey == k
                        && r.seeds[i].endpoint is None && r.seeds[i].punch is Some,
                o.up,
                r.relaying.contains(k),
                r.icing.contains(k),
                r.stuck_after,
            )
            &&& o.wants_help <==> r.relaying.contains(k) || r.icing.contains(k) || o.step.reach
                == PeerReach::Unreachable || (r.ice_enabled && o.step.bootstrap_stuck)
            &&& o.step == c.found(
                r.now,
                o.up,
                exists|i: int|
                    0 <= i < r.seeds.len() && (#[trigger] r.seeds[i]).pubkey == k
                        && r.seeds[i].endpoint is None && r.seeds[i].punch is None,
                o.step.reach,
            )
        }),
{
    assert(undialled(r.seeds, k, true) <==> exists|i: int|
        0 <= i < r.seeds.len() && (#[trigger] r.seeds[i]).pubkey == k && r.seeds[i].endpoint is None
            && r.seeds[i].punch is Some);
    assert(undialled(r.seeds, k, false) <==> exists|i: int|
        0 <= i < r.seeds.len() && (#[trigger] r.seeds[i]).pubkey == k && r.seeds[i].endpoint is None
            && r.seeds[i].punch is None);
}

/// Every peer of the tunnel is looked at, each in its place, with what was kept of it before; and what is
/// kept of it from then on is what the round found. A peer that was not seen before starts with nothing.
pub proof fn law_every_peer_is_looked_at(
    r: RoundView,
    conns: Map<Seq<u8>, PeerConn>,
    peers: Seq<tunnel::PeerView>,
    i: int,
)
    requires
        0 <= i < peers.len(),
    ensures
        ({
            let k = peers[i].public_key;
            let c = if conns.contains_key(k) {
                conns[k]
            } else {
                PeerConn { attempt_since: None, bootstrap_since: None, last: None }
            };
            let o = r.report(c, k);
            &&& reports_of(r, conns, peers).len() == peers.len()
            &&& reports_of(r, conns, peers)[i] == o
            &&& conns_after(r, conns, peers).contains_key(k)
            &&& conns_after(r, conns, peers)[k].last == Some((o.up, o.step.reach))
            &&& conns_after(r, conns, peers)[k].attempt_since == if o.up {
                None
            } else if c.attempt_since is Some {
                c.attempt_since
            } else {
                Some(r.now)
            }
        }),
    decreases peers.len(),
{
    let t = peers.drop_last();
    if i < t.len() {
        assert(t[i] == peers[i]);
        law_every_peer_is_looked_at(r, conns, t, i);
    }
}

/// Help is wanted for just those peers that a round found to want it, each in its turn.
pub proof fn law_help_is_wanted_for_who_wants_it(
    peers: Seq<PeerConfig>,
    reports: Seq<PeerReport>,
    k: PubKey,
)
    requires
        peers.len() == reports.len(),
    ensures
        order::sorted(helpless(peers, reports)).contains(k) <==> exists|i: int|
            0 <= i < peers.len() && (#[trigger] peers[i]).public_key == k && reports[i].wants_help,
        order::is_sorted(order::sorted(helpless(peers, reports))),
    decreases peers.len(),
{
    let all = helpless(peers, reports);
    order::lemma_sorted(all);
    order::lemma_sorted_contains(all, k);
    if peers.len() > 0 {
        let t = peers.drop_last();
        let u = reports.drop_last();
        let n = peers.len() - 1;
        let before = helpless(t, u);
        law_help_is_wanted_for_who_wants_it(t, u, k);
        order::lemma_sorted_contains(before, k);
        assert(peers[n] == peers.last() && reports[n] == reports.last());
        if before.contains(k) {
            let j = choose|j: int| 0 <= j < before.len() && before[j] == k;
            assert(all[j] == k);
            let i = choose|i: int|
                0 <= i < t.len() && (#[trigger] t[i]).public_key == k && u[i].wants_help;
            assert(peers[i].public_key == k && reports[i].wants_help);
        }
        if all.contains(k) && !before.contains(k) {
            let j = choose|j: int| 0 <= j < all.len() && all[j] == k;
            if j < before.len() {
                assert(before[j] == k);
            }
        }
        if all.len() > before.len() {
            assert(all[before.len() as int] == peers[n].public_key);
        }
        if exists|i: int|
            0 <= i < peers.len() && (#[trigger] peers[i]).public_key == k && reports[i].wants_help {
            let i = choose|i: int|
                0 <= i < peers.len() && (#[trigger] peers[i]).public_key == k
                    && reports[i].wants_help;
            if i < n {
                assert(t[i].public_key == k && u[i].wants_help);
            }
        }
    }
}

/// Each peer with an address is sent an echo, at its first, in order; one without is not.
pub proof fn law_each_peer_is_echoed(
    a: Seq<tunnel::PeerView>,
    b: Seq<tunnel::PeerView>,
    p: tunnel::PeerView,
)
    ensures
        echoed_of(a + b) == echoed_of(a) + echoed_of(b),
        echoed_of(seq![p]) == if p.allowed_ips.len() > 0 {
            seq![p.allowed_ips[0].0]
        } else {
            seq![]
        },
    decreases b.len(),
{
    assert(seq![p].drop_last() =~= seq![]);
    assert(echoed_of(seq![]) =~= seq![]);
    assert(echoed_of(seq![p]) =~= if p.allowed_ips.len() > 0 {
        seq![p.allowed_ips[0].0]
    } else {
        seq![]
    });
    if b.len() == 0 {
        assert(a + b =~= a);
        assert(echoed_of(a) + echoed_of(b) =~= echoed_of(a));
    } else {
        law_each_peer_is_echoed(a, b.drop_last(), p);
        assert((a + b).drop_last() =~= a + b.drop_last());
        assert((a + b).last() == b.last());
        assert(echoed_of(a + b) =~= echoed_of(a) + echoed_of(b));
    }
}

/// What is shown of a peer, at its first address, is what the round found of it, with the time that its
/// echo took, where it came back; unless a later peer has the address too. A peer counts as answering if
/// and only if its echo came back.
pub proof fn law_peers_are_shown_as_found(
    peers: Seq<tunnel::PeerView>,
    reports: Seq<PeerReport>,
    latency: Map<u32, u32>,
    i: int,
)
    requires
        peers.len() == reports.len(),
        0 <= i < peers.len(),
        peers[i].allowed_ips.len() > 0,
    ensures
        ({
            let ip = peers[i].allowed_ips[0].0;
            let live = all_measured(peers, reports, latency);
            &&& live.contains_key(ip)
            &&& (forall|j: int|
                i < j < peers.len() && (#[trigger] peers[j]).allowed_ips.len() > 0
                    ==> peers[j].allowed_ips[0].0 != ip) ==> {
                &&& live[ip].reach == reports[i].step.reach
                &&& live[ip].up == reports[i].up
                &&& live[ip].latency_ms == if latency.contains_key(ip) {
                    Some(latency[ip])
                } else {
                    None
                }
                &&& live[ip].rx_bytes == reports[i].rx_bytes
                &&& live[ip].tx_bytes == reports[i].tx_bytes
                &&& live[ip].last_handshake_secs == reports[i].last_handshake_secs
            }
            &&& (forall|j: int|
                i < j < peers.len() && (#[trigger] peers[j]).allowed_ips.len() > 0
                    ==> peers[j].public_key != peers[i].public_key) ==> answering(
                peers,
                latency,
            ).contains_key(peers[i].public_key) && answering(peers, latency)[peers[i].public_key]
                == latency.contains_key(ip)
        }),
    decreases peers.len(),
{
    let t = peers.drop_last();
    let u = reports.drop_last();
    let n = peers.len() - 1;
    let ip = peers[i].allowed_ips[0].0;
    assert(peers[n] == peers.last() && reports[n] == reports.last());
    if i < n {
        assert(t[i] == peers[i] && u[i] == reports[i]);
        law_peers_are_shown_as_found(t, u, latency, i);
        if forall|j: int|
            i < j < peers.len() && (#[trigger] peers[j]).allowed_ips.len() > 0
                ==> peers[j].allowed_ips[0].0 != ip {
            assert(peers[n].allowed_ips.len() > 0 ==> peers[n].allowed_ips[0].0 != ip);
            assert forall|j: int| i < j < t.len() && (#[trigger] t[j]).allowed_ips.len() > 0 implies
                t[j].allowed_ips[0].0 != ip by {
                assert(t[j] == peers[j]);
            }
        }
        if forall|j: int|
            i < j < peers.len() && (#[trigger] peers[j]).allowed_ips.len() > 0
                ==> peers[j].public_key != peers[i].public_key {
            assert(peers[n].allowed_ips.len() > 0 ==> peers[n].public_key != peers[i].public_key);
            assert forall|j: int| i < j < t.len() && (#[trigger] t[j]).allowed_ips.len() > 0 implies
                t[j].public_key != t[i].public_key by {
                assert(t[j] == peers[j]);
            }
        }
    }
}

/// Nothing is shown at an address that is no peer's first.
pub proof fn law_nothing_else_is_shown(
    peers: Seq<tunnel::PeerView>,
    reports: Seq<PeerReport>,
    latency: Map<u32, u32>,
    ip: u32,
)
    requires
        peers.len() == reports.len(),
        all_measured(peers, reports, latency).contains_key(ip),
    ensures
        exists|i: int|
            0 <= i < peers.len() && (#[trigger] peers[i]).allowed_ips.len() > 0
                && peers[i].allowed_ips[0].0 == ip,
    decreases peers.len(),
{
    if peers.len() > 0 {
        let t = peers.drop_last();
        let u = reports.drop_last();
        assert(peers[peers.len() - 1] == peers.last());
        if all_measured(t, u, latency).contains_key(ip) {
            law_nothing_else_is_shown(t, u, latency, ip);
            let i = choose|i: int|
                0 <= i < t.len() && (#[trigger] t[i]).allowed_ips.len() > 0 && t[i].allowed_ips[0].0
                    == ip;
            assert(peers[i].allowed_ips.len() > 0);
        }
    }
}

/// A peer is dropped when its attestation lapsed, and not before: those that have time left stay, as they
/// are and in their order. A peer is asked for a fresh one when no more is left than the margin.
pub proof fn law_just_the_lapsed_are_dropped(
    a: Seq<mesh::SeedView>,
    b: Seq<mesh::SeedView>,
    s: mesh::SeedView,
    now: u64,
    margin: u64,
)
    ensures
        unlapsed(a + b, now) == unlapsed(a, now) + unlapsed(b, now),
        s.expires_at > now ==> unlapsed(seq![s], now) == seq![s],
        s.expires_at <= now ==> unlapsed(seq![s], now).len() == 0,
        due(s.expires_at, now, margin) <==> s.expires_at <= now + margin,
    decreases b.len(),
{
    reveal(Seq::filter);
    let p = |s: mesh::SeedView| s.expires_at > now;
    assert(seq![s].drop_last() =~= seq![]);
    assert(Seq::<mesh::SeedView>::empty().filter(p) =~= seq![]);
    assert(unlapsed(seq![s], now) =~= if p(s) {
        seq![s]
    } else {
        seq![]
    });
    if b.len() == 0 {
        assert(a + b =~= a);
        assert(unlapsed(a, now) + unlapsed(b, now) =~= unlapsed(a, now));
    } else {
        law_just_the_lapsed_are_dropped(a, b.drop_last(), s, now, margin);
        assert((a + b).drop_last() =~= a + b.drop_last());
        assert((a + b).last() == b.last());
        assert(unlapsed(a + b, now) =~= unlapsed(a, now) + unlapsed(b, now));
    }
}

} // verus!
