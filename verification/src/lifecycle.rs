//! The life of an enrolled device: signing on, the main loop, and leaving without a trace.
use crate::assoc::{self, Assoc, PubKey};
use crate::coord::{self, CoordError, CoordReq, RegisterResp};
use crate::daemon::{
    self, PeerStats, RunOutcome, SentReport, DNS_PORT, PROTO_MISMATCH_BACKOFF,
};
use crate::membership::{self, Membership, Taken};
use crate::mesh::{
    self, copy_observations, HeldPeer, ObservedEndpoint, RelayReport, SeedPeer, SelfDevice,
};
use crate::net::{Endpoint, Ip};
use crate::netcfg::{self, LocalNet, NetId};
use crate::order;
use crate::peering::{self, filter_active};
use crate::text;
use vstd::prelude::*;
use vstd::string::*;

verus! {

/// Where a key stands, or would stand, in a list of observations that is sorted by key, at or after
/// `i`.
pub open spec fn seen_place(s: Seq<mesh::ObservedView>, k: Seq<u8>, i: int) -> int
    decreases s.len() - i,
{
    if i >= s.len() {
        s.len() as int
    } else if order::bytes_le(k, s[i].pubkey) {
        i
    } else {
        seen_place(s, k, i + 1)
    }
}

/// Whether observations are sorted by key, each key once.
pub open spec fn in_key_order(s: Seq<mesh::ObservedView>) -> bool {
    forall|i: int, j: int|
        0 <= i < j < s.len() ==> order::bytes_le((#[trigger] s[i]).pubkey, (
        #[trigger] s[j]).pubkey) && s[i].pubkey != s[j].pubkey
}

proof fn lemma_seen_place(s: Seq<mesh::ObservedView>, k: Seq<u8>, i: int)
    requires
        0 <= i <= s.len(),
    ensures
        i <= seen_place(s, k, i) <= s.len(),
        seen_place(s, k, i) < s.len() ==> order::bytes_le(k, s[seen_place(s, k, i)].pubkey),
        forall|j: int|
            i <= j < seen_place(s, k, i) ==> !order::bytes_le(k, (#[trigger] s[j]).pubkey),
    decreases s.len() - i,
{
    if i < s.len() && !order::bytes_le(k, s[i].pubkey) {
        lemma_seen_place(s, k, i + 1);
    }
}

proof fn lemma_seen_insert(s: Seq<mesh::ObservedView>, o: mesh::ObservedView)
    requires
        in_key_order(s),
        forall|j: int| 0 <= j < s.len() ==> (#[trigger] s[j]).pubkey != o.pubkey,
    ensures
        in_key_order(s.insert(seen_place(s, o.pubkey, 0), o)),
        forall|x: mesh::ObservedView| #[trigger]
            s.insert(seen_place(s, o.pubkey, 0), o).contains(x) <==> s.contains(x) || x == o,
{
    lemma_seen_place(s, o.pubkey, 0);
    let k = seen_place(s, o.pubkey, 0);
    let t = s.insert(k, o);
    assert forall|i: int, j: int| 0 <= i < j < t.len() implies order::bytes_le(
        (#[trigger] t[i]).pubkey,
        (#[trigger] t[j]).pubkey,
    ) && t[i].pubkey != t[j].pubkey by {
        if i < k {
            assert(t[i] == s[i]);
            if j < k {
                assert(t[j] == s[j]);
            } else if j == k {
                order::lemma_lex_total(order::octets(o.pubkey), order::octets(s[i].pubkey));
            } else {
                assert(t[j] == s[j - 1]);
            }
        } else if i == k {
            assert(t[j] == s[j - 1]);
            if j - 1 > k {
                order::lemma_lex_trans(
                    order::octets(o.pubkey),
                    order::octets(s[k].pubkey),
                    order::octets(s[j - 1].pubkey),
                );
            }
        } else {
            assert(t[i] == s[i - 1] && t[j] == s[j - 1]);
        }
    }
    assert forall|x: mesh::ObservedView| #[trigger] t.contains(x) <==> s.contains(x) || x == o by {
        if t.contains(x) {
            let i = choose|i: int| 0 <= i < t.len() && t[i] == x;
            if i < k {
                assert(s[i] == x);
            } else if i > k {
                assert(s[i - 1] == x);
            }
        }
        if s.contains(x) {
            let i = choose|i: int| 0 <= i < s.len() && s[i] == x;
            if i < k {
                assert(t[i] == x);
            } else {
                assert(t[i + 1] == x);
            }
        }
        assert(t[k] == o);
    }
}

/// Whether observations are what the tunnel tells: sorted by key, and where a peer was seen to send
/// from, for each peer that was.
pub open spec fn observes(s: Seq<mesh::ObservedView>, m: Map<Seq<u8>, PeerStats>) -> bool {
    &&& in_key_order(s)
    &&& forall|x: mesh::ObservedView| #[trigger]
        s.contains(x) <==> m.contains_key(x.pubkey) && m[x.pubkey].endpoint == Some(x.endpoint)
}

/// Where peers were seen to send from. Without figures, what was told stands: a figure that could
/// not be read is no change.
pub fn observed_now(stats: &Option<Assoc<PubKey, PeerStats>>, sent: &SentReport) -> (r: Vec<
    ObservedEndpoint,
>)
    requires
        stats matches Some(m) ==> m.wf(),
    ensures
        match *stats {
            Some(m) => observes(mesh::observation_views(r@), m@),
            None => mesh::observation_views(r@) == sent@.observed,
        },
{
    let m = match stats {
        Some(m) => m,
        None => {
            return copy_observations(&sent.observed);
        },
    };
    let ghost es = m.entries@;
    let mut out: Vec<ObservedEndpoint> = Vec::new();
    let mut i: usize = 0;
    proof {
        let s = mesh::observation_views(out@);
        assert(s =~= seq![]);
    }
    while i < m.entries.len()
        invariant
            i <= m.entries.len(),
            m.wf(),
            es == m.entries@,
            in_key_order(mesh::observation_views(out@)),
            forall|x: mesh::ObservedView| #[trigger]
                mesh::observation_views(out@).contains(x) <==> seen_among(es, i as int, x),
        decreases m.entries.len() - i,
    {
        let ghost s = mesh::observation_views(out@);
        let (k, st) = (m.entries[i].0, m.entries[i].1);
        if let Some(e) = st.endpoint {
            let o = ObservedEndpoint { pubkey: k, endpoint: e };
            let ghost ov = o@;
            proof {
                assert forall|j: int| 0 <= j < s.len() implies (
                #[trigger] s[j]).pubkey != ov.pubkey by {
                    assert(s.contains(s[j]));
                    let n = choose|n: int|
                        0 <= n < i && (#[trigger] es[n]).0@ == s[j].pubkey && es[n].1.endpoint
                            == Some(s[j].endpoint);
                    assert(es[n].0@ != es[i as int].0@);
                }
                lemma_seen_insert(s, ov);
            }
            let mut p: usize = 0;
            while p < out.len() && !order::bytes_leq(&o.pubkey, &out[p].pubkey)
                invariant
                    p <= out.len(),
                    s == mesh::observation_views(out@),
                    seen_place(s, o@.pubkey, 0) == seen_place(s, o@.pubkey, p as int),
                decreases out.len() - p,
            {
                assert(s[p as int] == out@[p as int]@);
                p += 1;
            }
            if p < out.len() {
                assert(s[p as int] == out@[p as int]@);
            }
            out.insert(p, o);
            assert(mesh::observation_views(out@) =~= s.insert(p as int, ov));
            assert forall|x: mesh::ObservedView| #[trigger]
                mesh::observation_views(out@).contains(x) <==> seen_among(es, i + 1, x) by {
                lemma_seen_step(es, i as int, x);
                assert(s.contains(x) <==> seen_among(es, i as int, x));
                assert(x == ov <==> x.pubkey == ov.pubkey && x.endpoint == ov.endpoint);
            }
        } else {
            assert forall|x: mesh::ObservedView| #[trigger]
                mesh::observation_views(out@).contains(x) <==> seen_among(es, i + 1, x) by {
                lemma_seen_step(es, i as int, x);
                assert(s.contains(x) <==> seen_among(es, i as int, x));
            }
        }
        i += 1;
    }
    assert forall|x: mesh::ObservedView| #[trigger]
        mesh::observation_views(out@).contains(x) <==> m@.contains_key(x.pubkey)
            && m@[x.pubkey].endpoint == Some(x.endpoint) by {
        if seen_among(es, es.len() as int, x) {
            let n = choose|n: int|
                0 <= n < es.len() && (#[trigger] es[n]).0@ == x.pubkey && es[n].1.endpoint == Some(
                    x.endpoint,
                );
            assoc::lemma_entry(es, n);
        }
        if m@.contains_key(x.pubkey) && m@[x.pubkey].endpoint == Some(x.endpoint) {
            let n = assoc::key_at(es, x.pubkey);
            assert(es[n].0@ == x.pubkey);
        }
    }
    out
}

/// Whether one of the first `n` peers was seen to send from an endpoint.
pub open spec fn seen_among(es: Seq<(PubKey, PeerStats)>, n: int, x: mesh::ObservedView) -> bool {
    exists|i: int|
        0 <= i < n && (#[trigger] es[i]).0@ == x.pubkey && es[i].1.endpoint == Some(x.endpoint)
}

proof fn lemma_seen_step(es: Seq<(PubKey, PeerStats)>, n: int, x: mesh::ObservedView)
    requires
        0 <= n < es.len(),
    ensures
        seen_among(es, n + 1, x) <==> seen_among(es, n, x) || (es[n].0@ == x.pubkey
            && es[n].1.endpoint == Some(x.endpoint)),
{
    if seen_among(es, n, x) {
        let i = choose|i: int|
            0 <= i < n && (#[trigger] es[i]).0@ == x.pubkey && es[i].1.endpoint == Some(x.endpoint);
        assert(es[i].0@ == x.pubkey);
    }
    if es[n].0@ == x.pubkey && es[n].1.endpoint == Some(x.endpoint) {
        assert(seen_among(es, n + 1, x));
    }
}

/// The paths that help with a stuck peer.
#[derive(Clone, Copy, Debug, PartialEq, Eq, Structural)]
pub enum Overlay {
    /// Relay sessions.
    Relay,
    /// Negotiated paths.
    Ice,
}

/// What wakes the main loop, besides an answer of the coordinator.
pub enum Event {
    /// The program is to stop.
    Shutdown,
    /// A new program is in place. `plan` says whether the way to start it was left behind, and
    /// `service` whether a service manager starts it.
    Restart { plan: bool, service: bool },
    /// The owner logs out.
    Logout,
    /// The owner decided something that bears on the mesh.
    Toggle,
    /// It is time to look at the tunnel again. The negotiated paths or those on the local segment
    /// may have changed.
    Recheck { ice_changed: bool, lan_changed: bool },
    /// The coordinator did not answer, or refused.
    Failed { error: CoordError },
}

/// What an event calls for.
pub enum Next {
    /// Undo every change to the host, and end.
    End(RunOutcome),
    /// Un-enrol, drop the mesh, and wait for the next login.
    Leave,
    /// Bring the helping paths up to date, and apply the state.
    Remesh(Overlay),
    /// Apply the state.
    Apply,
    /// Nothing.
    Nothing,
    /// Wait so many seconds. The text, when there is one, is why this build was refused.
    Wait { secs: u64, refused: Option<String> },
}

/// What the main loop keeps.
pub struct MeshLoop {
    /// The version of the last answer that was taken in.
    pub since: Option<u64>,
    /// Whether the coordinator holds a request.
    pub pending: bool,
    /// Whether the coordinator answered when last asked, and nothing of it was refused.
    pub coord_online: bool,
    /// What it was told.
    pub sent: SentReport,
    /// Whether paths are negotiated, rather than relayed.
    pub ice_enabled: bool,
    /// How long to wait, in seconds, when the coordinator does not answer.
    pub refresh_secs: u64,
}

/// The model of what the main loop keeps.
#[verifier::ext_equal]
pub struct LoopView {
    pub since: Option<u64>,
    pub pending: bool,
    pub coord_online: bool,
    pub sent: daemon::SentView,
    pub ice_enabled: bool,
    pub refresh_secs: u64,
}

impl View for MeshLoop {
    type V = LoopView;

    open spec fn view(&self) -> LoopView {
        LoopView {
            since: self.since,
            pending: self.pending,
            coord_online: self.coord_online,
            sent: self.sent@,
            ice_enabled: self.ice_enabled,
            refresh_secs: self.refresh_secs,
        }
    }
}

/// Whether the device's own attestation is to be renewed: its expiry falls within a hold, and a held
/// request might come back too late.
pub open spec fn own_grant_stale(expires_at: Option<u64>, now: u64, hold_secs: u64) -> bool {
    match expires_at {
        Some(e) => e <= now + hold_secs,
        None => false,
    }
}

/// What to do about the request to the coordinator.
pub struct Poll {
    /// Whether to withdraw the request that is held: it is out of date.
    pub withdraw: bool,
    /// The version to ask from, when a request is to be made. Without a version the coordinator
    /// answers at once.
    pub issue: Option<Option<u64>>,
}

impl LoopView {
    /// What the event calls for.
    pub open spec fn overlay(self) -> Overlay {
        if self.ice_enabled {
            Overlay::Ice
        } else {
            Overlay::Relay
        }
    }

    /// Whether there is something to tell the coordinator, or to ask it for, that a held request
    /// would keep waiting.
    pub open spec fn has_news(
        self,
        report: daemon::SentView,
        grant_stale: bool,
        seeds: nat,
        held: nat,
    ) -> bool {
        self.sent != report || grant_stale || (seeds > 0 && held == 0)
    }

    /// What to do about the request.
    pub open spec fn poll(self, news: bool) -> Poll {
        Poll {
            withdraw: news && self.pending,
            issue: if news {
                Some(None)
            } else if self.pending {
                None
            } else {
                Some(self.since)
            },
        }
    }

    /// What is kept after an event.
    pub open spec fn after(self, e: Event) -> LoopView {
        match e {
            Event::Toggle => LoopView { pending: false, ..self },
            Event::Failed { .. } => LoopView { pending: false, coord_online: false, ..self },
            _ => self,
        }
    }

    /// What is kept after an answer that was taken in. What was reported goes with it.
    pub open spec fn told(self, version: u64, report: daemon::SentView) -> LoopView {
        LoopView {
            pending: false,
            coord_online: true,
            since: Some(version),
            sent: report,
            ..self
        }
    }
}

/// Whether this is what becomes of the main loop by an answer, and what the answer calls for: one that
/// was taken in brings its version, and the state that it changed is to be applied; one that was refused
/// counts as none at all.
pub open spec fn settles(
    l: LoopView,
    refused: Option<CoordError>,
    version: u64,
    report: daemon::SentView,
    after: LoopView,
    n: Next,
) -> bool {
    match refused {
        Some(error) => {
            &&& after == l.after(Event::Failed { error })
            &&& calls_for(l, Event::Failed { error }, n)
        },
        None => {
            &&& after == l.told(version, report)
            &&& n == Next::Remesh(l.overlay())
        },
    }
}

/// Whether this is what an event calls for.
pub open spec fn calls_for(l: LoopView, e: Event, n: Next) -> bool {
    match (e, n) {
        (Event::Shutdown, Next::End(o)) => o == RunOutcome::Stopped,
        (Event::Restart { plan, service }, Next::End(o)) => o == if service {
            RunOutcome::RestartService
        } else if plan {
            RunOutcome::ReExec
        } else {
            RunOutcome::Stopped
        },
        (Event::Logout, Next::Leave) => true,
        (Event::Toggle, Next::Remesh(v)) => v == l.overlay(),
        (Event::Recheck { ice_changed, lan_changed }, Next::Apply) => ice_changed || lan_changed,
        (Event::Recheck { ice_changed, lan_changed }, Next::Nothing) => !ice_changed
            && !lan_changed,
        (Event::Failed { error: CoordError::Upgrade(u) }, Next::Wait { secs, refused: Some(t) }) =>
            secs == PROTO_MISMATCH_BACKOFF && t@ == u.0@,
        (Event::Failed { error }, Next::Wait { secs, refused: None }) => error !is Upgrade && secs
            == if l.refresh_secs < 1 {
            1
        } else {
            l.refresh_secs
        },
        _ => false,
    }
}

impl MeshLoop {
    /// The loop of a device that has just registered.
    pub fn new(version: u64, ice_enabled: bool, refresh_secs: u64) -> (r: MeshLoop)
        ensures
            r@.since == Some(version),
            !r@.pending,
            r@.coord_online,
            r@.ice_enabled == ice_enabled,
            r@.refresh_secs == refresh_secs,
            r@.sent == (daemon::SentView {
                observed: seq![],
                relay_need: seq![],
                relay_alloc: seq![],
                ice_offers: seq![],
            }),
    {
        MeshLoop {
            since: Some(version),
            pending: false,
            coord_online: true,
            sent: SentReport::new(),
            ice_enabled,
            refresh_secs,
        }
    }

    /// The paths that help with a stuck peer here.
    pub fn overlay(&self) -> (r: Overlay)
        ensures
            r == self@.overlay(),
    {
        if self.ice_enabled {
            Overlay::Ice
        } else {
            Overlay::Relay
        }
    }

    /// What to do about the request to the coordinator. One that is held is kept as long as there is
    /// no news, so that an idle device costs one request for each hold. With news, with the device's
    /// own attestation about to lapse, or with one of a peer's that only the coordinator can still
    /// renew, it is withdrawn, and one that is answered at once takes its place.
    pub fn poll(
        &mut self,
        report: &SentReport,
        grant_expires_at: Option<u64>,
        now: u64,
        hold_secs: u64,
        seeds: &Vec<SeedPeer>,
        held: &Vec<HeldPeer>,
    ) -> (r: Poll)
        requires
            now + hold_secs <= u64::MAX,
        ensures
            ({
                let news = old(self)@.has_news(
                    report@,
                    own_grant_stale(grant_expires_at, now, hold_secs),
                    seeds.len() as nat,
                    held.len() as nat,
                );
                &&& r == old(self)@.poll(news)
                &&& final(self)@ == (LoopView { pending: true, ..old(self)@ })
            }),
    {
        let grant_stale = match grant_expires_at {
            Some(e) => e <= now + hold_secs,
            None => false,
        };
        let forced_full = seeds.len() > 0 && held.len() == 0;
        let stale = self.sent.stale(
            &report.observed,
            &report.relay_need,
            &report.relay_alloc,
            &report.ice_offers,
        );
        assert(report@ == (daemon::SentView {
            observed: mesh::observation_views(report.observed@),
            relay_need: mesh::keys_of(report.relay_need@),
            relay_alloc: mesh::allocation_views(report.relay_alloc@),
            ice_offers: mesh::offer_views(report.ice_offers@),
        }));
        let news = stale || grant_stale || forced_full;
        let withdraw = news && self.pending;
        let issue = if news {
            Some(None)
        } else if self.pending {
            None
        } else {
            Some(self.since)
        };
        self.pending = true;
        Poll { withdraw, issue }
    }

    /// What it calls for that the coordinator did not answer, or that its answer is of no use.
    fn fail(&mut self, error: &CoordError) -> (n: Next)
        ensures
            calls_for(old(self)@, Event::Failed { error: *error }, n),
            final(self)@ == old(self)@.after(Event::Failed { error: *error }),
    {
        self.pending = false;
        self.coord_online = false;
        match error {
            CoordError::Upgrade(u) => Next::Wait {
                secs: PROTO_MISMATCH_BACKOFF,
                refused: Some(u.to_text()),
            },
            _ => Next::Wait {
                secs: if self.refresh_secs < 1 {
                    1
                } else {
                    self.refresh_secs
                },
                refused: None,
            },
        }
    }

    /// What the coordinator's answer calls for. It is taken in first: only when nothing of it is refused
    /// does the loop go on to its version, and does `report`, which the request carried, count as told.
    /// After one that is refused the loop asks again from where it was.
    pub fn answered(
        &mut self,
        members: &mut Membership,
        pins: &mut Assoc<u64, Vec<u8>>,
        resp: &RegisterResp,
        version: u64,
        report: SentReport,
    ) -> (r: (Taken, Next))
        requires
            old(pins).wf(),
        ensures
            final(pins).wf(),
            membership::takes_in(
                old(members)@,
                coord::file_views(old(pins)@),
                *resp,
                final(members)@,
                coord::file_views(final(pins)@),
                r.0,
            ),
            settles(old(self)@, r.0.refused, version, report@, final(self)@, r.1),
    {
        let taken = members.take_in(resp, pins);
        let next = match &taken.refused {
            Some(error) => self.fail(error),
            None => {
                self.pending = false;
                self.coord_online = true;
                self.since = Some(version);
                self.sent = report;
                Next::Remesh(self.overlay())
            },
        };
        (taken, next)
    }

    /// What an event calls for.
    pub fn handle(&mut self, e: Event) -> (n: Next)
        ensures
            calls_for(old(self)@, e, n),
            final(self)@ == old(self)@.after(e),
    {
        match e {
            Event::Shutdown => Next::End(RunOutcome::Stopped),
            Event::Restart { plan, service } => {
                if service {
                    Next::End(RunOutcome::RestartService)
                } else if plan {
                    Next::End(RunOutcome::ReExec)
                } else {
                    Next::End(RunOutcome::Stopped)
                }
            },
            Event::Logout => Next::Leave,
            Event::Toggle => {
                self.pending = false;
                Next::Remesh(self.overlay())
            },
            Event::Recheck { ice_changed, lan_changed } => {
                if ice_changed || lan_changed {
                    Next::Apply
                } else {
                    Next::Nothing
                }
            },
            Event::Failed { error } => self.fail(&error),
        }
    }
}

/// An idle device leaves its request with the coordinator: as long as there is no news, looking at
/// the tunnel again withdraws nothing and asks for nothing.
pub proof fn law_idle_device_keeps_its_request(
    l: LoopView,
    ice_changed: bool,
    lan_changed: bool,
    report: daemon::SentView,
)
    requires
        l.pending,
        l.sent == report,
    ensures
        !l.has_news(report, false, 0, 0),
        l.poll(false) == (Poll { withdraw: false, issue: None }),
        l.after(Event::Recheck { ice_changed, lan_changed }) == l,
{
}

/// News is told at once: the request that carries it is never one that the coordinator holds.
pub proof fn law_news_is_told_at_once(
    l: LoopView,
    report: daemon::SentView,
    grant_stale: bool,
    seeds: nat,
    held: nat,
)
    requires
        l.sent != report || grant_stale || (seeds > 0 && held == 0),
    ensures
        l.poll(l.has_news(report, grant_stale, seeds, held)).issue == Some(None::<u64>),
{
}

/// What was told is not told again: after the answer that took a report in, the same report is no
/// news.
pub proof fn law_told_once(l: LoopView, version: u64, report: daemon::SentView)
    ensures
        !l.told(version, report).has_news(report, false, 0, 0),
        l.told(version, report).poll(false).issue == Some(Some(version)),
{
}

/// A refused answer is asked for again: whatever anchor or grant of it is refused, the peers stay as
/// they were, the coordinator counts as offline, the loop waits, and it then asks from the same version
/// as before, with the same news to tell.
pub proof fn law_refused_answer_is_asked_for_again(
    m: membership::MembershipView,
    pins: Map<u64, Seq<u8>>,
    resp: RegisterResp,
    m_after: membership::MembershipView,
    pins_after: Map<u64, Seq<u8>>,
    t: Taken,
    l: LoopView,
    version: u64,
    report: daemon::SentView,
    l_after: LoopView,
    n: Next,
)
    requires
        membership::takes_in(m, pins, resp, m_after, pins_after, t),
        settles(l, t.refused, version, report, l_after, n),
        membership::refusal(
            resp,
            coord::pinned_by(pins, coord::anchor_views(resp.anchors@)),
        ) is Some,
    ensures
        m_after == m,
        !l_after.coord_online,
        n is Wait && n->refused is None && 1 <= n->secs && l.refresh_secs <= n->secs,
        l_after.poll(false) == (Poll { withdraw: false, issue: Some(l.since) }),
        forall|r: daemon::SentView, grant_stale: bool, seeds: nat, held: nat| #[trigger]
            l_after.has_news(r, grant_stale, seeds, held) == l.has_news(r, grant_stale, seeds, held),
{
}

/// Whatever an answer carries, the loop goes on to its version only together with the peers that it
/// brings: either both are taken in, or neither is.
pub proof fn law_version_moves_with_the_peers(
    m: membership::MembershipView,
    pins: Map<u64, Seq<u8>>,
    resp: RegisterResp,
    m_after: membership::MembershipView,
    pins_after: Map<u64, Seq<u8>>,
    t: Taken,
    l: LoopView,
    version: u64,
    report: daemon::SentView,
    l_after: LoopView,
    n: Next,
)
    requires
        membership::takes_in(m, pins, resp, m_after, pins_after, t),
        settles(l, t.refused, version, report, l_after, n),
    ensures
        ({
            let named = coord::anchor_views(resp.anchors@);
            ||| l_after == l.told(version, report) && m_after == membership::taken(
                m,
                resp,
                coord::pins_for(named, pins_after),
            )
            ||| l_after.since == l.since && l_after.sent == l.sent && m_after == m
        }),
{
}

/// A step of leaving the mesh.
#[derive(Clone, Copy, Debug, PartialEq, Eq, Structural)]
pub enum LeaveStep {
    /// Tell the coordinator, so that peers drop this device at once.
    Withdraw,
    /// Remove this device from the owner's devices at the coordinator.
    Unenroll,
    /// Remove the firewall's rules.
    ResetFirewall,
    /// Tell the firewall that there are no peers.
    ClearFirewallPeers,
    /// Give names back to the host's own resolver.
    RevertResolver,
    /// Take the mesh interface down.
    InterfaceDown,
    StopDns,
    StopP2p,
    /// Discard the key and the token.
    ClearEnrollment,
}

/// One step, if it applies.
pub open spec fn step_if(on: bool, s: LeaveStep) -> Seq<LeaveStep> {
    if on {
        seq![s]
    } else {
        seq![]
    }
}

/// How the program ends: presence first, then what the host keeps, then the interface, which may
/// hang, and last what ends with the program anyway.
pub open spec fn teardown_steps(firewall: bool, resolver: bool, dns: bool, p2p: bool) -> Seq<
    LeaveStep,
> {
    seq![LeaveStep::Withdraw] + step_if(firewall, LeaveStep::ResetFirewall) + step_if(
        resolver,
        LeaveStep::RevertResolver,
    ) + seq![LeaveStep::InterfaceDown] + step_if(dns, LeaveStep::StopDns) + step_if(
        p2p,
        LeaveStep::StopP2p,
    )
}

fn push_if(v: &mut Vec<LeaveStep>, on: bool, s: LeaveStep)
    ensures
        final(v)@ == old(v)@ + step_if(on, s),
{
    if on {
        v.push(s);
    }
    assert(v@ =~= old(v)@ + step_if(on, s));
}

/// How the program ends.
pub fn teardown(firewall: bool, resolver: bool, dns: bool, p2p: bool) -> (r: Vec<LeaveStep>)
    ensures
        r@ == teardown_steps(firewall, resolver, dns, p2p),
{
    let mut v: Vec<LeaveStep> = Vec::new();
    push_if(&mut v, true, LeaveStep::Withdraw);
    assert(v@ =~= seq![LeaveStep::Withdraw]);
    push_if(&mut v, firewall, LeaveStep::ResetFirewall);
    push_if(&mut v, resolver, LeaveStep::RevertResolver);
    push_if(&mut v, true, LeaveStep::InterfaceDown);
    push_if(&mut v, dns, LeaveStep::StopDns);
    push_if(&mut v, p2p, LeaveStep::StopP2p);
    v
}

/// How a logout leaves the mesh. The program goes on, with its firewall, and without a key.
pub open spec fn logout_steps(token: bool, firewall: bool, resolver: bool, dns: bool, p2p: bool) -> Seq<
    LeaveStep,
> {
    step_if(token, LeaveStep::Unenroll) + seq![LeaveStep::InterfaceDown] + step_if(
        firewall,
        LeaveStep::ClearFirewallPeers,
    ) + step_if(resolver, LeaveStep::RevertResolver) + step_if(dns, LeaveStep::StopDns) + step_if(
        p2p,
        LeaveStep::StopP2p,
    ) + seq![LeaveStep::ClearEnrollment]
}

/// How a logout leaves the mesh.
pub fn logout(token: bool, firewall: bool, resolver: bool, dns: bool, p2p: bool) -> (r: Vec<
    LeaveStep,
>)
    ensures
        r@ == logout_steps(token, firewall, resolver, dns, p2p),
{
    let mut v: Vec<LeaveStep> = Vec::new();
    push_if(&mut v, token, LeaveStep::Unenroll);
    assert(v@ =~= step_if(token, LeaveStep::Unenroll));
    push_if(&mut v, true, LeaveStep::InterfaceDown);
    push_if(&mut v, firewall, LeaveStep::ClearFirewallPeers);
    push_if(&mut v, resolver, LeaveStep::RevertResolver);
    push_if(&mut v, dns, LeaveStep::StopDns);
    push_if(&mut v, p2p, LeaveStep::StopP2p);
    push_if(&mut v, true, LeaveStep::ClearEnrollment);
    v
}

/// What outlives the program on the host is undone before the interface is touched, which may hang:
/// a program that is killed there strands nothing.
pub proof fn law_host_state_goes_first(
    firewall: bool,
    resolver: bool,
    dns: bool,
    p2p: bool,
    i: int,
    j: int,
)
    requires
        0 <= i < teardown_steps(firewall, resolver, dns, p2p).len(),
        0 <= j < teardown_steps(firewall, resolver, dns, p2p).len(),
        teardown_steps(firewall, resolver, dns, p2p)[i] == LeaveStep::ResetFirewall
            || teardown_steps(firewall, resolver, dns, p2p)[i] == LeaveStep::RevertResolver,
        teardown_steps(firewall, resolver, dns, p2p)[j] == LeaveStep::InterfaceDown,
    ensures
        i < j,
{
}

/// What is said to the coordinator on leaving: paused, so that it drops this device from every
/// network, and with no version, so that it answers at once.
pub fn withdrawal(
    wg_pubkey: PubKey,
    device_name: String,
    endpoint: Option<Endpoint>,
    enrollment_key: Option<String>,
    peer_own_devices: bool,
) -> (r: CoordReq)
    ensures
        r@ == (coord::StatementView {
            wg_pubkey: wg_pubkey@,
            device_name: device_name@,
            endpoint,
            enrollment_key: text::opt_text(enrollment_key),
            since: None,
            disabled_networks: seq![],
            observed: seq![],
            supersede: None,
            paused: true,
            peer_own_devices,
            relay: mesh::no_relay(),
            ice: seq![],
            held: seq![],
        }),
{
    let r = CoordReq {
        wg_pubkey,
        device_name,
        endpoint,
        enrollment_key,
        since: None,
        disabled_networks: Vec::new(),
        observed: Vec::new(),
        supersede: None,
        paused: true,
        peer_own_devices,
        relay: RelayReport::none(),
        ice: Vec::new(),
        held: Vec::new(),
    };
    assert(r@.disabled_networks =~= seq![]);
    assert(r@.observed =~= seq![]);
    assert(r@.ice =~= seq![]);
    assert(r@.held =~= seq![]);
    r
}

/// How an attempt to register came out.
pub enum Attempt {
    /// With a device that is in a network.
    Ready,
    /// With a device that is in none yet.
    NoNetworks,
    /// The coordinator refused this build's protocol.
    Refused(String),
    /// Otherwise, with what was said.
    Failed(String),
}

/// Whether this is how an attempt came out that ended in an error.
pub open spec fn fails_as(error: CoordError, a: Attempt) -> bool {
    match a {
        Attempt::Refused(why) => error is Upgrade && why@ == error.text(),
        Attempt::Failed(msg) => error !is Upgrade && msg@ == error.text(),
        _ => false,
    }
}

/// How an attempt came out that ended in an error.
pub fn failed_attempt(error: &CoordError) -> (a: Attempt)
    ensures
        fails_as(*error, a),
{
    match error {
        CoordError::Upgrade(u) => Attempt::Refused(u.to_text()),
        _ => Attempt::Failed(error.to_text()),
    }
}

/// How an attempt came out that was answered. The answer is taken in first: one that is refused is no
/// better than an error, and only one with a grant makes the device ready.
pub fn answered_attempt(
    members: &mut Membership,
    pins: &mut Assoc<u64, Vec<u8>>,
    resp: &RegisterResp,
) -> (r: (Taken, Attempt))
    requires
        old(pins).wf(),
    ensures
        final(pins).wf(),
        membership::takes_in(
            old(members)@,
            coord::file_views(old(pins)@),
            *resp,
            final(members)@,
            coord::file_views(final(pins)@),
            r.0,
        ),
        match r.0.refused {
            Some(error) => fails_as(error, r.1),
            None => r.1 == if resp.grant is Some {
                Attempt::Ready
            } else {
                Attempt::NoNetworks
            },
        },
{
    let taken = members.take_in(resp, pins);
    let attempt = match &taken.refused {
        Some(error) => failed_attempt(error),
        None => if resp.grant.is_some() {
            Attempt::Ready
        } else {
            Attempt::NoNetworks
        },
    };
    (taken, attempt)
}

/// What an attempt to register calls for.
pub struct Registering {
    /// Go on to the mesh.
    pub ready: bool,
    /// Whether a login is needed, when the attempt told.
    pub needs_login: Option<bool>,
    /// Why the build was refused, if it was.
    pub refused: Option<String>,
    /// How long to wait before the next attempt, in seconds.
    pub wait_secs: u64,
    /// Whether a login that completes meanwhile ends the wait.
    pub wakes_on_login: bool,
}

/// Whether what was said means that nobody is logged in.
pub open spec fn means_login(msg: Seq<char>) -> bool {
    text::has(msg, "not enrolled"@) || text::has(msg, "log in"@)
}

/// The wait between attempts.
pub open spec fn retry_secs(refresh_secs: u64) -> u64 {
    if refresh_secs < 2 {
        2
    } else {
        refresh_secs
    }
}

/// What an attempt to register calls for. A refused build waits long, for no retry helps. Anything
/// else is tried again soon, and at once when a login completes.
pub fn register_until_ready(a: Attempt, refresh_secs: u64) -> (r: Registering)
    ensures
        match a {
            Attempt::Ready => r.ready && r.needs_login == Some(false) && r.refused is None
                && r.wait_secs == 0 && !r.wakes_on_login,
            Attempt::NoNetworks => !r.ready && r.needs_login == Some(false) && r.refused is None
                && r.wait_secs == retry_secs(refresh_secs) && r.wakes_on_login,
            Attempt::Refused(why) => !r.ready && r.needs_login is None && text::opt_text(r.refused)
                == Some(why@) && r.wait_secs == PROTO_MISMATCH_BACKOFF && !r.wakes_on_login,
            Attempt::Failed(msg) => !r.ready && r.needs_login == Some(means_login(msg@))
                && r.refused is None && r.wait_secs == retry_secs(refresh_secs) && r.wakes_on_login,
        },
{
    let again: u64 = if refresh_secs < 2 {
        2
    } else {
        refresh_secs
    };
    match a {
        Attempt::Ready => Registering {
            ready: true,
            needs_login: Some(false),
            refused: None,
            wait_secs: 0,
            wakes_on_login: false,
        },
        Attempt::NoNetworks => Registering {
            ready: false,
            needs_login: Some(false),
            refused: None,
            wait_secs: again,
            wakes_on_login: true,
        },
        Attempt::Refused(why) => Registering {
            ready: false,
            needs_login: None,
            refused: Some(why),
            wait_secs: PROTO_MISMATCH_BACKOFF,
            wakes_on_login: false,
        },
        Attempt::Failed(msg) => Registering {
            ready: false,
            needs_login: Some(
                text::contains(msg.as_str(), "not enrolled") || text::contains(
                    msg.as_str(),
                    "log in",
                ),
            ),
            refused: None,
            wait_secs: again,
            wakes_on_login: true,
        },
    }
}

/// Where this device says it can be dialled: where it was configured to, or else where the router
/// mapped a port to it, if that is wanted and worked.
pub fn resolve_endpoint(configured: Option<Endpoint>, upnp: bool, mapped: Option<Endpoint>) -> (r:
    Option<Endpoint>)
    ensures
        r == if configured is Some {
            configured
        } else if upnp {
            mapped
        } else {
            None
        },
{
    match configured {
        Some(e) => Some(e),
        None => if upnp {
            mapped
        } else {
            None
        },
    }
}

/// Where a relay on this device is to listen and where it is reached, when there is to be one: the
/// owner wants it, and the device can be dialled.
pub fn relay_address(wanted: bool, endpoint: Option<Endpoint>, relay_port: u16) -> (r: Option<
    Endpoint,
>)
    ensures
        r == match (wanted, endpoint) {
            (true, Some(e)) => Some(Endpoint { ip: e.ip, port: relay_port }),
            _ => None,
        },
{
    match (wanted, endpoint) {
        (true, Some(e)) => Some(Endpoint { ip: e.ip, port: relay_port }),
        _ => None,
    }
}

/// What is told of a relay on this device: nothing unless it runs. `secret` is there when it does.
pub fn start_relay(addr: Option<Endpoint>, secret: Option<String>) -> (r: RelayReport)
    ensures
        r@ == if addr is Some && secret is Some {
            mesh::ReportView {
                capable: true,
                addr,
                secret: text::opt_text(secret),
                need_relay: seq![],
                allocated: seq![],
            }
        } else {
            mesh::no_relay()
        },
{
    match (addr, secret) {
        (Some(a), Some(s)) => {
            let r = RelayReport {
                capable: true,
                addr: Some(a),
                secret: Some(s),
                need_relay: Vec::new(),
                allocated: Vec::new(),
            };
            assert(r@.need_relay =~= seq![]);
            assert(r@.allocated =~= seq![]);
            r
        },
        _ => RelayReport::none(),
    }
}

/// Where the device's name service listens: on its own address in the mesh, when it is on.
pub fn dns_bind(on: bool, wg_ip: u32) -> (r: Option<Endpoint>)
    ensures
        r == if on {
            Some(Endpoint { ip: Ip::V4(wg_ip), port: DNS_PORT })
        } else {
            None
        },
{
    if on {
        Some(Endpoint { ip: Ip::V4(wg_ip), port: DNS_PORT })
    } else {
        None
    }
}

/// What the state calls for: whether the interface is up, and the peers to mesh with.
pub struct Applied {
    pub link_up: bool,
    pub active: Vec<SeedPeer>,
}

/// The networks that a device's roles grant.
pub open spec fn granted_ids(nets: Seq<mesh::NetworkView>) -> Seq<NetId> {
    nets.map_values(|n: mesh::NetworkView| (n.guild_id, n.role_id))
}

/// The local decisions once the device's networks were seen.
pub open spec fn noted(local: netcfg::LocalView, device: Option<mesh::DeviceView>) -> netcfg::LocalView {
    match device {
        Some(d) => netcfg::with_present(local, granted_ids(d.networks_status).to_set()),
        None => local,
    }
}

/// The peers to mesh with: none while disconnected, or before the device knows what it is.
pub open spec fn active_peers(
    local: netcfg::LocalView,
    device: Option<mesh::DeviceView>,
    seeds: Seq<mesh::SeedView>,
) -> Seq<mesh::SeedView> {
    match device {
        Some(d) => if local.paused {
            seq![]
        } else {
            peering::active_of(seeds, local.disabled, local.blocked.dom(), d.networks_status)
        },
        None => seq![],
    }
}

/// The model of a device that may be absent.
pub open spec fn opt_device(d: Option<SelfDevice>) -> Option<mesh::DeviceView> {
    match d {
        Some(x) => Some(x@),
        None => None,
    }
}

/// Records the networks that are new, so that one which is to start out disabled does not peer even
/// once, and says what the state calls for. The device stays as it is while it is disconnected; only
/// the link is down.
pub fn apply_state(local: &mut LocalNet, device: &Option<SelfDevice>, seeds: &Vec<SeedPeer>) -> (r:
    Applied)
    requires
        old(local).wf(),
    ensures
        final(local).wf(),
        final(local)@ == noted(old(local)@, opt_device(*device)),
        r.link_up == !old(local)@.paused,
        mesh::seed_views(r.active@) == active_peers(
            final(local)@,
            opt_device(*device),
            mesh::seed_views(seeds@),
        ),
{
    if let Some(d) = device {
        let ghost want = granted_ids(d@.networks_status);
        let mut present: Vec<NetId> = Vec::new();
        let mut i: usize = 0;
        while i < d.networks_status.len()
            invariant
                i <= d.networks_status.len(),
                want == granted_ids(mesh::network_status_views(d.networks_status@)),
                present@ == want.take(i as int),
            decreases d.networks_status.len() - i,
        {
            present.push((d.networks_status[i].guild_id, d.networks_status[i].role_id));
            assert(present@ =~= want.take(i + 1));
            i += 1;
        }
        assert(want.take(i as int) =~= want);
        local.reconcile_new(&present);
    }
    let paused = local.is_paused();
    let active = match device {
        Some(d) => if paused {
            Vec::new()
        } else {
            let blocked = local.blocked_snapshot();
            assert(blocked@.dom() =~= netcfg::text_map(blocked@).dom());
            filter_active(seeds, local.snapshot(), blocked, &d.networks_status)
        },
        None => Vec::new(),
    };
    assert(device is None || paused ==> mesh::seed_views(active@) =~= seq![]);
    Applied { link_up: !paused, active }
}

/// A disconnected device meshes with nobody, and its link is down.
pub proof fn law_disconnected_meshes_with_nobody(
    local: netcfg::LocalView,
    device: Option<mesh::DeviceView>,
    seeds: Seq<mesh::SeedView>,
)
    requires
        local.paused,
    ensures
        active_peers(noted(local, device), device, seeds) == Seq::<mesh::SeedView>::empty(),
{
}

/// What each event calls for. The owner's decisions rebuild the paths that help and apply the state;
/// changed paths apply it; a refused build waits five minutes and says why; any other failure waits for
/// as long as between two looks, and a second at least.
pub proof fn law_what_each_event_calls_for(
    l: LoopView,
    n: Next,
    plan: bool,
    service: bool,
    ice_changed: bool,
    lan_changed: bool,
    error: CoordError,
)
    ensures
        calls_for(l, Event::Shutdown, n) <==> n == Next::End(RunOutcome::Stopped),
        calls_for(l, Event::Restart { plan, service: true }, n) <==> n == Next::End(
            RunOutcome::RestartService,
        ),
        calls_for(l, Event::Restart { plan: true, service: false }, n) <==> n == Next::End(
            RunOutcome::ReExec,
        ),
        calls_for(l, Event::Restart { plan: false, service: false }, n) <==> n == Next::End(
            RunOutcome::Stopped,
        ),
        calls_for(l, Event::Logout, n) <==> n == Next::Leave,
        l.ice_enabled ==> (calls_for(l, Event::Toggle, n) <==> n == Next::Remesh(Overlay::Ice)),
        !l.ice_enabled ==> (calls_for(l, Event::Toggle, n) <==> n == Next::Remesh(Overlay::Relay)),
        ice_changed || lan_changed ==> (calls_for(l, Event::Recheck { ice_changed, lan_changed }, n)
            <==> n == Next::Apply),
        calls_for(l, Event::Recheck { ice_changed: false, lan_changed: false }, n) <==> n
            == Next::Nothing,
        error matches CoordError::Upgrade(u) ==> (calls_for(l, Event::Failed { error }, n) <==> {
            &&& n matches Next::Wait { secs, refused }
            &&& secs == 300
            &&& refused matches Some(t)
            &&& t@ == u.0@
        }),
        !(error is Upgrade) ==> (calls_for(l, Event::Failed { error }, n) <==> {
            &&& n matches Next::Wait { secs, refused }
            &&& refused is None
            &&& secs == if l.refresh_secs == 0 {
                1
            } else {
                l.refresh_secs
            }
        }),
{
}

/// What the loop keeps: a failure or a decision leaves no request behind, only a failure takes the
/// coordinator offline, and only an answer that was taken in brings it back, with a version and with
/// what was reported.
pub proof fn law_what_the_loop_keeps(l: LoopView, e: Event, version: u64, report: daemon::SentView)
    ensures
        ({
            let a = l.after(e);
            &&& a.pending == (l.pending && !(e is Toggle) && !(e is Failed))
            &&& a.coord_online == (l.coord_online && !(e is Failed))
            &&& a.since == l.since
            &&& a.sent == l.sent
            &&& a.ice_enabled == l.ice_enabled
            &&& a.refresh_secs == l.refresh_secs
        }),
        ({
            let a = l.told(version, report);
            &&& !a.pending
            &&& a.coord_online
            &&& a.since == Some(version)
            &&& a.sent == report
            &&& a.ice_enabled == l.ice_enabled
            &&& a.refresh_secs == l.refresh_secs
        }),
{
}

/// When there is news: what is to be reported differs from what was told, the device's own grant runs
/// out before a held request would come back, or it holds none of the peers that it was sent.
pub proof fn law_when_there_is_news(
    l: LoopView,
    report: daemon::SentView,
    expires_at: Option<u64>,
    now: u64,
    hold_secs: u64,
    seeds: nat,
    held: nat,
)
    ensures
        l.has_news(report, own_grant_stale(expires_at, now, hold_secs), seeds, held) <==> {
            ||| report != l.sent
            ||| expires_at is Some && expires_at->0 <= now + hold_secs
            ||| seeds > 0 && held == 0
        },
{
}

/// What is asked: with news, whatever is held is withdrawn and asked anew without a version; without,
/// a held request stays, and where none is held one is made from the last version.
pub proof fn law_what_is_asked(l: LoopView)
    ensures
        l.pending ==> l.poll(true) == (Poll { withdraw: true, issue: Some(None) }),
        !l.pending ==> l.poll(true) == (Poll { withdraw: false, issue: Some(None) }),
        l.pending ==> l.poll(false) == (Poll { withdraw: false, issue: None }),
        !l.pending ==> l.poll(false) == (Poll { withdraw: false, issue: Some(l.since) }),
{
}

/// What an answer comes to: taken in, it moves the loop on and rebuilds the mesh; refused, it is no
/// better than none.
pub proof fn law_what_an_answer_comes_to(
    l: LoopView,
    error: CoordError,
    version: u64,
    report: daemon::SentView,
    after: LoopView,
    n: Next,
)
    ensures
        settles(l, None, version, report, after, n) <==> {
            &&& after.since == Some(version)
            &&& after.sent == report
            &&& after.coord_online
            &&& !after.pending
            &&& after.ice_enabled == l.ice_enabled
            &&& after.refresh_secs == l.refresh_secs
            &&& n == Next::Remesh(
                if l.ice_enabled {
                    Overlay::Ice
                } else {
                    Overlay::Relay
                },
            )
        },
        settles(l, Some(error), version, report, after, n) ==> {
            &&& after.since == l.since
            &&& after.sent == l.sent
            &&& !after.coord_online
            &&& !after.pending
            &&& n is Wait
        },
{
    assert(l.told(version, report) =~= LoopView {
        since: Some(version),
        pending: false,
        coord_online: true,
        sent: report,
        ice_enabled: l.ice_enabled,
        refresh_secs: l.refresh_secs,
    });
}

/// How the program ends: it withdraws, undoes what it changed on the host, takes the interface down
/// and stops what it runs; each of these if and only if there is something to undo or to stop, and in
/// this order.
pub proof fn law_how_the_program_ends(firewall: bool, resolver: bool, dns: bool, p2p: bool)
    ensures
        ({
            let s = teardown_steps(firewall, resolver, dns, p2p);
            let f: int = if firewall {
                1
            } else {
                0
            };
            let r: int = if resolver {
                1
            } else {
                0
            };
            let d: int = if dns {
                1
            } else {
                0
            };
            let p: int = if p2p {
                1
            } else {
                0
            };
            &&& s.len() == 2 + f + r + d + p
            &&& s[0] == LeaveStep::Withdraw
            &&& firewall ==> s[1] == LeaveStep::ResetFirewall
            &&& resolver ==> s[1 + f] == LeaveStep::RevertResolver
            &&& s[1 + f + r] == LeaveStep::InterfaceDown
            &&& dns ==> s[2 + f + r] == LeaveStep::StopDns
            &&& p2p ==> s[2 + f + r + d] == LeaveStep::StopP2p
        }),
{
}

/// How a logout leaves the mesh: the coordinator forgets the device if it knows it, the interface goes
/// down, the firewall forgets its peers, names go back to the host, what runs is stopped, and last the
/// key and the token are discarded; each if and only if it applies, and in this order.
pub proof fn law_how_a_logout_leaves(
    token: bool,
    firewall: bool,
    resolver: bool,
    dns: bool,
    p2p: bool,
)
    ensures
        ({
            let s = logout_steps(token, firewall, resolver, dns, p2p);
            let t: int = if token {
                1
            } else {
                0
            };
            let f: int = if firewall {
                1
            } else {
                0
            };
            let r: int = if resolver {
                1
            } else {
                0
            };
            let d: int = if dns {
                1
            } else {
                0
            };
            let p: int = if p2p {
                1
            } else {
                0
            };
            &&& s.len() == 2 + t + f + r + d + p
            &&& token ==> s[0] == LeaveStep::Unenroll
            &&& s[t] == LeaveStep::InterfaceDown
            &&& firewall ==> s[1 + t] == LeaveStep::ClearFirewallPeers
            &&& resolver ==> s[1 + t + f] == LeaveStep::RevertResolver
            &&& dns ==> s[1 + t + f + r] == LeaveStep::StopDns
            &&& p2p ==> s[1 + t + f + r + d] == LeaveStep::StopP2p
            &&& s.last() == LeaveStep::ClearEnrollment
        }),
{
}

/// Where a peer was seen to send from is told of every peer of which it is known, and of no other, once
/// each.
pub proof fn law_every_sighting_is_told(
    s: Seq<mesh::ObservedView>,
    m: Map<Seq<u8>, PeerStats>,
    k: Seq<u8>,
    e: Endpoint,
)
    requires
        observes(s, m),
    ensures
        m.contains_key(k) && m[k].endpoint == Some(e) ==> s.contains(
            mesh::ObservedView { pubkey: k, endpoint: e },
        ),
        s.contains(mesh::ObservedView { pubkey: k, endpoint: e }) ==> m.contains_key(k)
            && m[k].endpoint == Some(e),
        s.no_duplicates(),
        forall|i: int, j: int|
            0 <= i < j < s.len() ==> (#[trigger] s[i]).pubkey != (#[trigger] s[j]).pubkey,
{
}

/// What a failed attempt comes to: a build that is refused is told so in the coordinator's words, and
/// anything else is shown as the error says it.
pub proof fn law_how_an_attempt_fails(error: CoordError, a: Attempt)
    ensures
        error matches CoordError::Upgrade(u) ==> (fails_as(error, a) <==> {
            &&& a matches Attempt::Refused(why)
            &&& why@ == u.0@
        }),
        error matches CoordError::Rejected(t) ==> (fails_as(error, a) <==> {
            &&& a matches Attempt::Failed(msg)
            &&& msg@ == t@
        }),
        error is NoGrant ==> (fails_as(error, a) <==> {
            &&& a matches Attempt::Failed(msg)
            &&& msg@
                == "verifying grant: no grant attestation verified against a pinned guild anchor"@
        }),
        error is Anchor && fails_as(error, a) ==> a is Failed,
{
}

/// A device is asked to log in when it is told that it is not enrolled or to log in, wherever in the
/// message that stands; between two attempts pass as many seconds as between two looks, and two at
/// least.
pub proof fn law_when_a_login_is_asked_for(before: Seq<char>, after: Seq<char>, refresh_secs: u64)
    ensures
        means_login(before + "not enrolled"@ + after),
        means_login(before + "log in"@ + after),
        retry_secs(refresh_secs) == if refresh_secs >= 2 {
            refresh_secs
        } else {
            2
        },
{
    let a = "not enrolled"@;
    let b = "log in"@;
    let n = before.len() as int;
    assert((before + a + after).subrange(n, n + a.len()) =~= a);
    assert((before + b + after).subrange(n, n + b.len()) =~= b);
}

/// What is no word of a login asks for none.
pub proof fn law_when_no_login_is_asked_for(msg: Seq<char>)
    requires
        forall|i: int, n: int|
            0 <= i <= n <= msg.len() ==> #[trigger] msg.subrange(i, n) != "not enrolled"@
                && msg.subrange(i, n) != "log in"@,
    ensures
        !means_login(msg),
{
}

/// The networks that a device's roles grant become known, and where new ones start out disabled, just
/// those that were not known are disabled. Nothing else that the owner decided changes, and nothing
/// does before the device knows what it is.
pub proof fn law_granted_networks_become_known(
    local: netcfg::LocalView,
    d: mesh::DeviceView,
    id: NetId,
)
    ensures
        ({
            let after = noted(local, Some(d));
            let granted = exists|i: int|
                0 <= i < d.networks_status.len() && (#[trigger] d.networks_status[i]).guild_id
                    == id.0 && d.networks_status[i].role_id == id.1;
            &&& after.known.contains(id) <==> local.known.contains(id) || granted
            &&& after.disabled.contains(id) <==> local.disabled.contains(id) || (local.disable_new
                && granted && !local.known.contains(id))
            &&& after.paused == local.paused
            &&& after.peer_own == local.peer_own
            &&& after.disable_new == local.disable_new
            &&& after.blocked == local.blocked
            &&& after.wake == local.wake
        }),
        noted(local, None) == local,
{
    let ids = granted_ids(d.networks_status);
    let granted = exists|i: int|
        0 <= i < d.networks_status.len() && (#[trigger] d.networks_status[i]).guild_id == id.0
            && d.networks_status[i].role_id == id.1;
    if granted {
        let i = choose|i: int|
            0 <= i < d.networks_status.len() && (#[trigger] d.networks_status[i]).guild_id == id.0
                && d.networks_status[i].role_id == id.1;
        assert(ids[i] == id);
    }
    if ids.contains(id) {
        let i = choose|i: int| 0 <= i < ids.len() && ids[i] == id;
        assert(d.networks_status[i].guild_id == id.0);
    }
}

/// A connected device meshes with every peer it was sent, as it was sent and in order, but those of a
/// blocked user and those with which every network that it shares is disabled.
pub proof fn law_whom_a_device_meshes_with(
    local: netcfg::LocalView,
    d: mesh::DeviceView,
    a: Seq<mesh::SeedView>,
    b: Seq<mesh::SeedView>,
    s: mesh::SeedView,
)
    requires
        !local.paused,
    ensures
        active_peers(local, Some(d), a + b) == active_peers(local, Some(d), a) + active_peers(
            local,
            Some(d),
            b,
        ),
        active_peers(local, Some(d), seq![s]) == if !local.blocked.contains_key(s.user_id) && (
        s.networks.len() == 0 || exists|i: int|
            0 <= i < s.networks.len() && !peering::is_disabled(
                #[trigger] s.networks[i],
                local.disabled,
                d.networks_status,
            )) {
            seq![s]
        } else {
            seq![]
        },
        active_peers(local, None, a).len() == 0,
{
    let blocked = local.blocked.dom();
    peering::law_each_peer_for_itself(a, b, s, local.disabled, blocked, d.networks_status);
    peering::law_any_enabled_network_is_enough(s, local.disabled, blocked, d.networks_status);
    let r = active_peers(local, Some(d), seq![s]);
    if r.len() == 0 {
        assert(r =~= seq![]);
        assert(!r.contains(s));
    } else {
        assert(r == seq![s]);
        assert(r[0] == s);
        assert(r.contains(s));
    }
}

} // verus!
