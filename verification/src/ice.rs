//! Negotiated paths: for a peer that cannot be punched towards, the two sides gather candidates for
//! a path, trade them through the coordinator, and try them.
//!
//! The agent that gathers and tries is the caller's, and so are its sockets. Here is what becomes of
//! a session with each event, and when a session is begun, kept, given up and begun again.
use crate::assoc::{self, Assoc, PubKey};
use crate::mesh::{self, IceEndpoint, IceParams, RelayInfo};
use crate::net::{Endpoint, Ip};
use crate::text;
use vstd::arithmetic::power2::*;
use vstd::prelude::*;
use vstd::string::*;

verus! {

/// How long a failed session is left alone at first, in seconds.
pub const RESTART_BACKOFF_MIN: u64 = 60;

/// How long it is left alone at most.
pub const RESTART_BACKOFF_MAX: u64 = 600;

/// How long a peer's offer is waited for, in seconds. This and the next are backstops: the sign that
/// a negotiation failed is that the agent says so. Candidates come in slowly, and one that will
/// succeed may take minutes.
pub const OFFER_WAIT: u64 = 300;

/// How long a negotiation may take, in seconds.
pub const NEGOTIATE_TIMEOUT: u64 = 300;

/// The wait after `n` failures in a row: doubled with each, up to a bound. A peer that cannot be
/// reached has often gone, and is not asked after without end.
pub open spec fn backoff_of(n: u32) -> int {
    let k = if n == 0 {
        0
    } else {
        (n - 1) as nat
    };
    let w = RESTART_BACKOFF_MIN * pow2(k);
    if w > RESTART_BACKOFF_MAX {
        RESTART_BACKOFF_MAX as int
    } else {
        w
    }
}

/// The wait after `n` failures in a row, in seconds.
pub fn backoff(n: u32) -> (r: u64)
    ensures
        r == backoff_of(n),
{
    proof {
        lemma2_to64();
        if n >= 5 {
            if n > 5 {
                lemma_pow2_strictly_increases(4, (n - 1) as nat);
            }
            assert(RESTART_BACKOFF_MIN * pow2((n - 1) as nat) > RESTART_BACKOFF_MAX)
                by (nonlinear_arith)
                requires
                    RESTART_BACKOFF_MIN == 60,
                    RESTART_BACKOFF_MAX == 600,
                    pow2((n - 1) as nat) >= 16,
            ;
        }
    }
    if n <= 1 {
        60
    } else if n == 2 {
        120
    } else if n == 3 {
        240
    } else if n == 4 {
        480
    } else {
        RESTART_BACKOFF_MAX
    }
}

/// The wait never shrinks as failures go on, and stays within its bounds, so that a stuck peer is
/// still tried again.
pub proof fn law_wait_grows_then_stays(n: u32, m: u32)
    requires
        n <= m,
    ensures
        backoff_of(n) <= backoff_of(m),
        RESTART_BACKOFF_MIN <= backoff_of(n) <= RESTART_BACKOFF_MAX,
{
    let a = if n == 0 {
        0
    } else {
        (n - 1) as nat
    };
    let b = if m == 0 {
        0
    } else {
        (m - 1) as nat
    };
    lemma_pow2_pos(a);
    if a < b {
        lemma_pow2_strictly_increases(a, b);
    }
}

/// What a server is for.
#[derive(Clone, Copy, Debug, PartialEq, Eq, Structural)]
pub enum IceScheme {
    /// To learn an address from.
    Stun,
    /// To be relayed by.
    Turn,
}

/// A server that candidates are gathered from.
pub struct IceUrl {
    pub scheme: IceScheme,
    pub host: Ip,
    pub port: u16,
    pub username: String,
    pub password: String,
}

/// The model of a server.
#[verifier::ext_equal]
pub struct IceUrlView {
    pub scheme: IceScheme,
    pub host: Ip,
    pub port: u16,
    pub username: Seq<char>,
    pub password: Seq<char>,
}

impl View for IceUrl {
    type V = IceUrlView;

    open spec fn view(&self) -> IceUrlView {
        IceUrlView {
            scheme: self.scheme,
            host: self.host,
            port: self.port,
            username: self.username@,
            password: self.password@,
        }
    }
}

/// The models of a list of servers.
pub open spec fn url_views(s: Seq<IceUrl>) -> Seq<IceUrlView> {
    s.map_values(|u: IceUrl| u@)
}

/// The server that an address stands for.
pub open spec fn stun_url(e: Endpoint) -> IceUrlView {
    IceUrlView {
        scheme: IceScheme::Stun,
        host: e.ip,
        port: e.port,
        username: seq![],
        password: seq![],
    }
}

/// The server that a reservation stands for.
pub open spec fn turn_url(t: mesh::RelayView) -> IceUrlView {
    IceUrlView {
        scheme: IceScheme::Turn,
        host: t.turn_addr.ip,
        port: t.turn_addr.port,
        username: t.username,
        password: t.credential,
    }
}

/// The servers to gather from: those for addresses as they are preferred, and then the relay.
pub open spec fn urls_of(stun: Seq<Endpoint>, turn: Option<mesh::RelayView>) -> Seq<IceUrlView> {
    let s = stun.map_values(|e: Endpoint| stun_url(e));
    match turn {
        Some(t) => s.push(turn_url(t)),
        None => s,
    }
}

/// The servers to gather from.
pub fn build_urls(stun: &Vec<Endpoint>, turn: &Option<RelayInfo>) -> (r: Vec<IceUrl>)
    ensures
        url_views(r@) == urls_of(stun@, mesh::opt_relay_info(*turn)),
{
    let ghost want = stun@.map_values(|e: Endpoint| stun_url(e));
    let mut out: Vec<IceUrl> = Vec::new();
    let mut i: usize = 0;
    assert(url_views(out@) =~= want.take(0));
    while i < stun.len()
        invariant
            i <= stun.len(),
            want == stun@.map_values(|e: Endpoint| stun_url(e)),
            url_views(out@) == want.take(i as int),
        decreases stun.len() - i,
    {
        let u = IceUrl {
            scheme: IceScheme::Stun,
            host: stun[i].ip,
            port: stun[i].port,
            username: String::new(),
            password: String::new(),
        };
        let ghost uv = u@;
        assert(uv =~= want[i as int]);
        let ghost before = url_views(out@);
        out.push(u);
        assert(url_views(out@) =~= before.push(uv));
        assert(want.take(i + 1) =~= want.take(i as int).push(want[i as int]));
        i += 1;
    }
    assert(want.take(i as int) =~= want);
    if let Some(t) = turn {
        let u = IceUrl {
            scheme: IceScheme::Turn,
            host: t.turn_addr.ip,
            port: t.turn_addr.port,
            username: t.username.clone(),
            password: t.credential.clone(),
        };
        let ghost uv = u@;
        assert(uv =~= turn_url(t@));
        out.push(u);
        assert(url_views(out@) =~= want.push(uv));
    }
    out
}

/// What has become of a negotiation.
#[derive(Clone, Copy, Debug, PartialEq, Eq, Structural)]
pub enum IceState {
    /// No path was found yet.
    Negotiating,
    /// A path was found: traffic to this local address takes it.
    Connected(Endpoint),
    /// No path will be found.
    Failed,
}

/// How far a session has come.
#[derive(Clone, Copy, Debug, PartialEq, Eq, Structural)]
pub enum Stage {
    /// It waits for the peer's offer.
    Waiting,
    /// The agent tries the candidates.
    Trying,
    /// A path was found, and the local address is being set up.
    Binding,
    /// Traffic is passed on.
    Passing,
    /// It is over.
    Ended,
}

/// A session with a peer.
pub struct IceSession {
    /// This side's credentials, for as long as the session lasts.
    pub ufrag: String,
    pub pwd: String,
    /// Whether this side leads.
    pub controlling: bool,
    /// The candidates that this side gathered so far.
    pub local_candidates: Vec<String>,
    /// The peer's candidates that the agent was given.
    pub added: Vec<String>,
    pub state: IceState,
    pub stage: Stage,
}

/// The model of a session.
#[verifier::ext_equal]
pub struct SessionView {
    pub ufrag: Seq<char>,
    pub pwd: Seq<char>,
    pub controlling: bool,
    pub local_candidates: Seq<Seq<char>>,
    pub added: Seq<Seq<char>>,
    pub state: IceState,
    pub stage: Stage,
}

impl View for IceSession {
    type V = SessionView;

    open spec fn view(&self) -> SessionView {
        SessionView {
            ufrag: self.ufrag@,
            pwd: self.pwd@,
            controlling: self.controlling,
            local_candidates: text::texts(self.local_candidates@),
            added: text::texts(self.added@),
            state: self.state,
            stage: self.stage,
        }
    }
}

/// What happens to a session.
pub enum IceEvent {
    /// The agent found no path, or lost the one it had.
    AgentFailed,
    /// The agent gathered a candidate.
    Gathered(String),
    /// The peer's offer, as it stands.
    Remote(Option<IceParams>),
    /// The peer made no offer in time, or none can come any more.
    NoOffer,
    /// A path was found.
    Negotiated,
    /// None was, or not in time.
    NotNegotiated,
    /// The local address was set up.
    Bound(Endpoint),
    /// It could not be.
    NotBound,
}

/// What the caller has to do.
pub enum IceAct {
    Nothing,
    /// Have the agent try the candidates: as the side that leads, or as the other.
    Connect { ufrag: String, pwd: String, dial: bool },
    /// Set up a local address.
    Bind,
    /// Pass traffic on.
    Pass,
    /// Make the agent give up.
    Cancel,
}

/// The candidates of a list that were not given yet, each once.
pub open spec fn fresh_of(list: Seq<Seq<char>>, added: Seq<Seq<char>>) -> Seq<Seq<char>>
    decreases list.len(),
{
    if list.len() == 0 {
        seq![]
    } else {
        let before = fresh_of(list.drop_last(), added);
        let c = list.last();
        if added.contains(c) || before.contains(c) {
            before
        } else {
            before.push(c)
        }
    }
}

/// The candidates of an offer.
pub open spec fn offered(p: Option<mesh::IceView>) -> Seq<Seq<char>> {
    match p {
        Some(x) => x.candidates,
        None => seq![],
    }
}

/// Whether an offer carries credentials.
pub open spec fn has_creds(p: Option<mesh::IceView>) -> bool {
    match p {
        Some(x) => x.ufrag.len() > 0,
        None => false,
    }
}

impl SessionView {
    /// The session once it failed.
    pub open spec fn failed(self) -> SessionView {
        SessionView { state: IceState::Failed, stage: Stage::Ended, ..self }
    }

    /// The candidates that an event brings the agent.
    pub open spec fn brings(self, e: IceEvent) -> Seq<Seq<char>> {
        match e {
            IceEvent::Remote(p) => fresh_of(offered(mesh::opt_ice_params(p)), self.added),
            _ => seq![],
        }
    }

    /// The session after an event.
    pub open spec fn after(self, e: IceEvent) -> SessionView {
        match e {
            IceEvent::AgentFailed => SessionView { state: IceState::Failed, ..self },
            IceEvent::Gathered(c) => SessionView {
                local_candidates: self.local_candidates.push(c@),
                ..self
            },
            IceEvent::Remote(p) => SessionView {
                added: self.added + self.brings(e),
                stage: if self.stage == Stage::Waiting && has_creds(mesh::opt_ice_params(p)) {
                    Stage::Trying
                } else {
                    self.stage
                },
                ..self
            },
            IceEvent::NoOffer => if self.stage == Stage::Waiting {
                self.failed()
            } else {
                self
            },
            IceEvent::Negotiated => if self.stage == Stage::Trying {
                SessionView { stage: Stage::Binding, ..self }
            } else {
                self
            },
            IceEvent::NotNegotiated => if self.stage == Stage::Trying {
                self.failed()
            } else {
                self
            },
            IceEvent::Bound(a) => if self.stage != Stage::Binding {
                self
            } else if self.state == IceState::Failed {
                SessionView { stage: Stage::Ended, ..self }
            } else {
                SessionView { state: IceState::Connected(a), stage: Stage::Passing, ..self }
            },
            IceEvent::NotBound => if self.stage == Stage::Binding {
                self.failed()
            } else {
                self
            },
        }
    }

    /// Whether this is what the caller has to do.
    pub open spec fn asks(self, e: IceEvent, a: IceAct) -> bool {
        match e {
            IceEvent::AgentFailed => a is Cancel,
            IceEvent::Remote(p) => match mesh::opt_ice_params(p) {
                Some(x) => if self.stage == Stage::Waiting && x.ufrag.len() > 0 {
                    a matches IceAct::Connect { ufrag, pwd, dial } && ufrag@ == x.ufrag && pwd@
                        == x.pwd && dial == self.controlling
                } else {
                    a is Nothing
                },
                None => a is Nothing,
            },
            IceEvent::Negotiated => if self.stage == Stage::Trying {
                a is Bind
            } else {
                a is Nothing
            },
            IceEvent::Bound(_) => if self.stage == Stage::Binding && self.state
                != IceState::Failed {
                a is Pass
            } else {
                a is Nothing
            },
            _ => a is Nothing,
        }
    }
}

fn fresh_candidates(list: &Vec<String>, added: &Vec<String>) -> (r: Vec<String>)
    ensures
        text::texts(r@) == fresh_of(text::texts(list@), text::texts(added@)),
{
    let ghost all = text::texts(list@);
    let ghost known = text::texts(added@);
    let mut out: Vec<String> = Vec::new();
    let mut i: usize = 0;
    assert(text::texts(out@) =~= fresh_of(all.take(0), known));
    while i < list.len()
        invariant
            i <= list.len(),
            all == text::texts(list@),
            known == text::texts(added@),
            text::texts(out@) == fresh_of(all.take(i as int), known),
        decreases list.len() - i,
    {
        assert(all.take(i + 1).drop_last() =~= all.take(i as int));
        assert(all[i as int] == list@[i as int]@);
        let c = &list[i];
        if !text::list_has(added, c.as_str()) && !text::list_has(&out, c.as_str()) {
            text::push_text(&mut out, c.clone());
        }
        i += 1;
    }
    assert(all.take(i as int) =~= all);
    out
}

impl IceSession {
    /// A session that has just begun, under these credentials.
    pub fn new(ufrag: String, pwd: String, controlling: bool) -> (r: IceSession)
        ensures
            r@ == (SessionView {
                ufrag: ufrag@,
                pwd: pwd@,
                controlling,
                local_candidates: seq![],
                added: seq![],
                state: IceState::Negotiating,
                stage: Stage::Waiting,
            }),
    {
        let r = IceSession {
            ufrag,
            pwd,
            controlling,
            local_candidates: Vec::new(),
            added: Vec::new(),
            state: IceState::Negotiating,
            stage: Stage::Waiting,
        };
        assert(r@.local_candidates =~= seq![]);
        assert(r@.added =~= seq![]);
        r
    }

    /// Whether the session is over, and is to be replaced.
    pub fn is_failed(&self) -> (r: bool)
        ensures
            r == (self@.state == IceState::Failed),
    {
        self.state == IceState::Failed
    }

    /// Takes an event in: the candidates to give the agent, and what to do besides.
    pub fn handle(&mut self, e: IceEvent) -> (r: (Vec<String>, IceAct))
        ensures
            final(self)@ == old(self)@.after(e),
            text::texts(r.0@) == old(self)@.brings(e),
            old(self)@.asks(e, r.1),
    {
        let ghost was = self@;
        let none: Vec<String> = Vec::new();
        assert(text::texts(none@) =~= seq![]);
        match e {
            IceEvent::AgentFailed => {
                self.state = IceState::Failed;
                (none, IceAct::Cancel)
            },
            IceEvent::Gathered(c) => {
                text::push_text(&mut self.local_candidates, c);
                (none, IceAct::Nothing)
            },
            IceEvent::Remote(None) => {
                assert(was.brings(e) =~= seq![]);
                assert(was.added + seq![] =~= was.added);
                (none, IceAct::Nothing)
            },
            IceEvent::Remote(Some(p)) => {
                let fresh = fresh_candidates(&p.candidates, &self.added);
                let ghost known = text::texts(self.added@);
                let ghost more = text::texts(fresh@);
                let mut i: usize = 0;
                assert(known =~= known + more.take(0));
                while i < fresh.len()
                    invariant
                        i <= fresh.len(),
                        more == text::texts(fresh@),
                        self@ == (SessionView { added: text::texts(self.added@), ..was }),
                        text::texts(self.added@) == known + more.take(i as int),
                    decreases fresh.len() - i,
                {
                    text::push_text(&mut self.added, fresh[i].clone());
                    assert(text::texts(self.added@) =~= known + more.take(i + 1));
                    i += 1;
                }
                assert(more.take(i as int) =~= more);
                if self.stage == Stage::Waiting && text::chars_of(p.ufrag.as_str()).len() > 0 {
                    self.stage = Stage::Trying;
                    (
                        fresh,
                        IceAct::Connect { ufrag: p.ufrag, pwd: p.pwd, dial: self.controlling },
                    )
                } else {
                    (fresh, IceAct::Nothing)
                }
            },
            IceEvent::NoOffer => {
                if self.stage == Stage::Waiting {
                    self.state = IceState::Failed;
                    self.stage = Stage::Ended;
                }
                (none, IceAct::Nothing)
            },
            IceEvent::Negotiated => {
                if self.stage == Stage::Trying {
                    self.stage = Stage::Binding;
                    (none, IceAct::Bind)
                } else {
                    (none, IceAct::Nothing)
                }
            },
            IceEvent::NotNegotiated => {
                if self.stage == Stage::Trying {
                    self.state = IceState::Failed;
                    self.stage = Stage::Ended;
                }
                (none, IceAct::Nothing)
            },
            IceEvent::Bound(a) => {
                if self.stage != Stage::Binding {
                    (none, IceAct::Nothing)
                } else if self.state == IceState::Failed {
                    self.stage = Stage::Ended;
                    (none, IceAct::Nothing)
                } else {
                    self.state = IceState::Connected(a);
                    self.stage = Stage::Passing;
                    (none, IceAct::Pass)
                }
            },
            IceEvent::NotBound => {
                if self.stage == Stage::Binding {
                    self.state = IceState::Failed;
                    self.stage = Stage::Ended;
                }
                (none, IceAct::Nothing)
            },
        }
    }
}

/// A session that failed stays failed, whatever comes: a path that is found a moment too late does
/// not bring it back.
pub proof fn law_failure_is_final(s: SessionView, e: IceEvent)
    requires
        s.state == IceState::Failed,
    ensures
        s.after(e).state == IceState::Failed,
{
}

/// A session is connected only once its local address is set up.
pub proof fn law_connected_means_bound(s: SessionView, e: IceEvent, a: Endpoint)
    requires
        s.state == IceState::Negotiating,
        s.after(e).state == IceState::Connected(a),
    ensures
        e == IceEvent::Bound(a),
        s.stage == Stage::Binding,
{
}

proof fn lemma_fresh(list: Seq<Seq<char>>, added: Seq<Seq<char>>)
    ensures
        fresh_of(list, added).no_duplicates(),
        forall|c: Seq<char>| #[trigger] fresh_of(list, added).contains(c) ==> !added.contains(c),
        forall|c: Seq<char>| #[trigger]
            list.contains(c) ==> added.contains(c) || fresh_of(list, added).contains(c),
    decreases list.len(),
{
    if list.len() > 0 {
        let t = list.drop_last();
        let before = fresh_of(t, added);
        let all = fresh_of(list, added);
        lemma_fresh(t, added);
        assert forall|c: Seq<char>| #[trigger] all.contains(c) implies !added.contains(c) by {
            let k = choose|k: int| 0 <= k < all.len() && all[k] == c;
            if k < before.len() {
                assert(before[k] == c);
                assert(before.contains(c));
            }
        }
        assert forall|c: Seq<char>| #[trigger] list.contains(c) implies added.contains(c)
            || all.contains(c) by {
            let k = choose|k: int| 0 <= k < list.len() && list[k] == c;
            if k < t.len() {
                assert(t[k] == c);
                assert(t.contains(c));
                if before.contains(c) {
                    let j = choose|j: int| 0 <= j < before.len() && before[j] == c;
                    assert(all[j] == c);
                }
            } else if !added.contains(c) {
                if before.contains(c) {
                    let j = choose|j: int| 0 <= j < before.len() && before[j] == c;
                    assert(all[j] == c);
                } else {
                    assert(all[all.len() - 1] == c);
                }
            }
        }
    }
}

/// The agent is given each of the peer's candidates, and none twice.
pub proof fn law_candidates_are_given_once(s: SessionView, p: Option<IceParams>, c: Seq<char>)
    requires
        offered(mesh::opt_ice_params(p)).contains(c),
    ensures
        s.added.contains(c) != s.brings(IceEvent::Remote(p)).contains(c),
        s.brings(IceEvent::Remote(p)).no_duplicates(),
        s.after(IceEvent::Remote(p)).added.contains(c),
{
    let list = offered(mesh::opt_ice_params(p));
    lemma_fresh(list, s.added);
    let more = s.brings(IceEvent::Remote(p));
    let all = s.after(IceEvent::Remote(p)).added;
    if s.added.contains(c) {
        let k = choose|k: int| 0 <= k < s.added.len() && s.added[k] == c;
        assert(all[k] == c);
    } else {
        let k = choose|k: int| 0 <= k < more.len() && more[k] == c;
        assert(all[s.added.len() + k] == c);
    }
}

/// The sessions, one for each peer that is negotiated with.
pub struct IceManager {
    pub sessions: Assoc<PubKey, IceSession>,
    /// The failures in a row of each peer, and when the last one was, in milliseconds. They outlive
    /// the session, and are forgotten once it succeeds.
    pub failures: Assoc<PubKey, (u32, u64)>,
}

/// What is to be done about a peer.
#[derive(Clone, Copy, Debug, PartialEq, Eq, Structural)]
pub enum Ensure {
    /// To leave it alone for now.
    Hold,
    /// To begin a session.
    Start,
    /// To go on with the session that there is.
    Feed,
}

/// The failures of a peer with one more.
pub open spec fn counted(f: Map<Seq<u8>, (u32, u64)>, k: Seq<u8>, now: u64) -> (u32, u64) {
    let n = if f.contains_key(k) {
        f[k].0
    } else {
        0
    };
    (
        if n < u32::MAX {
            (n + 1) as u32
        } else {
            u32::MAX
        },
        now,
    )
}

/// Whether a peer's wait is over.
pub open spec fn waited(f: Map<Seq<u8>, (u32, u64)>, k: Seq<u8>, now: u64) -> bool {
    f.contains_key(k) ==> now - f[k].1 >= backoff_of(f[k].0) * 1000
}

impl IceManager {
    /// The maps are well formed.
    pub open spec fn wf(&self) -> bool {
        self.sessions.wf() && self.failures.wf()
    }

    /// Whether a peer has a session that failed.
    pub open spec fn has_failed(&self, k: Seq<u8>) -> bool {
        self.sessions@.contains_key(k) && self.sessions@[k]@.state == IceState::Failed
    }

    /// The failures once a peer was looked at.
    pub open spec fn failures_after(&self, k: Seq<u8>, now: u64) -> Map<Seq<u8>, (u32, u64)> {
        if self.has_failed(k) {
            self.failures@.insert(k, counted(self.failures@, k, now))
        } else {
            self.failures@
        }
    }

    /// No sessions.
    pub fn new() -> (r: IceManager)
        ensures
            r.wf(),
            r.sessions@ == Map::<Seq<u8>, IceSession>::empty(),
            r.failures@ == Map::<Seq<u8>, (u32, u64)>::empty(),
    {
        IceManager { sessions: Assoc::new(), failures: Assoc::new() }
    }

    /// What is to be done about a peer that a path is wanted to. A session that failed is dropped and
    /// counted; another is begun once the wait is over, with new credentials.
    pub fn ensure(&mut self, peer: PubKey, now: u64) -> (r: Ensure)
        requires
            old(self).wf(),
        ensures
            final(self).wf(),
            final(self).failures@ == old(self).failures_after(peer@, now),
            final(self).sessions@ == if old(self).has_failed(peer@) {
                old(self).sessions@.remove(peer@)
            } else {
                old(self).sessions@
            },
            r == if final(self).sessions@.contains_key(peer@) {
                Ensure::Feed
            } else if waited(final(self).failures@, peer@, now) {
                Ensure::Start
            } else {
                Ensure::Hold
            },
    {
        let dead = match self.sessions.get(&peer) {
            Some(s) => s.is_failed(),
            None => false,
        };
        if dead {
            self.sessions.remove(&peer);
            let n: u32 = match self.failures.get(&peer) {
                Some(f) => f.0,
                None => 0,
            };
            let more: u32 = if n < u32::MAX {
                n + 1
            } else {
                u32::MAX
            };
            self.failures.insert(peer, (more, now));
        }
        if self.sessions.contains(&peer) {
            return Ensure::Feed;
        }
        match self.failures.get(&peer) {
            Some(f) => {
                let (n, at) = *f;
                let wait: u64 = backoff(n) * 1000;
                if now < at || now - at < wait {
                    Ensure::Hold
                } else {
                    Ensure::Start
                }
            },
            None => Ensure::Start,
        }
    }

    /// Takes up a session that was begun.
    pub fn started(&mut self, peer: PubKey, session: IceSession)
        requires
            old(self).wf(),
        ensures
            final(self).wf(),
            final(self).sessions@ == old(self).sessions@.insert(peer@, session),
            final(self).failures@ == old(self).failures@,
    {
        self.sessions.insert(peer, session);
    }

    /// Gives a peer's session the peer's offer. Besides what the session asks for, this is where its
    /// traffic goes, once there is a path; the failures are then forgotten.
    pub fn feed(&mut self, peer: PubKey, remote: Option<IceParams>) -> (r: Option<
        (Option<Endpoint>, Vec<String>, IceAct),
    >)
        requires
            old(self).wf(),
        ensures
            final(self).wf(),
            match r {
                None => !old(self).sessions@.contains_key(peer@) && final(self).sessions@ == old(self).sessions@ && final(self).failures@ == old(self).failures@,
                Some((shim, add, act)) => {
                    let was = old(self).sessions@[peer@]@;
                    let e = IceEvent::Remote(remote);
                    &&& old(self).sessions@.contains_key(peer@)
                    &&& final(self).sessions@.dom() == old(self).sessions@.dom()
                    &&& final(self).sessions@[peer@]@ == was.after(e)
                    &&& forall|k: Seq<u8>|
                        k != peer@ && old(self).sessions@.contains_key(k) ==> #[trigger] final(self).sessions@[k] == old(self).sessions@[k]
                    &&& text::texts(add@) == was.brings(e)
                    &&& was.asks(e, act)
                    &&& shim == match was.state {
                        IceState::Connected(a) => Some(a),
                        _ => None,
                    }
                    &&& final(self).failures@ == if shim is Some {
                        old(self).failures@.remove(peer@)
                    } else {
                        old(self).failures@
                    }
                },
            },
    {
        let ghost was = self.sessions@;
        match self.sessions.find(&peer) {
            None => None,
            Some(i) => {
                let s = self.sessions.at(i);
                let shim = match s.state {
                    IceState::Connected(a) => Some(a),
                    _ => None,
                };
                let (add, act) = s.handle(IceEvent::Remote(remote));
                assert(self.sessions@.dom() =~= was.dom());
                if shim.is_some() {
                    self.failures.remove(&peer);
                }
                Some((shim, add, act))
            },
        }
    }

    /// Drops the sessions with every other peer than these, and forgets their failures.
    pub fn retain(&mut self, keep: &Vec<PubKey>)
        requires
            old(self).wf(),
        ensures
            final(self).wf(),
            final(self).sessions@ == assoc::retained(
                old(self).sessions@,
                |k: Seq<u8>, v: IceSession| mesh::keys_of(keep@).contains(k),
            ),
            final(self).failures@ == assoc::retained(
                old(self).failures@,
                |k: Seq<u8>, v: (u32, u64)| mesh::keys_of(keep@).contains(k),
            ),
    {
        let ghost ks = mesh::keys_of(keep@);
        let ghost p = |k: Seq<u8>, v: IceSession| ks.contains(k);
        let ghost q = |k: Seq<u8>, v: (u32, u64)| ks.contains(k);
        self.sessions.retain(
            |k: &PubKey, v: &IceSession| -> (b: bool) ensures (b == ks.contains(k@)) { mesh::has_key(keep, k) },
            Ghost(p),
        );
        self.failures.retain(
            |k: &PubKey, v: &(u32, u64)| -> (b: bool) ensures (b == ks.contains(k@)) { mesh::has_key(keep, k) },
            Ghost(q),
        );
        assert(p =~= (|k: Seq<u8>, v: IceSession| mesh::keys_of(keep@).contains(k)));
        assert(q =~= (|k: Seq<u8>, v: (u32, u64)| mesh::keys_of(keep@).contains(k)));
    }

    /// Whether there is a session with a peer.
    pub fn has_session(&self, peer: &PubKey) -> (r: bool)
        requires
            self.wf(),
        ensures
            r == self.sessions@.contains_key(peer@),
    {
        self.sessions.contains(peer)
    }

    /// Whether there is a path to a peer.
    pub fn is_connected(&self, peer: &PubKey) -> (r: bool)
        requires
            self.wf(),
        ensures
            r == (self.sessions@.contains_key(peer@)
                && self.sessions@[peer@]@.state is Connected),
    {
        match self.sessions.get(peer) {
            Some(s) => match s.state {
                IceState::Connected(_) => true,
                _ => false,
            },
            None => false,
        }
    }

    /// This side's offers, one for each session. Candidates are added as they are gathered, so that
    /// later offers say more.
    pub fn offers(&self) -> (r: Vec<IceEndpoint>)
        requires
            self.wf(),
        ensures
            mesh::offer_views(r@) == offers_of(self.sessions.entries@),
    {
        let ghost es = self.sessions.entries@;
        let ghost want = offers_of(es);
        let mut out: Vec<IceEndpoint> = Vec::new();
        let mut i: usize = 0;
        assert(mesh::offer_views(out@) =~= want.take(0));
        while i < self.sessions.entries.len()
            invariant
                i <= self.sessions.entries.len(),
                es == self.sessions.entries@,
                want == offers_of(es),
                mesh::offer_views(out@) == want.take(i as int),
            decreases self.sessions.entries.len() - i,
        {
            let s = &self.sessions.entries[i].1;
            let o = IceEndpoint {
                peer: self.sessions.entries[i].0,
                params: IceParams {
                    ufrag: s.ufrag.clone(),
                    pwd: s.pwd.clone(),
                    candidates: text::copy_list(&s.local_candidates),
                },
            };
            let ghost ov = o@;
            assert(ov =~= want[i as int]);
            let ghost before = mesh::offer_views(out@);
            out.push(o);
            assert(mesh::offer_views(out@) =~= before.push(ov));
            assert(want.take(i + 1) =~= want.take(i as int).push(want[i as int]));
            i += 1;
        }
        assert(want.take(i as int) =~= want);
        out
    }
}

/// The offer that a session makes.
pub open spec fn offer_of(k: Seq<u8>, s: SessionView) -> mesh::OfferView {
    mesh::OfferView {
        peer: k,
        params: mesh::IceView {
            ufrag: s.ufrag,
            pwd: s.pwd,
            candidates: s.local_candidates,
        },
    }
}

/// The offers that sessions make.
pub open spec fn offers_of(es: Seq<(PubKey, IceSession)>) -> Seq<mesh::OfferView> {
    es.map_values(|e: (PubKey, IceSession)| offer_of(e.0@, e.1@))
}

/// A failed peer is left alone for a minute, and after each further failure for twice as long, up to ten
/// minutes.
pub proof fn law_wait_doubles_to_ten_minutes(n: u32)
    ensures
        backoff_of(0) == 60,
        backoff_of(1) == 60,
        0 < n < u32::MAX ==> backoff_of((n + 1) as u32) == if 2 * backoff_of(n) < 600 {
            2 * backoff_of(n)
        } else {
            600
        },
{
    lemma2_to64();
    if 0 < n < u32::MAX {
        lemma_pow2_unfold(n as nat);
        lemma_pow2_pos((n - 1) as nat);
    }
}

/// A session goes from waiting for an offer to trying it, from there to setting up its address, and from
/// there to passing traffic; each step is taken on its own event, and only in its turn.
pub proof fn law_a_session_goes_step_by_step(s: SessionView, x: IceParams, a: Endpoint)
    requires
        s.state == IceState::Negotiating,
    ensures
        s.stage == Stage::Waiting && x@.ufrag.len() > 0 ==> s.after(
            IceEvent::Remote(Some(x)),
        ).stage == Stage::Trying,
        s.stage != Stage::Waiting || x@.ufrag.len() == 0 ==> s.after(
            IceEvent::Remote(Some(x)),
        ).stage == s.stage,
        s.after(IceEvent::Remote(None)).stage == s.stage,
        s.stage == Stage::Trying ==> s.after(IceEvent::Negotiated).stage == Stage::Binding,
        s.stage != Stage::Trying ==> s.after(IceEvent::Negotiated) == s,
        s.stage == Stage::Binding ==> s.after(IceEvent::Bound(a)).stage == Stage::Passing
            && s.after(IceEvent::Bound(a)).state == IceState::Connected(a),
        s.stage != Stage::Binding ==> s.after(IceEvent::Bound(a)) == s,
        s.after(IceEvent::Remote(Some(x))).state == s.state,
        s.after(IceEvent::Negotiated).state == s.state,
{
}

/// A session fails when what it waits for does not come: the offer, the path, or the address; and
/// whenever the agent says so. What comes out of turn changes nothing.
pub proof fn law_how_a_session_fails(s: SessionView)
    ensures
        s.after(IceEvent::AgentFailed).state == IceState::Failed,
        s.after(IceEvent::AgentFailed).stage == s.stage,
        ({
            let f = s.after(IceEvent::NoOffer);
            if s.stage == Stage::Waiting {
                f.state == IceState::Failed && f.stage == Stage::Ended
            } else {
                f == s
            }
        }),
        ({
            let f = s.after(IceEvent::NotNegotiated);
            if s.stage == Stage::Trying {
                f.state == IceState::Failed && f.stage == Stage::Ended
            } else {
                f == s
            }
        }),
        ({
            let f = s.after(IceEvent::NotBound);
            if s.stage == Stage::Binding {
                f.state == IceState::Failed && f.stage == Stage::Ended
            } else {
                f == s
            }
        }),
{
}

/// A session keeps its own credentials and its side whatever happens, adds every candidate that it
/// gathers to those it offers, and forgets none.
pub proof fn law_a_session_keeps_what_it_offers(s: SessionView, e: IceEvent, c: String)
    ensures
        s.after(e).ufrag == s.ufrag,
        s.after(e).pwd == s.pwd,
        s.after(e).controlling == s.controlling,
        s.after(IceEvent::Gathered(c)).local_candidates == s.local_candidates + seq![c@],
        !(e is Gathered) ==> s.after(e).local_candidates == s.local_candidates,
        !(e is Remote) ==> s.after(e).added == s.added,
{
    assert(s.local_candidates.push(c@) =~= s.local_candidates + seq![c@]);
}

/// What the caller does for a session: the agent tries the peer's offer when one came that was waited
/// for, under the peer's credentials and on the session's side; an address is set up once a path is
/// found, and traffic passed on once that is set up; a failed agent is given up.
pub proof fn law_what_a_session_asks_for(s: SessionView, x: IceParams, a: Endpoint, act: IceAct)
    ensures
        s.asks(IceEvent::AgentFailed, act) <==> act is Cancel,
        s.stage == Stage::Waiting && x@.ufrag.len() > 0 ==> (s.asks(
            IceEvent::Remote(Some(x)),
            act,
        ) <==> {
            &&& act matches IceAct::Connect { ufrag, pwd, dial }
            &&& ufrag@ == x@.ufrag
            &&& pwd@ == x@.pwd
            &&& dial == s.controlling
        }),
        s.stage != Stage::Waiting || x@.ufrag.len() == 0 ==> (s.asks(
            IceEvent::Remote(Some(x)),
            act,
        ) <==> act is Nothing),
        s.asks(IceEvent::Remote(None), act) <==> act is Nothing,
        s.stage == Stage::Trying ==> (s.asks(IceEvent::Negotiated, act) <==> act is Bind),
        s.stage == Stage::Binding && s.state != IceState::Failed ==> (s.asks(
            IceEvent::Bound(a),
            act,
        ) <==> act is Pass),
        s.stage == Stage::Binding && s.state == IceState::Failed ==> (s.asks(
            IceEvent::Bound(a),
            act,
        ) <==> act is Nothing),
        s.asks(IceEvent::NoOffer, act) <==> act is Nothing,
        s.asks(IceEvent::NotNegotiated, act) <==> act is Nothing,
        s.asks(IceEvent::NotBound, act) <==> act is Nothing,
{
}

/// Each server for addresses is asked, in order and without credentials, and last the relay under those
/// of the reservation.
pub proof fn law_every_server_is_asked(stun: Seq<Endpoint>, t: mesh::RelayView, i: int)
    requires
        0 <= i < stun.len(),
    ensures
        urls_of(stun, None).len() == stun.len(),
        urls_of(stun, Some(t)).len() == stun.len() + 1,
        urls_of(stun, None)[i] == urls_of(stun, Some(t))[i],
        ({
            let u = urls_of(stun, None)[i];
            &&& u.scheme == IceScheme::Stun
            &&& u.host == stun[i].ip
            &&& u.port == stun[i].port
            &&& u.username.len() == 0
            &&& u.password.len() == 0
        }),
        ({
            let u = urls_of(stun, Some(t)).last();
            &&& u.scheme == IceScheme::Turn
            &&& u.host == t.turn_addr.ip
            &&& u.port == t.turn_addr.port
            &&& u.username == t.username
            &&& u.password == t.credential
        }),
{
}

/// One failure more is counted for a peer, at the time it was seen; its wait then runs from that time.
pub proof fn law_failures_in_a_row_are_counted(
    f: Map<Seq<u8>, (u32, u64)>,
    k: Seq<u8>,
    now: u64,
    later: u64,
)
    ensures
        counted(f, k, now).1 == now,
        !f.contains_key(k) ==> counted(f, k, now).0 == 1,
        f.contains_key(k) && f[k].0 < u32::MAX ==> counted(f, k, now).0 == f[k].0 + 1,
        f.contains_key(k) && f[k].0 == u32::MAX ==> counted(f, k, now).0 == u32::MAX,
        !f.contains_key(k) ==> waited(f, k, later),
        f.contains_key(k) ==> (waited(f, k, later) <==> later >= f[k].1 + 1000 * backoff_of(
            f[k].0,
        )),
{
}

/// Every session makes its offer: to its peer, with its credentials and what it gathered so far.
pub proof fn law_every_session_makes_its_offer(es: Seq<(PubKey, IceSession)>, i: int)
    requires
        0 <= i < es.len(),
    ensures
        offers_of(es).len() == es.len(),
        offers_of(es)[i].peer == es[i].0@,
        offers_of(es)[i].params.ufrag == es[i].1@.ufrag,
        offers_of(es)[i].params.pwd == es[i].1@.pwd,
        offers_of(es)[i].params.candidates == es[i].1@.local_candidates,
{
}

} // verus!
