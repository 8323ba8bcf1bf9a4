//! Authoritative DNS for the deployment's certificate domain.
//!
//! The zone carries challenge records and nothing else: a device posts its challenge value, the CA
//! looks it up as a `_acme-challenge` TXT record, and the record is gone minutes later. The store
//! meters how many certificates a device and the whole deployment may order in a week.
use crate::assoc::{self, Assoc};
use crate::clock::{Clock, CLOCK_MAX};
use crate::text;
use crate::wire::{
    self, decode, encode, Answer, Data, DnsName, Head, Query, Rcode, Reply, TYPE_ANY, TYPE_AXFR,
    TYPE_IXFR, TYPE_NS, TYPE_SOA, TYPE_TXT,
};
use vstd::prelude::*;
use vstd::string::*;

verus! {

/// How long a published challenge stays live, in milliseconds.
pub const CHALLENGE_TTL: u64 = 300_000;

/// Time to live of the TXT records, in seconds.
pub const CHALLENGE_RECORD_TTL_SECS: u32 = 60;

/// Time to live of the apex records, in seconds, and the negative-caching time.
pub const ZONE_TTL_SECS: u32 = 300;

/// How many challenge names may be live at once.
pub const MAX_LIVE_CHALLENGES: usize = 4_096;

/// How many values one challenge name holds.
pub const MAX_VALUES_PER_NAME: usize = 8;

/// The rolling window that the weekly budgets are measured over, in milliseconds.
pub const ISSUANCE_WINDOW: u64 = 604_800_000;

/// The same window in seconds.
pub const ISSUANCE_WINDOW_SECS: u32 = 604_800;

/// The slice of the weekly budget that one device may spend.
pub const MAX_CERTS_PER_DEVICE_PER_WEEK: u32 = 5;

/// Largest datagram that every asker takes.
pub const MIN_UDP_PAYLOAD: usize = 512;

/// Largest query that is read over TCP.
pub const MAX_TCP_QUERY: usize = 4_096;

/// What one source of queries may ask, and all of them together.
#[derive(Clone, Copy, Debug, PartialEq, Eq, Structural)]
pub struct Caps {
    /// Over how long this is counted, in milliseconds.
    pub window: u64,
    pub max_per_ip: u32,
    pub max_total: u32,
    /// How many sources are told apart.
    pub max_tracked_ips: usize,
}

/// The bounds on queries. A resolver asks a handful of times for each certificate; a flood is dropped.
pub fn rate_limit_caps() -> (r: Caps)
    ensures
        r == (Caps {
            window: 1_000,
            max_per_ip: 20,
            max_total: 2_000,
            max_tracked_ips: 4_096,
        }),
{
    Caps { window: 1_000, max_per_ip: 20, max_total: 2_000, max_tracked_ips: 4_096 }
}

/// Why a challenge could not be published.
#[derive(Clone, Copy, Debug, PartialEq, Eq, Structural)]
pub enum PublishError {
    /// The device has spent its own slice of the week.
    DeviceBudgetExhausted,
    /// The deployment has spent its weekly budget.
    BudgetExhausted,
    /// Too many challenges are live at once.
    TooManyLive,
}

impl PublishError {
    /// The message that explains the error.
    pub open spec fn message(self) -> Seq<char> {
        match self {
            PublishError::DeviceBudgetExhausted =>
                "this device has spent its weekly certificate allowance; try again later"@,
            PublishError::BudgetExhausted =>
                "this deployment's weekly certificate budget is exhausted; try again later"@,
            PublishError::TooManyLive => "too many certificate validations are in flight"@,
        }
    }

    /// The message that explains the error.
    pub fn to_text(&self) -> (r: String)
        ensures
            r@ == self.message(),
    {
        match self {
            PublishError::DeviceBudgetExhausted =>
                "this device has spent its weekly certificate allowance; try again later".to_owned(),
            PublishError::BudgetExhausted =>
                "this deployment's weekly certificate budget is exhausted; try again later".to_owned(),
            PublishError::TooManyLive => "too many certificate validations are in flight".to_owned(),
        }
    }
}

/// The values live at one challenge name.
pub struct Live {
    pub values: Vec<String>,
    pub expires_at: u64,
}

/// The model of the values live at one name.
#[verifier::ext_equal]
pub struct LiveView {
    pub values: Seq<Seq<char>>,
    pub expires_at: u64,
}

impl View for Live {
    type V = LiveView;

    open spec fn view(&self) -> LiveView {
        LiveView { values: text::texts(self.values@), expires_at: self.expires_at }
    }
}

/// The live challenge records and the week's issuances.
pub struct ChallengeStore {
    pub live: Assoc<String, Live>,
    pub issuances: Vec<u64>,
    pub per_device: Assoc<[u8; 32], Vec<u64>>,
    pub max_certs_per_week: u32,
    pub clock: Clock,
}

/// The model of the store. The weekly budget is a setting, which is spoken of beside it.
#[verifier::ext_equal]
pub struct StoreView {
    /// Challenge name to what is live there.
    pub live: Map<Seq<char>, LiveView>,
    /// When each admitted issuance happened.
    pub issuances: Seq<u64>,
    /// The same per device.
    pub per_device: Map<Seq<u8>, Seq<u64>>,
}

/// What a map of live records stands for.
pub open spec fn live_view(m: Map<Seq<char>, Live>) -> Map<Seq<char>, LiveView> {
    m.map_values(|l: Live| l@)
}

/// What a map of issuance times stands for.
pub open spec fn times_view(m: Map<Seq<u8>, Vec<u64>>) -> Map<Seq<u8>, Seq<u64>> {
    m.map_values(|v: Vec<u64>| v@)
}

impl View for ChallengeStore {
    type V = StoreView;

    open spec fn view(&self) -> StoreView {
        StoreView {
            live: live_view(self.live@),
            issuances: self.issuances@,
            per_device: times_view(self.per_device@),
        }
    }
}

/// Whether an issuance at `at` still counts at `now`.
pub open spec fn in_window(at: u64, now: u64) -> bool {
    now < at + ISSUANCE_WINDOW
}

/// The issuances that still count at `now`.
pub open spec fn counted(times: Seq<u64>, now: u64) -> Seq<u64> {
    times.filter(|at: u64| in_window(at, now))
}

/// The records that have not expired at `now`.
pub open spec fn unexpired(live: Map<Seq<char>, LiveView>, now: u64) -> Map<Seq<char>, LiveView> {
    Map::new(|n: Seq<char>| live.contains_key(n) && live[n].expires_at > now, |n: Seq<char>| live[n])
}

/// The devices with an issuance that still counts at `now`, and those issuances.
pub open spec fn counted_devices(per_device: Map<Seq<u8>, Seq<u64>>, now: u64) -> Map<
    Seq<u8>,
    Seq<u64>,
> {
    Map::new(
        |d: Seq<u8>| per_device.contains_key(d) && counted(per_device[d], now).len() > 0,
        |d: Seq<u8>| counted(per_device[d], now),
    )
}

impl StoreView {
    /// The store without what has run out at `now`.
    pub open spec fn pruned(self, now: u64) -> StoreView {
        StoreView {
            live: unexpired(self.live, now),
            issuances: counted(self.issuances, now),
            per_device: counted_devices(self.per_device, now),
        }
    }

    /// Whether this value is live at this name.
    pub open spec fn holds(self, name: Seq<char>, value: Seq<char>) -> bool {
        self.live.contains_key(name) && self.live[name].values.contains(value)
    }

    /// How many issuances count against a device.
    pub open spec fn spent(self, device: Seq<u8>) -> nat {
        if self.per_device.contains_key(device) {
            self.per_device[device].len()
        } else {
            0
        }
    }

    /// How many of the records name a challenge that is not live yet.
    pub open spec fn fresh(self, records: Seq<(Seq<char>, Seq<char>)>) -> nat
        decreases records.len(),
    {
        if records.len() == 0 {
            0
        } else {
            self.fresh(records.drop_last()) + if self.live.contains_key(records.last().0) {
                0nat
            } else {
                1nat
            }
        }
    }
}

/// The names and values of a list of records.
pub open spec fn pairs(records: Seq<(String, String)>) -> Seq<(Seq<char>, Seq<char>)> {
    records.map_values(|r: (String, String)| (r.0@, r.1@))
}

/// Some record is not live yet.
pub open spec fn novel(s: StoreView, records: Seq<(Seq<char>, Seq<char>)>) -> bool {
    exists|i: int| 0 <= i < records.len() && !s.holds((#[trigger] records[i]).0, records[i].1)
}

/// A record of the list has this name.
pub open spec fn names(records: Seq<(Seq<char>, Seq<char>)>, n: Seq<char>) -> bool {
    exists|i: int| 0 <= i < records.len() && (#[trigger] records[i]).0 == n
}

/// The live records, with those that `records` name kept until `expires_at`.
pub open spec fn refreshed(
    live: Map<Seq<char>, LiveView>,
    records: Seq<(Seq<char>, Seq<char>)>,
    expires_at: u64,
) -> Map<Seq<char>, LiveView> {
    live.map_entries(
        |n: Seq<char>, l: LiveView|
            if names(records, n) {
                LiveView { values: l.values, expires_at }
            } else {
                l
            },
    )
}

/// The values of a name after `value` was added: at the end, unless it is there, the oldest leaving
/// when there is no room.
pub open spec fn with_value(values: Seq<Seq<char>>, value: Seq<char>) -> Seq<Seq<char>> {
    if values.contains(value) {
        values
    } else if values.len() >= MAX_VALUES_PER_NAME {
        values.skip(1).push(value)
    } else {
        values.push(value)
    }
}

/// The live records after each of `records` was added, in order.
pub open spec fn added(
    live: Map<Seq<char>, LiveView>,
    records: Seq<(Seq<char>, Seq<char>)>,
    expires_at: u64,
) -> Map<Seq<char>, LiveView>
    decreases records.len(),
{
    if records.len() == 0 {
        live
    } else {
        let m = added(live, records.drop_last(), expires_at);
        let (name, value) = records.last();
        let values = if m.contains_key(name) {
            m[name].values
        } else {
            seq![]
        };
        m.insert(name, LiveView { values: with_value(values, value), expires_at })
    }
}

/// The smaller of a device's slice and the deployment's budget.
pub open spec fn device_cap(max_certs_per_week: u32) -> nat {
    if MAX_CERTS_PER_DEVICE_PER_WEEK < max_certs_per_week {
        MAX_CERTS_PER_DEVICE_PER_WEEK as nat
    } else {
        max_certs_per_week as nat
    }
}

/// Whether and why an order is refused by a store that holds nothing that has run out.
pub open spec fn verdict(
    s: StoreView,
    max_certs_per_week: u32,
    device: Seq<u8>,
    records: Seq<(Seq<char>, Seq<char>)>,
) -> Result<(), PublishError> {
    if !novel(s, records) {
        Ok(())
    } else if s.spent(device) >= device_cap(max_certs_per_week) {
        Err(PublishError::DeviceBudgetExhausted)
    } else if s.issuances.len() >= max_certs_per_week {
        Err(PublishError::BudgetExhausted)
    } else if s.live.dom().len() + s.fresh(records) > MAX_LIVE_CHALLENGES {
        Err(PublishError::TooManyLive)
    } else {
        Ok(())
    }
}

/// The store after an order was posted at `now`.
pub open spec fn published(
    s: StoreView,
    max_certs_per_week: u32,
    device: Seq<u8>,
    records: Seq<(Seq<char>, Seq<char>)>,
    now: u64,
) -> StoreView {
    let p = s.pruned(now);
    let expires_at = (now + CHALLENGE_TTL) as u64;
    if verdict(p, max_certs_per_week, device, records) is Err {
        p
    } else if !novel(p, records) {
        StoreView { live: refreshed(p.live, records, expires_at), ..p }
    } else {
        let before = if p.per_device.contains_key(device) {
            p.per_device[device]
        } else {
            seq![]
        };
        StoreView {
            live: added(p.live, records, expires_at),
            issuances: p.issuances.push(now),
            per_device: p.per_device.insert(device, before.push(now)),
        }
    }
}

impl Live {
    /// Adds a value and sets when the values expire.
    pub fn push(&mut self, value: String, expires_at: u64)
        ensures
            final(self)@ == (LiveView { values: with_value(old(self)@.values, value@), expires_at }),
    {
        let ghost vs = self@.values;
        let mut i: usize = 0;
        let mut held = false;
        while i < self.values.len() && !held
            invariant
                i <= self.values.len(),
                self@.values == vs,
                held ==> vs.contains(value@),
                !held ==> forall|j: int| 0 <= j < i ==> vs[j] != value@,
            decreases self.values.len() - i + if held { 0int } else { 1int },
        {
            if self.values[i] == value {
                assert(vs[i as int] == value@);
                held = true;
            } else {
                assert(vs[i as int] != value@);
                i += 1;
            }
        }
        if !held {
            assert(!vs.contains(value@));
            if self.values.len() >= MAX_VALUES_PER_NAME {
                self.values.remove(0);
                assert(self@.values =~= vs.skip(1));
            }
            self.values.push(value);
            assert(self@.values =~= with_value(vs, value@));
        }
        self.expires_at = expires_at;
    }
}

fn count_in_window(times: &Vec<u64>, now: u64) -> (r: Vec<u64>)
    ensures
        r@ == counted(times@, now),
{
    let mut out: Vec<u64> = Vec::new();
    let mut i: usize = 0;
    while i < times.len()
        invariant
            i <= times.len(),
            out@ == counted(times@.take(i as int), now),
        decreases times.len() - i,
    {
        proof {
            assert(times@.take(i + 1).drop_last() =~= times@.take(i as int));
            reveal(Seq::filter);
        }
        let at: u64 = times[i];
        if now < at || now - at < ISSUANCE_WINDOW {
            out.push(at);
        }
        i += 1;
    }
    assert(times@.take(i as int) =~= times@);
    out
}

impl ChallengeStore {
    /// The names and the devices are distinct.
    pub open spec fn wf(&self) -> bool {
        self.live.wf() && self.per_device.wf()
    }

    /// A store that admits this many issuances a week.
    pub fn new(max_certs_per_week: u32) -> (r: Self)
        ensures
            r.wf(),
            r.max_certs_per_week == max_certs_per_week,
            r@ == (StoreView {
                live: Map::empty(),
                issuances: Seq::empty(),
                per_device: Map::empty(),
            }),
    {
        let r = ChallengeStore {
            live: Assoc::new(),
            issuances: Vec::new(),
            per_device: Assoc::new(),
            max_certs_per_week,
            clock: Clock::start(),
        };
        assert(r@.live =~= Map::<Seq<char>, LiveView>::empty());
        assert(r@.per_device =~= Map::<Seq<u8>, Seq<u64>>::empty());
        r
    }

    fn prune_live(&mut self, now: u64)
        requires
            old(self).wf(),
        ensures
            final(self).live.wf(),
            live_view(final(self).live@) == unexpired(live_view(old(self).live@), now),
            final(self).issuances == old(self).issuances,
            final(self).per_device == old(self).per_device,
            final(self).max_certs_per_week == old(self).max_certs_per_week,
    {
        let ghost s = self.live.entries@;
        let mut rest: Vec<(String, Live)> = Vec::new();
        std::mem::swap(&mut rest, &mut self.live.entries);
        let mut out: Assoc<String, Live> = Assoc::new();
        let ghost mut k: int = 0;
        assert(unexpired(live_view(assoc::map_of(s.take(0))), now) =~= Map::<Seq<char>, LiveView>::empty());
        assert(live_view(out@) =~= Map::<Seq<char>, LiveView>::empty());
        while rest.len() > 0
            invariant
                assoc::distinct(s),
                0 <= k <= s.len(),
                rest@ == s.skip(k),
                out.wf(),
                live_view(out@) == unexpired(live_view(assoc::map_of(s.take(k))), now),
            decreases rest.len(),
        {
            let (name, l) = rest.remove(0);
            proof {
                assert(s.take(k + 1) =~= s.take(k).push(s[k]));
                assoc::lemma_prefix(s, k);
                assoc::lemma_pushed(s.take(k), s[k].0, s[k].1);
                assert(s.skip(k).remove(0) =~= s.skip(k + 1));
            }
            let ghost before = out@;
            let ghost m = assoc::map_of(s.take(k));
            proof {
                lemma_live_step(m, before, name@, l, now);
            }
            if l.expires_at > now {
                out.insert(name, l);
            }
            proof {
                k = k + 1;
            }
        }
        assert(s.take(k) =~= s);
        self.live = out;
    }

    fn prune_devices(&mut self, now: u64)
        requires
            old(self).wf(),
        ensures
            final(self).per_device.wf(),
            times_view(final(self).per_device@) == counted_devices(
                times_view(old(self).per_device@),
                now,
            ),
            final(self).issuances == old(self).issuances,
            final(self).live == old(self).live,
            final(self).max_certs_per_week == old(self).max_certs_per_week,
    {
        let ghost s = self.per_device.entries@;
        let mut out: Assoc<[u8; 32], Vec<u64>> = Assoc::new();
        let mut i: usize = 0;
        assert(counted_devices(times_view(assoc::map_of(s.take(0))), now) =~= Map::<
            Seq<u8>,
            Seq<u64>,
        >::empty());
        assert(times_view(out@) =~= Map::<Seq<u8>, Seq<u64>>::empty());
        while i < self.per_device.entries.len()
            invariant
                s == self.per_device.entries@,
                assoc::distinct(s),
                i <= s.len(),
                out.wf(),
                times_view(out@) == counted_devices(times_view(assoc::map_of(s.take(i as int))), now),
            decreases s.len() - i,
        {
            let device: [u8; 32] = self.per_device.entries[i].0;
            let kept = count_in_window(&self.per_device.entries[i].1, now);
            let ghost m = assoc::map_of(s.take(i as int));
            let ghost before = out@;
            proof {
                assert(s.take(i + 1) =~= s.take(i as int).push(s[i as int]));
                assoc::lemma_prefix(s, i as int);
                assoc::lemma_pushed(s.take(i as int), s[i as int].0, s[i as int].1);
            }
            let ghost all = s[i as int].1;
            if kept.len() > 0 {
                out.insert(device, kept);
                assert(times_view(out@) =~= counted_devices(
                    times_view(m.insert(device@, all)),
                    now,
                )) by {
                    assert(times_view(before) == counted_devices(times_view(m), now));
                    assert forall|d: Seq<u8>| #[trigger]
                        times_view(out@).contains_key(d) <==> counted_devices(
                            times_view(m.insert(device@, all)),
                            now,
                        ).contains_key(d) by {
                        assert(times_view(before).contains_key(d) <==> counted_devices(
                            times_view(m),
                            now,
                        ).contains_key(d));
                    }
                    assert forall|d: Seq<u8>| times_view(out@).contains_key(d) implies #[trigger]
                        times_view(out@)[d] == counted_devices(
                        times_view(m.insert(device@, all)),
                        now,
                    )[d] by {
                        if d != device@ {
                            assert(times_view(before).contains_key(d));
                            assert(times_view(before)[d] == counted_devices(times_view(m), now)[d]);
                        }
                    }
                }
            } else {
                assert(times_view(out@) =~= counted_devices(
                    times_view(m.insert(device@, all)),
                    now,
                )) by {
                    assert forall|d: Seq<u8>| #[trigger]
                        times_view(out@).contains_key(d) <==> counted_devices(
                            times_view(m.insert(device@, all)),
                            now,
                        ).contains_key(d) by {
                        assert(times_view(before).contains_key(d) <==> counted_devices(
                            times_view(m),
                            now,
                        ).contains_key(d));
                    }
                    assert forall|d: Seq<u8>| times_view(out@).contains_key(d) implies #[trigger]
                        times_view(out@)[d] == counted_devices(
                        times_view(m.insert(device@, all)),
                        now,
                    )[d] by {
                        assert(times_view(before)[d] == counted_devices(times_view(m), now)[d]);
                    }
                }
            }
            i += 1;
        }
        assert(s.take(i as int) =~= s);
        self.per_device = out;
    }

    /// Drops the records that have expired and the issuances that have left the window.
    pub fn prune(&mut self, now: u64)
        requires
            old(self).wf(),
        ensures
            final(self).wf(),
            final(self)@ == old(self)@.pruned(now),
            final(self).max_certs_per_week == old(self).max_certs_per_week,
    {
        self.prune_live(now);
        self.prune_devices(now);
        self.issuances = count_in_window(&self.issuances, now);
    }

    fn holds_value(&self, name: &String, value: &String) -> (r: bool)
        requires
            self.wf(),
        ensures
            r == self@.holds(name@, value@),
    {
        match self.live.get(name) {
            None => false,
            Some(l) => {
                let ghost vs = l@.values;
                assert(self@.live[name@] == l@);
                let mut i: usize = 0;
                while i < l.values.len()
                    invariant
                        i <= l.values.len(),
                        vs == text::texts(l.values@),
                        self@.live.contains_key(name@),
                        self@.live[name@].values == vs,
                        forall|j: int| 0 <= j < i ==> vs[j] != value@,
                    decreases l.values.len() - i,
                {
                    if l.values[i] == *value {
                        assert(vs[i as int] == value@);
                        return true;
                    }
                    assert(vs[i as int] != value@);
                    i += 1;
                }
                false
            },
        }
    }

    fn has_novel(&self, records: &[(String, String)]) -> (r: bool)
        requires
            self.wf(),
        ensures
            r == novel(self@, pairs(records@)),
    {
        let ghost ps = pairs(records@);
        let mut i: usize = 0;
        while i < records.len()
            invariant
                self.wf(),
                i <= records.len(),
                ps == pairs(records@),
                forall|j: int| 0 <= j < i ==> self@.holds((#[trigger] ps[j]).0, ps[j].1),
            decreases records.len() - i,
        {
            assert(ps[i as int] == (records@[i as int].0@, records@[i as int].1@));
            if !self.holds_value(&records[i].0, &records[i].1) {
                return true;
            }
            i += 1;
        }
        false
    }

    fn count_fresh(&self, records: &[(String, String)]) -> (r: usize)
        requires
            self.wf(),
        ensures
            r == self@.fresh(pairs(records@)),
            r <= records.len(),
    {
        let ghost ps = pairs(records@);
        let mut i: usize = 0;
        let mut n: usize = 0;
        while i < records.len()
            invariant
                self.wf(),
                i <= records.len(),
                n <= i,
                ps == pairs(records@),
                n == self@.fresh(ps.take(i as int)),
            decreases records.len() - i,
        {
            assert(ps.take(i + 1).drop_last() =~= ps.take(i as int));
            assert(ps[i as int] == (records@[i as int].0@, records@[i as int].1@));
            if !self.live.contains(&records[i].0) {
                n += 1;
            }
            i += 1;
        }
        assert(ps.take(i as int) =~= ps);
        n
    }

    fn refresh(&mut self, records: &[(String, String)], expires_at: u64)
        requires
            old(self).wf(),
        ensures
            final(self).wf(),
            final(self)@ == (StoreView {
                live: refreshed(old(self)@.live, pairs(records@), expires_at),
                ..old(self)@
            }),
            final(self).max_certs_per_week == old(self).max_certs_per_week,
    {
        let ghost ps = pairs(records@);
        let ghost before = self@.live;
        let mut i: usize = 0;
        assert(refreshed(before, ps.take(0), expires_at) =~= before);
        while i < records.len()
            invariant
                self.wf(),
                i <= records.len(),
                ps == pairs(records@),
                self@.live == refreshed(before, ps.take(i as int), expires_at),
                self.issuances == old(self).issuances,
                self.per_device == old(self).per_device,
                self.max_certs_per_week == old(self).max_certs_per_week,
            decreases records.len() - i,
        {
            let ghost name = records@[i as int].0@;
            let ghost cur = self.live@;
            let ghost now_live = self@.live;
            assert(ps[i as int].0 == name);
            let ghost p0 = ps.take(i as int);
            let ghost p1 = ps.take(i + 1);
            proof {
                assert forall|n: Seq<char>| #[trigger] names(p1, n) == (names(p0, n) || n == name) by {
                    if names(p0, n) {
                        let j = choose|j: int| 0 <= j < p0.len() && (#[trigger] p0[j]).0 == n;
                        assert(p1[j].0 == n);
                    }
                    if n == name {
                        assert(p1[i as int].0 == n);
                    }
                    if names(p1, n) {
                        let j = choose|j: int| 0 <= j < p1.len() && (#[trigger] p1[j]).0 == n;
                        if j < i {
                            assert(p0[j].0 == n);
                        }
                    }
                }
            }
            match self.live.find(&records[i].0) {
                Some(k) => {
                    let ghost l = cur[name];
                    self.live.at(k).expires_at = expires_at;
                    proof {
                        let l2 = self.live@[name];
                        assert(l2.values == l.values && l2.expires_at == expires_at);
                        assert(self.live@ == cur.insert(name, l2));
                        let want = refreshed(before, p1, expires_at);
                        assert forall|n: Seq<char>| want.contains_key(n) implies #[trigger]
                            self@.live[n] == want[n] by {
                            assert(now_live[n] == refreshed(before, p0, expires_at)[n]);
                            assert(now_live[n] == cur[n]@);
                            if n == name {
                                assert(self@.live[n] == l2@);
                                assert(l2@.values == l@.values);
                            } else {
                                assert(self@.live[n] == cur[n]@);
                            }
                        }
                        assert(self@.live =~= want);
                    }
                },
                None => {
                    proof {
                        let want = refreshed(before, p1, expires_at);
                        assert(!now_live.contains_key(name));
                        assert forall|n: Seq<char>| want.contains_key(n) implies #[trigger]
                            self@.live[n] == want[n] by {
                            assert(now_live[n] == refreshed(before, p0, expires_at)[n]);
                            assert(now_live.contains_key(n));
                        }
                        assert(self@.live =~= want);
                    }
                },
            }
            i += 1;
        }
        assert(ps.take(i as int) =~= ps);
    }

    fn add(&mut self, records: &[(String, String)], expires_at: u64)
        requires
            old(self).wf(),
        ensures
            final(self).wf(),
            final(self)@ == (StoreView {
                live: added(old(self)@.live, pairs(records@), expires_at),
                ..old(self)@
            }),
            final(self).max_certs_per_week == old(self).max_certs_per_week,
    {
        let ghost ps = pairs(records@);
        let ghost before = self@.live;
        let mut i: usize = 0;
        while i < records.len()
            invariant
                self.wf(),
                i <= records.len(),
                ps == pairs(records@),
                self@.live == added(before, ps.take(i as int), expires_at),
                self.issuances == old(self).issuances,
                self.per_device == old(self).per_device,
                self.max_certs_per_week == old(self).max_certs_per_week,
            decreases records.len() - i,
        {
            let ghost name = records@[i as int].0@;
            let ghost value = records@[i as int].1@;
            let ghost cur = self.live@;
            let ghost now_live = self@.live;
            assert(ps[i as int] == (name, value));
            assert(ps.take(i + 1).drop_last() =~= ps.take(i as int));
            match self.live.find(&records[i].0) {
                Some(k) => {
                    assert(now_live[name] == cur[name]@);
                    self.live.at(k).push(records[i].1.clone(), expires_at);
                },
                None => {
                    let mut l = Live { values: Vec::new(), expires_at };
                    assert(l@.values =~= seq![]);
                    l.push(records[i].1.clone(), expires_at);
                    self.live.insert(records[i].0.clone(), l);
                },
            }
            proof {
                let l2 = self.live@[name];
                assert(self.live@ == cur.insert(name, l2));
                assert(self@.live =~= now_live.insert(name, l2@));
            }
            i += 1;
        }
        assert(ps.take(i as int) =~= ps);
    }

    /// Posts every name and value of one certificate order of `device` at the time `now`.
    ///
    /// An order whose values are all live is the same order again: it keeps its records and costs
    /// nothing. Any other is charged once to the device and once to the deployment, and refused when
    /// either has nothing left or when too many names would be live.
    pub fn publish_at(
        &mut self,
        device: &[u8; 32],
        records: &[(String, String)],
        now: u64,
    ) -> (r: Result<(), PublishError>)
        requires
            old(self).wf(),
            now <= CLOCK_MAX,
        ensures
            final(self).wf(),
            final(self).max_certs_per_week == old(self).max_certs_per_week,
            r == verdict(
                old(self)@.pruned(now),
                old(self).max_certs_per_week,
                device@,
                pairs(records@),
            ),
            final(self)@ == published(
                old(self)@,
                old(self).max_certs_per_week,
                device@,
                pairs(records@),
                now,
            ),
    {
        self.prune(now);
        let ghost p = self@;
        let expires_at: u64 = now + CHALLENGE_TTL;
        if !self.has_novel(records) {
            self.refresh(records, expires_at);
            return Ok(());
        }
        let cap: u32 = if MAX_CERTS_PER_DEVICE_PER_WEEK < self.max_certs_per_week {
            MAX_CERTS_PER_DEVICE_PER_WEEK
        } else {
            self.max_certs_per_week
        };
        let spent: usize = match self.per_device.get(device) {
            Some(ats) => ats.len(),
            None => 0,
        };
        assert(spent == p.spent(device@));
        if spent >= cap as usize {
            return Err(PublishError::DeviceBudgetExhausted);
        }
        if self.issuances.len() >= self.max_certs_per_week as usize {
            return Err(PublishError::BudgetExhausted);
        }
        let fresh: usize = self.count_fresh(records);
        let held: usize = self.live.len();
        assert(p.live.dom() =~= self.live@.dom());
        if held > MAX_LIVE_CHALLENGES || fresh > MAX_LIVE_CHALLENGES - held {
            return Err(PublishError::TooManyLive);
        }
        self.add(records, expires_at);
        self.issuances.push(now);
        let ghost cur = self.per_device@;
        match self.per_device.find(device) {
            Some(k) => {
                self.per_device.at(k).push(now);
            },
            None => {
                let mut ats: Vec<u64> = Vec::new();
                ats.push(now);
                assert(ats@ =~= Seq::<u64>::empty().push(now));
                self.per_device.insert(*device, ats);
            },
        }
        proof {
            let v2 = self.per_device@[device@];
            assert(self.per_device@ == cur.insert(device@, v2));
            assert(times_view(self.per_device@) =~= times_view(cur).insert(device@, v2@));
        }
        Ok(())
    }

    /// Posts an order at the present time.
    pub fn publish(&mut self, device: &[u8; 32], records: &[(String, String)]) -> (r: Result<
        (),
        PublishError,
    >)
        requires
            old(self).wf(),
        ensures
            final(self).wf(),
            final(self).max_certs_per_week == old(self).max_certs_per_week,
            exists|now: u64|
                {
                    &&& now <= CLOCK_MAX
                    &&& r == verdict(
                        old(self)@.pruned(now),
                        old(self).max_certs_per_week,
                        device@,
                        pairs(records@),
                    )
                    &&& final(self)@ == #[trigger] published(
                        old(self)@,
                        old(self).max_certs_per_week,
                        device@,
                        pairs(records@),
                        now,
                    )
                },
    {
        let now: u64 = self.clock.now();
        self.publish_at(device, records, now)
    }

    /// The values live for `name` at the time `now`. `name` is in lower case, without a trailing
    /// dot.
    pub fn lookup_at(&mut self, name: &str, now: u64) -> (r: Option<Vec<String>>)
        requires
            old(self).wf(),
        ensures
            final(self).wf(),
            final(self)@ == old(self)@.pruned(now),
            final(self).max_certs_per_week == old(self).max_certs_per_week,
            match r {
                Some(v) => {
                    &&& final(self)@.live.contains_key(name@)
                    &&& text::texts(v@) == final(self)@.live[name@].values
                },
                None => !final(self)@.live.contains_key(name@),
            },
    {
        self.prune(now);
        let key = name.to_owned();
        match self.live.get(&key) {
            Some(l) => {
                let v = l.values.clone();
                assert(text::texts(v@) =~= text::texts(l.values@)) by {
                    assert forall|i: int| 0 <= i < v@.len() implies v@[i]@ == l.values@[i]@ by {
                        assert(cloned(l.values@[i], v@[i]));
                    }
                }
                assert(self@.live[name@] == l@);
                Some(v)
            },
            None => None,
        }
    }

    /// The values live for `name` now.
    pub fn lookup(&mut self, name: &str) -> (r: Option<Vec<String>>)
        requires
            old(self).wf(),
        ensures
            final(self).wf(),
            final(self).max_certs_per_week == old(self).max_certs_per_week,
            exists|now: u64| final(self)@ == #[trigger] old(self)@.pruned(now),
            match r {
                Some(v) => {
                    &&& final(self)@.live.contains_key(name@)
                    &&& text::texts(v@) == final(self)@.live[name@].values
                },
                None => !final(self)@.live.contains_key(name@),
            },
    {
        let now: u64 = self.clock.now();
        self.lookup_at(name, now)
    }

    /// The issuances admitted in the window that ends at `now`.
    pub fn issued_at(&mut self, now: u64) -> (r: usize)
        requires
            old(self).wf(),
        ensures
            final(self).wf(),
            final(self)@ == old(self)@.pruned(now),
            final(self).max_certs_per_week == old(self).max_certs_per_week,
            r == counted(old(self)@.issuances, now).len(),
    {
        self.prune(now);
        self.issuances.len()
    }

    /// The issuances admitted in the current window.
    pub fn issued_this_week(&mut self) -> (r: usize)
        requires
            old(self).wf(),
        ensures
            final(self).wf(),
            final(self).max_certs_per_week == old(self).max_certs_per_week,
            r == final(self)@.issuances.len(),
            exists|now: u64| final(self)@ == #[trigger] old(self)@.pruned(now),
    {
        let now: u64 = self.clock.now();
        self.issued_at(now)
    }
}

proof fn lemma_live_step(
    m: Map<Seq<char>, Live>,
    before: Map<Seq<char>, Live>,
    name: Seq<char>,
    l: Live,
    now: u64,
)
    requires
        !m.contains_key(name),
        live_view(before) == unexpired(live_view(m), now),
    ensures
        live_view(
            if l.expires_at > now {
                before.insert(name, l)
            } else {
                before
            },
        ) == unexpired(live_view(m.insert(name, l)), now),
{
    let after = if l.expires_at > now {
        before.insert(name, l)
    } else {
        before
    };
    let a = live_view(after);
    let mi = live_view(m.insert(name, l));
    let b = unexpired(mi, now);
    assert(mi[name] == l@);
    assert forall|n: Seq<char>| #[trigger] a.contains_key(n) <==> b.contains_key(n) by {
        assert(b.contains_key(n) == (mi.contains_key(n) && mi[n].expires_at > now));
        assert(live_view(before).contains_key(n) == (live_view(m).contains_key(n) && live_view(
            m,
        )[n].expires_at > now));
        assert(mi.contains_key(n) == m.insert(name, l).contains_key(n));
        assert(a.contains_key(n) == after.contains_key(n));
        if n != name && m.contains_key(n) {
            assert(mi[n] == live_view(m)[n]);
        }
    }
    assert forall|n: Seq<char>| a.contains_key(n) implies #[trigger] a[n] == b[n] by {
        if n != name {
            assert(live_view(before).contains_key(n));
            assert(live_view(before)[n] == unexpired(live_view(m), now)[n]);
        }
    }
    assert(a =~= b);
}

/// The certificate domain, and the challenges that are live under it.
pub struct DnsState {
    /// The domain, in lower case and without a dot at its end.
    pub domain: String,
    pub challenges: ChallengeStore,
}

impl DnsState {
    /// The state of a deployment with a domain, before any challenge. The domain is put into lower
    /// case, and loses the dots at its end.
    pub fn new(domain: &str, max_certs_per_week: u32) -> (r: DnsState)
        ensures
            r.domain@ == text::lower(text::trim_end(domain@, '.')),
            r.challenges.wf(),
            r.challenges.max_certs_per_week == max_certs_per_week,
            r.challenges@.live == Map::<Seq<char>, LiveView>::empty(),
            r.challenges@.issuances == Seq::<u64>::empty(),
            r.challenges@.per_device == Map::<Seq<u8>, Seq<u64>>::empty(),
    {
        let t = text::trim_end_of(domain, '.');
        DnsState {
            domain: text::to_lower(t.as_str()),
            challenges: ChallengeStore::new(max_certs_per_week),
        }
    }
}

/// Why a zone could not be set up.
#[derive(Clone, Copy, Debug, PartialEq, Eq, Structural)]
pub enum ZoneError {
    /// The configured domain is not a DNS name.
    BadDomain,
}

/// The zone that the coordinator is authoritative for.
pub struct Zone {
    /// The apex, in lower case.
    pub origin: DnsName,
    pub serial: u32,
    pub store: ChallengeStore,
}

/// The mailbox of the zone's authority record: `hostmaster` below the apex, or the apex itself when
/// that is no name.
pub open spec fn mailbox(origin: wire::NameView) -> wire::NameView {
    match wire::name_in_ascii("hostmaster."@ + wire::name_text(origin)) {
        Some(n) => n,
        None => origin,
    }
}

/// The zone's authority record. A denial is kept for as long as the zone's records are.
pub open spec fn soa_record(
    origin: wire::NameView,
    serial: u32,
) -> wire::AnswerView {
    wire::AnswerView {
        owner: origin,
        ttl: ZONE_TTL_SECS,
        data: wire::DataView::Authority {
            server: origin,
            mailbox: mailbox(origin),
            serial,
            refresh: ZONE_TTL_SECS as i32,
            retry: ZONE_TTL_SECS as i32,
            expire: ISSUANCE_WINDOW_SECS as i32,
            minimum: ZONE_TTL_SECS,
        },
    }
}

/// The zone's name-server record.
pub open spec fn ns_record(origin: wire::NameView) -> wire::AnswerView {
    wire::AnswerView {
        owner: origin,
        ttl: ZONE_TTL_SECS,
        data: wire::DataView::Server(origin),
    }
}

/// A challenge record.
pub open spec fn txt_record(
    owner: wire::NameView,
    value: Seq<char>,
) -> wire::AnswerView {
    wire::AnswerView {
        owner,
        ttl: CHALLENGE_RECORD_TTL_SECS,
        data: wire::DataView::Text(value),
    }
}

/// The key under which the challenges of a name are kept: its text in lower case, without the
/// trailing dot.
pub open spec fn challenge_key(name: wire::NameView) -> Seq<char> {
    let t = wire::name_text(wire::lower_name(name));
    if text::ends_with(t, "."@) {
        t.take(t.len() - 1)
    } else {
        t
    }
}

/// The header that every reply starts from.
pub open spec fn plain_head(q: wire::QueryView) -> Head {
    Head {
        id: q.id,
        op_code: q.op_code,
        recursion_desired: q.recursion_desired,
        recursion_available: false,
        authoritative: true,
        truncated: false,
        code: Rcode::NoError,
    }
}

/// A question that asks for everything at once.
pub open spec fn amplifies(qtype: u16) -> bool {
    qtype == TYPE_ANY || qtype == TYPE_AXFR || qtype == TYPE_IXFR
}

/// Whether a query is decided by what is live at the name it asks for.
pub open spec fn asks_challenge(
    origin: wire::NameView,
    q: wire::QueryView,
) -> bool {
    &&& !q.is_reply
    &&& q.op_code == 0
    &&& q.questions.len() == 1
    &&& wire::within(origin, wire::lower_name(q.questions[0].name))
    &&& !amplifies(q.questions[0].qtype)
    &&& !wire::same_name(wire::lower_name(q.questions[0].name), origin)
}

/// The reply to a query, given what is live; `None` when there is to be none.
pub open spec fn zone_reply(
    origin: wire::NameView,
    serial: u32,
    live: Map<Seq<char>, LiveView>,
    q: wire::QueryView,
) -> Option<wire::ReplyView> {
    let head = plain_head(q);
    let none = Seq::<wire::AnswerView>::empty();
    let soa = seq![soa_record(origin, serial)];
    if q.is_reply {
        None
    } else if q.op_code != 0 {
        Some(
            wire::ReplyView {
                head: Head { code: Rcode::NotImp, ..head },
                questions: seq![],
                answers: none,
                authorities: none,
            },
        )
    } else if q.questions.len() != 1 {
        Some(
            wire::ReplyView {
                head: Head { code: Rcode::FormErr, ..head },
                questions: seq![],
                answers: none,
                authorities: none,
            },
        )
    } else {
        let asked = q.questions[0];
        let key = challenge_key(asked.name);
        let (head, answers, authorities) = if !wire::within(
            origin,
            wire::lower_name(asked.name),
        ) {
            (Head { authoritative: false, code: Rcode::Refused, ..head }, none, none)
        } else if amplifies(asked.qtype) {
            (Head { code: Rcode::Refused, ..head }, none, none)
        } else if wire::same_name(wire::lower_name(asked.name), origin) {
            if asked.qtype == TYPE_SOA {
                (head, soa, none)
            } else if asked.qtype == TYPE_NS {
                (head, seq![ns_record(origin)], none)
            } else {
                (head, none, soa)
            }
        } else if live.contains_key(key) {
            if asked.qtype == TYPE_TXT {
                (head, live[key].values.map_values(|v: Seq<char>| txt_record(asked.name, v)), none)
            } else {
                (head, none, soa)
            }
        } else {
            (Head { code: Rcode::NXDomain, ..head }, none, soa)
        };
        Some(
            wire::ReplyView {
                head,
                questions: seq![asked],
                answers,
                authorities,
            },
        )
    }
}

/// A reply cut down to its question, marked as truncated.
pub open spec fn cut(r: wire::ReplyView) -> wire::ReplyView {
    wire::ReplyView {
        head: Head { truncated: true, ..r.head },
        questions: r.questions,
        answers: seq![],
        authorities: seq![],
    }
}

/// The octets sent in answer to the octets of a query; `None` when nothing is sent.
pub open spec fn zone_response(
    origin: wire::NameView,
    serial: u32,
    live: Map<Seq<char>, LiveView>,
    octets: Seq<u8>,
    over_tcp: bool,
) -> Option<Seq<u8>> {
    match wire::message_query(octets) {
        None => None,
        Some(q) => match zone_reply(origin, serial, live, q) {
            None => None,
            Some(r) => match wire::reply_octets(r) {
                None => None,
                Some(b) => if over_tcp || b.len() <= MIN_UDP_PAYLOAD || b.len()
                    <= q.max_payload {
                    Some(b)
                } else {
                    wire::reply_octets(cut(r))
                },
            },
        },
    }
}

/// Whether the octets of a query are answered by what is live, which is when what has run out is
/// dropped.
pub open spec fn looks_up(origin: wire::NameView, octets: Seq<u8>) -> bool {
    wire::message_query(octets) matches Some(q) && asks_challenge(origin, q)
}

/// The names of a query fit the wire.
pub open spec fn query_fits(q: wire::QueryView) -> bool {
    forall|i: int|
        0 <= i < q.questions.len() ==> wire::fits((#[trigger] q.questions[i]).name)
}

impl Zone {
    /// The store is well formed and the apex fits the wire.
    pub open spec fn wf(&self) -> bool {
        self.store.wf() && wire::fits(self.origin@)
    }

    /// The zone of a domain.
    pub fn new(domain: &str, store: ChallengeStore, serial: u32) -> (r: Result<Zone, ZoneError>)
        requires
            store.wf(),
        ensures
            match r {
                Ok(z) => {
                    &&& z.wf()
                    &&& z.serial == serial
                    &&& z.store == store
                    &&& wire::name_in_text(domain@ + "."@) matches Some(n)
                    &&& z.origin@ == wire::lower_name(n)
                },
                Err(e) => {
                    &&& e == ZoneError::BadDomain
                    &&& wire::name_in_text(domain@ + "."@) is None
                },
            },
    {
        let mut full = domain.to_owned();
        full.append(".");
        match DnsName::parse(full.as_str()) {
            Some(n) => Ok(Zone { origin: n.to_lowercase(), serial, store }),
            None => Err(ZoneError::BadDomain),
        }
    }

    /// The zone's authority record.
    pub fn soa(&self) -> (r: Answer)
        requires
            self.wf(),
        ensures
            r@ == soa_record(self.origin@, self.serial),
            wire::record_fits(r@),
    {
        let mut t = "hostmaster.".to_owned();
        t.append(self.origin.text().as_str());
        let rname = match DnsName::from_ascii(t.as_str()) {
            Some(n) => n,
            None => self.origin.copy(),
        };
        Answer {
            owner: self.origin.copy(),
            ttl: ZONE_TTL_SECS,
            data: Data::Authority {
                server: self.origin.copy(),
                mailbox: rname,
                serial: self.serial,
                refresh: ZONE_TTL_SECS as i32,
                retry: ZONE_TTL_SECS as i32,
                expire: ISSUANCE_WINDOW_SECS as i32,
                minimum: ZONE_TTL_SECS,
            },
        }
    }

    /// The reply to one decoded query at the time `now`; `None` when it is to be dropped.
    pub fn answer_at(&mut self, req: &Query, now: u64) -> (r: Option<Reply>)
        requires
            old(self).wf(),
            query_fits(req@),
        ensures
            final(self).wf(),
            final(self).origin@ == old(self).origin@,
            final(self).serial == old(self).serial,
            final(self).store.max_certs_per_week == old(self).store.max_certs_per_week,
            final(self).store@ == (if asks_challenge(old(self).origin@, req@) {
                old(self).store@.pruned(now)
            } else {
                old(self).store@
            }),
            match r {
                Some(p) => zone_reply(
                    old(self).origin@,
                    old(self).serial,
                    old(self).store@.pruned(now).live,
                    req@,
                ) == Some(p@),
                None => req.is_reply,
            },
            r matches Some(p) ==> wire::reply_fits(p@),
    {
        if req.is_reply {
            return None;
        }
        let mut reply = Reply {
            head: Head {
                id: req.id,
                op_code: req.op_code,
                recursion_desired: req.recursion_desired,
                recursion_available: false,
                authoritative: true,
                truncated: false,
                code: Rcode::NoError,
            },
            questions: Vec::new(),
            answers: Vec::new(),
            authorities: Vec::new(),
        };
        let ghost none = Seq::<wire::AnswerView>::empty();
        assert(reply@.questions =~= seq![]);
        assert(reply@.answers =~= none);
        assert(reply@.authorities =~= none);
        if req.op_code != 0 {
            reply.head.code = Rcode::NotImp;
            return Some(reply);
        }
        if req.questions.len() != 1 {
            reply.head.code = Rcode::FormErr;
            return Some(reply);
        }
        let ghost asked = req@.questions[0];
        assert(wire::fits(asked.name));
        reply.questions.push(req.questions[0].copy());
        assert(reply@.questions =~= seq![asked]);
        let qtype: u16 = req.questions[0].qtype;
        let qname = req.questions[0].name.to_lowercase();
        proof {
            lemma_lower_twice(asked.name);
        }
        if !self.origin.zone_of(&qname) {
            reply.head.authoritative = false;
            reply.head.code = Rcode::Refused;
            return Some(reply);
        }
        if qtype == TYPE_ANY || qtype == TYPE_AXFR || qtype == TYPE_IXFR {
            reply.head.code = Rcode::Refused;
            return Some(reply);
        }
        if qname.same(&self.origin) {
            if qtype == TYPE_SOA {
                reply.answers.push(self.soa());
                assert(reply@.answers =~= seq![soa_record(self.origin@, self.serial)]);
            } else if qtype == TYPE_NS {
                reply.answers.push(
                    Answer {
                        owner: self.origin.copy(),
                        ttl: ZONE_TTL_SECS,
                        data: Data::Server(self.origin.copy()),
                    },
                );
                assert(reply@.answers =~= seq![ns_record(self.origin@)]);
            } else {
                reply.authorities.push(self.soa());
                assert(reply@.authorities =~= seq![soa_record(self.origin@, self.serial)]);
            }
            return Some(reply);
        }
        let full = qname.text();
        let key = match text::strip_suffix(full.as_str(), ".") {
            Some(k) => k,
            None => full,
        };
        proof {
            reveal_strlit(".");
        }
        assert(key@ == challenge_key(asked.name));
        match self.store.lookup_at(key.as_str(), now) {
            Some(values) => {
                if qtype == TYPE_TXT {
                    let mut i: usize = 0;
                    let ghost want = text::texts(values@).map_values(
                        |v: Seq<char>| txt_record(asked.name, v),
                    );
                    while i < values.len()
                        invariant
                            i <= values.len(),
                            req.questions.len() == 1,
                            asked == req@.questions[0],
                            wire::fits(asked.name),
                            want == text::texts(values@).map_values(
                                |v: Seq<char>| txt_record(asked.name, v),
                            ),
                            reply@.questions == seq![asked],
                            reply@.answers == want.take(i as int),
                            reply@.authorities == none,
                            reply@.head == plain_head(req@),
                        decreases values.len() - i,
                    {
                        let a = Answer {
                            owner: req.questions[0].name.copy(),
                            ttl: CHALLENGE_RECORD_TTL_SECS,
                            data: Data::Text(values[i].clone()),
                        };
                        let ghost before = reply@.answers;
                        assert(a@ == want[i as int]);
                        reply.answers.push(a);
                        assert(reply@.answers =~= before.push(a@));
                        assert(want.take(i + 1) =~= want.take(i as int).push(want[i as int]));
                        i += 1;
                    }
                    assert(want.take(i as int) =~= want);
                    assert forall|j: int| 0 <= j < want.len() implies wire::record_fits(
                        #[trigger] want[j],
                    ) by {
                        assert(want[j].owner == asked.name);
                        assert(want[j].data is Text);
                    }
                } else {
                    reply.authorities.push(self.soa());
                    assert(reply@.authorities =~= seq![soa_record(self.origin@, self.serial)]);
                }
            },
            None => {
                reply.head.code = Rcode::NXDomain;
                reply.authorities.push(self.soa());
                assert(reply@.authorities =~= seq![soa_record(self.origin@, self.serial)]);
            },
        }
        Some(reply)
    }

    /// The octets to send in answer to the octets of a query at the time `now`.
    pub fn respond_at(&mut self, query: &[u8], over_tcp: bool, now: u64) -> (r: Option<Vec<u8>>)
        requires
            old(self).wf(),
        ensures
            final(self).wf(),
            final(self).origin@ == old(self).origin@,
            final(self).serial == old(self).serial,
            final(self).store.max_certs_per_week == old(self).store.max_certs_per_week,
            final(self).store@ == (if looks_up(old(self).origin@, query@) {
                old(self).store@.pruned(now)
            } else {
                old(self).store@
            }),
            match r {
                Some(v) => zone_response(
                    old(self).origin@,
                    old(self).serial,
                    old(self).store@.pruned(now).live,
                    query@,
                    over_tcp,
                ) == Some(v@),
                None => zone_response(
                    old(self).origin@,
                    old(self).serial,
                    old(self).store@.pruned(now).live,
                    query@,
                    over_tcp,
                ) is None,
            },
    {
        let req = match decode(query) {
            Some(q) => q,
            None => {
                return None;
            },
        };
        let reply = match self.answer_at(&req, now) {
            Some(p) => p,
            None => {
                return None;
            },
        };
        let bytes = match encode(&reply) {
            Some(b) => b,
            None => {
                return None;
            },
        };
        if over_tcp || bytes.len() <= MIN_UDP_PAYLOAD || bytes.len() <= req.max_payload as usize {
            return Some(bytes);
        }
        let ghost whole = reply@;
        let small = Reply {
            head: Head { truncated: true, ..reply.head },
            questions: reply.questions,
            answers: Vec::new(),
            authorities: Vec::new(),
        };
        assert(small@ =~= cut(whole));
        encode(&small)
    }

    /// The octets to send in answer to the octets of a query now.
    pub fn respond(&mut self, query: &[u8], over_tcp: bool) -> (r: Option<Vec<u8>>)
        requires
            old(self).wf(),
        ensures
            final(self).wf(),
            final(self).origin@ == old(self).origin@,
            final(self).serial == old(self).serial,
            final(self).store.max_certs_per_week == old(self).store.max_certs_per_week,
            exists|now: u64|
                {
                    let at = #[trigger] old(self).store@.pruned(now);
                    &&& final(self).store@ == (if looks_up(old(self).origin@, query@) {
                        at
                    } else {
                        old(self).store@
                    })
                    &&& match r {
                        Some(v) => zone_response(
                            old(self).origin@,
                            old(self).serial,
                            at.live,
                            query@,
                            over_tcp,
                        ) == Some(v@),
                        None => zone_response(
                            old(self).origin@,
                            old(self).serial,
                            at.live,
                            query@,
                            over_tcp,
                        ) is None,
                    }
                },
    {
        let now: u64 = self.store.clock.now();
        self.respond_at(query, over_tcp, now)
    }
}

proof fn lemma_lower_twice(n: wire::NameView)
    ensures
        wire::lower_name(wire::lower_name(n)) == wire::lower_name(n),
{
    let a = wire::lower_name(n);
    let b = wire::lower_name(a);
    assert forall|i: int| 0 <= i < a.labels.len() implies a.labels[i] == b.labels[i] by {
        assert(a.labels[i] =~= b.labels[i]);
    }
    assert(a.labels =~= b.labels);
}

/// What is said of a query that is too long.
pub open spec fn too_long(len: nat) -> Seq<char> {
    "query of "@ + text::dec(len) + " bytes exceeds the "@ + text::dec(MAX_TCP_QUERY as nat)
        + "-byte limit"@
}

/// How many bytes of a query follow the length that it is announced with over TCP, unless there are
/// too many.
pub fn tcp_query_len(len: u16) -> (r: Result<usize, String>)
    ensures
        match r {
            Ok(n) => n == len && len <= MAX_TCP_QUERY,
            Err(t) => len > MAX_TCP_QUERY && t@ == too_long(len as nat),
        },
{
    if len as usize > MAX_TCP_QUERY {
        let mut t = "query of ".to_owned();
        t.append(text::decimal(len as u64).as_str());
        t.append(" bytes exceeds the ");
        t.append(text::decimal(MAX_TCP_QUERY as u64).as_str());
        t.append("-byte limit");
        Err(t)
    } else {
        Ok(len as usize)
    }
}

/// A message as it goes over TCP: behind its length, in two bytes.
pub open spec fn framed(m: Seq<u8>) -> Seq<u8> {
    seq![((m.len() / 256) % 256) as u8, (m.len() % 256) as u8] + m
}

/// A response as it goes over TCP.
pub fn tcp_frame(resp: &Vec<u8>) -> (r: Vec<u8>)
    ensures
        r@ == framed(resp@),
{
    let n: usize = resp.len();
    let mut out: Vec<u8> = Vec::new();
    out.push(((n / 256) % 256) as u8);
    out.push((n % 256) as u8);
    let mut i: usize = 0;
    assert(out@ + resp@.take(0) =~= out@);
    let ghost head = out@;
    while i < resp.len()
        invariant
            i <= resp.len(),
            out@ == head + resp@.take(i as int),
        decreases resp.len() - i,
    {
        out.push(resp[i]);
        assert(head + resp@.take(i + 1) =~= (head + resp@.take(i as int)).push(resp@[i as int]));
        i += 1;
    }
    assert(resp@.take(i as int) =~= resp@);
    assert(out@ =~= framed(resp@));
    out
}

/// The length in front of a message is the message's, whatever a message over TCP can hold.
pub proof fn law_frame_tells_the_length(m: Seq<u8>)
    requires
        m.len() <= 65535,
    ensures
        framed(m)[0] * 256 + framed(m)[1] == m.len(),
        framed(m).skip(2) == m,
{
    assert(framed(m).skip(2) =~= m);
}

impl StoreView {
    /// What every store keeps: the budgets are not overdrawn, the names and their values are bounded,
    /// no name is live without a value, no value is held twice, and the devices' issuances are the deployment's.
    pub open spec fn bounded(self, max_certs_per_week: u32) -> bool {
        &&& self.issuances.len() <= max_certs_per_week
        &&& forall|d: Seq<u8>| #[trigger]
            self.per_device.contains_key(d) ==> self.per_device[d].len() <= device_cap(
                max_certs_per_week,
            )
        &&& forall|d: Seq<u8>| #[trigger]
            self.per_device.contains_key(d) ==> self.per_device[d].len() > 0
        &&& self.per_device.dom().finite()
        &&& forall|f: spec_fn(u64) -> bool| #[trigger]
            tally(self.per_device, f) == self.issuances.filter(f).len()
        &&& self.live.dom().finite()
        &&& self.live.dom().len() <= MAX_LIVE_CHALLENGES
        &&& forall|n: Seq<char>| #[trigger]
            self.live.contains_key(n) ==> 0 < self.live[n].values.len() <= MAX_VALUES_PER_NAME
        &&& forall|n: Seq<char>| #[trigger]
            self.live.contains_key(n) ==> self.live[n].values.no_duplicates()
    }
}

/// How many issuances of all devices satisfy `f`.
pub open spec fn tally(m: Map<Seq<u8>, Seq<u64>>, f: spec_fn(u64) -> bool) -> nat
    decreases m.dom().len(),
    when m.dom().finite()
{
    if m.dom().len() == 0 {
        0
    } else {
        let d = m.dom().choose();
        m[d].filter(f).len() + tally(m.remove(d), f)
    }
}

proof fn lemma_tally_remove(m: Map<Seq<u8>, Seq<u64>>, f: spec_fn(u64) -> bool, d: Seq<u8>)
    requires
        m.dom().finite(),
        m.contains_key(d),
    ensures
        tally(m, f) == m[d].filter(f).len() + tally(m.remove(d), f),
    decreases m.dom().len(),
{
    let c = m.dom().choose();
    assert(m.dom().contains(d));
    if m.dom().len() == 0 {
        assert(m.dom() =~= Set::empty());
    }
    if c != d {
        lemma_tally_remove(m.remove(c), f, d);
        lemma_tally_remove(m.remove(d), f, c);
        assert(m.remove(c).remove(d) =~= m.remove(d).remove(c));
    }
}

proof fn lemma_tally_put(
    m: Map<Seq<u8>, Seq<u64>>,
    f: spec_fn(u64) -> bool,
    d: Seq<u8>,
    before: Seq<u64>,
    at: u64,
)
    requires
        m.dom().finite(),
        before == (if m.contains_key(d) {
            m[d]
        } else {
            seq![]
        }),
    ensures
        tally(m.insert(d, before.push(at)), f) == tally(m, f) + if f(at) {
            1nat
        } else {
            0nat
        },
{
    let n = m.insert(d, before.push(at));
    lemma_tally_remove(n, f, d);
    reveal(Seq::filter);
    assert(before.push(at).drop_last() =~= before);
    if m.contains_key(d) {
        lemma_tally_remove(m, f, d);
        assert(n.remove(d) =~= m.remove(d));
    } else {
        assert(n.remove(d) =~= m);
        assert(before.filter(f).len() == 0);
    }
}

proof fn lemma_filter_both(s: Seq<u64>, g: spec_fn(u64) -> bool, f: spec_fn(u64) -> bool)
    ensures
        s.filter(g).filter(f) == s.filter(|t: u64| f(t) && g(t)),
    decreases s.len(),
{
    reveal(Seq::filter);
    if s.len() > 0 {
        lemma_filter_both(s.drop_last(), g, f);
        if g(s.last()) {
            let a = s.drop_last().filter(g);
            assert(a.push(s.last()).drop_last() =~= a);
        }
    }
}

proof fn lemma_tally_counted(m: Map<Seq<u8>, Seq<u64>>, f: spec_fn(u64) -> bool, now: u64)
    requires
        m.dom().finite(),
    ensures
        counted_devices(m, now).dom().finite(),
        tally(counted_devices(m, now), f) == tally(m, |t: u64| f(t) && in_window(t, now)),
    decreases m.dom().len(),
{
    let c = counted_devices(m, now);
    let both = |t: u64| f(t) && in_window(t, now);
    assert(c.dom().subset_of(m.dom()));
    vstd::set_lib::lemma_len_subset(c.dom(), m.dom());
    if m.dom().len() == 0 {
        assert(c.dom() =~= Set::empty());
    } else {
        let d = m.dom().choose();
        lemma_tally_remove(m, both, d);
        lemma_tally_counted(m.remove(d), f, now);
        let win = |at: u64| in_window(at, now);
        lemma_filter_both(m[d], win, f);
        assert(both =~= (|t: u64| f(t) && win(t)));
        assert(m[d].filter(both) == counted(m[d], now).filter(f));
        let cr = counted_devices(m.remove(d), now);
        if counted(m[d], now).len() > 0 {
            lemma_tally_remove(c, f, d);
            assert(c.remove(d) =~= cr);
        } else {
            assert(c =~= cr);
            reveal(Seq::filter);
            assert(counted(m[d], now).filter(f).len() == 0);
        }
    }
}

proof fn lemma_tally_len(m: Map<Seq<u8>, Seq<u64>>)
    requires
        m.dom().finite(),
        forall|d: Seq<u8>| #[trigger] m.contains_key(d) ==> m[d].len() > 0,
    ensures
        m.dom().len() <= tally(m, |t: u64| true),
    decreases m.dom().len(),
{
    let all = |t: u64| true;
    if m.dom().len() > 0 {
        let d = m.dom().choose();
        assert(m.contains_key(d));
        assert forall|e: Seq<u8>| #[trigger] m.remove(d).contains_key(e) implies m.remove(
            d,
        )[e].len() > 0 by {
            assert(m.contains_key(e));
        }
        lemma_tally_len(m.remove(d));
        lemma_filter_all(m[d]);
    }
}

proof fn lemma_filter_all(s: Seq<u64>)
    ensures
        s.filter(|t: u64| true) == s,
    decreases s.len(),
{
    reveal(Seq::filter);
    if s.len() > 0 {
        lemma_filter_all(s.drop_last());
        assert(s.drop_last().push(s.last()) =~= s);
    } else {
        assert(s.filter(|t: u64| true) =~= s);
    }
}

/// A new store is bounded.
pub proof fn law_new_is_bounded(max_certs_per_week: u32)
    ensures
        (StoreView { live: Map::empty(), issuances: Seq::empty(), per_device: Map::empty() }).bounded(
            max_certs_per_week,
        ),
{
    let s = StoreView {
        live: Map::<Seq<char>, LiveView>::empty(),
        issuances: Seq::<u64>::empty(),
        per_device: Map::<Seq<u8>, Seq<u64>>::empty(),
    };
    assert forall|f: spec_fn(u64) -> bool| #[trigger]
        tally(s.per_device, f) == s.issuances.filter(f).len() by {
        reveal(Seq::filter);
    }
}

/// Dropping what has run out keeps a store bounded.
pub proof fn law_prune_keeps_bounds(s: StoreView, max_certs_per_week: u32, now: u64)
    requires
        s.bounded(max_certs_per_week),
    ensures
        s.pruned(now).bounded(max_certs_per_week),
{
    let p = s.pruned(now);
    let win = |t: u64| in_window(t, now);
    s.issuances.lemma_filter_len(win);
    assert(p.live.dom().subset_of(s.live.dom()));
    vstd::set_lib::lemma_len_subset(p.live.dom(), s.live.dom());
    assert forall|d: Seq<u8>| #[trigger] p.per_device.contains_key(d) implies p.per_device[d].len()
        <= device_cap(max_certs_per_week) && p.per_device[d].len() > 0 by {
        assert(s.per_device.contains_key(d));
        s.per_device[d].lemma_filter_len(win);
    }
    lemma_tally_counted(s.per_device, win, now);
    assert forall|f: spec_fn(u64) -> bool| #[trigger]
        tally(p.per_device, f) == p.issuances.filter(f).len() by {
        let both = |t: u64| f(t) && in_window(t, now);
        lemma_tally_counted(s.per_device, f, now);
        lemma_filter_both(s.issuances, win, f);
        assert(both =~= (|t: u64| f(t) && win(t)));
        assert(tally(s.per_device, both) == s.issuances.filter(both).len());
    }
    assert forall|n: Seq<char>| #[trigger] p.live.contains_key(n) implies p.live[n].values.len()
        <= MAX_VALUES_PER_NAME && p.live[n].values.no_duplicates() by {
        assert(s.live.contains_key(n));
    }
}

proof fn lemma_added(
    live: Map<Seq<char>, LiveView>,
    s: StoreView,
    records: Seq<(Seq<char>, Seq<char>)>,
    expires_at: u64,
)
    requires
        s.live == live,
        live.dom().finite(),
        forall|n: Seq<char>| #[trigger]
            live.contains_key(n) ==> 0 < live[n].values.len() <= MAX_VALUES_PER_NAME
                && live[n].values.no_duplicates(),
    ensures
        added(live, records, expires_at).dom().finite(),
        added(live, records, expires_at).dom().len() <= live.dom().len() + s.fresh(records),
        forall|n: Seq<char>|
            live.contains_key(n) ==> #[trigger] added(live, records, expires_at).contains_key(n),
        forall|n: Seq<char>| #[trigger]
            added(live, records, expires_at).contains_key(n) ==> 0 < added(
                live,
                records,
                expires_at,
            )[n].values.len() <= MAX_VALUES_PER_NAME && added(
                live,
                records,
                expires_at,
            )[n].values.no_duplicates(),
    decreases records.len(),
{
    if records.len() > 0 {
        lemma_added(live, s, records.drop_last(), expires_at);
        let m = added(live, records.drop_last(), expires_at);
        let (name, value) = records.last();
        let values = if m.contains_key(name) {
            m[name].values
        } else {
            seq![]
        };
        let w = with_value(values, value);
        assert(w.len() > 0);
        assert(values.no_duplicates());
        assert(w.no_duplicates()) by {
            if !values.contains(value) {
                let base = if values.len() >= MAX_VALUES_PER_NAME {
                    values.skip(1)
                } else {
                    values
                };
                assert forall|i: int, j: int| 0 <= i < j < w.len() implies w[i] != w[j] by {
                    if j == w.len() - 1 {
                        assert(values.contains(base[i]));
                    }
                }
            }
        }
        assert(m.insert(name, LiveView { values: w, expires_at }).dom() =~= m.dom().insert(name));
    }
}

/// Posting an order keeps a store bounded, whatever the order and however it is answered.
pub proof fn law_publish_keeps_bounds(
    s: StoreView,
    max_certs_per_week: u32,
    device: Seq<u8>,
    records: Seq<(Seq<char>, Seq<char>)>,
    now: u64,
)
    requires
        s.bounded(max_certs_per_week),
    ensures
        published(s, max_certs_per_week, device, records, now).bounded(max_certs_per_week),
{
    law_prune_keeps_bounds(s, max_certs_per_week, now);
    let p = s.pruned(now);
    let q = published(s, max_certs_per_week, device, records, now);
    let expires_at = (now + CHALLENGE_TTL) as u64;
    if verdict(p, max_certs_per_week, device, records) is Err {
    } else if !novel(p, records) {
        assert(q.live.dom() =~= p.live.dom());
        assert forall|n: Seq<char>| #[trigger] q.live.contains_key(n) implies 0
            < q.live[n].values.len() <= MAX_VALUES_PER_NAME && q.live[n].values.no_duplicates() by {
            assert(p.live.contains_key(n));
        }
    } else {
        lemma_added(p.live, p, records, expires_at);
        let before = if p.per_device.contains_key(device) {
            p.per_device[device]
        } else {
            seq![]
        };
        assert forall|f: spec_fn(u64) -> bool| #[trigger]
            tally(q.per_device, f) == q.issuances.filter(f).len() by {
            lemma_tally_put(p.per_device, f, device, before, now);
            assert(tally(p.per_device, f) == p.issuances.filter(f).len());
            reveal(Seq::filter);
            assert(p.issuances.push(now).drop_last() =~= p.issuances);
        }
        assert forall|d: Seq<u8>| #[trigger]
            q.per_device.contains_key(d) implies q.per_device[d].len() <= device_cap(
            max_certs_per_week,
        ) && q.per_device[d].len() > 0 by {
            if d != device {
                assert(p.per_device.contains_key(d));
            }
        }
    }
}

/// No more devices are tracked than issuances were admitted, and no more of those than the weekly
/// budget.
pub proof fn law_devices_within_budget(s: StoreView, max_certs_per_week: u32)
    requires
        s.bounded(max_certs_per_week),
    ensures
        s.per_device.dom().len() <= s.issuances.len() <= max_certs_per_week,
{
    lemma_tally_len(s.per_device);
    let all = |t: u64| true;
    lemma_filter_all(s.issuances);
    assert(tally(s.per_device, all) == s.issuances.filter(all).len());
}

/// A refused order leaves nothing behind: no record, and no charge to anyone.
pub proof fn law_refusal_changes_nothing(
    s: StoreView,
    max_certs_per_week: u32,
    device: Seq<u8>,
    records: Seq<(Seq<char>, Seq<char>)>,
    now: u64,
)
    requires
        verdict(s.pruned(now), max_certs_per_week, device, records) is Err,
    ensures
        published(s, max_certs_per_week, device, records, now) == s.pruned(now),
{
}

/// An order is charged once, to its device and to the deployment, however many names it covers, and
/// no other device is charged.
pub proof fn law_charged_per_order(
    s: StoreView,
    max_certs_per_week: u32,
    device: Seq<u8>,
    records: Seq<(Seq<char>, Seq<char>)>,
    now: u64,
)
    requires
        verdict(s.pruned(now), max_certs_per_week, device, records) is Ok,
        novel(s.pruned(now), records),
    ensures
        ({
            let p = s.pruned(now);
            let q = published(s, max_certs_per_week, device, records, now);
            &&& q.issuances == p.issuances.push(now)
            &&& q.spent(device) == p.spent(device) + 1
            &&& forall|d: Seq<u8>| d != device ==> #[trigger] q.spent(d) == p.spent(d)
        }),
{
}

proof fn lemma_added_last(
    live: Map<Seq<char>, LiveView>,
    records: Seq<(Seq<char>, Seq<char>)>,
    expires_at: u64,
    i: int,
)
    requires
        0 <= i < records.len(),
        forall|j: int| i < j < records.len() ==> (#[trigger] records[j]).0 != records[i].0,
    ensures
        added(live, records, expires_at).contains_key(records[i].0),
        added(live, records, expires_at)[records[i].0].values.contains(records[i].1),
        added(live, records, expires_at)[records[i].0].expires_at == expires_at,
    decreases records.len(),
{
    if i == records.len() - 1 {
        let m = added(live, records.drop_last(), expires_at);
        let (name, value) = records.last();
        let values = if m.contains_key(name) {
            m[name].values
        } else {
            seq![]
        };
        let w = with_value(values, value);
        if !values.contains(value) {
            assert(w[w.len() - 1] == value);
        }
    } else {
        let prev = records.drop_last();
        assert forall|j: int| i < j < prev.len() implies (#[trigger] prev[j]).0 != prev[i].0 by {
            assert(records[j].0 != records[i].0);
        }
        lemma_added_last(live, prev, expires_at, i);
        assert(records[records.len() - 1].0 != records[i].0);
    }
}

/// What an admitted order posts last at a name is live, and stays so for the challenge's time to
/// live.
pub proof fn law_posted_is_live(
    s: StoreView,
    max_certs_per_week: u32,
    device: Seq<u8>,
    records: Seq<(Seq<char>, Seq<char>)>,
    now: u64,
    i: int,
    later: u64,
)
    requires
        now <= CLOCK_MAX,
        verdict(s.pruned(now), max_certs_per_week, device, records) is Ok,
        0 <= i < records.len(),
        forall|j: int| i < j < records.len() ==> (#[trigger] records[j]).0 != records[i].0,
        later < now + CHALLENGE_TTL,
    ensures
        published(s, max_certs_per_week, device, records, now).pruned(later).holds(
            records[i].0,
            records[i].1,
        ),
{
    let p = s.pruned(now);
    let expires_at = (now + CHALLENGE_TTL) as u64;
    if novel(p, records) {
        lemma_added_last(p.live, records, expires_at, i);
    } else {
        assert(p.holds(records[i].0, records[i].1));
        assert(names(records, records[i].0));
    }
}

/// Posting a live order again is free: it is admitted and charges nobody, and the order is live for
/// its time to live from then on. The names of the order are distinct.
pub proof fn law_reposting_is_free(
    s: StoreView,
    max_certs_per_week: u32,
    device: Seq<u8>,
    records: Seq<(Seq<char>, Seq<char>)>,
    now: u64,
    other: Seq<u8>,
    later: u64,
)
    requires
        now <= CLOCK_MAX,
        later <= CLOCK_MAX,
        verdict(s.pruned(now), max_certs_per_week, device, records) is Ok,
        forall|i: int, j: int|
            0 <= i < j < records.len() ==> (#[trigger] records[i]).0 != (#[trigger] records[j]).0,
        later < now + CHALLENGE_TTL,
    ensures
        ({
            let q = published(s, max_certs_per_week, device, records, now).pruned(later);
            let again = published(
                published(s, max_certs_per_week, device, records, now),
                max_certs_per_week,
                other,
                records,
                later,
            );
            &&& verdict(q, max_certs_per_week, other, records) is Ok
            &&& again.issuances == q.issuances
            &&& again.per_device == q.per_device
            &&& forall|n: Seq<char>| #[trigger]
                names(records, n) ==> again.live[n].expires_at == later + CHALLENGE_TTL
        }),
{
    let q = published(s, max_certs_per_week, device, records, now).pruned(later);
    assert forall|i: int| 0 <= i < records.len() implies q.holds(
        (#[trigger] records[i]).0,
        records[i].1,
    ) by {
        law_posted_is_live(s, max_certs_per_week, device, records, now, i, later);
    }
    assert(!novel(q, records));
    assert forall|n: Seq<char>| #[trigger] names(records, n) implies q.live.contains_key(n) by {
        let i = choose|i: int| 0 <= i < records.len() && (#[trigger] records[i]).0 == n;
        assert(q.holds(records[i].0, records[i].1));
    }
}

/// A posted challenge is read back: for as long as it is live, a TXT query for its name below the
/// apex is answered, authoritatively, with its value among the answers.
pub proof fn law_posted_is_answered(
    s: StoreView,
    max_certs_per_week: u32,
    device: Seq<u8>,
    records: Seq<(Seq<char>, Seq<char>)>,
    now: u64,
    i: int,
    later: u64,
    origin: wire::NameView,
    serial: u32,
    q: wire::QueryView,
)
    requires
        now <= CLOCK_MAX,
        verdict(s.pruned(now), max_certs_per_week, device, records) is Ok,
        0 <= i < records.len(),
        forall|j: int| i < j < records.len() ==> (#[trigger] records[j]).0 != records[i].0,
        later < now + CHALLENGE_TTL,
        asks_challenge(origin, q),
        q.questions[0].qtype == TYPE_TXT,
        challenge_key(q.questions[0].name) == records[i].0,
    ensures
        ({
            let live = published(s, max_certs_per_week, device, records, now).pruned(later).live;
            zone_reply(origin, serial, live, q) matches Some(r) && r.head.code == Rcode::NoError
                && r.head.authoritative && r.answers.contains(
                txt_record(q.questions[0].name, records[i].1),
            )
        }),
{
    law_posted_is_live(s, max_certs_per_week, device, records, now, i, later);
    let live = published(s, max_certs_per_week, device, records, now).pruned(later).live;
    let values = live[records[i].0].values;
    let k = choose|k: int| 0 <= k < values.len() && values[k] == records[i].1;
    let asked = q.questions[0].name;
    let ans = values.map_values(|v: Seq<char>| txt_record(asked, v));
    assert(ans[k] == txt_record(asked, records[i].1));
    assert(zone_reply(origin, serial, live, q)->0.answers == ans);
    assert(ans.contains(txt_record(asked, records[i].1)));
}

/// The zone publishes no address: no reply holds an address record.
pub proof fn law_no_addresses(
    origin: wire::NameView,
    serial: u32,
    live: Map<Seq<char>, LiveView>,
    q: wire::QueryView,
)
    ensures
        zone_reply(origin, serial, live, q) matches Some(r) ==> {
            &&& forall|k: int|
                0 <= k < r.answers.len() ==> (#[trigger] r.answers[k]).data !is Addr
            &&& forall|k: int|
                0 <= k < r.authorities.len() ==> (#[trigger] r.authorities[k]).data !is Addr
        },
{
}

/// Only a query draws a reply, which carries the query's number and its wish for recursion. Recursion
/// is never offered.
pub proof fn law_reply_is_to_the_query(
    origin: wire::NameView,
    serial: u32,
    live: Map<Seq<char>, LiveView>,
    q: wire::QueryView,
)
    ensures
        zone_reply(origin, serial, live, q) is None <==> q.is_reply,
        zone_reply(origin, serial, live, q) matches Some(r) ==> {
            &&& r.head.id == q.id
            &&& r.head.recursion_desired == q.recursion_desired
            &&& !r.head.recursion_available
        },
{
}

/// A question is refused if and only if it is not in the zone or asks for everything at once, and is
/// then told nothing. The server claims authority if and only if it is in the zone.
pub proof fn law_refuses_exactly(
    origin: wire::NameView,
    serial: u32,
    live: Map<Seq<char>, LiveView>,
    q: wire::QueryView,
)
    requires
        !q.is_reply,
        q.op_code == 0,
        q.questions.len() == 1,
    ensures
        zone_reply(origin, serial, live, q) matches Some(r) && {
            let inside = wire::within(origin, wire::lower_name(q.questions[0].name));
            &&& r.head.code == Rcode::Refused <==> !inside || amplifies(q.questions[0].qtype)
            &&& r.head.code == Rcode::Refused ==> r.answers.len() == 0 && r.authorities.len() == 0
            &&& r.head.authoritative <==> inside
        },
{
}

/// Outside its zone the server refuses and claims no authority.
pub proof fn law_refuses_outside(
    origin: wire::NameView,
    serial: u32,
    live: Map<Seq<char>, LiveView>,
    q: wire::QueryView,
)
    requires
        !q.is_reply,
        q.op_code == 0,
        q.questions.len() == 1,
        !wire::within(origin, wire::lower_name(q.questions[0].name)),
    ensures
        zone_reply(origin, serial, live, q) matches Some(r) && r.head.code == Rcode::Refused
            && !r.head.authoritative && r.answers.len() == 0 && r.authorities.len() == 0,
{
}

/// What is dropped is just what has run out: a record whose time has come, and an issuance of a week ago
/// or longer. All else is as it was.
pub proof fn law_only_what_ran_out_is_dropped(s: StoreView, now: u64)
    ensures
        ({
            let p = s.pruned(now);
            &&& forall|n: Seq<char>| #[trigger]
                p.live.contains_key(n) <==> s.live.contains_key(n) && s.live[n].expires_at > now
            &&& forall|n: Seq<char>| #[trigger] p.live.contains_key(n) ==> p.live[n] == s.live[n]
            &&& p.issuances == s.issuances.filter(|at: u64| now < at + 604_800_000)
            &&& forall|d: Seq<u8>| #[trigger]
                p.per_device.contains_key(d) <==> s.per_device.contains_key(d) && exists|i: int|
                    0 <= i < s.per_device[d].len() && now < #[trigger] s.per_device[d][i]
                        + 604_800_000
            &&& forall|d: Seq<u8>| #[trigger]
                p.per_device.contains_key(d) ==> p.per_device[d] == s.per_device[d].filter(
                    |at: u64| now < at + 604_800_000,
                )
        }),
{
    let win = |at: u64| in_window(at, now);
    let week = |at: u64| now < at + 604_800_000;
    assert(win =~= week);
    let p = s.pruned(now);
    assert forall|d: Seq<u8>| #[trigger]
        p.per_device.contains_key(d) <==> s.per_device.contains_key(d) && exists|i: int|
            0 <= i < s.per_device[d].len() && now < #[trigger] s.per_device[d][i] + 604_800_000 by {
        if s.per_device.contains_key(d) {
            lemma_filter_some(s.per_device[d], win);
            if s.per_device[d].filter(win).len() > 0 {
                let i = choose|i: int| 0 <= i < s.per_device[d].len() && win(
                    #[trigger] s.per_device[d][i],
                );
                assert(now < s.per_device[d][i] + 604_800_000);
            }
            if exists|i: int|
                0 <= i < s.per_device[d].len() && now < #[trigger] s.per_device[d][i] + 604_800_000 {
                let i = choose|i: int|
                    0 <= i < s.per_device[d].len() && now < #[trigger] s.per_device[d][i]
                        + 604_800_000;
                assert(win(s.per_device[d][i]));
            }
        }
    }
}

proof fn lemma_filter_some(s: Seq<u64>, p: spec_fn(u64) -> bool)
    ensures
        s.filter(p).len() > 0 <==> exists|i: int| 0 <= i < s.len() && p(#[trigger] s[i]),
    decreases s.len(),
{
    reveal(Seq::filter);
    if s.len() > 0 {
        let t = s.drop_last();
        lemma_filter_some(t, p);
        assert(s[s.len() - 1] == s.last());
        if exists|i: int| 0 <= i < t.len() && p(#[trigger] t[i]) {
            let i = choose|i: int| 0 <= i < t.len() && p(#[trigger] t[i]);
            assert(p(s[i]));
        }
        if exists|i: int| 0 <= i < s.len() && p(#[trigger] s[i]) {
            let i = choose|i: int| 0 <= i < s.len() && p(#[trigger] s[i]);
            if i < t.len() {
                assert(p(t[i]));
            }
        }
    }
}

proof fn lemma_added_elsewhere(
    live: Map<Seq<char>, LiveView>,
    records: Seq<(Seq<char>, Seq<char>)>,
    expires_at: u64,
    n: Seq<char>,
)
    requires
        !names(records, n),
    ensures
        added(live, records, expires_at).contains_key(n) <==> live.contains_key(n),
        live.contains_key(n) ==> added(live, records, expires_at)[n] == live[n],
    decreases records.len(),
{
    if records.len() > 0 {
        let t = records.drop_last();
        assert(records[records.len() - 1].0 != n);
        if names(t, n) {
            let i = choose|i: int| 0 <= i < t.len() && (#[trigger] t[i]).0 == n;
            assert(records[i].0 == n);
        }
        lemma_added_elsewhere(live, t, expires_at, n);
    }
}

/// An order touches only the names that it is for: what is live at any other is as it was.
pub proof fn law_order_touches_only_its_names(
    s: StoreView,
    max_certs_per_week: u32,
    device: Seq<u8>,
    records: Seq<(Seq<char>, Seq<char>)>,
    now: u64,
    n: Seq<char>,
)
    requires
        forall|i: int| 0 <= i < records.len() ==> (#[trigger] records[i]).0 != n,
    ensures
        ({
            let p = s.pruned(now);
            let q = published(s, max_certs_per_week, device, records, now);
            &&& q.live.contains_key(n) <==> p.live.contains_key(n)
            &&& p.live.contains_key(n) ==> q.live[n] == p.live[n]
        }),
{
    let p = s.pruned(now);
    assert(!names(records, n));
    lemma_added_elsewhere(p.live, records, (now + CHALLENGE_TTL) as u64, n);
}

/// An order is posted record by record, in order. Posting a value at a name leaves there the values that
/// were there before, in their order, and the new one behind them, where it was not there; when there
/// were eight, the oldest leaves.
pub proof fn law_posted_record_by_record(
    live: Map<Seq<char>, LiveView>,
    a: Seq<(Seq<char>, Seq<char>)>,
    b: Seq<(Seq<char>, Seq<char>)>,
    name: Seq<char>,
    value: Seq<char>,
    expires_at: u64,
)
    ensures
        added(live, a + b, expires_at) == added(added(live, a, expires_at), b, expires_at),
        ({
            let r = added(live, seq![(name, value)], expires_at);
            &&& r.contains_key(name)
            &&& r[name].expires_at == expires_at
            &&& !live.contains_key(name) ==> r[name].values == seq![value]
            &&& live.contains_key(name) && live[name].values.contains(value) ==> r[name].values
                == live[name].values
            &&& live.contains_key(name) && !live[name].values.contains(value)
                && live[name].values.len() < 8 ==> r[name].values == live[name].values.push(value)
            &&& live.contains_key(name) && !live[name].values.contains(value)
                && live[name].values.len() == 8 ==> r[name].values == live[name].values.subrange(
                1,
                8,
            ).push(value)
        }),
    decreases b.len(),
{
    reveal_with_fuel(added, 2);
    assert(seq![(name, value)].drop_last() =~= seq![]);
    let r = added(live, seq![(name, value)], expires_at);
    if !live.contains_key(name) {
        assert(r[name].values =~= seq![value]);
    } else if !live[name].values.contains(value) && live[name].values.len() == 8 {
        assert(live[name].values.skip(1) =~= live[name].values.subrange(1, 8));
    }
    if b.len() == 0 {
        assert(a + b =~= a);
    } else {
        law_posted_record_by_record(live, a, b.drop_last(), name, value, expires_at);
        assert((a + b).drop_last() =~= a + b.drop_last());
        assert((a + b).last() == b.last());
    }
}

/// When an order is refused, by a store that holds nothing that has run out. One that is live already
/// never is. One that is not is refused when its device has spent five issuances, or all that the
/// deployment has where that is fewer; else when the deployment has spent all of its own; else when more
/// than 4096 names would be live.
pub proof fn law_when_an_order_is_refused(
    s: StoreView,
    max_certs_per_week: u32,
    device: Seq<u8>,
    records: Seq<(Seq<char>, Seq<char>)>,
)
    ensures
        ({
            let is_live = forall|i: int|
                0 <= i < records.len() ==> s.live.contains_key((#[trigger] records[i]).0)
                    && s.live[records[i].0].values.contains(records[i].1);
            let mine: nat = if s.per_device.contains_key(device) {
                s.per_device[device].len()
            } else {
                0
            };
            let v = verdict(s, max_certs_per_week, device, records);
            &&& is_live ==> v is Ok
            &&& v == Err::<(), PublishError>(PublishError::DeviceBudgetExhausted) <==> !is_live && (
            mine >= 5 || mine >= max_certs_per_week)
            &&& v == Err::<(), PublishError>(PublishError::BudgetExhausted) <==> !is_live && mine < 5
                && mine < max_certs_per_week && s.issuances.len() >= max_certs_per_week
            &&& v == Err::<(), PublishError>(PublishError::TooManyLive) <==> !is_live && mine < 5
                && mine < max_certs_per_week && s.issuances.len() < max_certs_per_week
                && s.live.dom().len() + s.fresh(records) > 4096
        }),
{
    if novel(s, records) {
        let i = choose|i: int|
            0 <= i < records.len() && !s.holds((#[trigger] records[i]).0, records[i].1);
        assert(!(s.live.contains_key(records[i].0) && s.live[records[i].0].values.contains(
            records[i].1,
        )));
    } else {
        assert forall|i: int| 0 <= i < records.len() implies s.live.contains_key(
            (#[trigger] records[i]).0,
        ) && s.live[records[i].0].values.contains(records[i].1) by {
            assert(s.holds(records[i].0, records[i].1));
        }
    }
}

/// The names that an order would add are counted record by record: one for each that is not live.
pub proof fn law_fresh_names_are_counted(
    s: StoreView,
    a: Seq<(Seq<char>, Seq<char>)>,
    b: Seq<(Seq<char>, Seq<char>)>,
    r: (Seq<char>, Seq<char>),
)
    ensures
        s.fresh(a + b) == s.fresh(a) + s.fresh(b),
        s.fresh(seq![r]) == if s.live.contains_key(r.0) {
            0nat
        } else {
            1nat
        },
    decreases b.len(),
{
    assert(seq![r].drop_last() =~= seq![]);
    assert(s.fresh(seq![]) == 0);
    if b.len() == 0 {
        assert(a + b =~= a);
    } else {
        law_fresh_names_are_counted(s, a, b.drop_last(), r);
        assert((a + b).drop_last() =~= a + b.drop_last());
        assert((a + b).last() == b.last());
    }
}

/// What a query for a name below the apex draws. Where challenges are live at the name, a TXT query is
/// answered with each of their values, in order, as a record of the name as it was asked, to be kept for
/// a minute; any other draws no answer. Where none is, the name is denied. Whatever is not answered
/// carries the zone's authority record.
pub proof fn law_challenges_are_answered(
    origin: wire::NameView,
    serial: u32,
    live: Map<Seq<char>, LiveView>,
    q: wire::QueryView,
)
    requires
        asks_challenge(origin, q),
    ensures
        ({
            let asked = q.questions[0];
            let key = challenge_key(asked.name);
            &&& zone_reply(origin, serial, live, q) matches Some(r)
            &&& r.questions == seq![asked]
            &&& r.head.authoritative && !r.head.truncated && r.head.op_code == 0
            &&& if live.contains_key(key) && asked.qtype == 16 {
                &&& r.head.code == Rcode::NoError
                &&& r.authorities.len() == 0
                &&& r.answers.len() == live[key].values.len()
                &&& forall|k: int|
                    0 <= k < live[key].values.len() ==> (#[trigger] r.answers[k]).owner == asked.name
                        && r.answers[k].ttl == 60 && r.answers[k].data == wire::DataView::Text(
                        live[key].values[k],
                    )
            } else {
                &&& r.head.code == if live.contains_key(key) {
                    Rcode::NoError
                } else {
                    Rcode::NXDomain
                }
                &&& r.answers.len() == 0
                &&& r.authorities.len() == 1
                &&& r.authorities[0].owner == origin && r.authorities[0].ttl == 300
                &&& r.authorities[0].data == wire::DataView::Authority {
                    server: origin,
                    mailbox: mailbox(origin),
                    serial,
                    refresh: 300,
                    retry: 300,
                    expire: 604_800,
                    minimum: 300,
                }
            }
        }),
{
}

/// What a query for the apex draws: its authority record, or its server record, which names the apex, to
/// whoever asks for the one or the other; and to any other question no answer, but the authority record
/// beside it.
pub proof fn law_apex_is_answered(
    origin: wire::NameView,
    serial: u32,
    live: Map<Seq<char>, LiveView>,
    q: wire::QueryView,
)
    requires
        !q.is_reply,
        q.op_code == 0,
        q.questions.len() == 1,
        wire::within(origin, wire::lower_name(q.questions[0].name)),
        wire::same_name(wire::lower_name(q.questions[0].name), origin),
        q.questions[0].qtype != 255 && q.questions[0].qtype != 252 && q.questions[0].qtype != 251,
    ensures
        ({
            let soa = wire::AnswerView {
                owner: origin,
                ttl: 300,
                data: wire::DataView::Authority {
                    server: origin,
                    mailbox: mailbox(origin),
                    serial,
                    refresh: 300,
                    retry: 300,
                    expire: 604_800,
                    minimum: 300,
                },
            };
            let ns = wire::AnswerView { owner: origin, ttl: 300, data: wire::DataView::Server(origin) };
            let t = q.questions[0].qtype;
            &&& zone_reply(origin, serial, live, q) matches Some(r)
            &&& r.head.code == Rcode::NoError && r.head.authoritative
            &&& r.questions == seq![q.questions[0]]
            &&& r.answers == if t == 6 {
                seq![soa]
            } else if t == 2 {
                seq![ns]
            } else {
                seq![]
            }
            &&& r.authorities == if t == 6 || t == 2 {
                seq![]
            } else {
                seq![soa]
            }
        }),
{
}

/// What is no plain query for one thing is told so: an operation other than a query is not implemented,
/// and a query with no question or with several is malformed. Neither is told anything else.
pub proof fn law_only_plain_queries_are_served(
    origin: wire::NameView,
    serial: u32,
    live: Map<Seq<char>, LiveView>,
    q: wire::QueryView,
)
    requires
        !q.is_reply,
        q.op_code != 0 || q.questions.len() != 1,
    ensures
        zone_reply(origin, serial, live, q) matches Some(r) && r.head.code == (if q.op_code != 0 {
            Rcode::NotImp
        } else {
            Rcode::FormErr
        }) && r.head.op_code == q.op_code && r.questions.len() == 0 && r.answers.len() == 0
            && r.authorities.len() == 0,
{
}

/// A reply is sent whole over TCP, and in a datagram where it is no longer than 512 octets or than what
/// the asker takes; else it is sent without its records, marked as cut, so that the asker comes again
/// over TCP.
pub proof fn law_long_reply_is_cut(
    origin: wire::NameView,
    serial: u32,
    live: Map<Seq<char>, LiveView>,
    octets: Seq<u8>,
    q: wire::QueryView,
    r: wire::ReplyView,
    whole: Seq<u8>,
)
    requires
        wire::message_query(octets) == Some(q),
        zone_reply(origin, serial, live, q) == Some(r),
        wire::reply_octets(r) == Some(whole),
    ensures
        zone_response(origin, serial, live, octets, true) == Some(whole),
        whole.len() <= 512 || whole.len() <= q.max_payload ==> zone_response(
            origin,
            serial,
            live,
            octets,
            false,
        ) == Some(whole),
        whole.len() > 512 && whole.len() > q.max_payload ==> zone_response(
            origin,
            serial,
            live,
            octets,
            false,
        ) == wire::reply_octets(
            wire::ReplyView {
                head: Head { truncated: true, ..r.head },
                questions: r.questions,
                answers: seq![],
                authorities: seq![],
            },
        ),
{
}

/// The challenges of a name are kept under its text in lower case, without the dot that it may end in;
/// so the case that a name is asked for in does not matter.
pub proof fn law_challenges_are_kept_by_name(a: wire::NameView, b: wire::NameView, t: Seq<char>)
    ensures
        wire::name_text(wire::lower_name(a)) == t + seq!['.'] ==> challenge_key(a) == t,
        wire::name_text(wire::lower_name(a)) == t && (t.len() == 0 || t.last() != '.')
            ==> challenge_key(a) == t,
        wire::same_name(a, b) ==> challenge_key(a) == challenge_key(b),
{
    reveal_strlit(".");
    let s = t + seq!['.'];
    assert(s.skip(s.len() - 1) =~= "."@);
    assert(s.take(s.len() - 1) =~= t);
    if text::ends_with(t, "."@) {
        assert(t.skip(t.len() - 1)[0] == '.');
    }
}

} // verus!
