//! Membership versions, each within its scope.
//!
//! A client that waits for news says which version it has seen. Were there one version for the whole
//! deployment, every change anywhere would wake every client. So changes are counted for each scope:
//! a community, or a user, whose own devices meet across communities. A client's version is a hash
//! over the scopes that it takes part in, and a change elsewhere leaves it as it is.
use crate::assoc::{self, Assoc, Key};
use std::collections::hash_map::DefaultHasher;
use std::hash::Hasher;
use vstd::bytes::*;
use vstd::prelude::*;
use vstd::std_specs::hash::*;

verus! {

/// What a change of membership is scoped to.
#[derive(Clone, Copy, Debug, PartialEq, Eq, Structural)]
pub enum Scope {
    /// A community: devices joining or leaving any of its networks.
    Guild(u64),
    /// A user: the user's own devices, coming and going. They wake each other even when they share
    /// no community.
    User(u64),
}

impl View for Scope {
    type V = Scope;

    open spec fn view(&self) -> Scope {
        *self
    }
}

impl Key for Scope {
    fn same(&self, other: &Self) -> (r: bool) {
        *self == *other
    }
}

impl Scope {
    /// Which kind of scope it is.
    pub open spec fn tag(self) -> u8 {
        match self {
            Scope::Guild(_) => 0,
            Scope::User(_) => 1,
        }
    }

    /// Whose scope it is.
    pub open spec fn id(self) -> u64 {
        match self {
            Scope::Guild(g) => g,
            Scope::User(u) => u,
        }
    }

    /// Whether a scope comes before another: communities first, and lower numbers first.
    pub open spec fn before(self, other: Scope) -> bool {
        self.tag() < other.tag() || (self.tag() == other.tag() && self.id() < other.id())
    }

    fn tag_of(self) -> (r: u8)
        ensures
            r == self.tag(),
    {
        match self {
            Scope::Guild(_) => 0,
            Scope::User(_) => 1,
        }
    }

    fn id_of(self) -> (r: u64)
        ensures
            r == self.id(),
    {
        match self {
            Scope::Guild(g) => g,
            Scope::User(u) => u,
        }
    }

    fn is_before(self, other: Scope) -> (r: bool)
        ensures
            r == self.before(other),
    {
        let (a, b): (u8, u8) = (self.tag_of(), other.tag_of());
        a < b || (a == b && self.id_of() < other.id_of())
    }
}

/// The scopes that a client takes part in, each once and in order.
pub struct ScopeSet {
    pub items: Vec<Scope>,
}

/// Whether scopes stand in order, each once.
pub open spec fn ascending(s: Seq<Scope>) -> bool {
    forall|i: int, j: int| 0 <= i < j < s.len() ==> (#[trigger] s[i]).before(#[trigger] s[j])
}

impl View for ScopeSet {
    type V = Set<Scope>;

    open spec fn view(&self) -> Set<Scope> {
        self.items@.to_set()
    }
}

impl ScopeSet {
    /// The scopes stand in order, each once.
    pub open spec fn wf(&self) -> bool {
        ascending(self.items@)
    }

    /// No scopes.
    pub fn new() -> (r: ScopeSet)
        ensures
            r.wf(),
            r@ == Set::<Scope>::empty(),
    {
        let r = ScopeSet { items: Vec::new() };
        assert(r@ =~= Set::<Scope>::empty());
        r
    }

    /// Adds a scope. This is whether it was not there.
    pub fn insert(&mut self, s: Scope) -> (r: bool)
        requires
            old(self).wf(),
        ensures
            final(self).wf(),
            final(self)@ == old(self)@.insert(s),
            r == !old(self)@.contains(s),
    {
        let ghost was = self.items@;
        let mut i: usize = 0;
        while i < self.items.len() && self.items[i].is_before(s)
            invariant
                was == self.items@,
                i <= was.len(),
                forall|j: int| 0 <= j < i ==> (#[trigger] was[j]).before(s),
            decreases self.items.len() - i,
        {
            i += 1;
        }
        if i < self.items.len() && self.items[i] == s {
            assert(was[i as int] == s);
            assert(self@ =~= old(self)@.insert(s));
            return false;
        }
        assert(!was.contains(s)) by {
            if was.contains(s) {
                let k = choose|k: int| 0 <= k < was.len() && was[k] == s;
                if k > i {
                    assert(was[i as int].before(was[k]));
                }
            }
        }
        self.items.insert(i, s);
        proof {
            let now = self.items@;
            assert forall|x: int, y: int| 0 <= x < y < now.len() implies (
            #[trigger] now[x]).before(#[trigger] now[y]) by {
                let px = if x > i {
                    x - 1
                } else {
                    x
                };
                let py = if y > i {
                    y - 1
                } else {
                    y
                };
                if x != i && y != i {
                    assert(was[px].before(was[py]));
                } else if x == i {
                    assert(now[y] == was[py]);
                    if py > i {
                        assert(was[i as int].before(was[py]));
                    }
                }
            }
            assert forall|x: Scope| now.contains(x) <==> (was.contains(x) || x == s) by {
                if now.contains(x) {
                    let k = choose|k: int| 0 <= k < now.len() && now[k] == x;
                    if k < i {
                        assert(was[k] == x);
                    } else if k > i {
                        assert(was[k - 1] == x);
                    }
                }
                if was.contains(x) {
                    let k = choose|k: int| 0 <= k < was.len() && was[k] == x;
                    if k < i {
                        assert(now[k] == x);
                    } else {
                        assert(now[k + 1] == x);
                    }
                }
                assert(now[i as int] == s);
            }
            assert(self@ =~= old(self)@.insert(s));
        }
        true
    }

    /// The set of the scopes of a list.
    pub fn of(scopes: &Vec<Scope>) -> (r: ScopeSet)
        ensures
            r.wf(),
            r@ == scopes@.to_set(),
    {
        let mut r = ScopeSet::new();
        let mut i: usize = 0;
        assert(r@ =~= scopes@.take(0).to_set());
        while i < scopes.len()
            invariant
                i <= scopes.len(),
                r.wf(),
                r@ == scopes@.take(i as int).to_set(),
            decreases scopes.len() - i,
        {
            let ghost t = scopes@.take(i as int);
            let ghost u = scopes@.take(i + 1);
            r.insert(scopes[i]);
            proof {
                assert(u =~= t.push(scopes@[i as int]));
                assert forall|x: Scope| u.contains(x) <==> (t.contains(x) || x
                    == scopes@[i as int]) by {
                    if u.contains(x) {
                        let k = choose|k: int| 0 <= k < u.len() && u[k] == x;
                        if k < i {
                            assert(t[k] == x);
                        }
                    }
                    if t.contains(x) {
                        let k = choose|k: int| 0 <= k < t.len() && t[k] == x;
                        assert(u[k] == x);
                    }
                    assert(u[i as int] == scopes@[i as int]);
                }
                assert(t.to_set().insert(scopes@[i as int]) =~= u.to_set());
            }
            i += 1;
        }
        assert(scopes@.take(i as int) =~= scopes@);
        r
    }
}

/// A scope's counter, and how many wait on it.
pub struct Counter {
    pub value: u64,
    pub receivers: usize,
}

/// One who waits for a scope to change.
pub struct Receiver {
    pub scope: Scope,
    /// The version that was seen.
    pub seen: u64,
}

/// A counter for each scope, and one for the whole deployment. Counters are made when they are first
/// used, and stay.
pub struct Versions {
    pub scopes: Assoc<Scope, Counter>,
    /// Counts every batch of changes, for the operator.
    pub all: u64,
}

/// How often a scope changed.
pub open spec fn count(m: Map<Scope, Counter>, s: Scope) -> u64 {
    if m.contains_key(s) {
        m[s].value
    } else {
        0
    }
}

/// How many wait on a scope.
pub open spec fn waiting(m: Map<Scope, Counter>, s: Scope) -> usize {
    if m.contains_key(s) {
        m[s].receivers
    } else {
        0
    }
}

/// How many wait on all the scopes together.
pub open spec fn total(es: Seq<(Scope, Counter)>) -> nat
    decreases es.len(),
{
    if es.len() == 0 {
        0
    } else {
        total(es.drop_last()) + es.last().1.receivers as nat
    }
}

/// How often a scope occurs in a list.
pub open spec fn times(scopes: Seq<Scope>, s: Scope) -> nat
    decreases scopes.len(),
{
    if scopes.len() == 0 {
        0
    } else {
        times(scopes.drop_last(), s) + (if scopes.last() == s {
            1nat
        } else {
            0nat
        })
    }
}

/// What is hashed for a client: each of its scopes, with its counter.
pub open spec fn written(items: Seq<Scope>, m: Map<Scope, Counter>) -> Seq<Seq<u8>>
    decreases items.len(),
{
    if items.len() == 0 {
        seq![]
    } else {
        let s = items.last();
        written(items.drop_last(), m).push(seq![s.tag()]).push(spec_u64_to_le_bytes(s.id())).push(
            spec_u64_to_le_bytes(count(m, s)),
        )
    }
}

proof fn lemma_total_update(es: Seq<(Scope, Counter)>, i: int, e: (Scope, Counter))
    requires
        0 <= i < es.len(),
    ensures
        total(es.update(i, e)) == total(es) - es[i].1.receivers + e.1.receivers,
        es[i].1.receivers <= total(es),
    decreases es.len(),
{
    let t = es.drop_last();
    let u = es.update(i, e);
    if i < t.len() {
        lemma_total_update(t, i, e);
        assert(u.drop_last() =~= t.update(i, e));
        assert(u.last() == es.last());
    } else {
        assert(u.drop_last() =~= t);
    }
}

impl Versions {
    /// The counters are one for each scope, and those who wait can be counted.
    pub open spec fn wf(&self) -> bool {
        self.scopes.wf() && total(self.scopes.entries@) <= usize::MAX
    }

    /// Whether there is room for `n` more changes.
    pub open spec fn room(&self, n: nat) -> bool {
        &&& forall|s: Scope| #[trigger] count(self.scopes@, s) + n <= u64::MAX
        &&& n > 0 ==> self.all < u64::MAX
    }

    /// No change so far.
    pub fn new() -> (r: Versions)
        ensures
            r.wf(),
            r.scopes@ == Map::<Scope, Counter>::empty(),
            r.all == 0,
    {
        let r = Versions { scopes: Assoc::new(), all: 0 };
        assert(r.scopes.entries@.len() == 0) by {
            if r.scopes.entries@.len() > 0 {
                assoc::lemma_entry(r.scopes.entries@, 0);
            }
        }
        r
    }

    /// Where a scope's counter stands; it is made when it is first asked for.
    fn counter(&mut self, scope: Scope) -> (i: usize)
        requires
            old(self).wf(),
        ensures
            final(self).wf(),
            i < final(self).scopes.entries@.len(),
            final(self).scopes.entries@[i as int].0 == scope,
            final(self).all == old(self).all,
            final(self).scopes@.contains_key(scope),
            final(self).scopes@[scope] == final(self).scopes.entries@[i as int].1,
            total(final(self).scopes.entries@) == total(old(self).scopes.entries@),
            forall|s: Scope| #[trigger]
                count(final(self).scopes@, s) == count(old(self).scopes@, s),
            forall|s: Scope| #[trigger]
                waiting(final(self).scopes@, s) == waiting(old(self).scopes@, s),
    {
        if let Some(i) = self.scopes.find(&scope) {
            return i;
        }
        let ghost was = self.scopes.entries@;
        let c = Counter { value: 0, receivers: 0 };
        self.scopes.entries.push((scope, c));
        let ghost now = self.scopes.entries@;
        proof {
            assoc::lemma_pushed(was, scope, c);
            assert(now.drop_last() =~= was);
        }
        self.scopes.entries.len() - 1
    }

    /// Counts a change of every one of these scopes, and one for the deployment. Nothing is counted
    /// for no scopes: nothing changed, so nobody wakes.
    pub fn bump_all(&mut self, scopes: &Vec<Scope>)
        requires
            old(self).wf(),
            old(self).room(scopes@.len()),
        ensures
            final(self).wf(),
            forall|s: Scope| #[trigger]
                count(final(self).scopes@, s) == count(old(self).scopes@, s) + times(scopes@, s),
            forall|s: Scope| #[trigger]
                waiting(final(self).scopes@, s) == waiting(old(self).scopes@, s),
            final(self).all == old(self).all + if scopes@.len() > 0 {
                1int
            } else {
                0
            },
    {
        let ghost was = *self;
        let mut i: usize = 0;
        assert(scopes@.take(0).len() == 0);
        while i < scopes.len()
            invariant
                i <= scopes.len(),
                self.wf(),
                was.room(scopes@.len()),
                self.all == was.all,
                forall|s: Scope| #[trigger]
                    count(self.scopes@, s) == count(was.scopes@, s) + times(
                        scopes@.take(i as int),
                        s,
                    ),
                forall|s: Scope| #[trigger]
                    waiting(self.scopes@, s) == waiting(was.scopes@, s),
            decreases scopes.len() - i,
        {
            let s = scopes[i];
            let ghost so_far = scopes@.take(i as int);
            assert(scopes@.take(i + 1).drop_last() =~= so_far);
            assert(scopes@.take(i + 1).last() == s);
            proof {
                lemma_times(so_far, s);
                assert(count(was.scopes@, s) + scopes@.len() <= u64::MAX);
            }
            let at: usize = self.counter(s);
            assert(count(self.scopes@, s) == count(was.scopes@, s) + times(so_far, s));
            let ghost es = self.scopes.entries@;
            let ghost m = self.scopes@;
            let c = self.scopes.at(at);
            c.value = c.value + 1;
            proof {
                lemma_total_update(es, at as int, self.scopes.entries@[at as int]);
                assert forall|x: Scope| #[trigger]
                    count(self.scopes@, x) == count(was.scopes@, x) + times(
                        scopes@.take(i + 1),
                        x,
                    ) by {
                    assert(count(m, x) == count(was.scopes@, x) + times(so_far, x));
                }
                assert forall|x: Scope| #[trigger]
                    waiting(self.scopes@, x) == waiting(was.scopes@, x) by {
                    assert(waiting(m, x) == waiting(was.scopes@, x));
                }
            }
            i += 1;
        }
        assert(scopes@.take(i as int) =~= scopes@);
        if scopes.len() > 0 {
            self.all = self.all + 1;
        }
    }

    /// Counts a change of one scope.
    pub fn bump(&mut self, scope: Scope)
        requires
            old(self).wf(),
            old(self).room(1),
        ensures
            final(self).wf(),
            forall|s: Scope| #[trigger]
                count(final(self).scopes@, s) == count(old(self).scopes@, s) + if s == scope {
                    1int
                } else {
                    0
                },
            forall|s: Scope| #[trigger]
                waiting(final(self).scopes@, s) == waiting(old(self).scopes@, s),
            final(self).all == old(self).all + 1,
    {
        let mut one: Vec<Scope> = Vec::new();
        one.push(scope);
        let ghost v = one@;
        self.bump_all(&one);
        assert(v.drop_last() =~= seq![]);
        assert(v.last() == scope);
        assert forall|s: Scope| #[trigger] times(v, s) == if s == scope {
            1int
        } else {
            0
        } by {
            assert(times(v.drop_last(), s) == 0);
        }
    }

    /// Begins to wait for a scope to change.
    pub fn subscribe(&mut self, scope: Scope) -> (r: Receiver)
        requires
            old(self).wf(),
            total(old(self).scopes.entries@) < usize::MAX,
        ensures
            final(self).wf(),
            r.scope == scope,
            r.seen == count(old(self).scopes@, scope),
            final(self).all == old(self).all,
            forall|s: Scope| #[trigger]
                count(final(self).scopes@, s) == count(old(self).scopes@, s),
            forall|s: Scope| #[trigger]
                waiting(final(self).scopes@, s) == waiting(old(self).scopes@, s) + if s == scope {
                    1int
                } else {
                    0
                },
            total(final(self).scopes.entries@) == total(old(self).scopes.entries@) + 1,
    {
        let ghost was = self.scopes@;
        let at: usize = self.counter(scope);
        let ghost es = self.scopes.entries@;
        let ghost m = self.scopes@;
        proof {
            lemma_total_update(es, at as int, es[at as int]);
            assert(count(m, scope) == count(was, scope));
            assert(waiting(m, scope) == waiting(was, scope));
        }
        let c = self.scopes.at(at);
        let seen: u64 = c.value;
        c.receivers = c.receivers + 1;
        proof {
            lemma_total_update(es, at as int, self.scopes.entries@[at as int]);
            assert forall|x: Scope| #[trigger] count(self.scopes@, x) == count(was, x) by {
                assert(count(m, x) == count(was, x));
            }
            assert forall|x: Scope| #[trigger]
                waiting(self.scopes@, x) == waiting(was, x) + if x == scope {
                    1int
                } else {
                    0
                } by {
                assert(waiting(m, x) == waiting(was, x));
            }
        }
        Receiver { scope, seen }
    }

    /// Whether a scope changed since it was last seen.
    pub fn has_changed(&self, r: &Receiver) -> (b: bool)
        requires
            self.wf(),
        ensures
            b == (count(self.scopes@, r.scope) != r.seen),
    {
        self.current(r.scope) != r.seen
    }

    /// Ends a wait.
    pub fn unsubscribe(&mut self, r: Receiver)
        requires
            old(self).wf(),
            waiting(old(self).scopes@, r.scope) > 0,
        ensures
            final(self).wf(),
            final(self).all == old(self).all,
            forall|s: Scope| #[trigger]
                count(final(self).scopes@, s) == count(old(self).scopes@, s),
            forall|s: Scope| #[trigger]
                waiting(final(self).scopes@, s) == waiting(old(self).scopes@, s) - if s == r.scope {
                    1int
                } else {
                    0
                },
            total(final(self).scopes.entries@) == total(old(self).scopes.entries@) - 1,
    {
        let ghost was = self.scopes@;
        let at: usize = self.counter(r.scope);
        let ghost es = self.scopes.entries@;
        let ghost m = self.scopes@;
        assert(waiting(m, r.scope) == waiting(was, r.scope));
        let c = self.scopes.at(at);
        c.receivers = c.receivers - 1;
        proof {
            lemma_total_update(es, at as int, self.scopes.entries@[at as int]);
            assert forall|x: Scope| #[trigger] count(self.scopes@, x) == count(was, x) by {
                assert(count(m, x) == count(was, x));
            }
            assert forall|x: Scope| #[trigger]
                waiting(self.scopes@, x) == waiting(was, x) - if x == r.scope {
                    1int
                } else {
                    0
                } by {
                assert(waiting(m, x) == waiting(was, x));
            }
        }
    }

    fn current(&self, s: Scope) -> (r: u64)
        requires
            self.wf(),
        ensures
            r == count(self.scopes@, s),
    {
        match self.scopes.get(&s) {
            Some(c) => c.value,
            None => 0,
        }
    }

    /// A client's version: a hash over its scopes and their counters. A scope without a counter has
    /// seen no change.
    pub fn aggregate(&self, scopes: &ScopeSet) -> (r: u64)
        requires
            self.wf(),
        ensures
            r == DefaultHasher::spec_finish(written(scopes.items@, self.scopes@)),
    {
        let ghost items = scopes.items@;
        let mut h = DefaultHasher::new();
        let mut i: usize = 0;
        assert(h@ =~= written(items.take(0), self.scopes@));
        while i < scopes.items.len()
            invariant
                self.wf(),
                items == scopes.items@,
                i <= items.len(),
                h@ == written(items.take(i as int), self.scopes@),
            decreases scopes.items.len() - i,
        {
            let s = scopes.items[i];
            assert(items.take(i + 1).drop_last() =~= items.take(i as int));
            let mut tag: Vec<u8> = Vec::new();
            tag.push(s.tag_of());
            assert(tag@ =~= seq![s.tag()]);
            let id = u64_to_le_bytes(s.id_of());
            let value = u64_to_le_bytes(self.current(s));
            h.write(tag.as_slice());
            h.write(id.as_slice());
            h.write(value.as_slice());
            i += 1;
        }
        assert(items.take(i as int) =~= items);
        h.finish()
    }

    /// How many batches of changes there were in the deployment.
    pub fn global(&self) -> (r: u64)
        ensures
            r == self.all,
    {
        self.all
    }

    /// Begins to wait for any change in the deployment: this is the version seen.
    pub fn subscribe_global(&self) -> (r: u64)
        ensures
            r == self.all,
    {
        self.all
    }

    /// How many wait, over all the scopes. A client waits on its user and on each of its communities,
    /// so that this tells how busy it is, and is no count of clients.
    pub fn waiters(&self) -> (r: usize)
        requires
            self.wf(),
        ensures
            r == total(self.scopes.entries@),
    {
        let ghost es = self.scopes.entries@;
        let mut sum: usize = 0;
        let mut i: usize = 0;
        while i < self.scopes.entries.len()
            invariant
                es == self.scopes.entries@,
                i <= es.len(),
                total(es) <= usize::MAX,
                sum == total(es.take(i as int)),
            decreases self.scopes.entries.len() - i,
        {
            assert(es.take(i + 1).drop_last() =~= es.take(i as int));
            proof {
                lemma_total_take(es, i + 1);
            }
            sum = sum + self.scopes.entries[i].1.receivers;
            i += 1;
        }
        assert(es.take(i as int) =~= es);
        sum
    }
}

proof fn lemma_times(s: Seq<Scope>, x: Scope)
    ensures
        times(s, x) <= s.len(),
    decreases s.len(),
{
    if s.len() > 0 {
        lemma_times(s.drop_last(), x);
    }
}

proof fn lemma_total_take(es: Seq<(Scope, Counter)>, i: int)
    requires
        0 <= i <= es.len(),
    ensures
        total(es.take(i)) <= total(es),
    decreases es.len(),
{
    if i < es.len() {
        lemma_total_take(es.drop_last(), i);
        assert(es.drop_last().take(i) =~= es.take(i));
    } else {
        assert(es.take(i) =~= es);
    }
}

/// A change in scopes that a client takes no part in leaves its version as it is: it does not wake.
pub proof fn law_change_elsewhere_is_not_seen(
    items: Seq<Scope>,
    before: Map<Scope, Counter>,
    after: Map<Scope, Counter>,
)
    requires
        forall|i: int|
            0 <= i < items.len() ==> count(before, #[trigger] items[i]) == count(
                after,
                items[i],
            ),
    ensures
        written(items, before) == written(items, after),
        DefaultHasher::spec_finish(written(items, before)) == DefaultHasher::spec_finish(
            written(items, after),
        ),
    decreases items.len(),
{
    if items.len() > 0 {
        let t = items.drop_last();
        assert forall|i: int| 0 <= i < t.len() implies count(before, #[trigger] t[i]) == count(
            after,
            t[i],
        ) by {
            assert(t[i] == items[i]);
        }
        law_change_elsewhere_is_not_seen(t, before, after);
        assert(items.last() == items[items.len() - 1]);
    }
}

proof fn lemma_written_len(items: Seq<Scope>, m: Map<Scope, Counter>)
    ensures
        written(items, m).len() == 3 * items.len(),
    decreases items.len(),
{
    if items.len() > 0 {
        lemma_written_len(items.drop_last(), m);
    }
}

/// A client's version is made from all that matters to it, and tells everything of that apart: what
/// is hashed is the same only for the same scopes with the same counters. A changed counter and a
/// changed set of scopes both show in it.
pub proof fn law_own_change_is_hashed(
    a: Seq<Scope>,
    before: Map<Scope, Counter>,
    b: Seq<Scope>,
    after: Map<Scope, Counter>,
)
    requires
        written(a, before) == written(b, after),
    ensures
        a == b,
        forall|i: int|
            0 <= i < a.len() ==> count(before, #[trigger] a[i]) == count(after, a[i]),
    decreases a.len(),
{
    lemma_written_len(a, before);
    lemma_written_len(b, after);
    if a.len() > 0 {
        let (t, u) = (a.drop_last(), b.drop_last());
        let (x, y) = (a.last(), b.last());
        let (wa, wb) = (written(a, before), written(b, after));
        let n = wa.len();
        lemma_written_len(t, before);
        lemma_written_len(u, after);
        assert(written(t, before) =~= wa.take(n - 3));
        assert(written(u, after) =~= wb.take(n - 3));
        law_own_change_is_hashed(t, before, u, after);
        assert(wa[n - 3] == seq![x.tag()]);
        assert(wb[n - 3] == seq![y.tag()]);
        assert(seq![x.tag()][0] == seq![y.tag()][0]);
        assert(wa[n - 2] == spec_u64_to_le_bytes(x.id()));
        assert(wb[n - 2] == spec_u64_to_le_bytes(y.id()));
        assert(wa[n - 1] == spec_u64_to_le_bytes(count(before, x)));
        assert(wb[n - 1] == spec_u64_to_le_bytes(count(after, y)));
        lemma_auto_spec_u64_to_from_le_bytes();
        assert(x == y);
        assert(a =~= t.push(x));
        assert(b =~= u.push(y));
        assert forall|i: int| 0 <= i < a.len() implies count(before, #[trigger] a[i]) == count(
            after,
            a[i],
        ) by {
            if i < t.len() {
                assert(a[i] == t[i]);
            }
        }
    } else {
        assert(a =~= b);
    }
}

/// The version does not depend on how the scopes were listed: a set has one order.
pub proof fn law_set_has_one_order(a: Seq<Scope>, b: Seq<Scope>)
    requires
        ascending(a),
        ascending(b),
        a.to_set() == b.to_set(),
    ensures
        a == b,
    decreases a.len(),
{
    if a.len() == 0 {
        if b.len() > 0 {
            assert(b.to_set().contains(b[0]));
            assert(a.contains(b[0]));
        }
        assert(a =~= b);
    } else {
        assert(a.to_set().contains(a.last()));
        assert(b.contains(a.last()));
        assert(b.len() > 0);
        assert(b.to_set().contains(b.last()));
        assert(a.contains(b.last()));
        let i = choose|i: int| 0 <= i < b.len() && b[i] == a.last();
        let j = choose|j: int| 0 <= j < a.len() && a[j] == b.last();
        if i < b.len() - 1 && j < a.len() - 1 {
            assert(b[i].before(b[b.len() - 1]));
            assert(a[j].before(a[a.len() - 1]));
        }
        assert(a.last() == b.last());
        let (t, u) = (a.drop_last(), b.drop_last());
        assert forall|x: Scope| t.to_set().contains(x) == u.to_set().contains(x) by {
            lemma_dropped(a, x);
            lemma_dropped(b, x);
            assert(a.to_set().contains(x) == a.contains(x));
            assert(b.to_set().contains(x) == b.contains(x));
            assert(t.to_set().contains(x) == t.contains(x));
            assert(u.to_set().contains(x) == u.contains(x));
        }
        assert(t.to_set() =~= u.to_set());
        law_set_has_one_order(t, u);
        assert(a =~= t.push(a.last()));
        assert(b =~= u.push(b.last()));
    }
}

proof fn lemma_dropped(a: Seq<Scope>, x: Scope)
    requires
        ascending(a),
        a.len() > 0,
    ensures
        a.drop_last().contains(x) == (a.contains(x) && x != a.last()),
{
    let t = a.drop_last();
    if t.contains(x) {
        let k = choose|k: int| 0 <= k < t.len() && t[k] == x;
        assert(a[k] == x);
        assert(a[k].before(a[a.len() - 1]));
    }
    if a.contains(x) && x != a.last() {
        let k = choose|k: int| 0 <= k < a.len() && a[k] == x;
        assert(t[k] == x);
    }
}

/// A change counts once for each time that its scope is named, and for no other scope.
pub proof fn law_counted_as_often_as_named(a: Seq<Scope>, b: Seq<Scope>, x: Scope, s: Scope)
    ensures
        times(seq![], s) == 0,
        times(seq![x], s) == if x == s {
            1nat
        } else {
            0nat
        },
        times(a + b, s) == times(a, s) + times(b, s),
    decreases b.len(),
{
    assert(seq![x].drop_last() =~= seq![]);
    assert(times(seq![x].drop_last(), s) == 0);
    if b.len() == 0 {
        assert(a + b =~= a);
    } else {
        law_counted_as_often_as_named(a, b.drop_last(), x, s);
        assert((a + b).drop_last() =~= a + b.drop_last());
    }
}

/// All that wait are counted: those on every scope together.
pub proof fn law_all_that_wait_are_counted(
    a: Seq<(Scope, Counter)>,
    b: Seq<(Scope, Counter)>,
    e: (Scope, Counter),
)
    ensures
        total(seq![]) == 0,
        total(seq![e]) == e.1.receivers,
        total(a + b) == total(a) + total(b),
    decreases b.len(),
{
    assert(seq![e].drop_last() =~= seq![]);
    assert(total(seq![e].drop_last()) == 0);
    if b.len() == 0 {
        assert(a + b =~= a);
    } else {
        law_all_that_wait_are_counted(a, b.drop_last(), e);
        assert((a + b).drop_last() =~= a + b.drop_last());
    }
}

/// What a client's version is made of: of each of its scopes in turn, which kind it is, whose it is, and
/// how often it changed; a scope that never changed counts as zero.
pub proof fn law_what_a_version_is_made_of(
    a: Seq<Scope>,
    b: Seq<Scope>,
    g: u64,
    m: Map<Scope, Counter>,
)
    ensures
        written(seq![], m) == Seq::<Seq<u8>>::empty(),
        written(seq![Scope::Guild(g)], m) == seq![
            seq![0u8],
            spec_u64_to_le_bytes(g),
            spec_u64_to_le_bytes(
                if m.contains_key(Scope::Guild(g)) {
                    m[Scope::Guild(g)].value
                } else {
                    0
                },
            ),
        ],
        written(seq![Scope::User(g)], m) == seq![
            seq![1u8],
            spec_u64_to_le_bytes(g),
            spec_u64_to_le_bytes(
                if m.contains_key(Scope::User(g)) {
                    m[Scope::User(g)].value
                } else {
                    0
                },
            ),
        ],
        written(a + b, m) == written(a, m) + written(b, m),
    decreases b.len(),
{
    let one = seq![Scope::Guild(g)];
    let two = seq![Scope::User(g)];
    assert(one.drop_last() =~= seq![]);
    assert(two.drop_last() =~= seq![]);
    assert(written(seq![], m) =~= Seq::<Seq<u8>>::empty());
    assert(written(one, m) =~= seq![
        seq![0u8],
        spec_u64_to_le_bytes(g),
        spec_u64_to_le_bytes(count(m, Scope::Guild(g))),
    ]);
    assert(written(two, m) =~= seq![
        seq![1u8],
        spec_u64_to_le_bytes(g),
        spec_u64_to_le_bytes(count(m, Scope::User(g))),
    ]);
    if b.len() == 0 {
        assert(a + b =~= a);
        assert(written(a, m) + written(b, m) =~= written(a, m));
    } else {
        law_what_a_version_is_made_of(a, b.drop_last(), g, m);
        assert((a + b).drop_last() =~= a + b.drop_last());
        assert(written(a + b, m) =~= written(a, m) + written(b, m));
    }
}

/// Scopes stand in one order: those of communities before those of users, and each kind by number.
pub proof fn law_order_of_scopes(a: u64, b: u64)
    ensures
        Scope::Guild(a).before(Scope::User(b)),
        !Scope::User(a).before(Scope::Guild(b)),
        Scope::Guild(a).before(Scope::Guild(b)) <==> a < b,
        Scope::User(a).before(Scope::User(b)) <==> a < b,
{
}

} // verus!
