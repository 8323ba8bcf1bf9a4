//! An association list whose contract is a mathematical map.
use vstd::prelude::*;

verus! {

/// A key that can be compared for equality of its view.
pub trait Key: View + Sized {
    fn same(&self, other: &Self) -> (r: bool)
        ensures
            r == (self@ == other@),
    ;
}

impl Key for String {
    fn same(&self, other: &Self) -> (r: bool) {
        *self == *other
    }
}

impl Key for u64 {
    fn same(&self, other: &Self) -> (r: bool) {
        *self == *other
    }
}

impl Key for u32 {
    fn same(&self, other: &Self) -> (r: bool) {
        *self == *other
    }
}

impl Key for (u64, u64) {
    fn same(&self, other: &Self) -> (r: bool) {
        self.0 == other.0 && self.1 == other.1
    }
}

/// A public key.
pub type PubKey = [u8; 32];

/// Whether two 32-byte keys hold the same bytes.
pub fn same_key(a: &[u8; 32], b: &[u8; 32]) -> (r: bool)
    ensures
        r == (a@ == b@),
{
    let mut i: usize = 0;
    while i < 32
        invariant
            i <= 32,
            forall|j: int| 0 <= j < i ==> a@[j] == b@[j],
        decreases 32 - i,
    {
        if a[i] != b[i] {
            return false;
        }
        i += 1;
    }
    assert(a@ =~= b@);
    true
}

impl Key for [u8; 32] {
    fn same(&self, other: &Self) -> (r: bool) {
        same_key(self, other)
    }
}

/// A map held as a list of entries with distinct keys.
pub struct Assoc<K, V> {
    pub entries: Vec<(K, V)>,
}

/// No two entries have the same key.
pub open spec fn distinct<K: Key, V>(s: Seq<(K, V)>) -> bool {
    forall|i: int, j: int| 0 <= i < j < s.len() ==> (#[trigger] s[i]).0@ != (#[trigger] s[j]).0@
}

/// An entry of `s` has this key.
pub open spec fn has_key<K: Key, V>(s: Seq<(K, V)>, k: K::V) -> bool {
    exists|i: int| 0 <= i < s.len() && (#[trigger] s[i]).0@ == k
}

/// Where the entry with this key stands.
pub open spec fn key_at<K: Key, V>(s: Seq<(K, V)>, k: K::V) -> int {
    choose|i: int| 0 <= i < s.len() && (#[trigger] s[i]).0@ == k
}

/// The map that a list of entries stands for.
pub open spec fn map_of<K: Key, V>(s: Seq<(K, V)>) -> Map<K::V, V> {
    Map::new(|k: K::V| has_key(s, k), |k: K::V| s[key_at(s, k)].1)
}

/// In a list with distinct keys, each entry is what the map holds at its key.
pub proof fn lemma_entry<K: Key, V>(s: Seq<(K, V)>, i: int)
    requires
        distinct(s),
        0 <= i < s.len(),
    ensures
        map_of(s).contains_key(s[i].0@),
        map_of(s)[s[i].0@] == s[i].1,
        key_at(s, s[i].0@) == i,
{
    let k = s[i].0@;
    assert(has_key(s, k));
    let j = key_at(s, k);
    if j < i {
        assert(s[j].0@ != s[i].0@);
    } else if i < j {
        assert(s[i].0@ != s[j].0@);
    }
}

/// The map has as many keys as the list has entries.
pub proof fn lemma_len<K: Key, V>(s: Seq<(K, V)>)
    requires
        distinct(s),
    ensures
        map_of(s).dom().finite(),
        map_of(s).dom().len() == s.len(),
    decreases s.len(),
{
    if s.len() == 0 {
        assert(map_of(s).dom() =~= Set::empty());
    } else {
        let t = s.drop_last();
        lemma_len(t);
        assert(!has_key(t, s.last().0@)) by {
            if has_key(t, s.last().0@) {
                let i = key_at(t, s.last().0@);
                assert(s[i].0@ != s[s.len() - 1].0@);
            }
        }
        assert(map_of(s).dom() =~= map_of(t).dom().insert(s.last().0@)) by {
            assert forall|k: K::V| #[trigger] has_key(s, k) <==> (has_key(t, k) || k
                == s.last().0@) by {
                if has_key(s, k) {
                    let i = key_at(s, k);
                    if i < t.len() {
                        assert(t[i].0@ == k);
                    }
                }
                if has_key(t, k) {
                    let i = key_at(t, k);
                    assert(s[i].0@ == k);
                }
                if k == s.last().0@ {
                    assert(s[s.len() - 1].0@ == k);
                }
            }
        }
    }
}

impl<K: Key, V> View for Assoc<K, V> {
    type V = Map<K::V, V>;

    open spec fn view(&self) -> Map<K::V, V> {
        map_of(self.entries@)
    }
}

impl<K: Key, V> Assoc<K, V> {
    /// The keys are distinct.
    pub open spec fn wf(&self) -> bool {
        distinct(self.entries@)
    }

    /// The map with no entries.
    pub fn new() -> (r: Self)
        ensures
            r.wf(),
            r@ == Map::<K::V, V>::empty(),
    {
        let r = Assoc { entries: Vec::new() };
        assert(r@ =~= Map::<K::V, V>::empty());
        r
    }

    /// How many keys there are.
    pub fn len(&self) -> (n: usize)
        requires
            self.wf(),
        ensures
            n == self@.dom().len(),
            n == self.entries@.len(),
            self@.dom().finite(),
    {
        proof {
            lemma_len(self.entries@);
        }
        self.entries.len()
    }

    /// The index of the entry with this key.
    pub fn find(&self, k: &K) -> (r: Option<usize>)
        requires
            self.wf(),
        ensures
            match r {
                Some(i) => {
                    &&& i < self.entries@.len()
                    &&& self.entries@[i as int].0@ == k@
                    &&& self@.contains_key(k@)
                    &&& self@[k@] == self.entries@[i as int].1
                },
                None => !self@.contains_key(k@),
            },
    {
        let mut i: usize = 0;
        while i < self.entries.len()
            invariant
                self.wf(),
                i <= self.entries.len(),
                forall|j: int| 0 <= j < i ==> (#[trigger] self.entries@[j]).0@ != k@,
            decreases self.entries.len() - i,
        {
            if self.entries[i].0.same(k) {
                proof {
                    lemma_entry(self.entries@, i as int);
                }
                return Some(i);
            }
            i += 1;
        }
        None
    }

    /// Whether there is an entry with this key.
    pub fn contains(&self, k: &K) -> (r: bool)
        requires
            self.wf(),
        ensures
            r == self@.contains_key(k@),
    {
        self.find(k).is_some()
    }

    /// The value at this key.
    pub fn get(&self, k: &K) -> (r: Option<&V>)
        requires
            self.wf(),
        ensures
            match r {
                Some(v) => self@.contains_key(k@) && self@[k@] == *v,
                None => !self@.contains_key(k@),
            },
    {
        match self.find(k) {
            Some(i) => Some(&self.entries[i].1),
            None => None,
        }
    }

    /// The value of the entry at an index, to be changed in place.
    pub fn at(&mut self, i: usize) -> (v: &mut V)
        requires
            old(self).wf(),
            i < old(self).entries@.len(),
        ensures
            *v == old(self).entries@[i as int].1,
            final(self).wf(),
            final(self)@ == old(self)@.insert(old(self).entries@[i as int].0@, *final(v)),
            final(self).entries@ == old(self).entries@.update(
                i as int,
                (old(self).entries@[i as int].0, *final(v)),
            ),
    {
        let ghost s = self.entries@;
        proof {
            assert forall|x: V| #[trigger]
                map_of(s.update(i as int, (s[i as int].0, x))) == map_of(s).insert(s[i as int].0@, x)
                && distinct(s.update(i as int, (s[i as int].0, x))) by {
                lemma_replaced(s, i as int, s[i as int].0, x);
            }
        }
        &mut self.entries[i].1
    }

    /// Puts `v` at `k`, replacing what was there.
    pub fn insert(&mut self, k: K, v: V)
        requires
            old(self).wf(),
        ensures
            final(self).wf(),
            final(self)@ == old(self)@.insert(k@, v),
    {
        let ghost s = self.entries@;
        match self.find(&k) {
            Some(i) => {
                self.entries.set(i, (k, v));
                proof {
                    lemma_replaced(s, i as int, k, v);
                }
            },
            None => {
                self.entries.push((k, v));
                proof {
                    lemma_pushed(s, k, v);
                }
            },
        }
    }

    /// Takes out the entry with this key, if there is one.
    pub fn remove(&mut self, k: &K) -> (r: bool)
        requires
            old(self).wf(),
        ensures
            final(self).wf(),
            final(self)@ == old(self)@.remove(k@),
            r == old(self)@.contains_key(k@),
    {
        let ghost s = self.entries@;
        match self.find(k) {
            Some(i) => {
                self.entries.remove(i);
                proof {
                    lemma_removed(s, i as int);
                }
                true
            },
            None => {
                assert(self@ =~= old(self)@.remove(k@));
                false
            },
        }
    }
}

/// The entries of a map that satisfy a predicate.
pub open spec fn retained<A, B>(m: Map<A, B>, p: spec_fn(A, B) -> bool) -> Map<A, B> {
    Map::new(|k: A| m.contains_key(k) && p(k, m[k]), |k: A| m[k])
}

proof fn lemma_retained_step<A, B>(m: Map<A, B>, p: spec_fn(A, B) -> bool, k: A, v: B)
    requires
        !m.contains_key(k),
    ensures
        retained(m.insert(k, v), p) == (if p(k, v) {
            retained(m, p).insert(k, v)
        } else {
            retained(m, p)
        }),
{
    let a = retained(m.insert(k, v), p);
    let b = if p(k, v) {
        retained(m, p).insert(k, v)
    } else {
        retained(m, p)
    };
    assert forall|x: A| #[trigger] a.contains_key(x) <==> b.contains_key(x) by {
        if x != k && m.contains_key(x) {
            assert(m.insert(k, v)[x] == m[x]);
        }
    }
    assert(a =~= b);
}

impl<K: Key, V> Assoc<K, V> {
    /// Keeps the entries that satisfy a predicate.
    pub(crate) fn retain<F: Fn(&K, &V) -> bool>(
        &mut self,
        f: F,
        p: Ghost<spec_fn(K::V, V) -> bool>,
    )
        requires
            old(self).wf(),
            forall|k: K, v: V| #[trigger] f.requires((&k, &v)),
            forall|k: K, v: V, b: bool| #[trigger] f.ensures((&k, &v), b) ==> b == p@(k@, v),
        ensures
            final(self).wf(),
            final(self)@ == retained(old(self)@, p@),
    {
        let ghost s = self.entries@;
        let mut rest: Vec<(K, V)> = Vec::new();
        std::mem::swap(&mut rest, &mut self.entries);
        let mut out: Assoc<K, V> = Assoc::new();
        let ghost mut i: int = 0;
        assert(retained(map_of(s.take(0)), p@) =~= Map::empty());
        while rest.len() > 0
            invariant
                distinct(s),
                0 <= i <= s.len(),
                rest@ == s.skip(i),
                out.wf(),
                out@ == retained(map_of(s.take(i)), p@),
                forall|k: K, v: V| #[trigger] f.requires((&k, &v)),
                forall|k: K, v: V, b: bool| #[trigger] f.ensures((&k, &v), b) ==> b == p@(k@, v),
            decreases rest.len(),
        {
            let (k, v) = rest.remove(0);
            proof {
                assert(s.take(i + 1) =~= s.take(i).push(s[i]));
                lemma_prefix(s, i);
                lemma_pushed(s.take(i), s[i].0, s[i].1);
                assert(s.skip(i).remove(0) =~= s.skip(i + 1));
                lemma_retained_step(map_of(s.take(i)), p@, k@, v);
                i = i + 1;
            }
            if f(&k, &v) {
                out.insert(k, v);
            }
        }
        assert(s.take(i) =~= s);
        self.entries = out.entries;
    }
}

/// In a list with distinct keys, an entry's key does not occur before it.
pub proof fn lemma_prefix<K: Key, V>(s: Seq<(K, V)>, k: int)
    requires
        distinct(s),
        0 <= k < s.len(),
    ensures
        distinct(s.take(k)),
        !map_of(s.take(k)).contains_key(s[k].0@),
{
    let t = s.take(k);
    assert forall|i: int, j: int| 0 <= i < j < t.len() implies (#[trigger] t[i]).0@ != (
    #[trigger] t[j]).0@ by {
        assert(s[i].0@ != s[j].0@);
    }
    if has_key(t, s[k].0@) {
        let i = key_at(t, s[k].0@);
        assert(s[i].0@ != s[k].0@);
    }
}

/// Replacing the value of an entry is an insertion at its key.
pub proof fn lemma_replaced<K: Key, V>(s: Seq<(K, V)>, i: int, k: K, v: V)
    requires
        distinct(s),
        0 <= i < s.len(),
        s[i].0@ == k@,
    ensures
        distinct(s.update(i, (k, v))),
        map_of(s.update(i, (k, v))) == map_of(s).insert(k@, v),
{
    let t = s.update(i, (k, v));
    assert forall|a: int, b: int| 0 <= a < b < t.len() implies (#[trigger] t[a]).0@ != (
    #[trigger] t[b]).0@ by {
        assert(t[a].0@ == s[a].0@);
        assert(t[b].0@ == s[b].0@);
    }
    assert forall|x: K::V| #[trigger] has_key(t, x) <==> has_key(s, x) by {
        if has_key(t, x) {
            assert(s[key_at(t, x)].0@ == x);
        }
        if has_key(s, x) {
            assert(t[key_at(s, x)].0@ == x);
        }
    }
    lemma_entry(s, i);
    assert forall|x: K::V| has_key(s, x) implies #[trigger] map_of(t)[x] == map_of(s).insert(
        k@,
        v,
    )[x] by {
        let j = key_at(s, x);
        lemma_entry(t, j);
        lemma_entry(s, j);
        if x == k@ {
            assert(j == i);
        }
    }
    assert(map_of(t) =~= map_of(s).insert(k@, v));
}

/// Appending an entry with a new key is an insertion at it.
pub proof fn lemma_pushed<K: Key, V>(s: Seq<(K, V)>, k: K, v: V)
    requires
        distinct(s),
        !map_of(s).contains_key(k@),
    ensures
        distinct(s.push((k, v))),
        map_of(s.push((k, v))) == map_of(s).insert(k@, v),
{
    let t = s.push((k, v));
    assert(!has_key(s, k@));
    assert forall|a: int, b: int| 0 <= a < b < t.len() implies (#[trigger] t[a]).0@ != (
    #[trigger] t[b]).0@ by {
        assert(t[a] == s[a]);
        if b < s.len() {
            assert(t[b] == s[b]);
        }
    }
    assert forall|x: K::V| #[trigger] has_key(t, x) <==> (has_key(s, x) || x == k@) by {
        if has_key(t, x) {
            let j = key_at(t, x);
            if j < s.len() {
                assert(s[j].0@ == x);
            }
        }
        if has_key(s, x) {
            assert(t[key_at(s, x)].0@ == x);
        }
        if x == k@ {
            assert(t[s.len() as int].0@ == x);
        }
    }
    assert forall|x: K::V| has_key(t, x) implies #[trigger] map_of(t)[x] == map_of(s).insert(
        k@,
        v,
    )[x] by {
        let j = key_at(t, x);
        lemma_entry(t, j);
        if j < s.len() {
            lemma_entry(s, j);
        }
    }
    assert(map_of(t) =~= map_of(s).insert(k@, v));
}

/// Taking out an entry removes its key and no other.
pub proof fn lemma_removed<K: Key, V>(s: Seq<(K, V)>, i: int)
    requires
        distinct(s),
        0 <= i < s.len(),
    ensures
        distinct(s.remove(i)),
        map_of(s.remove(i)) == map_of(s).remove(s[i].0@),
{
    let t = s.remove(i);
    let k = s[i].0@;
    assert forall|a: int, b: int| 0 <= a < b < t.len() implies (#[trigger] t[a]).0@ != (
    #[trigger] t[b]).0@ by {
        let a2 = if a < i { a } else { a + 1 };
        let b2 = if b < i { b } else { b + 1 };
        assert(t[a] == s[a2] && t[b] == s[b2]);
        assert(s[a2].0@ != s[b2].0@);
    }
    assert forall|x: K::V| #[trigger] has_key(t, x) <==> (has_key(s, x) && x != k) by {
        if has_key(t, x) {
            let a = key_at(t, x);
            let a2 = if a < i { a } else { a + 1 };
            assert(t[a] == s[a2]);
            assert(s[a2].0@ == x);
            if a2 < i {
                assert(s[a2].0@ != s[i].0@);
            } else {
                assert(s[i].0@ != s[a2].0@);
            }
        }
        if has_key(s, x) && x != k {
            let a = key_at(s, x);
            let a2 = if a < i { a } else { a - 1 };
            assert(t[a2] == s[a]);
            assert(t[a2].0@ == x);
        }
    }
    assert forall|x: K::V| has_key(t, x) implies #[trigger] map_of(t)[x] == map_of(s)[x] by {
        let a = key_at(t, x);
        let a2 = if a < i { a } else { a + 1 };
        assert(t[a] == s[a2]);
        lemma_entry(t, a);
        lemma_entry(s, a2);
    }
    assert(map_of(t) =~= map_of(s).remove(k));
}

} // verus!
