//! Stable sorting by a total preorder.
use crate::assoc::PubKey;
use crate::text;
use vstd::prelude::*;

verus! {

/// A type with an executable total preorder.
pub trait TotalOrder: Sized {
    /// `self` does not come after `other`.
    spec fn leq(&self, other: &Self) -> bool;

    proof fn leq_total(a: &Self, b: &Self)
        ensures
            a.leq(b) || b.leq(a),
    ;

    proof fn leq_trans(a: &Self, b: &Self, c: &Self)
        requires
            a.leq(b),
            b.leq(c),
        ensures
            a.leq(c),
    ;

    fn le(&self, other: &Self) -> (r: bool)
        ensures
            r == self.leq(other),
    ;
}

/// Every element is no later than those behind it.
pub open spec fn is_sorted<T: TotalOrder>(s: Seq<T>) -> bool {
    forall|i: int, j: int| 0 <= i <= j < s.len() ==> (#[trigger] s[i]).leq(#[trigger] &s[j])
}

/// `x` placed behind the elements of the sorted `s` that do not come after it.
pub open spec fn placed<T: TotalOrder>(s: Seq<T>, x: T) -> Seq<T>
    decreases s.len(),
{
    if s.len() == 0 || s.last().leq(&x) {
        s.push(x)
    } else {
        placed(s.drop_last(), x).push(s.last())
    }
}

/// The stable sort of `s`.
pub open spec fn sorted<T: TotalOrder>(s: Seq<T>) -> Seq<T>
    decreases s.len(),
{
    if s.len() == 0 {
        s
    } else {
        placed(sorted(s.drop_last()), s.last())
    }
}

proof fn lemma_placed<T: TotalOrder>(s: Seq<T>, x: T)
    requires
        is_sorted(s),
    ensures
        is_sorted(placed(s, x)),
        placed(s, x).to_multiset() == s.to_multiset().insert(x),
        placed(s, x).len() == s.len() + 1,
    decreases s.len(),
{
    broadcast use vstd::seq_lib::group_to_multiset_ensures;

    let r = placed(s, x);
    if s.len() == 0 || s.last().leq(&x) {
        assert forall|i: int, j: int| 0 <= i <= j < r.len() implies (#[trigger] r[i]).leq(
            #[trigger] &r[j],
        ) by {
            T::leq_total(&x, &x);
            if j == s.len() && i < s.len() {
                T::leq_trans(&s[i], &s.last(), &x);
            }
        }
    } else {
        let p = placed(s.drop_last(), x);
        lemma_placed(s.drop_last(), x);
        T::leq_total(&s.last(), &x);
        assert(s.to_multiset() =~= s.drop_last().to_multiset().insert(s.last())) by {
            assert(s =~= s.drop_last().push(s.last()));
        }
        assert forall|i: int| 0 <= i < p.len() implies (#[trigger] p[i]).leq(&s.last()) by {
            assert(p.to_multiset().count(p[i]) > 0) by {
                assert(p.contains(p[i]));
            }
            if p[i] != x {
                assert(s.drop_last().to_multiset().count(p[i]) > 0);
                assert(s.drop_last().contains(p[i]));
                let k = choose|k: int| 0 <= k < s.drop_last().len() && s.drop_last()[k] == p[i];
                assert(s[k].leq(&s[s.len() - 1]));
            }
        }
        T::leq_total(&s.last(), &s.last());
        assert(r.to_multiset() =~= s.to_multiset().insert(x));
    }
}

/// The stable sort is sorted and holds the same elements, each as often.
pub proof fn lemma_sorted<T: TotalOrder>(s: Seq<T>)
    ensures
        is_sorted(sorted(s)),
        sorted(s).to_multiset() == s.to_multiset(),
        sorted(s).len() == s.len(),
    decreases s.len(),
{
    if s.len() > 0 {
        lemma_sorted(s.drop_last());
        lemma_placed(sorted(s.drop_last()), s.last());
        broadcast use vstd::seq_lib::group_to_multiset_ensures;

        assert(s =~= s.drop_last().push(s.last()));
    }
}

/// The stable sort holds an element exactly when the list does.
pub proof fn lemma_sorted_contains<T: TotalOrder>(s: Seq<T>, x: T)
    ensures
        sorted(s).contains(x) <==> s.contains(x),
{
    broadcast use vstd::seq_lib::group_to_multiset_ensures;

    lemma_sorted(s);
    assert(sorted(s).contains(x) <==> sorted(s).to_multiset().count(x) > 0);
    assert(s.contains(x) <==> s.to_multiset().count(x) > 0);
}

proof fn lemma_placed_at<T: TotalOrder>(s: Seq<T>, x: T, p: int)
    requires
        0 <= p <= s.len(),
        p > 0 ==> s[p - 1].leq(&x),
        forall|i: int| p <= i < s.len() ==> !(#[trigger] s[i]).leq(&x),
    ensures
        placed(s, x) == s.insert(p, x),
    decreases s.len(),
{
    if p == s.len() {
        assert(s.insert(p, x) =~= s.push(x));
    } else {
        lemma_placed_at(s.drop_last(), x, p);
        assert(s.drop_last().insert(p, x).push(s.last()) =~= s.insert(p, x));
    }
}

/// Sorts a list; elements that compare equal both ways keep their order.
pub fn sort<T: TotalOrder>(v: Vec<T>) -> (r: Vec<T>)
    ensures
        r@ == sorted(v@),
{
    let mut rest = v;
    let mut out: Vec<T> = Vec::new();
    let ghost mut k: int = 0;
    while rest.len() > 0
        invariant
            0 <= k <= v@.len(),
            rest@ == v@.skip(k),
            out@ == sorted(v@.take(k)),
        decreases rest.len(),
    {
        let x = rest.remove(0);
        let mut p: usize = out.len();
        while p > 0 && !out[p - 1].le(&x)
            invariant
                p <= out.len(),
                forall|i: int| p <= i < out.len() ==> !(#[trigger] out[i]).leq(&x),
            decreases p,
        {
            p -= 1;
        }
        proof {
            lemma_placed_at(out@, x, p as int);
            assert(v@.take(k + 1).drop_last() =~= v@.take(k));
            assert(v@.take(k + 1).last() == x);
            assert(v@.skip(k).remove(0) =~= v@.skip(k + 1));
            k = k + 1;
        }
        out.insert(p, x);
    }
    assert(v@.take(k) =~= v@);
    out
}

/// Lexicographic order on sequences of numbers: a prefix comes first.
pub open spec fn lex_le(a: Seq<nat>, b: Seq<nat>) -> bool
    decreases a.len(),
{
    if a.len() == 0 {
        true
    } else if b.len() == 0 {
        false
    } else if a[0] != b[0] {
        a[0] < b[0]
    } else {
        lex_le(a.skip(1), b.skip(1))
    }
}

/// Any two sequences compare.
pub proof fn lemma_lex_total(a: Seq<nat>, b: Seq<nat>)
    ensures
        lex_le(a, b) || lex_le(b, a),
    decreases a.len(),
{
    if a.len() > 0 && b.len() > 0 {
        lemma_lex_total(a.skip(1), b.skip(1));
    }
}

/// The order is transitive.
pub proof fn lemma_lex_trans(a: Seq<nat>, b: Seq<nat>, c: Seq<nat>)
    requires
        lex_le(a, b),
        lex_le(b, c),
    ensures
        lex_le(a, c),
    decreases a.len(),
{
    if a.len() > 0 && b.len() > 0 && c.len() > 0 && a[0] == b[0] && b[0] == c[0] {
        lemma_lex_trans(a.skip(1), b.skip(1), c.skip(1));
    }
}

/// Two sequences that compare both ways are the same.
pub proof fn lemma_lex_antisym(a: Seq<nat>, b: Seq<nat>)
    requires
        lex_le(a, b),
        lex_le(b, a),
    ensures
        a == b,
    decreases a.len(),
{
    if a.len() > 0 && b.len() > 0 {
        lemma_lex_antisym(a.skip(1), b.skip(1));
        assert(a =~= seq![a[0]] + a.skip(1));
        assert(b =~= seq![b[0]] + b.skip(1));
    } else {
        assert(a =~= b);
    }
}

/// The code points of a text.
pub open spec fn codes(s: Seq<char>) -> Seq<nat> {
    s.map_values(|c: char| c as u32 as nat)
}

/// The values of a byte string.
pub open spec fn octets(s: Seq<u8>) -> Seq<nat> {
    s.map_values(|b: u8| b as nat)
}

/// Texts in the order of their code points.
pub open spec fn text_le(a: Seq<char>, b: Seq<char>) -> bool {
    lex_le(codes(a), codes(b))
}

/// Byte strings in the order of their bytes.
pub open spec fn bytes_le(a: Seq<u8>, b: Seq<u8>) -> bool {
    lex_le(octets(a), octets(b))
}

/// A character is determined and ordered by its code point.
proof fn lemma_code(c: char, d: char)
    ensures
        (c as u32 as nat == d as u32 as nat) == (c == d),
        ((c as u32 as nat) < (d as u32 as nat)) == (c < d),
{
}

/// Two texts that compare both ways are the same.
pub proof fn lemma_text_antisym(a: Seq<char>, b: Seq<char>)
    requires
        text_le(a, b),
        text_le(b, a),
    ensures
        a == b,
{
    lemma_lex_antisym(codes(a), codes(b));
    assert forall|i: int| 0 <= i < a.len() implies a[i] == b[i] by {
        assert(codes(a)[i] == codes(b)[i]);
        lemma_code(a[i], b[i]);
    }
    assert(a.len() == codes(a).len() && b.len() == codes(b).len());
    assert(a =~= b);
}

/// Two byte strings that compare both ways are the same.
pub proof fn lemma_bytes_antisym(a: Seq<u8>, b: Seq<u8>)
    requires
        bytes_le(a, b),
        bytes_le(b, a),
    ensures
        a == b,
{
    lemma_lex_antisym(octets(a), octets(b));
    assert forall|i: int| 0 <= i < a.len() implies a[i] == b[i] by {
        assert(octets(a)[i] == octets(b)[i]);
    }
    assert(a.len() == octets(a).len() && b.len() == octets(b).len());
    assert(a =~= b);
}

/// Whether `a` does not come after `b`.
pub fn text_leq(a: &str, b: &str) -> (r: bool)
    ensures
        r == text_le(a@, b@),
{
    let u = text::chars_of(a);
    let v = text::chars_of(b);
    let ghost x = codes(a@);
    let ghost y = codes(b@);
    let mut i: usize = 0;
    assert(x.skip(0) =~= x && y.skip(0) =~= y);
    while i < u.len() && i < v.len() && u[i] == v[i]
        invariant
            i <= u.len(),
            i <= v.len(),
            u@ == a@,
            v@ == b@,
            x == codes(a@),
            y == codes(b@),
            lex_le(x, y) == lex_le(x.skip(i as int), y.skip(i as int)),
        decreases u.len() - i,
    {
        assert(x.skip(i as int).skip(1) =~= x.skip(i + 1));
        assert(y.skip(i as int).skip(1) =~= y.skip(i + 1));
        i += 1;
    }
    if i >= u.len() {
        true
    } else if i >= v.len() {
        false
    } else {
        proof {
            lemma_code(u@[i as int], v@[i as int]);
        }
        u[i] < v[i]
    }
}

/// Whether `a` does not come after `b`.
pub fn bytes_leq(a: &[u8], b: &[u8]) -> (r: bool)
    ensures
        r == bytes_le(a@, b@),
{
    let ghost x = octets(a@);
    let ghost y = octets(b@);
    let mut i: usize = 0;
    assert(x.skip(0) =~= x && y.skip(0) =~= y);
    while i < a.len() && i < b.len() && a[i] == b[i]
        invariant
            i <= a.len(),
            i <= b.len(),
            x == octets(a@),
            y == octets(b@),
            lex_le(x, y) == lex_le(x.skip(i as int), y.skip(i as int)),
        decreases a.len() - i,
    {
        assert(x.skip(i as int).skip(1) =~= x.skip(i + 1));
        assert(y.skip(i as int).skip(1) =~= y.skip(i + 1));
        i += 1;
    }
    if i >= a.len() {
        true
    } else if i >= b.len() {
        false
    } else {
        a[i] < b[i]
    }
}

impl TotalOrder for String {
    open spec fn leq(&self, other: &Self) -> bool {
        text_le(self@, other@)
    }

    proof fn leq_total(a: &Self, b: &Self) {
        lemma_lex_total(codes(a@), codes(b@));
    }

    proof fn leq_trans(a: &Self, b: &Self, c: &Self) {
        lemma_lex_trans(codes(a@), codes(b@), codes(c@));
    }

    fn le(&self, other: &Self) -> (r: bool) {
        text_leq(self.as_str(), other.as_str())
    }
}

impl TotalOrder for PubKey {
    open spec fn leq(&self, other: &Self) -> bool {
        bytes_le(self@, other@)
    }

    proof fn leq_total(a: &Self, b: &Self) {
        lemma_lex_total(octets(a@), octets(b@));
    }

    proof fn leq_trans(a: &Self, b: &Self, c: &Self) {
        lemma_lex_trans(octets(a@), octets(b@), octets(c@));
    }

    fn le(&self, other: &Self) -> (r: bool) {
        bytes_leq(self, other)
    }
}

/// What is sorted is in order, and holds just what it held, as often.
pub proof fn law_sorting_keeps_all<T: TotalOrder>(s: Seq<T>)
    ensures
        forall|i: int, j: int|
            0 <= i <= j < sorted(s).len() ==> (#[trigger] sorted(s)[i]).leq(#[trigger] &sorted(s)[j]),
        sorted(s).to_multiset() == s.to_multiset(),
        sorted(s).len() == s.len(),
{
    lemma_sorted(s);
}

/// Texts and byte strings are compared by the first place in which they differ, and one that goes on
/// comes after one that ends there.
pub proof fn law_first_difference_decides(
    common: Seq<char>,
    a: char,
    b: char,
    x: Seq<char>,
    y: Seq<char>,
)
    ensures
        text_le(common, common + x),
        x.len() > 0 ==> !text_le(common + x, common),
        a < b ==> text_le(common + seq![a] + x, common + seq![b] + y) && !text_le(
            common + seq![b] + y,
            common + seq![a] + x,
        ),
    decreases common.len(),
{
    let s = common + seq![a] + x;
    let t = common + seq![b] + y;
    if common.len() == 0 {
        assert(codes(common).len() == 0);
        assert(codes(common + x).len() == x.len());
        assert(codes(s)[0] == a as u32 as nat);
        assert(codes(t)[0] == b as u32 as nat);
        lemma_code(a, b);
    } else {
        let c = common.skip(1);
        law_first_difference_decides(c, a, b, x, y);
        assert(codes(common).skip(1) =~= codes(c));
        assert(codes(common + x).skip(1) =~= codes(c + x));
        assert(codes(s).skip(1) =~= codes(c + seq![a] + x));
        assert(codes(t).skip(1) =~= codes(c + seq![b] + y));
        assert(codes(s)[0] == codes(t)[0]);
        assert(codes(common)[0] == codes(common + x)[0]);
    }
}

} // verus!
