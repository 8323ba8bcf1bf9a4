//! Text as sequences of characters.
//!
//! Each executable function here is stated over a spec function on `Seq<char>`, so the rest of the
//! library can speak about names, messages and scripts exactly.
use vstd::prelude::*;
use vstd::string::*;

verus! {

/// `String::push` appends one character at the end.
pub assume_specification[ String::push ](s: &mut String, ch: char)
    ensures
        final(s)@ == old(s)@.push(ch),
;

/// The characters of a string, in order.
pub fn chars_of(s: &str) -> (r: Vec<char>)
    ensures
        r@ == s@,
{
    let mut out: Vec<char> = Vec::new();
    for c in it: s.chars()
        invariant
            it.seq() == s@,
            out@ == s@.take(it.index() as int),
    {
        out.push(c);
    }
    out
}

/// How std's `Debug` shows a text: in quotes, with what cannot stand there as it is escaped.
pub uninterp spec fn debug_text(s: Seq<char>) -> Seq<char>;

/// Whether a character is one of those that names and addresses are mostly made of.
pub open spec fn ordinary(c: char) -> bool {
    ('a' <= c && c <= 'z') || ('A' <= c && c <= 'Z') || ('0' <= c && c <= '9') || c == '.' || c
        == '/' || c == ':' || c == '-' || c == '_'
}

/// A text in quotes: `format!` with std's `Debug` of `str`. Claims that what it shows depends on the
/// text alone, and that ordinary characters stand between the quotes as they are; how others are
/// escaped is not stated.
#[verifier::external_body]
pub(crate) fn quoted(s: &str) -> (r: String)
    ensures
        r@ == debug_text(s@),
        (forall|i: int| 0 <= i < s@.len() ==> ordinary(#[trigger] s@[i])) ==> r@ == "\""@ + s@
            + "\""@,
{
    format!("{s:?}")
}

/// Whether two strings hold the same characters.
pub fn same(a: &str, b: &str) -> (r: bool)
    ensures
        r == (a@ == b@),
{
    a.to_owned() == b.to_owned()
}

/// An ASCII upper-case letter as its lower-case one, any other character as itself.
pub open spec fn lower_char(c: char) -> char {
    if 'A' <= c && c <= 'Z' {
        (c as u8 + 32) as u8 as char
    } else {
        c
    }
}

/// `s` with its ASCII letters in lower case.
pub open spec fn lower(s: Seq<char>) -> Seq<char> {
    s.map_values(|c: char| lower_char(c))
}

fn lower_one(c: char) -> (r: char)
    ensures
        r == lower_char(c),
{
    if 'A' <= c && c <= 'Z' {
        (c as u8 + 32) as char
    } else {
        c
    }
}

/// `s` with its ASCII letters in lower case.
pub fn to_lower(s: &str) -> (r: String)
    ensures
        r@ == lower(s@),
{
    let c = chars_of(s);
    let mut out = String::new();
    let mut i: usize = 0;
    while i < c.len()
        invariant
            i <= c.len(),
            c@ == s@,
            out@ == lower(s@.take(i as int)),
        decreases c.len() - i,
    {
        out.push(lower_one(c[i]));
        assert(lower(s@.take(i + 1)) =~= lower(s@.take(i as int)).push(lower_char(s@[i as int])));
        i += 1;
    }
    assert(s@.take(i as int) =~= s@);
    out
}

/// One decimal digit.
pub open spec fn digit(n: nat) -> char {
    (48 + n) as u8 as char
}

/// `n` in decimal, without leading zeros.
pub open spec fn dec(n: nat) -> Seq<char>
    decreases n,
{
    if n < 10 {
        seq![digit(n)]
    } else {
        dec(n / 10).push(digit(n % 10))
    }
}

/// `n` in decimal.
pub fn decimal(n: u64) -> (r: String)
    ensures
        r@ == dec(n as nat),
    decreases n,
{
    let d: u8 = (n % 10) as u8;
    let mut s = if n < 10 { String::new() } else { decimal(n / 10) };
    s.push((48 + d) as char);
    assert(n < 10 ==> s@ =~= seq![digit(n as nat)]);
    s
}

/// The first index at or after `i` that holds `c`, or the length when none does.
pub open spec fn pos_from(s: Seq<char>, c: char, i: int) -> int
    decreases s.len() - i,
{
    if i >= s.len() {
        s.len() as int
    } else if s[i] == c {
        i
    } else {
        pos_from(s, c, i + 1)
    }
}

/// `pos_from` is a valid split point, holds `c` unless it is the end, and nothing before it does.
pub proof fn lemma_pos_from(s: Seq<char>, c: char, i: int)
    requires
        0 <= i <= s.len(),
    ensures
        i <= pos_from(s, c, i) <= s.len(),
        pos_from(s, c, i) < s.len() ==> s[pos_from(s, c, i)] == c,
        forall|j: int| i <= j < pos_from(s, c, i) ==> s[j] != c,
    decreases s.len() - i,
{
    if i < s.len() && s[i] != c {
        lemma_pos_from(s, c, i + 1);
    }
}

/// The two parts around the first `c`, without it.
pub open spec fn split_once(s: Seq<char>, c: char) -> Option<(Seq<char>, Seq<char>)> {
    let p = pos_from(s, c, 0);
    if p < s.len() {
        Some((s.take(p), s.skip(p + 1)))
    } else {
        None
    }
}

/// The first index at or after `i` that holds `c`, or the length when none does.
pub fn find_from(v: &Vec<char>, c: char, i: usize) -> (p: usize)
    requires
        i <= v.len(),
    ensures
        p == pos_from(v@, c, i as int),
        i <= p <= v.len(),
{
    let mut p: usize = i;
    while p < v.len() && v[p] != c
        invariant
            i <= p <= v.len(),
            pos_from(v@, c, i as int) == pos_from(v@, c, p as int),
        decreases v.len() - p,
    {
        p += 1;
    }
    p
}

/// The characters from `i` up to `j`.
pub fn slice_of(v: &Vec<char>, i: usize, j: usize) -> (r: String)
    requires
        i <= j <= v.len(),
    ensures
        r@ == v@.subrange(i as int, j as int),
{
    let mut out = String::new();
    let mut k: usize = i;
    while k < j
        invariant
            i <= k <= j <= v.len(),
            out@ == v@.subrange(i as int, k as int),
        decreases j - k,
    {
        out.push(v[k]);
        k += 1;
    }
    out
}

/// The two parts around the first `c`, without it.
pub fn split_once_at(s: &str, c: char) -> (r: Option<(String, String)>)
    ensures
        match r {
            Some((a, b)) => split_once(s@, c) == Some((a@, b@)),
            None => split_once(s@, c) is None,
        },
{
    let v = chars_of(s);
    let p = find_from(&v, c, 0);
    if p < v.len() {
        let a = slice_of(&v, 0, p);
        let b = slice_of(&v, p + 1, v.len());
        assert(b@ =~= s@.skip(p + 1));
        Some((a, b))
    } else {
        None
    }
}

/// `s` without the run of `c` at its end.
pub open spec fn trim_end(s: Seq<char>, c: char) -> Seq<char>
    decreases s.len(),
{
    if s.len() > 0 && s.last() == c {
        trim_end(s.drop_last(), c)
    } else {
        s
    }
}

/// `s` without the run of `c` at its end.
pub fn trim_end_of(s: &str, c: char) -> (r: String)
    ensures
        r@ == trim_end(s@, c),
{
    let v = chars_of(s);
    let mut n: usize = v.len();
    assert(v@.take(n as int) =~= v@);
    while n > 0 && v[n - 1] == c
        invariant
            n <= v.len(),
            v@ == s@,
            trim_end(s@, c) == trim_end(v@.take(n as int), c),
        decreases n,
    {
        assert(v@.take(n as int).drop_last() =~= v@.take(n - 1));
        n -= 1;
    }
    let r = slice_of(&v, 0, n);
    assert(v@.take(n as int) =~= r@);
    r
}

/// Whether `s` ends in `t`.
pub open spec fn ends_with(s: Seq<char>, t: Seq<char>) -> bool {
    t.len() <= s.len() && s.skip(s.len() - t.len()) == t
}

/// Whether `s` starts with `t`.
pub open spec fn starts_with(s: Seq<char>, t: Seq<char>) -> bool {
    t.len() <= s.len() && s.take(t.len() as int) == t
}

/// Whether `t` stands in `v` at index `i`.
pub fn matches_at(v: &Vec<char>, i: usize, t: &Vec<char>) -> (r: bool)
    requires
        i <= v.len(),
    ensures
        r == (i + t.len() <= v.len() && v@.subrange(i as int, i + t.len()) == t@),
{
    if v.len() - i < t.len() {
        return false;
    }
    let mut k: usize = 0;
    while k < t.len()
        invariant
            k <= t.len(),
            i + t.len() <= v.len(),
            forall|j: int| 0 <= j < k ==> v@[i + j] == t@[j],
        decreases t.len() - k,
    {
        if v[i + k] != t[k] {
            assert(v@.subrange(i as int, i + t.len())[k as int] != t@[k as int]);
            return false;
        }
        k += 1;
    }
    assert(v@.subrange(i as int, i + t.len()) =~= t@);
    true
}

/// What is left of `s` without the suffix `t`, when `s` ends in it.
pub fn strip_suffix(s: &str, t: &str) -> (r: Option<String>)
    ensures
        match r {
            Some(a) => ends_with(s@, t@) && a@ == s@.take(s@.len() - t@.len()),
            None => !ends_with(s@, t@),
        },
{
    let v = chars_of(s);
    let u = chars_of(t);
    if u.len() <= v.len() {
        let n: usize = v.len() - u.len();
        assert(v@.subrange(n as int, n + u.len()) =~= v@.skip(n as int));
        if matches_at(&v, n, &u) {
            return Some(slice_of(&v, 0, n));
        }
    }
    None
}

/// What is left of `s` without the prefix `t`, when `s` starts with it.
pub fn strip_prefix(s: &str, t: &str) -> (r: Option<String>)
    ensures
        match r {
            Some(a) => starts_with(s@, t@) && a@ == s@.skip(t@.len() as int),
            None => !starts_with(s@, t@),
        },
{
    let v = chars_of(s);
    let u = chars_of(t);
    assert(u.len() <= v.len() ==> v@.subrange(0, 0 + u.len()) =~= v@.take(u.len() as int));
    if matches_at(&v, 0, &u) {
        let r = slice_of(&v, u.len(), v.len());
        assert(r@ =~= s@.skip(t@.len() as int));
        return Some(r);
    }
    None
}

/// Whether `t` occurs in `s`.
pub open spec fn has(s: Seq<char>, t: Seq<char>) -> bool {
    exists|i: int| 0 <= i && i + t.len() <= s.len() && #[trigger] s.subrange(i, i + t.len()) == t
}

/// Whether `t` occurs in `s`.
pub fn contains(s: &str, t: &str) -> (r: bool)
    ensures
        r == has(s@, t@),
{
    let v = chars_of(s);
    let u = chars_of(t);
    let mut i: usize = 0;
    while i < v.len()
        invariant
            i <= v.len(),
            v@ == s@,
            u@ == t@,
            forall|j: int|
                0 <= j < i && j + u@.len() <= v@.len() ==> #[trigger] v@.subrange(j, j + u@.len())
                    != u@,
        decreases v.len() - i,
    {
        if matches_at(&v, i, &u) {
            return true;
        }
        i += 1;
    }
    matches_at(&v, i, &u)
}

/// `items` with `sep` between each two.
pub open spec fn join(items: Seq<Seq<char>>, sep: Seq<char>) -> Seq<char>
    decreases items.len(),
{
    if items.len() == 0 {
        seq![]
    } else if items.len() == 1 {
        items[0]
    } else {
        join(items.drop_last(), sep) + sep + items.last()
    }
}

/// The texts of a list of strings.
pub open spec fn texts(v: Seq<String>) -> Seq<Seq<char>> {
    v.map_values(|s: String| s@)
}

/// Adds a text to a list.
pub fn push_text(v: &mut Vec<String>, s: String)
    ensures
        texts(final(v)@) == texts(old(v)@).push(s@),
{
    let ghost before = texts(v@);
    let ghost t = s@;
    v.push(s);
    assert(texts(v@) =~= before.push(t));
}

/// `items` with `sep` between each two.
pub fn join_with(items: &Vec<String>, sep: &str) -> (r: String)
    ensures
        r@ == join(texts(items@), sep@),
{
    let mut out = String::new();
    let mut i: usize = 0;
    while i < items.len()
        invariant
            i <= items.len(),
            out@ == join(texts(items@).take(i as int), sep@),
        decreases items.len() - i,
    {
        assert(texts(items@).take(i + 1).drop_last() =~= texts(items@).take(i as int));
        if i > 0 {
            out.append(sep);
        }
        out.append(items[i].as_str());
        assert(i == 0 ==> out@ =~= texts(items@)[0]);
        i += 1;
    }
    assert(texts(items@).take(i as int) =~= texts(items@));
    out
}

/// Whether `c` is a decimal digit.
pub open spec fn is_digit(c: char) -> bool {
    '0' <= c && c <= '9'
}

/// The number that a run of decimal digits spells.
pub open spec fn val(s: Seq<char>) -> nat
    decreases s.len(),
{
    if s.len() == 0 {
        0
    } else {
        val(s.drop_last()) * 10 + (s.last() as nat - 48) as nat
    }
}

/// A non-empty run of decimal digits.
pub open spec fn is_number(s: Seq<char>) -> bool {
    s.len() > 0 && forall|i: int| 0 <= i < s.len() ==> is_digit(#[trigger] s[i])
}

/// `s` without the `+` it may start with.
pub open spec fn unsigned(s: Seq<char>) -> Seq<char> {
    if s.len() > 0 && s[0] == '+' {
        s.skip(1)
    } else {
        s
    }
}

/// The unsigned number spelled by `s`: digits with an optional `+` before them, no larger than
/// `max`.
pub open spec fn uint(s: Seq<char>, max: nat) -> Option<nat> {
    if is_number(unsigned(s)) && val(unsigned(s)) <= max {
        Some(val(unsigned(s)))
    } else {
        None
    }
}

proof fn lemma_val_prefix(s: Seq<char>, i: int)
    requires
        0 <= i <= s.len(),
    ensures
        val(s.take(i)) <= val(s),
    decreases s.len() - i,
{
    if i < s.len() {
        assert(s.take(i + 1).drop_last() =~= s.take(i));
        lemma_val_prefix(s, i + 1);
    } else {
        assert(s.take(i) =~= s);
    }
}

/// The unsigned number spelled by `s`, no larger than `max`.
pub fn parse_uint(s: &str, max: u64) -> (r: Option<u64>)
    ensures
        match r {
            Some(n) => uint(s@, max as nat) == Some(n as nat),
            None => uint(s@, max as nat) is None,
        },
{
    let v = chars_of(s);
    let start: usize = if v.len() > 0 && v[0] == '+' { 1 } else { 0 };
    let ghost body = v@.skip(start as int);
    assert(start == 0 ==> body =~= s@);
    if start == v.len() {
        return None;
    }
    let mut acc: u64 = 0;
    let mut i: usize = start;
    while i < v.len()
        invariant
            start <= i <= v.len(),
            v@ == s@,
            body == v@.skip(start as int),
            body == unsigned(s@),
            acc <= max,
            acc == val(body.take(i - start)),
            forall|j: int| 0 <= j < i - start ==> is_digit(#[trigger] body[j]),
        decreases v.len() - i,
    {
        let c = v[i];
        assert(body[i - start] == c);
        if !('0' <= c && c <= '9') {
            assert(!is_digit(body[i - start]));
            return None;
        }
        let d: u64 = (c as u8 - 48) as u64;
        assert(body.take(i - start + 1).drop_last() =~= body.take(i - start));
        proof {
            lemma_val_prefix(body, i - start + 1);
        }
        if d > max || acc > (max - d) / 10 {
            return None;
        }
        acc = acc * 10 + d;
        i += 1;
    }
    assert(body.take(i - start) =~= body);
    Some(acc)
}

/// The text of an optional string.
pub open spec fn opt_text(s: Option<String>) -> Option<Seq<char>> {
    match s {
        Some(t) => Some(t@),
        None => None,
    }
}

/// The text of an optional string slice.
pub open spec fn opt_str(s: Option<&str>) -> Option<Seq<char>> {
    match s {
        Some(t) => Some(t@),
        None => None,
    }
}

/// A copy of a list of strings.
pub fn copy_list(v: &[String]) -> (r: Vec<String>)
    ensures
        r@ == v@,
        texts(r@) == texts(v@),
{
    let mut out: Vec<String> = Vec::new();
    let mut i: usize = 0;
    while i < v.len()
        invariant
            i <= v.len(),
            out@ == v@.take(i as int),
        decreases v.len() - i,
    {
        out.push(v[i].clone());
        assert(v@.take(i + 1) =~= v@.take(i as int).push(v@[i as int]));
        i += 1;
    }
    assert(v@.take(i as int) =~= v@);
    out
}

/// Whether two lists hold the same texts in the same order.
pub fn same_list(a: &Vec<String>, b: &Vec<String>) -> (r: bool)
    ensures
        r == (texts(a@) == texts(b@)),
{
    let ghost x = texts(a@);
    let ghost y = texts(b@);
    if a.len() != b.len() {
        assert(x.len() != y.len());
        return false;
    }
    let mut i: usize = 0;
    while i < a.len()
        invariant
            i <= a.len(),
            a.len() == b.len(),
            x == texts(a@),
            y == texts(b@),
            forall|j: int| 0 <= j < i ==> x[j] == y[j],
        decreases a.len() - i,
    {
        if a[i] != b[i] {
            assert(x[i as int] != y[i as int]);
            return false;
        }
        assert(x[i as int] == y[i as int]);
        i += 1;
    }
    assert(x =~= y);
    true
}

/// Whether two optional strings hold the same text, or neither holds one.
pub fn same_opt(a: &Option<String>, b: &Option<String>) -> (r: bool)
    ensures
        r == (opt_text(*a) == opt_text(*b)),
{
    match (a, b) {
        (Some(x), Some(y)) => *x == *y,
        (None, None) => true,
        _ => false,
    }
}

/// Whether a text stands in a list.
pub fn list_has(v: &Vec<String>, t: &str) -> (r: bool)
    ensures
        r == texts(v@).contains(t@),
{
    let ghost x = texts(v@);
    let mut i: usize = 0;
    while i < v.len()
        invariant
            i <= v.len(),
            x == texts(v@),
            forall|j: int| 0 <= j < i ==> x[j] != t@,
        decreases v.len() - i,
    {
        if same(v[i].as_str(), t) {
            assert(x[i as int] == t@);
            return true;
        }
        assert(x[i as int] != t@);
        i += 1;
    }
    false
}

/// A path with one more component at its end.
pub open spec fn joined(base: Seq<char>, child: Seq<char>) -> Seq<char> {
    if base.len() == 0 {
        child
    } else if base.last() == '/' {
        base + child
    } else {
        base + "/"@ + child
    }
}

/// A path with one more component at its end.
pub fn join_path(base: &str, child: &str) -> (r: String)
    ensures
        r@ == joined(base@, child@),
{
    let v = chars_of(base);
    let mut out = base.to_owned();
    if v.len() > 0 && v[v.len() - 1] != '/' {
        out.append("/");
    }
    out.append(child);
    assert(base@.len() == 0 ==> out@ =~= child@);
    out
}

/// Whether `c` has the Unicode property White_Space.
pub open spec fn is_space(c: char) -> bool {
    let n = c as u32;
    ||| 0x09 <= n <= 0x0d
    ||| n == 0x20 || n == 0x85 || n == 0xa0 || n == 0x1680
    ||| 0x2000 <= n <= 0x200a
    ||| n == 0x2028 || n == 0x2029 || n == 0x202f || n == 0x205f || n == 0x3000
}

fn space(c: char) -> (r: bool)
    ensures
        r == is_space(c),
{
    let n: u32 = c as u32;
    (0x09 <= n && n <= 0x0d) || n == 0x20 || n == 0x85 || n == 0xa0 || n == 0x1680 || (0x2000 <= n
        && n <= 0x200a) || n == 0x2028 || n == 0x2029 || n == 0x202f || n == 0x205f || n == 0x3000
}

/// The first index at or after `i` that holds a space (or, for `on` false, anything else), or the
/// length when none does.
pub open spec fn space_from(s: Seq<char>, on: bool, i: int) -> int
    decreases s.len() - i,
{
    if i >= s.len() {
        s.len() as int
    } else if is_space(s[i]) == on {
        i
    } else {
        space_from(s, on, i + 1)
    }
}

fn find_space(v: &Vec<char>, on: bool, i: usize) -> (p: usize)
    requires
        i <= v.len(),
    ensures
        p == space_from(v@, on, i as int),
        i <= p <= v.len(),
        p < v.len() ==> is_space(v@[p as int]) == on,
{
    let mut p: usize = i;
    while p < v.len() && space(v[p]) != on
        invariant
            i <= p <= v.len(),
            space_from(v@, on, i as int) == space_from(v@, on, p as int),
        decreases v.len() - p,
    {
        p += 1;
    }
    p
}

/// The end of `s` without the spaces that close it.
pub open spec fn trim_point(s: Seq<char>) -> int
    decreases s.len(),
{
    if s.len() > 0 && is_space(s.last()) {
        trim_point(s.drop_last())
    } else {
        s.len() as int
    }
}

/// `s` without the spaces at its two ends.
pub open spec fn trimmed(s: Seq<char>) -> Seq<char> {
    let a = space_from(s, false, 0);
    let b = trim_point(s);
    if a < b {
        s.subrange(a, b)
    } else {
        seq![]
    }
}

/// `s` without the spaces at its two ends.
pub fn trim(s: &str) -> (r: String)
    ensures
        r@ == trimmed(s@),
{
    let v = chars_of(s);
    let a: usize = find_space(&v, false, 0);
    let mut b: usize = v.len();
    assert(v@.take(b as int) =~= v@);
    while b > 0 && space(v[b - 1])
        invariant
            b <= v.len(),
            trim_point(v@) == trim_point(v@.take(b as int)),
        decreases b,
    {
        assert(v@.take(b as int).drop_last() =~= v@.take(b - 1));
        b -= 1;
    }
    if a < b {
        slice_of(&v, a, b)
    } else {
        String::new()
    }
}

/// The words of `s` from index `i` on: the runs between its spaces.
pub open spec fn words_from(s: Seq<char>, i: int) -> Seq<Seq<char>>
    decreases s.len() - i,
    when 0 <= i
    via words_from_decreases
{
    let a = space_from(s, false, i);
    if a >= s.len() {
        seq![]
    } else {
        seq![s.subrange(a, space_from(s, true, a))] + words_from(s, space_from(s, true, a))
    }
}

#[via_fn]
proof fn words_from_decreases(s: Seq<char>, i: int) {
    lemma_space_from(s, false, i);
    lemma_space_from(s, true, space_from(s, false, i));
}

/// `space_from` does not go back, and holds what it looks for unless it is the end.
pub proof fn lemma_space_from(s: Seq<char>, on: bool, i: int)
    requires
        0 <= i,
    ensures
        i <= s.len() ==> i <= space_from(s, on, i) <= s.len(),
        i > s.len() ==> space_from(s, on, i) == s.len(),
        space_from(s, on, i) < s.len() ==> is_space(s[space_from(s, on, i)]) == on,
    decreases s.len() - i,
{
    if i < s.len() && is_space(s[i]) != on {
        lemma_space_from(s, on, i + 1);
    }
}

/// The words of `s`.
pub open spec fn words(s: Seq<char>) -> Seq<Seq<char>> {
    words_from(s, 0)
}

/// The words of `s`.
pub fn split_words(s: &str) -> (r: Vec<String>)
    ensures
        texts(r@) == words(s@),
{
    let v = chars_of(s);
    let mut out: Vec<String> = Vec::new();
    let mut i: usize = find_space(&v, false, 0);
    assert(texts(out@) =~= seq![]);
    proof {
        if i < v.len() {
            assert(space_from(v@, false, i as int) == i);
        }
        assert(words_from(v@, 0) == words_from(v@, i as int));
        assert(texts(out@) + words_from(v@, i as int) =~= words_from(v@, 0));
    }
    while i < v.len()
        invariant
            i <= v.len(),
            i < v.len() ==> !is_space(v@[i as int]),
            texts(out@) + words_from(v@, i as int) == words_from(v@, 0),
        decreases v.len() - i,
    {
        let e: usize = find_space(&v, true, i);
        let w = slice_of(&v, i, e);
        let ghost before = texts(out@);
        let ghost word = w@;
        out.push(w);
        assert(texts(out@) =~= before.push(word));
        let n: usize = find_space(&v, false, e);
        proof {
            lemma_space_from(v@, true, i as int);
            assert(space_from(v@, false, i as int) == i);
            assert(words_from(v@, i as int) == seq![word] + words_from(v@, e as int));
            if n < v.len() {
                assert(space_from(v@, false, n as int) == n);
            }
            assert(words_from(v@, n as int) == words_from(v@, e as int));
            assert(texts(out@) + words_from(v@, n as int) =~= before + (seq![word] + words_from(
                v@,
                e as int,
            )));
        }
        i = n;
    }
    assert(texts(out@) + words_from(v@, i as int) =~= texts(out@));
    out
}

/// The `i`th of a list of texts, empty when there is none.
pub open spec fn nth(s: Seq<Seq<char>>, i: int) -> Seq<char> {
    if 0 <= i < s.len() {
        s[i]
    } else {
        seq![]
    }
}

/// The `i`th of a list of texts, empty when there is none.
pub fn nth_of(v: &Vec<String>, i: usize) -> (r: String)
    ensures
        r@ == nth(texts(v@), i as int),
{
    if i < v.len() {
        v[i].clone()
    } else {
        let r = String::new();
        assert(r@ =~= seq![]);
        r
    }
}

/// A line as it stands before its line feed: without the carriage return that may come with it.
pub open spec fn uncarried(s: Seq<char>) -> Seq<char> {
    if s.len() > 0 && s.last() == '\r' {
        s.drop_last()
    } else {
        s
    }
}

/// The lines of `s` from index `i` on. A line feed ends a line, and no empty line follows the last.
pub open spec fn lines_from(s: Seq<char>, i: int) -> Seq<Seq<char>>
    decreases s.len() - i,
    when 0 <= i
    via lines_from_decreases
{
    let p = pos_from(s, '\n', i);
    if i >= s.len() {
        seq![]
    } else if p < s.len() {
        seq![uncarried(s.subrange(i, p))] + lines_from(s, p + 1)
    } else {
        seq![s.subrange(i, p)]
    }
}

#[via_fn]
proof fn lines_from_decreases(s: Seq<char>, i: int) {
    if i < s.len() {
        lemma_pos_from(s, '\n', i);
    }
}

/// The lines of `s`.
pub open spec fn lines(s: Seq<char>) -> Seq<Seq<char>> {
    lines_from(s, 0)
}

/// The lines of `s`.
pub fn split_lines(s: &str) -> (r: Vec<String>)
    ensures
        texts(r@) == lines(s@),
{
    let v = chars_of(s);
    let mut out: Vec<String> = Vec::new();
    let mut i: usize = 0;
    assert(texts(out@) + lines_from(v@, 0) =~= lines_from(v@, 0));
    while i < v.len()
        invariant
            i <= v.len(),
            texts(out@) + lines_from(v@, i as int) == lines_from(v@, 0),
        decreases v.len() - i,
    {
        let p: usize = find_from(&v, '\n', i);
        let ghost before = texts(out@);
        let ghost here = lines_from(v@, i as int);
        if p < v.len() {
            let e: usize = if p > i && v[p - 1] == '\r' { p - 1 } else { p };
            let line = slice_of(&v, i, e);
            let ghost text = line@;
            assert(text =~= uncarried(v@.subrange(i as int, p as int)));
            out.push(line);
            assert(texts(out@) =~= before.push(text));
            assert(texts(out@) + lines_from(v@, p + 1) =~= before + here);
            i = p + 1;
        } else {
            let line = slice_of(&v, i, p);
            let ghost text = line@;
            out.push(line);
            assert(texts(out@) =~= before.push(text));
            assert(texts(out@) + lines_from(v@, p as int) =~= before + here);
            i = p;
        }
    }
    assert(texts(out@) + lines_from(v@, i as int) =~= texts(out@));
    out
}

/// The last index up to `i` at which `t` stands in `s`, or -1 when there is none.
pub open spec fn last_match(s: Seq<char>, t: Seq<char>, i: int) -> int
    decreases i + 1,
{
    if i < 0 {
        -1
    } else if i + t.len() <= s.len() && s.subrange(i, i + t.len()) == t {
        i
    } else {
        last_match(s, t, i - 1)
    }
}

/// What follows the last `t` in `s`; all of `s` when it holds none.
pub open spec fn after_last(s: Seq<char>, t: Seq<char>) -> Seq<char> {
    let k = last_match(s, t, s.len() as int);
    if k < 0 {
        s
    } else {
        s.skip(k + t.len())
    }
}

/// What follows the last `t` in `s`; all of `s` when it holds none.
pub fn tail_after(s: &str, t: &str) -> (r: String)
    ensures
        r@ == after_last(s@, t@),
{
    let v = chars_of(s);
    let u = chars_of(t);
    let mut i: usize = v.len();
    while i > 0 && !matches_at(&v, i, &u)
        invariant
            i <= v.len(),
            v@ == s@,
            u@ == t@,
            last_match(v@, u@, v@.len() as int) == last_match(v@, u@, i as int),
        decreases i,
    {
        i -= 1;
    }
    if matches_at(&v, i, &u) {
        let r = slice_of(&v, i + u.len(), v.len());
        assert(r@ =~= s@.skip(i + u@.len()));
        r
    } else {
        assert(last_match(v@, u@, 0) == -1) by {
            assert(last_match(v@, u@, -1) == -1);
        }
        s.to_owned()
    }
}

/// Lines as one text: each with a line feed behind it.
pub open spec fn unlines(items: Seq<Seq<char>>) -> Seq<char>
    decreases items.len(),
{
    if items.len() == 0 {
        seq![]
    } else {
        unlines(items.drop_last()) + items.last() + "\n"@
    }
}

/// Lines as one text: each with a line feed behind it.
pub fn render_lines(items: &Vec<String>) -> (r: String)
    ensures
        r@ == unlines(texts(items@)),
{
    let mut out = String::new();
    let mut i: usize = 0;
    assert(out@ =~= unlines(texts(items@).take(0)));
    while i < items.len()
        invariant
            i <= items.len(),
            out@ == unlines(texts(items@).take(i as int)),
        decreases items.len() - i,
    {
        assert(texts(items@).take(i + 1).drop_last() =~= texts(items@).take(i as int));
        out.append(items[i].as_str());
        out.append("\n");
        i += 1;
    }
    assert(texts(items@).take(i as int) =~= texts(items@));
    out
}

/// A number in decimal is a run of digits that spells it.
pub proof fn lemma_dec(n: nat)
    ensures
        is_number(dec(n)),
        val(dec(n)) == n,
    decreases n,
{
    reveal_with_fuel(val, 2);
    let d = digit(n % 10);
    assert(d as nat == 48 + n % 10);
    assert(dec(n).last() == d);
    if n < 10 {
        assert(dec(n).drop_last() =~= seq![]);
        assert(val(seq![]) == 0);
    } else {
        lemma_dec(n / 10);
        assert(dec(n).drop_last() =~= dec(n / 10));
    }
}

/// Whether `c` is nowhere in `s`.
pub open spec fn free_of(s: Seq<char>, c: char) -> bool {
    forall|i: int| 0 <= i < s.len() ==> #[trigger] s[i] != c
}

/// Whether `c` is nowhere in `s` from index `i` on.
pub open spec fn scan(s: Seq<char>, c: char, i: int) -> bool
    decreases s.len() - i,
{
    i >= s.len() || (s[i] != c && scan(s, c, i + 1))
}

/// A text that a scan runs through holds no `c`.
pub proof fn lemma_scan(s: Seq<char>, c: char, i: int)
    requires
        scan(s, c, i),
    ensures
        forall|j: int| i <= j < s.len() ==> #[trigger] s[j] != c,
    decreases s.len() - i,
{
    if i < s.len() {
        lemma_scan(s, c, i + 1);
    }
}

/// A joined list holds no `c` when neither the parts nor the separator do.
pub proof fn lemma_join_free(items: Seq<Seq<char>>, sep: Seq<char>, c: char)
    requires
        forall|i: int| 0 <= i < items.len() ==> free_of(#[trigger] items[i], c),
        free_of(sep, c),
    ensures
        free_of(join(items, sep), c),
    decreases items.len(),
{
    if items.len() > 1 {
        assert forall|i: int| 0 <= i < items.drop_last().len() implies free_of(
            #[trigger] items.drop_last()[i],
            c,
        ) by {
            assert(items.drop_last()[i] == items[i]);
        }
        lemma_join_free(items.drop_last(), sep, c);
        assert(free_of(items[items.len() - 1], c));
    }
}

proof fn lemma_pos_at(s: Seq<char>, c: char, i: int, p: int)
    requires
        0 <= i <= p <= s.len(),
        forall|j: int| i <= j < p ==> #[trigger] s[j] != c,
        p < s.len() ==> s[p] == c,
    ensures
        pos_from(s, c, i) == p,
    decreases p - i,
{
    if i < p {
        lemma_pos_at(s, c, i + 1, p);
    }
}

/// A text is split at the first `c`, which neither part keeps, and not at all where there is none.
pub proof fn law_split_at_the_first(a: Seq<char>, b: Seq<char>, c: char)
    requires
        !a.contains(c),
    ensures
        split_once(a + seq![c] + b, c) == Some((a, b)),
        split_once(a, c) is None,
{
    let s = a + seq![c] + b;
    assert forall|j: int| 0 <= j < a.len() implies #[trigger] s[j] != c by {
        assert(a.contains(a[j]));
    }
    lemma_pos_at(s, c, 0, a.len() as int);
    assert(s.take(a.len() as int) =~= a);
    assert(s.skip(a.len() as int + 1) =~= b);
    assert forall|j: int| 0 <= j < a.len() implies #[trigger] a[j] != c by {
        assert(a.contains(a[j]));
    }
    lemma_pos_at(a, c, 0, a.len() as int);
}

/// The whole run of `c` at the end of a text is taken off, and nothing else.
pub proof fn law_run_at_the_end_is_taken_off(s: Seq<char>, c: char, n: nat)
    requires
        s.len() == 0 || s.last() != c,
    ensures
        trim_end(s + Seq::new(n, |i: int| c), c) == s,
    decreases n,
{
    let t = s + Seq::new(n, |i: int| c);
    if n == 0 {
        assert(t =~= s);
    } else {
        assert(t.drop_last() =~= s + Seq::new((n - 1) as nat, |i: int| c));
        law_run_at_the_end_is_taken_off(s, c, (n - 1) as nat);
    }
}

/// A digit stands for a number below ten, and each digit more for ten times what stands before it.
pub proof fn law_decimal_digit_by_digit(n: nat, d: nat)
    requires
        d < 10,
    ensures
        dec(d).len() == 1,
        dec(d)[0] as int == '0' as int + d,
        n > 0 ==> dec(10 * n + d) == dec(n) + dec(d),
{
    let m = 10 * n + d;
    assert((48 + d) as u8 as char as int == 48 + d);
    if n > 0 {
        assert(m / 10 == n && m % 10 == d);
        assert(dec(m) =~= dec(n) + dec(d));
    }
}

/// A number is read back from its decimal text, with or without a sign, unless it is too large.
pub proof fn law_decimal_is_read_back(n: nat, max: nat)
    ensures
        uint(dec(n), max) == if n <= max {
            Some(n)
        } else {
            None
        },
        uint("+"@ + dec(n), max) == uint(dec(n), max),
{
    lemma_dec(n);
    reveal_strlit("+");
    assert(is_digit(dec(n)[0]));
    assert(("+"@ + dec(n)).skip(1) =~= dec(n));
}

/// What holds anything but digits after an optional sign, or no digit, is no number.
pub proof fn law_only_digits_are_a_number(s: Seq<char>, max: nat, i: int)
    requires
        s.len() == 0 || (0 <= i < s.len() && !('0' <= s[i] <= '9') && (i > 0 || s[0] != '+')),
    ensures
        uint(s, max) is None,
{
    let u = unsigned(s);
    if s.len() > 0 && is_number(u) {
        if s[0] == '+' {
            assert(u[i - 1] == s[i]);
        }
        let k: int = if s[0] == '+' {
            i - 1
        } else {
            i
        };
        assert(is_digit(u[k]));
    }
}

/// Only the ASCII letters change in lower case, each to the one it is written as.
pub proof fn law_lower_case(s: Seq<char>, i: int)
    requires
        0 <= i < s.len(),
    ensures
        lower(s).len() == s.len(),
        lower(s)[i] as int == if 'A' <= s[i] <= 'Z' {
            s[i] as int + 32
        } else {
            s[i] as int
        },
{
    let c = s[i];
    if 'A' <= c && c <= 'Z' {
        assert(c as u8 as int == c as int);
        assert((c as u8 + 32) as u8 as char as int == c as int + 32);
    }
}

/// A list is joined part by part: the parts as they are, with the separator between any two.
pub proof fn law_joined_part_by_part(
    a: Seq<Seq<char>>,
    b: Seq<Seq<char>>,
    x: Seq<char>,
    sep: Seq<char>,
)
    ensures
        join(seq![], sep) == Seq::<char>::empty(),
        join(seq![x], sep) == x,
        a.len() > 0 && b.len() > 0 ==> join(a + b, sep) == join(a, sep) + sep + join(b, sep),
    decreases b.len(),
{
    if a.len() > 0 && b.len() > 0 {
        let s = a + b;
        assert(s.drop_last() =~= a + b.drop_last());
        assert(s.last() == b.last());
        if b.len() == 1 {
            assert(s.drop_last() =~= a);
        } else {
            law_joined_part_by_part(a, b.drop_last(), x, sep);
            assert(join(a, sep) + sep + join(b.drop_last(), sep) + sep + b.last() =~= join(a, sep)
                + sep + (join(b.drop_last(), sep) + sep + b.last()));
        }
    }
}

/// Lines are written one after another, each with a line feed behind it.
pub proof fn law_written_line_by_line(a: Seq<Seq<char>>, b: Seq<Seq<char>>, x: Seq<char>)
    ensures
        unlines(seq![]) == Seq::<char>::empty(),
        unlines(seq![x]) == x + "\n"@,
        unlines(a + b) == unlines(a) + unlines(b),
    decreases b.len(),
{
    assert(seq![x].drop_last() =~= seq![]);
    assert(unlines(seq![]) =~= Seq::<char>::empty());
    assert(unlines(seq![x]) =~= x + "\n"@);
    if b.len() == 0 {
        assert(a + b =~= a);
        assert(unlines(a) + unlines(b) =~= unlines(a));
    } else {
        law_written_line_by_line(a, b.drop_last(), x);
        assert((a + b).drop_last() =~= a + b.drop_last());
        assert(unlines(a) + unlines(b.drop_last()) + b.last() + "\n"@ =~= unlines(a) + (unlines(
            b.drop_last(),
        ) + b.last() + "\n"@));
    }
}

proof fn lemma_space_at(s: Seq<char>, on: bool, i: int, p: int)
    requires
        0 <= i <= p <= s.len(),
        forall|j: int| i <= j < p ==> is_space(#[trigger] s[j]) != on,
        p < s.len() ==> is_space(s[p]) == on,
    ensures
        space_from(s, on, i) == p,
    decreases p - i,
{
    if i < p {
        lemma_space_at(s, on, i + 1, p);
    }
}

proof fn lemma_space_shift(s: Seq<char>, on: bool, k: int, i: int)
    requires
        0 <= k <= i <= s.len(),
    ensures
        space_from(s, on, i) == k + space_from(s.skip(k), on, i - k),
    decreases s.len() - i,
{
    if i < s.len() {
        lemma_space_shift(s, on, k, i + 1);
    }
}

proof fn lemma_words_shift(s: Seq<char>, k: int, i: int)
    requires
        0 <= k <= i <= s.len(),
    ensures
        words_from(s, i) == words_from(s.skip(k), i - k),
    decreases s.len() - i,
{
    lemma_space_shift(s, false, k, i);
    lemma_space_from(s, false, i);
    let a = space_from(s, false, i);
    if a < s.len() {
        lemma_space_from(s, true, a);
        let b = space_from(s, true, a);
        lemma_space_shift(s, true, k, a);
        lemma_words_shift(s, k, b);
        assert(s.skip(k).subrange(a - k, b - k) =~= s.subrange(a, b));
    }
}

/// A text is read word by word: spaces before a word are passed over, and a word ends at the next
/// space or at the end.
pub proof fn law_read_word_by_word(w: Seq<char>, rest: Seq<char>, c: char)
    ensures
        words(seq![]) == Seq::<Seq<char>>::empty(),
        is_space(c) ==> words(seq![c] + rest) == words(rest),
        w.len() > 0 && (forall|i: int| 0 <= i < w.len() ==> !is_space(#[trigger] w[i])) && (
        rest.len() == 0 || is_space(rest[0])) ==> words(w + rest) == seq![w] + words(rest),
{
    assert(words(seq![]) =~= Seq::<Seq<char>>::empty());
    if is_space(c) {
        let s = seq![c] + rest;
        assert(s.skip(1) =~= rest);
        lemma_words_shift(s, 1, 1);
        assert(space_from(s, false, 0) == space_from(s, false, 1));
        assert(words_from(s, 0) =~= words_from(s, 1));
    }
    if w.len() > 0 && (forall|i: int| 0 <= i < w.len() ==> !is_space(#[trigger] w[i])) && (
    rest.len() == 0 || is_space(rest[0])) {
        let s = w + rest;
        assert(!is_space(w[0]));
        lemma_space_at(s, false, 0, 0);
        assert forall|j: int| 0 <= j < w.len() implies is_space(#[trigger] s[j]) != true by {
            assert(!is_space(w[j]));
        }
        lemma_space_at(s, true, 0, w.len() as int);
        assert(s.subrange(0, w.len() as int) =~= w);
        assert(s.skip(w.len() as int) =~= rest);
        lemma_words_shift(s, w.len() as int, w.len() as int);
    }
}

/// The spaces are the characters of white space: of ASCII, the blank, the tab and what breaks a line.
pub proof fn law_spaces_of_ascii(c: char)
    requires
        (c as u32) < 0x80,
    ensures
        is_space(c) <==> c == ' ' || (0x09 <= c as u32 <= 0x0d),
{
}

proof fn lemma_pos_shift(s: Seq<char>, c: char, k: int, i: int)
    requires
        0 <= k <= i <= s.len(),
    ensures
        pos_from(s, c, i) == k + pos_from(s.skip(k), c, i - k),
    decreases s.len() - i,
{
    if i < s.len() {
        lemma_pos_shift(s, c, k, i + 1);
    }
}

proof fn lemma_lines_shift(s: Seq<char>, k: int, i: int)
    requires
        0 <= k <= i <= s.len(),
    ensures
        lines_from(s, i) == lines_from(s.skip(k), i - k),
    decreases s.len() - i,
{
    lemma_pos_shift(s, '\n', k, i);
    lemma_pos_from(s, '\n', i);
    let p = pos_from(s, '\n', i);
    if i < s.len() {
        assert(s.skip(k).subrange(i - k, p - k) =~= s.subrange(i, p));
        if p < s.len() {
            lemma_lines_shift(s, k, p + 1);
        }
    }
}

/// A text is read line by line: a line ends at the next line feed, which it does not keep, nor a
/// carriage return before it; what follows the last line feed is a line unless it is empty.
pub proof fn law_read_line_by_line(l: Seq<char>, rest: Seq<char>)
    requires
        !l.contains('\n'),
    ensures
        lines(seq![]) == Seq::<Seq<char>>::empty(),
        l.len() > 0 ==> lines(l) == seq![l],
        l.len() == 0 || l.last() != '\r' ==> lines(l + seq!['\n'] + rest) == seq![l] + lines(rest),
        lines(l + seq!['\r', '\n'] + rest) == seq![l] + lines(rest),
{
    assert(lines(seq![]) =~= Seq::<Seq<char>>::empty());
    assert forall|j: int| 0 <= j < l.len() implies #[trigger] l[j] != '\n' by {
        assert(l.contains(l[j]));
    }
    lemma_pos_at(l, '\n', 0, l.len() as int);
    assert(l.subrange(0, l.len() as int) =~= l);
    let s = l + seq!['\n'] + rest;
    let n = l.len() as int;
    assert forall|j: int| 0 <= j < n implies #[trigger] s[j] != '\n' by {
        assert(s[j] == l[j]);
    }
    lemma_pos_at(s, '\n', 0, n);
    assert(s.subrange(0, n) =~= l);
    assert(s.skip(n + 1) =~= rest);
    lemma_lines_shift(s, n + 1, n + 1);
    let t = l + seq!['\r', '\n'] + rest;
    assert forall|j: int| 0 <= j < n + 1 implies #[trigger] t[j] != '\n' by {
        if j < n {
            assert(t[j] == l[j]);
        }
    }
    lemma_pos_at(t, '\n', 0, n + 1);
    assert(t.subrange(0, n + 1).last() == '\r');
    assert(t.subrange(0, n + 1).drop_last() =~= l);
    assert(t.skip(n + 2) =~= rest);
    lemma_lines_shift(t, n + 2, n + 2);
}

proof fn lemma_trim_at(s: Seq<char>, p: int)
    requires
        0 <= p <= s.len(),
        forall|j: int| p <= j < s.len() ==> is_space(#[trigger] s[j]),
        p > 0 ==> !is_space(s[p - 1]),
    ensures
        trim_point(s) == p,
    decreases s.len(),
{
    if p < s.len() {
        assert(is_space(s[s.len() - 1]));
        assert forall|j: int| p <= j < s.drop_last().len() implies is_space(
            #[trigger] s.drop_last()[j],
        ) by {
            assert(is_space(s[j]));
        }
        lemma_trim_at(s.drop_last(), p);
    }
}

/// The spaces at the two ends of a text are taken off, and nothing else.
pub proof fn law_spaces_at_the_ends_are_taken_off(a: Seq<char>, m: Seq<char>, b: Seq<char>)
    requires
        forall|i: int| 0 <= i < a.len() ==> is_space(#[trigger] a[i]),
        forall|i: int| 0 <= i < b.len() ==> is_space(#[trigger] b[i]),
        m.len() > 0 ==> !is_space(m[0]) && !is_space(m.last()),
    ensures
        trimmed(a + m + b) == m,
{
    let s = a + m + b;
    if m.len() > 0 {
        let p = a.len() as int;
        let q = (a.len() + m.len()) as int;
        assert forall|j: int| 0 <= j < p implies is_space(#[trigger] s[j]) != false by {
            assert(s[j] == a[j]);
        }
        lemma_space_at(s, false, 0, p);
        assert forall|j: int| q <= j < s.len() implies is_space(#[trigger] s[j]) by {
            assert(s[j] == b[j - q]);
        }
        assert(s[q - 1] == m.last());
        lemma_trim_at(s, q);
        assert(s.subrange(p, q) =~= m);
    } else {
        assert forall|j: int| 0 <= j < s.len() implies is_space(#[trigger] s[j]) by {
            if j < a.len() {
                assert(s[j] == a[j]);
            } else {
                assert(s[j] == b[j - a.len()]);
            }
        }
        lemma_trim_at(s, 0);
        lemma_space_from(s, false, 0);
        assert(trimmed(s) =~= m);
    }
}

proof fn lemma_last_at(s: Seq<char>, t: Seq<char>, i: int, p: int)
    requires
        -1 <= p <= i,
        p >= 0 ==> p + t.len() <= s.len() && s.subrange(p, p + t.len()) == t,
        forall|j: int|
            p < j && j + t.len() <= s.len() ==> #[trigger] s.subrange(j, j + t.len()) != t,
    ensures
        last_match(s, t, i) == p,
    decreases i - p,
{
    if i > p {
        lemma_last_at(s, t, i - 1, p);
    }
}

/// What follows the last separator is what stands behind it, and the whole text where there is none.
pub proof fn law_what_follows_the_last(a: Seq<char>, t: Seq<char>, b: Seq<char>)
    requires
        forall|j: int|
            a.len() < j && j <= a.len() + b.len() ==> #[trigger] (a + t + b).subrange(
                j,
                j + t.len(),
            ) != t,
    ensures
        after_last(a + t + b, t) == b,
        (has(a, t) == false) ==> after_last(a, t) == a,
{
    let s = a + t + b;
    assert(s.subrange(a.len() as int, a.len() as int + t.len()) =~= t);
    lemma_last_at(s, t, s.len() as int, a.len() as int);
    assert(s.skip(a.len() as int + t.len()) =~= b);
    if has(a, t) == false {
        assert forall|j: int| -1 < j && j + t.len() <= a.len() implies #[trigger] a.subrange(
            j,
            j + t.len(),
        ) != t by {}
        lemma_last_at(a, t, a.len() as int, -1);
    }
}

/// A path is followed by its child after one slash; an empty path is followed by nothing but it.
pub proof fn law_path_and_child(base: Seq<char>, child: Seq<char>)
    ensures
        joined(seq![], child) == child,
        joined(base + "/"@, child) == base + "/"@ + child,
        base.len() > 0 && base.last() != '/' ==> joined(base, child) == base + "/"@ + child,
{
    reveal_strlit("/");
    assert((base + "/"@).last() == '/');
}

} // verus!
