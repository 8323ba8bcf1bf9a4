//! Releases, and which of two is the newer: semantic versioning's precedence.
//!
//! A release is three numbers, with identifiers behind a hyphen where it is a pre-release, and with
//! build metadata behind a plus sign, which has no part in the order.
use crate::order;
use crate::text;
use vstd::prelude::*;
use vstd::string::*;

verus! {

/// The model of a release.
#[verifier::ext_equal]
pub struct ReleaseView {
    pub major: nat,
    pub minor: nat,
    pub patch: nat,
    /// The identifiers of a pre-release, most significant first; none where it is not one.
    pub pre: Seq<Seq<char>>,
}

struct Release {
    major: u64,
    minor: u64,
    patch: u64,
    pre: Vec<String>,
}

impl Release {
    spec fn model(&self) -> ReleaseView {
        ReleaseView {
            major: self.major as nat,
            minor: self.minor as nat,
            patch: self.patch as nat,
            pre: text::texts(self.pre@),
        }
    }
}

/// The number that a part of a release spells, without a sign or a leading zero.
pub open spec fn part(s: Seq<char>) -> Option<nat> {
    match text::uint(s, u64::MAX as nat) {
        Some(n) => if text::dec(n) == s {
            Some(n)
        } else {
            None
        },
        None => None,
    }
}

/// The three numbers of a release.
pub open spec fn numbers_of(s: Seq<char>) -> Option<(nat, nat, nat)> {
    match text::split_once(s, '.') {
        None => None,
        Some((major, rest)) => match text::split_once(rest, '.') {
            None => None,
            Some((minor, patch)) => match (part(major), part(minor), part(patch)) {
                (Some(a), Some(b), Some(c)) => Some((a, b, c)),
                _ => None,
            },
        },
    }
}

/// What stands between the dots of a text.
pub open spec fn fields(s: Seq<char>) -> Seq<Seq<char>>
    decreases s.len(),
    via fields_decreases
{
    match text::split_once(s, '.') {
        None => seq![s],
        Some((first, rest)) => seq![first] + fields(rest),
    }
}

#[via_fn]
proof fn fields_decreases(s: Seq<char>) {
    text::lemma_pos_from(s, '.', 0);
}

/// Whether a character may stand in an identifier.
pub open spec fn is_ident_char(c: char) -> bool {
    text::is_digit(c) || ('a' <= c && c <= 'z') || ('A' <= c && c <= 'Z') || c == '-'
}

/// Whether a text is an identifier.
pub open spec fn is_ident(s: Seq<char>) -> bool {
    s.len() > 0 && forall|i: int| 0 <= i < s.len() ==> is_ident_char(#[trigger] s[i])
}

/// Whether a text is an identifier of a pre-release: if it is a number, it has no leading zero.
pub open spec fn is_pre_ident(s: Seq<char>) -> bool {
    is_ident(s) && (text::is_number(s) ==> s.len() == 1 || s[0] != '0')
}

/// Whether each of these is an identifier, of a pre-release or of build metadata.
pub open spec fn are_idents(items: Seq<Seq<char>>, of_pre: bool) -> bool {
    forall|i: int|
        0 <= i < items.len() ==> if of_pre {
            is_pre_ident(#[trigger] items[i])
        } else {
            is_ident(items[i])
        }
}

/// A text before the first of a mark, and what is behind it when it has the mark.
pub open spec fn cut(s: Seq<char>, mark: char) -> (Seq<char>, Option<Seq<char>>) {
    match text::split_once(s, mark) {
        Some((before, behind)) => (before, Some(behind)),
        None => (s, None),
    }
}

/// The release that a text spells. The empty text spells none.
pub open spec fn release(s: Seq<char>) -> Option<ReleaseView> {
    let (plain, build) = cut(s, '+');
    let (numbers, pre) = cut(plain, '-');
    let marked = (match build {
        Some(b) => are_idents(fields(b), false),
        None => true,
    }) && (match pre {
        Some(p) => are_idents(fields(p), true),
        None => true,
    });
    match numbers_of(numbers) {
        Some((major, minor, patch)) => if marked {
            Some(
                ReleaseView {
                    major,
                    minor,
                    patch,
                    pre: match pre {
                        Some(p) => fields(p),
                        None => Seq::empty(),
                    },
                },
            )
        } else {
            None
        },
        None => None,
    }
}

/// Whether one identifier comes before another: numbers by their value and before all others, the
/// others as texts. Numbers without leading zeros go by their length, then as texts.
pub open spec fn ident_before(a: Seq<char>, b: Seq<char>) -> bool {
    if text::is_number(a) != text::is_number(b) {
        text::is_number(a)
    } else if text::is_number(a) && a.len() != b.len() {
        a.len() < b.len()
    } else {
        !order::text_le(b, a)
    }
}

/// Whether one list of identifiers comes before another: by the first that differs, and a list that
/// goes on after one that ends.
pub open spec fn idents_before(a: Seq<Seq<char>>, b: Seq<Seq<char>>) -> bool
    decreases a.len(),
{
    if b.len() == 0 {
        false
    } else if a.len() == 0 {
        true
    } else if a[0] == b[0] {
        idents_before(a.skip(1), b.skip(1))
    } else {
        ident_before(a[0], b[0])
    }
}

/// Whether one release comes before another: by the first number that differs, then a pre-release
/// before the release that it leads up to, then by the pre-release's identifiers.
pub open spec fn before(a: ReleaseView, b: ReleaseView) -> bool {
    if a.major != b.major {
        a.major < b.major
    } else if a.minor != b.minor {
        a.minor < b.minor
    } else if a.patch != b.patch {
        a.patch < b.patch
    } else if a.pre.len() == 0 || b.pre.len() == 0 {
        a.pre.len() > 0 && b.pre.len() == 0
    } else {
        idents_before(a.pre, b.pre)
    }
}

/// Whether a release is newer than the one that runs. What spells no release is not.
pub open spec fn newer(latest: Seq<char>, running: Seq<char>) -> bool {
    match (release(latest), release(running)) {
        (Some(a), Some(b)) => before(b, a),
        _ => false,
    }
}

fn parse_part(s: &str) -> (r: Option<u64>)
    ensures
        match r {
            Some(n) => part(s@) == Some(n as nat),
            None => part(s@) is None,
        },
{
    match text::parse_uint(s, u64::MAX) {
        Some(n) => if text::same(text::decimal(n).as_str(), s) {
            Some(n)
        } else {
            None
        },
        None => None,
    }
}

fn parse_numbers(s: &str) -> (r: Option<(u64, u64, u64)>)
    ensures
        match r {
            Some((a, b, c)) => numbers_of(s@) == Some((a as nat, b as nat, c as nat)),
            None => numbers_of(s@) is None,
        },
{
    let (major, rest) = match text::split_once_at(s, '.') {
        Some(p) => p,
        None => {
            return None;
        },
    };
    let (minor, patch) = match text::split_once_at(rest.as_str(), '.') {
        Some(p) => p,
        None => {
            return None;
        },
    };
    match (parse_part(major.as_str()), parse_part(minor.as_str()), parse_part(patch.as_str())) {
        (Some(a), Some(b), Some(c)) => Some((a, b, c)),
        _ => None,
    }
}

fn split_fields(s: &str) -> (r: Vec<String>)
    ensures
        text::texts(r@) == fields(s@),
{
    let mut out: Vec<String> = Vec::new();
    let mut rest = s.to_owned();
    assert(text::texts(out@) + fields(rest@) =~= fields(s@));
    loop
        invariant
            text::texts(out@) + fields(rest@) == fields(s@),
        decreases rest@.len(),
    {
        let ghost so_far = text::texts(out@);
        match text::split_once_at(rest.as_str(), '.') {
            Some((first, tail)) => {
                proof {
                    text::lemma_pos_from(rest@, '.', 0);
                    assert(so_far + (seq![first@] + fields(tail@)) =~= so_far.push(first@) + fields(
                        tail@,
                    ));
                }
                text::push_text(&mut out, first);
                rest = tail;
            },
            None => {
                assert(so_far + seq![rest@] =~= so_far.push(rest@));
                text::push_text(&mut out, rest);
                return out;
            },
        }
    }
}

fn is_numeric(s: &str) -> (r: bool)
    ensures
        r == text::is_number(s@),
{
    let v = text::chars_of(s);
    let mut i: usize = 0;
    while i < v.len()
        invariant
            i <= v.len(),
            v@ == s@,
            forall|j: int| 0 <= j < i ==> text::is_digit(#[trigger] s@[j]),
        decreases v.len() - i,
    {
        if v[i] < '0' || v[i] > '9' {
            assert(!text::is_digit(s@[i as int]));
            return false;
        }
        i += 1;
    }
    v.len() > 0
}

fn check_ident(s: &str, of_pre: bool) -> (r: bool)
    ensures
        r == if of_pre {
            is_pre_ident(s@)
        } else {
            is_ident(s@)
        },
{
    let v = text::chars_of(s);
    let mut i: usize = 0;
    while i < v.len()
        invariant
            i <= v.len(),
            v@ == s@,
            forall|j: int| 0 <= j < i ==> is_ident_char(#[trigger] s@[j]),
        decreases v.len() - i,
    {
        let c = v[i];
        let digit = '0' <= c && c <= '9';
        let letter = ('a' <= c && c <= 'z') || ('A' <= c && c <= 'Z');
        if !digit && !letter && c != '-' {
            assert(!is_ident_char(s@[i as int]));
            return false;
        }
        i += 1;
    }
    if v.len() == 0 {
        return false;
    }
    !of_pre || v.len() == 1 || v[0] != '0' || !is_numeric(s)
}

fn check_idents(items: &Vec<String>, of_pre: bool) -> (r: bool)
    ensures
        r == are_idents(text::texts(items@), of_pre),
{
    let ghost t = text::texts(items@);
    let mut i: usize = 0;
    while i < items.len()
        invariant
            i <= items.len(),
            t == text::texts(items@),
            are_idents(t.take(i as int), of_pre),
        decreases items.len() - i,
    {
        assert(t[i as int] == items@[i as int]@);
        if !check_ident(items[i].as_str(), of_pre) {
            return false;
        }
        assert forall|j: int| 0 <= j < i + 1 implies if of_pre {
            is_pre_ident(#[trigger] t.take(i + 1)[j])
        } else {
            is_ident(t.take(i + 1)[j])
        } by {
            if j < i {
                assert(t.take(i + 1)[j] == t.take(i as int)[j]);
            }
        }
        i += 1;
    }
    assert(t.take(i as int) =~= t);
    true
}

fn cut_at(s: &str, mark: char) -> (r: (String, Option<String>))
    ensures
        (r.0@, text::opt_text(r.1)) == cut(s@, mark),
{
    match text::split_once_at(s, mark) {
        Some((before, behind)) => (before, Some(behind)),
        None => (s.to_owned(), None),
    }
}

fn parse(s: &str) -> (r: Option<Release>)
    ensures
        match r {
            Some(v) => release(s@) == Some(v.model()),
            None => release(s@) is None,
        },
{
    let (plain, build) = cut_at(s, '+');
    let (numbers, pre) = cut_at(plain.as_str(), '-');
    if let Some(b) = &build {
        if !check_idents(&split_fields(b.as_str()), false) {
            return None;
        }
    }
    let pre = match pre {
        Some(p) => {
            let f = split_fields(p.as_str());
            if !check_idents(&f, true) {
                return None;
            }
            f
        },
        None => Vec::new(),
    };
    match parse_numbers(numbers.as_str()) {
        Some((major, minor, patch)) => {
            let r = Release { major, minor, patch, pre };
            assert(release(s@)->0.pre =~= r.model().pre);
            Some(r)
        },
        None => None,
    }
}

fn comes_before(a: &str, b: &str) -> (r: bool)
    ensures
        r == ident_before(a@, b@),
{
    let x = is_numeric(a);
    if x != is_numeric(b) {
        return x;
    }
    if x {
        let m: usize = text::chars_of(a).len();
        let n: usize = text::chars_of(b).len();
        if m != n {
            return m < n;
        }
    }
    !order::text_leq(b, a)
}

fn list_before(a: &Vec<String>, b: &Vec<String>) -> (r: bool)
    ensures
        r == idents_before(text::texts(a@), text::texts(b@)),
{
    let ghost x = text::texts(a@);
    let ghost y = text::texts(b@);
    let mut i: usize = 0;
    assert(x.skip(0) =~= x && y.skip(0) =~= y);
    while i < a.len() && i < b.len() && text::same(a[i].as_str(), b[i].as_str())
        invariant
            i <= a.len(),
            i <= b.len(),
            x == text::texts(a@),
            y == text::texts(b@),
            idents_before(x, y) == idents_before(x.skip(i as int), y.skip(i as int)),
        decreases a.len() - i,
    {
        assert(x.skip(i as int).skip(1) =~= x.skip(i + 1));
        assert(y.skip(i as int).skip(1) =~= y.skip(i + 1));
        i += 1;
    }
    if i >= b.len() {
        false
    } else if i >= a.len() {
        true
    } else {
        assert(x.skip(i as int)[0] == a@[i as int]@);
        assert(y.skip(i as int)[0] == b@[i as int]@);
        comes_before(a[i].as_str(), b[i].as_str())
    }
}

/// Whether a release is newer than the one that runs.
pub fn is_newer(latest: &str, running: &str) -> (r: bool)
    ensures
        r == newer(latest@, running@),
{
    match (parse(running), parse(latest)) {
        (Some(a), Some(b)) => {
            if a.major != b.major {
                a.major < b.major
            } else if a.minor != b.minor {
                a.minor < b.minor
            } else if a.patch != b.patch {
                a.patch < b.patch
            } else if a.pre.len() == 0 || b.pre.len() == 0 {
                a.pre.len() > 0 && b.pre.len() == 0
            } else {
                list_before(&a.pre, &b.pre)
            }
        },
        _ => false,
    }
}

proof fn lemma_ident_before(a: Seq<char>, b: Seq<char>)
    ensures
        !(ident_before(a, b) && ident_before(b, a)),
        a != b ==> ident_before(a, b) || ident_before(b, a),
{
    order::lemma_lex_total(order::codes(a), order::codes(b));
    if order::text_le(a, b) && order::text_le(b, a) {
        order::lemma_text_antisym(a, b);
    }
}

proof fn lemma_idents_before(a: Seq<Seq<char>>, b: Seq<Seq<char>>)
    ensures
        !(idents_before(a, b) && idents_before(b, a)),
        a != b ==> idents_before(a, b) || idents_before(b, a),
    decreases a.len(),
{
    if a.len() > 0 && b.len() > 0 {
        if a[0] == b[0] {
            lemma_idents_before(a.skip(1), b.skip(1));
            if a.skip(1) == b.skip(1) {
                assert(a =~= seq![a[0]] + a.skip(1));
                assert(b =~= seq![b[0]] + b.skip(1));
            }
        } else {
            lemma_ident_before(a[0], b[0]);
        }
    } else if a.len() == b.len() {
        assert(a =~= b);
    }
}

/// Of two releases at most one is newer than the other, and exactly one is unless they differ in
/// nothing but build metadata.
pub proof fn law_one_release_is_newer(a: Seq<char>, b: Seq<char>)
    ensures
        !(newer(a, b) && newer(b, a)),
        release(a) is Some && release(b) is Some && release(a) != release(b) ==> newer(a, b)
            || newer(b, a),
        release(a) == release(b) ==> !newer(a, b),
{
    if release(a) is Some && release(b) is Some {
        let x = release(a)->0;
        let y = release(b)->0;
        lemma_idents_before(x.pre, y.pre);
        assert(x.pre.len() == 0 && y.pre.len() == 0 ==> x.pre =~= y.pre);
    }
}

/// A coordinator that names no release has no newer one to offer.
pub proof fn law_no_release_is_not_newer(running: Seq<char>)
    ensures
        !newer(""@, running),
{
    reveal_strlit("");
    assert(release(""@) is None);
}

proof fn lemma_part(n: nat)
    requires
        n <= u64::MAX,
    ensures
        part(text::dec(n)) == Some(n),
        !text::dec(n).contains('.'),
        !text::dec(n).contains('+'),
        !text::dec(n).contains('-'),
{
    text::law_decimal_is_read_back(n, u64::MAX as nat);
    text::lemma_dec(n);
    assert forall|i: int| 0 <= i < text::dec(n).len() implies text::is_digit(
        #[trigger] text::dec(n)[i],
    ) by {}
}

/// Three numbers with dots between them spell a release of these numbers.
pub proof fn law_three_numbers_spell_a_release(a: nat, b: nat, c: nat)
    requires
        a <= u64::MAX,
        b <= u64::MAX,
        c <= u64::MAX,
    ensures
        release(text::dec(a) + seq!['.'] + text::dec(b) + seq!['.'] + text::dec(c)) == Some(
            ReleaseView { major: a, minor: b, patch: c, pre: seq![] },
        ),
{
    lemma_part(a);
    lemma_part(b);
    lemma_part(c);
    let (x, y, z) = (text::dec(a), text::dec(b), text::dec(c));
    let rest = y + seq!['.'] + z;
    let s = x + seq!['.'] + y + seq!['.'] + z;
    assert(s =~= x + seq!['.'] + rest);
    text::law_split_at_the_first(x, rest, '.');
    text::law_split_at_the_first(y, z, '.');
    assert forall|m: char| (m == '+' || m == '-') implies !(#[trigger] s.contains(m)) by {
        if s.contains(m) {
            let i = choose|i: int| 0 <= i < s.len() && s[i] == m;
            let p = x.len() as int;
            let q = p + 1 + y.len();
            if i < p {
                assert(x[i] == m);
                assert(x.contains(m));
            } else if p < i < q {
                assert(y[i - p - 1] == m);
                assert(y.contains(m));
            } else if i > q {
                assert(z[i - q - 1] == m);
                assert(z.contains(m));
            }
        }
    }
    assert(!s.contains('+') && !s.contains('-'));
    text::law_split_at_the_first(s, s, '+');
    text::law_split_at_the_first(s, s, '-');
}

/// A release comes after every one with a lower first number, then a lower second, then a lower third;
/// and after every pre-release of its own numbers.
pub proof fn law_the_first_number_that_differs_decides(a: ReleaseView, b: ReleaseView)
    ensures
        a.major < b.major ==> before(a, b) && !before(b, a),
        a.major == b.major && a.minor < b.minor ==> before(a, b) && !before(b, a),
        a.major == b.major && a.minor == b.minor && a.patch < b.patch ==> before(a, b) && !before(
            b,
            a,
        ),
        a.major == b.major && a.minor == b.minor && a.patch == b.patch && a.pre.len() > 0
            && b.pre.len() == 0 ==> before(a, b) && !before(b, a),
        before(a, b) ==> a.major <= b.major,
{
}

/// Pre-releases come by the first identifier that differs: numbers before words, shorter numbers before
/// longer, and the rest as texts do; a list that goes on comes after one that ends.
pub proof fn law_the_first_identifier_that_differs_decides(
    common: Seq<Seq<char>>,
    x: Seq<char>,
    y: Seq<char>,
    a: Seq<Seq<char>>,
    b: Seq<Seq<char>>,
)
    requires
        x != y,
    ensures
        idents_before(common + seq![x] + a, common + seq![y] + b) == ident_before(x, y),
        a.len() > 0 ==> idents_before(common, common + a),
        !idents_before(common + a, common),
        text::is_number(x) && !text::is_number(y) ==> ident_before(x, y) && !ident_before(y, x),
        text::is_number(x) && text::is_number(y) && x.len() < y.len() ==> ident_before(x, y)
            && !ident_before(y, x),
        text::is_number(x) == text::is_number(y) && (text::is_number(x) ==> x.len() == y.len())
            ==> ident_before(x, y) == !order::text_le(y, x),
    decreases common.len(),
{
    let s = common + seq![x] + a;
    let t = common + seq![y] + b;
    if common.len() == 0 {
        assert(s[0] == x && t[0] == y);
    } else {
        let c = common.skip(1);
        law_the_first_identifier_that_differs_decides(c, x, y, a, b);
        assert(s.skip(1) =~= c + seq![x] + a);
        assert(t.skip(1) =~= c + seq![y] + b);
        assert((common + a).skip(1) =~= c + a);
        assert(s[0] == t[0]);
        assert((common + a)[0] == common[0]);
    }
}

/// A release is newer if and only if both texts spell one and it comes after the one that runs.
pub proof fn law_newer_is_what_comes_after(latest: Seq<char>, running: Seq<char>)
    ensures
        newer(latest, running) <==> release(latest) is Some && release(running) is Some && before(
            release(running)->0,
            release(latest)->0,
        ),
{
}

/// A pre-release is spelled behind a hyphen, and what is behind a plus sign does not count.
pub proof fn law_what_a_release_may_carry(plain: Seq<char>, pre: Seq<char>, build: Seq<char>)
    requires
        !plain.contains('+'),
        !plain.contains('-'),
        !pre.contains('+'),
        !pre.contains('.'),
        !build.contains('.'),
        release(plain) is Some,
    ensures
        is_pre_ident(pre) ==> release(plain + seq!['-'] + pre) == Some(
            ReleaseView {
                major: release(plain)->0.major,
                minor: release(plain)->0.minor,
                patch: release(plain)->0.patch,
                pre: seq![pre],
            },
        ),
        !is_pre_ident(pre) ==> release(plain + seq!['-'] + pre) is None,
        is_ident(build) ==> release(plain + seq!['+'] + build) == release(plain),
        !is_ident(build) ==> release(plain + seq!['+'] + build) is None,
{
    text::law_split_at_the_first(plain, build, '+');
    text::law_split_at_the_first(plain, pre, '-');
    text::law_split_at_the_first(pre, pre, '.');
    text::law_split_at_the_first(build, build, '.');
    let s = plain + seq!['-'] + pre;
    assert(!s.contains('+')) by {
        if s.contains('+') {
            let i = choose|i: int| 0 <= i < s.len() && s[i] == '+';
            let n = plain.len() as int;
            if i < n {
                assert(plain[i] == '+');
            } else if i > n {
                assert(pre[i - n - 1] == '+');
            }
        }
    }
    text::law_split_at_the_first(s, s, '+');
    assert(fields(pre) == seq![pre]);
    assert(fields(build) == seq![build]);
    if is_pre_ident(pre) {
        assert(are_idents(fields(pre), true));
    } else {
        assert(!is_pre_ident(fields(pre)[0]));
    }
    if is_ident(build) {
        assert(are_idents(fields(build), false));
    } else {
        assert(are_idents(fields(build), false) ==> is_ident(fields(build)[0]));
    }
}

/// An identifier is made of ASCII letters, digits and hyphens; one that is a number has no zero ahead.
pub proof fn law_what_an_identifier_is(s: Seq<char>)
    ensures
        is_ident(s) <==> s.len() > 0 && forall|i: int|
            0 <= i < s.len() ==> ('a' <= #[trigger] s[i] <= 'z') || ('A' <= s[i] <= 'Z') || ('0'
                <= s[i] <= '9') || s[i] == '-',
        is_pre_ident(s) <==> is_ident(s) && !(s.len() > 1 && s[0] == '0' && text::is_number(s)),
{
    if is_ident(s) {
        assert forall|i: int| 0 <= i < s.len() implies ('a' <= #[trigger] s[i] <= 'z') || ('A'
            <= s[i] <= 'Z') || ('0' <= s[i] <= '9') || s[i] == '-' by {
            assert(is_ident_char(s[i]));
        }
    }
}

} // verus!
