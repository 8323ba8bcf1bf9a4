//! What peers announce that they serve, and whose claim on a name is honoured.
//!
//! Services are learned from the peers themselves. What each last said is kept here, and all the
//! claims are turned into names: a decision that every device must make alike, or a name would
//! resolve differently for different devices.
use crate::api::{self, MeshService, Proto, ServiceKind};
use crate::assoc::{self, Assoc, PubKey};
use crate::mesh::{self, SeedPeer, SelfDevice};
use crate::order;
use crate::text;
use vstd::prelude::*;
use vstd::string::*;

verus! {

/// How long what a peer announced is trusted, in milliseconds. A peer cannot tell of a new service by
/// itself, so that this is also how long others do not see it.
pub const REFRESH: u64 = 30_000;

/// What a peer last said.
pub struct Entry {
    pub services: Vec<MeshService>,
    /// When it said so, in milliseconds.
    pub polled_at: u64,
}

/// The model of what a peer last said.
#[verifier::ext_equal]
pub struct EntryView {
    pub services: Seq<api::ServiceView>,
    pub polled_at: u64,
}

impl View for Entry {
    type V = EntryView;

    open spec fn view(&self) -> EntryView {
        EntryView { services: api::service_views(self.services@), polled_at: self.polled_at }
    }
}

/// What each peer last said, by public key: that is what stays when a device gets another name or
/// address.
pub struct ServiceBook {
    pub entries: Assoc<PubKey, Entry>,
}

impl View for ServiceBook {
    type V = Map<Seq<u8>, EntryView>;

    open spec fn view(&self) -> Map<Seq<u8>, EntryView> {
        self.entries@.map_values(|e: Entry| e@)
    }
}

/// What a peer last said; nothing when it was never asked.
pub open spec fn said(b: Map<Seq<u8>, EntryView>, k: Seq<u8>) -> Seq<api::ServiceView> {
    if b.contains_key(k) {
        b[k].services
    } else {
        seq![]
    }
}

fn same_services(a: &Vec<MeshService>, b: &Vec<MeshService>) -> (r: bool)
    ensures
        r == (api::service_views(a@) == api::service_views(b@)),
{
    let ghost x = api::service_views(a@);
    let ghost y = api::service_views(b@);
    if a.len() != b.len() {
        assert(x.len() != y.len());
        return false;
    }
    let mut i: usize = 0;
    while i < a.len()
        invariant
            i <= a.len(),
            a.len() == b.len(),
            x == api::service_views(a@),
            y == api::service_views(b@),
            forall|j: int| 0 <= j < i ==> #[trigger] x[j] == y[j],
        decreases a.len() - i,
    {
        if !a[i].same(&b[i]) {
            assert(x[i as int] != y[i as int]);
            return false;
        }
        assert(x[i as int] == y[i as int]);
        i += 1;
    }
    assert(x =~= y);
    true
}

fn copy_services(a: &Vec<MeshService>) -> (r: Vec<MeshService>)
    ensures
        api::service_views(r@) == api::service_views(a@),
{
    let ghost want = api::service_views(a@);
    let mut out: Vec<MeshService> = Vec::new();
    let mut i: usize = 0;
    assert(api::service_views(out@) =~= want.take(0));
    while i < a.len()
        invariant
            i <= a.len(),
            want == api::service_views(a@),
            api::service_views(out@) == want.take(i as int),
        decreases a.len() - i,
    {
        let s = a[i].copy();
        let ghost sv = s@;
        let ghost before = api::service_views(out@);
        out.push(s);
        assert(api::service_views(out@) =~= before.push(sv));
        assert(want.take(i + 1) =~= want.take(i as int).push(want[i as int]));
        i += 1;
    }
    assert(want.take(i as int) =~= want);
    out
}

impl ServiceBook {
    /// The keys are distinct.
    pub open spec fn wf(&self) -> bool {
        self.entries.wf()
    }

    /// The book in which nobody has said anything.
    pub fn new() -> (r: ServiceBook)
        ensures
            r.wf(),
            r@ == Map::<Seq<u8>, EntryView>::empty(),
    {
        let r = ServiceBook { entries: Assoc::new() };
        assert(r@ =~= Map::<Seq<u8>, EntryView>::empty());
        r
    }

    /// Takes down what a peer said at `now`. This is whether it is something else than before.
    pub fn set(&mut self, pubkey: PubKey, services: Vec<MeshService>, now: u64) -> (r: bool)
        requires
            old(self).wf(),
        ensures
            final(self).wf(),
            final(self)@ == old(self)@.insert(
                pubkey@,
                (EntryView { services: api::service_views(services@), polled_at: now }),
            ),
            r == !(old(self)@.contains_key(pubkey@) && old(self)@[pubkey@].services
                == api::service_views(services@)),
    {
        let ghost was = self@;
        let changed = match self.entries.get(&pubkey) {
            Some(e) => !same_services(&e.services, &services),
            None => true,
        };
        let e = Entry { services, polled_at: now };
        let ghost ev = e@;
        self.entries.insert(pubkey, e);
        assert(self@ =~= was.insert(pubkey@, ev));
        changed
    }

    /// Whether a peer is to be asked: it never was, or not lately.
    pub fn is_due(&self, pubkey: &PubKey, now: u64) -> (r: bool)
        requires
            self.wf(),
        ensures
            r == (self@.contains_key(pubkey@) ==> now - self@[pubkey@].polled_at >= REFRESH),
    {
        match self.entries.get(pubkey) {
            Some(e) => now >= e.polled_at && now - e.polled_at >= REFRESH,
            None => true,
        }
    }

    /// What a peer last said.
    pub fn get(&self, pubkey: &PubKey) -> (r: Vec<MeshService>)
        requires
            self.wf(),
        ensures
            api::service_views(r@) == said(self@, pubkey@),
    {
        match self.entries.get(pubkey) {
            Some(e) => copy_services(&e.services),
            None => {
                let r: Vec<MeshService> = Vec::new();
                assert(api::service_views(r@) =~= seq![]);
                r
            },
        }
    }

    /// Forgets every peer that is not among these, so that its names no longer resolve.
    pub fn retain_peers(&mut self, present: &Vec<PubKey>)
        requires
            old(self).wf(),
        ensures
            final(self).wf(),
            final(self)@ == assoc::retained(
                old(self)@,
                |k: Seq<u8>, e: EntryView| mesh::keys_of(present@).contains(k),
            ),
    {
        let ghost was = self@;
        let ghost ks = mesh::keys_of(present@);
        let ghost p = |k: Seq<u8>, e: Entry| ks.contains(k);
        self.entries.retain(
            |k: &PubKey, e: &Entry| -> (b: bool) ensures (b == ks.contains(k@)) { mesh::has_key(present, k) },
            Ghost(p),
        );
        assert(self@ =~= assoc::retained(was, |k: Seq<u8>, e: EntryView| ks.contains(k)));
        assert((|k: Seq<u8>, e: EntryView| ks.contains(k)) =~= (|k: Seq<u8>, e: EntryView|
            mesh::keys_of(present@).contains(k)));
    }
}

/// A device's claim on a label.
pub struct Claim {
    pub pubkey: PubKey,
    pub ip: u32,
    /// The label that the device announced.
    pub name: String,
    /// The name that it resolves as. It is put together here, under the owner's verified name, and
    /// never taken from the claimant: that keeps a peer within its owner's names.
    pub hostname: String,
    pub proto: Proto,
    pub port: u16,
    pub kind: ServiceKind,
}

/// The model of a claim.
#[verifier::ext_equal]
pub struct ClaimView {
    pub pubkey: Seq<u8>,
    pub ip: u32,
    pub name: Seq<char>,
    pub hostname: Seq<char>,
    pub proto: Proto,
    pub port: u16,
    pub kind: ServiceKind,
}

impl View for Claim {
    type V = ClaimView;

    open spec fn view(&self) -> ClaimView {
        ClaimView {
            pubkey: self.pubkey@,
            ip: self.ip,
            name: self.name@,
            hostname: self.hostname@,
            proto: self.proto,
            port: self.port,
            kind: self.kind,
        }
    }
}

/// The models of a list of claims.
pub open spec fn claim_views(s: Seq<Claim>) -> Seq<ClaimView> {
    s.map_values(|c: Claim| c@)
}

/// What becomes of the claims.
pub struct Resolved {
    /// The address of each name.
    pub names: Assoc<String, u32>,
    /// The claimant and label of each claim that lost. They are shown: a service that runs but cannot
    /// be reached by its name is what its owner needs to be told of.
    pub shadowed: Vec<(PubKey, String)>,
}

/// The claimants and labels of a list.
pub open spec fn pairs_of(s: Seq<(PubKey, String)>) -> Set<(Seq<u8>, Seq<char>)> {
    Set::new(|p: (Seq<u8>, Seq<char>)| exists|i: int| 0 <= i < s.len() && pair_at(s, i) == p)
}

/// The claimant and label at a place.
pub open spec fn pair_at(s: Seq<(PubKey, String)>, i: int) -> (Seq<u8>, Seq<char>) {
    (s[i].0@, s[i].1@)
}

/// Whether one key is below another.
pub open spec fn below(a: Seq<u8>, b: Seq<u8>) -> bool {
    order::bytes_le(a, b) && a != b
}

/// Whether one claim outranks another on the same name: its key is lower.
pub open spec fn outranks(cs: Seq<ClaimView>, j: int, i: int) -> bool {
    cs[j].hostname == cs[i].hostname && below(cs[j].pubkey, cs[i].pubkey)
}

/// Whether one claim goes before another on the same name: it outranks it, or it has the same key and
/// comes first.
pub open spec fn beats(cs: Seq<ClaimView>, j: int, i: int) -> bool {
    ||| outranks(cs, j, i)
    ||| cs[j].hostname == cs[i].hostname && cs[j].pubkey == cs[i].pubkey && j < i
}

/// Whether a claim is lost: a device has that name, or a claim with a lower key is on it. Claims of
/// one key do not cost each other the name, which leads to their claimant all the same.
pub open spec fn lost(cs: Seq<ClaimView>, devices: Set<Seq<char>>, i: int) -> bool {
    devices.contains(cs[i].hostname) || exists|j: int| 0 <= j < cs.len() && #[trigger]
        outranks(cs, j, i)
}

/// Whether a claim is the one whose address a name gets: no device has the name, and no other claim
/// goes before it.
pub open spec fn holds(cs: Seq<ClaimView>, devices: Set<Seq<char>>, i: int, h: Seq<char>) -> bool {
    &&& 0 <= i < cs.len()
    &&& cs[i].hostname == h
    &&& !devices.contains(h)
    &&& forall|j: int| 0 <= j < cs.len() ==> !#[trigger] beats(cs, j, i)
}

/// The address of each name.
pub open spec fn names_of(cs: Seq<ClaimView>, devices: Set<Seq<char>>) -> Map<Seq<char>, u32> {
    Map::new(
        |h: Seq<char>| exists|i: int| #[trigger] holds(cs, devices, i, h),
        |h: Seq<char>| cs[choose|i: int| #[trigger] holds(cs, devices, i, h)].ip,
    )
}

/// The claimant and label of a claim.
pub open spec fn labelled(c: ClaimView) -> (Seq<u8>, Seq<char>) {
    (c.pubkey, c.name)
}

/// The claimant and label of each claim that lost.
pub open spec fn shadowed_of(cs: Seq<ClaimView>, devices: Set<Seq<char>>) -> Set<
    (Seq<u8>, Seq<char>),
> {
    Set::new(
        |p: (Seq<u8>, Seq<char>)|
            exists|i: int|
                0 <= i < cs.len() && #[trigger] lost(cs, devices, i) && labelled(cs[i]) == p,
    )
}

/// The names of a list.
pub open spec fn name_set(names: Seq<String>) -> Set<Seq<char>> {
    text::texts(names).to_set()
}

proof fn lemma_below_trans(a: Seq<u8>, b: Seq<u8>, c: Seq<u8>)
    requires
        order::bytes_le(a, b),
        order::bytes_le(b, c),
        a != b || b != c,
    ensures
        below(a, c),
{
    order::lemma_lex_trans(order::octets(a), order::octets(b), order::octets(c));
    if a == c {
        order::lemma_bytes_antisym(a, b);
    }
}

proof fn lemma_below_total(a: Seq<u8>, b: Seq<u8>)
    ensures
        below(a, b) || below(b, a) || a == b,
        !(below(a, b) && below(b, a)),
        order::bytes_le(a, a),
{
    order::lemma_lex_total(order::octets(a), order::octets(b));
    order::lemma_lex_total(order::octets(a), order::octets(a));
    if below(a, b) && below(b, a) {
        order::lemma_bytes_antisym(a, b);
    }
}

/// Whether a claim is the first of those before `n` on its name.
pub open spec fn leads(cs: Seq<ClaimView>, n: int, i: int) -> bool {
    forall|j: int|
        0 <= j < n && (#[trigger] cs[j]).hostname == cs[i].hostname && j != i ==> beats(cs, i, j)
}

/// Whether the first claim on each name is known, among those before `n`.
pub open spec fn led(
    cs: Seq<ClaimView>,
    devices: Set<Seq<char>>,
    n: int,
    best: Map<Seq<char>, usize>,
) -> bool {
    &&& forall|h: Seq<char>| #[trigger]
        best.contains_key(h) ==> best[h] < n && cs[best[h] as int].hostname == h
            && !devices.contains(h) && leads(cs, n, best[h] as int)
    &&& forall|j: int|
        0 <= j < n && !devices.contains((#[trigger] cs[j]).hostname) ==> best.contains_key(
            cs[j].hostname,
        )
}

proof fn lemma_led_step(
    cs: Seq<ClaimView>,
    devices: Set<Seq<char>>,
    n: int,
    best: Map<Seq<char>, usize>,
    next: Map<Seq<char>, usize>,
)
    requires
        0 <= n < cs.len() <= usize::MAX,
        led(cs, devices, n, best),
        next == {
            let h = cs[n].hostname;
            if devices.contains(h) || (best.contains_key(h) && order::bytes_le(
                cs[best[h] as int].pubkey,
                cs[n].pubkey,
            )) {
                best
            } else {
                best.insert(h, n as usize)
            }
        },
    ensures
        led(cs, devices, n + 1, next),
{
    let h = cs[n].hostname;
    assert forall|x: Seq<char>| #[trigger] next.contains_key(x) implies next[x] < n + 1
        && cs[next[x] as int].hostname == x && !devices.contains(x) && leads(
        cs,
        n + 1,
        next[x] as int,
    ) by {
        let i = next[x] as int;
        if x != h {
            assert(best.contains_key(x));
            assert(leads(cs, n, i));
        } else if i == n {
            assert forall|j: int|
                0 <= j < n + 1 && (#[trigger] cs[j]).hostname == cs[i].hostname && j
                    != i implies beats(cs, i, j) by {
                assert(!devices.contains(cs[j].hostname));
                assert(best.contains_key(h));
                let b = best[h] as int;
                lemma_below_total(cs[b].pubkey, cs[n].pubkey);
                assert(below(cs[n].pubkey, cs[b].pubkey));
                if j != b {
                    assert(beats(cs, b, j));
                    lemma_below_total(cs[b].pubkey, cs[j].pubkey);
                    lemma_below_trans(cs[n].pubkey, cs[b].pubkey, cs[j].pubkey);
                }
            }
        } else {
            assert(best.contains_key(h) && best[h] as int == i);
            assert(leads(cs, n, i));
            assert forall|j: int|
                0 <= j < n + 1 && (#[trigger] cs[j]).hostname == cs[i].hostname && j
                    != i implies beats(cs, i, j) by {}
        }
    }
    assert forall|j: int|
        0 <= j < n + 1 && !devices.contains((#[trigger] cs[j]).hostname) implies next.contains_key(
        cs[j].hostname,
    ) by {}
}

/// Once the first claim on each name is known, it is the one that holds the name, and the claims that
/// are not lost are those of its key.
proof fn lemma_led(
    cs: Seq<ClaimView>,
    devices: Set<Seq<char>>,
    best: Map<Seq<char>, usize>,
    i: int,
)
    requires
        led(cs, devices, cs.len() as int, best),
        0 <= i < cs.len(),
    ensures
        holds(cs, devices, i, cs[i].hostname) == (best.contains_key(cs[i].hostname)
            && best[cs[i].hostname] == i),
        !lost(cs, devices, i) == (best.contains_key(cs[i].hostname)
            && cs[best[cs[i].hostname] as int].pubkey == cs[i].pubkey),
{
    let h = cs[i].hostname;
    if best.contains_key(h) {
        let b = best[h] as int;
        assert(leads(cs, cs.len() as int, b));
        assert forall|j: int| 0 <= j < cs.len() implies !#[trigger] beats(cs, j, b) by {
            lemma_below_total(cs[b].pubkey, cs[j].pubkey);
            if cs[j].hostname == h && j != b {
                assert(beats(cs, b, j));
            }
        }
        if i != b {
            assert(beats(cs, b, i));
        }
        if cs[i].pubkey == cs[b].pubkey {
            assert forall|j: int| 0 <= j < cs.len() implies !#[trigger] outranks(cs, j, i) by {
                assert(!beats(cs, j, b));
            }
        } else {
            assert(outranks(cs, b, i));
        }
    } else {
        assert(devices.contains(cs[i].hostname));
    }
}

proof fn lemma_one_holder(
    cs: Seq<ClaimView>,
    devices: Set<Seq<char>>,
    i: int,
    j: int,
    h: Seq<char>,
)
    requires
        holds(cs, devices, i, h),
        holds(cs, devices, j, h),
    ensures
        i == j,
{
    if i != j {
        lemma_below_total(cs[i].pubkey, cs[j].pubkey);
        assert(beats(cs, i, j) || beats(cs, j, i));
    }
}

/// Decides to which claim each name goes. A device's name goes to no service: it is attested, and a
/// label is what a device says of itself. Otherwise the lowest key gets it, which is arbitrary, but
/// every device finds the same.
pub fn resolve(claims: &Vec<Claim>, device_names: &Vec<String>) -> (r: Resolved)
    ensures
        r.names.wf(),
        r.names@ == names_of(claim_views(claims@), name_set(device_names@)),
        pairs_of(r.shadowed@) == shadowed_of(claim_views(claims@), name_set(device_names@)),
{
    let ghost cs = claim_views(claims@);
    let ghost devices = name_set(device_names@);
    let mut best: Assoc<String, usize> = Assoc::new();
    let mut i: usize = 0;
    while i < claims.len()
        invariant
            i <= claims.len(),
            cs == claim_views(claims@),
            devices == name_set(device_names@),
            best.wf(),
            led(cs, devices, i as int, best@),
        decreases claims.len() - i,
    {
        let c = &claims[i];
        let ghost was = best@;
        assert(cs[i as int] == c@);
        let taken = text::list_has(device_names, c.hostname.as_str());
        assert(taken == devices.contains(c@.hostname));
        if !taken {
            let loses = match best.get(&c.hostname) {
                Some(b) => {
                    assert(cs[*b as int] == claims@[*b as int]@);
                    order::bytes_leq(&claims[*b].pubkey, &c.pubkey)
                },
                None => false,
            };
            if !loses {
                best.insert(c.hostname.clone(), i);
            }
        }
        proof {
            lemma_led_step(cs, devices, i as int, was, best@);
        }
        i += 1;
    }
    let mut shadowed: Vec<(PubKey, String)> = Vec::new();
    let mut k: usize = 0;
    assert(pairs_of(shadowed@) =~= Set::empty());
    assert forall|p: (Seq<u8>, Seq<char>)| pairs_of(shadowed@).contains(p) == exists|j: int|
        0 <= j < 0 && #[trigger] lost(cs, devices, j) && labelled(cs[j]) == p by {}
    while k < claims.len()
        invariant
            k <= claims.len(),
            cs == claim_views(claims@),
            devices == name_set(device_names@),
            best.wf(),
            led(cs, devices, claims@.len() as int, best@),
            forall|p: (Seq<u8>, Seq<char>)| #[trigger]
                pairs_of(shadowed@).contains(p) == exists|j: int|
                    0 <= j < k && #[trigger] lost(cs, devices, j) && labelled(cs[j]) == p,
        decreases claims.len() - k,
    {
        let c = &claims[k];
        assert(cs[k as int] == c@);
        proof {
            lemma_led(cs, devices, best@, k as int);
        }
        let wins = match best.get(&c.hostname) {
            Some(b) => {
                assert(cs[*b as int] == claims@[*b as int]@);
                assoc::same_key(&claims[*b].pubkey, &c.pubkey)
            },
            None => false,
        };
        let ghost was = shadowed@;
        if !wins {
            shadowed.push((c.pubkey, c.name.clone()));
        }
        assert forall|p: (Seq<u8>, Seq<char>)| #[trigger]
            pairs_of(shadowed@).contains(p) == exists|j: int|
                0 <= j < k + 1 && #[trigger] lost(cs, devices, j) && labelled(cs[j]) == p by {
            let now = shadowed@;
            if pairs_of(now).contains(p) {
                let x = choose|x: int| 0 <= x < now.len() && pair_at(now, x) == p;
                if x < was.len() {
                    assert(pair_at(was, x) == p);
                    assert(pairs_of(was).contains(p));
                } else {
                    assert(lost(cs, devices, k as int) && labelled(cs[k as int]) == p);
                }
            }
            if exists|j: int|
                0 <= j < k + 1 && #[trigger] lost(cs, devices, j) && labelled(cs[j]) == p {
                let j = choose|j: int|
                    0 <= j < k + 1 && #[trigger] lost(cs, devices, j) && labelled(cs[j]) == p;
                if j < k {
                    assert(pairs_of(was).contains(p));
                    let x = choose|x: int| 0 <= x < was.len() && pair_at(was, x) == p;
                    assert(pair_at(now, x) == p);
                } else {
                    assert(pair_at(now, now.len() - 1) == p);
                }
            }
        }
        k += 1;
    }
    assert(pairs_of(shadowed@) =~= shadowed_of(cs, devices));
    let mut names: Assoc<String, u32> = Assoc::new();
    let ghost es = best.entries@;
    let mut m: usize = 0;
    while m < best.entries.len()
        invariant
            m <= best.entries.len(),
            es == best.entries@,
            cs == claim_views(claims@),
            best.wf(),
            led(cs, devices, claims@.len() as int, best@),
            names.wf(),
            forall|h: Seq<char>| #[trigger]
                names@.contains_key(h) ==> best@.contains_key(h) && names@[h]
                    == cs[best@[h] as int].ip,
            forall|x: int| 0 <= x < m ==> names@.contains_key((#[trigger] es[x]).0@),
        decreases best.entries.len() - m,
    {
        proof {
            assoc::lemma_entry(es, m as int);
        }
        let at: usize = best.entries[m].1;
        assert(cs[at as int] == claims@[at as int]@);
        names.insert(best.entries[m].0.clone(), claims[at].ip);
        m += 1;
    }
    proof {
        assert forall|h: Seq<char>| #[trigger] names@.contains_key(h) == names_of(
            cs,
            devices,
        ).contains_key(h) by {
            if names@.contains_key(h) {
                lemma_led(cs, devices, best@, best@[h] as int);
                assert(holds(cs, devices, best@[h] as int, h));
            }
            if names_of(cs, devices).contains_key(h) {
                let w = choose|w: int| #[trigger] holds(cs, devices, w, h);
                lemma_led(cs, devices, best@, w);
                let x = assoc::key_at(es, h);
                assert(es[x].0@ == h);
            }
        }
        assert forall|h: Seq<char>| #[trigger] names@.contains_key(h) implies names@[h] == names_of(
            cs,
            devices,
        )[h] by {
            assert(names_of(cs, devices).contains_key(h));
            lemma_led(cs, devices, best@, best@[h] as int);
            assert(holds(cs, devices, best@[h] as int, h));
            let w = choose|w: int| #[trigger] holds(cs, devices, w, h);
            lemma_one_holder(cs, devices, w, best@[h] as int, h);
        }
        assert(names@ =~= names_of(cs, devices));
    }
    Resolved { names, shadowed }
}

/// The claim that a service makes, under its owner's name.
pub open spec fn claim_of(
    pubkey: Seq<u8>,
    user: Seq<char>,
    ip: u32,
    s: api::ServiceView,
) -> ClaimView {
    ClaimView {
        pubkey,
        ip,
        name: s.name,
        hostname: text::lower(s.name + "."@ + user + ".unity.internal"@),
        proto: s.proto,
        port: s.port,
        kind: s.kind,
    }
}

/// The claims that a device's services make.
pub open spec fn claims_of(
    pubkey: Seq<u8>,
    user: Seq<char>,
    ip: u32,
    services: Seq<api::ServiceView>,
) -> Seq<ClaimView> {
    services.map_values(|s: api::ServiceView| claim_of(pubkey, user, ip, s))
}

fn claim(pubkey: &PubKey, user: &str, ip: u32, s: &MeshService) -> (r: Claim)
    ensures
        r@ == claim_of(pubkey@, user@, ip, s@),
{
    let mut h = s.name.clone();
    h.append(".");
    h.append(user);
    h.append(".unity.internal");
    Claim {
        pubkey: *pubkey,
        ip,
        name: s.name.clone(),
        hostname: text::to_lower(h.as_str()),
        proto: s.proto,
        port: s.port,
        kind: s.kind,
    }
}

fn claims_for(
    out: &mut Vec<Claim>,
    pubkey: &PubKey,
    user: &str,
    ip: u32,
    services: &Vec<MeshService>,
)
    ensures
        claim_views(final(out)@) == claim_views(old(out)@) + claims_of(
            pubkey@,
            user@,
            ip,
            api::service_views(services@),
        ),
{
    let ghost held = claim_views(out@);
    let ghost vs = api::service_views(services@);
    let ghost want = claims_of(pubkey@, user@, ip, vs);
    let mut i: usize = 0;
    assert(claim_views(out@) =~= held + want.take(0));
    while i < services.len()
        invariant
            i <= services.len(),
            vs == api::service_views(services@),
            want == claims_of(pubkey@, user@, ip, vs),
            claim_views(out@) == held + want.take(i as int),
        decreases services.len() - i,
    {
        let c = claim(pubkey, user, ip, &services[i]);
        let ghost cv = c@;
        assert(vs[i as int] == services@[i as int]@);
        assert(cv == want[i as int]);
        let ghost before = claim_views(out@);
        out.push(c);
        assert(claim_views(out@) =~= before.push(cv));
        assert(held + want.take(i + 1) =~= (held + want.take(i as int)).push(want[i as int]));
        i += 1;
    }
    assert(want.take(i as int) =~= want);
}

/// This device's own claims.
pub fn own_claims(me: &SelfDevice, my_pubkey: PubKey, own: &Vec<MeshService>) -> (r: Vec<Claim>)
    ensures
        claim_views(r@) == claims_of(
            my_pubkey@,
            me@.username,
            me@.wg_ip,
            api::service_views(own@),
        ),
{
    let mut out: Vec<Claim> = Vec::new();
    claims_for(&mut out, &my_pubkey, me.username.as_str(), me.wg_ip, own);
    assert(claim_views(out@) =~= claims_of(
        my_pubkey@,
        me@.username,
        me@.wg_ip,
        api::service_views(own@),
    ));
    out
}

/// The claims of peers, from what each last said, under the verified name of that peer's owner.
pub open spec fn claims_in(
    seeds: Seq<mesh::SeedView>,
    b: Map<Seq<u8>, EntryView>,
) -> Seq<ClaimView>
    decreases seeds.len(),
{
    if seeds.len() == 0 {
        seq![]
    } else {
        let s = seeds.last();
        claims_in(seeds.drop_last(), b) + claims_of(
            s.pubkey,
            s.username,
            s.ip,
            said(b, s.pubkey),
        )
    }
}

/// The claims of peers.
pub fn peer_claims(seeds: &Vec<SeedPeer>, book: &ServiceBook) -> (r: Vec<Claim>)
    requires
        book.wf(),
    ensures
        claim_views(r@) == claims_in(mesh::seed_views(seeds@), book@),
{
    let ghost all = mesh::seed_views(seeds@);
    let mut out: Vec<Claim> = Vec::new();
    let mut i: usize = 0;
    assert(claim_views(out@) =~= claims_in(all.take(0), book@));
    while i < seeds.len()
        invariant
            i <= seeds.len(),
            all == mesh::seed_views(seeds@),
            book.wf(),
            claim_views(out@) == claims_in(all.take(i as int), book@),
        decreases seeds.len() - i,
    {
        assert(all.take(i + 1).drop_last() =~= all.take(i as int));
        assert(all[i as int] == seeds@[i as int]@);
        let s = &seeds[i];
        let services = book.get(&s.pubkey);
        claims_for(&mut out, &s.pubkey, s.username.as_str(), s.ip, &services);
        i += 1;
    }
    assert(all.take(i as int) =~= all);
    out
}

/// A device keeps its name: no service gets it, and every claim on it is shown as lost.
pub proof fn law_device_name_is_kept(cs: Seq<ClaimView>, devices: Set<Seq<char>>, i: int)
    requires
        0 <= i < cs.len(),
        devices.contains(cs[i].hostname),
    ensures
        !names_of(cs, devices).contains_key(cs[i].hostname),
        shadowed_of(cs, devices).contains(labelled(cs[i])),
{
    let h = cs[i].hostname;
    assert(lost(cs, devices, i));
    if names_of(cs, devices).contains_key(h) {
        let w = choose|w: int| #[trigger] holds(cs, devices, w, h);
        assert(lost(cs, devices, w));
    }
}

proof fn lemma_first(cs: Seq<ClaimView>, n: int, h: Seq<char>) -> (r: int)
    requires
        0 < n <= cs.len(),
        exists|j: int| 0 <= j < n && (#[trigger] cs[j]).hostname == h,
    ensures
        0 <= r < n,
        cs[r].hostname == h,
        leads(cs, n, r),
    decreases n,
{
    let last = n - 1;
    if n > 1 && exists|j: int| 0 <= j < last && (#[trigger] cs[j]).hostname == h {
        let b = lemma_first(cs, last, h);
        lemma_below_total(cs[b].pubkey, cs[last].pubkey);
        if cs[last].hostname != h || !below(cs[last].pubkey, cs[b].pubkey) {
            assert forall|j: int|
                0 <= j < n && (#[trigger] cs[j]).hostname == cs[b].hostname && j != b implies beats(
                cs,
                b,
                j,
            ) by {}
            b
        } else {
            assert forall|j: int|
                0 <= j < n && (#[trigger] cs[j]).hostname == cs[last].hostname && j
                    != last implies beats(cs, last, j) by {
                if j != b {
                    assert(beats(cs, b, j));
                    lemma_below_total(cs[b].pubkey, cs[j].pubkey);
                    lemma_below_trans(cs[last].pubkey, cs[b].pubkey, cs[j].pubkey);
                }
            }
            last
        }
    } else {
        let j = choose|j: int| 0 <= j < n && (#[trigger] cs[j]).hostname == h;
        assert(j == last);
        last
    }
}

proof fn lemma_held(cs: Seq<ClaimView>, devices: Set<Seq<char>>, j: int) -> (r: int)
    requires
        0 <= j < cs.len(),
        !devices.contains(cs[j].hostname),
    ensures
        holds(cs, devices, r, cs[j].hostname),
        r == j || beats(cs, r, j),
        names_of(cs, devices).contains_key(cs[j].hostname),
        names_of(cs, devices)[cs[j].hostname] == cs[r].ip,
{
    let h = cs[j].hostname;
    let n = cs.len() as int;
    let r = lemma_first(cs, n, h);
    if exists|k: int| 0 <= k < n && #[trigger] beats(cs, k, r) {
        let k = choose|k: int| 0 <= k < n && #[trigger] beats(cs, k, r);
        lemma_below_total(cs[k].pubkey, cs[r].pubkey);
        assert(cs[k].hostname == cs[r].hostname);
        if k != r {
            assert(beats(cs, r, k));
        }
    }
    assert(holds(cs, devices, r, h));
    let w = choose|w: int| #[trigger] holds(cs, devices, w, h);
    lemma_one_holder(cs, devices, w, r, h);
    r
}

/// A name that no device has goes to a claimant with the lowest key among those who claim it.
pub proof fn law_lowest_key_wins(cs: Seq<ClaimView>, devices: Set<Seq<char>>, j: int)
    requires
        0 <= j < cs.len(),
        !devices.contains(cs[j].hostname),
    ensures
        names_of(cs, devices).contains_key(cs[j].hostname),
        exists|i: int|
            0 <= i < cs.len() && (#[trigger] cs[i]).hostname == cs[j].hostname && names_of(
                cs,
                devices,
            )[cs[j].hostname] == cs[i].ip && order::bytes_le(cs[i].pubkey, cs[j].pubkey),
{
    let r = lemma_held(cs, devices, j);
    lemma_below_total(cs[r].pubkey, cs[j].pubkey);
    assert(cs[r].hostname == cs[j].hostname);
}

/// Whether a key that claims a name more than once does so from one address.
pub open spec fn consistent(cs: Seq<ClaimView>) -> bool {
    forall|i: int, j: int|
        0 <= i < cs.len() && 0 <= j < cs.len() && (#[trigger] cs[i]).pubkey == (
        #[trigger] cs[j]).pubkey && cs[i].hostname == cs[j].hostname ==> cs[i].ip == cs[j].ip
}

/// Whether one list is another in a different order: `p` says where each claim came from, and `q`
/// where each went.
pub open spec fn rearranged(
    a: Seq<ClaimView>,
    b: Seq<ClaimView>,
    p: Seq<int>,
    q: Seq<int>,
) -> bool {
    &&& a.len() == b.len() == p.len() == q.len()
    &&& forall|i: int|
        #![trigger p[i]]
        0 <= i < b.len() ==> 0 <= p[i] < a.len() && q[p[i]] == i && b[i] == a[p[i]]
    &&& forall|i: int|
        #![trigger q[i]]
        0 <= i < a.len() ==> 0 <= q[i] < b.len() && p[q[i]] == i && b[q[i]] == a[i]
}

proof fn lemma_same_names(
    a: Seq<ClaimView>,
    b: Seq<ClaimView>,
    p: Seq<int>,
    q: Seq<int>,
    devices: Set<Seq<char>>,
    h: Seq<char>,
)
    requires
        rearranged(a, b, p, q),
        names_of(a, devices).contains_key(h),
    ensures
        names_of(b, devices).contains_key(h),
        consistent(a) ==> names_of(b, devices)[h] == names_of(a, devices)[h],
{
    let i = choose|i: int| #[trigger] holds(a, devices, i, h);
    let j = q[i];
    assert(b[j] == a[i]);
    let w = lemma_held(b, devices, j);
    let k = p[w];
    assert(b[w] == a[k]);
    lemma_below_total(b[w].pubkey, b[j].pubkey);
    if k != i {
        lemma_below_total(a[k].pubkey, a[i].pubkey);
        if a[k].pubkey != a[i].pubkey {
            assert(below(a[k].pubkey, a[i].pubkey));
            assert(beats(a, k, i));
        }
        if consistent(a) {
            assert(a[k].ip == a[i].ip);
        }
    }
}

proof fn lemma_same_shadows(
    a: Seq<ClaimView>,
    b: Seq<ClaimView>,
    p: Seq<int>,
    q: Seq<int>,
    devices: Set<Seq<char>>,
    x: (Seq<u8>, Seq<char>),
)
    requires
        rearranged(a, b, p, q),
        shadowed_of(a, devices).contains(x),
    ensures
        shadowed_of(b, devices).contains(x),
{
    let i = choose|i: int|
        0 <= i < a.len() && #[trigger] lost(a, devices, i) && labelled(a[i]) == x;
    let i2 = q[i];
    assert(b[i2] == a[i]);
    if !devices.contains(a[i].hostname) {
        let j = choose|j: int| 0 <= j < a.len() && #[trigger] outranks(a, j, i);
        let j2 = q[j];
        assert(b[j2] == a[j]);
        assert(outranks(b, j2, i2));
    }
    assert(lost(b, devices, i2));
}

/// The order in which claims arrive does not show: every device that sees the same claims shows the
/// same ones as lost, and gives the same names to the same addresses as long as no key claims one
/// name from two.
pub proof fn law_order_does_not_show(
    a: Seq<ClaimView>,
    b: Seq<ClaimView>,
    p: Seq<int>,
    q: Seq<int>,
    devices: Set<Seq<char>>,
)
    requires
        rearranged(a, b, p, q),
    ensures
        shadowed_of(a, devices) == shadowed_of(b, devices),
        names_of(a, devices).dom() == names_of(b, devices).dom(),
        consistent(a) ==> names_of(a, devices) == names_of(b, devices),
{
    assert(rearranged(b, a, q, p));
    assert forall|h: Seq<char>|
        #![trigger names_of(a, devices).contains_key(h)]
        #![trigger names_of(b, devices).contains_key(h)]
        (names_of(a, devices).contains_key(h) == names_of(b, devices).contains_key(h)) && (
        consistent(a) && names_of(a, devices).contains_key(h) ==> names_of(a, devices)[h]
            == names_of(b, devices)[h]) by {
        if names_of(a, devices).contains_key(h) {
            lemma_same_names(a, b, p, q, devices, h);
        }
        if names_of(b, devices).contains_key(h) {
            lemma_same_names(b, a, q, p, devices, h);
        }
    }
    assert(names_of(a, devices).dom() =~= names_of(b, devices).dom());
    if consistent(a) {
        assert(names_of(a, devices) =~= names_of(b, devices));
    }
    assert forall|x: (Seq<u8>, Seq<char>)| #[trigger]
        shadowed_of(a, devices).contains(x) == shadowed_of(b, devices).contains(x) by {
        if shadowed_of(a, devices).contains(x) {
            lemma_same_shadows(a, b, p, q, devices, x);
        }
        if shadowed_of(b, devices).contains(x) {
            lemma_same_shadows(b, a, q, p, devices, x);
        }
    }
    assert(shadowed_of(a, devices) =~= shadowed_of(b, devices));
}

/// A device that gets a name is told of no loss of it: none of the claims on a name by the key that
/// it goes to is lost.
pub proof fn law_holder_loses_nothing(
    cs: Seq<ClaimView>,
    devices: Set<Seq<char>>,
    w: int,
    i: int,
)
    requires
        holds(cs, devices, w, cs[w].hostname),
        0 <= i < cs.len(),
        cs[i].hostname == cs[w].hostname,
        cs[i].pubkey == cs[w].pubkey,
    ensures
        !lost(cs, devices, i),
{
    assert forall|j: int| 0 <= j < cs.len() implies !#[trigger] outranks(cs, j, i) by {
        assert(!beats(cs, j, w));
    }
}

/// A service's name lies under its owner's: a peer gets no name of another owner.
pub proof fn law_stays_within_its_owner(
    pubkey: Seq<u8>,
    user: Seq<char>,
    ip: u32,
    s: api::ServiceView,
)
    ensures
        text::ends_with(
            claim_of(pubkey, user, ip, s).hostname,
            text::lower("."@ + user + ".unity.internal"@),
        ),
{
    let t = text::lower("."@ + user + ".unity.internal"@);
    let h = claim_of(pubkey, user, ip, s).hostname;
    assert(h =~= text::lower(s.name) + t);
    assert(h.skip(h.len() - t.len()) =~= t);
}

/// A peer that departs is forgotten: it makes no claims.
pub proof fn law_departed_peer_claims_nothing(
    b: Map<Seq<u8>, EntryView>,
    present: Seq<Seq<u8>>,
    k: Seq<u8>,
)
    requires
        !present.contains(k),
    ensures
        said(assoc::retained(b, |x: Seq<u8>, e: EntryView| present.contains(x)), k).len() == 0,
{
}

/// A name resolves if and only if it is claimed and no device has it. It resolves to the address in the
/// claim with the lowest key, and in the first of them where that key claims it more than once.
pub proof fn law_claimed_name_resolves(cs: Seq<ClaimView>, devices: Set<Seq<char>>, h: Seq<char>, i: int)
    ensures
        names_of(cs, devices).contains_key(h) <==> !devices.contains(h) && exists|j: int|
            0 <= j < cs.len() && (#[trigger] cs[j]).hostname == h,
        !devices.contains(h) && 0 <= i < cs.len() && cs[i].hostname == h && (forall|j: int|
            0 <= j < cs.len() && (#[trigger] cs[j]).hostname == h ==> order::bytes_le(
                cs[i].pubkey,
                cs[j].pubkey,
            )) && (forall|j: int|
            0 <= j < i && (#[trigger] cs[j]).hostname == h ==> cs[j].pubkey != cs[i].pubkey)
            ==> names_of(cs, devices).contains_key(h) && names_of(cs, devices)[h] == cs[i].ip,
{
    if names_of(cs, devices).contains_key(h) {
        let w = choose|w: int| #[trigger] holds(cs, devices, w, h);
        assert(cs[w].hostname == h);
    }
    if !devices.contains(h) && exists|j: int| 0 <= j < cs.len() && (#[trigger] cs[j]).hostname == h {
        let j = choose|j: int| 0 <= j < cs.len() && (#[trigger] cs[j]).hostname == h;
        let w = lemma_held(cs, devices, j);
    }
    if !devices.contains(h) && 0 <= i < cs.len() && cs[i].hostname == h && (forall|j: int|
        0 <= j < cs.len() && (#[trigger] cs[j]).hostname == h ==> order::bytes_le(
            cs[i].pubkey,
            cs[j].pubkey,
        )) && (forall|j: int|
        0 <= j < i && (#[trigger] cs[j]).hostname == h ==> cs[j].pubkey != cs[i].pubkey) {
        let w = lemma_held(cs, devices, i);
        if w != i {
            assert(cs[w].hostname == h);
            lemma_below_total(cs[w].pubkey, cs[i].pubkey);
            assert(order::bytes_le(cs[i].pubkey, cs[w].pubkey));
            if cs[w].pubkey != cs[i].pubkey {
                order::lemma_bytes_antisym(cs[w].pubkey, cs[i].pubkey);
            }
        }
    }
}

/// A claim is shown as lost, by its claimant and label, if and only if a device has its name or a lower
/// key claims it.
pub proof fn law_just_the_lost_are_shown(
    cs: Seq<ClaimView>,
    devices: Set<Seq<char>>,
    k: Seq<u8>,
    label: Seq<char>,
)
    ensures
        shadowed_of(cs, devices).contains((k, label)) <==> exists|i: int|
            0 <= i < cs.len() && (#[trigger] cs[i]).pubkey == k && cs[i].name == label && (
            devices.contains(cs[i].hostname) || exists|j: int|
                0 <= j < cs.len() && (#[trigger] cs[j]).hostname == cs[i].hostname && cs[j].pubkey
                    != cs[i].pubkey && order::bytes_le(cs[j].pubkey, cs[i].pubkey)),
{
    if shadowed_of(cs, devices).contains((k, label)) {
        let i = choose|i: int|
            0 <= i < cs.len() && #[trigger] lost(cs, devices, i) && labelled(cs[i]) == (k, label);
        assert(cs[i].pubkey == k && cs[i].name == label);
        if !devices.contains(cs[i].hostname) {
            let j = choose|j: int| 0 <= j < cs.len() && #[trigger] outranks(cs, j, i);
            assert(cs[j].hostname == cs[i].hostname);
        }
    }
    if exists|i: int|
        0 <= i < cs.len() && (#[trigger] cs[i]).pubkey == k && cs[i].name == label && (
        devices.contains(cs[i].hostname) || exists|j: int|
            0 <= j < cs.len() && (#[trigger] cs[j]).hostname == cs[i].hostname && cs[j].pubkey
                != cs[i].pubkey && order::bytes_le(cs[j].pubkey, cs[i].pubkey)) {
        let i = choose|i: int|
            0 <= i < cs.len() && (#[trigger] cs[i]).pubkey == k && cs[i].name == label && (
            devices.contains(cs[i].hostname) || exists|j: int|
                0 <= j < cs.len() && (#[trigger] cs[j]).hostname == cs[i].hostname && cs[j].pubkey
                    != cs[i].pubkey && order::bytes_le(cs[j].pubkey, cs[i].pubkey));
        if !devices.contains(cs[i].hostname) {
            let j = choose|j: int|
                0 <= j < cs.len() && (#[trigger] cs[j]).hostname == cs[i].hostname && cs[j].pubkey
                    != cs[i].pubkey && order::bytes_le(cs[j].pubkey, cs[i].pubkey);
            assert(outranks(cs, j, i));
        }
        assert(lost(cs, devices, i));
    }
}

/// Each service that a device offers makes one claim, in order: by the device's key, at its address, on
/// the label under the owner's name.
pub proof fn law_each_service_makes_a_claim(
    pubkey: Seq<u8>,
    user: Seq<char>,
    ip: u32,
    services: Seq<api::ServiceView>,
    i: int,
)
    requires
        0 <= i < services.len(),
    ensures
        ({
            let c = claims_of(pubkey, user, ip, services)[i];
            &&& claims_of(pubkey, user, ip, services).len() == services.len()
            &&& c.pubkey == pubkey
            &&& c.ip == ip
            &&& c.name == services[i].name
            &&& c.hostname == text::lower(services[i].name + "."@ + user + ".unity.internal"@)
            &&& c.proto == services[i].proto
            &&& c.port == services[i].port
            &&& c.kind == services[i].kind
        }),
{
}

/// Peers claim one by one, in order: each what it last said that it serves, under its owner's name, and
/// nothing where it never said anything.
pub proof fn law_each_peer_claims_what_it_said(
    a: Seq<mesh::SeedView>,
    c: Seq<mesh::SeedView>,
    s: mesh::SeedView,
    b: Map<Seq<u8>, EntryView>,
)
    ensures
        claims_in(a + c, b) == claims_in(a, b) + claims_in(c, b),
        b.contains_key(s.pubkey) ==> claims_in(seq![s], b) == claims_of(
            s.pubkey,
            s.username,
            s.ip,
            b[s.pubkey].services,
        ),
        !b.contains_key(s.pubkey) ==> claims_in(seq![s], b).len() == 0,
    decreases c.len(),
{
    assert(seq![s].drop_last() =~= seq![]);
    assert(claims_in(seq![], b) =~= seq![]);
    assert(claims_in(seq![s], b) =~= claims_of(s.pubkey, s.username, s.ip, said(b, s.pubkey)));
    if c.len() == 0 {
        assert(a + c =~= a);
        assert(claims_in(a, b) + claims_in(c, b) =~= claims_in(a, b));
    } else {
        law_each_peer_claims_what_it_said(a, c.drop_last(), s, b);
        assert((a + c).drop_last() =~= a + c.drop_last());
        assert((a + c).last() == c.last());
        assert(claims_in(a + c, b) =~= claims_in(a, b) + claims_in(c, b));
    }
}

/// A peer that stays keeps what it said.
pub proof fn law_present_peer_is_kept(
    b: Map<Seq<u8>, EntryView>,
    present: Seq<Seq<u8>>,
    k: Seq<u8>,
)
    requires
        present.contains(k),
    ensures
        ({
            let r = assoc::retained(b, |x: Seq<u8>, e: EntryView| present.contains(x));
            &&& r.contains_key(k) <==> b.contains_key(k)
            &&& b.contains_key(k) ==> r[k] == b[k]
            &&& said(r, k) == said(b, k)
        }),
{
}

/// A list of what was shadowed tells of each claim in it whose it is and what it is called, and of no
/// other.
pub proof fn law_each_shadowed_claim_is_told(
    a: Seq<(PubKey, String)>,
    b: Seq<(PubKey, String)>,
    x: (PubKey, String),
)
    ensures
        pairs_of(seq![]) =~= Set::<(Seq<u8>, Seq<char>)>::empty(),
        pairs_of(seq![x]) =~= Set::<(Seq<u8>, Seq<char>)>::empty().insert((x.0@, x.1@)),
        pairs_of(a + b) =~= pairs_of(a).union(pairs_of(b)),
{
    let s = a + b;
    assert(pair_at(seq![x], 0) == (x.0@, x.1@));
    assert forall|p: (Seq<u8>, Seq<char>)| #[trigger] pairs_of(s).contains(p) <==> pairs_of(
        a,
    ).contains(p) || pairs_of(b).contains(p) by {
        if pairs_of(s).contains(p) {
            let i = choose|i: int| 0 <= i < s.len() && pair_at(s, i) == p;
            if i < a.len() {
                assert(pair_at(a, i) == p);
            } else {
                assert(pair_at(b, i - a.len()) == p);
            }
        }
        if pairs_of(a).contains(p) {
            let i = choose|i: int| 0 <= i < a.len() && pair_at(a, i) == p;
            assert(pair_at(s, i) == p);
        }
        if pairs_of(b).contains(p) {
            let i = choose|i: int| 0 <= i < b.len() && pair_at(b, i) == p;
            assert(pair_at(s, i + a.len()) == p);
        }
    }
}

} // verus!
