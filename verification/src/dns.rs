//! The resolver for the mesh's own names.
//!
//! Which names it knows, from this device and its verified peers; which it is willing to speak for at
//! all; and what it answers to a query. Serving the answers on a socket is the caller's.
use crate::assoc::Assoc;
use crate::cert;
use crate::mesh::{self, SeedPeer, SelfDevice};
use crate::text;
use crate::wire::{self, decode, encode, Answer, Data, Head, Query, Rcode, Reply, TYPE_A};
use vstd::prelude::*;
use vstd::string::*;

verus! {

/// How long an answer may be kept, in seconds.
pub const ANSWER_TTL_SECS: u32 = 30;

/// The names that are answered for, and the suffixes that are spoken for at all.
pub struct ZoneData {
    /// The address of each name, in lower case and without its last dot.
    pub names: Assoc<String, u32>,
    /// The deployment's certificate domain, when it has one: a second suffix to speak for.
    pub cert_domain: Option<String>,
}

/// The zone as it is shared with the socket.
pub type Zone = ZoneData;

/// The model of the names.
#[verifier::ext_equal]
pub struct ZoneView {
    pub names: Map<Seq<char>, u32>,
    pub cert_domain: Option<Seq<char>>,
}

impl View for ZoneData {
    type V = ZoneView;

    open spec fn view(&self) -> ZoneView {
        ZoneView { names: self.names@, cert_domain: text::opt_text(self.cert_domain) }
    }
}

/// A name as it is looked up: without its last dots, in lower case.
pub open spec fn normal(name: Seq<char>) -> Seq<char> {
    text::lower(text::trim_end(name, '.'))
}

fn norm(name: &str) -> (r: String)
    ensures
        r@ == normal(name@),
{
    let t = text::trim_end_of(name, '.');
    text::to_lower(t.as_str())
}

/// The same mesh name under the certificate domain.
pub open spec fn alias_of(name: Seq<char>, domain: Option<Seq<char>>) -> Option<Seq<char>> {
    match domain {
        Some(d) => if text::ends_with(name, cert::mesh_suffix()) {
            Some(
                text::lower(name.take(name.len() - cert::mesh_suffix().len()) + "."@ + d),
            )
        } else {
            None
        },
        None => None,
    }
}

/// The same mesh name under the certificate domain: what stands before the mesh's suffix, under the
/// domain instead. There is none without a domain, and none of a name outside the mesh. The alias
/// is in addition to the mesh name: no authority certifies a name that ends in `.internal`.
pub fn certificate_alias(name: &str, domain: Option<&str>) -> (r: Option<String>)
    ensures
        text::opt_text(r) == alias_of(name@, text::opt_str(domain)),
{
    let d = match domain {
        Some(d) => d,
        None => {
            return None;
        },
    };
    match text::strip_suffix(name, ".unity.internal") {
        Some(stem) => {
            let mut full = stem;
            full.append(".");
            full.append(d);
            Some(text::to_lower(full.as_str()))
        },
        None => None,
    }
}

/// Whether a name lies under the mesh's own suffix.
pub open spec fn in_mesh(name: Seq<char>) -> bool {
    text::ends_with(name, cert::mesh_suffix())
}

impl ZoneView {
    /// Whether a name may be spoken for at all.
    pub open spec fn ours(self, name: Seq<char>) -> bool {
        in_mesh(name) || match self.cert_domain {
            Some(d) => text::ends_with(name, "."@ + d),
            None => false,
        }
    }

    /// The address that a question is answered with.
    pub open spec fn found(self, q: wire::QuestionView) -> Option<u32> {
        let name = normal(wire::name_ascii(q.name));
        if q.qtype == TYPE_A && self.ours(name) && self.names.contains_key(name) {
            Some(self.names[name])
        } else {
            None
        }
    }

    /// Whether a question asks for a name of the mesh that does not exist.
    pub open spec fn missing(self, q: wire::QuestionView) -> bool {
        let name = normal(wire::name_ascii(q.name));
        q.qtype == TYPE_A && in_mesh(name) && !self.names.contains_key(name)
    }

    /// The records that questions are answered with.
    pub open spec fn records(self, qs: Seq<wire::QuestionView>) -> Seq<wire::AnswerView>
        decreases qs.len(),
    {
        if qs.len() == 0 {
            seq![]
        } else {
            let before = self.records(qs.drop_last());
            match self.found(qs.last()) {
                Some(ip) => before.push(address_record(qs.last().name, ip)),
                None => before,
            }
        }
    }

    /// Whether one of the questions asks for a name of the mesh that does not exist.
    pub open spec fn any_missing(self, qs: Seq<wire::QuestionView>) -> bool {
        exists|i: int| 0 <= i < qs.len() && self.missing(#[trigger] qs[i])
    }

    /// The reply to a query.
    pub open spec fn reply(self, q: wire::QueryView) -> wire::ReplyView {
        let answers = self.records(q.questions);
        wire::ReplyView {
            head: Head {
                id: q.id,
                op_code: 0,
                recursion_desired: q.recursion_desired,
                recursion_available: false,
                authoritative: true,
                truncated: false,
                code: if answers.len() == 0 && self.any_missing(q.questions) {
                    Rcode::NXDomain
                } else {
                    Rcode::NoError
                },
            },
            questions: q.questions,
            answers,
            authorities: seq![],
        }
    }
}

/// The record that gives a name its address.
pub open spec fn address_record(owner: wire::NameView, ip: u32) -> wire::AnswerView {
    wire::AnswerView { owner, ttl: ANSWER_TTL_SECS, data: wire::DataView::Addr(ip) }
}

/// The names with one more, and with its alias.
pub open spec fn with_name(
    m: Map<Seq<char>, u32>,
    name: Seq<char>,
    ip: u32,
    domain: Option<Seq<char>>,
) -> Map<Seq<char>, u32> {
    let n = normal(name);
    match alias_of(n, domain) {
        Some(a) => m.insert(a, ip).insert(n, ip),
        None => m.insert(n, ip),
    }
}

/// The names with a device's: its own, and its owner's on the owner's primary device.
pub open spec fn with_host(
    m: Map<Seq<char>, u32>,
    hostname: Seq<char>,
    alias: Option<Seq<char>>,
    ip: u32,
    domain: Option<Seq<char>>,
) -> Map<Seq<char>, u32> {
    let m1 = with_name(m, hostname, ip, domain);
    match alias {
        Some(a) => with_name(m1, a, ip, domain),
        None => m1,
    }
}

/// The names with those of peers.
pub open spec fn with_seeds(
    m: Map<Seq<char>, u32>,
    seeds: Seq<mesh::SeedView>,
    domain: Option<Seq<char>>,
) -> Map<Seq<char>, u32>
    decreases seeds.len(),
{
    if seeds.len() == 0 {
        m
    } else {
        let s = seeds.last();
        with_host(
            with_seeds(m, seeds.drop_last(), domain),
            s.hostname,
            s.primary_alias,
            s.ip,
            domain,
        )
    }
}

/// The zone of a device and its peers.
pub open spec fn zone_of(me: mesh::DeviceView, seeds: Seq<mesh::SeedView>) -> ZoneView {
    let mine = with_host(
        Map::empty(),
        me.hostname,
        me.primary_alias,
        me.wg_ip,
        me.dns_domain,
    );
    ZoneView { names: with_seeds(mine, seeds, me.dns_domain), cert_domain: me.dns_domain }
}

/// The zone with no names.
pub fn empty_zone() -> (r: Zone)
    ensures
        r.wf(),
        r@ == (ZoneView { names: Map::empty(), cert_domain: None }),
{
    ZoneData { names: Assoc::new(), cert_domain: None }
}

/// Adds a name, and its alias.
fn add_name(m: &mut Assoc<String, u32>, name: &str, ip: u32, domain: Option<&str>)
    requires
        old(m).wf(),
    ensures
        final(m).wf(),
        final(m)@ == with_name(old(m)@, name@, ip, text::opt_str(domain)),
{
    let n = norm(name);
    if let Some(alias) = certificate_alias(n.as_str(), domain) {
        m.insert(alias, ip);
    }
    m.insert(n, ip);
}

fn add_host(
    m: &mut Assoc<String, u32>,
    hostname: &str,
    alias: &Option<String>,
    ip: u32,
    domain: Option<&str>,
)
    requires
        old(m).wf(),
    ensures
        final(m).wf(),
        final(m)@ == with_host(
            old(m)@,
            hostname@,
            text::opt_text(*alias),
            ip,
            text::opt_str(domain),
        ),
{
    add_name(m, hostname, ip, domain);
    if let Some(a) = alias {
        add_name(m, a.as_str(), ip, domain);
    }
}

/// Whether every name of one list has the same address in the other.
fn within(a: &Assoc<String, u32>, b: &Assoc<String, u32>) -> (r: bool)
    requires
        a.wf(),
        b.wf(),
    ensures
        r == a@.submap_of(b@),
{
    let mut i: usize = 0;
    while i < a.entries.len()
        invariant
            a.wf(),
            b.wf(),
            i <= a.entries.len(),
            forall|j: int|
                0 <= j < i ==> b@.contains_key((#[trigger] a.entries@[j]).0@)
                    && b@[a.entries@[j].0@] == a.entries@[j].1,
        decreases a.entries.len() - i,
    {
        proof {
            crate::assoc::lemma_entry(a.entries@, i as int);
        }
        let e = &a.entries[i];
        match b.get(&e.0) {
            Some(v) => {
                if *v != e.1 {
                    return false;
                }
            },
            None => {
                return false;
            },
        }
        i += 1;
    }
    assert forall|k: Seq<char>| #[trigger] a@.dom().contains(k) implies b@.dom().contains(k) && a@[k]
        == b@[k] by {
        let j = crate::assoc::key_at(a.entries@, k);
        assert(a.entries@[j].0@ == k);
        crate::assoc::lemma_entry(a.entries@, j);
    }
    true
}

impl ZoneData {
    /// The names are distinct.
    pub open spec fn wf(&self) -> bool {
        self.names.wf()
    }

    /// Gives a name an address; this is the address that it had.
    pub fn insert(&mut self, name: String, ip: u32) -> (r: Option<u32>)
        requires
            old(self).wf(),
        ensures
            final(self).wf(),
            final(self)@ == (ZoneView { names: old(self)@.names.insert(name@, ip), ..old(self)@ }),
            r == if old(self)@.names.contains_key(name@) {
                Some(old(self)@.names[name@])
            } else {
                None
            },
    {
        let was = match self.names.get(&name) {
            Some(v) => Some(*v),
            None => None,
        };
        self.names.insert(name, ip);
        was
    }

    /// Whether a name may be spoken for at all. It is asked before the names are looked at, so that a
    /// name that got among them from outside is still not answered.
    pub fn ours(&self, name: &str) -> (r: bool)
        ensures
            r == self@.ours(name@),
    {
        if text::strip_suffix(name, ".unity.internal").is_some() {
            return true;
        }
        match &self.cert_domain {
            Some(d) => {
                let mut t = ".".to_owned();
                t.append(d.as_str());
                text::strip_suffix(name, t.as_str()).is_some()
            },
            None => false,
        }
    }

    /// Whether two zones are alike.
    pub fn same(&self, other: &ZoneData) -> (r: bool)
        requires
            self.wf(),
            other.wf(),
        ensures
            r == (self@ == other@),
    {
        let r = text::same_opt(&self.cert_domain, &other.cert_domain) && within(
            &self.names,
            &other.names,
        ) && within(&other.names, &self.names);
        proof {
            if r {
                let (a, b) = (self.names@, other.names@);
                assert forall|k: Seq<char>| #[trigger] a.dom().contains(k) == b.dom().contains(
                    k,
                ) by {}
                assert(a.dom() =~= b.dom());
                assert(a =~= b);
            }
        }
        r
    }

    /// The reply to a query: an address for each name that is known, and a denial only when none is
    /// and one lies under the mesh's own suffix. The coordinator is the authority for the certificate
    /// domain, so that an unknown name there draws no denial.
    pub fn reply(&self, req: &Query) -> (r: Reply)
        requires
            self.wf(),
            crate::zone::query_fits(req@),
        ensures
            r@ == self@.reply(req@),
            wire::reply_fits(r@),
    {
        let ghost z = self@;
        let ghost qs = req@.questions;
        let mut reply = Reply {
            head: Head {
                id: req.id,
                op_code: 0,
                recursion_desired: req.recursion_desired,
                recursion_available: false,
                authoritative: true,
                truncated: false,
                code: Rcode::NoError,
            },
            questions: Vec::new(),
            answers: Vec::new(),
            authorities: Vec::new(),
        };
        let ghost head = reply.head;
        let mut missing = false;
        let mut i: usize = 0;
        assert(reply@.questions =~= qs.take(0));
        assert(reply@.answers =~= z.records(qs.take(0)));
        assert(reply@.authorities =~= seq![]);
        while i < req.questions.len()
            invariant
                self.wf(),
                z == self@,
                qs == req@.questions,
                i <= req.questions.len(),
                crate::zone::query_fits(req@),
                reply.head == head,
                reply@.questions == qs.take(i as int),
                reply@.answers == z.records(qs.take(i as int)),
                reply@.authorities == Seq::<wire::AnswerView>::empty(),
                wire::reply_fits(reply@),
                missing == z.any_missing(qs.take(i as int)),
            decreases req.questions.len() - i,
        {
            let ghost asked = qs[i as int];
            let ghost so_far = qs.take(i as int);
            let ghost and_this = qs.take(i + 1);
            assert(asked == req.questions@[i as int]@);
            assert(wire::fits(asked.name));
            assert(and_this =~= so_far.push(asked));
            assert(and_this.drop_last() =~= so_far);
            let ghost before = reply@;
            let q = &req.questions[i];
            reply.questions.push(q.copy());
            assert(reply@.questions =~= before.questions.push(asked));
            assert(reply@.answers =~= before.answers);
            assert forall|k: int| 0 <= k < reply@.questions.len() implies wire::fits(
                (#[trigger] reply@.questions[k]).name,
            ) by {
                if k < before.questions.len() {
                    assert(reply@.questions[k] == before.questions[k]);
                }
            }
            let ghost was_missing = missing;
            if q.qtype == TYPE_A {
                let ascii = q.name.ascii();
                let name = norm(ascii.as_str());
                if self.ours(name.as_str()) {
                    match self.names.get(&name) {
                        Some(ip) => {
                            let a = Answer {
                                owner: q.name.copy(),
                                ttl: ANSWER_TTL_SECS,
                                data: Data::Addr(*ip),
                            };
                            let ghost av = a@;
                            reply.answers.push(a);
                            assert(reply@.answers =~= before.answers.push(av));
                            assert(av == address_record(asked.name, *ip));
                        },
                        None => {
                            if text::strip_suffix(name.as_str(), ".unity.internal").is_some() {
                                missing = true;
                            }
                        },
                    }
                }
            }
            proof {
                assert(missing == (was_missing || z.missing(asked)));
                if was_missing {
                    let k = choose|k: int|
                        0 <= k < so_far.len() && z.missing(#[trigger] so_far[k]);
                    assert(z.missing(and_this[k]));
                }
                if z.missing(asked) {
                    assert(z.missing(and_this[i as int]));
                }
                if z.any_missing(and_this) {
                    let k = choose|k: int|
                        0 <= k < and_this.len() && z.missing(#[trigger] and_this[k]);
                    if k < i {
                        assert(z.missing(so_far[k]));
                    }
                }
                assert forall|k: int| 0 <= k < reply@.answers.len() implies wire::record_fits(
                    #[trigger] reply@.answers[k],
                ) by {
                    if k < before.answers.len() {
                        assert(reply@.answers[k] == before.answers[k]);
                    }
                }
            }
            i += 1;
        }
        assert(qs.take(i as int) =~= qs);
        if reply.answers.len() == 0 && missing {
            reply.head.code = Rcode::NXDomain;
        }
        assert(reply@ =~= z.reply(req@));
        reply
    }
}

/// Makes the zone that of a device and its peers. This is whether it changed: the same membership
/// comes again and again.
pub fn update(zone: &mut Zone, me: &SelfDevice, seeds: &Vec<SeedPeer>) -> (r: bool)
    requires
        old(zone).wf(),
    ensures
        final(zone).wf(),
        final(zone)@ == zone_of(me@, mesh::seed_views(seeds@)),
        r == (final(zone)@ != old(zone)@),
{
    let ghost all = mesh::seed_views(seeds@);
    let domain = match &me.dns_domain {
        Some(d) => Some(d.as_str()),
        None => None,
    };
    let ghost dv = text::opt_str(domain);
    let mut names: Assoc<String, u32> = Assoc::new();
    add_host(&mut names, me.hostname.as_str(), &me.primary_alias, me.wg_ip, domain);
    let ghost mine = names@;
    let mut i: usize = 0;
    assert(with_seeds(mine, all.take(0), dv) == mine);
    while i < seeds.len()
        invariant
            i <= seeds.len(),
            all == mesh::seed_views(seeds@),
            dv == text::opt_str(domain),
            names.wf(),
            names@ == with_seeds(mine, all.take(i as int), dv),
        decreases seeds.len() - i,
    {
        assert(all.take(i + 1).drop_last() =~= all.take(i as int));
        assert(all[i as int] == seeds@[i as int]@);
        let s = &seeds[i];
        add_host(&mut names, s.hostname.as_str(), &s.primary_alias, s.ip, domain);
        i += 1;
    }
    assert(all.take(i as int) =~= all);
    let next = ZoneData { names, cert_domain: me.dns_domain.clone() };
    assert(next@ =~= zone_of(me@, all));
    if zone.same(&next) {
        return false;
    }
    *zone = next;
    true
}

/// The octets that answer a query's octets; none when they are no message, or the reply cannot be
/// encoded.
pub fn answer(bytes: &[u8], zone: &Zone) -> (r: Option<Vec<u8>>)
    requires
        zone.wf(),
    ensures
        match wire::message_query(bytes@) {
            None => r is None,
            Some(q) => match r {
                Some(v) => wire::reply_octets(zone@.reply(q)) == Some(v@),
                None => wire::reply_octets(zone@.reply(q)) is None,
            },
        },
{
    let req = match decode(bytes) {
        Some(q) => q,
        None => {
            return None;
        },
    };
    let reply = zone.reply(&req);
    encode(&reply)
}

proof fn lemma_records(z: ZoneView, qs: Seq<wire::QuestionView>, k: int)
    requires
        0 <= k < z.records(qs).len(),
    ensures
        exists|i: int|
            0 <= i < qs.len() && z.found(#[trigger] qs[i]) is Some && z.records(qs)[k]
                == address_record(qs[i].name, z.found(qs[i])->0),
    decreases qs.len(),
{
    if qs.len() > 0 {
        let t = qs.drop_last();
        if k < z.records(t).len() {
            lemma_records(z, t, k);
            let i = choose|i: int|
                0 <= i < t.len() && z.found(#[trigger] t[i]) is Some && z.records(t)[k]
                    == address_record(t[i].name, z.found(t[i])->0);
            assert(qs[i] == t[i]);
        } else {
            assert(qs[qs.len() - 1] == qs.last());
        }
    }
}

/// Every answer is for a name that may be spoken for, with the address that the name has.
pub proof fn law_speaks_only_for_its_own(z: ZoneView, q: wire::QueryView, k: int)
    requires
        0 <= k < z.reply(q).answers.len(),
    ensures
        ({
            let a = z.reply(q).answers[k];
            let name = normal(wire::name_ascii(a.owner));
            &&& z.ours(name)
            &&& z.names.contains_key(name)
            &&& a == address_record(a.owner, z.names[name])
        }),
{
    lemma_records(z, q.questions, k);
}

/// A name of the mesh that is known resolves, and one that is not is denied.
pub proof fn law_known_resolves_and_unknown_is_denied(z: ZoneView, q: wire::QueryView)
    requires
        q.questions.len() == 1,
        q.questions[0].qtype == TYPE_A,
        in_mesh(normal(wire::name_ascii(q.questions[0].name))),
    ensures
        ({
            let name = normal(wire::name_ascii(q.questions[0].name));
            if z.names.contains_key(name) {
                &&& z.reply(q).answers == seq![
                    address_record(q.questions[0].name, z.names[name]),
                ]
                &&& z.reply(q).head.code == Rcode::NoError
            } else {
                &&& z.reply(q).answers.len() == 0
                &&& z.reply(q).head.code == Rcode::NXDomain
            }
        }),
{
    let qs = q.questions;
    let name = normal(wire::name_ascii(qs[0].name));
    assert(qs.last() == qs[0]);
    assert(qs.drop_last() =~= seq![]);
    assert(z.records(qs.drop_last()) =~= seq![]);
    if z.names.contains_key(name) {
        assert(z.records(qs) =~= seq![address_record(qs[0].name, z.names[name])]);
    } else {
        assert(z.missing(qs[0]));
    }
}

/// A query that asks for nothing under the mesh's own suffix draws no denial; and one that asks for
/// nothing that may be spoken for draws no answer either.
pub proof fn law_no_standing_no_denial(z: ZoneView, q: wire::QueryView)
    requires
        forall|i: int|
            0 <= i < q.questions.len() ==> !in_mesh(
                normal(wire::name_ascii((#[trigger] q.questions[i]).name)),
            ),
    ensures
        z.reply(q).head.code == Rcode::NoError,
        (forall|i: int|
            0 <= i < q.questions.len() ==> !z.ours(
                normal(wire::name_ascii((#[trigger] q.questions[i]).name)),
            )) ==> z.reply(q).answers.len() == 0,
{
    if z.reply(q).answers.len() > 0 {
        lemma_records(z, q.questions, 0);
    }
}

/// The suffix of every name under a domain.
pub open spec fn domain_suffix(d: Seq<char>) -> Seq<char> {
    text::lower("."@ + d)
}

/// Whether a domain is not the mesh's own suffix, nor a part of it, nor under it.
pub open spec fn outside_domain(d: Seq<char>) -> bool {
    &&& !text::ends_with(domain_suffix(d), cert::mesh_suffix())
    &&& !text::ends_with(cert::mesh_suffix(), domain_suffix(d))
}

proof fn lemma_two_suffixes(s: Seq<char>, a: Seq<char>, b: Seq<char>)
    requires
        text::ends_with(s, a),
        text::ends_with(s, b),
        a.len() <= b.len(),
    ensures
        text::ends_with(b, a),
{
    assert(b.skip(b.len() - a.len()) =~= a) by {
        assert forall|i: int| 0 <= i < a.len() implies b[b.len() - a.len() + i] == a[i] by {
            assert(s.skip(s.len() - a.len())[i] == a[i]);
            assert(s.skip(s.len() - b.len())[b.len() - a.len() + i] == b[b.len() - a.len() + i]);
        }
    }
}

proof fn lemma_lower_twice(s: Seq<char>)
    ensures
        text::lower(text::lower(s)) == text::lower(s),
{
    assert(text::lower(text::lower(s)) =~= text::lower(s));
}

/// An alias lies outside the mesh, and no two names have the same one.
proof fn lemma_alias(n: Seq<char>, d: Seq<char>)
    requires
        outside_domain(d),
        in_mesh(n),
        text::lower(n) == n,
    ensures
        alias_of(n, Some(d)) == Some(
            n.take(n.len() - cert::mesh_suffix().len()) + domain_suffix(d),
        ),
        !in_mesh(alias_of(n, Some(d))->0),
{
    let k = n.len() - cert::mesh_suffix().len();
    let stem = n.take(k);
    let a = alias_of(n, Some(d))->0;
    assert(stem + "."@ + d =~= stem + ("."@ + d));
    assert(a =~= text::lower(stem) + domain_suffix(d));
    assert(text::lower(stem) =~= stem) by {
        assert forall|i: int| 0 <= i < stem.len() implies text::lower(stem)[i] == stem[i] by {
            assert(text::lower(n)[i] == n[i]);
        }
    }
    assert(text::ends_with(a, domain_suffix(d))) by {
        assert(a.skip(a.len() - domain_suffix(d).len()) =~= domain_suffix(d));
    }
    if in_mesh(a) {
        if domain_suffix(d).len() <= cert::mesh_suffix().len() {
            lemma_two_suffixes(a, domain_suffix(d), cert::mesh_suffix());
        } else {
            lemma_two_suffixes(a, cert::mesh_suffix(), domain_suffix(d));
        }
    }
}

proof fn lemma_alias_apart(n: Seq<char>, m: Seq<char>, d: Seq<char>)
    requires
        outside_domain(d),
        in_mesh(n),
        in_mesh(m),
        text::lower(n) == n,
        text::lower(m) == m,
        alias_of(n, Some(d)) == alias_of(m, Some(d)),
    ensures
        n == m,
{
    lemma_alias(n, d);
    lemma_alias(m, d);
    let s = cert::mesh_suffix();
    let kn = n.len() - s.len();
    let km = m.len() - s.len();
    let a = alias_of(n, Some(d))->0;
    assert(a.len() == kn + domain_suffix(d).len());
    assert(a.len() == km + domain_suffix(d).len());
    assert(n =~= m) by {
        assert forall|i: int| 0 <= i < n.len() implies n[i] == m[i] by {
            if i < kn {
                assert(a[i] == n.take(kn)[i]);
                assert(a[i] == m.take(km)[i]);
            } else {
                assert(n.skip(kn)[i - kn] == s[i - kn]);
                assert(m.skip(km)[i - kn] == s[i - kn]);
            }
        }
    }
}

/// Whether every name of the mesh has its alias, with the same address.
pub open spec fn aliased(m: Map<Seq<char>, u32>, d: Seq<char>) -> bool {
    forall|n: Seq<char>| #[trigger]
        m.contains_key(n) && in_mesh(n) ==> text::lower(n) == n && {
            let a = alias_of(n, Some(d))->0;
            m.contains_key(a) && m[a] == m[n]
        }
}

proof fn lemma_with_name(m: Map<Seq<char>, u32>, name: Seq<char>, ip: u32, d: Seq<char>)
    requires
        outside_domain(d),
        aliased(m, d),
        in_mesh(normal(name)),
    ensures
        aliased(with_name(m, name, ip, Some(d)), d),
{
    let n = normal(name);
    let r = with_name(m, name, ip, Some(d));
    lemma_lower_twice(text::trim_end(name, '.'));
    lemma_alias(n, d);
    let a = alias_of(n, Some(d))->0;
    assert forall|x: Seq<char>| #[trigger] r.contains_key(x) && in_mesh(x) implies text::lower(x)
        == x && {
        let y = alias_of(x, Some(d))->0;
        r.contains_key(y) && r[y] == r[x]
    } by {
        if x != n {
            assert(x != a);
            assert(m.contains_key(x));
            lemma_alias(x, d);
            let y = alias_of(x, Some(d))->0;
            assert(y != n);
            if y == a {
                lemma_alias_apart(x, n, d);
            }
        }
    }
}

proof fn lemma_with_host(
    m: Map<Seq<char>, u32>,
    hostname: Seq<char>,
    alias: Option<Seq<char>>,
    ip: u32,
    d: Seq<char>,
)
    requires
        outside_domain(d),
        aliased(m, d),
        in_mesh(normal(hostname)),
        alias matches Some(a) ==> in_mesh(normal(a)),
    ensures
        aliased(with_host(m, hostname, alias, ip, Some(d)), d),
{
    lemma_with_name(m, hostname, ip, d);
    if let Some(a) = alias {
        lemma_with_name(with_name(m, hostname, ip, Some(d)), a, ip, d);
    }
}

/// Whether a device's names lie in the mesh.
pub open spec fn named_in_mesh(hostname: Seq<char>, alias: Option<Seq<char>>) -> bool {
    &&& in_mesh(normal(hostname))
    &&& alias matches Some(a) ==> in_mesh(normal(a))
}

proof fn lemma_with_seeds(m: Map<Seq<char>, u32>, seeds: Seq<mesh::SeedView>, d: Seq<char>)
    requires
        outside_domain(d),
        aliased(m, d),
        forall|i: int|
            0 <= i < seeds.len() ==> named_in_mesh(
                (#[trigger] seeds[i]).hostname,
                seeds[i].primary_alias,
            ),
    ensures
        aliased(with_seeds(m, seeds, Some(d)), d),
    decreases seeds.len(),
{
    if seeds.len() > 0 {
        let t = seeds.drop_last();
        assert forall|i: int| 0 <= i < t.len() implies named_in_mesh(
            (#[trigger] t[i]).hostname,
            t[i].primary_alias,
        ) by {
            assert(t[i] == seeds[i]);
        }
        lemma_with_seeds(m, t, d);
        let s = seeds.last();
        assert(s == seeds[seeds.len() - 1]);
        lemma_with_host(with_seeds(m, t, Some(d)), s.hostname, s.primary_alias, s.ip, d);
    }
}

/// In the zone of a device and its peers, every name of the mesh has an alias under the certificate
/// domain, with the same address.
pub proof fn law_alias_resolves_alike(
    me: mesh::DeviceView,
    seeds: Seq<mesh::SeedView>,
    d: Seq<char>,
    n: Seq<char>,
)
    requires
        me.dns_domain == Some(d),
        outside_domain(d),
        named_in_mesh(me.hostname, me.primary_alias),
        forall|i: int|
            0 <= i < seeds.len() ==> named_in_mesh(
                (#[trigger] seeds[i]).hostname,
                seeds[i].primary_alias,
            ),
        zone_of(me, seeds).names.contains_key(n),
        in_mesh(n),
    ensures
        ({
            let z = zone_of(me, seeds);
            let a = alias_of(n, Some(d))->0;
            z.names.contains_key(a) && z.names[a] == z.names[n]
        }),
{
    let none = Map::<Seq<char>, u32>::empty();
    lemma_with_host(none, me.hostname, me.primary_alias, me.wg_ip, d);
    lemma_with_seeds(
        with_host(none, me.hostname, me.primary_alias, me.wg_ip, Some(d)),
        seeds,
        d,
    );
}

/// The names that a device goes by: its own, and its owner's where it is the owner's primary one.
pub open spec fn goes_by(hostname: Seq<char>, alias: Option<Seq<char>>, x: Seq<char>) -> bool {
    x == normal(hostname) || (alias matches Some(a) && x == normal(a))
}

/// Whether a name is one of those, or the same under the certificate domain.
pub open spec fn is_called(
    hostname: Seq<char>,
    alias: Option<Seq<char>>,
    domain: Option<Seq<char>>,
    x: Seq<char>,
) -> bool {
    exists|n: Seq<char>| #[trigger]
        goes_by(hostname, alias, n) && (x == n || alias_of(n, domain) == Some(x))
}

proof fn lemma_host_names(
    m: Map<Seq<char>, u32>,
    hostname: Seq<char>,
    alias: Option<Seq<char>>,
    ip: u32,
    domain: Option<Seq<char>>,
    x: Seq<char>,
)
    ensures
        ({
            let r = with_host(m, hostname, alias, ip, domain);
            if is_called(hostname, alias, domain, x) {
                r.contains_key(x) && r[x] == ip
            } else {
                (r.contains_key(x) <==> m.contains_key(x)) && (m.contains_key(x) ==> r[x] == m[x])
            }
        }),
{
    let h = normal(hostname);
    assert(goes_by(hostname, alias, h));
    if let Some(a) = alias {
        assert(goes_by(hostname, alias, normal(a)));
    }
    if is_called(hostname, alias, domain, x) {
        let n = choose|n: Seq<char>| #[trigger]
            goes_by(hostname, alias, n) && (x == n || alias_of(n, domain) == Some(x));
        assert(n == h || (alias matches Some(a) && n == normal(a)));
    }
}

proof fn lemma_seed_names(
    m: Map<Seq<char>, u32>,
    seeds: Seq<mesh::SeedView>,
    domain: Option<Seq<char>>,
    x: Seq<char>,
)
    ensures
        ({
            let r = with_seeds(m, seeds, domain);
            &&& (forall|i: int|
                0 <= i < seeds.len() ==> !is_called(
                    (#[trigger] seeds[i]).hostname,
                    seeds[i].primary_alias,
                    domain,
                    x,
                )) ==> (r.contains_key(x) <==> m.contains_key(x)) && (m.contains_key(x) ==> r[x]
                == m[x])
            &&& forall|i: int|
                0 <= i < seeds.len() && is_called(
                    (#[trigger] seeds[i]).hostname,
                    seeds[i].primary_alias,
                    domain,
                    x,
                ) && (forall|j: int|
                    i < j < seeds.len() ==> !is_called(
                        (#[trigger] seeds[j]).hostname,
                        seeds[j].primary_alias,
                        domain,
                        x,
                    )) ==> r.contains_key(x) && r[x] == seeds[i].ip
            &&& forall|i: int|
                0 <= i < seeds.len() && is_called(
                    (#[trigger] seeds[i]).hostname,
                    seeds[i].primary_alias,
                    domain,
                    x,
                ) ==> r.contains_key(x)
        }),
    decreases seeds.len(),
{
    if seeds.len() > 0 {
        let t = seeds.drop_last();
        let s = seeds.last();
        let n = seeds.len() - 1;
        assert(seeds[n] == s);
        let before = with_seeds(m, t, domain);
        let r = with_seeds(m, seeds, domain);
        lemma_seed_names(m, t, domain, x);
        lemma_host_names(before, s.hostname, s.primary_alias, s.ip, domain, x);
        if forall|i: int|
            0 <= i < seeds.len() ==> !is_called(
                (#[trigger] seeds[i]).hostname,
                seeds[i].primary_alias,
                domain,
                x,
            ) {
            assert(!is_called(seeds[n].hostname, seeds[n].primary_alias, domain, x));
            assert forall|i: int| 0 <= i < t.len() implies !is_called(
                (#[trigger] t[i]).hostname,
                t[i].primary_alias,
                domain,
                x,
            ) by {
                assert(t[i] == seeds[i]);
            }
        }
        assert forall|i: int|
            0 <= i < seeds.len() && is_called(
                (#[trigger] seeds[i]).hostname,
                seeds[i].primary_alias,
                domain,
                x,
            ) && (forall|j: int|
                i < j < seeds.len() ==> !is_called(
                    (#[trigger] seeds[j]).hostname,
                    seeds[j].primary_alias,
                    domain,
                    x,
                )) implies r.contains_key(x) && r[x] == seeds[i].ip by {
            if i < n {
                assert(!is_called(seeds[n].hostname, seeds[n].primary_alias, domain, x));
                assert(t[i] == seeds[i]);
                assert forall|j: int| i < j < t.len() implies !is_called(
                    (#[trigger] t[j]).hostname,
                    t[j].primary_alias,
                    domain,
                    x,
                ) by {
                    assert(t[j] == seeds[j]);
                }
            }
        }
        assert forall|i: int|
            0 <= i < seeds.len() && is_called(
                (#[trigger] seeds[i]).hostname,
                seeds[i].primary_alias,
                domain,
                x,
            ) implies r.contains_key(x) by {
            if i < n {
                assert(t[i] == seeds[i]);
            }
        }
    }
}

/// Every name of every peer resolves: its hostname, its owner's name where it is the owner's primary
/// device, and both under the certificate domain. The address is the peer's, unless a peer that comes
/// after it in the list has the name too.
pub proof fn law_every_peer_resolves(
    me: mesh::DeviceView,
    seeds: Seq<mesh::SeedView>,
    i: int,
    x: Seq<char>,
)
    requires
        0 <= i < seeds.len(),
        is_called(seeds[i].hostname, seeds[i].primary_alias, me.dns_domain, x),
    ensures
        zone_of(me, seeds).names.contains_key(x),
        (forall|j: int|
            i < j < seeds.len() ==> !is_called(
                (#[trigger] seeds[j]).hostname,
                seeds[j].primary_alias,
                me.dns_domain,
                x,
            )) ==> zone_of(me, seeds).names[x] == seeds[i].ip,
{
    lemma_seed_names(
        with_host(Map::empty(), me.hostname, me.primary_alias, me.wg_ip, me.dns_domain),
        seeds,
        me.dns_domain,
        x,
    );
}

/// So do the names of this device, to its own address, unless a peer has the name too.
pub proof fn law_this_device_resolves(
    me: mesh::DeviceView,
    seeds: Seq<mesh::SeedView>,
    x: Seq<char>,
)
    requires
        is_called(me.hostname, me.primary_alias, me.dns_domain, x),
    ensures
        zone_of(me, seeds).names.contains_key(x),
        (forall|j: int|
            0 <= j < seeds.len() ==> !is_called(
                (#[trigger] seeds[j]).hostname,
                seeds[j].primary_alias,
                me.dns_domain,
                x,
            )) ==> zone_of(me, seeds).names[x] == me.wg_ip,
{
    let none = Map::<Seq<char>, u32>::empty();
    lemma_host_names(none, me.hostname, me.primary_alias, me.wg_ip, me.dns_domain, x);
    lemma_seed_names(
        with_host(none, me.hostname, me.primary_alias, me.wg_ip, me.dns_domain),
        seeds,
        me.dns_domain,
        x,
    );
}

/// No other name is in the zone, and the suffix that it speaks for besides is the deployment's.
pub proof fn law_no_other_name_resolves(
    me: mesh::DeviceView,
    seeds: Seq<mesh::SeedView>,
    x: Seq<char>,
)
    ensures
        zone_of(me, seeds).cert_domain == me.dns_domain,
        zone_of(me, seeds).names.contains_key(x) ==> is_called(
            me.hostname,
            me.primary_alias,
            me.dns_domain,
            x,
        ) || exists|i: int|
            0 <= i < seeds.len() && is_called(
                (#[trigger] seeds[i]).hostname,
                seeds[i].primary_alias,
                me.dns_domain,
                x,
            ),
{
    let none = Map::<Seq<char>, u32>::empty();
    lemma_host_names(none, me.hostname, me.primary_alias, me.wg_ip, me.dns_domain, x);
    lemma_seed_names(
        with_host(none, me.hostname, me.primary_alias, me.wg_ip, me.dns_domain),
        seeds,
        me.dns_domain,
        x,
    );
}

/// The names that a device goes by are in the zone as a whole: its hostname, and its owner's name where
/// it has that, as they are looked up.
pub proof fn law_hostname_and_alias_are_names(
    hostname: Seq<char>,
    alias: Option<Seq<char>>,
    domain: Option<Seq<char>>,
)
    ensures
        is_called(
            hostname,
            alias,
            domain,
            text::lower(text::trim_end(hostname, '.')),
        ),
        alias matches Some(a) ==> is_called(
            hostname,
            alias,
            domain,
            text::lower(text::trim_end(a, '.')),
        ),
{
    assert(goes_by(hostname, alias, normal(hostname)));
    if let Some(a) = alias {
        assert(goes_by(hostname, alias, normal(a)));
    }
}

/// A name of the mesh has an alias under a domain: what stands before the mesh's suffix, with the domain
/// behind it, in lower case. A name outside the mesh has none.
pub proof fn law_alias_is_under_the_domain(stem: Seq<char>, d: Seq<char>, name: Seq<char>)
    ensures
        alias_of(stem + ".unity.internal"@, Some(d)) == Some(text::lower(stem + "."@ + d)),
        alias_of(name, None) is None,
        alias_of(name, Some(d)) is Some ==> exists|t: Seq<char>|
            name == #[trigger] (t + ".unity.internal"@),
{
    let s = cert::mesh_suffix();
    let n = stem + s;
    assert(n.skip(n.len() - s.len()) =~= s);
    assert(n.take(n.len() - s.len()) =~= stem);
    if alias_of(name, Some(d)) is Some {
        let t = name.take(name.len() - s.len());
        assert(name =~= t + s) by {
            assert(name.skip(name.len() - s.len()) =~= s);
        }
    }
}

/// Each question is answered for itself, in order: what questions draw together is what they draw one by
/// one. A question for an address of a name that may be spoken for and is known draws one record, which
/// is of that name as it was asked and has its address; any other draws none.
pub proof fn law_each_question_for_itself(
    z: ZoneView,
    a: Seq<wire::QuestionView>,
    b: Seq<wire::QuestionView>,
    q: wire::QuestionView,
)
    ensures
        z.records(a + b) == z.records(a) + z.records(b),
        ({
            let name = text::lower(text::trim_end(wire::name_ascii(q.name), '.'));
            let ours = text::ends_with(name, ".unity.internal"@) || (z.cert_domain matches Some(d)
                && text::ends_with(name, "."@ + d));
            if q.qtype == 1 && ours && z.names.contains_key(name) {
                &&& z.records(seq![q]).len() == 1
                &&& z.records(seq![q])[0].owner == q.name
                &&& z.records(seq![q])[0].ttl == 30
                &&& z.records(seq![q])[0].data == wire::DataView::Addr(z.names[name])
            } else {
                z.records(seq![q]).len() == 0
            }
        }),
    decreases b.len(),
{
    assert(seq![q].drop_last() =~= seq![]);
    assert(z.records(seq![]) =~= seq![]);
    if b.len() == 0 {
        assert(a + b =~= a);
        assert(z.records(a) + z.records(b) =~= z.records(a));
    } else {
        law_each_question_for_itself(z, a, b.drop_last(), q);
        assert((a + b).drop_last() =~= a + b.drop_last());
        assert((a + b).last() == b.last());
        assert(z.records(a + b) =~= z.records(a) + z.records(b));
    }
}

/// A reply is to its query: it has the query's number and questions, says whether recursion was asked for
/// as the query did, never offers it, and answers with authority. It denies if and only if it has no
/// answer and some address was asked for of a name of the mesh that is not known.
pub proof fn law_reply_is_to_its_query(z: ZoneView, q: wire::QueryView)
    ensures
        z.reply(q).head.id == q.id,
        z.reply(q).head.op_code == 0,
        z.reply(q).head.recursion_desired == q.recursion_desired,
        !z.reply(q).head.recursion_available,
        z.reply(q).head.authoritative,
        !z.reply(q).head.truncated,
        z.reply(q).questions == q.questions,
        z.reply(q).answers == z.records(q.questions),
        z.reply(q).authorities.len() == 0,
        z.reply(q).head.code == Rcode::NXDomain || z.reply(q).head.code == Rcode::NoError,
        z.reply(q).head.code == Rcode::NXDomain <==> z.reply(q).answers.len() == 0 && exists|i: int|
            0 <= i < q.questions.len() && (#[trigger] q.questions[i]).qtype == 1 && text::ends_with(
                text::lower(text::trim_end(wire::name_ascii(q.questions[i].name), '.')),
                ".unity.internal"@,
            ) && !z.names.contains_key(
                text::lower(text::trim_end(wire::name_ascii(q.questions[i].name), '.')),
            ),
{
    if z.any_missing(q.questions) {
        let i = choose|i: int|
            0 <= i < q.questions.len() && z.missing(#[trigger] q.questions[i]);
        assert(q.questions[i].qtype == 1);
    }
    if exists|i: int|
        0 <= i < q.questions.len() && (#[trigger] q.questions[i]).qtype == 1 && text::ends_with(
            text::lower(text::trim_end(wire::name_ascii(q.questions[i].name), '.')),
            ".unity.internal"@,
        ) && !z.names.contains_key(
            text::lower(text::trim_end(wire::name_ascii(q.questions[i].name), '.')),
        ) {
        let i = choose|i: int|
            0 <= i < q.questions.len() && (#[trigger] q.questions[i]).qtype == 1 && text::ends_with(
                text::lower(text::trim_end(wire::name_ascii(q.questions[i].name), '.')),
                ".unity.internal"@,
            ) && !z.names.contains_key(
                text::lower(text::trim_end(wire::name_ascii(q.questions[i].name), '.')),
            );
        assert(z.missing(q.questions[i]));
    }
}

} // verus!
