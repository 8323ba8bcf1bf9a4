//! What devices ask each other over the tunnel.
//!
//! A device hands its own attestations to the peers it is meshed with, so that they can refresh them
//! without the coordinator; and tells them which of its services they may reach. The asker verifies
//! what it is given, so that nothing here is trusted. The datagrams themselves are the caller's.
use crate::api::{self, valid_label, MeshService};
use crate::fw::{self, Firewall};
use crate::net::{Endpoint, Ip};
use vstd::prelude::*;
use vstd::string::*;

verus! {

/// An attestation as the coordinator made it.
pub struct AttestationBlob {
    pub attestation: String,
    pub community_name: String,
    /// How the attestation is laid out.
    pub att_schema: u32,
}

/// The model of an attestation.
#[verifier::ext_equal]
pub struct BlobView {
    pub attestation: Seq<char>,
    pub community_name: Seq<char>,
    pub att_schema: u32,
}

impl View for AttestationBlob {
    type V = BlobView;

    open spec fn view(&self) -> BlobView {
        BlobView {
            attestation: self.attestation@,
            community_name: self.community_name@,
            att_schema: self.att_schema,
        }
    }
}

/// The models of a list of attestations.
pub open spec fn blob_views(s: Seq<AttestationBlob>) -> Seq<BlobView> {
    s.map_values(|b: AttestationBlob| b@)
}

fn copy_blobs(v: &Vec<AttestationBlob>) -> (r: Vec<AttestationBlob>)
    ensures
        blob_views(r@) == blob_views(v@),
{
    let ghost want = blob_views(v@);
    let mut out: Vec<AttestationBlob> = Vec::new();
    let mut i: usize = 0;
    assert(blob_views(out@) =~= want.take(0));
    while i < v.len()
        invariant
            i <= v.len(),
            want == blob_views(v@),
            blob_views(out@) == want.take(i as int),
        decreases v.len() - i,
    {
        let b = AttestationBlob {
            attestation: v[i].attestation.clone(),
            community_name: v[i].community_name.clone(),
            att_schema: v[i].att_schema,
        };
        let ghost bv = b@;
        let ghost before = blob_views(out@);
        out.push(b);
        assert(blob_views(out@) =~= before.push(bv));
        assert(want.take(i + 1) =~= want.take(i as int).push(want[i as int]));
        i += 1;
    }
    assert(want.take(i as int) =~= want);
    out
}

/// This device's own attestations, as they stand.
pub struct OwnAttestations {
    pub blobs: Vec<AttestationBlob>,
}

impl View for OwnAttestations {
    type V = Seq<BlobView>;

    open spec fn view(&self) -> Seq<BlobView> {
        blob_views(self.blobs@)
    }
}

impl OwnAttestations {
    /// None yet.
    pub fn new() -> (r: OwnAttestations)
        ensures
            r@ == Seq::<BlobView>::empty(),
    {
        let r = OwnAttestations { blobs: Vec::new() };
        assert(r@ =~= Seq::<BlobView>::empty());
        r
    }

    /// Takes the place of what was held.
    pub fn set(&mut self, atts: Vec<AttestationBlob>)
        ensures
            final(self)@ == blob_views(atts@),
    {
        self.blobs = atts;
    }

    /// What is held.
    pub fn get(&self) -> (r: Vec<AttestationBlob>)
        ensures
            blob_views(r@) == self@,
    {
        copy_blobs(&self.blobs)
    }
}

/// Where the services to announce come from.
pub trait ServiceSource {
    /// The services that an address may reach.
    spec fn offers(&self, peer: u32) -> Seq<api::ServiceView>;

    /// The services that an address may reach.
    fn services_for(&self, peer: u32) -> (r: Vec<MeshService>)
        ensures
            api::service_views(r@) == self.offers(peer),
    ;
}

/// The firewall knows both what is named and whom its scope admits, so that a peer that cannot reach
/// a port does not learn its name.
impl ServiceSource for Firewall {
    open spec fn offers(&self, peer: u32) -> Seq<api::ServiceView> {
        fw::announced(self@, peer)
    }

    fn services_for(&self, peer: u32) -> (r: Vec<MeshService>) {
        Firewall::services_for(self, peer)
    }
}

/// The services to announce: none before there is a firewall.
pub struct OwnServices<S> {
    pub source: Option<S>,
}

impl<S: ServiceSource> OwnServices<S> {
    /// The services that an asker may reach.
    pub open spec fn shown(&self, peer: Endpoint) -> Seq<api::ServiceView> {
        match (peer.ip, self.source) {
            (Ip::V4(a), Some(s)) => s.offers(a),
            _ => seq![],
        }
    }

    /// Services from a source.
    pub fn new(source: S) -> (r: OwnServices<S>)
        ensures
            r.source == Some(source),
    {
        OwnServices { source: Some(source) }
    }

    /// No services yet.
    pub fn none() -> (r: OwnServices<S>)
        ensures
            r.source is None,
    {
        OwnServices { source: None }
    }

    /// The services that an asker may reach.
    pub fn visible_to(&self, peer: Endpoint) -> (r: Vec<MeshService>)
        ensures
            api::service_views(r@) == self.shown(peer),
    {
        match (peer.ip, &self.source) {
            (Ip::V4(a), Some(s)) => s.services_for(a),
            _ => {
                let r: Vec<MeshService> = Vec::new();
                assert(api::service_views(r@) =~= seq![]);
                r
            },
        }
    }
}

/// What is asked.
#[derive(Clone, Copy, Debug, PartialEq, Eq, Structural)]
pub enum ReqBody {
    GetAttestations,
    GetServices,
    /// Something that this version does not know.
    Unknown,
}

/// A request.
#[derive(Clone, Copy, Debug, PartialEq, Eq, Structural)]
pub struct P2pRequest {
    /// The version that the asker speaks; 0 from before versions were told.
    pub proto: u32,
    pub body: ReqBody,
}

/// What is answered.
pub enum RespBody {
    Attestations { attestations: Vec<AttestationBlob> },
    Services { services: Vec<MeshService> },
    Unsupported,
    /// Something that this version does not know.
    Unknown,
}

/// The model of an answer.
#[verifier::ext_equal]
pub enum RespView {
    Attestations { attestations: Seq<BlobView> },
    Services { services: Seq<api::ServiceView> },
    Unsupported,
    Unknown,
}

impl View for RespBody {
    type V = RespView;

    open spec fn view(&self) -> RespView {
        match self {
            RespBody::Attestations { attestations } => RespView::Attestations {
                attestations: blob_views(attestations@),
            },
            RespBody::Services { services } => RespView::Services {
                services: api::service_views(services@),
            },
            RespBody::Unsupported => RespView::Unsupported,
            RespBody::Unknown => RespView::Unknown,
        }
    }
}

/// A response.
pub struct P2pResponse {
    pub proto: u32,
    pub body: RespBody,
}

/// The versions that this one can talk to.
#[derive(Clone, Copy, Debug, PartialEq, Eq, Structural)]
pub struct Window {
    pub oldest: u32,
    pub current: u32,
}

/// Whether a request comes from a version that can be talked to.
pub open spec fn spoken(w: Window, proto: u32) -> bool {
    proto == 0 || w.oldest <= proto <= w.current
}

/// The answer to a request: this device's own attestations, or the services that the asker may reach.
/// A version that is too far off is told so, and falls back on the coordinator.
pub open spec fn reply_body<S: ServiceSource>(
    req: P2pRequest,
    from: Endpoint,
    own: Seq<BlobView>,
    services: OwnServices<S>,
    w: Window,
) -> RespView {
    if !spoken(w, req.proto) {
        RespView::Unsupported
    } else {
        match req.body {
            ReqBody::GetAttestations => RespView::Attestations { attestations: own },
            ReqBody::GetServices => RespView::Services { services: services.shown(from) },
            ReqBody::Unknown => RespView::Unsupported,
        }
    }
}

/// What is sent back for a datagram: nothing for one that is no request. What an asker is told goes by
/// the address that its datagram came from, which over the tunnel is the asker's own.
pub fn respond<S: ServiceSource>(
    req: Option<P2pRequest>,
    from: Endpoint,
    own: &OwnAttestations,
    services: &OwnServices<S>,
    w: Window,
) -> (r: Option<P2pResponse>)
    ensures
        match (req, r) {
            (None, None) => true,
            (Some(q), Some(p)) => p.proto == w.current && p.body@ == reply_body(
                q,
                from,
                own@,
                *services,
                w,
            ),
            _ => false,
        },
{
    let q = match req {
        Some(q) => q,
        None => {
            return None;
        },
    };
    let body = if q.proto != 0 && !(w.oldest <= q.proto && q.proto <= w.current) {
        RespBody::Unsupported
    } else {
        match q.body {
            ReqBody::GetAttestations => RespBody::Attestations { attestations: own.get() },
            ReqBody::GetServices => RespBody::Services { services: services.visible_to(from) },
            ReqBody::Unknown => RespBody::Unsupported,
        }
    };
    Some(P2pResponse { proto: w.current, body })
}

/// The request that asks for something.
pub fn request(body: ReqBody, w: Window) -> (r: P2pRequest)
    ensures
        r == (P2pRequest { proto: w.current, body }),
{
    P2pRequest { proto: w.current, body }
}

/// Where to send from: any port, of the family of the address asked.
pub fn bind_for(target: Endpoint) -> (r: Endpoint)
    ensures
        r.port == 0,
        match target.ip {
            Ip::V4(_) => r.ip == Ip::V4(0),
            Ip::V6(_) => r.ip == Ip::V6(0),
        },
{
    match target.ip {
        Ip::V4(_) => Endpoint { ip: Ip::V4(0), port: 0 },
        Ip::V6(_) => Endpoint { ip: Ip::V6(0), port: 0 },
    }
}

/// Why an answer is of no use.
pub open spec fn complaint(body: RespView, what: Seq<char>) -> Seq<char> {
    if body is Unsupported {
        "peer does not support "@ + what
    } else {
        "peer replied with an unrecognized p2p response type"@
    }
}

fn unexpected(body: &RespBody, what: &str) -> (r: String)
    ensures
        r@ == complaint(body@, what@),
{
    match body {
        RespBody::Unsupported => {
            let mut t = "peer does not support ".to_owned();
            t.append(what);
            t
        },
        _ => "peer replied with an unrecognized p2p response type".to_owned(),
    }
}

/// The attestations that a peer answered with; the caller verifies them.
pub fn pull(body: RespBody) -> (r: Result<Vec<AttestationBlob>, String>)
    ensures
        match (body@, r) {
            (RespView::Attestations { attestations }, Ok(v)) => blob_views(v@) == attestations,
            (RespView::Attestations { .. }, Err(_)) => false,
            (b, Err(e)) => e@ == complaint(b, "attestation pull"@),
            _ => false,
        },
{
    match body {
        RespBody::Attestations { attestations } => Ok(attestations),
        other => Err(unexpected(&other, "attestation pull")),
    }
}

/// The services whose labels can be resolved.
pub open spec fn usable(s: Seq<api::ServiceView>) -> Seq<api::ServiceView>
    decreases s.len(),
{
    if s.len() == 0 {
        seq![]
    } else if api::is_label(s.last().name) {
        usable(s.drop_last()).push(s.last())
    } else {
        usable(s.drop_last())
    }
}

/// At most `max` of the services whose labels can be resolved.
pub open spec fn accepted(s: Seq<api::ServiceView>, max: usize) -> Seq<api::ServiceView> {
    let u = usable(s);
    if u.len() <= max {
        u
    } else {
        u.take(max as int)
    }
}

/// The services that a peer answered with. The list is what the peer says, so a label that could
/// never be resolved is dropped, and so is whatever is beyond `max`. A peer from before there were
/// services has none.
pub fn pull_services(body: RespBody, max: usize) -> (r: Result<Vec<MeshService>, String>)
    ensures
        match (body@, r) {
            (RespView::Services { services }, Ok(v)) => api::service_views(v@) == accepted(
                services,
                max,
            ),
            (RespView::Services { .. }, Err(_)) => false,
            (RespView::Unsupported, Ok(v)) => v@.len() == 0,
            (RespView::Unsupported, Err(_)) => false,
            (b, Err(e)) => e@ == complaint(b, "service pull"@),
            _ => false,
        },
{
    match body {
        RespBody::Services { services } => {
            let ghost all = api::service_views(services@);
            let mut out: Vec<MeshService> = Vec::new();
            let mut i: usize = 0;
            assert(api::service_views(out@) =~= usable(all.take(0)));
            while i < services.len()
                invariant
                    i <= services.len(),
                    all == api::service_views(services@),
                    api::service_views(out@) == usable(all.take(i as int)),
                decreases services.len() - i,
            {
                assert(all.take(i + 1).drop_last() =~= all.take(i as int));
                assert(all[i as int] == services@[i as int]@);
                if valid_label(services[i].name.as_str()) {
                    let s = services[i].copy();
                    let ghost sv = s@;
                    let ghost before = api::service_views(out@);
                    out.push(s);
                    assert(api::service_views(out@) =~= before.push(sv));
                }
                i += 1;
            }
            assert(all.take(i as int) =~= all);
            if out.len() > max {
                let ghost whole = api::service_views(out@);
                out.truncate(max);
                assert(api::service_views(out@) =~= whole.take(max as int));
            }
            Ok(out)
        },
        RespBody::Unsupported => Ok(Vec::new()),
        other => Err(unexpected(&other, "service pull")),
    }
}

proof fn lemma_usable(s: Seq<api::ServiceView>)
    ensures
        forall|i: int|
            0 <= i < usable(s).len() ==> api::is_label((#[trigger] usable(s)[i]).name)
                && s.contains(usable(s)[i]),
        forall|i: int|
            0 <= i < s.len() && api::is_label((#[trigger] s[i]).name) ==> usable(s).contains(s[i]),
    decreases s.len(),
{
    if s.len() > 0 {
        let t = s.drop_last();
        let (u, v) = (usable(t), usable(s));
        lemma_usable(t);
        assert forall|i: int| 0 <= i < v.len() implies api::is_label((#[trigger] v[i]).name)
            && s.contains(v[i]) by {
            if i < u.len() {
                assert(v[i] == u[i]);
                let k = choose|k: int| 0 <= k < t.len() && t[k] == u[i];
                assert(s[k] == v[i]);
            } else {
                assert(s[s.len() - 1] == v[i]);
            }
        }
        assert forall|i: int|
            0 <= i < s.len() && api::is_label((#[trigger] s[i]).name) implies v.contains(s[i]) by {
            if i < t.len() {
                assert(t[i] == s[i]);
                let k = choose|k: int| 0 <= k < u.len() && u[k] == t[i];
                assert(v[k] == s[i]);
            } else {
                assert(v[v.len() - 1] == s[i]);
            }
        }
    }
}

/// Whatever a peer announces, what is taken from it is bounded, and every label can be resolved.
pub proof fn law_announcements_are_bounded(s: Seq<api::ServiceView>, max: usize, i: int)
    requires
        0 <= i < accepted(s, max).len(),
    ensures
        accepted(s, max).len() <= max,
        api::is_label(accepted(s, max)[i].name),
        s.contains(accepted(s, max)[i]),
{
    lemma_usable(s);
    assert(accepted(s, max)[i] == usable(s)[i]);
}

/// A bad label costs only itself: as long as there is room, each usable one is kept.
pub proof fn law_bad_label_costs_only_itself(s: Seq<api::ServiceView>, max: usize, i: int)
    requires
        0 <= i < s.len(),
        api::is_label(s[i].name),
        usable(s).len() <= max,
    ensures
        accepted(s, max).contains(s[i]),
{
    lemma_usable(s);
}

/// A device hands out its own attestations only: they are what it holds when it is asked, whoever
/// asks, and never to a version that it cannot talk to.
pub proof fn law_only_own_attestations(
    req: P2pRequest,
    from: Endpoint,
    own: Seq<BlobView>,
    services: OwnServices<Firewall>,
    w: Window,
    given: Seq<BlobView>,
)
    requires
        reply_body(req, from, own, services, w) == (RespView::Attestations { attestations: given }),
    ensures
        given == own,
        req.body == ReqBody::GetAttestations,
        spoken(w, req.proto),
{
}

/// An asker is told of a service only when the firewall announces it to that very address.
pub proof fn law_told_what_is_announced(
    req: P2pRequest,
    from: Endpoint,
    own: Seq<BlobView>,
    f: Firewall,
    w: Window,
    told: Seq<api::ServiceView>,
    m: api::ServiceView,
)
    requires
        reply_body(req, from, own, (OwnServices { source: Some(f) }), w) == (RespView::Services {
            services: told,
        }),
        told.contains(m),
    ensures
        from.ip matches Ip::V4(a) && fw::announced(f@, a).contains(m),
{
}

/// The versions that are spoken are those of the window, and that of a peer from before there was one.
pub proof fn law_which_versions_are_spoken(w: Window, proto: u32)
    ensures
        spoken(w, 0),
        proto > 0 ==> (spoken(w, proto) <==> w.oldest <= proto && proto <= w.current),
{
}

/// What an asker is told: a version out of the window that it is not spoken, and one within what it
/// asked for, if that is known. Services are those that its address may reach.
pub proof fn law_what_an_asker_is_told<S: ServiceSource>(
    req: P2pRequest,
    ip: u32,
    port: u16,
    own: Seq<BlobView>,
    source: S,
    w: Window,
)
    ensures
        ({
            let from = Endpoint { ip: Ip::V4(ip), port };
            let services = OwnServices { source: Some(source) };
            let reply = reply_body(req, from, own, services, w);
            let heard = req.proto == 0 || (w.oldest <= req.proto && req.proto <= w.current);
            &&& !heard ==> reply is Unsupported
            &&& heard && req.body is GetAttestations ==> reply == (RespView::Attestations {
                attestations: own,
            })
            &&& heard && req.body is GetServices ==> reply == (RespView::Services {
                services: source.offers(ip),
            })
            &&& heard && req.body is Unknown ==> reply is Unsupported
            &&& heard && req.body is GetServices ==> reply_body(
                req,
                from,
                own,
                OwnServices::<S> { source: None },
                w,
            ) == (RespView::Services { services: seq![] })
        }),
{
}

/// A peer's services are taken as it names them and in its order, but those that could never be resolved
/// and those beyond the bound.
pub proof fn law_services_are_taken_one_by_one(
    a: Seq<api::ServiceView>,
    b: Seq<api::ServiceView>,
    m: api::ServiceView,
    max: usize,
)
    ensures
        usable(seq![]) == Seq::<api::ServiceView>::empty(),
        usable(seq![m]) == if api::is_label(m.name) {
            seq![m]
        } else {
            seq![]
        },
        usable(a + b) == usable(a) + usable(b),
        usable(a).len() <= max ==> accepted(a, max) == usable(a),
        usable(a).len() > max ==> accepted(a, max).len() == max && accepted(a, max).is_prefix_of(
            usable(a),
        ),
    decreases b.len(),
{
    assert(seq![m].drop_last() =~= seq![]);
    assert(usable(seq![]) =~= Seq::<api::ServiceView>::empty());
    assert(usable(seq![m]) =~= if api::is_label(m.name) {
        seq![m]
    } else {
        seq![]
    });
    if b.len() == 0 {
        assert(a + b =~= a);
        assert(usable(a) + usable(b) =~= usable(a));
    } else {
        law_services_are_taken_one_by_one(a, b.drop_last(), m, max);
        assert((a + b).drop_last() =~= a + b.drop_last());
        assert(usable(a + b) =~= usable(a) + usable(b));
    }
}

/// What is said of a peer's answer that is of no use.
pub proof fn law_what_is_said_of_a_useless_answer(what: Seq<char>, blobs: Seq<BlobView>)
    ensures
        complaint(RespView::Unsupported, what) == "peer does not support "@ + what,
        complaint(RespView::Unknown, what) == "peer replied with an unrecognized p2p response type"@,
        complaint(RespView::Attestations { attestations: blobs }, what)
            == "peer replied with an unrecognized p2p response type"@,
{
}

} // verus!
