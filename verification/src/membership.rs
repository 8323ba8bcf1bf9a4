//! What a device holds of the mesh between two answers of the coordinator: itself, and its peers.
use crate::assoc::{Assoc, PubKey};
use crate::coord::{
    self, accept, apply_pulled, merge_seeds, verify_pulled, CoordError, CoordReq, GuildAttestation,
    RegisterResp,
};
use crate::daemon::SentReport;
use crate::keys;
use crate::lifecycle;
use crate::mesh::{
    self, copy_allocations, copy_keys, copy_observations, copy_offers, HeldPeer, RelayReport,
    SeedPeer, SelfDevice,
};
use crate::net::Endpoint;
use crate::netcfg::{self, LocalNet};
use crate::text;
use vstd::prelude::*;
use vstd::string::*;

verus! {

/// This device as it was last granted, and its peers.
pub struct Membership {
    pub device: Option<SelfDevice>,
    pub seeds: Vec<SeedPeer>,
}

/// The model of a membership.
#[verifier::ext_equal]
pub struct MembershipView {
    pub device: Option<mesh::DeviceView>,
    pub seeds: Seq<mesh::SeedView>,
}

impl View for Membership {
    type V = MembershipView;

    open spec fn view(&self) -> MembershipView {
        MembershipView { device: lifecycle::opt_device(self.device), seeds: mesh::seed_views(self.seeds@) }
    }
}

/// What an answer came to.
pub struct Taken {
    /// The guilds whose pins are to be saved.
    pub written: Vec<u64>,
    /// Why the answer was refused, if it was.
    pub refused: Option<CoordError>,
}

/// Why an answer is refused, once its anchors were pinned as far as they may be.
pub open spec fn refusal(resp: RegisterResp, g: coord::PinnedView) -> Option<CoordError> {
    match g.refused {
        Some(e) => Some(CoordError::Anchor(e)),
        None => match resp.grant {
            Some(grant) => if coord::granted(
                grant@,
                coord::pins_for(coord::anchor_views(resp.anchors@), g.pins),
            ) is None {
                Some(CoordError::NoGrant)
            } else {
                None
            },
            None => None,
        },
    }
}

/// A membership after an answer that is not refused. Without a grant the device stays what it was,
/// for its names; it is the peers that such an answer takes away.
pub open spec fn taken(
    m: MembershipView,
    resp: RegisterResp,
    pins: Seq<(u64, Seq<u8>)>,
) -> MembershipView {
    MembershipView {
        device: match resp.grant {
            Some(g) => Some(
                coord::device_of(
                    g@,
                    (coord::granted(g@, pins)->0).0,
                    (coord::granted(g@, pins)->0).1,
                    mesh::network_status_views(resp.networks@),
                    text::opt_text(resp.dns_domain),
                ),
            ),
            None => m.device,
        },
        seeds: coord::merged(
            m.seeds,
            coord::admitted_of(coord::sent_views(resp.seeds@), pins),
            resp.partial,
            mesh::keys_of(resp.removed@),
        ),
    }
}

/// Whether this is what becomes of a membership and of the pins by an answer. One that is refused
/// changes nothing but the pins that came before what was refused.
pub open spec fn takes_in(
    was: MembershipView,
    pins: Map<u64, Seq<u8>>,
    resp: RegisterResp,
    m: MembershipView,
    pins_after: Map<u64, Seq<u8>>,
    t: Taken,
) -> bool {
    let named = coord::anchor_views(resp.anchors@);
    let g = coord::pinned_by(pins, named);
    &&& pins_after == g.pins
    &&& t.written@ == g.written
    &&& t.refused == refusal(resp, g)
    &&& m == match refusal(resp, g) {
        Some(_) => was,
        None => taken(was, resp, coord::pins_for(named, g.pins)),
    }
}

impl Membership {
    /// The membership before the first answer.
    pub fn new() -> (r: Membership)
        ensures
            r@ == (MembershipView { device: None, seeds: seq![] }),
    {
        let r = Membership { device: None, seeds: Vec::new() };
        assert(r@.seeds =~= seq![]);
        r
    }

    /// Takes in an answer. One that is refused changes nothing but the pins that came before what was
    /// refused.
    pub fn take_in(&mut self, resp: &RegisterResp, pins: &mut Assoc<u64, Vec<u8>>) -> (r: Taken)
        requires
            old(pins).wf(),
        ensures
            final(pins).wf(),
            takes_in(
                old(self)@,
                coord::file_views(old(pins)@),
                *resp,
                final(self)@,
                coord::file_views(final(pins)@),
                r,
            ),
    {
        let a = accept(resp, pins);
        let device = match a.device {
            Ok(d) => d,
            Err(e) => {
                return Taken { written: a.written, refused: Some(e) };
            },
        };
        self.seeds = merge_seeds(&self.seeds, resp, pins);
        if device.is_some() {
            self.device = device;
        }
        Taken { written: a.written, refused: None }
    }

    /// Takes over what a peer attests of itself, if that is to be adopted, and says whether it was.
    pub fn pulled(&mut self, i: usize, blobs: &Vec<GuildAttestation>, pinned: &Vec<(u64, PubKey)>) -> (
    adopted: bool)
        requires
            i < old(self).seeds@.len(),
        ensures
            final(self)@.device == old(self)@.device,
            ({
                let s = old(self)@.seeds[i as int];
                let a = coord::adopted(
                    coord::blob_views(blobs@),
                    keys::pin_views(pinned@),
                    s.pubkey,
                    s.expires_at,
                );
                &&& adopted == a is Some
                &&& final(self)@.seeds == match a {
                    Some(x) => old(self)@.seeds.update(i as int, coord::pulled(s, x)),
                    None => old(self)@.seeds,
                }
            }),
    {
        let ghost was = self@.seeds;
        assert(was[i as int] == self.seeds@[i as int]@);
        let pubkey = self.seeds[i].pubkey;
        let expires_at = self.seeds[i].expires_at;
        match verify_pulled(blobs, pubkey, expires_at, pinned) {
            Some(att) => {
                apply_pulled(&mut self.seeds[i], att);
                assert(self@.seeds =~= was.update(i as int, coord::pulled(was[i as int], att@)));
                true
            },
            None => false,
        }
    }
}

/// Who a device is to the coordinator.
pub struct Identity {
    pub wg_pubkey: PubKey,
    pub device_name: String,
    pub endpoint: Option<Endpoint>,
    pub enrollment_key: Option<String>,
}

/// Whether a statement is that of a device: it says who the device is, and what its owner decided.
pub open spec fn states(s: coord::StatementView, who: Identity, local: netcfg::LocalView) -> bool {
    &&& s.wg_pubkey == who.wg_pubkey@
    &&& s.device_name == who.device_name@
    &&& s.endpoint == who.endpoint
    &&& s.enrollment_key == text::opt_text(who.enrollment_key)
    &&& s.disabled_networks.no_duplicates()
    &&& s.disabled_networks.to_set() == local.disabled
    &&& s.paused == local.paused
    &&& s.peer_own_devices == local.peer_own
}

/// What a device says when it registers. `supersede` is the token of the key that this one replaces.
pub fn registering(
    who: &Identity,
    local: &LocalNet,
    relay: &RelayReport,
    supersede: Option<String>,
) -> (r: CoordReq)
    requires
        local.wf(),
    ensures
        states(r@, *who, local@),
        r@.since is None,
        r@.observed == Seq::<mesh::ObservedView>::empty(),
        r@.supersede == text::opt_text(supersede),
        r@.relay == relay@,
        r@.ice == Seq::<mesh::OfferView>::empty(),
        r@.held == Seq::<mesh::HeldView>::empty(),
{
    let r = CoordReq {
        wg_pubkey: who.wg_pubkey,
        device_name: who.device_name.clone(),
        endpoint: who.endpoint,
        enrollment_key: who.enrollment_key.clone(),
        since: None,
        disabled_networks: local.as_refs(),
        observed: Vec::new(),
        supersede,
        paused: local.is_paused(),
        peer_own_devices: local.peer_own_devices(),
        relay: relay.copy(),
        ice: Vec::new(),
        held: Vec::new(),
    };
    assert(r@.observed =~= seq![]);
    assert(r@.ice =~= seq![]);
    assert(r@.held =~= seq![]);
    r
}

/// What a device says when it refreshes: besides, what it saw of its peers, what it needs for them,
/// and which it holds. `relay` is what it offers to others.
pub fn refreshing(
    who: &Identity,
    local: &LocalNet,
    relay: &RelayReport,
    report: &SentReport,
    since: Option<u64>,
    held: Vec<HeldPeer>,
) -> (r: CoordReq)
    requires
        local.wf(),
    ensures
        states(r@, *who, local@),
        r@.since == since,
        r@.observed == report@.observed,
        r@.supersede is None,
        r@.relay == (mesh::ReportView {
            need_relay: report@.relay_need,
            allocated: report@.relay_alloc,
            ..relay@
        }),
        r@.ice == report@.ice_offers,
        r@.held == mesh::held_peer_views(held@),
{
    let offered = RelayReport {
        capable: relay.capable,
        addr: relay.addr,
        secret: relay.secret.clone(),
        need_relay: copy_keys(&report.relay_need),
        allocated: copy_allocations(&report.relay_alloc),
    };
    CoordReq {
        wg_pubkey: who.wg_pubkey,
        device_name: who.device_name.clone(),
        endpoint: who.endpoint,
        enrollment_key: who.enrollment_key.clone(),
        since,
        disabled_networks: local.as_refs(),
        observed: copy_observations(&report.observed),
        supersede: None,
        paused: local.is_paused(),
        peer_own_devices: local.peer_own_devices(),
        relay: offered,
        ice: copy_offers(&report.ice_offers),
        held,
    }
}

/// Access that is revoked ends with the answer that says so: a device that is granted nothing any more,
/// and is sent no peers, has none.
pub proof fn law_revoked_device_has_no_peers(
    m: MembershipView,
    resp: RegisterResp,
    pins: Seq<(u64, Seq<u8>)>,
)
    requires
        resp.grant is None,
        !resp.partial,
        resp.seeds@.len() == 0,
    ensures
        taken(m, resp, pins).seeds == Seq::<mesh::SeedView>::empty(),
        taken(m, resp, pins).device == m.device,
{
    assert(coord::sent_views(resp.seeds@).len() == 0);
}

/// No peer outlives a partial answer that removes it and does not send it again.
pub proof fn law_removed_peer_leaves_the_membership(
    m: MembershipView,
    resp: RegisterResp,
    pins: Seq<(u64, Seq<u8>)>,
    k: Seq<u8>,
)
    requires
        resp.partial,
        mesh::keys_of(resp.removed@).contains(k),
        forall|j: int|
            0 <= j < coord::admitted_of(coord::sent_views(resp.seeds@), pins).len() ==> (
            #[trigger] coord::admitted_of(coord::sent_views(resp.seeds@), pins)[j]).pubkey != k,
    ensures
        coord::peer_with(taken(m, resp, pins).seeds, k) is None,
{
    coord::law_removed_peer_is_gone(
        m.seeds,
        coord::admitted_of(coord::sent_views(resp.seeds@), pins),
        mesh::keys_of(resp.removed@),
        k,
    );
}

/// Why an answer is refused: an anchor of it may not be pinned, or nothing of its grant is read under
/// the anchors that are. Any other answer is taken in.
pub proof fn law_when_an_answer_is_refused(resp: RegisterResp, g: coord::PinnedView)
    ensures
        g.refused matches Some(e) ==> refusal(resp, g) == Some(CoordError::Anchor(e)),
        g.refused is None && resp.grant is None ==> refusal(resp, g) is None,
        g.refused is None && resp.grant is Some ==> {
            let seen = coord::granted(
                resp.grant->0@,
                coord::pins_for(coord::anchor_views(resp.anchors@), g.pins),
            );
            &&& seen is None ==> refusal(resp, g) == Some(CoordError::NoGrant)
            &&& seen is Some ==> refusal(resp, g) is None
        },
{
}

/// An answer that is refused leaves the device and its peers as they were; one that is not replaces
/// them by what it brings.
pub proof fn law_all_of_an_answer_or_nothing(
    was: MembershipView,
    pins: Map<u64, Seq<u8>>,
    resp: RegisterResp,
    m: MembershipView,
    pins_after: Map<u64, Seq<u8>>,
    t: Taken,
)
    requires
        takes_in(was, pins, resp, m, pins_after, t),
    ensures
        t.refused is Some ==> m.device == was.device && m.seeds == was.seeds,
        t.refused is None && resp.grant is None ==> m.device == was.device,
        t.refused is None && resp.grant is Some ==> m.device is Some,
        t.refused is None && !resp.partial ==> m.seeds == coord::admitted_of(
            coord::sent_views(resp.seeds@),
            coord::pins_for(coord::anchor_views(resp.anchors@), pins_after),
        ),
        pins_after == coord::pinned_by(pins, coord::anchor_views(resp.anchors@)).pins,
        t.written@ == coord::pinned_by(pins, coord::anchor_views(resp.anchors@)).written,
{
}

/// A partial answer brings the peers that it sends as it sends them, whether they were held or not,
/// takes away those that it removes, and leaves every other one as it was.
pub proof fn law_partial_answer_is_merged(
    was: MembershipView,
    resp: RegisterResp,
    pins: Seq<(u64, Seq<u8>)>,
    x: mesh::SeedView,
)
    requires
        resp.partial,
        forall|i: int, j: int|
            0 <= i < j < was.seeds.len() ==> (#[trigger] was.seeds[i]).pubkey != (
            #[trigger] was.seeds[j]).pubkey,
        ({
            let sent = coord::admitted_of(coord::sent_views(resp.seeds@), pins);
            forall|i: int, j: int|
                0 <= i < j < sent.len() ==> (#[trigger] sent[i]).pubkey != (
                #[trigger] sent[j]).pubkey
        }),
    ensures
        ({
            let sent = coord::admitted_of(coord::sent_views(resp.seeds@), pins);
            taken(was, resp, pins).seeds.contains(x) <==> sent.contains(x) || (was.seeds.contains(x)
                && !mesh::keys_of(resp.removed@).contains(x.pubkey) && forall|j: int|
                0 <= j < sent.len() ==> (#[trigger] sent[j]).pubkey != x.pubkey)
        }),
{
    coord::law_partial_answer_updates(
        was.seeds,
        coord::admitted_of(coord::sent_views(resp.seeds@), pins),
        mesh::keys_of(resp.removed@),
    );
}

/// The device is what the attestation of its grant says, in the networks that the answer names and
/// under its domain.
pub proof fn law_device_is_as_granted(
    was: MembershipView,
    resp: RegisterResp,
    pins: Seq<(u64, Seq<u8>)>,
    a: coord::AttestationView,
    community: Seq<char>,
)
    requires
        resp.grant is Some,
        coord::granted(resp.grant->0@, pins) == Some((a, community)),
    ensures
        taken(was, resp, pins).device matches Some(d) && {
            &&& d.community_name == community
            &&& d.user_id == a.user_id
            &&& d.username == a.username
            &&& d.wg_ip == a.wg_ip
            &&& d.wg_net == a.wg_net
            &&& d.hostname == a.device_name + "."@ + a.username + ".unity.internal"@
            &&& d.is_primary == a.is_primary
            &&& d.grant_expires_at == a.expires_at
            &&& d.primary_alias == if a.is_primary {
                Some(a.username + ".unity.internal"@)
            } else {
                None
            }
            &&& d.networks == resp.grant->0@.networks
            &&& d.networks_status == mesh::network_status_views(resp.networks@)
            &&& d.dns_domain == text::opt_text(resp.dns_domain)
        },
{
    coord::law_device_is_as_attested(
        resp.grant->0@,
        a,
        community,
        mesh::network_status_views(resp.networks@),
        text::opt_text(resp.dns_domain),
    );
}

} // verus!
