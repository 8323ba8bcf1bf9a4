//! What a device knows of the mesh: the networks it is in, itself, and the peers it may reach.
use crate::assoc::{same_key, PubKey};
use crate::net::{Endpoint, Net};
use crate::order::{self, TotalOrder};
use crate::text;
use vstd::prelude::*;
use vstd::string::*;

verus! {

/// The bytes of a list of keys.
pub open spec fn keys_of(s: Seq<PubKey>) -> Seq<Seq<u8>> {
    s.map_values(|k: PubKey| k@)
}

/// A copy of a list of keys.
pub fn copy_keys(v: &Vec<PubKey>) -> (r: Vec<PubKey>)
    ensures
        keys_of(r@) == keys_of(v@),
{
    let mut out: Vec<PubKey> = Vec::new();
    let mut i: usize = 0;
    while i < v.len()
        invariant
            i <= v.len(),
            out@ == v@.take(i as int),
        decreases v.len() - i,
    {
        out.push(v[i]);
        i += 1;
    }
    assert(out@ =~= v@);
    out
}

/// Whether a list holds a key.
pub fn has_key(keys: &Vec<PubKey>, k: &PubKey) -> (r: bool)
    ensures
        r == keys_of(keys@).contains(k@),
{
    let ghost all = keys_of(keys@);
    let mut i: usize = 0;
    while i < keys.len()
        invariant
            i <= keys.len(),
            all == keys_of(keys@),
            forall|j: int| 0 <= j < i ==> all[j] != k@,
        decreases keys.len() - i,
    {
        assert(all[i as int] == keys@[i as int]@);
        if same_key(&keys[i], k) {
            assert(all.contains(k@));
            return true;
        }
        i += 1;
    }
    false
}

/// Whether two lists of keys are alike.
pub fn same_keys(a: &Vec<PubKey>, b: &Vec<PubKey>) -> (r: bool)
    ensures
        r == (keys_of(a@) == keys_of(b@)),
{
    let ghost x = keys_of(a@);
    let ghost y = keys_of(b@);
    if a.len() != b.len() {
        assert(x.len() != y.len());
        return false;
    }
    let mut i: usize = 0;
    while i < a.len()
        invariant
            i <= a.len(),
            a.len() == b.len(),
            x == keys_of(a@),
            y == keys_of(b@),
            forall|j: int| 0 <= j < i ==> x[j] == y[j],
        decreases a.len() - i,
    {
        if !same_key(&a[i], &b[i]) {
            assert(x[i as int] != y[i as int]);
            return false;
        }
        assert(x[i as int] == y[i as int]);
        i += 1;
    }
    assert(x =~= y);
    true
}

/// A network that a peer shares with this device.
pub struct SharedNetwork {
    /// The role's name.
    pub name: String,
    /// The community that the role is of.
    pub community: String,
    pub guild_id: u64,
    pub role_id: u64,
}

/// The model of a shared network.
#[verifier::ext_equal]
pub struct SharedView {
    pub name: Seq<char>,
    pub community: Seq<char>,
    pub guild_id: u64,
    pub role_id: u64,
}

impl View for SharedNetwork {
    type V = SharedView;

    open spec fn view(&self) -> SharedView {
        SharedView {
            name: self.name@,
            community: self.community@,
            guild_id: self.guild_id,
            role_id: self.role_id,
        }
    }
}

/// The models of a list of shared networks.
pub open spec fn shared_network_views(s: Seq<SharedNetwork>) -> Seq<SharedView> {
    s.map_values(|x: SharedNetwork| x@)
}

impl SharedNetwork {
    /// A copy of the shared network.
    pub fn copy(&self) -> (r: SharedNetwork)
        ensures
            r@ == self@,
    {
        let r = SharedNetwork {
            name: self.name.clone(),
            community: self.community.clone(),
            guild_id: self.guild_id,
            role_id: self.role_id,
        };
        assert(r@ =~= self@);
        r
    }
}

/// A copy of a list of shared networks.
pub fn copy_shared_networks(v: &Vec<SharedNetwork>) -> (r: Vec<SharedNetwork>)
    ensures
        shared_network_views(r@) == shared_network_views(v@),
{
    let ghost want = shared_network_views(v@);
    let mut out: Vec<SharedNetwork> = Vec::new();
    let mut i: usize = 0;
    assert(shared_network_views(out@) =~= want.take(0));
    while i < v.len()
        invariant
            i <= v.len(),
            want == shared_network_views(v@),
            shared_network_views(out@) == want.take(i as int),
        decreases v.len() - i,
    {
        let ghost before = shared_network_views(out@);
        out.push(v[i].copy());
        assert(shared_network_views(out@) =~= before.push(want[i as int]));
        assert(want.take(i + 1) =~= want.take(i as int).push(want[i as int]));
        i += 1;
    }
    assert(want.take(i as int) =~= want);
    out
}

/// The identity of a network, when its ids are known. Zero is not an identity: a network without
/// ids stays unidentified, or all such networks would be one.
pub open spec fn net_id(guild_id: u64, role_id: u64) -> Option<(u64, u64)> {
    if guild_id == 0 || role_id == 0 {
        None
    } else {
        Some((guild_id, role_id))
    }
}

impl SharedNetwork {
    /// The network's identity, when its ids are known.
    pub fn id(&self) -> (r: Option<(u64, u64)>)
        ensures
            r == net_id(self.guild_id, self.role_id),
    {
        if self.guild_id == 0 || self.role_id == 0 {
            None
        } else {
            Some((self.guild_id, self.role_id))
        }
    }
}

/// A network that this device's owner holds, and whether the device peers in it.
pub struct NetworkStatus {
    pub guild_id: u64,
    pub role_id: u64,
    /// The role's name.
    pub name: String,
    /// The community's name.
    pub guild_name: String,
    pub enabled: bool,
}

/// The model of a network status.
#[verifier::ext_equal]
pub struct NetworkView {
    pub guild_id: u64,
    pub role_id: u64,
    pub name: Seq<char>,
    pub guild_name: Seq<char>,
    pub enabled: bool,
}

impl View for NetworkStatus {
    type V = NetworkView;

    open spec fn view(&self) -> NetworkView {
        NetworkView {
            guild_id: self.guild_id,
            role_id: self.role_id,
            name: self.name@,
            guild_name: self.guild_name@,
            enabled: self.enabled,
        }
    }
}

/// The models of a list of network statuses.
pub open spec fn network_status_views(s: Seq<NetworkStatus>) -> Seq<NetworkView> {
    s.map_values(|x: NetworkStatus| x@)
}

impl NetworkStatus {
    /// A copy of the network status.
    pub fn copy(&self) -> (r: NetworkStatus)
        ensures
            r@ == self@,
    {
        let r = NetworkStatus {
            guild_id: self.guild_id,
            role_id: self.role_id,
            name: self.name.clone(),
            guild_name: self.guild_name.clone(),
            enabled: self.enabled,
        };
        assert(r@ =~= self@);
        r
    }
}

/// A copy of a list of network statuses.
pub fn copy_network_statuses(v: &Vec<NetworkStatus>) -> (r: Vec<NetworkStatus>)
    ensures
        network_status_views(r@) == network_status_views(v@),
{
    let ghost want = network_status_views(v@);
    let mut out: Vec<NetworkStatus> = Vec::new();
    let mut i: usize = 0;
    assert(network_status_views(out@) =~= want.take(0));
    while i < v.len()
        invariant
            i <= v.len(),
            want == network_status_views(v@),
            network_status_views(out@) == want.take(i as int),
        decreases v.len() - i,
    {
        let ghost before = network_status_views(out@);
        out.push(v[i].copy());
        assert(network_status_views(out@) =~= before.push(want[i as int]));
        assert(want.take(i + 1) =~= want.take(i as int).push(want[i as int]));
        i += 1;
    }
    assert(want.take(i as int) =~= want);
    out
}

/// A reservation on a relay, by which a peer may be reached.
pub struct RelayInfo {
    /// Where the relay listens.
    pub turn_addr: Endpoint,
    pub username: String,
    pub credential: String,
    pub realm: String,
    /// The address that the peer was given there, once it is known.
    pub peer_relayed: Option<Endpoint>,
}

/// The model of a relay reservation.
#[verifier::ext_equal]
pub struct RelayView {
    pub turn_addr: Endpoint,
    pub username: Seq<char>,
    pub credential: Seq<char>,
    pub realm: Seq<char>,
    pub peer_relayed: Option<Endpoint>,
}

impl View for RelayInfo {
    type V = RelayView;

    open spec fn view(&self) -> RelayView {
        RelayView {
            turn_addr: self.turn_addr,
            username: self.username@,
            credential: self.credential@,
            realm: self.realm@,
            peer_relayed: self.peer_relayed,
        }
    }
}

/// The model of a relay reservation that may be absent.
pub open spec fn opt_relay_info(s: Option<RelayInfo>) -> Option<RelayView> {
    match s {
        Some(x) => Some(x@),
        None => None,
    }
}

impl RelayInfo {
    /// A copy of the relay reservation.
    pub fn copy(&self) -> (r: RelayInfo)
        ensures
            r@ == self@,
    {
        let r = RelayInfo {
            turn_addr: self.turn_addr,
            username: self.username.clone(),
            credential: self.credential.clone(),
            realm: self.realm.clone(),
            peer_relayed: self.peer_relayed,
        };
        assert(r@ =~= self@);
        r
    }
}

/// A copy of a relay reservation that may be absent.
pub fn copy_opt_relay_info(s: &Option<RelayInfo>) -> (r: Option<RelayInfo>)
    ensures
        opt_relay_info(r) == opt_relay_info(*s),
{
    match s {
        Some(x) => Some(x.copy()),
        None => None,
    }
}

/// One side's part of a connectivity negotiation.
pub struct IceParams {
    pub ufrag: String,
    pub pwd: String,
    pub candidates: Vec<String>,
}

/// The model of a negotiation offer.
#[verifier::ext_equal]
pub struct IceView {
    pub ufrag: Seq<char>,
    pub pwd: Seq<char>,
    pub candidates: Seq<Seq<char>>,
}

impl View for IceParams {
    type V = IceView;

    open spec fn view(&self) -> IceView {
        IceView {
            ufrag: self.ufrag@,
            pwd: self.pwd@,
            candidates: text::texts(self.candidates@),
        }
    }
}

/// The model of a negotiation offer that may be absent.
pub open spec fn opt_ice_params(s: Option<IceParams>) -> Option<IceView> {
    match s {
        Some(x) => Some(x@),
        None => None,
    }
}

impl IceParams {
    /// A copy of the negotiation offer.
    pub fn copy(&self) -> (r: IceParams)
        ensures
            r@ == self@,
    {
        let r = IceParams {
            ufrag: self.ufrag.clone(),
            pwd: self.pwd.clone(),
            candidates: text::copy_list(&self.candidates),
        };
        assert(r@ =~= self@);
        r
    }

    /// Whether two negotiation offers are alike.
    pub fn same(&self, other: &IceParams) -> (r: bool)
        ensures
            r == (self@ == other@),
    {
        self.ufrag == other.ufrag && self.pwd == other.pwd && text::same_list(&self.candidates, &other.candidates)
    }
}

/// A copy of a negotiation offer that may be absent.
pub fn copy_opt_ice_params(s: &Option<IceParams>) -> (r: Option<IceParams>)
    ensures
        opt_ice_params(r) == opt_ice_params(*s),
{
    match s {
        Some(x) => Some(x.copy()),
        None => None,
    }
}

/// An offer to a peer.
pub struct IceEndpoint {
    pub peer: PubKey,
    pub params: IceParams,
}

/// The model of an offer.
#[verifier::ext_equal]
pub struct OfferView {
    pub peer: Seq<u8>,
    pub params: IceView,
}

impl View for IceEndpoint {
    type V = OfferView;

    open spec fn view(&self) -> OfferView {
        OfferView {
            peer: self.peer@,
            params: self.params@,
        }
    }
}

/// The models of a list of offers.
pub open spec fn offer_views(s: Seq<IceEndpoint>) -> Seq<OfferView> {
    s.map_values(|x: IceEndpoint| x@)
}

impl IceEndpoint {
    /// A copy of the offer.
    pub fn copy(&self) -> (r: IceEndpoint)
        ensures
            r@ == self@,
    {
        let r = IceEndpoint {
            peer: self.peer,
            params: self.params.copy(),
        };
        assert(r@ =~= self@);
        r
    }

    /// Whether two offers are alike.
    pub fn same(&self, other: &IceEndpoint) -> (r: bool)
        ensures
            r == (self@ == other@),
    {
        same_key(&self.peer, &other.peer) && self.params.same(&other.params)
    }
}

/// A copy of a list of offers.
pub fn copy_offers(v: &Vec<IceEndpoint>) -> (r: Vec<IceEndpoint>)
    ensures
        offer_views(r@) == offer_views(v@),
{
    let ghost want = offer_views(v@);
    let mut out: Vec<IceEndpoint> = Vec::new();
    let mut i: usize = 0;
    assert(offer_views(out@) =~= want.take(0));
    while i < v.len()
        invariant
            i <= v.len(),
            want == offer_views(v@),
            offer_views(out@) == want.take(i as int),
        decreases v.len() - i,
    {
        let ghost before = offer_views(out@);
        out.push(v[i].copy());
        assert(offer_views(out@) =~= before.push(want[i as int]));
        assert(want.take(i + 1) =~= want.take(i as int).push(want[i as int]));
        i += 1;
    }
    assert(want.take(i as int) =~= want);
    out
}

/// Whether two lists of offers are alike.
pub fn same_offers(a: &Vec<IceEndpoint>, b: &Vec<IceEndpoint>) -> (r: bool)
    ensures
        r == (offer_views(a@) == offer_views(b@)),
{
    let ghost x = offer_views(a@);
    let ghost y = offer_views(b@);
    if a.len() != b.len() {
        assert(x.len() != y.len());
        return false;
    }
    let mut i: usize = 0;
    while i < a.len()
        invariant
            i <= a.len(),
            a.len() == b.len(),
            x == offer_views(a@),
            y == offer_views(b@),
            forall|j: int| 0 <= j < i ==> x[j] == y[j],
        decreases a.len() - i,
    {
        if !a[i].same(&b[i]) {
            assert(x[i as int] != y[i as int]);
            return false;
        }
        assert(x[i as int] == y[i as int]);
        i += 1;
    }
    assert(x =~= y);
    true
}

/// Where a peer's traffic was seen to come from.
pub struct ObservedEndpoint {
    pub pubkey: PubKey,
    pub endpoint: Endpoint,
}

/// The model of an observation.
#[verifier::ext_equal]
pub struct ObservedView {
    pub pubkey: Seq<u8>,
    pub endpoint: Endpoint,
}

impl View for ObservedEndpoint {
    type V = ObservedView;

    open spec fn view(&self) -> ObservedView {
        ObservedView {
            pubkey: self.pubkey@,
            endpoint: self.endpoint,
        }
    }
}

/// The models of a list of observations.
pub open spec fn observation_views(s: Seq<ObservedEndpoint>) -> Seq<ObservedView> {
    s.map_values(|x: ObservedEndpoint| x@)
}

impl ObservedEndpoint {
    /// A copy of the observation.
    pub fn copy(&self) -> (r: ObservedEndpoint)
        ensures
            r@ == self@,
    {
        let r = ObservedEndpoint {
            pubkey: self.pubkey,
            endpoint: self.endpoint,
        };
        assert(r@ =~= self@);
        r
    }

    /// Whether two observations are alike.
    pub fn same(&self, other: &ObservedEndpoint) -> (r: bool)
        ensures
            r == (self@ == other@),
    {
        same_key(&self.pubkey, &other.pubkey) && self.endpoint == other.endpoint
    }
}

/// A copy of a list of observations.
pub fn copy_observations(v: &Vec<ObservedEndpoint>) -> (r: Vec<ObservedEndpoint>)
    ensures
        observation_views(r@) == observation_views(v@),
{
    let ghost want = observation_views(v@);
    let mut out: Vec<ObservedEndpoint> = Vec::new();
    let mut i: usize = 0;
    assert(observation_views(out@) =~= want.take(0));
    while i < v.len()
        invariant
            i <= v.len(),
            want == observation_views(v@),
            observation_views(out@) == want.take(i as int),
        decreases v.len() - i,
    {
        let ghost before = observation_views(out@);
        out.push(v[i].copy());
        assert(observation_views(out@) =~= before.push(want[i as int]));
        assert(want.take(i + 1) =~= want.take(i as int).push(want[i as int]));
        i += 1;
    }
    assert(want.take(i as int) =~= want);
    out
}

/// Whether two lists of observations are alike.
pub fn same_observations(a: &Vec<ObservedEndpoint>, b: &Vec<ObservedEndpoint>) -> (r: bool)
    ensures
        r == (observation_views(a@) == observation_views(b@)),
{
    let ghost x = observation_views(a@);
    let ghost y = observation_views(b@);
    if a.len() != b.len() {
        assert(x.len() != y.len());
        return false;
    }
    let mut i: usize = 0;
    while i < a.len()
        invariant
            i <= a.len(),
            a.len() == b.len(),
            x == observation_views(a@),
            y == observation_views(b@),
            forall|j: int| 0 <= j < i ==> x[j] == y[j],
        decreases a.len() - i,
    {
        if !a[i].same(&b[i]) {
            assert(x[i as int] != y[i as int]);
            return false;
        }
        assert(x[i as int] == y[i as int]);
        i += 1;
    }
    assert(x =~= y);
    true
}

/// The address that this device was given on a relay, for a peer to learn.
pub struct RelayAllocation {
    pub peer: PubKey,
    pub relayed: Endpoint,
}

/// The model of an allocation.
#[verifier::ext_equal]
pub struct AllocationView {
    pub peer: Seq<u8>,
    pub relayed: Endpoint,
}

impl View for RelayAllocation {
    type V = AllocationView;

    open spec fn view(&self) -> AllocationView {
        AllocationView {
            peer: self.peer@,
            relayed: self.relayed,
        }
    }
}

/// The models of a list of allocations.
pub open spec fn allocation_views(s: Seq<RelayAllocation>) -> Seq<AllocationView> {
    s.map_values(|x: RelayAllocation| x@)
}

impl RelayAllocation {
    /// A copy of the allocation.
    pub fn copy(&self) -> (r: RelayAllocation)
        ensures
            r@ == self@,
    {
        let r = RelayAllocation {
            peer: self.peer,
            relayed: self.relayed,
        };
        assert(r@ =~= self@);
        r
    }

    /// Whether two allocations are alike.
    pub fn same(&self, other: &RelayAllocation) -> (r: bool)
        ensures
            r == (self@ == other@),
    {
        same_key(&self.peer, &other.peer) && self.relayed == other.relayed
    }
}

/// A copy of a list of allocations.
pub fn copy_allocations(v: &Vec<RelayAllocation>) -> (r: Vec<RelayAllocation>)
    ensures
        allocation_views(r@) == allocation_views(v@),
{
    let ghost want = allocation_views(v@);
    let mut out: Vec<RelayAllocation> = Vec::new();
    let mut i: usize = 0;
    assert(allocation_views(out@) =~= want.take(0));
    while i < v.len()
        invariant
            i <= v.len(),
            want == allocation_views(v@),
            allocation_views(out@) == want.take(i as int),
        decreases v.len() - i,
    {
        let ghost before = allocation_views(out@);
        out.push(v[i].copy());
        assert(allocation_views(out@) =~= before.push(want[i as int]));
        assert(want.take(i + 1) =~= want.take(i as int).push(want[i as int]));
        i += 1;
    }
    assert(want.take(i as int) =~= want);
    out
}

/// Whether two lists of allocations are alike.
pub fn same_allocations(a: &Vec<RelayAllocation>, b: &Vec<RelayAllocation>) -> (r: bool)
    ensures
        r == (allocation_views(a@) == allocation_views(b@)),
{
    let ghost x = allocation_views(a@);
    let ghost y = allocation_views(b@);
    if a.len() != b.len() {
        assert(x.len() != y.len());
        return false;
    }
    let mut i: usize = 0;
    while i < a.len()
        invariant
            i <= a.len(),
            a.len() == b.len(),
            x == allocation_views(a@),
            y == allocation_views(b@),
            forall|j: int| 0 <= j < i ==> x[j] == y[j],
        decreases a.len() - i,
    {
        if !a[i].same(&b[i]) {
            assert(x[i as int] != y[i as int]);
            return false;
        }
        assert(x[i as int] == y[i as int]);
        i += 1;
    }
    assert(x =~= y);
    true
}

/// A peer that this device holds, and in which revision.
pub struct HeldPeer {
    pub pubkey: PubKey,
    pub rev: u64,
}

/// The model of a held peer.
#[verifier::ext_equal]
pub struct HeldView {
    pub pubkey: Seq<u8>,
    pub rev: u64,
}

impl View for HeldPeer {
    type V = HeldView;

    open spec fn view(&self) -> HeldView {
        HeldView {
            pubkey: self.pubkey@,
            rev: self.rev,
        }
    }
}

/// The models of a list of held peers.
pub open spec fn held_peer_views(s: Seq<HeldPeer>) -> Seq<HeldView> {
    s.map_values(|x: HeldPeer| x@)
}

/// A verified member of a shared network, to peer with.
pub struct SeedPeer {
    pub pubkey: PubKey,
    /// The owner, by whom a peer is blocked: it survives a new key or name.
    pub user_id: u64,
    pub username: String,
    /// The peer's address in the mesh.
    pub ip: u32,
    /// Where the peer can be dialled, if anywhere.
    pub endpoint: Option<Endpoint>,
    /// Where to punch when neither side can be dialled.
    pub punch: Option<Endpoint>,
    pub hostname: String,
    /// The owner's own name, on the owner's primary device.
    pub primary_alias: Option<String>,
    /// The networks shared with this device.
    pub networks: Vec<SharedNetwork>,
    pub relay: Option<RelayInfo>,
    /// The peer's offer to this device.
    pub ice: Option<IceParams>,
    /// The revision that the coordinator gave this seed.
    pub rev: u64,
    /// When the peer's attestation lapses, in seconds.
    pub expires_at: u64,
}

/// The model of a seed.
#[verifier::ext_equal]
pub struct SeedView {
    pub pubkey: Seq<u8>,
    pub user_id: u64,
    pub username: Seq<char>,
    pub ip: u32,
    pub endpoint: Option<Endpoint>,
    pub punch: Option<Endpoint>,
    pub hostname: Seq<char>,
    pub primary_alias: Option<Seq<char>>,
    pub networks: Seq<SharedView>,
    pub relay: Option<RelayView>,
    pub ice: Option<IceView>,
    pub rev: u64,
    pub expires_at: u64,
}

impl View for SeedPeer {
    type V = SeedView;

    open spec fn view(&self) -> SeedView {
        SeedView {
            pubkey: self.pubkey@,
            user_id: self.user_id,
            username: self.username@,
            ip: self.ip,
            endpoint: self.endpoint,
            punch: self.punch,
            hostname: self.hostname@,
            primary_alias: text::opt_text(self.primary_alias),
            networks: shared_network_views(self.networks@),
            relay: opt_relay_info(self.relay),
            ice: opt_ice_params(self.ice),
            rev: self.rev,
            expires_at: self.expires_at,
        }
    }
}

/// The models of a list of seeds.
pub open spec fn seed_views(s: Seq<SeedPeer>) -> Seq<SeedView> {
    s.map_values(|x: SeedPeer| x@)
}

impl SeedPeer {
    /// A copy of the seed.
    pub fn copy(&self) -> (r: SeedPeer)
        ensures
            r@ == self@,
    {
        let r = SeedPeer {
            pubkey: self.pubkey,
            user_id: self.user_id,
            username: self.username.clone(),
            ip: self.ip,
            endpoint: self.endpoint,
            punch: self.punch,
            hostname: self.hostname.clone(),
            primary_alias: self.primary_alias.clone(),
            networks: copy_shared_networks(&self.networks),
            relay: copy_opt_relay_info(&self.relay),
            ice: copy_opt_ice_params(&self.ice),
            rev: self.rev,
            expires_at: self.expires_at,
        };
        assert(r@ =~= self@);
        r
    }
}

/// This device, as its own verified attestation describes it.
pub struct SelfDevice {
    pub community_name: String,
    pub user_id: u64,
    pub username: String,
    pub networks: Vec<String>,
    /// The device's address in the mesh.
    pub wg_ip: u32,
    /// The block that the mesh lives in.
    pub wg_net: Net,
    pub hostname: String,
    pub is_primary: bool,
    /// When the device's own attestation lapses, in seconds.
    pub grant_expires_at: u64,
    pub primary_alias: Option<String>,
    /// Every network that the owner's roles grant.
    pub networks_status: Vec<NetworkStatus>,
    /// The domain that certificates are issued under, where the deployment has one.
    pub dns_domain: Option<String>,
}

/// The model of a device.
#[verifier::ext_equal]
pub struct DeviceView {
    pub community_name: Seq<char>,
    pub user_id: u64,
    pub username: Seq<char>,
    pub networks: Seq<Seq<char>>,
    pub wg_ip: u32,
    pub wg_net: Net,
    pub hostname: Seq<char>,
    pub is_primary: bool,
    pub grant_expires_at: u64,
    pub primary_alias: Option<Seq<char>>,
    pub networks_status: Seq<NetworkView>,
    pub dns_domain: Option<Seq<char>>,
}

impl View for SelfDevice {
    type V = DeviceView;

    open spec fn view(&self) -> DeviceView {
        DeviceView {
            community_name: self.community_name@,
            user_id: self.user_id,
            username: self.username@,
            networks: text::texts(self.networks@),
            wg_ip: self.wg_ip,
            wg_net: self.wg_net,
            hostname: self.hostname@,
            is_primary: self.is_primary,
            grant_expires_at: self.grant_expires_at,
            primary_alias: text::opt_text(self.primary_alias),
            networks_status: network_status_views(self.networks_status@),
            dns_domain: text::opt_text(self.dns_domain),
        }
    }
}

impl SelfDevice {
    /// A copy of the device.
    pub fn copy(&self) -> (r: SelfDevice)
        ensures
            r@ == self@,
    {
        let r = SelfDevice {
            community_name: self.community_name.clone(),
            user_id: self.user_id,
            username: self.username.clone(),
            networks: text::copy_list(&self.networks),
            wg_ip: self.wg_ip,
            wg_net: self.wg_net,
            hostname: self.hostname.clone(),
            is_primary: self.is_primary,
            grant_expires_at: self.grant_expires_at,
            primary_alias: self.primary_alias.clone(),
            networks_status: copy_network_statuses(&self.networks_status),
            dns_domain: self.dns_domain.clone(),
        };
        assert(r@ =~= self@);
        r
    }
}

/// What this device tells the coordinator of relays: whether it is one, and which peers it wants one for.
pub struct RelayReport {
    pub capable: bool,
    pub addr: Option<Endpoint>,
    pub secret: Option<String>,
    pub need_relay: Vec<PubKey>,
    pub allocated: Vec<RelayAllocation>,
}

/// The model of a relay report.
#[verifier::ext_equal]
pub struct ReportView {
    pub capable: bool,
    pub addr: Option<Endpoint>,
    pub secret: Option<Seq<char>>,
    pub need_relay: Seq<Seq<u8>>,
    pub allocated: Seq<AllocationView>,
}

impl View for RelayReport {
    type V = ReportView;

    open spec fn view(&self) -> ReportView {
        ReportView {
            capable: self.capable,
            addr: self.addr,
            secret: text::opt_text(self.secret),
            need_relay: keys_of(self.need_relay@),
            allocated: allocation_views(self.allocated@),
        }
    }
}

impl RelayReport {
    /// A copy of the relay report.
    pub fn copy(&self) -> (r: RelayReport)
        ensures
            r@ == self@,
    {
        let r = RelayReport {
            capable: self.capable,
            addr: self.addr,
            secret: self.secret.clone(),
            need_relay: copy_keys(&self.need_relay),
            allocated: copy_allocations(&self.allocated),
        };
        assert(r@ =~= self@);
        r
    }
}

impl RelayReport {
    /// A device that is no relay and wants none.
    pub fn none() -> (r: RelayReport)
        ensures
            r@ == no_relay(),
    {
        let r = RelayReport {
            capable: false,
            addr: None,
            secret: None,
            need_relay: Vec::new(),
            allocated: Vec::new(),
        };
        assert(r@ =~= no_relay());
        r
    }
}

/// The report of a device that is no relay and wants none.
pub open spec fn no_relay() -> ReportView {
    ReportView { capable: false, addr: None, secret: None, need_relay: seq![], allocated: seq![] }
}

impl TotalOrder for IceEndpoint {
    open spec fn leq(&self, other: &Self) -> bool {
        order::bytes_le(self.peer@, other.peer@)
    }

    proof fn leq_total(a: &Self, b: &Self) {
        order::lemma_lex_total(order::octets(a.peer@), order::octets(b.peer@));
    }

    proof fn leq_trans(a: &Self, b: &Self, c: &Self) {
        order::lemma_lex_trans(
            order::octets(a.peer@),
            order::octets(b.peer@),
            order::octets(c.peer@),
        );
    }

    fn le(&self, other: &Self) -> (r: bool) {
        order::bytes_leq(&self.peer, &other.peer)
    }
}

impl TotalOrder for RelayAllocation {
    open spec fn leq(&self, other: &Self) -> bool {
        order::bytes_le(self.peer@, other.peer@)
    }

    proof fn leq_total(a: &Self, b: &Self) {
        order::lemma_lex_total(order::octets(a.peer@), order::octets(b.peer@));
    }

    proof fn leq_trans(a: &Self, b: &Self, c: &Self) {
        order::lemma_lex_trans(
            order::octets(a.peer@),
            order::octets(b.peer@),
            order::octets(c.peer@),
        );
    }

    fn le(&self, other: &Self) -> (r: bool) {
        order::bytes_leq(&self.peer, &other.peer)
    }
}

/// A network is identified by both its numbers, and not at all where one of them is zero.
pub proof fn law_what_identifies_a_network(guild_id: u64, role_id: u64)
    ensures
        guild_id != 0 && role_id != 0 ==> net_id(guild_id, role_id) == Some((guild_id, role_id)),
        guild_id == 0 || role_id == 0 ==> net_id(guild_id, role_id) is None,
{
}

/// Two peers that are described alike are alike in all that the mesh is made of.
pub proof fn law_peers_are_told_apart(a: SeedPeer, b: SeedPeer, i: int)
    requires
        a@ == b@,
    ensures
        a.pubkey@ == b.pubkey@,
        a.user_id == b.user_id,
        a.username@ == b.username@,
        a.ip == b.ip,
        a.endpoint == b.endpoint,
        a.punch == b.punch,
        a.hostname@ == b.hostname@,
        a.primary_alias is Some <==> b.primary_alias is Some,
        a.primary_alias is Some ==> a.primary_alias->0@ == b.primary_alias->0@,
        a.networks@.len() == b.networks@.len(),
        0 <= i < a.networks@.len() ==> {
            &&& a.networks@[i].name@ == b.networks@[i].name@
            &&& a.networks@[i].community@ == b.networks@[i].community@
            &&& a.networks@[i].guild_id == b.networks@[i].guild_id
            &&& a.networks@[i].role_id == b.networks@[i].role_id
        },
        a.relay is Some <==> b.relay is Some,
        a.relay is Some ==> {
            &&& a.relay->0.turn_addr == b.relay->0.turn_addr
            &&& a.relay->0.username@ == b.relay->0.username@
            &&& a.relay->0.credential@ == b.relay->0.credential@
        },
        a.ice is Some <==> b.ice is Some,
        a.ice is Some ==> {
            &&& a.ice->0.ufrag@ == b.ice->0.ufrag@
            &&& a.ice->0.pwd@ == b.ice->0.pwd@
            &&& a.ice->0.candidates@.len() == b.ice->0.candidates@.len()
        },
        a.rev == b.rev,
        a.expires_at == b.expires_at,
{
    assert(shared_network_views(a.networks@).len() == shared_network_views(b.networks@).len());
    if 0 <= i < a.networks@.len() {
        assert(shared_network_views(a.networks@)[i] == a.networks@[i]@);
        assert(shared_network_views(b.networks@)[i] == b.networks@[i]@);
    }
    if let (Some(x), Some(y)) = (a.ice, b.ice) {
        assert(text::texts(x.candidates@).len() == text::texts(y.candidates@).len());
    }
}

/// Two devices that are described alike are alike in all that they are known by.
pub proof fn law_devices_are_told_apart(a: SelfDevice, b: SelfDevice, i: int)
    requires
        a@ == b@,
    ensures
        a.community_name@ == b.community_name@,
        a.user_id == b.user_id,
        a.username@ == b.username@,
        a.networks@.len() == b.networks@.len(),
        a.wg_ip == b.wg_ip,
        a.wg_net == b.wg_net,
        a.hostname@ == b.hostname@,
        a.is_primary == b.is_primary,
        a.grant_expires_at == b.grant_expires_at,
        a.primary_alias is Some <==> b.primary_alias is Some,
        a.primary_alias is Some ==> a.primary_alias->0@ == b.primary_alias->0@,
        a.networks_status@.len() == b.networks_status@.len(),
        0 <= i < a.networks_status@.len() ==> {
            &&& a.networks_status@[i].guild_id == b.networks_status@[i].guild_id
            &&& a.networks_status@[i].role_id == b.networks_status@[i].role_id
            &&& a.networks_status@[i].name@ == b.networks_status@[i].name@
            &&& a.networks_status@[i].guild_name@ == b.networks_status@[i].guild_name@
            &&& a.networks_status@[i].enabled == b.networks_status@[i].enabled
        },
        a.dns_domain is Some <==> b.dns_domain is Some,
        a.dns_domain is Some ==> a.dns_domain->0@ == b.dns_domain->0@,
{
    assert(text::texts(a.networks@).len() == text::texts(b.networks@).len());
    assert(network_status_views(a.networks_status@).len() == network_status_views(
        b.networks_status@,
    ).len());
    if 0 <= i < a.networks_status@.len() {
        assert(network_status_views(a.networks_status@)[i] == a.networks_status@[i]@);
        assert(network_status_views(b.networks_status@)[i] == b.networks_status@[i]@);
    }
}

/// What a device says of itself as a relay: nothing, where it is none and wants none.
pub proof fn law_no_relay_says_nothing()
    ensures
        !no_relay().capable,
        no_relay().addr is None,
        no_relay().secret is None,
        no_relay().need_relay.len() == 0,
        no_relay().allocated.len() == 0,
{
}

} // verus!
