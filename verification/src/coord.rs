//! The coordinator's client: what is asked of it, and what of its answers is believed.
//!
//! Nothing the coordinator sends is believed for its own sake. A signed blob comes with what the
//! signature check accepts of it, and under which anchor; only what an anchor reads that this device
//! pinned is believed. The rules of pinning and of admission are here, the check is the caller's.
use crate::assoc::{same_key, Assoc, PubKey};
use crate::control::server::ManageOp;
use crate::ctl::key_of;
use crate::keys::{self, load_anchor, pin_anchor, Pin, PinError};
use crate::mesh::{
    self, copy_network_statuses, copy_opt_ice_params, copy_opt_relay_info, copy_shared_networks,
    HeldPeer, IceEndpoint, IceParams, NetworkStatus, ObservedEndpoint, RelayAllocation, RelayInfo,
    RelayReport, SeedPeer, SelfDevice, SharedNetwork,
};

use crate::net::{Endpoint, Net};
use crate::netcfg::NetId;
use crate::text;
use crate::url::{self, read_url, UrlParts};
use vstd::prelude::*;
use vstd::string::*;

verus! {

/// What an anchor signed of a device.
pub struct Attestation {
    pub guild_id: u64,
    pub user_id: u64,
    pub username: String,
    pub device_name: String,
    pub is_primary: bool,
    /// The device's address in the mesh.
    pub wg_ip: u32,
    /// The block that bounds the address.
    pub wg_net: Net,
    pub wg_pubkey: PubKey,
    pub issued_at: u64,
    pub expires_at: u64,
}

/// The model of an attestation.
#[verifier::ext_equal]
pub struct AttestationView {
    pub guild_id: u64,
    pub user_id: u64,
    pub username: Seq<char>,
    pub device_name: Seq<char>,
    pub is_primary: bool,
    pub wg_ip: u32,
    pub wg_net: Net,
    pub wg_pubkey: Seq<u8>,
    pub issued_at: u64,
    pub expires_at: u64,
}

impl View for Attestation {
    type V = AttestationView;

    open spec fn view(&self) -> AttestationView {
        AttestationView {
            guild_id: self.guild_id,
            user_id: self.user_id,
            username: self.username@,
            device_name: self.device_name@,
            is_primary: self.is_primary,
            wg_ip: self.wg_ip,
            wg_net: self.wg_net,
            wg_pubkey: self.wg_pubkey@,
            issued_at: self.issued_at,
            expires_at: self.expires_at,
        }
    }
}

impl Attestation {
    /// A copy of the attestation.
    pub fn copy(&self) -> (r: Attestation)
        ensures
            r@ == self@,
    {
        let r = Attestation {
            guild_id: self.guild_id,
            user_id: self.user_id,
            username: self.username.clone(),
            device_name: self.device_name.clone(),
            is_primary: self.is_primary,
            wg_ip: self.wg_ip,
            wg_net: self.wg_net,
            wg_pubkey: self.wg_pubkey,
            issued_at: self.issued_at,
            expires_at: self.expires_at,
        };
        assert(r@ =~= self@);
        r
    }
}

/// The name of a device in the mesh.
pub open spec fn device_host(device: Seq<char>, user: Seq<char>) -> Seq<char> {
    device + "."@ + user + ".unity.internal"@
}

/// The name of a user's primary device in the mesh.
pub open spec fn user_host(user: Seq<char>) -> Seq<char> {
    user + ".unity.internal"@
}

impl AttestationView {
    /// The device's name in the mesh.
    pub open spec fn hostname(self) -> Seq<char> {
        device_host(self.device_name, self.username)
    }

    /// The user's name, on the user's primary device.
    pub open spec fn primary_alias(self) -> Option<Seq<char>> {
        if self.is_primary {
            Some(user_host(self.username))
        } else {
            None
        }
    }

    /// Whether the address lies in the block that bounds it.
    pub open spec fn in_bounds(self) -> bool {
        self.wg_net.wf() && self.wg_net.has(self.wg_ip)
    }
}

impl Attestation {
    /// The device's name in the mesh.
    pub fn hostname(&self) -> (r: String)
        ensures
            r@ == self@.hostname(),
    {
        let mut r = self.device_name.clone();
        r.append(".");
        r.append(self.username.as_str());
        r.append(".unity.internal");
        r
    }

    /// The user's name, on the user's primary device.
    pub fn primary_alias(&self) -> (r: Option<String>)
        ensures
            text::opt_text(r) == self@.primary_alias(),
    {
        if self.is_primary {
            let mut r = self.username.clone();
            r.append(".unity.internal");
            Some(r)
        } else {
            None
        }
    }

    /// Whether the address lies in the block that bounds it.
    pub fn in_bounds(&self) -> (r: bool)
        ensures
            r == self@.in_bounds(),
    {
        self.wg_net.prefix <= 32 && self.wg_net.contains(self.wg_ip)
    }
}

/// A reading that the signature check accepts: that a guild's anchor signed an attestation.
pub struct Reading {
    pub guild_id: u64,
    pub anchor: PubKey,
    pub attestation: Attestation,
}

/// The model of a reading.
#[verifier::ext_equal]
pub struct ReadingView {
    pub guild_id: u64,
    pub anchor: Seq<u8>,
    pub attestation: AttestationView,
}

impl View for Reading {
    type V = ReadingView;

    open spec fn view(&self) -> ReadingView {
        ReadingView {
            guild_id: self.guild_id,
            anchor: self.anchor@,
            attestation: self.attestation@,
        }
    }
}

/// A signed blob of a guild, and the readings of it that the signature check accepts. With a bad
/// signature, for another guild, once it lapsed and in a layout that is not known, a blob has none.
pub struct GuildAttestation {
    pub community_name: String,
    pub readings: Vec<Reading>,
}

/// The model of a signed blob.
pub struct BlobView {
    pub community_name: Seq<char>,
    pub readings: Seq<ReadingView>,
}

/// The models of readings.
pub open spec fn reading_views(s: Seq<Reading>) -> Seq<ReadingView> {
    s.map_values(|x: Reading| x@)
}

impl View for GuildAttestation {
    type V = BlobView;

    open spec fn view(&self) -> BlobView {
        BlobView {
            community_name: self.community_name@,
            readings: reading_views(self.readings@),
        }
    }
}

/// The models of a list of signed blobs.
pub open spec fn blob_views(s: Seq<GuildAttestation>) -> Seq<BlobView> {
    s.map_values(|x: GuildAttestation| x@)
}

/// What a guild's anchor reads, at or after `i`.
pub open spec fn read_by(s: Seq<ReadingView>, guild_id: u64, anchor: Seq<u8>, i: int) -> Option<
    AttestationView,
>
    decreases s.len() - i,
{
    if i >= s.len() {
        None
    } else if s[i].guild_id == guild_id && s[i].anchor == anchor {
        Some(s[i].attestation)
    } else {
        read_by(s, guild_id, anchor, i + 1)
    }
}

/// What the first pinned anchor at or after `i` that reads anything reads.
pub open spec fn reading_from(s: Seq<ReadingView>, pins: Seq<(u64, Seq<u8>)>, i: int) -> Option<
    AttestationView,
>
    decreases pins.len() - i,
{
    if i >= pins.len() {
        None
    } else {
        match read_by(s, pins[i].0, pins[i].1, 0) {
            Some(a) => Some(a),
            None => reading_from(s, pins, i + 1),
        }
    }
}

impl BlobView {
    /// What the blob says, under the first pinned anchor that reads it.
    pub open spec fn reading(self, pins: Seq<(u64, Seq<u8>)>) -> Option<AttestationView> {
        reading_from(self.readings, pins, 0)
    }

    /// Whether the blob is read, and what it says is wanted.
    pub open spec fn clears(
        self,
        pins: Seq<(u64, Seq<u8>)>,
        p: spec_fn(AttestationView) -> bool,
    ) -> bool {
        match self.reading(pins) {
            Some(a) => p(a),
            None => false,
        }
    }
}

fn read_under<'a>(blob: &'a GuildAttestation, guild_id: u64, anchor: &PubKey) -> (r: Option<
    &'a Attestation,
>)
    ensures
        match r {
            Some(a) => read_by(blob@.readings, guild_id, anchor@, 0) == Some(a@),
            None => read_by(blob@.readings, guild_id, anchor@, 0) is None,
        },
{
    let ghost s = blob@.readings;
    let mut i: usize = 0;
    while i < blob.readings.len()
        invariant
            i <= blob.readings.len(),
            s == reading_views(blob.readings@),
            s == blob@.readings,
            read_by(s, guild_id, anchor@, 0) == read_by(s, guild_id, anchor@, i as int),
        decreases blob.readings.len() - i,
    {
        let x = &blob.readings[i];
        assert(s[i as int] == x@);
        if x.guild_id == guild_id && same_key(&x.anchor, anchor) {
            return Some(&x.attestation);
        }
        i += 1;
    }
    None
}

/// What a blob says, under the first pinned anchor that reads it.
pub fn verify_against_pinned<'a>(blob: &'a GuildAttestation, pinned: &Vec<(u64, PubKey)>) -> (r:
    Option<&'a Attestation>)
    ensures
        match r {
            Some(a) => blob@.reading(keys::pin_views(pinned@)) == Some(a@),
            None => blob@.reading(keys::pin_views(pinned@)) is None,
        },
{
    let ghost s = blob@.readings;
    let ghost pins = keys::pin_views(pinned@);
    let mut i: usize = 0;
    while i < pinned.len()
        invariant
            i <= pinned.len(),
            s == blob@.readings,
            pins == keys::pin_views(pinned@),
            reading_from(s, pins, 0) == reading_from(s, pins, i as int),
        decreases pinned.len() - i,
    {
        assert(pins[i as int] == (pinned@[i as int].0, pinned@[i as int].1@));
        if let Some(a) = read_under(blob, pinned[i].0, &pinned[i].1) {
            return Some(a);
        }
        i += 1;
    }
    None
}

/// The first blob at or after `i` that clears, or the length.
pub open spec fn cleared_from(
    blobs: Seq<BlobView>,
    pins: Seq<(u64, Seq<u8>)>,
    p: spec_fn(AttestationView) -> bool,
    i: int,
) -> int
    decreases blobs.len() - i,
{
    if i >= blobs.len() {
        blobs.len() as int
    } else if blobs[i].clears(pins, p) {
        i
    } else {
        cleared_from(blobs, pins, p, i + 1)
    }
}

/// The first attestation among blobs that is read under a pinned anchor and wanted. A blob that is
/// not read, or not wanted, is passed over, and rejects nothing else.
pub open spec fn first_cleared(
    blobs: Seq<BlobView>,
    pins: Seq<(u64, Seq<u8>)>,
    p: spec_fn(AttestationView) -> bool,
) -> Option<(BlobView, AttestationView)> {
    let i = cleared_from(blobs, pins, p, 0);
    if 0 <= i < blobs.len() {
        Some((blobs[i], blobs[i].reading(pins)->0))
    } else {
        None
    }
}

/// The first attestation among blobs that is read under a pinned anchor and wanted.
pub(crate) fn first_verified<'a, F: Fn(&Attestation) -> bool>(
    blobs: &'a Vec<GuildAttestation>,
    pinned: &Vec<(u64, PubKey)>,
    accept: F,
    p: Ghost<spec_fn(AttestationView) -> bool>,
) -> (r: Option<(&'a GuildAttestation, &'a Attestation)>)
    requires
        forall|a: Attestation| #[trigger] accept.requires((&a,)),
        forall|a: Attestation, b: bool| #[trigger] accept.ensures((&a,), b) ==> b == p@(a@),
    ensures
        match r {
            Some((g, a)) => first_cleared(
                blob_views(blobs@),
                keys::pin_views(pinned@),
                p@,
            ) == Some((g@, a@)),
            None => first_cleared(blob_views(blobs@), keys::pin_views(pinned@), p@) is None,
        },
{
    let ghost s = blob_views(blobs@);
    let ghost pins = keys::pin_views(pinned@);
    let mut i: usize = 0;
    while i < blobs.len()
        invariant
            i <= blobs.len(),
            s == blob_views(blobs@),
            pins == keys::pin_views(pinned@),
            cleared_from(s, pins, p@, 0) == cleared_from(s, pins, p@, i as int),
            forall|a: Attestation| #[trigger] accept.requires((&a,)),
            forall|a: Attestation, b: bool| #[trigger] accept.ensures((&a,), b) ==> b == p@(a@),
        decreases blobs.len() - i,
    {
        let g = &blobs[i];
        assert(s[i as int] == g@);
        if let Some(a) = verify_against_pinned(g, pinned) {
            if accept(a) {
                return Some((g, a));
            }
        }
        i += 1;
    }
    None
}

/// The attestations that a device was granted, and the networks it is in.
pub struct Grant {
    pub networks: Vec<String>,
    pub attestations: Vec<GuildAttestation>,
}

/// The model of a grant.
pub struct GrantView {
    pub networks: Seq<Seq<char>>,
    pub attestations: Seq<BlobView>,
}

impl View for Grant {
    type V = GrantView;

    open spec fn view(&self) -> GrantView {
        GrantView {
            networks: text::texts(self.networks@),
            attestations: blob_views(self.attestations@),
        }
    }
}

/// Any attestation.
pub open spec fn any_attestation() -> spec_fn(AttestationView) -> bool {
    |a: AttestationView| true
}

/// The attestation of a grant, and the community it is of: the first that is read under a pinned
/// anchor.
pub open spec fn granted(g: GrantView, pins: Seq<(u64, Seq<u8>)>) -> Option<
    (AttestationView, Seq<char>),
> {
    match first_cleared(g.attestations, pins, any_attestation()) {
        Some((b, a)) => Some((a, b.community_name)),
        None => None,
    }
}

/// The attestation of a grant, and the community it is of.
pub fn verify_grant<'a>(grant: &'a Grant, pinned: &Vec<(u64, PubKey)>) -> (r: Option<
    (&'a Attestation, &'a String),
>)
    ensures
        match r {
            Some((a, c)) => granted(grant@, keys::pin_views(pinned@)) == Some((a@, c@)),
            None => granted(grant@, keys::pin_views(pinned@)) is None,
        },
{
    let accept = |a: &Attestation| -> (b: bool) ensures (b == true) { true };
    match first_verified(&grant.attestations, pinned, accept, Ghost(any_attestation())) {
        Some((g, a)) => Some((a, &g.community_name)),
        None => None,
    }
}

/// What is wanted of a peer's own attestation: that it is the peer's, that its address is in bounds,
/// and that it outlasts what is held.
pub open spec fn fresher(pubkey: Seq<u8>, current_expiry: u64) -> spec_fn(AttestationView) -> bool {
    |a: AttestationView|
        a.wg_pubkey == pubkey && a.in_bounds() && a.expires_at > current_expiry
}

/// The attestation to adopt of those that a peer served.
pub open spec fn adopted(
    blobs: Seq<BlobView>,
    pins: Seq<(u64, Seq<u8>)>,
    pubkey: Seq<u8>,
    current_expiry: u64,
) -> Option<AttestationView> {
    match first_cleared(blobs, pins, fresher(pubkey, current_expiry)) {
        Some((b, a)) => Some(a),
        None => None,
    }
}

/// The attestation that a peer served of itself, if one is to be adopted. A peer cannot serve
/// another device's.
pub fn verify_pulled<'a>(
    blobs: &'a Vec<GuildAttestation>,
    expected_pubkey: PubKey,
    current_expiry: u64,
    pinned: &Vec<(u64, PubKey)>,
) -> (r: Option<&'a Attestation>)
    ensures
        ({
            let a = adopted(
                blob_views(blobs@),
                keys::pin_views(pinned@),
                expected_pubkey@,
                current_expiry,
            );
            match r {
                Some(x) => a == Some(x@),
                None => a is None,
            }
        }),
{
    let ghost p = fresher(expected_pubkey@, current_expiry);
    let accept = |a: &Attestation| -> (b: bool)
        ensures (b == (a@.wg_pubkey == expected_pubkey@ && a@.in_bounds() && a@.expires_at
            > current_expiry)) {
        same_key(&a.wg_pubkey, &expected_pubkey) && a.in_bounds() && a.expires_at > current_expiry
    };
    match first_verified(blobs, pinned, accept, Ghost(p)) {
        Some((g, a)) => Some(a),
        None => None,
    }
}

/// A seed with what its peer attests of itself taken over. What the coordinator arranges between
/// two peers stays.
pub open spec fn pulled(s: mesh::SeedView, a: AttestationView) -> mesh::SeedView {
    mesh::SeedView {
        user_id: a.user_id,
        username: a.username,
        ip: a.wg_ip,
        hostname: a.hostname(),
        primary_alias: a.primary_alias(),
        expires_at: a.expires_at,
        ..s
    }
}

/// Takes over what a peer attests of itself.
pub fn apply_pulled(seed: &mut SeedPeer, att: &Attestation)
    ensures
        final(seed)@ == pulled(old(seed)@, att@),
{
    seed.user_id = att.user_id;
    seed.username = att.username.clone();
    seed.ip = att.wg_ip;
    seed.hostname = att.hostname();
    seed.primary_alias = att.primary_alias();
    seed.expires_at = att.expires_at;
}

/// A peer as the coordinator sends it: its blobs, and what is arranged between the two devices.
pub struct Seed {
    pub attestations: Vec<GuildAttestation>,
    pub endpoint: Option<Endpoint>,
    pub punch: Option<Endpoint>,
    pub networks: Vec<SharedNetwork>,
    pub relay: Option<RelayInfo>,
    pub ice: Option<IceParams>,
    pub rev: u64,
}

/// The model of a sent seed.
#[verifier::ext_equal]
pub struct PairView {
    pub attestations: Seq<BlobView>,
    pub endpoint: Option<Endpoint>,
    pub punch: Option<Endpoint>,
    pub networks: Seq<mesh::SharedView>,
    pub relay: Option<mesh::RelayView>,
    pub ice: Option<mesh::IceView>,
    pub rev: u64,
}

impl View for Seed {
    type V = PairView;

    open spec fn view(&self) -> PairView {
        PairView {
            attestations: blob_views(self.attestations@),
            endpoint: self.endpoint,
            punch: self.punch,
            networks: mesh::shared_network_views(self.networks@),
            relay: mesh::opt_relay_info(self.relay),
            ice: mesh::opt_ice_params(self.ice),
            rev: self.rev,
        }
    }
}

/// The models of a list of sent seeds.
pub open spec fn sent_views(s: Seq<Seed>) -> Seq<PairView> {
    s.map_values(|x: Seed| x@)
}

/// The peer that a sent seed and its attestation make.
pub open spec fn peer_of(s: PairView, a: AttestationView) -> mesh::SeedView {
    mesh::SeedView {
        pubkey: a.wg_pubkey,
        user_id: a.user_id,
        username: a.username,
        ip: a.wg_ip,
        endpoint: s.endpoint,
        punch: s.punch,
        hostname: a.hostname(),
        primary_alias: a.primary_alias(),
        networks: s.networks,
        relay: s.relay,
        ice: s.ice,
        rev: s.rev,
        expires_at: a.expires_at,
    }
}

/// The peer that a sent seed is admitted as. None is, unless a pinned anchor reads one of its blobs;
/// nor is one whose address lies out of the block that bounds it, so that no signed address is ever
/// routed to a host outside the mesh.
pub open spec fn admitted(s: PairView, pins: Seq<(u64, Seq<u8>)>) -> Option<mesh::SeedView> {
    match first_cleared(s.attestations, pins, any_attestation()) {
        Some((g, a)) => if a.in_bounds() {
            Some(peer_of(s, a))
        } else {
            None
        },
        None => None,
    }
}

/// The peers that sent seeds are admitted as.
pub open spec fn admitted_of(seeds: Seq<PairView>, pins: Seq<(u64, Seq<u8>)>) -> Seq<mesh::SeedView>
    decreases seeds.len(),
{
    if seeds.len() == 0 {
        seq![]
    } else {
        match admitted(seeds.last(), pins) {
            Some(p) => admitted_of(seeds.drop_last(), pins).push(p),
            None => admitted_of(seeds.drop_last(), pins),
        }
    }
}

fn take_in(seed: &Seed, pinned: &Vec<(u64, PubKey)>) -> (r: Option<SeedPeer>)
    ensures
        match r {
            Some(p) => admitted(seed@, keys::pin_views(pinned@)) == Some(p@),
            None => admitted(seed@, keys::pin_views(pinned@)) is None,
        },
{
    let accept = |a: &Attestation| -> (b: bool) ensures (b == true) { true };
    match first_verified(&seed.attestations, pinned, accept, Ghost(any_attestation())) {
        Some((g, a)) => {
            if !a.in_bounds() {
                return None;
            }
            let p = SeedPeer {
                pubkey: a.wg_pubkey,
                user_id: a.user_id,
                username: a.username.clone(),
                ip: a.wg_ip,
                endpoint: seed.endpoint,
                punch: seed.punch,
                hostname: a.hostname(),
                primary_alias: a.primary_alias(),
                networks: copy_shared_networks(&seed.networks),
                relay: copy_opt_relay_info(&seed.relay),
                ice: copy_opt_ice_params(&seed.ice),
                rev: seed.rev,
                expires_at: a.expires_at,
            };
            assert(p@ =~= peer_of(seed@, a@));
            Some(p)
        },
        None => None,
    }
}

/// An anchor that the coordinator names for a guild, and the anchors that signed rotations lead from
/// to it.
pub struct AnchorInfo {
    pub guild_id: u64,
    pub pubkey: PubKey,
    pub rotated_from: Vec<PubKey>,
}

/// The model of a named anchor.
#[verifier::ext_equal]
pub struct AnchorView {
    pub guild_id: u64,
    pub pubkey: Seq<u8>,
    pub rotated_from: Seq<Seq<u8>>,
}

impl View for AnchorInfo {
    type V = AnchorView;

    open spec fn view(&self) -> AnchorView {
        AnchorView {
            guild_id: self.guild_id,
            pubkey: self.pubkey@,
            rotated_from: mesh::keys_of(self.rotated_from@),
        }
    }
}

/// The models of named anchors.
pub open spec fn anchor_views(s: Seq<AnchorInfo>) -> Seq<AnchorView> {
    s.map_values(|x: AnchorInfo| x@)
}

/// What the coordinator answers to a registration or a refresh.
pub struct RegisterResp {
    /// The anchors of the guilds that the answer speaks of.
    pub anchors: Vec<AnchorInfo>,
    /// What the device itself was granted; nothing, when it is in no network.
    pub grant: Option<Grant>,
    /// Every network that the owner's roles grant.
    pub networks: Vec<NetworkStatus>,
    /// The domain that certificates are issued under, where the deployment has one.
    pub dns_domain: Option<String>,
    pub seeds: Vec<Seed>,
    /// Whether the seeds are only those that changed.
    pub partial: bool,
    /// The peers that are to be dropped from those that are held.
    pub removed: Vec<PubKey>,
}

/// What files hold, by guild.
pub open spec fn file_views(m: Map<u64, Vec<u8>>) -> Map<u64, Seq<u8>> {
    m.map_values(|v: Vec<u8>| v@)
}

/// What a guild's pin holds.
pub open spec fn pin_of(pins: Map<u64, Seq<u8>>, guild_id: u64) -> Option<Seq<u8>> {
    if pins.contains_key(guild_id) {
        Some(pins[guild_id])
    } else {
        None
    }
}

/// What becomes of the pins.
#[verifier::ext_equal]
pub struct PinnedView {
    /// The pins from then on.
    pub pins: Map<u64, Seq<u8>>,
    /// The guilds whose pins were written.
    pub written: Seq<u64>,
    /// Why an anchor was refused, if one was.
    pub refused: Option<PinError>,
}

/// What becomes of one guild's pin.
pub open spec fn pinning_of(pins: Map<u64, Seq<u8>>, a: AnchorView) -> Result<Pin, PinError> {
    let held = pin_of(pins, a.guild_id);
    keys::pinning(
        a.guild_id,
        held,
        a.pubkey,
        held is Some && a.rotated_from.contains(held->0),
    )
}

/// What becomes of the pins when anchors are named. The first anchor that is refused ends it: nothing
/// after it is pinned.
pub open spec fn pinned_by(pins: Map<u64, Seq<u8>>, named: Seq<AnchorView>) -> PinnedView
    decreases named.len(),
{
    if named.len() == 0 {
        PinnedView { pins, written: seq![], refused: None }
    } else {
        let before = pinned_by(pins, named.drop_last());
        let a = named.last();
        if before.refused is Some {
            before
        } else {
            match pinning_of(before.pins, a) {
                Ok(Pin::Keep) => before,
                Ok(Pin::Write) => PinnedView {
                    pins: before.pins.insert(a.guild_id, a.pubkey),
                    written: before.written.push(a.guild_id),
                    refused: None,
                },
                Err(e) => PinnedView { refused: Some(e), ..before },
            }
        }
    }
}

/// What became of the pins.
pub struct Pinned {
    /// The guilds whose pins are to be saved.
    pub written: Vec<u64>,
    /// Why an anchor was refused, if one was.
    pub refused: Option<PinError>,
}

fn leads_from(from: &Vec<PubKey>, file: Option<&Vec<u8>>) -> (r: bool)
    ensures
        r == (file matches Some(b) && mesh::keys_of(from@).contains(b@)),
{
    match file {
        None => false,
        Some(b) => match key_of(b) {
            Ok(k) => mesh::has_key(from, &k),
            Err(_) => {
                assert forall|i: int| 0 <= i < from@.len() implies mesh::keys_of(from@)[i]
                    != b@ by {
                    assert(mesh::keys_of(from@)[i] == from@[i]@);
                }
                false
            },
        },
    }
}

proof fn lemma_refusal_ends(pins: Map<u64, Seq<u8>>, named: Seq<AnchorView>, i: int)
    requires
        0 <= i <= named.len(),
        pinned_by(pins, named.take(i)).refused is Some,
    ensures
        pinned_by(pins, named) == pinned_by(pins, named.take(i)),
    decreases named.len() - i,
{
    if i < named.len() {
        assert(named.take(i + 1).drop_last() =~= named.take(i));
        lemma_refusal_ends(pins, named, i + 1);
    } else {
        assert(named.take(i) =~= named);
    }
}

/// Pins the anchors that an answer names, as far as the pins allow, before anything else in it is
/// believed.
pub fn pin_all(named: &Vec<AnchorInfo>, pins: &mut Assoc<u64, Vec<u8>>) -> (r: Pinned)
    requires
        old(pins).wf(),
    ensures
        final(pins).wf(),
        ({
            let g = pinned_by(file_views(old(pins)@), anchor_views(named@));
            &&& file_views(final(pins)@) == g.pins
            &&& r.written@ == g.written
            &&& r.refused == g.refused
        }),
{
    let ghost was = file_views(pins@);
    let ghost all = anchor_views(named@);
    let mut written: Vec<u64> = Vec::new();
    let mut i: usize = 0;
    assert(pinned_by(was, all.take(0)).pins == was);
    while i < named.len()
        invariant
            i <= named.len(),
            was == file_views(old(pins)@),
            all == anchor_views(named@),
            pins.wf(),
            file_views(pins@) == pinned_by(was, all.take(i as int)).pins,
            written@ == pinned_by(was, all.take(i as int)).written,
            pinned_by(was, all.take(i as int)).refused is None,
        decreases named.len() - i,
    {
        let a = &named[i];
        let ghost held = file_views(pins@);
        proof {
            assert(all.take(i + 1).drop_last() =~= all.take(i as int));
            assert(all[i as int] == a@);
        }
        let file = pins.get(&a.guild_id);
        let rotated = leads_from(&a.rotated_from, file);
        match pin_anchor(a.guild_id, file, &a.pubkey, rotated) {
            Ok(Pin::Keep) => {},
            Ok(Pin::Write) => {
                let bytes = bytes_of(&a.pubkey);
                pins.insert(a.guild_id, bytes);
                assert(file_views(pins@) =~= held.insert(a.guild_id, a.pubkey@));
                written.push(a.guild_id);
            },
            Err(e) => {
                proof {
                    lemma_refusal_ends(was, all, i + 1);
                }
                return Pinned { written, refused: Some(e) };
            },
        }
        i += 1;
    }
    assert(all.take(i as int) =~= all);
    Pinned { written, refused: None }
}

fn bytes_of(k: &PubKey) -> (r: Vec<u8>)
    ensures
        r@ == k@,
{
    let mut out: Vec<u8> = Vec::new();
    let mut i: usize = 0;
    while i < 32
        invariant
            i <= 32,
            out@ == k@.take(i as int),
        decreases 32 - i,
    {
        out.push(k[i]);
        assert(k@.take(i + 1) =~= k@.take(i as int).push(k@[i as int]));
        i += 1;
    }
    assert(k@.take(32) =~= k@);
    out
}

/// The pins of the guilds whose anchors are named. They, and not the anchors that are named, are what
/// attestations are read under.
pub open spec fn pins_for(named: Seq<AnchorView>, pins: Map<u64, Seq<u8>>) -> Seq<(u64, Seq<u8>)>
    decreases named.len(),
{
    if named.len() == 0 {
        seq![]
    } else {
        let before = pins_for(named.drop_last(), pins);
        let g = named.last().guild_id;
        if pins.contains_key(g) && pins[g].len() == 32 {
            before.push((g, pins[g]))
        } else {
            before
        }
    }
}

/// The pins of the guilds whose anchors are named.
pub fn pinned_anchors(named: &Vec<AnchorInfo>, pins: &Assoc<u64, Vec<u8>>) -> (r: Vec<(u64, PubKey)>)
    requires
        pins.wf(),
    ensures
        keys::pin_views(r@) == pins_for(anchor_views(named@), file_views(pins@)),
{
    let ghost all = anchor_views(named@);
    let ghost m = file_views(pins@);
    let mut out: Vec<(u64, PubKey)> = Vec::new();
    let mut i: usize = 0;
    assert(keys::pin_views(out@) =~= pins_for(all.take(0), m));
    while i < named.len()
        invariant
            i <= named.len(),
            pins.wf(),
            all == anchor_views(named@),
            m == file_views(pins@),
            keys::pin_views(out@) == pins_for(all.take(i as int), m),
        decreases named.len() - i,
    {
        assert(all.take(i + 1).drop_last() =~= all.take(i as int));
        assert(all[i as int] == named@[i as int]@);
        let g = named[i].guild_id;
        if let Ok(k) = load_anchor(g, pins.get(&g)) {
            let ghost before = keys::pin_views(out@);
            out.push((g, k));
            assert(keys::pin_views(out@) =~= before.push((g, k@)));
        }
        i += 1;
    }
    assert(all.take(i as int) =~= all);
    out
}

/// The peers among the seeds of an answer. A seed that is not admitted is skipped, and denies no other.
pub fn verified_seeds(resp: &RegisterResp, pins: &Assoc<u64, Vec<u8>>) -> (r: Vec<SeedPeer>)
    requires
        pins.wf(),
    ensures
        mesh::seed_views(r@) == admitted_of(
            sent_views(resp.seeds@),
            pins_for(anchor_views(resp.anchors@), file_views(pins@)),
        ),
{
    let pinned = pinned_anchors(&resp.anchors, pins);
    let seeds = &resp.seeds;
    let ghost under = keys::pin_views(pinned@);
    let ghost all = sent_views(seeds@);
    let mut out: Vec<SeedPeer> = Vec::new();
    let mut i: usize = 0;
    assert(mesh::seed_views(out@) =~= admitted_of(all.take(0), under));
    while i < seeds.len()
        invariant
            i <= seeds.len(),
            under == keys::pin_views(pinned@),
            all == sent_views(seeds@),
            mesh::seed_views(out@) == admitted_of(all.take(i as int), under),
        decreases seeds.len() - i,
    {
        assert(all.take(i + 1).drop_last() =~= all.take(i as int));
        assert(all[i as int] == seeds@[i as int]@);
        if let Some(p) = take_in(&seeds[i], &pinned) {
            let ghost before = mesh::seed_views(out@);
            let ghost v = p@;
            out.push(p);
            assert(mesh::seed_views(out@) =~= before.push(v));
        }
        i += 1;
    }
    assert(all.take(i as int) =~= all);
    out
}

/// The first peer at or after `i` with a key, or the length.
pub open spec fn peer_from(s: Seq<mesh::SeedView>, k: Seq<u8>, i: int) -> int
    decreases s.len() - i,
{
    if i >= s.len() {
        s.len() as int
    } else if s[i].pubkey == k {
        i
    } else {
        peer_from(s, k, i + 1)
    }
}

/// The peers with one of them replaced, or added.
pub open spec fn upserted(s: Seq<mesh::SeedView>, p: mesh::SeedView) -> Seq<mesh::SeedView> {
    let i = peer_from(s, p.pubkey, 0);
    if 0 <= i < s.len() {
        s.update(i, p)
    } else {
        s.push(p)
    }
}

/// The peers with all of a list replaced, or added.
pub open spec fn all_upserted(s: Seq<mesh::SeedView>, more: Seq<mesh::SeedView>) -> Seq<
    mesh::SeedView,
>
    decreases more.len(),
{
    if more.len() == 0 {
        s
    } else {
        upserted(all_upserted(s, more.drop_last()), more.last())
    }
}

/// The peers of a list that are not dropped.
pub open spec fn kept(s: Seq<mesh::SeedView>, dropped: Seq<Seq<u8>>) -> Seq<mesh::SeedView> {
    s.filter(|p: mesh::SeedView| !dropped.contains(p.pubkey))
}

/// The peers after an answer. A full one stands for itself; a partial one replaces or adds the peers
/// it names, drops those it names as removed, and leaves every other as it is.
pub open spec fn merged(
    prev: Seq<mesh::SeedView>,
    changed: Seq<mesh::SeedView>,
    partial: bool,
    removed: Seq<Seq<u8>>,
) -> Seq<mesh::SeedView> {
    if partial {
        all_upserted(all_upserted(seq![], kept(prev, removed)), changed)
    } else {
        changed
    }
}

fn upsert(v: &mut Vec<SeedPeer>, p: SeedPeer)
    ensures
        mesh::seed_views(final(v)@) == upserted(mesh::seed_views(old(v)@), p@),
{
    let ghost s = mesh::seed_views(v@);
    let ghost pv = p@;
    let mut i: usize = 0;
    while i < v.len() && !same_key(&v[i].pubkey, &p.pubkey)
        invariant
            i <= v.len(),
            s == mesh::seed_views(v@),
            peer_from(s, p@.pubkey, 0) == peer_from(s, p@.pubkey, i as int),
        decreases v.len() - i,
    {
        assert(s[i as int] == v@[i as int]@);
        i += 1;
    }
    if i < v.len() {
        assert(s[i as int] == v@[i as int]@);
        v.set(i, p);
        assert(mesh::seed_views(v@) =~= s.update(i as int, pv));
    } else {
        v.push(p);
        assert(mesh::seed_views(v@) =~= s.push(pv));
    }
}

/// The peers after an answer: its own merged into those of `prev`.
pub fn merge_seeds(
    prev: &Vec<SeedPeer>,
    resp: &RegisterResp,
    pins: &Assoc<u64, Vec<u8>>,
) -> (r: Vec<SeedPeer>)
    requires
        pins.wf(),
    ensures
        mesh::seed_views(r@) == merged(
            mesh::seed_views(prev@),
            admitted_of(
                sent_views(resp.seeds@),
                pins_for(anchor_views(resp.anchors@), file_views(pins@)),
            ),
            resp.partial,
            mesh::keys_of(resp.removed@),
        ),
{
    let mut changed = verified_seeds(resp, pins);
    if !resp.partial {
        return changed;
    }
    let removed = &resp.removed;
    let ghost gone = mesh::keys_of(removed@);
    let ghost p = |p: mesh::SeedView| !gone.contains(p.pubkey);
    let ghost old_peers = mesh::seed_views(prev@);
    let mut out: Vec<SeedPeer> = Vec::new();
    let mut i: usize = 0;
    proof {
        reveal(Seq::filter);
        assert(mesh::seed_views(out@) =~= all_upserted(seq![], old_peers.take(0).filter(p)));
    }
    while i < prev.len()
        invariant
            i <= prev.len(),
            gone == mesh::keys_of(removed@),
            p == (|p: mesh::SeedView| !gone.contains(p.pubkey)),
            old_peers == mesh::seed_views(prev@),
            mesh::seed_views(out@) == all_upserted(seq![], old_peers.take(i as int).filter(p)),
        decreases prev.len() - i,
    {
        proof {
            reveal(Seq::filter);
            assert(old_peers.take(i + 1).drop_last() =~= old_peers.take(i as int));
            assert(old_peers[i as int] == prev@[i as int]@);
        }
        let ghost kept_before = old_peers.take(i as int).filter(p);
        if !mesh::has_key(removed, &prev[i].pubkey) {
            upsert(&mut out, prev[i].copy());
            assert(kept_before.push(old_peers[i as int]).drop_last() =~= kept_before);
        }
        i += 1;
    }
    assert(old_peers.take(i as int) =~= old_peers);
    assert(p =~= (|p: mesh::SeedView| !mesh::keys_of(removed@).contains(p.pubkey)));
    let ghost base = mesh::seed_views(out@);
    let ghost fresh = mesh::seed_views(changed@);
    let ghost mut done: int = 0;
    proof {
        assert(fresh.skip(0) =~= fresh);
        assert(all_upserted(base, fresh.take(0)) == base);
    }
    while changed.len() > 0
        invariant
            0 <= done <= fresh.len(),
            mesh::seed_views(changed@) == fresh.skip(done),
            mesh::seed_views(out@) == all_upserted(base, fresh.take(done)),
        decreases changed.len(),
    {
        let ghost rest = mesh::seed_views(changed@);
        let s = changed.remove(0);
        proof {
            assert(rest.len() == changed@.len() + 1 && rest == fresh.skip(done));
            assert(s@ == rest[0]);
            assert(s@ == fresh[done]);
            assert(mesh::seed_views(changed@) =~= rest.skip(1));
            assert(fresh.skip(done).skip(1) =~= fresh.skip(done + 1));
            assert(fresh.take(done + 1).drop_last() =~= fresh.take(done));
            done = done + 1;
        }
        upsert(&mut out, s);
    }
    proof {
        assert(fresh.skip(done).len() == mesh::seed_views(changed@).len());
        assert(fresh.take(done) =~= fresh);
    }
    out
}

/// The soonest expiry among the first `i` peers, when there is one.
pub open spec fn soonest(s: Seq<mesh::SeedView>) -> Option<u64>
    decreases s.len(),
{
    if s.len() == 0 {
        None
    } else {
        match soonest(s.drop_last()) {
            Some(e) => Some(
                if s.last().expires_at < e {
                    s.last().expires_at
                } else {
                    e
                },
            ),
            None => Some(s.last().expires_at),
        }
    }
}

/// The held set that peers make.
pub open spec fn held_of(s: Seq<mesh::SeedView>) -> Seq<mesh::HeldView> {
    s.map_values(|p: mesh::SeedView| mesh::HeldView { pubkey: p.pubkey, rev: p.rev })
}

/// What is said to be held: every peer in its revision, so that the answer names only what changed;
/// nothing when the soonest expiry is within the margin, which asks for all of it.
pub open spec fn held_report(s: Seq<mesh::SeedView>, now: u64, margin: u64) -> Seq<
    mesh::HeldView,
> {
    match soonest(s) {
        Some(e) => if e <= now + margin {
            seq![]
        } else {
            held_of(s)
        },
        None => held_of(s),
    }
}

/// What to say is held, on the next refresh.
pub fn held_for_refresh(seeds: &Vec<SeedPeer>, now: u64, refresh_margin: u64) -> (r: Vec<HeldPeer>)
    requires
        now + refresh_margin <= u64::MAX,
    ensures
        mesh::held_peer_views(r@) == held_report(mesh::seed_views(seeds@), now, refresh_margin),
{
    let ghost all = mesh::seed_views(seeds@);
    let ghost want = held_of(all);
    let mut first: Option<u64> = None;
    let mut out: Vec<HeldPeer> = Vec::new();
    let mut i: usize = 0;
    assert(mesh::held_peer_views(out@) =~= want.take(0));
    while i < seeds.len()
        invariant
            i <= seeds.len(),
            all == mesh::seed_views(seeds@),
            want == held_of(all),
            first == soonest(all.take(i as int)),
            mesh::held_peer_views(out@) == want.take(i as int),
        decreases seeds.len() - i,
    {
        assert(all.take(i + 1).drop_last() =~= all.take(i as int));
        let s = &seeds[i];
        assert(all[i as int] == s@);
        first = match first {
            Some(e) => Some(
                if s.expires_at < e {
                    s.expires_at
                } else {
                    e
                },
            ),
            None => Some(s.expires_at),
        };
        let ghost before = mesh::held_peer_views(out@);
        out.push(HeldPeer { pubkey: s.pubkey, rev: s.rev });
        assert(mesh::held_peer_views(out@) =~= before.push(want[i as int]));
        assert(want.take(i + 1) =~= want.take(i as int).push(want[i as int]));
        i += 1;
    }
    assert(all.take(i as int) =~= all);
    assert(want.take(i as int) =~= want);
    if let Some(e) = first {
        if e <= now + refresh_margin {
            let none: Vec<HeldPeer> = Vec::new();
            assert(mesh::held_peer_views(none@) =~= seq![]);
            return none;
        }
    }
    out
}

/// What this device has to say to the coordinator.
pub struct CoordReq {
    pub wg_pubkey: PubKey,
    pub device_name: String,
    pub endpoint: Option<Endpoint>,
    pub enrollment_key: Option<String>,
    /// The version last seen. With one, the coordinator holds the request until something changes.
    pub since: Option<u64>,
    pub disabled_networks: Vec<NetId>,
    pub observed: Vec<ObservedEndpoint>,
    /// The device token of a key that this one replaces.
    pub supersede: Option<String>,
    pub paused: bool,
    pub peer_own_devices: bool,
    pub relay: RelayReport,
    pub ice: Vec<IceEndpoint>,
    pub held: Vec<HeldPeer>,
}

/// The model of a statement.
#[verifier::ext_equal]
pub struct StatementView {
    pub wg_pubkey: Seq<u8>,
    pub device_name: Seq<char>,
    pub endpoint: Option<Endpoint>,
    pub enrollment_key: Option<Seq<char>>,
    pub since: Option<u64>,
    pub disabled_networks: Seq<NetId>,
    pub observed: Seq<mesh::ObservedView>,
    pub supersede: Option<Seq<char>>,
    pub paused: bool,
    pub peer_own_devices: bool,
    pub relay: mesh::ReportView,
    pub ice: Seq<mesh::OfferView>,
    pub held: Seq<mesh::HeldView>,
}

impl View for CoordReq {
    type V = StatementView;

    open spec fn view(&self) -> StatementView {
        StatementView {
            wg_pubkey: self.wg_pubkey@,
            device_name: self.device_name@,
            endpoint: self.endpoint,
            enrollment_key: text::opt_text(self.enrollment_key),
            since: self.since,
            disabled_networks: self.disabled_networks@,
            observed: mesh::observation_views(self.observed@),
            supersede: text::opt_text(self.supersede),
            paused: self.paused,
            peer_own_devices: self.peer_own_devices,
            relay: self.relay@,
            ice: mesh::offer_views(self.ice@),
            held: mesh::held_peer_views(self.held@),
        }
    }
}

/// What this build says of itself: the protocol versions it speaks, from the lowest to the highest, and what it can do.
pub struct Hello {
    pub proto: u32,
    pub proto_min: u32,
    pub caps: Vec<String>,
    pub client_version: String,
}

/// The model of an introduction.
#[verifier::ext_equal]
pub struct HelloView {
    pub proto: u32,
    pub proto_min: u32,
    pub caps: Seq<Seq<char>>,
    pub client_version: Seq<char>,
}

impl View for Hello {
    type V = HelloView;

    open spec fn view(&self) -> HelloView {
        HelloView {
            proto: self.proto,
            proto_min: self.proto_min,
            caps: text::texts(self.caps@),
            client_version: self.client_version@,
        }
    }
}

impl Hello {
    /// A copy of the introduction.
    pub fn copy(&self) -> (r: Hello)
        ensures
            r@ == self@,
    {
        let r = Hello {
            proto: self.proto,
            proto_min: self.proto_min,
            caps: text::copy_list(&self.caps),
            client_version: self.client_version.clone(),
        };
        assert(r@ =~= self@);
        r
    }
}

/// The body of a registration or a refresh.
pub struct RegisterReq {
    pub wg_pubkey: PubKey,
    pub device_name: String,
    pub endpoint: Option<Endpoint>,
    pub enrollment_key: Option<String>,
    /// The version last seen. With one, the coordinator holds the request until something changes.
    pub since: Option<u64>,
    pub disabled_networks: Vec<NetId>,
    pub observed: Vec<ObservedEndpoint>,
    /// The device token of a key that this one replaces.
    pub supersede: Option<String>,
    pub paused: bool,
    pub peer_own_devices: bool,
    pub relay_capable: bool,
    pub relay_addr: Option<Endpoint>,
    pub relay_secret: Option<String>,
    pub need_relay: Vec<PubKey>,
    pub relay_allocated: Vec<RelayAllocation>,
    pub ice: Vec<IceEndpoint>,
    pub proto: u32,
    pub proto_min: u32,
    pub caps: Vec<String>,
    pub client_version: String,
    pub held: Vec<HeldPeer>,
}

/// The model of a request.
#[verifier::ext_equal]
pub struct RequestView {
    pub wg_pubkey: Seq<u8>,
    pub device_name: Seq<char>,
    pub endpoint: Option<Endpoint>,
    pub enrollment_key: Option<Seq<char>>,
    pub since: Option<u64>,
    pub disabled_networks: Seq<NetId>,
    pub observed: Seq<mesh::ObservedView>,
    pub supersede: Option<Seq<char>>,
    pub paused: bool,
    pub peer_own_devices: bool,
    pub relay_capable: bool,
    pub relay_addr: Option<Endpoint>,
    pub relay_secret: Option<Seq<char>>,
    pub need_relay: Seq<Seq<u8>>,
    pub relay_allocated: Seq<mesh::AllocationView>,
    pub ice: Seq<mesh::OfferView>,
    pub proto: u32,
    pub proto_min: u32,
    pub caps: Seq<Seq<char>>,
    pub client_version: Seq<char>,
    pub held: Seq<mesh::HeldView>,
}

impl View for RegisterReq {
    type V = RequestView;

    open spec fn view(&self) -> RequestView {
        RequestView {
            wg_pubkey: self.wg_pubkey@,
            device_name: self.device_name@,
            endpoint: self.endpoint,
            enrollment_key: text::opt_text(self.enrollment_key),
            since: self.since,
            disabled_networks: self.disabled_networks@,
            observed: mesh::observation_views(self.observed@),
            supersede: text::opt_text(self.supersede),
            paused: self.paused,
            peer_own_devices: self.peer_own_devices,
            relay_capable: self.relay_capable,
            relay_addr: self.relay_addr,
            relay_secret: text::opt_text(self.relay_secret),
            need_relay: mesh::keys_of(self.need_relay@),
            relay_allocated: mesh::allocation_views(self.relay_allocated@),
            ice: mesh::offer_views(self.ice@),
            proto: self.proto,
            proto_min: self.proto_min,
            caps: text::texts(self.caps@),
            client_version: self.client_version@,
            held: mesh::held_peer_views(self.held@),
        }
    }
}

/// The body that carries a statement.
pub open spec fn body_of(r: StatementView, h: HelloView) -> RequestView {
    RequestView {
        wg_pubkey: r.wg_pubkey,
        device_name: r.device_name,
        endpoint: r.endpoint,
        enrollment_key: r.enrollment_key,
        since: r.since,
        disabled_networks: r.disabled_networks,
        observed: r.observed,
        supersede: r.supersede,
        paused: r.paused,
        peer_own_devices: r.peer_own_devices,
        relay_capable: r.relay.capable,
        relay_addr: r.relay.addr,
        relay_secret: r.relay.secret,
        need_relay: r.relay.need_relay,
        relay_allocated: r.relay.allocated,
        ice: r.ice,
        proto: h.proto,
        proto_min: h.proto_min,
        caps: h.caps,
        client_version: h.client_version,
        held: r.held,
    }
}

/// The body that carries a statement.
pub fn post(req: CoordReq, hello: &Hello) -> (r: RegisterReq)
    ensures
        r@ == body_of(req@, hello@),
{
    let h = hello.copy();
    let r = RegisterReq {
        wg_pubkey: req.wg_pubkey,
        device_name: req.device_name,
        endpoint: req.endpoint,
        enrollment_key: req.enrollment_key,
        since: req.since,
        disabled_networks: req.disabled_networks,
        observed: req.observed,
        supersede: req.supersede,
        paused: req.paused,
        peer_own_devices: req.peer_own_devices,
        relay_capable: req.relay.capable,
        relay_addr: req.relay.addr,
        relay_secret: req.relay.secret,
        need_relay: req.relay.need_relay,
        relay_allocated: req.relay.allocated,
        ice: req.ice,
        proto: h.proto,
        proto_min: h.proto_min,
        caps: h.caps,
        client_version: h.client_version,
        held: req.held,
    };
    assert(r@ =~= body_of(req@, hello@));
    r
}

/// First contact: it is answered at once, and there is nothing yet to report of peers.
pub open spec fn first_contact(r: StatementView) -> StatementView {
    StatementView { since: None, observed: seq![], ice: seq![], held: seq![], ..r }
}

/// The body of a registration.
pub fn register(req: CoordReq, hello: &Hello) -> (r: RegisterReq)
    ensures
        r@ == body_of(first_contact(req@), hello@),
{
    let ghost want = first_contact(req@);
    let req = CoordReq {
        since: None,
        observed: Vec::new(),
        ice: Vec::new(),
        held: Vec::new(),
        ..req
    };
    assert(req@ =~= want);
    post(req, hello)
}

/// The body of a refresh. It never replaces a key: a registration did.
pub fn refresh(req: CoordReq, hello: &Hello) -> (r: RegisterReq)
    ensures
        r@ == body_of((StatementView { supersede: None, ..req@ }), hello@),
{
    let ghost want = StatementView { supersede: None, ..req@ };
    let req = CoordReq { supersede: None, ..req };
    assert(req@ =~= want);
    post(req, hello)
}

/// Where a route of the coordinator is.
pub open spec fn route(base: Seq<char>, path: Seq<char>) -> Seq<char> {
    base + "/"@ + path
}

/// Where a route of the coordinator is.
pub fn route_url(base_url: &str, path: &str) -> (r: String)
    ensures
        r@ == route(base_url@, path@),
{
    let mut r = base_url.to_owned();
    r.append("/");
    r.append(path);
    r
}

/// Where the public settings of the login are asked for.
pub fn pkce_config(base_url: &str) -> (r: String)
    ensures
        r@ == route(base_url@, "oauth/pkce-config"@),
{
    route_url(base_url, "oauth/pkce-config")
}

/// What ends a login: the token that was obtained, for the coordinator to check, and the key that it is
/// to bind to whom the token is of.
pub struct OauthCompleteReq {
    pub wg_pubkey: PubKey,
    pub access_token: String,
}

/// Where a login is ended, and with what.
pub fn oauth_complete(base_url: &str, wg_pubkey: PubKey, access_token: &str) -> (r: (
    String,
    OauthCompleteReq,
))
    ensures
        r.0@ == route(base_url@, "oauth/complete"@),
        r.1.wg_pubkey@ == wg_pubkey@,
        r.1.access_token@ == access_token@,
{
    (
        route_url(base_url, "oauth/complete"),
        OauthCompleteReq { wg_pubkey, access_token: access_token.to_owned() },
    )
}

/// An operation on the owner's devices, under the device's token.
pub struct ManageReq {
    pub token: String,
    pub op: ManageOp,
}

/// Where the owner's devices are managed, and how.
pub fn manage(base_url: &str, token: String, op: ManageOp) -> (r: (String, ManageReq))
    ensures
        r.0@ == route(base_url@, "devices/manage"@),
        r.1.token@ == token@,
        r.1.op == op,
{
    (route_url(base_url, "devices/manage"), ManageReq { token, op })
}

/// How long a request may take in all: longer than the coordinator may hold it.
pub fn request_timeout_secs(hold_secs: u64) -> (r: u64)
    requires
        hold_secs + 60 <= u64::MAX,
    ensures
        r == hold_secs + 60,
{
    hold_secs + 60
}

/// The coordinator refused this build's protocol: its range and the build's do not meet. No retry
/// helps until one side is updated; the text says which.
pub struct UpgradeRequired(pub String);

impl UpgradeRequired {
    /// What the coordinator said.
    pub fn to_text(&self) -> (r: String)
        ensures
            r@ == self.0@,
    {
        self.0.clone()
    }
}

/// Why an answer is of no use.
pub enum CoordError {
    /// The protocol was refused.
    Upgrade(UpgradeRequired),
    /// The request was refused.
    Rejected(String),
    /// An anchor was refused.
    Anchor(PinError),
    /// No attestation of the grant is read under a pinned anchor.
    NoGrant,
}

impl CoordError {
    /// What is said of the error.
    pub open spec fn text(self) -> Seq<char> {
        match self {
            CoordError::Upgrade(u) => u.0@,
            CoordError::Rejected(t) => t@,
            CoordError::Anchor(p) => p.text(),
            CoordError::NoGrant =>
                "verifying grant: no grant attestation verified against a pinned guild anchor"@,
        }
    }

    /// What is said of the error.
    pub fn to_text(&self) -> (r: String)
        ensures
            r@ == self.text(),
    {
        match self {
            CoordError::Upgrade(u) => u.to_text(),
            CoordError::Rejected(t) => t.clone(),
            CoordError::Anchor(p) => p.to_text(),
            CoordError::NoGrant =>
                "verifying grant: no grant attestation verified against a pinned guild anchor".to_owned(),
        }
    }
}

/// The status by which a protocol is refused.
pub const UPGRADE_REQUIRED: u16 = 426;

/// What is said of a request that was refused.
pub open spec fn rejection(what: Seq<char>, status: Seq<char>, body: Seq<char>) -> Seq<char> {
    "coordinator rejected "@ + what + ": "@ + status + ": "@ + body
}

/// Whether an answer is of use: what its status says. `status_text` is the status as it is shown,
/// and `what` the route.
pub fn ensure_ok(status: u16, status_text: &str, what: &str, body: &str) -> (r: Result<
    (),
    CoordError,
>)
    ensures
        match r {
            Ok(_) => 200 <= status <= 299,
            Err(CoordError::Upgrade(u)) => status == UPGRADE_REQUIRED && u.0@ == body@,
            Err(CoordError::Rejected(t)) => !(200 <= status <= 299) && status != UPGRADE_REQUIRED
                && t@ == rejection(what@, status_text@, body@),
            Err(_) => false,
        },
{
    if 200 <= status && status <= 299 {
        return Ok(());
    }
    if status == UPGRADE_REQUIRED {
        return Err(CoordError::Upgrade(UpgradeRequired(body.to_owned())));
    }
    let mut t = "coordinator rejected ".to_owned();
    t.append(what);
    t.append(": ");
    t.append(status_text);
    t.append(": ");
    t.append(body);
    Err(CoordError::Rejected(t))
}

/// Whether the version that the coordinator selected is outside the range that was offered. Zero is
/// no selection.
pub fn outside_offer(selected: u32, hello: &Hello) -> (r: bool)
    ensures
        r == (selected != 0 && !(hello@.proto_min <= selected <= hello@.proto)),
{
    selected != 0 && !(hello.proto_min <= selected && selected <= hello.proto)
}

/// This device, as its grant describes it.
pub open spec fn device_of(
    g: GrantView,
    a: AttestationView,
    community: Seq<char>,
    networks: Seq<mesh::NetworkView>,
    dns_domain: Option<Seq<char>>,
) -> mesh::DeviceView {
    mesh::DeviceView {
        community_name: community,
        user_id: a.user_id,
        username: a.username,
        networks: g.networks,
        wg_ip: a.wg_ip,
        wg_net: a.wg_net,
        hostname: a.hostname(),
        is_primary: a.is_primary,
        grant_expires_at: a.expires_at,
        primary_alias: a.primary_alias(),
        networks_status: networks,
        dns_domain,
    }
}

/// Whether this is the device that an answer describes, under some pins: none without a grant, which
/// is what a device in no network gets; and an error when no attestation of the grant is read under a
/// pinned anchor.
pub open spec fn describes(
    r: Result<Option<SelfDevice>, CoordError>,
    resp: RegisterResp,
    pins: Seq<(u64, Seq<u8>)>,
) -> bool {
    match (resp.grant, r) {
        (None, Ok(None)) => true,
        (Some(g), Ok(Some(d))) => granted(g@, pins) is Some && d@ == device_of(
            g@,
            (granted(g@, pins)->0).0,
            (granted(g@, pins)->0).1,
            mesh::network_status_views(resp.networks@),
            text::opt_text(resp.dns_domain),
        ),
        (Some(g), Err(CoordError::NoGrant)) => granted(g@, pins) is None,
        _ => false,
    }
}

/// This device, as an answer describes it.
pub fn self_device(resp: &RegisterResp, pinned: &Vec<(u64, PubKey)>) -> (r: Result<
    Option<SelfDevice>,
    CoordError,
>)
    ensures
        describes(r, *resp, keys::pin_views(pinned@)),
{
    let g = match &resp.grant {
        Some(g) => g,
        None => {
            return Ok(None);
        },
    };
    match verify_grant(g, pinned) {
        Some((a, community)) => {
            let d = SelfDevice {
                community_name: community.clone(),
                user_id: a.user_id,
                username: a.username.clone(),
                networks: text::copy_list(&g.networks),
                wg_ip: a.wg_ip,
                wg_net: a.wg_net,
                hostname: a.hostname(),
                is_primary: a.is_primary,
                grant_expires_at: a.expires_at,
                primary_alias: a.primary_alias(),
                networks_status: copy_network_statuses(&resp.networks),
                dns_domain: resp.dns_domain.clone(),
            };
            assert(d@ =~= device_of(
                g@,
                a@,
                community@,
                mesh::network_status_views(resp.networks@),
                text::opt_text(resp.dns_domain),
            ));
            Ok(Some(d))
        },
        None => Err(CoordError::NoGrant),
    }
}

/// What an answer comes to.
pub struct Accepted {
    /// The guilds whose pins are to be saved, whatever else the answer comes to.
    pub written: Vec<u64>,
    /// This device, or why the answer is refused.
    pub device: Result<Option<SelfDevice>, CoordError>,
}

/// Takes in an answer: pins what may be pinned, and only then reads the grant, under the pins. An
/// answer that names an anchor which may not be pinned is refused as a whole.
pub fn accept(resp: &RegisterResp, pins: &mut Assoc<u64, Vec<u8>>) -> (r: Accepted)
    requires
        old(pins).wf(),
    ensures
        final(pins).wf(),
        ({
            let named = anchor_views(resp.anchors@);
            let g = pinned_by(file_views(old(pins)@), named);
            &&& file_views(final(pins)@) == g.pins
            &&& r.written@ == g.written
            &&& match g.refused {
                Some(e) => r.device == Err::<Option<SelfDevice>, CoordError>(CoordError::Anchor(e)),
                None => describes(r.device, *resp, pins_for(named, g.pins)),
            }
        }),
{
    let pinning = pin_all(&resp.anchors, pins);
    if let Some(e) = pinning.refused {
        return Accepted { written: pinning.written, device: Err(CoordError::Anchor(e)) };
    }
    let pinned = pinned_anchors(&resp.anchors, pins);
    Accepted { written: pinning.written, device: self_device(resp, &pinned) }
}

/// The host that a URL names.
pub open spec fn url_host(url: Seq<char>) -> Option<Seq<char>> {
    match url::url_parts(url) {
        Some(u) => u.host,
        None => None,
    }
}

/// Where to learn this device's own address: at the coordinator's host, on the port that it gave.
/// `parts` is what the coordinator's URL was read as.
pub fn stun_at(parts: Option<UrlParts>, port: Option<u16>) -> (r: Option<(String, u16)>)
    ensures
        match r {
            Some((h, p)) => parts matches Some(u) && u@.host == Some(h@) && port == Some(p),
            None => port is None || !(parts matches Some(u) && u@.host is Some),
        },
{
    match (parts, port) {
        (Some(u), Some(p)) => match u.host {
            Some(h) => Some((h, p)),
            None => None,
        },
        _ => None,
    }
}

/// What to look up for the coordinator's address-discovery service: the host of its URL, and the
/// port that it names. It does not know its own address, but the URL was configured to reach it.
pub fn stun_addr(base_url: &str, port: Option<u16>) -> (r: Option<(String, u16)>)
    ensures
        match r {
            Some((h, p)) => url_host(base_url@) == Some(h@) && port == Some(p),
            None => url_host(base_url@) is None || port is None,
        },
{
    stun_at(read_url(base_url), port)
}

proof fn lemma_read_by(s: Seq<ReadingView>, guild_id: u64, anchor: Seq<u8>, i: int)
    requires
        0 <= i <= s.len(),
    ensures
        match read_by(s, guild_id, anchor, i) {
            Some(a) => s.contains(ReadingView { guild_id, anchor, attestation: a }),
            None => true,
        },
    decreases s.len() - i,
{
    if i < s.len() {
        if s[i].guild_id == guild_id && s[i].anchor == anchor {
            assert(s[i] == (ReadingView { guild_id, anchor, attestation: s[i].attestation }));
        } else {
            lemma_read_by(s, guild_id, anchor, i + 1);
        }
    }
}

/// Whether a pinned anchor reads an attestation in some blob.
pub open spec fn read_in(blobs: Seq<BlobView>, pins: Seq<(u64, Seq<u8>)>, a: AttestationView) -> bool {
    exists|i: int, k: int|
        0 <= i < blobs.len() && 0 <= k < pins.len() && (#[trigger] blobs[i]).readings.contains(
            ReadingView {
                guild_id: (#[trigger] pins[k]).0,
                anchor: pins[k].1,
                attestation: a,
            },
        )
}

proof fn lemma_reading(blobs: Seq<BlobView>, pins: Seq<(u64, Seq<u8>)>, j: int, i: int)
    requires
        0 <= i <= pins.len(),
        0 <= j < blobs.len(),
    ensures
        match reading_from(blobs[j].readings, pins, i) {
            Some(a) => read_in(blobs, pins, a),
            None => true,
        },
    decreases pins.len() - i,
{
    if i < pins.len() {
        lemma_read_by(blobs[j].readings, pins[i].0, pins[i].1, 0);
        match read_by(blobs[j].readings, pins[i].0, pins[i].1, 0) {
            Some(a) => {
                assert(blobs[j].readings.contains(
                    ReadingView { guild_id: pins[i].0, anchor: pins[i].1, attestation: a },
                ));
            },
            None => {
                lemma_reading(blobs, pins, j, i + 1);
            },
        }
    }
}

proof fn lemma_cleared(
    blobs: Seq<BlobView>,
    pins: Seq<(u64, Seq<u8>)>,
    p: spec_fn(AttestationView) -> bool,
    i: int,
)
    requires
        0 <= i <= blobs.len(),
    ensures
        i <= cleared_from(blobs, pins, p, i) <= blobs.len(),
        cleared_from(blobs, pins, p, i) < blobs.len() ==> blobs[cleared_from(
            blobs,
            pins,
            p,
            i,
        )].clears(pins, p),
    decreases blobs.len() - i,
{
    if i < blobs.len() {
        lemma_cleared(blobs, pins, p, i + 1);
    }
}

proof fn lemma_first_is_read(
    blobs: Seq<BlobView>,
    pins: Seq<(u64, Seq<u8>)>,
    p: spec_fn(AttestationView) -> bool,
)
    ensures
        match first_cleared(blobs, pins, p) {
            Some((b, a)) => read_in(blobs, pins, a) && p(a),
            None => true,
        },
{
    lemma_cleared(blobs, pins, p, 0);
    let i = cleared_from(blobs, pins, p, 0);
    if i < blobs.len() {
        lemma_reading(blobs, pins, i, 0);
    }
}

/// A peer is never made of anything but an attestation that a pinned anchor reads, and its address
/// lies in the block that was signed with it. So a seed that no pinned anchor vouches for, whoever
/// else signed it, is never peered with.
pub proof fn law_only_attested_in_bounds(s: PairView, pins: Seq<(u64, Seq<u8>)>)
    ensures
        match admitted(s, pins) {
            Some(p) => exists|a: AttestationView|
                read_in(s.attestations, pins, a) && a.in_bounds() && p == #[trigger] peer_of(s, a),
            None => true,
        },
{
    lemma_first_is_read(s.attestations, pins, any_attestation());
    match first_cleared(s.attestations, pins, any_attestation()) {
        Some((b, a)) => {
            assert(admitted(s, pins) is Some ==> admitted(s, pins) == Some(peer_of(s, a)));
        },
        None => {},
    }
}

/// A seed that is not admitted denies no other: what the rest of the seeds make does not depend on
/// it.
pub proof fn law_bad_seed_denies_no_other(
    a: Seq<PairView>,
    bad: PairView,
    b: Seq<PairView>,
    pins: Seq<(u64, Seq<u8>)>,
)
    requires
        admitted(bad, pins) is None,
    ensures
        admitted_of(a.push(bad) + b, pins) == admitted_of(a + b, pins),
    decreases b.len(),
{
    if b.len() == 0 {
        assert(a.push(bad) + b =~= a.push(bad));
        assert(a + b =~= a);
        assert(a.push(bad).drop_last() =~= a);
    } else {
        law_bad_seed_denies_no_other(a, bad, b.drop_last(), pins);
        assert((a.push(bad) + b).drop_last() =~= a.push(bad) + b.drop_last());
        assert((a + b).drop_last() =~= a + b.drop_last());
        assert((a.push(bad) + b).last() == b.last() && (a + b).last() == b.last());
    }
}

/// What is adopted from a peer is that peer's own, in bounds, read by a pinned anchor, and outlasts
/// what was held.
pub proof fn law_adopts_only_fresher(
    blobs: Seq<BlobView>,
    pins: Seq<(u64, Seq<u8>)>,
    pubkey: Seq<u8>,
    current_expiry: u64,
)
    ensures
        match adopted(blobs, pins, pubkey, current_expiry) {
            Some(a) => read_in(blobs, pins, a) && a.wg_pubkey == pubkey && a.in_bounds()
                && a.expires_at > current_expiry,
            None => true,
        },
{
    lemma_first_is_read(blobs, pins, fresher(pubkey, current_expiry));
}

/// Without a rotation that leads from it, a pin stands whatever anchors are named for its guild.
pub proof fn law_pin_stands_without_rotation(
    pins: Map<u64, Seq<u8>>,
    named: Seq<AnchorView>,
    g: u64,
)
    requires
        pins.contains_key(g),
        forall|i: int|
            0 <= i < named.len() && (#[trigger] named[i]).guild_id == g
                ==> !named[i].rotated_from.contains(pins[g]),
    ensures
        pin_of(pinned_by(pins, named).pins, g) == Some(pins[g]),
    decreases named.len(),
{
    if named.len() > 0 {
        let t = named.drop_last();
        assert forall|i: int| 0 <= i < t.len() && (#[trigger] t[i]).guild_id == g implies
            !t[i].rotated_from.contains(pins[g]) by {
            assert(named[i] == t[i]);
        }
        law_pin_stands_without_rotation(pins, t, g);
        assert(named[named.len() - 1] == named.last());
    }
}

/// An answer that names an anchor which is neither the pinned one nor led to by a rotation is refused:
/// whoever puts an anchor of their own in it gains nothing.
pub proof fn law_swapped_anchor_is_refused(
    pins: Map<u64, Seq<u8>>,
    named: Seq<AnchorView>,
    k: int,
)
    requires
        0 <= k < named.len(),
        pins.contains_key(named[k].guild_id),
        named[k].pubkey != pins[named[k].guild_id],
        forall|i: int|
            0 <= i < named.len() && (#[trigger] named[i]).guild_id == named[k].guild_id
                ==> !named[i].rotated_from.contains(pins[named[k].guild_id]),
    ensures
        pinned_by(pins, named).refused is Some,
{
    let g = named[k].guild_id;
    let upto = named.take(k + 1);
    assert(upto.drop_last() =~= named.take(k));
    assert forall|i: int| 0 <= i < k && (#[trigger] named.take(k)[i]).guild_id == g implies
        !named.take(k)[i].rotated_from.contains(pins[g]) by {
        assert(named.take(k)[i] == named[i]);
    }
    law_pin_stands_without_rotation(pins, named.take(k), g);
    assert(upto.last() == named[k]);
    assert(pinned_by(pins, upto).refused is Some);
    lemma_refusal_ends(pins, named, k + 1);
}

proof fn lemma_unnamed_pin_stands(pins: Map<u64, Seq<u8>>, named: Seq<AnchorView>, g: u64)
    requires
        forall|i: int| 0 <= i < named.len() ==> (#[trigger] named[i]).guild_id != g,
    ensures
        pin_of(pinned_by(pins, named).pins, g) == pin_of(pins, g),
    decreases named.len(),
{
    if named.len() > 0 {
        let t = named.drop_last();
        assert forall|i: int| 0 <= i < t.len() implies (#[trigger] t[i]).guild_id != g by {
            assert(named[i].guild_id != g);
        }
        lemma_unnamed_pin_stands(pins, t, g);
        assert(named[named.len() - 1].guild_id != g);
    }
}

/// The pin of a guild that is not named stands.
pub proof fn law_unnamed_pin_stands(pins: Map<u64, Seq<u8>>, named: Seq<AnchorView>, g: u64)
    requires
        forall|i: int| 0 <= i < named.len() ==> (#[trigger] named[i]).guild_id != g,
    ensures
        pin_of(pinned_by(pins, named).pins, g) == pin_of(pins, g),
{
    lemma_unnamed_pin_stands(pins, named, g);
}

/// An answer whose anchors are all pinned already changes no pin and writes none.
pub proof fn law_known_anchors_write_nothing(pins: Map<u64, Seq<u8>>, named: Seq<AnchorView>)
    requires
        forall|i: int|
            0 <= i < named.len() ==> pins.contains_key((#[trigger] named[i]).guild_id)
                && pins[named[i].guild_id] == named[i].pubkey && named[i].pubkey.len() == 32,
    ensures
        pinned_by(pins, named) == (PinnedView { pins, written: seq![], refused: None }),
    decreases named.len(),
{
    if named.len() > 0 {
        let t = named.drop_last();
        assert forall|i: int| 0 <= i < t.len() implies pins.contains_key((#[trigger] t[i]).guild_id)
            && pins[t[i].guild_id] == t[i].pubkey && t[i].pubkey.len() == 32 by {
            assert(named[i] == t[i]);
        }
        law_known_anchors_write_nothing(pins, t);
        assert(named[named.len() - 1] == named.last());
    }
}

/// A pull moves nothing that the coordinator arranged.
pub proof fn law_pull_keeps_what_was_arranged(s: mesh::SeedView, a: AttestationView)
    ensures
        pulled(s, a).pubkey == s.pubkey,
        pulled(s, a).endpoint == s.endpoint,
        pulled(s, a).punch == s.punch,
        pulled(s, a).networks == s.networks,
        pulled(s, a).relay == s.relay,
        pulled(s, a).ice == s.ice,
        pulled(s, a).rev == s.rev,
        pulled(s, a).expires_at == a.expires_at,
{
}

/// No two peers have the same key.
pub open spec fn distinct_peers(s: Seq<mesh::SeedView>) -> bool {
    forall|i: int, j: int|
        0 <= i < j < s.len() ==> (#[trigger] s[i]).pubkey != (#[trigger] s[j]).pubkey
}

proof fn lemma_peer_from(s: Seq<mesh::SeedView>, k: Seq<u8>, i: int)
    requires
        0 <= i <= s.len(),
    ensures
        i <= peer_from(s, k, i) <= s.len(),
        peer_from(s, k, i) < s.len() ==> s[peer_from(s, k, i)].pubkey == k,
        forall|j: int| i <= j < peer_from(s, k, i) ==> (#[trigger] s[j]).pubkey != k,
    decreases s.len() - i,
{
    if i < s.len() && s[i].pubkey != k {
        lemma_peer_from(s, k, i + 1);
    }
}

/// The peer with a key, if there is one.
pub open spec fn peer_with(s: Seq<mesh::SeedView>, k: Seq<u8>) -> Option<mesh::SeedView> {
    let i = peer_from(s, k, 0);
    if 0 <= i < s.len() {
        Some(s[i])
    } else {
        None
    }
}

proof fn lemma_peer_at(s: Seq<mesh::SeedView>, i: int)
    requires
        distinct_peers(s),
        0 <= i < s.len(),
    ensures
        peer_from(s, s[i].pubkey, 0) == i,
{
    lemma_peer_from(s, s[i].pubkey, 0);
    let j = peer_from(s, s[i].pubkey, 0);
    if j < i {
        assert(s[j].pubkey != s[i].pubkey);
    }
}

proof fn lemma_upserted(s: Seq<mesh::SeedView>, p: mesh::SeedView, k: Seq<u8>)
    requires
        distinct_peers(s),
    ensures
        distinct_peers(upserted(s, p)),
        peer_with(upserted(s, p), k) == if k == p.pubkey {
            Some(p)
        } else {
            peer_with(s, k)
        },
{
    let t = upserted(s, p);
    let i = peer_from(s, p.pubkey, 0);
    lemma_peer_from(s, p.pubkey, 0);
    assert forall|a: int, b: int| 0 <= a < b < t.len() implies (#[trigger] t[a]).pubkey != (
    #[trigger] t[b]).pubkey by {
        if i < s.len() {
            assert(t[a].pubkey == s[a].pubkey && t[b].pubkey == s[b].pubkey);
        } else if b < s.len() {
            assert(t[a] == s[a] && t[b] == s[b]);
        } else {
            assert(t[a] == s[a]);
        }
    }
    assert(t[i] == p);
    lemma_peer_at(t, i);
    if k != p.pubkey {
        lemma_peer_from(s, k, 0);
        lemma_peer_from(t, k, 0);
        let a = peer_from(s, k, 0);
        let b = peer_from(t, k, 0);
        if a < s.len() {
            assert(t[a] == s[a]);
            lemma_peer_at(t, a);
        } else if b < t.len() {
            assert(b != i);
            assert(t[b] == s[b]);
        }
    }
}

proof fn lemma_all_upserted(s: Seq<mesh::SeedView>, more: Seq<mesh::SeedView>, k: Seq<u8>)
    requires
        distinct_peers(s),
    ensures
        distinct_peers(all_upserted(s, more)),
        (forall|i: int| 0 <= i < more.len() ==> (#[trigger] more[i]).pubkey != k) ==> peer_with(
            all_upserted(s, more),
            k,
        ) == peer_with(s, k),
        distinct_peers(more) ==> forall|i: int|
            0 <= i < more.len() && (#[trigger] more[i]).pubkey == k ==> peer_with(
                all_upserted(s, more),
                k,
            ) == Some(more[i]),
    decreases more.len(),
{
    if more.len() > 0 {
        let t = more.drop_last();
        lemma_all_upserted(s, t, k);
        lemma_upserted(all_upserted(s, t), more.last(), k);
        if forall|i: int| 0 <= i < more.len() ==> (#[trigger] more[i]).pubkey != k {
            assert(more[more.len() - 1].pubkey != k);
            assert forall|i: int| 0 <= i < t.len() implies (#[trigger] t[i]).pubkey != k by {
                assert(more[i].pubkey != k);
            }
        }
        if distinct_peers(more) {
            assert forall|a: int, b: int| 0 <= a < b < t.len() implies (#[trigger] t[a]).pubkey != (
            #[trigger] t[b]).pubkey by {
                assert(more[a].pubkey != more[b].pubkey);
            }
            assert forall|i: int| 0 <= i < more.len() && (#[trigger] more[i]).pubkey == k implies
                peer_with(all_upserted(s, more), k) == Some(more[i]) by {
                if i < t.len() {
                    assert(t[i] == more[i]);
                    assert(more[i].pubkey != more[more.len() - 1].pubkey);
                }
            }
        }
    }
}

proof fn lemma_kept(s: Seq<mesh::SeedView>, dropped: Seq<Seq<u8>>, x: mesh::SeedView)
    ensures
        kept(s, dropped).contains(x) <==> s.contains(x) && !dropped.contains(x.pubkey),
    decreases s.len(),
{
    reveal(Seq::filter);
    let p = |p: mesh::SeedView| !dropped.contains(p.pubkey);
    if s.len() > 0 {
        let t = s.drop_last();
        lemma_kept(t, dropped, x);
        let before = kept(t, dropped);
        let all = kept(s, dropped);
        assert(all == if p(s.last()) {
            before.push(s.last())
        } else {
            before
        });
        if before.contains(x) {
            let k = choose|k: int| 0 <= k < before.len() && before[k] == x;
            assert(all[k] == x);
        }
        if t.contains(x) {
            let k = choose|k: int| 0 <= k < t.len() && t[k] == x;
            assert(s[k] == x);
        }
        if all.contains(x) && !before.contains(x) {
            let k = choose|k: int| 0 <= k < all.len() && all[k] == x;
            if k < before.len() {
                assert(before[k] == x);
            }
            assert(s[s.len() - 1] == x);
        }
        if s.contains(x) && !t.contains(x) {
            let k = choose|k: int| 0 <= k < s.len() && s[k] == x;
            if k < t.len() {
                assert(t[k] == x);
            }
            if p(x) {
                assert(all[all.len() - 1] == x);
            }
        }
    } else {
        assert(kept(s, dropped) =~= seq![]);
    }
}

proof fn lemma_kept_distinct(s: Seq<mesh::SeedView>, dropped: Seq<Seq<u8>>)
    requires
        distinct_peers(s),
    ensures
        distinct_peers(kept(s, dropped)),
    decreases s.len(),
{
    reveal(Seq::filter);
    if s.len() > 0 {
        let t = s.drop_last();
        assert forall|a: int, b: int| 0 <= a < b < t.len() implies (#[trigger] t[a]).pubkey != (
        #[trigger] t[b]).pubkey by {
            assert(s[a].pubkey != s[b].pubkey);
        }
        lemma_kept_distinct(t, dropped);
        let before = kept(t, dropped);
        let all = kept(s, dropped);
        assert forall|a: int, b: int| 0 <= a < b < all.len() implies (#[trigger] all[a]).pubkey != (
        #[trigger] all[b]).pubkey by {
            assert(all[a] == before[a]);
            if b < before.len() {
                assert(all[b] == before[b]);
            } else {
                lemma_kept(t, dropped, before[a]);
                assert(before.contains(before[a]));
                let k = choose|k: int| 0 <= k < t.len() && t[k] == before[a];
                assert(s[k].pubkey != s[s.len() - 1].pubkey);
            }
        }
    }
}

/// A peer that a partial answer does not speak of stays as it was.
pub proof fn law_unmentioned_peer_survives(
    prev: Seq<mesh::SeedView>,
    changed: Seq<mesh::SeedView>,
    removed: Seq<Seq<u8>>,
    i: int,
)
    requires
        distinct_peers(prev),
        0 <= i < prev.len(),
        !removed.contains(prev[i].pubkey),
        forall|j: int| 0 <= j < changed.len() ==> (#[trigger] changed[j]).pubkey != prev[i].pubkey,
    ensures
        peer_with(merged(prev, changed, true, removed), prev[i].pubkey) == Some(prev[i]),
{
    let k = prev[i].pubkey;
    let left = kept(prev, removed);
    lemma_kept(prev, removed, prev[i]);
    lemma_kept_distinct(prev, removed);
    lemma_all_upserted(seq![], left, k);
    assert(prev.contains(prev[i]));
    let j = choose|j: int| 0 <= j < left.len() && left[j] == prev[i];
    assert(left[j].pubkey == k);
    lemma_all_upserted(all_upserted(seq![], left), changed, k);
}

/// A peer that a partial answer removes, and does not send, is gone.
pub proof fn law_removed_peer_is_gone(
    prev: Seq<mesh::SeedView>,
    changed: Seq<mesh::SeedView>,
    removed: Seq<Seq<u8>>,
    k: Seq<u8>,
)
    requires
        removed.contains(k),
        forall|j: int| 0 <= j < changed.len() ==> (#[trigger] changed[j]).pubkey != k,
    ensures
        peer_with(merged(prev, changed, true, removed), k) is None,
{
    let left = kept(prev, removed);
    assert forall|j: int| 0 <= j < left.len() implies (#[trigger] left[j]).pubkey != k by {
        lemma_kept(prev, removed, left[j]);
        assert(left.contains(left[j]));
    }
    lemma_all_upserted(seq![], left, k);
    lemma_all_upserted(all_upserted(seq![], left), changed, k);
}

/// A partial answer that speaks of nothing keeps every peer.
pub proof fn law_empty_delta_keeps_all(prev: Seq<mesh::SeedView>, k: Seq<u8>)
    requires
        distinct_peers(prev),
    ensures
        peer_with(merged(prev, seq![], true, seq![]), k) == peer_with(prev, k),
{
    lemma_peer_from(prev, k, 0);
    let i = peer_from(prev, k, 0);
    if i < prev.len() {
        law_unmentioned_peer_survives(prev, seq![], seq![], i);
    } else {
        let left = kept(prev, seq![]);
        assert forall|j: int| 0 <= j < left.len() implies (#[trigger] left[j]).pubkey != k by {
            lemma_kept(prev, seq![], left[j]);
            assert(left.contains(left[j]));
            let m = choose|m: int| 0 <= m < prev.len() && prev[m] == left[j];
            assert(prev[m].pubkey != k);
        }
        lemma_all_upserted(seq![], left, k);
    }
}

proof fn lemma_soonest(s: Seq<mesh::SeedView>)
    ensures
        match soonest(s) {
            Some(e) => forall|i: int| 0 <= i < s.len() ==> e <= (#[trigger] s[i]).expires_at,
            None => s.len() == 0,
        },
    decreases s.len(),
{
    if s.len() > 0 {
        let t = s.drop_last();
        lemma_soonest(t);
        assert forall|i: int| 0 <= i < s.len() implies soonest(s)->0 <= (
        #[trigger] s[i]).expires_at by {
            if i < t.len() {
                assert(t[i] == s[i]);
            }
        }
    }
}

/// No held attestation lapses unasked: with a peer within the margin of its expiry, the next refresh
/// holds nothing and so asks for all of it.
pub proof fn law_asks_in_full_before_expiry(
    s: Seq<mesh::SeedView>,
    now: u64,
    margin: u64,
    i: int,
)
    requires
        0 <= i < s.len(),
        s[i].expires_at <= now + margin,
    ensures
        held_report(s, now, margin) == Seq::<mesh::HeldView>::empty(),
{
    lemma_soonest(s);
}

proof fn lemma_last_upserted(s: Seq<mesh::SeedView>, more: Seq<mesh::SeedView>, i: int)
    requires
        distinct_peers(s),
        0 <= i < more.len(),
        forall|j: int| i < j < more.len() ==> (#[trigger] more[j]).pubkey != more[i].pubkey,
    ensures
        peer_with(all_upserted(s, more), more[i].pubkey) == Some(more[i]),
    decreases more.len(),
{
    let t = more.drop_last();
    let k = more[i].pubkey;
    lemma_all_upserted(s, t, k);
    lemma_upserted(all_upserted(s, t), more.last(), k);
    if i < t.len() {
        assert(more[more.len() - 1].pubkey != k);
        assert forall|j: int| i < j < t.len() implies (#[trigger] t[j]).pubkey != t[i].pubkey by {
            assert(more[j].pubkey != more[i].pubkey);
        }
        lemma_last_upserted(s, t, i);
    }
}

proof fn lemma_upserted_among(s: Seq<mesh::SeedView>, more: Seq<mesh::SeedView>, x: mesh::SeedView)
    requires
        all_upserted(s, more).contains(x),
    ensures
        s.contains(x) || more.contains(x),
    decreases more.len(),
{
    if more.len() > 0 {
        let t = more.drop_last();
        let u = all_upserted(s, t);
        let r = all_upserted(s, more);
        lemma_peer_from(u, more.last().pubkey, 0);
        let k = choose|k: int| 0 <= k < r.len() && r[k] == x;
        if x == more.last() {
            assert(more[more.len() - 1] == x);
        } else {
            assert(u[k] == x);
            lemma_upserted_among(s, t, x);
            if t.contains(x) {
                let j = choose|j: int| 0 <= j < t.len() && t[j] == x;
                assert(more[j] == x);
            }
        }
    }
}

proof fn lemma_peer_with(s: Seq<mesh::SeedView>, x: mesh::SeedView)
    requires
        distinct_peers(s),
    ensures
        peer_with(s, x.pubkey) == Some(x) <==> s.contains(x),
{
    lemma_peer_from(s, x.pubkey, 0);
    if s.contains(x) {
        let i = choose|i: int| 0 <= i < s.len() && s[i] == x;
        lemma_peer_at(s, i);
    }
}

/// What becomes of the peers by a partial answer: those that it sends are as it sends them, whatever was
/// held under their keys; those that were held and that it neither sends nor removes are as they were;
/// there is no other, and none twice.
pub proof fn law_partial_answer_updates(
    prev: Seq<mesh::SeedView>,
    changed: Seq<mesh::SeedView>,
    removed: Seq<Seq<u8>>,
)
    requires
        forall|i: int, j: int|
            0 <= i < j < prev.len() ==> (#[trigger] prev[i]).pubkey != (#[trigger] prev[j]).pubkey,
        forall|i: int, j: int|
            0 <= i < j < changed.len() ==> (#[trigger] changed[i]).pubkey != (
            #[trigger] changed[j]).pubkey,
    ensures
        ({
            let r = merged(prev, changed, true, removed);
            &&& forall|x: mesh::SeedView| #[trigger]
                r.contains(x) <==> changed.contains(x) || (prev.contains(x) && !removed.contains(
                    x.pubkey,
                ) && forall|j: int|
                    0 <= j < changed.len() ==> (#[trigger] changed[j]).pubkey != x.pubkey)
            &&& forall|i: int, j: int|
                0 <= i < j < r.len() ==> (#[trigger] r[i]).pubkey != (#[trigger] r[j]).pubkey
        }),
{
    let left = kept(prev, removed);
    let base = all_upserted(seq![], left);
    let r = merged(prev, changed, true, removed);
    lemma_kept_distinct(prev, removed);
    lemma_all_upserted(seq![], left, seq![]);
    lemma_all_upserted(base, changed, seq![]);
    assert forall|x: mesh::SeedView| #[trigger] r.contains(x) <==> changed.contains(x) || (
    prev.contains(x) && !removed.contains(x.pubkey) && forall|j: int|
        0 <= j < changed.len() ==> (#[trigger] changed[j]).pubkey != x.pubkey) by {
        let k = x.pubkey;
        lemma_peer_with(r, x);
        lemma_kept(prev, removed, x);
        lemma_all_upserted(seq![], left, k);
        lemma_all_upserted(base, changed, k);
        if exists|i: int| 0 <= i < changed.len() && (#[trigger] changed[i]).pubkey == k {
            let i = choose|i: int| 0 <= i < changed.len() && (#[trigger] changed[i]).pubkey == k;
            assert(peer_with(r, k) == Some(changed[i]));
            if changed.contains(x) {
                let m = choose|m: int| 0 <= m < changed.len() && changed[m] == x;
                assert(m == i) by {
                    if m < i {
                        assert(changed[m].pubkey != changed[i].pubkey);
                    } else if i < m {
                        assert(changed[i].pubkey != changed[m].pubkey);
                    }
                }
            }
        } else {
            assert(!changed.contains(x));
            assert(peer_with(r, k) == peer_with(base, k));
            lemma_peer_with(base, x);
            if left.contains(x) {
                let m = choose|m: int| 0 <= m < left.len() && left[m] == x;
                assert(left[m].pubkey == k);
            }
            if base.contains(x) {
                lemma_upserted_among(seq![], left, x);
            }
        }
    }
}

/// Of several peers that a partial answer sends under one key, the last stands, whatever was held.
pub proof fn law_last_sent_stands(
    prev: Seq<mesh::SeedView>,
    changed: Seq<mesh::SeedView>,
    removed: Seq<Seq<u8>>,
    i: int,
)
    requires
        0 <= i < changed.len(),
        forall|j: int| i < j < changed.len() ==> (#[trigger] changed[j]).pubkey != changed[i].pubkey,
    ensures
        merged(prev, changed, true, removed).contains(changed[i]),
        forall|j: int|
            0 <= j < merged(prev, changed, true, removed).len() && (#[trigger] merged(
                prev,
                changed,
                true,
                removed,
            )[j]).pubkey == changed[i].pubkey ==> merged(prev, changed, true, removed)[j]
                == changed[i],
{
    let base = all_upserted(seq![], kept(prev, removed));
    let r = merged(prev, changed, true, removed);
    lemma_all_upserted(seq![], kept(prev, removed), seq![]);
    lemma_all_upserted(base, changed, seq![]);
    lemma_last_upserted(base, changed, i);
    lemma_peer_with(r, changed[i]);
    assert forall|j: int| 0 <= j < r.len() && (#[trigger] r[j]).pubkey == changed[i].pubkey implies r[j]
        == changed[i] by {
        lemma_peer_at(r, j);
    }
}

/// A full answer stands for itself: nothing of what was held is left.
pub proof fn law_full_answer_replaces(
    prev: Seq<mesh::SeedView>,
    changed: Seq<mesh::SeedView>,
    removed: Seq<Seq<u8>>,
)
    ensures
        merged(prev, changed, false, removed) == changed,
{
}

/// Whether some pinned anchor reads something in a blob.
pub open spec fn is_read(b: BlobView, pins: Seq<(u64, Seq<u8>)>) -> bool {
    exists|j: int, k: int|
        0 <= j < b.readings.len() && 0 <= k < pins.len() && (#[trigger] b.readings[j]).guild_id == (
        #[trigger] pins[k]).0 && b.readings[j].anchor == pins[k].1
}

/// Whether everything that pinned anchors read in a blob is this attestation.
pub open spec fn reads_only(b: BlobView, pins: Seq<(u64, Seq<u8>)>, a: AttestationView) -> bool {
    forall|j: int, k: int|
        0 <= j < b.readings.len() && 0 <= k < pins.len() && (#[trigger] b.readings[j]).guild_id == (
        #[trigger] pins[k]).0 && b.readings[j].anchor == pins[k].1 ==> b.readings[j].attestation == a
}

proof fn lemma_read_by_some(s: Seq<ReadingView>, guild_id: u64, anchor: Seq<u8>, i: int, j: int)
    requires
        0 <= i <= j < s.len(),
        s[j].guild_id == guild_id,
        s[j].anchor == anchor,
    ensures
        read_by(s, guild_id, anchor, i) is Some,
    decreases s.len() - i,
{
    if i < j {
        lemma_read_by_some(s, guild_id, anchor, i + 1, j);
    }
}

proof fn lemma_reading_some(s: Seq<ReadingView>, pins: Seq<(u64, Seq<u8>)>, i: int, j: int, k: int)
    requires
        0 <= i <= k < pins.len(),
        0 <= j < s.len(),
        s[j].guild_id == pins[k].0,
        s[j].anchor == pins[k].1,
    ensures
        reading_from(s, pins, i) is Some,
    decreases pins.len() - i,
{
    if i < k {
        lemma_reading_some(s, pins, i + 1, j, k);
    } else {
        lemma_read_by_some(s, pins[k].0, pins[k].1, 0, j);
    }
}

proof fn lemma_reading_of(b: BlobView, pins: Seq<(u64, Seq<u8>)>, i: int)
    requires
        0 <= i <= pins.len(),
    ensures
        reading_from(b.readings, pins, i) matches Some(a) ==> exists|j: int, k: int|
            0 <= j < b.readings.len() && 0 <= k < pins.len() && (
            #[trigger] b.readings[j]).guild_id == (#[trigger] pins[k]).0 && b.readings[j].anchor
                == pins[k].1 && b.readings[j].attestation == a,
    decreases pins.len() - i,
{
    if i < pins.len() {
        lemma_read_by(b.readings, pins[i].0, pins[i].1, 0);
        match read_by(b.readings, pins[i].0, pins[i].1, 0) {
            Some(a) => {
                let x = ReadingView { guild_id: pins[i].0, anchor: pins[i].1, attestation: a };
                let j = choose|j: int| 0 <= j < b.readings.len() && b.readings[j] == x;
                assert(b.readings[j].guild_id == pins[i].0);
            },
            None => {
                lemma_reading_of(b, pins, i + 1);
            },
        }
    }
}

proof fn lemma_first_cleared(
    blobs: Seq<BlobView>,
    pins: Seq<(u64, Seq<u8>)>,
    p: spec_fn(AttestationView) -> bool,
    from: int,
    i: int,
)
    requires
        0 <= from <= i < blobs.len(),
        blobs[i].clears(pins, p),
        forall|j: int| from <= j < i ==> !(#[trigger] blobs[j]).clears(pins, p),
    ensures
        cleared_from(blobs, pins, p, from) == i,
    decreases i - from,
{
    if from < i {
        assert(!blobs[from].clears(pins, p));
        lemma_first_cleared(blobs, pins, p, from + 1, i);
    }
}

proof fn lemma_none_cleared(
    blobs: Seq<BlobView>,
    pins: Seq<(u64, Seq<u8>)>,
    p: spec_fn(AttestationView) -> bool,
    from: int,
    i: int,
)
    requires
        0 <= from <= i < blobs.len(),
        blobs[i].clears(pins, p),
    ensures
        cleared_from(blobs, pins, p, from) <= i,
    decreases i - from,
{
    if from < i {
        lemma_none_cleared(blobs, pins, p, from + 1, i);
    }
}

/// A seed is admitted on the first of its blobs that a pinned anchor reads, with the key, the owner, the
/// address and the names that are attested there, and with what the coordinator arranged; unless the
/// address that is attested there is out of bounds.
pub proof fn law_admitted_on_the_first_read(
    s: PairView,
    pins: Seq<(u64, Seq<u8>)>,
    i: int,
    a: AttestationView,
)
    requires
        0 <= i < s.attestations.len(),
        forall|j: int| 0 <= j < i ==> !is_read(#[trigger] s.attestations[j], pins),
        is_read(s.attestations[i], pins),
        reads_only(s.attestations[i], pins, a),
    ensures
        match admitted(s, pins) {
            Some(p) => {
                &&& a.wg_net.prefix <= 32 && a.wg_net.has(a.wg_ip)
                &&& p.pubkey == a.wg_pubkey
                &&& p.user_id == a.user_id
                &&& p.username == a.username
                &&& p.ip == a.wg_ip
                &&& p.hostname == a.device_name + "."@ + a.username + ".unity.internal"@
                &&& p.primary_alias == if a.is_primary {
                    Some(a.username + ".unity.internal"@)
                } else {
                    None
                }
                &&& p.expires_at == a.expires_at
                &&& p.endpoint == s.endpoint
                &&& p.punch == s.punch
                &&& p.networks == s.networks
                &&& p.relay == s.relay
                &&& p.ice == s.ice
                &&& p.rev == s.rev
            },
            None => !(a.wg_net.prefix <= 32 && a.wg_net.has(a.wg_ip)),
        },
{
    let any = any_attestation();
    let b = s.attestations[i];
    let (j, k) = choose|j: int, k: int|
        0 <= j < b.readings.len() && 0 <= k < pins.len() && (#[trigger] b.readings[j]).guild_id == (
        #[trigger] pins[k]).0 && b.readings[j].anchor == pins[k].1;
    lemma_reading_some(b.readings, pins, 0, j, k);
    lemma_reading_of(b, pins, 0);
    assert(b.reading(pins) == Some(a));
    assert forall|m: int| 0 <= m < i implies !(#[trigger] s.attestations[m]).clears(pins, any) by {
        lemma_reading_of(s.attestations[m], pins, 0);
        if s.attestations[m].reading(pins) is Some {
            assert(is_read(s.attestations[m], pins));
        }
    }
    lemma_first_cleared(s.attestations, pins, any, 0, i);
}

/// A seed that no pinned anchor reads anything of is not admitted.
pub proof fn law_unread_seed_is_not_admitted(s: PairView, pins: Seq<(u64, Seq<u8>)>)
    requires
        forall|j: int| 0 <= j < s.attestations.len() ==> !is_read(#[trigger] s.attestations[j], pins),
    ensures
        admitted(s, pins) is None,
{
    lemma_cleared(s.attestations, pins, any_attestation(), 0);
    let i = cleared_from(s.attestations, pins, any_attestation(), 0);
    if i < s.attestations.len() {
        lemma_reading_of(s.attestations[i], pins, 0);
        assert(is_read(s.attestations[i], pins));
    }
}

/// Seeds are admitted one by one, in order: what a list makes is what its parts make, and one alone
/// makes one peer if it is admitted, and none if it is not.
pub proof fn law_seeds_are_admitted_one_by_one(
    a: Seq<PairView>,
    b: Seq<PairView>,
    s: PairView,
    pins: Seq<(u64, Seq<u8>)>,
)
    ensures
        admitted_of(a + b, pins) == admitted_of(a, pins) + admitted_of(b, pins),
        admitted_of(seq![s], pins) == match admitted(s, pins) {
            Some(p) => seq![p],
            None => seq![],
        },
    decreases b.len(),
{
    assert(seq![s].drop_last() =~= seq![]);
    assert(admitted_of(seq![], pins) =~= seq![]);
    assert(admitted_of(seq![s], pins) =~= match admitted(s, pins) {
        Some(p) => seq![p],
        None => seq![],
    });
    if b.len() == 0 {
        assert(a + b =~= a);
        assert(admitted_of(a, pins) + admitted_of(b, pins) =~= admitted_of(a, pins));
    } else {
        law_seeds_are_admitted_one_by_one(a, b.drop_last(), s, pins);
        assert((a + b).drop_last() =~= a + b.drop_last());
        assert((a + b).last() == b.last());
        assert(admitted_of(a + b, pins) =~= admitted_of(a, pins) + admitted_of(b, pins));
    }
}

/// A grant is read on the first of its blobs that a pinned anchor reads, and is of the community that
/// that blob names.
pub proof fn law_granted_on_the_first_read(
    g: GrantView,
    pins: Seq<(u64, Seq<u8>)>,
    i: int,
    a: AttestationView,
)
    requires
        0 <= i < g.attestations.len(),
        forall|j: int| 0 <= j < i ==> !is_read(#[trigger] g.attestations[j], pins),
        is_read(g.attestations[i], pins),
        reads_only(g.attestations[i], pins, a),
    ensures
        granted(g, pins) == Some((a, g.attestations[i].community_name)),
{
    let any = any_attestation();
    let b = g.attestations[i];
    let (j, k) = choose|j: int, k: int|
        0 <= j < b.readings.len() && 0 <= k < pins.len() && (#[trigger] b.readings[j]).guild_id == (
        #[trigger] pins[k]).0 && b.readings[j].anchor == pins[k].1;
    lemma_reading_some(b.readings, pins, 0, j, k);
    lemma_reading_of(b, pins, 0);
    assert forall|m: int| 0 <= m < i implies !(#[trigger] g.attestations[m]).clears(pins, any) by {
        lemma_reading_of(g.attestations[m], pins, 0);
        if g.attestations[m].reading(pins) is Some {
            assert(is_read(g.attestations[m], pins));
        }
    }
    lemma_first_cleared(g.attestations, pins, any, 0, i);
}

/// A grant that no pinned anchor reads anything of grants nothing.
pub proof fn law_unread_grant_grants_nothing(g: GrantView, pins: Seq<(u64, Seq<u8>)>)
    requires
        forall|j: int| 0 <= j < g.attestations.len() ==> !is_read(#[trigger] g.attestations[j], pins),
    ensures
        granted(g, pins) is None,
{
    lemma_cleared(g.attestations, pins, any_attestation(), 0);
    let i = cleared_from(g.attestations, pins, any_attestation(), 0);
    if i < g.attestations.len() {
        lemma_reading_of(g.attestations[i], pins, 0);
        assert(is_read(g.attestations[i], pins));
    }
}

/// The device that an answer describes is the one that is attested, in the networks that are granted.
pub proof fn law_device_is_as_attested(
    g: GrantView,
    a: AttestationView,
    community: Seq<char>,
    networks: Seq<mesh::NetworkView>,
    dns_domain: Option<Seq<char>>,
)
    ensures
        ({
            let d = device_of(g, a, community, networks, dns_domain);
            &&& d.community_name == community
            &&& d.user_id == a.user_id
            &&& d.username == a.username
            &&& d.networks == g.networks
            &&& d.wg_ip == a.wg_ip
            &&& d.wg_net == a.wg_net
            &&& d.hostname == a.device_name + "."@ + a.username + ".unity.internal"@
            &&& d.is_primary == a.is_primary
            &&& d.grant_expires_at == a.expires_at
            &&& d.primary_alias == if a.is_primary {
                Some(a.username + ".unity.internal"@)
            } else {
                None
            }
            &&& d.networks_status == networks
            &&& d.dns_domain == dns_domain
        }),
{
}

/// What a peer serves of itself is adopted wherever one of its blobs is read as an attestation that is
/// the peer's own, is in bounds, and outlasts what is held.
pub proof fn law_fresher_is_adopted(
    blobs: Seq<BlobView>,
    pins: Seq<(u64, Seq<u8>)>,
    pubkey: Seq<u8>,
    current_expiry: u64,
    i: int,
    a: AttestationView,
)
    requires
        0 <= i < blobs.len(),
        is_read(blobs[i], pins),
        reads_only(blobs[i], pins, a),
        a.wg_pubkey == pubkey,
        a.wg_net.prefix <= 32 && a.wg_net.has(a.wg_ip),
        a.expires_at > current_expiry,
    ensures
        adopted(blobs, pins, pubkey, current_expiry) is Some,
        (forall|j: int| 0 <= j < i ==> !is_read(#[trigger] blobs[j], pins)) ==> adopted(
            blobs,
            pins,
            pubkey,
            current_expiry,
        ) == Some(a),
{
    let p = fresher(pubkey, current_expiry);
    let b = blobs[i];
    let (j, k) = choose|j: int, k: int|
        0 <= j < b.readings.len() && 0 <= k < pins.len() && (#[trigger] b.readings[j]).guild_id == (
        #[trigger] pins[k]).0 && b.readings[j].anchor == pins[k].1;
    lemma_reading_some(b.readings, pins, 0, j, k);
    lemma_reading_of(b, pins, 0);
    assert(b.reading(pins) == Some(a));
    lemma_cleared(blobs, pins, p, 0);
    lemma_none_cleared(blobs, pins, p, 0, i);
    if forall|m: int| 0 <= m < i ==> !is_read(#[trigger] blobs[m], pins) {
        assert forall|m: int| 0 <= m < i implies !(#[trigger] blobs[m]).clears(pins, p) by {
            lemma_reading_of(blobs[m], pins, 0);
            if blobs[m].reading(pins) is Some {
                assert(is_read(blobs[m], pins));
            }
        }
        lemma_first_cleared(blobs, pins, p, 0, i);
    }
}

/// What a pull takes over is what the peer attests of itself.
pub proof fn law_pull_takes_over_what_is_attested(s: mesh::SeedView, a: AttestationView)
    ensures
        pulled(s, a).user_id == a.user_id,
        pulled(s, a).username == a.username,
        pulled(s, a).ip == a.wg_ip,
        pulled(s, a).hostname == a.device_name + "."@ + a.username + ".unity.internal"@,
        pulled(s, a).primary_alias == if a.is_primary {
            Some(a.username + ".unity.internal"@)
        } else {
            None
        },
        pulled(s, a).expires_at == a.expires_at,
{
}

/// With no peer within the margin of its expiry, every peer is said to be held, in its revision and in
/// its place.
pub proof fn law_every_peer_is_reported_held(s: Seq<mesh::SeedView>, now: u64, margin: u64)
    requires
        forall|i: int| 0 <= i < s.len() ==> (#[trigger] s[i]).expires_at > now + margin,
    ensures
        held_report(s, now, margin).len() == s.len(),
        forall|i: int|
            0 <= i < s.len() ==> (#[trigger] held_report(s, now, margin)[i]).pubkey == s[i].pubkey
                && held_report(s, now, margin)[i].rev == s[i].rev,
{
    if s.len() > 0 {
        lemma_soonest_is_one(s);
        let k = choose|k: int| 0 <= k < s.len() && soonest(s) == Some((#[trigger] s[k]).expires_at);
        assert(s[k].expires_at > now + margin);
    }
}

proof fn lemma_soonest_is_one(s: Seq<mesh::SeedView>)
    requires
        s.len() > 0,
    ensures
        exists|k: int| 0 <= k < s.len() && soonest(s) == Some((#[trigger] s[k]).expires_at),
    decreases s.len(),
{
    let t = s.drop_last();
    assert(s[s.len() - 1] == s.last());
    if t.len() > 0 {
        lemma_soonest_is_one(t);
        let k = choose|k: int| 0 <= k < t.len() && soonest(t) == Some((#[trigger] t[k]).expires_at);
        assert(s[k] == t[k]);
    }
}

/// The first anchor that is named for a guild without a pin is pinned, and is to be saved, unless an
/// anchor that was named before it is refused.
pub proof fn law_first_anchor_is_pinned(pins: Map<u64, Seq<u8>>, named: Seq<AnchorView>, k: int)
    requires
        0 <= k < named.len(),
        !pins.contains_key(named[k].guild_id),
        forall|i: int| 0 <= i < k ==> (#[trigger] named[i]).guild_id != named[k].guild_id,
        pinned_by(pins, named.take(k)).refused is None,
    ensures
        ({
            let r = pinned_by(pins, named.take(k + 1));
            &&& r.refused is None
            &&& r.pins.contains_key(named[k].guild_id)
            &&& r.pins[named[k].guild_id] == named[k].pubkey
            &&& r.written.contains(named[k].guild_id)
        }),
{
    let t = named.take(k);
    let u = named.take(k + 1);
    assert(u.drop_last() =~= t);
    assert(u.last() == named[k]);
    assert forall|i: int| 0 <= i < t.len() implies (#[trigger] t[i]).guild_id
        != named[k].guild_id by {
        assert(t[i] == named[i]);
    }
    lemma_unnamed_pin_stands(pins, t, named[k].guild_id);
    let r = pinned_by(pins, u);
    assert(r.written[r.written.len() - 1] == named[k].guild_id);
}

/// An anchor that rotations lead to from the pinned one takes its place, and is to be saved; and the pin
/// of every other guild is as it was.
pub proof fn law_rotation_moves_the_pin(pins: Map<u64, Seq<u8>>, a: AnchorView, g: u64)
    requires
        pins.contains_key(a.guild_id),
        pins[a.guild_id].len() == 32,
        a.pubkey != pins[a.guild_id],
        a.rotated_from.contains(pins[a.guild_id]),
    ensures
        ({
            let r = pinned_by(pins, seq![a]);
            &&& r.refused is None
            &&& r.pins[a.guild_id] == a.pubkey
            &&& r.written == seq![a.guild_id]
            &&& g != a.guild_id ==> pin_of(r.pins, g) == pin_of(pins, g)
        }),
{
    assert(seq![a].drop_last() =~= seq![]);
    assert(seq![a].last() == a);
    let none = pinned_by(pins, Seq::<AnchorView>::empty());
    assert(pinned_by(pins, seq![a]).written =~= seq![a.guild_id]);
}

/// Attestations are read under the pins of just those guilds that are named and have one, and under no
/// anchor that is not pinned.
pub proof fn law_read_under_the_pins(
    named: Seq<AnchorView>,
    pins: Map<u64, Seq<u8>>,
    g: u64,
    k: Seq<u8>,
)
    ensures
        pins_for(named, pins).contains((g, k)) <==> pins.contains_key(g) && pins[g] == k && k.len()
            == 32 && exists|i: int| 0 <= i < named.len() && (#[trigger] named[i]).guild_id == g,
    decreases named.len(),
{
    if named.len() > 0 {
        let t = named.drop_last();
        law_read_under_the_pins(t, pins, g, k);
        let before = pins_for(t, pins);
        let all = pins_for(named, pins);
        if before.contains((g, k)) {
            let j = choose|j: int| 0 <= j < before.len() && before[j] == (g, k);
            assert(all[j] == (g, k));
            let i = choose|i: int| 0 <= i < t.len() && (#[trigger] t[i]).guild_id == g;
            assert(named[i].guild_id == g);
        }
        if all.contains((g, k)) && !before.contains((g, k)) {
            let j = choose|j: int| 0 <= j < all.len() && all[j] == (g, k);
            if j < before.len() {
                assert(before[j] == (g, k));
            }
            assert(named[named.len() - 1].guild_id == g);
        }
        if exists|i: int| 0 <= i < named.len() && (#[trigger] named[i]).guild_id == g {
            let i = choose|i: int| 0 <= i < named.len() && (#[trigger] named[i]).guild_id == g;
            if i < t.len() {
                assert(t[i].guild_id == g);
            } else if pins.contains_key(g) && pins[g] == k && k.len() == 32 {
                assert(all[all.len() - 1] == (g, k));
            }
        }
    }
}

/// A request carries all that the device states and all that its build tells, each under its name.
pub proof fn law_what_a_request_carries(r: StatementView, h: HelloView)
    ensures
        ({
            let b = body_of(r, h);
            &&& b.wg_pubkey == r.wg_pubkey
            &&& b.device_name == r.device_name
            &&& b.endpoint == r.endpoint
            &&& b.enrollment_key == r.enrollment_key
            &&& b.since == r.since
            &&& b.disabled_networks == r.disabled_networks
            &&& b.observed == r.observed
            &&& b.supersede == r.supersede
            &&& b.paused == r.paused
            &&& b.peer_own_devices == r.peer_own_devices
            &&& b.relay_capable == r.relay.capable
            &&& b.relay_addr == r.relay.addr
            &&& b.relay_secret == r.relay.secret
            &&& b.need_relay == r.relay.need_relay
            &&& b.relay_allocated == r.relay.allocated
            &&& b.ice == r.ice
            &&& b.held == r.held
            &&& b.proto == h.proto
            &&& b.proto_min == h.proto_min
            &&& b.caps == h.caps
            &&& b.client_version == h.client_version
        }),
{
}

/// The first contact asks for no version and reports nothing of peers, and states everything else.
pub proof fn law_what_the_first_contact_states(r: StatementView)
    ensures
        ({
            let f = first_contact(r);
            &&& f.since is None
            &&& f.observed.len() == 0
            &&& f.ice.len() == 0
            &&& f.held.len() == 0
            &&& f.wg_pubkey == r.wg_pubkey
            &&& f.device_name == r.device_name
            &&& f.endpoint == r.endpoint
            &&& f.enrollment_key == r.enrollment_key
            &&& f.disabled_networks == r.disabled_networks
            &&& f.supersede == r.supersede
            &&& f.paused == r.paused
            &&& f.peer_own_devices == r.peer_own_devices
            &&& f.relay == r.relay
        }),
{
}

/// What is said of each refusal.
pub proof fn law_what_is_said_of_a_refusal(
    what: Seq<char>,
    status: Seq<char>,
    body: Seq<char>,
    u: UpgradeRequired,
    t: String,
    p: PinError,
)
    ensures
        rejection(what, status, body) == "coordinator rejected "@ + what + ": "@ + status + ": "@
            + body,
        CoordError::Upgrade(u).text() == u.0@,
        CoordError::Rejected(t).text() == t@,
        CoordError::Anchor(p).text() == p.text(),
        CoordError::NoGrant.text()
            == "verifying grant: no grant attestation verified against a pinned guild anchor"@,
{
}

/// An answer with a grant describes a device if and only if the grant is read, and one without describes
/// none.
pub proof fn law_who_is_described(
    r: Result<Option<SelfDevice>, CoordError>,
    resp: RegisterResp,
    pins: Seq<(u64, Seq<u8>)>,
)
    requires
        describes(r, resp, pins),
    ensures
        resp.grant is None ==> r is Ok && r->Ok_0 is None,
        resp.grant is Some && granted(resp.grant->0@, pins) is None ==> r is Err
            && r->Err_0 is NoGrant,
        resp.grant is Some && granted(resp.grant->0@, pins) is Some ==> r is Ok && r->Ok_0 is Some
            && r->Ok_0->0@.user_id == (granted(resp.grant->0@, pins)->0).0.user_id
            && r->Ok_0->0@.wg_ip == (granted(resp.grant->0@, pins)->0).0.wg_ip
            && r->Ok_0->0@.community_name == (granted(resp.grant->0@, pins)->0).1,
{
}

} // verus!
