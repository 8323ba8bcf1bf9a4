//! The status that frontends are shown.
//!
//! A change is made through the setters, each of which says whether the status is another than
//! before; those who watch it are woken when it is.
use crate::api::PeerReach;
use crate::assoc::{self, Assoc};
use crate::mesh::{
    self, copy_network_statuses, copy_shared_networks, NetworkStatus, SeedPeer, SelfDevice,
    SharedNetwork,
};
use crate::net::Endpoint;
use crate::netcfg::{self, NetId};
use crate::order::{self, TotalOrder};
use crate::release;
use crate::text;
use vstd::prelude::*;
use vstd::string::*;

verus! {

/// This device, as it is shown.
pub struct DeviceStatus {
    pub wg_ip: u32,
    pub hostname: String,
    pub is_primary: bool,
    pub networks: Vec<String>,
}

/// The model of a shown device.
#[verifier::ext_equal]
pub struct ShownDevice {
    pub wg_ip: u32,
    pub hostname: Seq<char>,
    pub is_primary: bool,
    pub networks: Seq<Seq<char>>,
}

impl View for DeviceStatus {
    type V = ShownDevice;

    open spec fn view(&self) -> ShownDevice {
        ShownDevice {
            wg_ip: self.wg_ip,
            hostname: self.hostname@,
            is_primary: self.is_primary,
            networks: text::texts(self.networks@),
        }
    }
}

/// The model of a shown device that may be absent.
pub open spec fn opt_device_status(s: Option<DeviceStatus>) -> Option<ShownDevice> {
    match s {
        Some(x) => Some(x@),
        None => None,
    }
}

impl DeviceStatus {
    /// A copy of the shown device.
    pub fn copy(&self) -> (r: DeviceStatus)
        ensures
            r@ == self@,
    {
        let r = DeviceStatus {
            wg_ip: self.wg_ip,
            hostname: self.hostname.clone(),
            is_primary: self.is_primary,
            networks: text::copy_list(&self.networks),
        };
        assert(r@ =~= self@);
        r
    }
}

/// A copy of a shown device that may be absent.
pub fn copy_opt_device_status(s: &Option<DeviceStatus>) -> (r: Option<DeviceStatus>)
    ensures
        opt_device_status(r) == opt_device_status(*s),
{
    match s {
        Some(x) => Some(x.copy()),
        None => None,
    }
}

/// A peer, as it is shown.
pub struct PeerStatus {
    pub hostname: String,
    pub wg_ip: u32,
    pub endpoint: Option<Endpoint>,
    pub user_id: u64,
    pub username: String,
    pub reach: PeerReach,
    pub up: bool,
    pub latency_ms: Option<u32>,
    pub rx_bytes: u64,
    pub tx_bytes: u64,
    pub last_handshake_secs: Option<u64>,
    pub networks: Vec<SharedNetwork>,
}

/// The model of a shown peer.
#[verifier::ext_equal]
pub struct ShownPeer {
    pub hostname: Seq<char>,
    pub wg_ip: u32,
    pub endpoint: Option<Endpoint>,
    pub user_id: u64,
    pub username: Seq<char>,
    pub reach: PeerReach,
    pub up: bool,
    pub latency_ms: Option<u32>,
    pub rx_bytes: u64,
    pub tx_bytes: u64,
    pub last_handshake_secs: Option<u64>,
    pub networks: Seq<mesh::SharedView>,
}

impl View for PeerStatus {
    type V = ShownPeer;

    open spec fn view(&self) -> ShownPeer {
        ShownPeer {
            hostname: self.hostname@,
            wg_ip: self.wg_ip,
            endpoint: self.endpoint,
            user_id: self.user_id,
            username: self.username@,
            reach: self.reach,
            up: self.up,
            latency_ms: self.latency_ms,
            rx_bytes: self.rx_bytes,
            tx_bytes: self.tx_bytes,
            last_handshake_secs: self.last_handshake_secs,
            networks: mesh::shared_network_views(self.networks@),
        }
    }
}

/// The models of a list of shown peers.
pub open spec fn shown_peer_views(s: Seq<PeerStatus>) -> Seq<ShownPeer> {
    s.map_values(|x: PeerStatus| x@)
}

impl PeerStatus {
    /// A copy of the shown peer.
    pub fn copy(&self) -> (r: PeerStatus)
        ensures
            r@ == self@,
    {
        let r = PeerStatus {
            hostname: self.hostname.clone(),
            wg_ip: self.wg_ip,
            endpoint: self.endpoint,
            user_id: self.user_id,
            username: self.username.clone(),
            reach: self.reach,
            up: self.up,
            latency_ms: self.latency_ms,
            rx_bytes: self.rx_bytes,
            tx_bytes: self.tx_bytes,
            last_handshake_secs: self.last_handshake_secs,
            networks: copy_shared_networks(&self.networks),
        };
        assert(r@ =~= self@);
        r
    }
}

/// A copy of a list of shown peers.
pub fn copy_shown_peers(v: &Vec<PeerStatus>) -> (r: Vec<PeerStatus>)
    ensures
        shown_peer_views(r@) == shown_peer_views(v@),
{
    let ghost want = shown_peer_views(v@);
    let mut out: Vec<PeerStatus> = Vec::new();
    let mut i: usize = 0;
    assert(shown_peer_views(out@) =~= want.take(0));
    while i < v.len()
        invariant
            i <= v.len(),
            want == shown_peer_views(v@),
            shown_peer_views(out@) == want.take(i as int),
        decreases v.len() - i,
    {
        let ghost before = shown_peer_views(out@);
        out.push(v[i].copy());
        assert(shown_peer_views(out@) =~= before.push(want[i as int]));
        assert(want.take(i + 1) =~= want.take(i as int).push(want[i as int]));
        i += 1;
    }
    assert(want.take(i as int) =~= want);
    out
}

/// A user whose devices are refused.
pub struct BlockedUser {
    pub user_id: u64,
    pub username: String,
}

/// The model of a blocked user.
#[verifier::ext_equal]
pub struct BlockedView {
    pub user_id: u64,
    pub username: Seq<char>,
}

impl View for BlockedUser {
    type V = BlockedView;

    open spec fn view(&self) -> BlockedView {
        BlockedView {
            user_id: self.user_id,
            username: self.username@,
        }
    }
}

/// The models of a list of blocked users.
pub open spec fn blocked_user_views(s: Seq<BlockedUser>) -> Seq<BlockedView> {
    s.map_values(|x: BlockedUser| x@)
}

impl BlockedUser {
    /// A copy of the blocked user.
    pub fn copy(&self) -> (r: BlockedUser)
        ensures
            r@ == self@,
    {
        let r = BlockedUser {
            user_id: self.user_id,
            username: self.username.clone(),
        };
        assert(r@ =~= self@);
        r
    }
}

/// A copy of a list of blocked users.
pub fn copy_blocked_users(v: &Vec<BlockedUser>) -> (r: Vec<BlockedUser>)
    ensures
        blocked_user_views(r@) == blocked_user_views(v@),
{
    let ghost want = blocked_user_views(v@);
    let mut out: Vec<BlockedUser> = Vec::new();
    let mut i: usize = 0;
    assert(blocked_user_views(out@) =~= want.take(0));
    while i < v.len()
        invariant
            i <= v.len(),
            want == blocked_user_views(v@),
            blocked_user_views(out@) == want.take(i as int),
        decreases v.len() - i,
    {
        let ghost before = blocked_user_views(out@);
        out.push(v[i].copy());
        assert(blocked_user_views(out@) =~= before.push(want[i as int]));
        assert(want.take(i + 1) =~= want.take(i as int).push(want[i as int]));
        i += 1;
    }
    assert(want.take(i as int) =~= want);
    out
}

/// All that is shown.
pub struct StatusReport {
    pub device: Option<DeviceStatus>,
    pub peers: Vec<PeerStatus>,
    pub networks: Vec<NetworkStatus>,
    pub needs_login: bool,
    pub connected: bool,
    pub disable_new_networks: bool,
    pub peer_own_devices: bool,
    pub identity: Option<String>,
    pub coordinator_online: bool,
    pub blocked: Vec<BlockedUser>,
    pub engine_version: String,
    /// A release that is newer than this one.
    pub update_available: Option<String>,
    /// Whether a verified update can be applied.
    pub update_ready: bool,
    /// A warning that the mesh's block meets a local subnet.
    pub lan_overlap: Option<String>,
    /// Why the coordinator refused this build.
    pub proto_mismatch: Option<String>,
}

/// The model of a status.
#[verifier::ext_equal]
pub struct StatusView {
    pub device: Option<ShownDevice>,
    pub peers: Seq<ShownPeer>,
    pub networks: Seq<mesh::NetworkView>,
    pub needs_login: bool,
    pub connected: bool,
    pub disable_new_networks: bool,
    pub peer_own_devices: bool,
    pub identity: Option<Seq<char>>,
    pub coordinator_online: bool,
    pub blocked: Seq<BlockedView>,
    pub engine_version: Seq<char>,
    pub update_available: Option<Seq<char>>,
    pub update_ready: bool,
    pub lan_overlap: Option<Seq<char>>,
    pub proto_mismatch: Option<Seq<char>>,
}

impl View for StatusReport {
    type V = StatusView;

    open spec fn view(&self) -> StatusView {
        StatusView {
            device: opt_device_status(self.device),
            peers: shown_peer_views(self.peers@),
            networks: mesh::network_status_views(self.networks@),
            needs_login: self.needs_login,
            connected: self.connected,
            disable_new_networks: self.disable_new_networks,
            peer_own_devices: self.peer_own_devices,
            identity: text::opt_text(self.identity),
            coordinator_online: self.coordinator_online,
            blocked: blocked_user_views(self.blocked@),
            engine_version: self.engine_version@,
            update_available: text::opt_text(self.update_available),
            update_ready: self.update_ready,
            lan_overlap: text::opt_text(self.lan_overlap),
            proto_mismatch: text::opt_text(self.proto_mismatch),
        }
    }
}

impl StatusReport {
    /// A copy of the status.
    pub fn copy(&self) -> (r: StatusReport)
        ensures
            r@ == self@,
    {
        let r = StatusReport {
            device: copy_opt_device_status(&self.device),
            peers: copy_shown_peers(&self.peers),
            networks: copy_network_statuses(&self.networks),
            needs_login: self.needs_login,
            connected: self.connected,
            disable_new_networks: self.disable_new_networks,
            peer_own_devices: self.peer_own_devices,
            identity: self.identity.clone(),
            coordinator_online: self.coordinator_online,
            blocked: copy_blocked_users(&self.blocked),
            engine_version: self.engine_version.clone(),
            update_available: self.update_available.clone(),
            update_ready: self.update_ready,
            lan_overlap: self.lan_overlap.clone(),
            proto_mismatch: self.proto_mismatch.clone(),
        };
        assert(r@ =~= self@);
        r
    }
}

/// The status of an engine that nothing is known of yet. A new network starts out disabled, and the
/// owner's devices peer with one another, unless the owner said otherwise.
pub open spec fn blank() -> StatusView {
    StatusView {
        device: None,
        peers: seq![],
        networks: seq![],
        needs_login: false,
        connected: false,
        disable_new_networks: true,
        peer_own_devices: true,
        identity: None,
        coordinator_online: false,
        blocked: seq![],
        engine_version: seq![],
        update_available: None,
        update_ready: false,
        lan_overlap: None,
        proto_mismatch: None,
    }
}

/// The status before the start: nothing is up that was not yet seen to be.
pub fn shared() -> (r: StatusReport)
    ensures
        r@ == blank(),
{
    let r = StatusReport {
        device: None,
        peers: Vec::new(),
        networks: Vec::new(),
        needs_login: false,
        connected: false,
        disable_new_networks: true,
        peer_own_devices: true,
        identity: None,
        coordinator_online: false,
        blocked: Vec::new(),
        engine_version: String::new(),
        update_available: None,
        update_ready: false,
        lan_overlap: None,
        proto_mismatch: None,
    };
    assert(r@ =~= blank());
    r
}

/// Back to the state without a login: no device, no peers, nobody.
pub fn set_logged_out(s: &mut StatusReport)
    ensures
        final(s)@ == (StatusView { needs_login: true, ..blank() }),
{
    let mut r = shared();
    r.needs_login = true;
    *s = r;
    assert(s@ =~= StatusView { needs_login: true, ..blank() });
}

/// Whether a login is needed.
pub fn set_needs_login(s: &mut StatusReport, needs: bool) -> (changed: bool)
    ensures
        final(s)@ == (StatusView { needs_login: needs, ..old(s)@ }),
        changed == (final(s)@ != old(s)@),
{
    let changed = s.needs_login != needs;
    s.needs_login = needs;
    changed
}

/// Whether the mesh is connected.
pub fn set_connected(s: &mut StatusReport, connected: bool) -> (changed: bool)
    ensures
        final(s)@ == (StatusView { connected: connected, ..old(s)@ }),
        changed == (final(s)@ != old(s)@),
{
    let changed = s.connected != connected;
    s.connected = connected;
    changed
}

/// Whether a new network starts out disabled.
pub fn set_disable_new(s: &mut StatusReport, disable: bool) -> (changed: bool)
    ensures
        final(s)@ == (StatusView { disable_new_networks: disable, ..old(s)@ }),
        changed == (final(s)@ != old(s)@),
{
    let changed = s.disable_new_networks != disable;
    s.disable_new_networks = disable;
    changed
}

/// Whether the owner's devices peer with one another.
pub fn set_peer_own(s: &mut StatusReport, enabled: bool) -> (changed: bool)
    ensures
        final(s)@ == (StatusView { peer_own_devices: enabled, ..old(s)@ }),
        changed == (final(s)@ != old(s)@),
{
    let changed = s.peer_own_devices != enabled;
    s.peer_own_devices = enabled;
    changed
}

/// Whether the coordinator answered when last asked.
pub fn set_coord_online(s: &mut StatusReport, online: bool) -> (changed: bool)
    ensures
        final(s)@ == (StatusView { coordinator_online: online, ..old(s)@ }),
        changed == (final(s)@ != old(s)@),
{
    let changed = s.coordinator_online != online;
    s.coordinator_online = online;
    changed
}

/// Whether a verified update can be applied.
pub fn set_update_ready(s: &mut StatusReport, ready: bool) -> (changed: bool)
    ensures
        final(s)@ == (StatusView { update_ready: ready, ..old(s)@ }),
        changed == (final(s)@ != old(s)@),
{
    let changed = s.update_ready != ready;
    s.update_ready = ready;
    changed
}

/// Why the coordinator refused this build, if it did.
pub fn set_proto_mismatch(s: &mut StatusReport, why: Option<String>) -> (changed: bool)
    ensures
        final(s)@ == (StatusView { proto_mismatch: text::opt_text(why), ..old(s)@ }),
        changed == (final(s)@ != old(s)@),
{
    let changed = !text::same_opt(&s.proto_mismatch, &why);
    s.proto_mismatch = why;
    changed
}

/// The warning that the mesh's block meets a local subnet, if it does.
pub fn set_lan_overlap(s: &mut StatusReport, why: Option<String>) -> (changed: bool)
    ensures
        final(s)@ == (StatusView { lan_overlap: text::opt_text(why), ..old(s)@ }),
        changed == (final(s)@ != old(s)@),
{
    let changed = !text::same_opt(&s.lan_overlap, &why);
    s.lan_overlap = why;
    changed
}

/// Takes in the release that the coordinator names: it is shown if and only if it is newer than the one
/// that runs.
pub fn set_update_available(s: &mut StatusReport, latest: &str, running: &str) -> (changed: bool)
    ensures
        final(s)@ == (StatusView {
            update_available: if release::newer(latest@, running@) {
                Some(latest@)
            } else {
                None
            },
            ..old(s)@
        }),
        changed == (final(s)@ != old(s)@),
{
    let val = if release::is_newer(latest, running) {
        Some(latest.to_owned())
    } else {
        None
    };
    let changed = !text::same_opt(&s.update_available, &val);
    s.update_available = val;
    changed
}

/// What is measured of a peer.
#[derive(Clone, Copy)]
pub struct PeerLive {
    pub reach: PeerReach,
    pub up: bool,
    pub latency_ms: Option<u32>,
    pub rx_bytes: u64,
    pub tx_bytes: u64,
    pub last_handshake_secs: Option<u64>,
}

/// What is measured of a peer that was never seen.
pub open spec fn unseen() -> PeerLive {
    PeerLive {
        reach: PeerReach::Direct,
        up: false,
        latency_ms: None,
        rx_bytes: 0,
        tx_bytes: 0,
        last_handshake_secs: None,
    }
}

/// A shown peer with what was measured.
pub open spec fn with_live(p: ShownPeer, l: PeerLive) -> ShownPeer {
    ShownPeer {
        reach: l.reach,
        up: l.up,
        latency_ms: l.latency_ms,
        rx_bytes: l.rx_bytes,
        tx_bytes: l.tx_bytes,
        last_handshake_secs: l.last_handshake_secs,
        ..p
    }
}

/// What a shown peer was last measured at.
pub open spec fn live_of(p: ShownPeer) -> PeerLive {
    PeerLive {
        reach: p.reach,
        up: p.up,
        latency_ms: p.latency_ms,
        rx_bytes: p.rx_bytes,
        tx_bytes: p.tx_bytes,
        last_handshake_secs: p.last_handshake_secs,
    }
}

/// What the peer at an address was last measured at; the last so addressed.
pub open spec fn last_live(peers: Seq<ShownPeer>, ip: u32) -> PeerLive
    decreases peers.len(),
{
    if peers.len() == 0 {
        unseen()
    } else if peers.last().wg_ip == ip {
        live_of(peers.last())
    } else {
        last_live(peers.drop_last(), ip)
    }
}

/// The tag under which the owner's own devices are shown together.
pub open spec fn own_tag() -> mesh::SharedView {
    mesh::SharedView { name: "My devices"@, community: seq![], guild_id: 0, role_id: 0 }
}

/// The networks that a peer is shown with: those it shares, behind the tag when it is one of the
/// owner's own. The tag is for the eye only.
pub open spec fn shown_networks(s: mesh::SeedView, self_user_id: u64) -> Seq<mesh::SharedView> {
    if s.user_id == self_user_id {
        seq![own_tag()] + s.networks
    } else {
        s.networks
    }
}

/// The networks that a peer is shown with.
pub fn own_device_networks(s: &SeedPeer, self_user_id: u64) -> (r: Vec<SharedNetwork>)
    ensures
        mesh::shared_network_views(r@) == shown_networks(s@, self_user_id),
{
    let mut nets = copy_shared_networks(&s.networks);
    if s.user_id == self_user_id {
        let ghost before = mesh::shared_network_views(nets@);
        let tag = SharedNetwork {
            name: "My devices".to_owned(),
            community: String::new(),
            guild_id: 0,
            role_id: 0,
        };
        assert(tag@ =~= own_tag());
        let ghost tv = tag@;
        nets.insert(0, tag);
        assert(mesh::shared_network_views(nets@) =~= before.insert(0, tv));
        assert(before.insert(0, tv) =~= seq![own_tag()] + before);
    }
    nets
}

/// A peer as it is shown: by its owner's name where it is the owner's primary device, and with what
/// it was last measured at, so that a steady peer does not seem to go down when all is shown anew.
pub open spec fn shown(s: mesh::SeedView, prev: Seq<ShownPeer>, self_user_id: u64) -> ShownPeer {
    with_live(
        ShownPeer {
            hostname: match s.primary_alias {
                Some(a) => a,
                None => s.hostname,
            },
            wg_ip: s.ip,
            endpoint: s.endpoint,
            user_id: s.user_id,
            username: s.username,
            reach: PeerReach::Direct,
            up: false,
            latency_ms: None,
            rx_bytes: 0,
            tx_bytes: 0,
            last_handshake_secs: None,
            networks: shown_networks(s, self_user_id),
        },
        last_live(prev, s.ip),
    )
}

/// Peers as they are shown.
pub open spec fn all_shown(
    seeds: Seq<mesh::SeedView>,
    prev: Seq<ShownPeer>,
    self_user_id: u64,
) -> Seq<ShownPeer> {
    seeds.map_values(|s: mesh::SeedView| shown(s, prev, self_user_id))
}

fn find_live(peers: &Vec<PeerStatus>, ip: u32) -> (r: PeerLive)
    ensures
        r == last_live(shown_peer_views(peers@), ip),
{
    let ghost all = shown_peer_views(peers@);
    let mut i: usize = peers.len();
    assert(all.take(i as int) =~= all);
    while i > 0
        invariant
            i <= peers.len(),
            all == shown_peer_views(peers@),
            last_live(all, ip) == last_live(all.take(i as int), ip),
        decreases i,
    {
        assert(all.take(i as int).drop_last() =~= all.take(i - 1));
        assert(all[i - 1] == peers@[i - 1]@);
        i -= 1;
        let p = &peers[i];
        if p.wg_ip == ip {
            return PeerLive {
                reach: p.reach,
                up: p.up,
                latency_ms: p.latency_ms,
                rx_bytes: p.rx_bytes,
                tx_bytes: p.tx_bytes,
                last_handshake_secs: p.last_handshake_secs,
            };
        }
    }
    PeerLive {
        reach: PeerReach::Direct,
        up: false,
        latency_ms: None,
        rx_bytes: 0,
        tx_bytes: 0,
        last_handshake_secs: None,
    }
}

fn show_peers(seeds: &Vec<SeedPeer>, prev: &Vec<PeerStatus>, self_user_id: u64) -> (r: Vec<
    PeerStatus,
>)
    ensures
        shown_peer_views(r@) == all_shown(
            mesh::seed_views(seeds@),
            shown_peer_views(prev@),
            self_user_id,
        ),
{
    let ghost all = mesh::seed_views(seeds@);
    let ghost before = shown_peer_views(prev@);
    let ghost want = all_shown(all, before, self_user_id);
    let mut out: Vec<PeerStatus> = Vec::new();
    let mut i: usize = 0;
    assert(shown_peer_views(out@) =~= want.take(0));
    while i < seeds.len()
        invariant
            i <= seeds.len(),
            all == mesh::seed_views(seeds@),
            before == shown_peer_views(prev@),
            want == all_shown(all, before, self_user_id),
            shown_peer_views(out@) == want.take(i as int),
        decreases seeds.len() - i,
    {
        let s = &seeds[i];
        assert(all[i as int] == s@);
        let l = find_live(prev, s.ip);
        let p = PeerStatus {
            hostname: match &s.primary_alias {
                Some(a) => a.clone(),
                None => s.hostname.clone(),
            },
            wg_ip: s.ip,
            endpoint: s.endpoint,
            user_id: s.user_id,
            username: s.username.clone(),
            reach: l.reach,
            up: l.up,
            latency_ms: l.latency_ms,
            rx_bytes: l.rx_bytes,
            tx_bytes: l.tx_bytes,
            last_handshake_secs: l.last_handshake_secs,
            networks: own_device_networks(s, self_user_id),
        };
        assert(p@ =~= shown(s@, before, self_user_id));
        let ghost pv = p@;
        let ghost was = shown_peer_views(out@);
        out.push(p);
        assert(shown_peer_views(out@) =~= was.push(pv));
        assert(want.take(i + 1) =~= want.take(i as int).push(want[i as int]));
        i += 1;
    }
    assert(want.take(i as int) =~= want);
    out
}

/// A network as it is shown: one that the owner disabled here is off, whatever the coordinator says.
pub open spec fn effective(n: mesh::NetworkView, disabled: Set<NetId>) -> mesh::NetworkView {
    mesh::NetworkView {
        enabled: n.enabled && !disabled.contains((n.guild_id, n.role_id)),
        ..n
    }
}

/// Networks as they are shown.
pub open spec fn all_effective(nets: Seq<mesh::NetworkView>, disabled: Set<NetId>) -> Seq<
    mesh::NetworkView,
> {
    nets.map_values(|n: mesh::NetworkView| effective(n, disabled))
}

/// Networks as they are shown.
pub fn effective_networks(networks: &Vec<NetworkStatus>, disabled: &Assoc<NetId, ()>) -> (r: Vec<
    NetworkStatus,
>)
    requires
        disabled.wf(),
    ensures
        mesh::network_status_views(r@) == all_effective(
            mesh::network_status_views(networks@),
            disabled@.dom(),
        ),
{
    let ghost want = all_effective(mesh::network_status_views(networks@), disabled@.dom());
    let mut out: Vec<NetworkStatus> = Vec::new();
    let mut i: usize = 0;
    assert(mesh::network_status_views(out@) =~= want.take(0));
    while i < networks.len()
        invariant
            i <= networks.len(),
            disabled.wf(),
            want == all_effective(mesh::network_status_views(networks@), disabled@.dom()),
            mesh::network_status_views(out@) == want.take(i as int),
        decreases networks.len() - i,
    {
        let mut n = networks[i].copy();
        if disabled.contains(&(n.guild_id, n.role_id)) {
            n.enabled = false;
        }
        let ghost nv = n@;
        assert(nv =~= want[i as int]);
        let ghost was = mesh::network_status_views(out@);
        out.push(n);
        assert(mesh::network_status_views(out@) =~= was.push(nv));
        assert(want.take(i + 1) =~= want.take(i as int).push(want[i as int]));
        i += 1;
    }
    assert(want.take(i as int) =~= want);
    out
}

impl TotalOrder for BlockedUser {
    open spec fn leq(&self, other: &Self) -> bool {
        user_le(self@, other@)
    }

    proof fn leq_total(a: &Self, b: &Self) {
        order::lemma_lex_total(order::codes(a.username@), order::codes(b.username@));
    }

    proof fn leq_trans(a: &Self, b: &Self, c: &Self) {
        if a.username@ != b.username@ && b.username@ != c.username@ {
            order::lemma_lex_trans(
                order::codes(a.username@),
                order::codes(b.username@),
                order::codes(c.username@),
            );
            if a.username@ == c.username@ {
                order::lemma_text_antisym(a.username@, b.username@);
            }
        }
    }

    fn le(&self, other: &Self) -> (r: bool) {
        if self.username == other.username {
            self.user_id <= other.user_id
        } else {
            order::text_leq(self.username.as_str(), other.username.as_str())
        }
    }
}

/// Whether one user is shown before another: by name, and then by id.
pub open spec fn user_le(a: BlockedView, b: BlockedView) -> bool {
    if a.username == b.username {
        a.user_id <= b.user_id
    } else {
        order::text_le(a.username, b.username)
    }
}

/// Whether a list shows the blocked users: each once, by name and then by id.
pub open spec fn lists(s: Seq<BlockedView>, m: Map<u64, Seq<char>>) -> bool {
    &&& forall|i: int, j: int|
        0 <= i < j < s.len() ==> user_le(#[trigger] s[i], #[trigger] s[j]) && s[i] != s[j]
    &&& forall|x: BlockedView| #[trigger]
        s.contains(x) <==> m.contains_key(x.user_id) && m[x.user_id] == x.username
}

/// The blocked users, by name and then by id.
pub fn blocked_list(blocked: &Assoc<u64, String>) -> (r: Vec<BlockedUser>)
    requires
        blocked.wf(),
    ensures
        lists(blocked_user_views(r@), netcfg::text_map(blocked@)),
{
    let ghost es = blocked.entries@;
    let mut all: Vec<BlockedUser> = Vec::new();
    let mut i: usize = 0;
    while i < blocked.entries.len()
        invariant
            i <= blocked.entries.len(),
            es == blocked.entries@,
            all@.len() == i,
            forall|j: int|
                0 <= j < i ==> (#[trigger] all@[j]).user_id == es[j].0 && all@[j].username@
                    == es[j].1@,
        decreases blocked.entries.len() - i,
    {
        all.push(
            BlockedUser {
                user_id: blocked.entries[i].0,
                username: blocked.entries[i].1.clone(),
            },
        );
        i += 1;
    }
    let ghost list = all@;
    let r = order::sort(all);
    proof {
        order::lemma_sorted(list);
        assert(list.no_duplicates()) by {
            assert forall|a: int, b: int|
                0 <= a < list.len() && 0 <= b < list.len() && a != b implies list[a]
                != list[b] by {
                if a < b {
                    assert(es[a].0@ != es[b].0@);
                } else {
                    assert(es[b].0@ != es[a].0@);
                }
            }
        }
        lemma_sorted_distinct(list, es);
        let s = blocked_user_views(r@);
        assert forall|a: int, b: int| 0 <= a < b < s.len() implies user_le(
            #[trigger] s[a],
            #[trigger] s[b],
        ) && s[a] != s[b] by {
            assert(r@[a].leq(&r@[b]));
            assert(r@[a].user_id != r@[b].user_id);
        }
        assert forall|x: BlockedView| #[trigger] s.contains(x) <==> netcfg::text_map(
            blocked@,
        ).contains_key(x.user_id) && netcfg::text_map(blocked@)[x.user_id] == x.username by {
            if s.contains(x) {
                let k = choose|k: int| 0 <= k < s.len() && s[k] == x;
                order::lemma_sorted_contains(list, r@[k]);
                assert(r@.contains(r@[k]));
                let n = choose|n: int| 0 <= n < list.len() && list[n] == r@[k];
                assoc::lemma_entry(es, n);
            }
            if netcfg::text_map(blocked@).contains_key(x.user_id) && netcfg::text_map(
                blocked@,
            )[x.user_id] == x.username {
                let n = assoc::key_at(es, x.user_id);
                assert(es[n].0@ == x.user_id);
                assert(list[n].user_id == x.user_id);
                order::lemma_sorted_contains(list, list[n]);
                assert(list.contains(list[n]));
                let k = choose|k: int| 0 <= k < r@.len() && r@[k] == list[n];
                assert(s[k] =~= x);
            }
        }
    }
    r
}

proof fn lemma_sorted_distinct(list: Seq<BlockedUser>, es: Seq<(u64, String)>)
    requires
        list.len() == es.len(),
        assoc::distinct(es),
        list.no_duplicates(),
        forall|j: int| 0 <= j < list.len() ==> (#[trigger] list[j]).user_id == es[j].0,
    ensures
        ({
            let r = order::sorted(list);
            forall|a: int, b: int|
                0 <= a < b < r.len() ==> (#[trigger] r[a]).user_id != (#[trigger] r[b]).user_id
        }),
{
    broadcast use vstd::seq_lib::group_to_multiset_ensures;

    let r = order::sorted(list);
    order::lemma_sorted(list);
    list.lemma_multiset_has_no_duplicates();
    r.lemma_multiset_has_no_duplicates_conv();
    assert forall|a: int, b: int| 0 <= a < b < r.len() implies (#[trigger] r[a]).user_id != (
    #[trigger] r[b]).user_id by {
        order::lemma_sorted_contains(list, r[a]);
        order::lemma_sorted_contains(list, r[b]);
        assert(r.contains(r[a]) && r.contains(r[b]));
        let x = choose|x: int| 0 <= x < list.len() && list[x] == r[a];
        let y = choose|y: int| 0 <= y < list.len() && list[y] == r[b];
        assert(r[a] != r[b]);
        assert(x != y);
        if x < y {
            assert(es[x].0@ != es[y].0@);
        } else {
            assert(es[y].0@ != es[x].0@);
        }
    }
}

/// What goes into a new status, besides the device and its peers.
#[derive(Clone, Copy)]
pub struct Posture {
    pub connected: bool,
    pub disable_new_networks: bool,
    pub peer_own_devices: bool,
    pub coordinator_online: bool,
}

/// Whether a status shows a device, its peers, and the owner's decisions. What others keep up to
/// date, which is whether there is an update, a warning or a refusal, stays as it was.
pub open spec fn shows(
    r: StatusView,
    prev: StatusView,
    device: mesh::DeviceView,
    seeds: Seq<mesh::SeedView>,
    disabled: Set<NetId>,
    blocked: Map<u64, Seq<char>>,
    p: Posture,
    version: Seq<char>,
) -> bool {
    &&& lists(r.blocked, blocked)
    &&& r == (StatusView {
        device: Some(
            ShownDevice {
                wg_ip: device.wg_ip,
                hostname: device.hostname,
                is_primary: device.is_primary,
                networks: device.networks,
            },
        ),
        peers: all_shown(seeds, prev.peers, device.user_id),
        networks: all_effective(device.networks_status, disabled),
        needs_login: false,
        connected: p.connected,
        disable_new_networks: p.disable_new_networks,
        peer_own_devices: p.peer_own_devices,
        identity: Some(device.username),
        coordinator_online: p.coordinator_online,
        blocked: r.blocked,
        engine_version: version,
        ..prev
    })
}

/// Shows a device, its peers, and the owner's decisions.
pub fn update(
    s: &mut StatusReport,
    device: &SelfDevice,
    seeds: &Vec<SeedPeer>,
    disabled: &Assoc<NetId, ()>,
    blocked: &Assoc<u64, String>,
    p: Posture,
    version: &str,
)
    requires
        disabled.wf(),
        blocked.wf(),
    ensures
        shows(
            final(s)@,
            old(s)@,
            device@,
            mesh::seed_views(seeds@),
            disabled@.dom(),
            netcfg::text_map(blocked@),
            p,
            version@,
        ),
{
    let ghost prev = s@;
    s.peers = show_peers(seeds, &s.peers, device.user_id);
    s.device = Some(
        DeviceStatus {
            wg_ip: device.wg_ip,
            hostname: device.hostname.clone(),
            is_primary: device.is_primary,
            networks: text::copy_list(&device.networks),
        },
    );
    s.networks = effective_networks(&device.networks_status, disabled);
    s.needs_login = false;
    s.connected = p.connected;
    s.disable_new_networks = p.disable_new_networks;
    s.peer_own_devices = p.peer_own_devices;
    s.identity = Some(device.username.clone());
    s.coordinator_online = p.coordinator_online;
    s.blocked = blocked_list(blocked);
    s.engine_version = version.to_owned();
    proof {
        let d = ShownDevice {
            wg_ip: device.wg_ip,
            hostname: device.hostname@,
            is_primary: device.is_primary,
            networks: text::texts(device.networks@),
        };
        assert(s@.device->0 =~= d);
        assert(s@ =~= StatusView {
            device: Some(d),
            peers: all_shown(mesh::seed_views(seeds@), prev.peers, device.user_id),
            networks: all_effective(device@.networks_status, disabled@.dom()),
            needs_login: false,
            connected: p.connected,
            disable_new_networks: p.disable_new_networks,
            peer_own_devices: p.peer_own_devices,
            identity: Some(device.username@),
            coordinator_online: p.coordinator_online,
            blocked: s@.blocked,
            engine_version: version@,
            ..prev
        });
    }
}

/// The shown peers whose owners are not blocked.
pub open spec fn unblocked(peers: Seq<ShownPeer>, blocked: Set<u64>) -> Seq<ShownPeer> {
    peers.filter(|p: ShownPeer| !blocked.contains(p.user_id))
}

/// Shows a change of the blocked users at once: their peers go, and the list is new. Peers that are
/// let in again come with the next rebuilding of the mesh.
pub fn set_blocked(s: &mut StatusReport, blocked: &Assoc<u64, String>)
    requires
        blocked.wf(),
    ensures
        lists(final(s)@.blocked, netcfg::text_map(blocked@)),
        final(s)@ == (StatusView {
            peers: unblocked(old(s)@.peers, blocked@.dom()),
            blocked: final(s)@.blocked,
            ..old(s)@
        }),
{
    let ghost prev = s@;
    let ghost all = s@.peers;
    let ghost p = |p: ShownPeer| !blocked@.dom().contains(p.user_id);
    let mut rest: Vec<PeerStatus> = Vec::new();
    std::mem::swap(&mut rest, &mut s.peers);
    let mut out: Vec<PeerStatus> = Vec::new();
    let ghost mut done: int = 0;
    proof {
        reveal(Seq::filter);
        assert(all.skip(0) =~= all);
        assert(shown_peer_views(out@) =~= all.take(0).filter(p));
    }
    while rest.len() > 0
        invariant
            blocked.wf(),
            0 <= done <= all.len(),
            shown_peer_views(rest@) == all.skip(done),
            p == (|p: ShownPeer| !blocked@.dom().contains(p.user_id)),
            shown_peer_views(out@) == all.take(done).filter(p),
        decreases rest.len(),
    {
        let ghost views = shown_peer_views(rest@);
        let x = rest.remove(0);
        proof {
            reveal(Seq::filter);
            assert(views.len() == rest@.len() + 1 && views == all.skip(done));
            assert(x@ == views[0]);
            assert(x@ == all[done]);
            assert(shown_peer_views(rest@) =~= views.skip(1));
            assert(all.skip(done).skip(1) =~= all.skip(done + 1));
            assert(all.take(done + 1).drop_last() =~= all.take(done));
            done = done + 1;
        }
        if !blocked.contains(&x.user_id) {
            let ghost was = shown_peer_views(out@);
            let ghost xv = x@;
            out.push(x);
            assert(shown_peer_views(out@) =~= was.push(xv));
        }
    }
    proof {
        assert(all.skip(done).len() == shown_peer_views(rest@).len());
        assert(all.take(done) =~= all);
        assert(p =~= (|p: ShownPeer| !blocked@.dom().contains(p.user_id)));
    }
    s.peers = out;
    s.blocked = blocked_list(blocked);
    assert(s@ =~= StatusView {
        peers: unblocked(prev.peers, blocked@.dom()),
        blocked: s@.blocked,
        ..prev
    });
}

/// A shown peer with what was measured at its address, if anything was.
pub open spec fn overlaid(p: ShownPeer, live: Map<u32, PeerLive>) -> ShownPeer {
    if live.contains_key(p.wg_ip) {
        with_live(p, live[p.wg_ip])
    } else {
        p
    }
}

/// Shown peers with what was measured.
pub open spec fn all_overlaid(peers: Seq<ShownPeer>, live: Map<u32, PeerLive>) -> Seq<ShownPeer> {
    peers.map_values(|p: ShownPeer| overlaid(p, live))
}

/// Shows what was measured of the peers, by their addresses.
pub fn set_live(s: &mut StatusReport, live: &Assoc<u32, PeerLive>)
    requires
        live.wf(),
    ensures
        final(s)@ == (StatusView { peers: all_overlaid(old(s)@.peers, live@), ..old(s)@ }),
{
    let ghost prev = s@;
    let ghost want = all_overlaid(prev.peers, live@);
    let mut i: usize = 0;
    while i < s.peers.len()
        invariant
            i <= s.peers.len(),
            live.wf(),
            s.peers.len() == prev.peers.len(),
            want == all_overlaid(prev.peers, live@),
            s@ == (StatusView { peers: shown_peer_views(s.peers@), ..prev }),
            forall|j: int| 0 <= j < i ==> (#[trigger] s.peers@[j])@ == want[j],
            forall|j: int| i <= j < s.peers.len() ==> (#[trigger] s.peers@[j])@ == prev.peers[j],
        decreases s.peers.len() - i,
    {
        let ip = s.peers[i].wg_ip;
        if let Some(l) = live.get(&ip) {
            let ghost was = s.peers@;
            s.peers[i].reach = l.reach;
            s.peers[i].up = l.up;
            s.peers[i].latency_ms = l.latency_ms;
            s.peers[i].rx_bytes = l.rx_bytes;
            s.peers[i].tx_bytes = l.tx_bytes;
            s.peers[i].last_handshake_secs = l.last_handshake_secs;
            assert(s.peers@[i as int]@ =~= want[i as int]);
            assert forall|j: int| i < j < s.peers.len() implies (#[trigger] s.peers@[j])@
                == prev.peers[j] by {
                assert(was[j]@ == prev.peers[j]);
            }
            assert forall|j: int| 0 <= j < i implies (#[trigger] s.peers@[j])@ == want[j] by {
                assert(was[j]@ == want[j]);
            }
        }
        i += 1;
    }
    assert(s@.peers =~= want);
}

/// A steady peer stays steady: a peer that was shown is shown again with what it was measured at,
/// wherever its address is its own.
pub proof fn law_steady_peer_stays_steady(
    seeds: Seq<mesh::SeedView>,
    prev: Seq<ShownPeer>,
    self_user_id: u64,
    i: int,
    j: int,
)
    requires
        0 <= i < seeds.len(),
        0 <= j < prev.len(),
        prev[j].wg_ip == seeds[i].ip,
        forall|k: int| 0 <= k < prev.len() && k != j ==> (#[trigger] prev[k]).wg_ip != seeds[i].ip,
    ensures
        live_of(all_shown(seeds, prev, self_user_id)[i]) == live_of(prev[j]),
{
    lemma_last_live(prev, seeds[i].ip, j);
}

proof fn lemma_last_live(prev: Seq<ShownPeer>, ip: u32, j: int)
    requires
        0 <= j < prev.len(),
        prev[j].wg_ip == ip,
        forall|k: int| 0 <= k < prev.len() && k != j ==> (#[trigger] prev[k]).wg_ip != ip,
    ensures
        last_live(prev, ip) == live_of(prev[j]),
    decreases prev.len(),
{
    if j < prev.len() - 1 {
        let t = prev.drop_last();
        assert(prev[prev.len() - 1].wg_ip != ip);
        assert(t[j] == prev[j]);
        assert forall|k: int| 0 <= k < t.len() && k != j implies (#[trigger] t[k]).wg_ip
            != ip by {
            assert(t[k] == prev[k]);
        }
        lemma_last_live(t, ip, j);
    }
}

/// A network that the owner disabled here is shown as off, whatever the coordinator says.
pub proof fn law_local_choice_is_shown(
    nets: Seq<mesh::NetworkView>,
    disabled: Set<NetId>,
    i: int,
)
    requires
        0 <= i < nets.len(),
        disabled.contains((nets[i].guild_id, nets[i].role_id)),
    ensures
        !all_effective(nets, disabled)[i].enabled,
{
}

/// Every peer is shown as it is known: by the name of the user's first device where it is that one, at
/// its address, with whose it is and the networks that are shared; one of the owner's own stands first
/// under its tag, and nothing else is changed.
pub proof fn law_every_peer_is_shown_as_known(
    seeds: Seq<mesh::SeedView>,
    prev: Seq<ShownPeer>,
    self_user_id: u64,
    i: int,
)
    requires
        0 <= i < seeds.len(),
    ensures
        ({
            let all = all_shown(seeds, prev, self_user_id);
            let s = seeds[i];
            &&& all.len() == seeds.len()
            &&& all[i].hostname == if s.primary_alias is Some {
                s.primary_alias->0
            } else {
                s.hostname
            }
            &&& all[i].wg_ip == s.ip
            &&& all[i].endpoint == s.endpoint
            &&& all[i].user_id == s.user_id
            &&& all[i].username == s.username
            &&& s.user_id != self_user_id ==> all[i].networks == s.networks
            &&& s.user_id == self_user_id ==> all[i].networks.len() == s.networks.len() + 1
                && all[i].networks[0].name == "My devices"@ && all[i].networks[0].community.len()
                == 0 && all[i].networks[0].guild_id == 0 && all[i].networks[0].role_id == 0
                && all[i].networks.skip(1) == s.networks
        }),
{
    let s = seeds[i];
    assert((seq![own_tag()] + s.networks).skip(1) =~= s.networks);
}

/// A peer that was not shown before is shown as not yet seen: down, without figures, and as dialled
/// directly.
pub proof fn law_new_peer_is_not_yet_seen(
    seeds: Seq<mesh::SeedView>,
    prev: Seq<ShownPeer>,
    self_user_id: u64,
    i: int,
)
    requires
        0 <= i < seeds.len(),
        forall|k: int| 0 <= k < prev.len() ==> (#[trigger] prev[k]).wg_ip != seeds[i].ip,
    ensures
        ({
            let p = all_shown(seeds, prev, self_user_id)[i];
            &&& !p.up
            &&& p.reach == PeerReach::Direct
            &&& p.latency_ms is None
            &&& p.rx_bytes == 0
            &&& p.tx_bytes == 0
            &&& p.last_handshake_secs is None
        }),
{
    lemma_never_seen(prev, seeds[i].ip);
}

proof fn lemma_never_seen(prev: Seq<ShownPeer>, ip: u32)
    requires
        forall|k: int| 0 <= k < prev.len() ==> (#[trigger] prev[k]).wg_ip != ip,
    ensures
        last_live(prev, ip) == unseen(),
    decreases prev.len(),
{
    if prev.len() > 0 {
        let f = prev.drop_last();
        assert(prev[prev.len() - 1].wg_ip != ip);
        assert forall|k: int| 0 <= k < f.len() implies (#[trigger] f[k]).wg_ip != ip by {
            assert(f[k] == prev[k]);
        }
        lemma_never_seen(f, ip);
    }
}

/// A network is shown as on if and only if it is on for the coordinator and the owner did not disable it
/// here; nothing else of it changes.
pub proof fn law_network_is_shown_as_it_takes_effect(
    nets: Seq<mesh::NetworkView>,
    disabled: Set<NetId>,
    i: int,
)
    requires
        0 <= i < nets.len(),
    ensures
        ({
            let s = all_effective(nets, disabled);
            &&& s.len() == nets.len()
            &&& s[i].enabled <==> nets[i].enabled && !disabled.contains(
                (nets[i].guild_id, nets[i].role_id),
            )
            &&& s[i].name == nets[i].name
            &&& s[i].guild_name == nets[i].guild_name
            &&& s[i].guild_id == nets[i].guild_id
            &&& s[i].role_id == nets[i].role_id
        }),
{
}

/// The blocked users are listed once each, by name and then by number, with the name that they go by;
/// nobody else is.
pub proof fn law_blocked_users_are_listed(s: Seq<BlockedView>, m: Map<u64, Seq<char>>, u: u64)
    requires
        lists(s, m),
    ensures
        m.contains_key(u) ==> s.contains(BlockedView { user_id: u, username: m[u] }),
        !m.contains_key(u) ==> forall|i: int| 0 <= i < s.len() ==> (#[trigger] s[i]).user_id != u,
        s.no_duplicates(),
        forall|i: int, j: int|
            0 <= i < j < s.len() && (#[trigger] s[i]).username == (#[trigger] s[j]).username
                ==> s[i].user_id < s[j].user_id,
{
    if !m.contains_key(u) {
        assert forall|i: int| 0 <= i < s.len() implies (#[trigger] s[i]).user_id != u by {
            assert(s.contains(s[i]));
        }
    }
    assert forall|i: int, j: int|
        0 <= i < j < s.len() && (#[trigger] s[i]).username == (#[trigger] s[j]).username implies s[i].user_id
        < s[j].user_id by {
        assert(user_le(s[i], s[j]) && s[i] != s[j]);
    }
}

/// What is shown of a device that is in the mesh: itself, every peer, its networks as they take effect,
/// and what the owner decided. It needs no login any more, and what is known of updates and of troubles
/// stays.
pub proof fn law_what_is_shown_of_a_device(
    r: StatusView,
    prev: StatusView,
    device: mesh::DeviceView,
    seeds: Seq<mesh::SeedView>,
    disabled: Set<NetId>,
    blocked: Map<u64, Seq<char>>,
    p: Posture,
    version: Seq<char>,
)
    requires
        shows(r, prev, device, seeds, disabled, blocked, p, version),
    ensures
        r.device == Some(
            ShownDevice {
                wg_ip: device.wg_ip,
                hostname: device.hostname,
                is_primary: device.is_primary,
                networks: device.networks,
            },
        ),
        r.peers.len() == seeds.len(),
        r.networks.len() == device.networks_status.len(),
        !r.needs_login,
        r.connected == p.connected,
        r.disable_new_networks == p.disable_new_networks,
        r.peer_own_devices == p.peer_own_devices,
        r.coordinator_online == p.coordinator_online,
        r.identity == Some(device.username),
        r.engine_version == version,
        r.update_available == prev.update_available,
        r.update_ready == prev.update_ready,
        r.lan_overlap == prev.lan_overlap,
        r.proto_mismatch == prev.proto_mismatch,
        forall|u: u64| #[trigger]
            blocked.contains_key(u) ==> r.blocked.contains(
                BlockedView { user_id: u, username: blocked[u] },
            ),
{
    assert forall|u: u64| #[trigger] blocked.contains_key(u) implies r.blocked.contains(
        BlockedView { user_id: u, username: blocked[u] },
    ) by {
        law_blocked_users_are_listed(r.blocked, blocked, u);
    }
}

/// Of the shown peers just those of blocked users go.
pub proof fn law_just_the_blocked_go(
    a: Seq<ShownPeer>,
    b: Seq<ShownPeer>,
    p: ShownPeer,
    blocked: Set<u64>,
)
    ensures
        unblocked(seq![], blocked) == Seq::<ShownPeer>::empty(),
        unblocked(seq![p], blocked) == if blocked.contains(p.user_id) {
            seq![]
        } else {
            seq![p]
        },
        unblocked(a + b, blocked) == unblocked(a, blocked) + unblocked(b, blocked),
    decreases b.len(),
{
    reveal(Seq::filter);
    let q = |p: ShownPeer| !blocked.contains(p.user_id);
    assert(seq![p].drop_last() =~= seq![]);
    assert(Seq::<ShownPeer>::empty().filter(q) =~= seq![]);
    assert(unblocked(seq![p], blocked) =~= if q(p) {
        seq![p]
    } else {
        seq![]
    });
    if b.len() == 0 {
        assert(a + b =~= a);
        assert(unblocked(a, blocked) + unblocked(b, blocked) =~= unblocked(a, blocked));
    } else {
        law_just_the_blocked_go(a, b.drop_last(), p, blocked);
        assert((a + b).drop_last() =~= a + b.drop_last());
        assert(unblocked(a + b, blocked) =~= unblocked(a, blocked) + unblocked(b, blocked));
    }
}

/// What was measured of a peer is shown of the peer with that address, and of no other; nothing but the
/// figures changes.
pub proof fn law_figures_are_shown_of_their_peer(
    peers: Seq<ShownPeer>,
    live: Map<u32, PeerLive>,
    i: int,
)
    requires
        0 <= i < peers.len(),
    ensures
        ({
            let all = all_overlaid(peers, live);
            let p = all[i];
            let ip = peers[i].wg_ip;
            &&& all.len() == peers.len()
            &&& !live.contains_key(ip) ==> p == peers[i]
            &&& live.contains_key(ip) ==> {
                &&& p.reach == live[ip].reach
                &&& p.up == live[ip].up
                &&& p.latency_ms == live[ip].latency_ms
                &&& p.rx_bytes == live[ip].rx_bytes
                &&& p.tx_bytes == live[ip].tx_bytes
                &&& p.last_handshake_secs == live[ip].last_handshake_secs
            }
            &&& p.hostname == peers[i].hostname
            &&& p.wg_ip == ip
            &&& p.endpoint == peers[i].endpoint
            &&& p.user_id == peers[i].user_id
            &&& p.username == peers[i].username
            &&& p.networks == peers[i].networks
        }),
{
}

/// Before the start nothing is shown as up, and the postures are the careful ones.
pub proof fn law_what_is_shown_before_the_start()
    ensures
        ({
            let b = blank();
            &&& b.device is None && b.identity is None
            &&& b.peers.len() == 0 && b.networks.len() == 0 && b.blocked.len() == 0
            &&& !b.needs_login && !b.connected && !b.coordinator_online
            &&& b.disable_new_networks && b.peer_own_devices
            &&& b.engine_version.len() == 0
            &&& b.update_available is None && !b.update_ready
            &&& b.lan_overlap is None && b.proto_mismatch is None
        }),
{
}

} // verus!
