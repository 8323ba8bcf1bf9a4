//! What the tunnel is told: which peers it has, how each is reached, and which of them need help to
//! be reached.
use crate::assoc::{same_key, Assoc, PubKey};
use crate::mesh::{self, copy_opt_ice_params, copy_opt_relay_info, IceParams, RelayInfo, SeedPeer};
use crate::net::Endpoint;
use crate::order;
use vstd::prelude::*;

verus! {

/// How often a peer is sent something, in seconds, so that the way to it stays open.
pub const KEEPALIVE: u16 = 25;

/// A peer as the tunnel knows it.
pub struct PeerConfig {
    pub public_key: PubKey,
    /// The blocks that are routed to the peer.
    pub allowed_ips: Vec<(u32, u8)>,
    pub endpoint: Option<Endpoint>,
    pub keepalive: Option<u16>,
}

/// The model of a peer.
#[verifier::ext_equal]
pub struct PeerView {
    pub public_key: Seq<u8>,
    pub allowed_ips: Seq<(u32, u8)>,
    pub endpoint: Option<Endpoint>,
    pub keepalive: Option<u16>,
}

impl View for PeerConfig {
    type V = PeerView;

    open spec fn view(&self) -> PeerView {
        PeerView {
            public_key: self.public_key@,
            allowed_ips: self.allowed_ips@,
            endpoint: self.endpoint,
            keepalive: self.keepalive,
        }
    }
}

/// The models of a list of peers.
pub open spec fn peer_views(s: Seq<PeerConfig>) -> Seq<PeerView> {
    s.map_values(|x: PeerConfig| x@)
}

impl PeerConfig {
    /// A copy of the peer.
    pub fn copy(&self) -> (r: PeerConfig)
        ensures
            r@ == self@,
    {
        let mut ips: Vec<(u32, u8)> = Vec::new();
        let mut i: usize = 0;
        while i < self.allowed_ips.len()
            invariant
                i <= self.allowed_ips.len(),
                ips@ == self.allowed_ips@.take(i as int),
            decreases self.allowed_ips.len() - i,
        {
            ips.push(self.allowed_ips[i]);
            i += 1;
        }
        assert(ips@ =~= self.allowed_ips@);
        PeerConfig {
            public_key: self.public_key,
            allowed_ips: ips,
            endpoint: self.endpoint,
            keepalive: self.keepalive,
        }
    }

    /// Whether two peers are routed alike: the same blocks, by the same way.
    pub fn routed_like(&self, other: &PeerConfig) -> (r: bool)
        ensures
            r == (self@.allowed_ips == other@.allowed_ips && self@.endpoint == other@.endpoint),
    {
        if self.endpoint != other.endpoint || self.allowed_ips.len() != other.allowed_ips.len() {
            return false;
        }
        let mut i: usize = 0;
        while i < self.allowed_ips.len()
            invariant
                i <= self.allowed_ips.len(),
                self.allowed_ips.len() == other.allowed_ips.len(),
                self.endpoint == other.endpoint,
                forall|j: int| 0 <= j < i ==> self.allowed_ips@[j] == other.allowed_ips@[j],
            decreases self.allowed_ips.len() - i,
        {
            let a = self.allowed_ips[i];
            let b = other.allowed_ips[i];
            if a.0 != b.0 || a.1 != b.1 {
                return false;
            }
            i += 1;
        }
        assert(self.allowed_ips@ =~= other.allowed_ips@);
        true
    }
}

/// What the tunnel is told to do.
pub enum PeerOp {
    /// Forget a peer.
    Remove(PubKey),
    /// Take up a peer.
    Put(PeerConfig),
}

/// The model of what the tunnel is told to do.
pub enum OpView {
    Remove(Seq<u8>),
    Put(PeerView),
}

impl View for PeerOp {
    type V = OpView;

    open spec fn view(&self) -> OpView {
        match self {
            PeerOp::Remove(k) => OpView::Remove(k@),
            PeerOp::Put(p) => OpView::Put(p@),
        }
    }
}

/// The models of a list of operations.
pub open spec fn op_views(s: Seq<PeerOp>) -> Seq<OpView> {
    s.map_values(|x: PeerOp| x@)
}

/// The ways around the coordinator by which peers are reached: through a relay, through a negotiated
/// path, and on the local segment.
pub struct Endpoints<'a> {
    pub relay: &'a Assoc<PubKey, Endpoint>,
    pub ice: &'a Assoc<PubKey, Endpoint>,
    pub lan: &'a Assoc<PubKey, Endpoint>,
}

/// The model of the ways.
pub struct WaysView {
    pub relay: Map<Seq<u8>, Endpoint>,
    pub ice: Map<Seq<u8>, Endpoint>,
    pub lan: Map<Seq<u8>, Endpoint>,
}

impl<'a> View for Endpoints<'a> {
    type V = WaysView;

    open spec fn view(&self) -> WaysView {
        WaysView { relay: self.relay@, ice: self.ice@, lan: self.lan@ }
    }
}

impl<'a> Endpoints<'a> {
    /// The maps are well formed.
    pub open spec fn wf(&self) -> bool {
        self.relay.wf() && self.ice.wf() && self.lan.wf()
    }
}

/// What a map holds at a key.
pub open spec fn found(m: Map<Seq<u8>, Endpoint>, k: Seq<u8>) -> Option<Endpoint> {
    if m.contains_key(k) {
        Some(m[k])
    } else {
        None
    }
}

/// The first of two that is there.
pub open spec fn or(a: Option<Endpoint>, b: Option<Endpoint>) -> Option<Endpoint> {
    if a is Some {
        a
    } else {
        b
    }
}

/// How a peer is reached. A way on the local segment comes first: for two peers behind one router,
/// what the coordinator knows is a detour. Then where the peer can be dialled, then the negotiated
/// path, then the relay, and last the address to punch towards.
pub open spec fn way_to(s: mesh::SeedView, w: WaysView) -> Option<Endpoint> {
    or(
        found(w.lan, s.pubkey),
        or(s.endpoint, or(found(w.ice, s.pubkey), or(found(w.relay, s.pubkey), s.punch))),
    )
}

fn look(m: &Assoc<PubKey, Endpoint>, k: &PubKey) -> (r: Option<Endpoint>)
    requires
        m.wf(),
    ensures
        r == found(m@, k@),
{
    match m.get(k) {
        Some(e) => Some(*e),
        None => None,
    }
}

/// How a peer is reached.
pub fn choose_way(s: &SeedPeer, w: &Endpoints<'_>) -> (r: Option<Endpoint>)
    requires
        w.wf(),
    ensures
        r == way_to(s@, w@),
{
    if let Some(e) = look(w.lan, &s.pubkey) {
        return Some(e);
    }
    if let Some(e) = s.endpoint {
        return Some(e);
    }
    if let Some(e) = look(w.ice, &s.pubkey) {
        return Some(e);
    }
    if let Some(e) = look(w.relay, &s.pubkey) {
        return Some(e);
    }
    s.punch
}

/// Where a host's block stands, or would stand, in a sorted list, at or after `i`.
pub open spec fn block_place(s: Seq<(u32, u8)>, ip: u32, i: int) -> int
    decreases s.len() - i,
{
    if i >= s.len() {
        s.len() as int
    } else if ip <= s[i].0 {
        i
    } else {
        block_place(s, ip, i + 1)
    }
}

/// A sorted list of hosts with one more, unless it is there.
pub open spec fn with_host(s: Seq<(u32, u8)>, ip: u32) -> Seq<(u32, u8)> {
    let i = block_place(s, ip, 0);
    if 0 <= i < s.len() && s[i].0 == ip {
        s
    } else {
        s.insert(i, (ip, 32u8))
    }
}

fn insert_host(v: &mut Vec<(u32, u8)>, ip: u32)
    ensures
        final(v)@ == with_host(old(v)@, ip),
{
    let ghost s = v@;
    let mut i: usize = 0;
    while i < v.len() && ip > v[i].0
        invariant
            i <= v.len(),
            s == v@,
            block_place(s, ip, 0) == block_place(s, ip, i as int),
        decreases v.len() - i,
    {
        i += 1;
    }
    if i < v.len() && v[i].0 == ip {
        return;
    }
    v.insert(i, (ip, 32u8));
}

/// The first peer at or after `i` with a key, or the length.
pub open spec fn config_from(s: Seq<PeerView>, k: Seq<u8>, i: int) -> int
    decreases s.len() - i,
{
    if i >= s.len() {
        s.len() as int
    } else if s[i].public_key == k {
        i
    } else {
        config_from(s, k, i + 1)
    }
}

/// The peers with one more seed folded in: a peer that is there gains an address, and a way when it
/// had none.
pub open spec fn with_seed(s: Seq<PeerView>, seed: mesh::SeedView, way: Option<Endpoint>) -> Seq<
    PeerView,
> {
    let i = config_from(s, seed.pubkey, 0);
    if 0 <= i < s.len() {
        s.update(
            i,
            PeerView {
                allowed_ips: with_host(s[i].allowed_ips, seed.ip),
                endpoint: or(s[i].endpoint, way),
                ..s[i]
            },
        )
    } else {
        s.push(
            PeerView {
                public_key: seed.pubkey,
                allowed_ips: seq![(seed.ip, 32u8)],
                endpoint: way,
                keepalive: Some(KEEPALIVE),
            },
        )
    }
}

/// The peers that seeds ask for.
pub open spec fn desired(seeds: Seq<mesh::SeedView>, w: WaysView) -> Seq<PeerView>
    decreases seeds.len(),
{
    if seeds.len() == 0 {
        seq![]
    } else {
        with_seed(desired(seeds.drop_last(), w), seeds.last(), way_to(seeds.last(), w))
    }
}

/// What removes the peers that are not asked for any more.
pub open spec fn removals(peers: Seq<PeerView>, want: Seq<PeerView>) -> Seq<OpView>
    decreases peers.len(),
{
    if peers.len() == 0 {
        seq![]
    } else {
        let before = removals(peers.drop_last(), want);
        let k = peers.last().public_key;
        if config_from(want, k, 0) < want.len() {
            before
        } else {
            before.push(OpView::Remove(k))
        }
    }
}

/// What brings one peer to what is asked. A peer that is there is never changed in place: it is
/// removed, and put again.
pub open spec fn update_of(peers: Seq<PeerView>, p: PeerView) -> Seq<OpView> {
    let i = config_from(peers, p.public_key, 0);
    if !(0 <= i < peers.len()) {
        seq![OpView::Put(p)]
    } else if peers[i].allowed_ips == p.allowed_ips && peers[i].endpoint == p.endpoint {
        seq![]
    } else {
        seq![OpView::Remove(p.public_key), OpView::Put(p)]
    }
}

/// What brings the peers to what is asked.
pub open spec fn updates(peers: Seq<PeerView>, want: Seq<PeerView>) -> Seq<OpView>
    decreases want.len(),
{
    if want.len() == 0 {
        seq![]
    } else {
        updates(peers, want.drop_last()) + update_of(peers, want.last())
    }
}

fn find_config(peers: &Vec<PeerConfig>, k: &PubKey) -> (i: usize)
    ensures
        i == config_from(peer_views(peers@), k@, 0),
        i <= peers.len(),
{
    let ghost s = peer_views(peers@);
    let mut i: usize = 0;
    while i < peers.len() && !same_key(&peers[i].public_key, k)
        invariant
            i <= peers.len(),
            s == peer_views(peers@),
            config_from(s, k@, 0) == config_from(s, k@, i as int),
        decreases peers.len() - i,
    {
        assert(s[i as int] == peers@[i as int]@);
        i += 1;
    }
    if i < peers.len() {
        assert(s[i as int] == peers@[i as int]@);
    }
    i
}

fn fold_seeds(seeds: &Vec<SeedPeer>, w: &Endpoints<'_>) -> (r: Vec<PeerConfig>)
    requires
        w.wf(),
    ensures
        peer_views(r@) == desired(mesh::seed_views(seeds@), w@),
{
    let ghost all = mesh::seed_views(seeds@);
    let mut out: Vec<PeerConfig> = Vec::new();
    let mut i: usize = 0;
    assert(peer_views(out@) =~= desired(all.take(0), w@));
    while i < seeds.len()
        invariant
            i <= seeds.len(),
            w.wf(),
            all == mesh::seed_views(seeds@),
            peer_views(out@) == desired(all.take(i as int), w@),
        decreases seeds.len() - i,
    {
        assert(all.take(i + 1).drop_last() =~= all.take(i as int));
        assert(all[i as int] == seeds@[i as int]@);
        let s = &seeds[i];
        let way = choose_way(s, w);
        let ghost before = peer_views(out@);
        let k: usize = find_config(&out, &s.pubkey);
        if k < out.len() {
            assert(before[k as int] == out@[k as int]@);
            insert_host(&mut out[k].allowed_ips, s.ip);
            if out[k].endpoint.is_none() {
                out[k].endpoint = way;
            }
            assert(peer_views(out@) =~= with_seed(before, s@, way));
        } else {
            let mut ips: Vec<(u32, u8)> = Vec::new();
            ips.push((s.ip, 32u8));
            let p = PeerConfig {
                public_key: s.pubkey,
                allowed_ips: ips,
                endpoint: way,
                keepalive: Some(KEEPALIVE),
            };
            assert(p@.allowed_ips =~= seq![(s.ip, 32u8)]);
            let ghost pv = p@;
            out.push(p);
            assert(peer_views(out@) =~= before.push(pv));
        }
        i += 1;
    }
    assert(all.take(i as int) =~= all);
    out
}

fn push_op(ops: &mut Vec<PeerOp>, op: PeerOp)
    ensures
        op_views(final(ops)@) == op_views(old(ops)@).push(op@),
{
    let ghost before = op_views(ops@);
    let ghost v = op@;
    ops.push(op);
    assert(op_views(ops@) =~= before.push(v));
}

/// Brings the peers to what the seeds ask for, and says what the tunnel has to be told: first which
/// peers to forget, because they left or lost their role, and then which to take up. With nothing to
/// tell, nothing changed, and the routes stand as they are.
pub fn apply_seeds(seeds: &Vec<SeedPeer>, peers: &mut Vec<PeerConfig>, w: &Endpoints<'_>) -> (ops:
    Vec<PeerOp>)
    requires
        w.wf(),
    ensures
        peer_views(final(peers)@) == desired(mesh::seed_views(seeds@), w@),
        op_views(ops@) == removals(
            peer_views(old(peers)@),
            desired(mesh::seed_views(seeds@), w@),
        ) + updates(peer_views(old(peers)@), desired(mesh::seed_views(seeds@), w@)),
{
    let want = fold_seeds(seeds, w);
    let ghost have = peer_views(peers@);
    let ghost goal = peer_views(want@);
    let mut ops: Vec<PeerOp> = Vec::new();
    let mut i: usize = 0;
    assert(op_views(ops@) =~= removals(have.take(0), goal));
    while i < peers.len()
        invariant
            i <= peers.len(),
            have == peer_views(peers@),
            goal == peer_views(want@),
            op_views(ops@) == removals(have.take(i as int), goal),
        decreases peers.len() - i,
    {
        assert(have.take(i + 1).drop_last() =~= have.take(i as int));
        assert(have[i as int] == peers@[i as int]@);
        let k = peers[i].public_key;
        if find_config(&want, &k) >= want.len() {
            push_op(&mut ops, PeerOp::Remove(k));
        }
        i += 1;
    }
    assert(have.take(i as int) =~= have);
    let ghost gone = op_views(ops@);
    let mut j: usize = 0;
    assert(op_views(ops@) =~= gone + updates(have, goal.take(0)));
    while j < want.len()
        invariant
            j <= want.len(),
            have == peer_views(peers@),
            goal == peer_views(want@),
            op_views(ops@) == gone + updates(have, goal.take(j as int)),
        decreases want.len() - j,
    {
        assert(goal.take(j + 1).drop_last() =~= goal.take(j as int));
        assert(goal[j as int] == want@[j as int]@);
        let ghost before = op_views(ops@);
        let p = &want[j];
        let k: usize = find_config(peers, &p.public_key);
        if k >= peers.len() {
            push_op(&mut ops, PeerOp::Put(p.copy()));
        } else {
            assert(have[k as int] == peers@[k as int]@);
            if !peers[k].routed_like(p) {
                push_op(&mut ops, PeerOp::Remove(p.public_key));
                push_op(&mut ops, PeerOp::Put(p.copy()));
            }
        }
        assert(op_views(ops@) =~= before + update_of(have, p@));
        assert(op_views(ops@) =~= gone + updates(have, goal.take(j + 1)));
        j += 1;
    }
    assert(goal.take(j as int) =~= goal);
    *peers = want;
    ops
}

/// No two peers have the same key.
pub open spec fn distinct_configs(s: Seq<PeerView>) -> bool {
    forall|i: int, j: int|
        0 <= i < j < s.len() ==> (#[trigger] s[i]).public_key != (#[trigger] s[j]).public_key
}

proof fn lemma_config_from(s: Seq<PeerView>, k: Seq<u8>, i: int)
    requires
        0 <= i <= s.len(),
    ensures
        i <= config_from(s, k, i) <= s.len(),
        config_from(s, k, i) < s.len() ==> s[config_from(s, k, i)].public_key == k,
        forall|j: int| i <= j < config_from(s, k, i) ==> (#[trigger] s[j]).public_key != k,
    decreases s.len() - i,
{
    if i < s.len() && s[i].public_key != k {
        lemma_config_from(s, k, i + 1);
    }
}

proof fn lemma_desired_distinct(seeds: Seq<mesh::SeedView>, w: WaysView)
    ensures
        distinct_configs(desired(seeds, w)),
    decreases seeds.len(),
{
    if seeds.len() > 0 {
        let t = desired(seeds.drop_last(), w);
        let d = desired(seeds, w);
        let s = seeds.last();
        lemma_desired_distinct(seeds.drop_last(), w);
        lemma_config_from(t, s.pubkey, 0);
        assert forall|i: int, j: int| 0 <= i < j < d.len() implies (
        #[trigger] d[i]).public_key != (#[trigger] d[j]).public_key by {
            assert(d[i].public_key == t[i].public_key);
            if j < t.len() {
                assert(d[j].public_key == t[j].public_key);
            }
        }
    }
}

/// A tunnel peer is one peer: no key is taken up twice.
pub proof fn law_peers_are_distinct(seeds: Seq<mesh::SeedView>, w: WaysView)
    ensures
        distinct_configs(desired(seeds, w)),
{
    lemma_desired_distinct(seeds, w);
}

proof fn lemma_settled(want: Seq<PeerView>, n: int)
    requires
        distinct_configs(want),
        0 <= n <= want.len(),
    ensures
        removals(want.take(n), want) == Seq::<OpView>::empty(),
        updates(want, want.take(n)) == Seq::<OpView>::empty(),
    decreases n,
{
    if n > 0 {
        lemma_settled(want, n - 1);
        assert(want.take(n).drop_last() =~= want.take(n - 1));
        let k = want[n - 1].public_key;
        lemma_config_from(want, k, 0);
        let i = config_from(want, k, 0);
        if i < n - 1 {
            assert(want[i].public_key != want[n - 1].public_key);
        }
        assert(i == n - 1);
        assert(updates(want, want.take(n)) =~= Seq::<OpView>::empty());
    } else {
        assert(want.take(0) =~= seq![]);
    }
}

/// Seeds that ask for what is there tell the tunnel nothing: a refresh without news costs nothing.
pub proof fn law_unchanged_seeds_tell_nothing(seeds: Seq<mesh::SeedView>, w: WaysView)
    ensures
        removals(desired(seeds, w), desired(seeds, w)) + updates(
            desired(seeds, w),
            desired(seeds, w),
        ) == Seq::<OpView>::empty(),
{
    let want = desired(seeds, w);
    lemma_desired_distinct(seeds, w);
    lemma_settled(want, want.len() as int);
    assert(want.take(want.len() as int) =~= want);
}

proof fn lemma_removed(peers: Seq<PeerView>, want: Seq<PeerView>, i: int)
    requires
        0 <= i < peers.len(),
        config_from(want, peers[i].public_key, 0) >= want.len(),
    ensures
        removals(peers, want).contains(OpView::Remove(peers[i].public_key)),
    decreases peers.len(),
{
    let all = removals(peers, want);
    if i == peers.len() - 1 {
        assert(all[all.len() - 1] == OpView::Remove(peers[i].public_key));
    } else {
        let t = peers.drop_last();
        assert(t[i] == peers[i]);
        lemma_removed(t, want, i);
        let before = removals(t, want);
        let k = choose|k: int|
            0 <= k < before.len() && before[k] == OpView::Remove(peers[i].public_key);
        assert(all[k] == before[k]);
    }
}

proof fn lemma_desired_keys(seeds: Seq<mesh::SeedView>, w: WaysView, k: Seq<u8>)
    requires
        forall|j: int| 0 <= j < seeds.len() ==> (#[trigger] seeds[j]).pubkey != k,
    ensures
        config_from(desired(seeds, w), k, 0) == desired(seeds, w).len(),
    decreases seeds.len(),
{
    if seeds.len() > 0 {
        let t = seeds.drop_last();
        assert forall|j: int| 0 <= j < t.len() implies (#[trigger] t[j]).pubkey != k by {
            assert(t[j] == seeds[j]);
        }
        lemma_desired_keys(t, w, k);
        let before = desired(t, w);
        let d = desired(seeds, w);
        lemma_config_from(before, k, 0);
        lemma_config_from(before, seeds.last().pubkey, 0);
        lemma_config_from(d, k, 0);
        assert(seeds[seeds.len() - 1].pubkey != k);
        let c = config_from(d, k, 0);
        if c < d.len() {
            if c < before.len() {
                assert(d[c].public_key == before[c].public_key);
            }
        }
    }
}

/// A peer that is in no seed any more is forgotten: it left, or lost its role.
pub proof fn law_departed_peer_is_removed(
    peers: Seq<PeerView>,
    seeds: Seq<mesh::SeedView>,
    w: WaysView,
    i: int,
)
    requires
        0 <= i < peers.len(),
        forall|j: int| 0 <= j < seeds.len() ==> (#[trigger] seeds[j]).pubkey != peers[i].public_key,
    ensures
        removals(peers, desired(seeds, w)).contains(OpView::Remove(peers[i].public_key)),
{
    lemma_desired_keys(seeds, w, peers[i].public_key);
    lemma_removed(peers, desired(seeds, w), i);
}

/// A peer that the tunnel has is never changed in place: where it is put, it was removed just
/// before.
pub proof fn law_known_peer_is_removed_first(
    peers: Seq<PeerView>,
    want: Seq<PeerView>,
    i: int,
    p: PeerView,
)
    requires
        0 <= i < updates(peers, want).len(),
        updates(peers, want)[i] == OpView::Put(p),
        config_from(peers, p.public_key, 0) < peers.len(),
    ensures
        i > 0,
        updates(peers, want)[i - 1] == OpView::Remove(p.public_key),
    decreases want.len(),
{
    lemma_config_from(peers, p.public_key, 0);
    if want.len() > 0 {
        let before = updates(peers, want.drop_last());
        let all = updates(peers, want);
        if i < before.len() {
            assert(all[i] == before[i]);
            law_known_peer_is_removed_first(peers, want.drop_last(), i, p);
            assert(all[i - 1] == before[i - 1]);
        } else {
            let u = update_of(peers, want.last());
            lemma_config_from(peers, want.last().public_key, 0);
            assert(all[i] == u[i - before.len()]);
            assert(i - before.len() == 1);
            assert(all[i - 1] == u[0]);
        }
    }
}

/// A way on the local segment is taken before any other, and punching is the last resort.
pub proof fn law_order_of_ways(s: mesh::SeedView, w: WaysView)
    ensures
        w.lan.contains_key(s.pubkey) ==> way_to(s, w) == Some(w.lan[s.pubkey]),
        !w.lan.contains_key(s.pubkey) && s.endpoint is Some ==> way_to(s, w) == s.endpoint,
        !w.lan.contains_key(s.pubkey) && s.endpoint is None && w.ice.contains_key(s.pubkey)
            ==> way_to(s, w) == Some(w.ice[s.pubkey]),
        !w.lan.contains_key(s.pubkey) && s.endpoint is None && !w.ice.contains_key(s.pubkey)
            && w.relay.contains_key(s.pubkey) ==> way_to(s, w) == Some(w.relay[s.pubkey]),
        !w.lan.contains_key(s.pubkey) && s.endpoint is None && !w.ice.contains_key(s.pubkey)
            && !w.relay.contains_key(s.pubkey) ==> way_to(s, w) == s.punch,
{
}

/// A peer to have a relay session with, and the reservation it uses.
pub struct RelayPlan {
    pub peer: PubKey,
    pub info: RelayInfo,
}

/// The models of relay plans.
pub open spec fn relay_plans(s: Seq<RelayPlan>) -> Seq<(Seq<u8>, mesh::RelayView)> {
    s.map_values(|p: RelayPlan| (p.peer@, p.info@))
}

/// The relay sessions that seeds ask for: one for each that carries a reservation.
pub open spec fn relays_for(seeds: Seq<mesh::SeedView>) -> Seq<(Seq<u8>, mesh::RelayView)>
    decreases seeds.len(),
{
    if seeds.len() == 0 {
        seq![]
    } else {
        match seeds.last().relay {
            Some(r) => relays_for(seeds.drop_last()).push((seeds.last().pubkey, r)),
            None => relays_for(seeds.drop_last()),
        }
    }
}

/// The relay sessions that seeds ask for. A session with any other peer is to be dropped.
pub fn sync_relays(seeds: &Vec<SeedPeer>) -> (r: Vec<RelayPlan>)
    ensures
        relay_plans(r@) == relays_for(mesh::seed_views(seeds@)),
{
    let ghost all = mesh::seed_views(seeds@);
    let mut out: Vec<RelayPlan> = Vec::new();
    let mut i: usize = 0;
    assert(relay_plans(out@) =~= relays_for(all.take(0)));
    while i < seeds.len()
        invariant
            i <= seeds.len(),
            all == mesh::seed_views(seeds@),
            relay_plans(out@) == relays_for(all.take(i as int)),
        decreases seeds.len() - i,
    {
        assert(all.take(i + 1).drop_last() =~= all.take(i as int));
        assert(all[i as int] == seeds@[i as int]@);
        if let Some(r) = &seeds[i].relay {
            let ghost before = relay_plans(out@);
            let p = RelayPlan { peer: seeds[i].pubkey, info: r.copy() };
            let ghost pv = (p.peer@, p.info@);
            out.push(p);
            assert(relay_plans(out@) =~= before.push(pv));
        }
        i += 1;
    }
    assert(all.take(i as int) =~= all);
    out
}

/// How a path to a peer is negotiated.
pub struct IcePeerConfig {
    /// Whether this side leads. The lower key does, so that both sides agree and exactly one does.
    pub controlling: bool,
    /// Where to learn this side's own address, the best first.
    pub stun: Vec<Endpoint>,
    /// The relay to fall back on.
    pub turn: Option<RelayInfo>,
    /// The peer's offer, once it made one.
    pub remote: Option<IceParams>,
}

/// The model of a negotiation.
#[verifier::ext_equal]
pub struct IceConfigView {
    pub controlling: bool,
    pub stun: Seq<Endpoint>,
    pub turn: Option<mesh::RelayView>,
    pub remote: Option<mesh::IceView>,
}

impl View for IcePeerConfig {
    type V = IceConfigView;

    open spec fn view(&self) -> IceConfigView {
        IceConfigView {
            controlling: self.controlling,
            stun: self.stun@,
            turn: mesh::opt_relay_info(self.turn),
            remote: mesh::opt_ice_params(self.remote),
        }
    }
}

/// A peer to have a negotiated path to.
pub struct IcePlan {
    pub peer: PubKey,
    pub config: IcePeerConfig,
}

/// The models of plans for paths.
pub open spec fn ice_plans(s: Seq<IcePlan>) -> Seq<(Seq<u8>, IceConfigView)> {
    s.map_values(|p: IcePlan| (p.peer@, p.config@))
}

/// Whether one key is lower than another.
pub open spec fn lower(a: Seq<u8>, b: Seq<u8>) -> bool {
    !order::bytes_le(b, a)
}

/// How a path to a peer is negotiated. A relay answers address queries too, and is asked before the
/// coordinator.
pub open spec fn ice_config(
    s: mesh::SeedView,
    self_pk: Seq<u8>,
    coord_stun: Option<Endpoint>,
) -> IceConfigView {
    let relay = match s.relay {
        Some(r) => seq![r.turn_addr],
        None => seq![],
    };
    IceConfigView {
        controlling: lower(self_pk, s.pubkey),
        stun: match coord_stun {
            Some(c) => relay.push(c),
            None => relay,
        },
        turn: s.relay,
        remote: s.ice,
    }
}

/// The negotiated paths that seeds ask for: to each peer that is stuck, and to each with which a
/// session is under way. What is known of stuck peers is as old as the last refresh, and would else
/// tear a negotiation down in the middle.
pub open spec fn paths_for(
    seeds: Seq<mesh::SeedView>,
    self_pk: Seq<u8>,
    coord_stun: Option<Endpoint>,
    want: Seq<Seq<u8>>,
    sessions: Seq<Seq<u8>>,
) -> Seq<(Seq<u8>, IceConfigView)>
    decreases seeds.len(),
{
    if seeds.len() == 0 {
        seq![]
    } else {
        let before = paths_for(seeds.drop_last(), self_pk, coord_stun, want, sessions);
        let s = seeds.last();
        if want.contains(s.pubkey) || sessions.contains(s.pubkey) {
            before.push((s.pubkey, ice_config(s, self_pk, coord_stun)))
        } else {
            before
        }
    }
}

fn plan_path(s: &SeedPeer, self_pk: &PubKey, coord_stun: Option<Endpoint>) -> (r: IcePeerConfig)
    ensures
        r@ == ice_config(s@, self_pk@, coord_stun),
{
    let mut stun: Vec<Endpoint> = Vec::new();
    if let Some(r) = &s.relay {
        stun.push(r.turn_addr);
    }
    if let Some(c) = coord_stun {
        stun.push(c);
    }
    let r = IcePeerConfig {
        controlling: !order::bytes_leq(&s.pubkey, self_pk),
        stun,
        turn: copy_opt_relay_info(&s.relay),
        remote: copy_opt_ice_params(&s.ice),
    };
    assert(r@.stun =~= ice_config(s@, self_pk@, coord_stun).stun);
    r
}

/// The negotiated paths that seeds ask for. A session with any other peer is to be dropped.
pub fn sync_ice(
    seeds: &Vec<SeedPeer>,
    self_pk: &PubKey,
    coord_stun: Option<Endpoint>,
    want: &Vec<PubKey>,
    sessions: &Vec<PubKey>,
) -> (r: Vec<IcePlan>)
    ensures
        ice_plans(r@) == paths_for(
            mesh::seed_views(seeds@),
            self_pk@,
            coord_stun,
            mesh::keys_of(want@),
            mesh::keys_of(sessions@),
        ),
{
    let ghost all = mesh::seed_views(seeds@);
    let ghost ws = mesh::keys_of(want@);
    let ghost ss = mesh::keys_of(sessions@);
    let mut out: Vec<IcePlan> = Vec::new();
    let mut i: usize = 0;
    assert(ice_plans(out@) =~= paths_for(all.take(0), self_pk@, coord_stun, ws, ss));
    while i < seeds.len()
        invariant
            i <= seeds.len(),
            all == mesh::seed_views(seeds@),
            ws == mesh::keys_of(want@),
            ss == mesh::keys_of(sessions@),
            ice_plans(out@) == paths_for(all.take(i as int), self_pk@, coord_stun, ws, ss),
        decreases seeds.len() - i,
    {
        assert(all.take(i + 1).drop_last() =~= all.take(i as int));
        assert(all[i as int] == seeds@[i as int]@);
        let s = &seeds[i];
        if mesh::has_key(want, &s.pubkey) || mesh::has_key(sessions, &s.pubkey) {
            let ghost before = ice_plans(out@);
            let p = IcePlan { peer: s.pubkey, config: plan_path(s, self_pk, coord_stun) };
            let ghost pv = (p.peer@, p.config@);
            out.push(p);
            assert(ice_plans(out@) =~= before.push(pv));
        }
        i += 1;
    }
    assert(all.take(i as int) =~= all);
    out
}

/// Of two devices with different keys, exactly one leads the negotiation.
pub proof fn law_exactly_one_leads(a: Seq<u8>, b: Seq<u8>)
    requires
        a != b,
    ensures
        lower(a, b) != lower(b, a),
{
    order::lemma_lex_total(order::octets(a), order::octets(b));
    if order::bytes_le(a, b) && order::bytes_le(b, a) {
        order::lemma_bytes_antisym(a, b);
    }
}

/// What the peers of a tunnel come to when it does what it is told, step by step.
pub open spec fn carried_out(t: Map<Seq<u8>, PeerView>, ops: Seq<OpView>) -> Map<Seq<u8>, PeerView>
    decreases ops.len(),
{
    if ops.len() == 0 {
        t
    } else {
        let before = carried_out(t, ops.drop_last());
        match ops.last() {
            OpView::Remove(k) => before.remove(k),
            OpView::Put(p) => before.insert(p.public_key, p),
        }
    }
}

proof fn lemma_carried_on(t: Map<Seq<u8>, PeerView>, a: Seq<OpView>, b: Seq<OpView>)
    ensures
        carried_out(t, a + b) == carried_out(carried_out(t, a), b),
    decreases b.len(),
{
    if b.len() == 0 {
        assert(a + b =~= a);
    } else {
        lemma_carried_on(t, a, b.drop_last());
        assert((a + b).drop_last() =~= a + b.drop_last());
        assert((a + b).last() == b.last());
    }
}

proof fn lemma_configs(s: Seq<PeerView>, k: Seq<u8>)
    ensures
        config_from(s, k, 0) < s.len() <==> exists|i: int|
            0 <= i < s.len() && (#[trigger] s[i]).public_key == k,
{
    lemma_config_from(s, k, 0);
    if config_from(s, k, 0) < s.len() {
        assert(s[config_from(s, k, 0)].public_key == k);
    }
}

proof fn lemma_removals_carried(
    t: Map<Seq<u8>, PeerView>,
    peers: Seq<PeerView>,
    want: Seq<PeerView>,
    k: Seq<u8>,
)
    ensures
        ({
            let u = carried_out(t, removals(peers, want));
            let left = exists|i: int| 0 <= i < peers.len() && (#[trigger] peers[i]).public_key == k;
            let wanted = exists|i: int| 0 <= i < want.len() && (#[trigger] want[i]).public_key == k;
            &&& u.contains_key(k) <==> t.contains_key(k) && (wanted || !left)
            &&& u.contains_key(k) ==> u[k] == t[k]
        }),
    decreases peers.len(),
{
    if peers.len() > 0 {
        let p = peers.drop_last();
        lemma_removals_carried(t, p, want, k);
        let q = peers.last().public_key;
        let before = removals(p, want);
        lemma_configs(want, q);
        assert(peers[peers.len() - 1] == peers.last());
        if exists|i: int| 0 <= i < p.len() && (#[trigger] p[i]).public_key == k {
            let i = choose|i: int| 0 <= i < p.len() && (#[trigger] p[i]).public_key == k;
            assert(peers[i].public_key == k);
        }
        if exists|i: int| 0 <= i < peers.len() && (#[trigger] peers[i]).public_key == k {
            let i = choose|i: int| 0 <= i < peers.len() && (#[trigger] peers[i]).public_key == k;
            if i < p.len() {
                assert(p[i].public_key == k);
            }
        }
        assert(before.push(OpView::Remove(q)).drop_last() =~= before);
    }
}

proof fn lemma_updates_carried(
    t: Map<Seq<u8>, PeerView>,
    peers: Seq<PeerView>,
    want: Seq<PeerView>,
    k: Seq<u8>,
)
    requires
        distinct_configs(want),
        distinct_configs(peers),
        forall|i: int|
            0 <= i < peers.len() && config_from(want, (#[trigger] peers[i]).public_key, 0)
                < want.len() ==> t.contains_key(peers[i].public_key) && t[peers[i].public_key]
                == peers[i],
    ensures
        ({
            let u = carried_out(t, updates(peers, want));
            &&& (forall|i: int| 0 <= i < want.len() ==> (#[trigger] want[i]).public_key != k) ==> (
            u.contains_key(k) <==> t.contains_key(k)) && (u.contains_key(k) ==> u[k] == t[k])
            &&& forall|i: int|
                0 <= i < want.len() && (#[trigger] want[i]).public_key == k ==> u.contains_key(k) && (
                u[k] == want[i] || exists|j: int|
                    0 <= j < peers.len() && u[k] == #[trigger] peers[j] && peers[j].public_key == k
                        && peers[j].allowed_ips == want[i].allowed_ips && peers[j].endpoint
                        == want[i].endpoint)
        }),
    decreases want.len(),
{
    if want.len() > 0 {
        let w = want.drop_last();
        let p = want.last();
        assert(want[want.len() - 1] == p);
        assert forall|i: int, j: int| 0 <= i < j < w.len() implies (
        #[trigger] w[i]).public_key != (#[trigger] w[j]).public_key by {
            assert(want[i].public_key != want[j].public_key);
        }
        assert forall|i: int|
            0 <= i < peers.len() && config_from(w, (#[trigger] peers[i]).public_key, 0)
                < w.len() implies t.contains_key(peers[i].public_key) && t[peers[i].public_key]
            == peers[i] by {
            lemma_configs(w, peers[i].public_key);
            lemma_configs(want, peers[i].public_key);
            let j = choose|j: int|
                0 <= j < w.len() && (#[trigger] w[j]).public_key == peers[i].public_key;
            assert(want[j].public_key == peers[i].public_key);
        }
        lemma_updates_carried(t, peers, w, k);
        lemma_updates_carried(t, peers, w, p.public_key);
        let before = carried_out(t, updates(peers, w));
        let step = update_of(peers, p);
        lemma_carried_on(t, updates(peers, w), step);
        let u = carried_out(before, step);
        let c = config_from(peers, p.public_key, 0);
        lemma_config_from(peers, p.public_key, 0);
        reveal_with_fuel(carried_out, 3);
        assert forall|i: int| 0 <= i < w.len() implies (#[trigger] w[i]).public_key
            != p.public_key by {
            assert(want[i].public_key != want[want.len() - 1].public_key);
        }
        if c >= peers.len() {
            assert(step.drop_last() =~= seq![]);
            assert(u == before.insert(p.public_key, p));
        } else if peers[c].allowed_ips == p.allowed_ips && peers[c].endpoint == p.endpoint {
            assert(u == before);
            lemma_configs(want, p.public_key);
            assert(config_from(want, peers[c].public_key, 0) < want.len());
            assert(before.contains_key(p.public_key) && before[p.public_key] == peers[c]);
        } else {
            assert(step.drop_last() =~= seq![OpView::Remove(p.public_key)]);
            assert(step.drop_last().drop_last() =~= seq![]);
            assert(u == before.remove(p.public_key).insert(p.public_key, p));
        }
        if forall|i: int| 0 <= i < want.len() ==> (#[trigger] want[i]).public_key != k {
            assert(want[want.len() - 1].public_key != k);
            assert forall|i: int| 0 <= i < w.len() implies (#[trigger] w[i]).public_key != k by {
                assert(want[i].public_key != k);
            }
        }
        assert forall|i: int| 0 <= i < want.len() && (#[trigger] want[i]).public_key == k implies
            u.contains_key(k) && (u[k] == want[i] || exists|j: int|
            0 <= j < peers.len() && u[k] == #[trigger] peers[j] && peers[j].public_key == k
                && peers[j].allowed_ips == want[i].allowed_ips && peers[j].endpoint
                == want[i].endpoint) by {
            if i < w.len() {
                assert(w[i] == want[i]);
                assert(k != p.public_key);
                assert(u.contains_key(k) && u[k] == before[k]);
            } else {
                assert(want[i] == p);
            }
        }
    }
}

/// The tunnel that does what it is told has just the peers that are asked for: every one of them, with
/// the blocks and by the way that are asked, and no other. So a peer whose way or whose blocks are no
/// longer those that the tunnel has is put again.
pub proof fn law_tunnel_comes_to_what_is_asked(
    t: Map<Seq<u8>, PeerView>,
    peers: Seq<PeerView>,
    seeds: Seq<mesh::SeedView>,
    w: WaysView,
    k: Seq<u8>,
)
    requires
        distinct_configs(peers),
        forall|q: Seq<u8>| #[trigger]
            t.contains_key(q) <==> exists|i: int|
                0 <= i < peers.len() && (#[trigger] peers[i]).public_key == q,
        forall|i: int|
            0 <= i < peers.len() ==> t[(#[trigger] peers[i]).public_key] == peers[i],
    ensures
        ({
            let want = desired(seeds, w);
            let u = carried_out(t, removals(peers, want) + updates(peers, want));
            &&& u.contains_key(k) <==> exists|i: int|
                0 <= i < want.len() && (#[trigger] want[i]).public_key == k
            &&& forall|i: int|
                0 <= i < want.len() && (#[trigger] want[i]).public_key == k ==> {
                    &&& u[k].public_key == k
                    &&& u[k].allowed_ips == want[i].allowed_ips
                    &&& u[k].endpoint == want[i].endpoint
                    &&& (forall|j: int|
                        0 <= j < peers.len() ==> (#[trigger] peers[j]).keepalive == Some(
                            KEEPALIVE,
                        )) && want[i].keepalive == Some(KEEPALIVE) ==> u[k] == want[i]
                }
        }),
{
    let want = desired(seeds, w);
    let a = removals(peers, want);
    let b = updates(peers, want);
    let m = carried_out(t, a);
    lemma_desired_distinct(seeds, w);
    lemma_carried_on(t, a, b);
    lemma_removals_carried(t, peers, want, k);
    assert forall|i: int|
        0 <= i < peers.len() && config_from(want, (#[trigger] peers[i]).public_key, 0)
            < want.len() implies m.contains_key(peers[i].public_key) && m[peers[i].public_key]
        == peers[i] by {
        lemma_configs(want, peers[i].public_key);
        assert(t.contains_key(peers[i].public_key));
        lemma_removals_carried(t, peers, want, peers[i].public_key);
    }
    lemma_updates_carried(m, peers, want, k);
    let u = carried_out(m, b);
    if exists|i: int| 0 <= i < want.len() && (#[trigger] want[i]).public_key == k {
        let i = choose|i: int| 0 <= i < want.len() && (#[trigger] want[i]).public_key == k;
        assert(u.contains_key(k));
    } else {
        assert(u.contains_key(k) <==> m.contains_key(k));
        if m.contains_key(k) {
            assert(t.contains_key(k));
        }
    }
}

/// Whether hosts stand in ascending order, each once.
pub open spec fn ascending_hosts(s: Seq<(u32, u8)>) -> bool {
    &&& forall|i: int, j: int| 0 <= i < j < s.len() ==> (#[trigger] s[i]).0 < (#[trigger] s[j]).0
    &&& forall|i: int| 0 <= i < s.len() ==> (#[trigger] s[i]).1 == 32
}

proof fn lemma_block_place(s: Seq<(u32, u8)>, ip: u32, i: int)
    requires
        0 <= i <= s.len(),
        forall|j: int| 0 <= j < i ==> (#[trigger] s[j]).0 < ip,
    ensures
        i <= block_place(s, ip, i) <= s.len(),
        forall|j: int| 0 <= j < block_place(s, ip, i) ==> (#[trigger] s[j]).0 < ip,
        block_place(s, ip, i) < s.len() ==> ip <= s[block_place(s, ip, i)].0,
    decreases s.len() - i,
{
    if i < s.len() && ip > s[i].0 {
        lemma_block_place(s, ip, i + 1);
    }
}

proof fn lemma_with_host(s: Seq<(u32, u8)>, ip: u32, a: u32)
    requires
        ascending_hosts(s),
    ensures
        ascending_hosts(with_host(s, ip)),
        with_host(s, ip).contains((a, 32u8)) <==> s.contains((a, 32u8)) || a == ip,
{
    let r = with_host(s, ip);
    let p = block_place(s, ip, 0);
    lemma_block_place(s, ip, 0);
    if p < s.len() && s[p].0 == ip {
        assert(s[p] == (ip, 32u8));
    } else {
        assert(r == s.insert(p, (ip, 32u8)));
        assert(r[p] == (ip, 32u8));
        assert forall|i: int, j: int| 0 <= i < j < r.len() implies (#[trigger] r[i]).0 < (
        #[trigger] r[j]).0 by {
            let i2 = if i < p {
                i
            } else {
                i - 1
            };
            let j2 = if j < p {
                j
            } else {
                j - 1
            };
            if i != p {
                assert(r[i] == s[i2]);
            }
            if j != p {
                assert(r[j] == s[j2]);
            }
            if i != p && j != p {
                assert(s[i2].0 < s[j2].0);
            } else if i == p && j2 > p {
                assert(s[p].0 < s[j2].0);
            }
        }
        assert forall|i: int| 0 <= i < r.len() implies (#[trigger] r[i]).1 == 32 by {
            if i < p {
                assert(r[i] == s[i]);
            } else if i > p {
                assert(r[i] == s[i - 1]);
            }
        }
        if s.contains((a, 32u8)) {
            let i = choose|i: int| 0 <= i < s.len() && s[i] == (a, 32u8);
            if i < p {
                assert(r[i] == s[i]);
            } else {
                assert(r[i + 1] == s[i]);
            }
        }
        if r.contains((a, 32u8)) && a != ip {
            let i = choose|i: int| 0 <= i < r.len() && r[i] == (a, 32u8);
            if i < p {
                assert(s[i] == r[i]);
            } else {
                assert(s[i - 1] == r[i]);
            }
        }
    }
}

/// The way to a key that the first of its seeds with one gives.
spec fn first_way(seeds: Seq<mesh::SeedView>, w: WaysView, k: Seq<u8>) -> Option<Endpoint>
    decreases seeds.len(),
{
    if seeds.len() == 0 {
        None
    } else {
        or(
            first_way(seeds.drop_last(), w, k),
            if seeds.last().pubkey == k {
                way_to(seeds.last(), w)
            } else {
                None
            },
        )
    }
}

proof fn lemma_first_way(seeds: Seq<mesh::SeedView>, w: WaysView, k: Seq<u8>)
    ensures
        match first_way(seeds, w, k) {
            Some(e) => exists|i: int|
                0 <= i < seeds.len() && (#[trigger] seeds[i]).pubkey == k && way_to(seeds[i], w)
                    == Some(e) && forall|j: int|
                    0 <= j < i && (#[trigger] seeds[j]).pubkey == k ==> way_to(seeds[j], w) is None,
            None => forall|i: int|
                0 <= i < seeds.len() && (#[trigger] seeds[i]).pubkey == k ==> way_to(
                    seeds[i],
                    w,
                ) is None,
        },
    decreases seeds.len(),
{
    if seeds.len() > 0 {
        let t = seeds.drop_last();
        lemma_first_way(t, w, k);
        match first_way(t, w, k) {
            Some(e) => {
                let i = choose|i: int|
                    0 <= i < t.len() && (#[trigger] t[i]).pubkey == k && way_to(t[i], w) == Some(e)
                        && forall|j: int|
                        0 <= j < i && (#[trigger] t[j]).pubkey == k ==> way_to(t[j], w) is None;
                assert(seeds[i].pubkey == k);
                assert forall|j: int| 0 <= j < i && (#[trigger] seeds[j]).pubkey == k implies way_to(
                    seeds[j],
                    w,
                ) is None by {
                    assert(t[j] == seeds[j]);
                }
            },
            None => {
                let n = seeds.len() - 1;
                assert forall|j: int| 0 <= j < n && (#[trigger] seeds[j]).pubkey == k implies way_to(
                    seeds[j],
                    w,
                ) is None by {
                    assert(t[j] == seeds[j]);
                }
                assert(seeds[n] == seeds.last());
            },
        }
    }
}

/// Whether some seed of a key has an address.
spec fn has_address(seeds: Seq<mesh::SeedView>, k: Seq<u8>, ip: u32) -> bool {
    exists|j: int| 0 <= j < seeds.len() && (#[trigger] seeds[j]).pubkey == k && seeds[j].ip == ip
}

proof fn lemma_has_address(seeds: Seq<mesh::SeedView>, k: Seq<u8>, ip: u32)
    requires
        seeds.len() > 0,
    ensures
        has_address(seeds, k, ip) <==> has_address(seeds.drop_last(), k, ip) || (seeds.last().pubkey
            == k && seeds.last().ip == ip),
{
    let t = seeds.drop_last();
    assert(seeds[seeds.len() - 1] == seeds.last());
    if has_address(t, k, ip) {
        let j = choose|j: int| 0 <= j < t.len() && (#[trigger] t[j]).pubkey == k && t[j].ip == ip;
        assert(seeds[j].pubkey == k);
    }
    if has_address(seeds, k, ip) {
        let j = choose|j: int|
            0 <= j < seeds.len() && (#[trigger] seeds[j]).pubkey == k && seeds[j].ip == ip;
        if j < t.len() {
            assert(t[j].pubkey == k);
        }
    }
}

proof fn lemma_desired(seeds: Seq<mesh::SeedView>, w: WaysView, c: int)
    requires
        0 <= c < desired(seeds, w).len(),
    ensures
        ({
            let d = desired(seeds, w)[c];
            &&& d.keepalive == Some(KEEPALIVE)
            &&& d.endpoint == first_way(seeds, w, d.public_key)
            &&& ascending_hosts(d.allowed_ips)
            &&& forall|a: u32| #[trigger]
                d.allowed_ips.contains((a, 32u8)) <==> has_address(seeds, d.public_key, a)
        }),
    decreases seeds.len(),
{
    if seeds.len() > 0 {
        let t = seeds.drop_last();
        let s = seeds.last();
        let before = desired(t, w);
        let all = desired(seeds, w);
        let d = all[c];
        lemma_desired_distinct(seeds, w);
        lemma_config_from(before, s.pubkey, 0);
        let i = config_from(before, s.pubkey, 0);
        if c < before.len() {
            lemma_desired(t, w, c);
            let b = before[c];
            if c == i {
                lemma_with_host(b.allowed_ips, s.ip, 0);
                assert forall|a: u32| #[trigger]
                    d.allowed_ips.contains((a, 32u8)) <==> has_address(seeds, d.public_key, a) by {
                    lemma_with_host(b.allowed_ips, s.ip, a);
                    lemma_has_address(seeds, s.pubkey, a);
                    assert(b.allowed_ips.contains((a, 32u8)) <==> has_address(t, s.pubkey, a));
                }
            } else {
                assert(d == b);
                if i >= before.len() {
                    assert(b.public_key != s.pubkey);
                } else {
                    assert(all[i].public_key == s.pubkey);
                    if i < c {
                        assert(all[i].public_key != all[c].public_key);
                    } else {
                        assert(all[c].public_key != all[i].public_key);
                    }
                }
                assert forall|a: u32| #[trigger]
                    d.allowed_ips.contains((a, 32u8)) <==> has_address(seeds, d.public_key, a) by {
                    lemma_has_address(seeds, d.public_key, a);
                    assert(b.allowed_ips.contains((a, 32u8)) <==> has_address(t, b.public_key, a));
                }
            }
        } else {
            assert(d.public_key == s.pubkey);
            assert forall|j: int| 0 <= j < t.len() implies (#[trigger] t[j]).pubkey != s.pubkey by {
                lemma_asked_for(t, w, j);
            }
            lemma_first_way(t, w, s.pubkey);
            assert forall|a: u32| #[trigger]
                d.allowed_ips.contains((a, 32u8)) <==> has_address(seeds, d.public_key, a) by {
                lemma_has_address(seeds, s.pubkey, a);
                assert(d.allowed_ips[0] == (s.ip, 32u8));
            }
        }
    }
}

proof fn lemma_asked_for(seeds: Seq<mesh::SeedView>, w: WaysView, i: int)
    requires
        0 <= i < seeds.len(),
    ensures
        config_from(desired(seeds, w), seeds[i].pubkey, 0) < desired(seeds, w).len(),
    decreases seeds.len(),
{
    let t = seeds.drop_last();
    let before = desired(t, w);
    let all = desired(seeds, w);
    let k = seeds[i].pubkey;
    lemma_config_from(before, seeds.last().pubkey, 0);
    lemma_configs(all, k);
    if i < t.len() {
        assert(t[i] == seeds[i]);
        lemma_asked_for(t, w, i);
        lemma_config_from(before, k, 0);
        assert(all[config_from(before, k, 0)].public_key == k);
    } else {
        assert(all[config_from(before, k, 0)].public_key == k);
    }
}

/// Seeds ask for a peer with each key among them.
pub proof fn law_every_seed_asks_for_its_peer(seeds: Seq<mesh::SeedView>, w: WaysView, i: int)
    requires
        0 <= i < seeds.len(),
    ensures
        exists|c: int|
            0 <= c < desired(seeds, w).len() && (#[trigger] desired(seeds, w)[c]).public_key
                == seeds[i].pubkey,
{
    lemma_asked_for(seeds, w, i);
    lemma_configs(desired(seeds, w), seeds[i].pubkey);
}

/// A peer that seeds ask for is that of one of them, and is kept alive. Routed to it are the addresses of
/// its seeds, each by itself, in ascending order, and nothing else.
pub proof fn law_peer_has_the_addresses_of_its_seeds(
    seeds: Seq<mesh::SeedView>,
    w: WaysView,
    c: int,
    b: (u32, u8),
)
    requires
        0 <= c < desired(seeds, w).len(),
    ensures
        ({
            let d = desired(seeds, w)[c];
            &&& d.keepalive == Some(25u16)
            &&& exists|i: int| 0 <= i < seeds.len() && (#[trigger] seeds[i]).pubkey == d.public_key
            &&& d.allowed_ips.contains(b) <==> b.1 == 32 && exists|i: int|
                0 <= i < seeds.len() && (#[trigger] seeds[i]).pubkey == d.public_key && seeds[i].ip
                    == b.0
            &&& forall|i: int, j: int|
                0 <= i < j < d.allowed_ips.len() ==> (#[trigger] d.allowed_ips[i]).0 < (
                #[trigger] d.allowed_ips[j]).0
        }),
{
    let want = desired(seeds, w);
    let d = want[c];
    let k = d.public_key;
    lemma_desired(seeds, w, c);
    if forall|i: int| 0 <= i < seeds.len() ==> (#[trigger] seeds[i]).pubkey != k {
        lemma_desired_keys(seeds, w, k);
        lemma_configs(want, k);
    }
    if d.allowed_ips.contains(b) {
        let j = choose|j: int| 0 <= j < d.allowed_ips.len() && d.allowed_ips[j] == b;
        assert(d.allowed_ips[j].1 == 32);
    }
    if b.1 == 32 {
        assert(b == (b.0, 32u8));
        assert(d.allowed_ips.contains((b.0, 32u8)) <==> has_address(seeds, k, b.0));
    }
}

/// A peer that seeds ask for is reached by the way that the first of its seeds with a way has, and by none
/// where none of them has one.
pub proof fn law_peer_is_reached_by_the_first_way(
    seeds: Seq<mesh::SeedView>,
    w: WaysView,
    c: int,
    i: int,
)
    requires
        0 <= c < desired(seeds, w).len(),
    ensures
        ({
            let d = desired(seeds, w)[c];
            &&& 0 <= i < seeds.len() && seeds[i].pubkey == d.public_key && way_to(
                seeds[i],
                w,
            ) is Some && (forall|j: int|
                0 <= j < i && (#[trigger] seeds[j]).pubkey == d.public_key ==> way_to(
                    seeds[j],
                    w,
                ) is None) ==> d.endpoint == way_to(seeds[i], w)
            &&& (forall|j: int|
                0 <= j < seeds.len() && (#[trigger] seeds[j]).pubkey == d.public_key ==> way_to(
                    seeds[j],
                    w,
                ) is None) ==> d.endpoint is None
        }),
{
    let k = desired(seeds, w)[c].public_key;
    lemma_desired(seeds, w, c);
    lemma_first_way(seeds, w, k);
    match first_way(seeds, w, k) {
        Some(e) => {
            let m = choose|m: int|
                0 <= m < seeds.len() && (#[trigger] seeds[m]).pubkey == k && way_to(seeds[m], w)
                    == Some(e) && forall|j: int|
                    0 <= j < m && (#[trigger] seeds[j]).pubkey == k ==> way_to(seeds[j], w) is None;
            if 0 <= i < seeds.len() && i < m {
                assert(seeds[i].pubkey == k ==> way_to(seeds[i], w) is None);
            }
            if m < i {
                assert(seeds[m].pubkey == k);
            }
        },
        None => {},
    }
}

/// Relay sessions are asked for peer by peer, in order: one with each peer that has a reservation, over
/// that reservation, and none with any other.
pub proof fn law_a_session_for_each_reservation(
    a: Seq<mesh::SeedView>,
    b: Seq<mesh::SeedView>,
    s: mesh::SeedView,
)
    ensures
        relays_for(a + b) == relays_for(a) + relays_for(b),
        s.relay matches Some(r) ==> relays_for(seq![s]) == seq![(s.pubkey, r)],
        s.relay is None ==> relays_for(seq![s]).len() == 0,
    decreases b.len(),
{
    assert(seq![s].drop_last() =~= seq![]);
    assert(relays_for(seq![]) =~= seq![]);
    if let Some(r) = s.relay {
        assert(relays_for(seq![s]) =~= seq![(s.pubkey, r)]);
    }
    if b.len() == 0 {
        assert(a + b =~= a);
        assert(relays_for(a) + relays_for(b) =~= relays_for(a));
    } else {
        law_a_session_for_each_reservation(a, b.drop_last(), s);
        assert((a + b).drop_last() =~= a + b.drop_last());
        assert((a + b).last() == b.last());
        assert(relays_for(a + b) =~= relays_for(a) + relays_for(b));
    }
}

/// Paths are negotiated peer by peer, in order: with each peer that is stuck or has a session, and with
/// no other. The lower key leads; a relay is asked for this side's address before the coordinator; and
/// the peer's own reservation and offer are what is used.
pub proof fn law_a_path_to_each_that_needs_one(
    a: Seq<mesh::SeedView>,
    b: Seq<mesh::SeedView>,
    s: mesh::SeedView,
    me: Seq<u8>,
    stun: Option<Endpoint>,
    want: Seq<Seq<u8>>,
    sessions: Seq<Seq<u8>>,
)
    ensures
        paths_for(a + b, me, stun, want, sessions) == paths_for(a, me, stun, want, sessions)
            + paths_for(b, me, stun, want, sessions),
        ({
            let r = paths_for(seq![s], me, stun, want, sessions);
            if want.contains(s.pubkey) || sessions.contains(s.pubkey) {
                &&& r.len() == 1
                &&& r[0].0 == s.pubkey
                &&& r[0].1.controlling <==> order::bytes_le(me, s.pubkey) && me != s.pubkey
                &&& r[0].1.turn == s.relay
                &&& r[0].1.remote == s.ice
                &&& r[0].1.stun == match (s.relay, stun) {
                    (Some(x), Some(c)) => seq![x.turn_addr, c],
                    (Some(x), None) => seq![x.turn_addr],
                    (None, Some(c)) => seq![c],
                    (None, None) => seq![],
                }
            } else {
                r.len() == 0
            }
        }),
    decreases b.len(),
{
    assert(seq![s].drop_last() =~= seq![]);
    assert(paths_for(seq![], me, stun, want, sessions) =~= seq![]);
    let r = paths_for(seq![s], me, stun, want, sessions);
    order::lemma_lex_total(order::octets(me), order::octets(s.pubkey));
    if order::bytes_le(me, s.pubkey) && order::bytes_le(s.pubkey, me) {
        order::lemma_bytes_antisym(me, s.pubkey);
    }
    if want.contains(s.pubkey) || sessions.contains(s.pubkey) {
        assert(r[0].1.stun =~= match (s.relay, stun) {
            (Some(x), Some(c)) => seq![x.turn_addr, c],
            (Some(x), None) => seq![x.turn_addr],
            (None, Some(c)) => seq![c],
            (None, None) => seq![],
        });
    }
    if b.len() == 0 {
        assert(a + b =~= a);
        assert(paths_for(a, me, stun, want, sessions) + paths_for(b, me, stun, want, sessions)
            =~= paths_for(a, me, stun, want, sessions));
    } else {
        law_a_path_to_each_that_needs_one(a, b.drop_last(), s, me, stun, want, sessions);
        assert((a + b).drop_last() =~= a + b.drop_last());
        assert((a + b).last() == b.last());
        assert(paths_for(a + b, me, stun, want, sessions) =~= paths_for(a, me, stun, want, sessions)
            + paths_for(b, me, stun, want, sessions));
    }
}

} // verus!
