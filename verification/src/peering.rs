//! Which peers a device meshes with, and what the firewall is told of them.
use crate::assoc::Assoc;
use crate::fw::{self, NetInfo, PeerSets};
use crate::mesh::{self, NetworkStatus, SeedPeer, SharedNetwork};
use crate::netcfg::NetId;
use crate::text;
use vstd::prelude::*;
use vstd::string::*;

verus! {

/// The network that a name stands for among those of this device: the last so named.
pub open spec fn id_of_name(nets: Seq<mesh::NetworkView>, name: Seq<char>) -> Option<NetId>
    decreases nets.len(),
{
    if nets.len() == 0 {
        None
    } else if nets.last().name == name {
        Some((nets.last().guild_id, nets.last().role_id))
    } else {
        id_of_name(nets.drop_last(), name)
    }
}

/// Whether a shared network is one that this device has not disabled. One that it does not know
/// counts as enabled.
pub open spec fn is_enabled(
    n: mesh::SharedView,
    disabled: Set<NetId>,
    nets: Seq<mesh::NetworkView>,
) -> bool {
    match id_of_name(nets, n.name) {
        Some(id) => !disabled.contains(id),
        None => true,
    }
}

/// Whether a peer is meshed with: its owner is not blocked, and it shares an enabled network. A peer
/// with no shared network at all is kept.
pub open spec fn is_active(
    s: mesh::SeedView,
    disabled: Set<NetId>,
    blocked: Set<u64>,
    nets: Seq<mesh::NetworkView>,
) -> bool {
    !blocked.contains(s.user_id) && (s.networks.len() == 0 || exists|i: int|
        0 <= i < s.networks.len() && is_enabled(#[trigger] s.networks[i], disabled, nets))
}

/// The peers to mesh with.
pub open spec fn active_of(
    seeds: Seq<mesh::SeedView>,
    disabled: Set<NetId>,
    blocked: Set<u64>,
    nets: Seq<mesh::NetworkView>,
) -> Seq<mesh::SeedView> {
    seeds.filter(|s: mesh::SeedView| is_active(s, disabled, blocked, nets))
}

fn find_net(nets: &Vec<NetworkStatus>, name: &String) -> (r: Option<NetId>)
    ensures
        r == id_of_name(mesh::network_status_views(nets@), name@),
{
    let ghost all = mesh::network_status_views(nets@);
    let mut i: usize = nets.len();
    assert(all.take(i as int) =~= all);
    while i > 0
        invariant
            i <= nets.len(),
            all == mesh::network_status_views(nets@),
            id_of_name(all, name@) == id_of_name(all.take(i as int), name@),
        decreases i,
    {
        assert(all.take(i as int).drop_last() =~= all.take(i - 1));
        assert(all[i - 1] == nets@[i - 1]@);
        i -= 1;
        if nets[i].name == *name {
            return Some((nets[i].guild_id, nets[i].role_id));
        }
    }
    None
}

fn shares_enabled(
    networks: &Vec<SharedNetwork>,
    disabled: &Assoc<NetId, ()>,
    nets: &Vec<NetworkStatus>,
) -> (r: bool)
    requires
        disabled.wf(),
    ensures
        r == (exists|i: int|
            0 <= i < networks.len() && is_enabled(
                #[trigger] mesh::shared_network_views(networks@)[i],
                disabled@.dom(),
                mesh::network_status_views(nets@),
            )),
{
    let ghost ns = mesh::shared_network_views(networks@);
    let ghost known = mesh::network_status_views(nets@);
    let mut i: usize = 0;
    while i < networks.len()
        invariant
            i <= networks.len(),
            disabled.wf(),
            ns == mesh::shared_network_views(networks@),
            known == mesh::network_status_views(nets@),
            forall|j: int| 0 <= j < i ==> !is_enabled(#[trigger] ns[j], disabled@.dom(), known),
        decreases networks.len() - i,
    {
        assert(ns[i as int] == networks@[i as int]@);
        let on = match find_net(nets, &networks[i].name) {
            Some(id) => !disabled.contains(&id),
            None => true,
        };
        assert(on == is_enabled(ns[i as int], disabled@.dom(), known));
        if on {
            return true;
        }
        i += 1;
    }
    false
}

/// The peers to mesh with: those that share a network which is not disabled, and whose owner is not
/// blocked. A block outranks any shared network.
pub fn filter_active(
    seeds: &Vec<SeedPeer>,
    disabled: &Assoc<NetId, ()>,
    blocked: &Assoc<u64, String>,
    networks_status: &Vec<NetworkStatus>,
) -> (r: Vec<SeedPeer>)
    requires
        disabled.wf(),
        blocked.wf(),
    ensures
        mesh::seed_views(r@) == active_of(
            mesh::seed_views(seeds@),
            disabled@.dom(),
            blocked@.dom(),
            mesh::network_status_views(networks_status@),
        ),
{
    let ghost all = mesh::seed_views(seeds@);
    let ghost known = mesh::network_status_views(networks_status@);
    let ghost p = |s: mesh::SeedView| is_active(s, disabled@.dom(), blocked@.dom(), known);
    let mut out: Vec<SeedPeer> = Vec::new();
    let mut i: usize = 0;
    proof {
        reveal(Seq::filter);
        assert(mesh::seed_views(out@) =~= all.take(0).filter(p));
    }
    while i < seeds.len()
        invariant
            i <= seeds.len(),
            disabled.wf(),
            blocked.wf(),
            all == mesh::seed_views(seeds@),
            known == mesh::network_status_views(networks_status@),
            p == (|s: mesh::SeedView| is_active(s, disabled@.dom(), blocked@.dom(), known)),
            mesh::seed_views(out@) == all.take(i as int).filter(p),
        decreases seeds.len() - i,
    {
        proof {
            reveal(Seq::filter);
            assert(all.take(i + 1).drop_last() =~= all.take(i as int));
            assert(all[i as int] == seeds@[i as int]@);
        }
        let s = &seeds[i];
        let on = !blocked.contains(&s.user_id) && (s.networks.len() == 0 || shares_enabled(
            &s.networks,
            disabled,
            networks_status,
        ));
        assert(on == p(s@));
        if on {
            let ghost before = mesh::seed_views(out@);
            out.push(s.copy());
            assert(mesh::seed_views(out@) =~= before.push(s@));
        }
        i += 1;
    }
    assert(all.take(i as int) =~= all);
    assert(p =~= (|s: mesh::SeedView|
        is_active(
            s,
            disabled@.dom(),
            blocked@.dom(),
            mesh::network_status_views(networks_status@),
        )));
    out
}

/// A blocked owner's devices are never meshed with, whatever networks they share.
pub proof fn law_block_outranks_networks(
    seeds: Seq<mesh::SeedView>,
    disabled: Set<NetId>,
    blocked: Set<u64>,
    nets: Seq<mesh::NetworkView>,
    i: int,
)
    requires
        0 <= i < active_of(seeds, disabled, blocked, nets).len(),
    ensures
        !blocked.contains(active_of(seeds, disabled, blocked, nets)[i].user_id),
{
    let p = |s: mesh::SeedView| is_active(s, disabled, blocked, nets);
    lemma_filter_holds(seeds, p, i);
}

proof fn lemma_filter_holds<A>(s: Seq<A>, p: spec_fn(A) -> bool, i: int)
    requires
        0 <= i < s.filter(p).len(),
    ensures
        p(s.filter(p)[i]),
    decreases s.len(),
{
    reveal(Seq::filter);
    if s.len() > 0 {
        if i < s.drop_last().filter(p).len() {
            lemma_filter_holds(s.drop_last(), p, i);
        }
    }
}

/// Where a number stands, or would stand, in an ascending list, at or after `i`.
pub open spec fn rank(s: Seq<u32>, x: u32, i: int) -> int
    decreases s.len() - i,
{
    if i >= s.len() {
        s.len() as int
    } else if x <= s[i] {
        i
    } else {
        rank(s, x, i + 1)
    }
}

/// An ascending list with one more number.
pub open spec fn with_number(s: Seq<u32>, x: u32) -> Seq<u32> {
    s.insert(rank(s, x, 0), x)
}

fn insert_number(v: &mut Vec<u32>, x: u32)
    ensures
        final(v)@ == with_number(old(v)@, x),
{
    let ghost s = v@;
    let mut i: usize = 0;
    while i < v.len() && x > v[i]
        invariant
            i <= v.len(),
            s == v@,
            rank(s, x, 0) == rank(s, x, i as int),
        decreases v.len() - i,
    {
        i += 1;
    }
    v.insert(i, x);
}

/// Whether one network's ids come before another's.
pub open spec fn id_before(a: NetId, b: NetId) -> bool {
    a.0 < b.0 || (a.0 == b.0 && a.1 < b.1)
}

/// A network's ids.
pub open spec fn id_of(n: fw::NetView) -> NetId {
    (n.guild_id, n.role_id)
}

/// Where a network stands, or would stand, in a list that is sorted by ids, at or after `i`.
pub open spec fn net_place(nets: Seq<fw::NetView>, id: NetId, i: int) -> int
    decreases nets.len() - i,
{
    if i >= nets.len() {
        nets.len() as int
    } else if id_before(id_of(nets[i]), id) {
        net_place(nets, id, i + 1)
    } else {
        i
    }
}

/// The networks with one more member of one of them. A network that was not listed gets its labels
/// from the peer that brings it.
pub open spec fn with_member(nets: Seq<fw::NetView>, n: mesh::SharedView, ip: u32) -> Seq<
    fw::NetView,
> {
    let id = (n.guild_id, n.role_id);
    let i = net_place(nets, id, 0);
    if 0 <= i < nets.len() && id_of(nets[i]) == id {
        nets.update(i, fw::NetView { ips: with_number(nets[i].ips, ip), ..nets[i] })
    } else {
        nets.insert(
            i,
            fw::NetView {
                guild_id: n.guild_id,
                role_id: n.role_id,
                guild: n.community,
                name: n.name,
                ips: seq![ip],
            },
        )
    }
}

/// The networks with a peer in each of those that it shares. A network without ids has none to be
/// known by, and is left out.
pub open spec fn with_networks(
    nets: Seq<fw::NetView>,
    shared: Seq<mesh::SharedView>,
    ip: u32,
) -> Seq<fw::NetView>
    decreases shared.len(),
{
    if shared.len() == 0 {
        nets
    } else {
        let before = with_networks(nets, shared.drop_last(), ip);
        let n = shared.last();
        if mesh::net_id(n.guild_id, n.role_id) is Some {
            with_member(before, n, ip)
        } else {
            before
        }
    }
}

/// The firewall's view of the mesh with one more peer.
pub open spec fn with_peer(sets: fw::PeersView, s: mesh::SeedView, owner: Option<u64>) -> fw::PeersView {
    fw::PeersView {
        nets: with_networks(sets.nets, s.networks, s.ip),
        own_devices: if owner == Some(s.user_id) {
            with_number(sets.own_devices, s.ip)
        } else {
            sets.own_devices
        },
    }
}

/// The firewall's view of the mesh: each network with its members, and the owner's other devices,
/// all in ascending order.
pub open spec fn sets_of(seeds: Seq<mesh::SeedView>, owner: Option<u64>) -> fw::PeersView
    decreases seeds.len(),
{
    if seeds.len() == 0 {
        fw::PeersView { nets: seq![], own_devices: seq![] }
    } else {
        with_peer(sets_of(seeds.drop_last(), owner), seeds.last(), owner)
    }
}

fn add_member(nets: &mut Vec<NetInfo>, n: &SharedNetwork, ip: u32)
    ensures
        fw::net_views(final(nets)@) == with_member(fw::net_views(old(nets)@), n@, ip),
{
    let ghost s = fw::net_views(nets@);
    let ghost id = (n.guild_id, n.role_id);
    let mut i: usize = 0;
    while i < nets.len() && (nets[i].guild_id < n.guild_id || (nets[i].guild_id == n.guild_id
        && nets[i].role_id < n.role_id))
        invariant
            i <= nets.len(),
            s == fw::net_views(nets@),
            id == (n.guild_id, n.role_id),
            net_place(s, id, 0) == net_place(s, id, i as int),
        decreases nets.len() - i,
    {
        assert(s[i as int] == nets@[i as int]@);
        i += 1;
    }
    if i < nets.len() {
        assert(s[i as int] == nets@[i as int]@);
    }
    if i < nets.len() && nets[i].guild_id == n.guild_id && nets[i].role_id == n.role_id {
        insert_number(&mut nets[i].ips, ip);
        assert(fw::net_views(nets@) =~= s.update(
            i as int,
            fw::NetView { ips: with_number(s[i as int].ips, ip), ..s[i as int] },
        ));
    } else {
        let mut ips: Vec<u32> = Vec::new();
        ips.push(ip);
        let e = NetInfo {
            guild_id: n.guild_id,
            role_id: n.role_id,
            guild: n.community.clone(),
            name: n.name.clone(),
            ips,
        };
        assert(e@.ips =~= seq![ip]);
        let ghost ev = e@;
        nets.insert(i, e);
        assert(fw::net_views(nets@) =~= s.insert(i as int, ev));
    }
}

/// The names of the networks without ids that a peer shares and that are not listed yet.
pub open spec fn with_unidentified(
    names: Seq<Seq<char>>,
    shared: Seq<mesh::SharedView>,
) -> Seq<Seq<char>>
    decreases shared.len(),
{
    if shared.len() == 0 {
        names
    } else {
        let before = with_unidentified(names, shared.drop_last());
        let n = shared.last();
        if mesh::net_id(n.guild_id, n.role_id) is None && !before.contains(n.name) {
            before.push(n.name)
        } else {
            before
        }
    }
}

/// The names of the networks without ids, each once.
pub open spec fn unidentified_of(seeds: Seq<mesh::SeedView>) -> Seq<Seq<char>>
    decreases seeds.len(),
{
    if seeds.len() == 0 {
        seq![]
    } else {
        with_unidentified(unidentified_of(seeds.drop_last()), seeds.last().networks)
    }
}

fn add_networks(
    nets: &mut Vec<NetInfo>,
    unidentified: &mut Vec<String>,
    shared: &Vec<SharedNetwork>,
    ip: u32,
)
    ensures
        fw::net_views(final(nets)@) == with_networks(
            fw::net_views(old(nets)@),
            mesh::shared_network_views(shared@),
            ip,
        ),
        text::texts(final(unidentified)@) == with_unidentified(
            text::texts(old(unidentified)@),
            mesh::shared_network_views(shared@),
        ),
{
    let ghost start = fw::net_views(nets@);
    let ghost names = text::texts(unidentified@);
    let ghost all = mesh::shared_network_views(shared@);
    let mut i: usize = 0;
    while i < shared.len()
        invariant
            i <= shared.len(),
            all == mesh::shared_network_views(shared@),
            fw::net_views(nets@) == with_networks(start, all.take(i as int), ip),
            text::texts(unidentified@) == with_unidentified(names, all.take(i as int)),
        decreases shared.len() - i,
    {
        assert(all.take(i + 1).drop_last() =~= all.take(i as int));
        assert(all[i as int] == shared@[i as int]@);
        let n = &shared[i];
        match n.id() {
            Some(_) => add_member(nets, n, ip),
            None => {
                if !text::list_has(unidentified, n.name.as_str()) {
                    text::push_text(unidentified, n.name.clone());
                }
            },
        }
        i += 1;
    }
    assert(all.take(i as int) =~= all);
}

/// What the firewall is told of the active peers, and the names of the networks that cannot be
/// scoped because the coordinator sent no ids for them.
///
/// A network is known by its ids, so that roles of one name in two guilds stay apart. The owner's
/// other devices are no network: they are the peers with the owner's id. Before the device knows who
/// its owner is, nobody is.
pub fn peer_sets(seeds: &Vec<SeedPeer>, owner: Option<u64>) -> (r: (PeerSets, Vec<String>))
    ensures
        r.0@ == sets_of(mesh::seed_views(seeds@), owner),
        text::texts(r.1@) == unidentified_of(mesh::seed_views(seeds@)),
{
    let ghost all = mesh::seed_views(seeds@);
    let mut nets: Vec<NetInfo> = Vec::new();
    let mut own: Vec<u32> = Vec::new();
    let mut unidentified: Vec<String> = Vec::new();
    let mut i: usize = 0;
    assert(fw::net_views(nets@) =~= seq![]);
    assert(own@ =~= seq![]);
    assert(text::texts(unidentified@) =~= seq![]);
    while i < seeds.len()
        invariant
            i <= seeds.len(),
            all == mesh::seed_views(seeds@),
            fw::net_views(nets@) == sets_of(all.take(i as int), owner).nets,
            own@ == sets_of(all.take(i as int), owner).own_devices,
            text::texts(unidentified@) == unidentified_of(all.take(i as int)),
        decreases seeds.len() - i,
    {
        assert(all.take(i + 1).drop_last() =~= all.take(i as int));
        assert(all[i as int] == seeds@[i as int]@);
        let s = &seeds[i];
        add_networks(&mut nets, &mut unidentified, &s.networks, s.ip);
        let mine = match owner {
            Some(me) => me == s.user_id,
            None => false,
        };
        if mine {
            insert_number(&mut own, s.ip);
        }
        i += 1;
    }
    assert(all.take(i as int) =~= all);
    let sets = PeerSets { nets, own_devices: own };
    assert(sets@ =~= sets_of(all, owner));
    (sets, unidentified)
}

/// Whether numbers ascend.
pub open spec fn ascending(s: Seq<u32>) -> bool {
    forall|i: int, j: int| 0 <= i <= j < s.len() ==> s[i] <= s[j]
}

proof fn lemma_rank(s: Seq<u32>, x: u32, i: int)
    requires
        0 <= i <= s.len(),
    ensures
        i <= rank(s, x, i) <= s.len(),
        rank(s, x, i) < s.len() ==> x <= s[rank(s, x, i)],
        forall|j: int| i <= j < rank(s, x, i) ==> #[trigger] s[j] < x,
    decreases s.len() - i,
{
    if i < s.len() && s[i] < x {
        lemma_rank(s, x, i + 1);
    }
}

proof fn lemma_with_number(s: Seq<u32>, x: u32)
    requires
        ascending(s),
    ensures
        ascending(with_number(s, x)),
        with_number(s, x).to_multiset() == s.to_multiset().insert(x),
        forall|y: u32| #[trigger] with_number(s, x).contains(y) <==> s.contains(y) || y == x,
{
    lemma_rank(s, x, 0);
    let k = rank(s, x, 0);
    let t = with_number(s, x);
    vstd::seq_lib::to_multiset_insert(s, k, x);
    assert forall|i: int, j: int| 0 <= i <= j < t.len() implies t[i] <= t[j] by {
        if i < k {
            assert(t[i] == s[i]);
            if j > k {
                assert(t[j] == s[j - 1]);
            } else if j < k {
                assert(t[j] == s[j]);
            }
        } else if i > k {
            assert(t[i] == s[i - 1] && t[j] == s[j - 1]);
        } else if j > k {
            assert(t[j] == s[j - 1] && s[k] <= s[j - 1]);
        }
    }
    assert forall|y: u32| #[trigger] t.contains(y) <==> s.contains(y) || y == x by {
        if t.contains(y) {
            let i = choose|i: int| 0 <= i < t.len() && t[i] == y;
            if i < k {
                assert(s[i] == y);
            } else if i > k {
                assert(s[i - 1] == y);
            }
        }
        if s.contains(y) {
            let i = choose|i: int| 0 <= i < s.len() && s[i] == y;
            if i < k {
                assert(t[i] == y);
            } else {
                assert(t[i + 1] == y);
            }
        }
        if y == x {
            assert(t[k] == y);
        }
    }
}

proof fn lemma_numbers_commute(s: Seq<u32>, x: u32, y: u32)
    requires
        ascending(s),
    ensures
        with_number(with_number(s, x), y) == with_number(with_number(s, y), x),
{
    lemma_with_number(s, x);
    lemma_with_number(s, y);
    lemma_with_number(with_number(s, x), y);
    lemma_with_number(with_number(s, y), x);
    let leq = |a: u32, b: u32| a <= b;
    let a = with_number(with_number(s, x), y);
    let b = with_number(with_number(s, y), x);
    assert(s.to_multiset().insert(x).insert(y) =~= s.to_multiset().insert(y).insert(x));
    vstd::seq_lib::lemma_sorted_unique(a, b, leq);
}

/// Whether networks are sorted by their ids, each once, with ascending members.
pub open spec fn orderly(nets: Seq<fw::NetView>) -> bool {
    &&& forall|i: int, j: int|
        0 <= i < j < nets.len() ==> id_before(id_of(#[trigger] nets[i]), id_of(#[trigger] nets[j]))
    &&& forall|i: int| 0 <= i < nets.len() ==> ascending((#[trigger] nets[i]).ips)
}

/// The network with these ids in a sorted list.
pub open spec fn entry(nets: Seq<fw::NetView>, id: NetId) -> Option<fw::NetView> {
    let i = net_place(nets, id, 0);
    if 0 <= i < nets.len() && id_of(nets[i]) == id {
        Some(nets[i])
    } else {
        None
    }
}

proof fn lemma_net_place(nets: Seq<fw::NetView>, id: NetId, i: int)
    requires
        0 <= i <= nets.len(),
    ensures
        i <= net_place(nets, id, i) <= nets.len(),
        net_place(nets, id, i) < nets.len() ==> !id_before(
            id_of(nets[net_place(nets, id, i)]),
            id,
        ),
        forall|j: int|
            i <= j < net_place(nets, id, i) ==> id_before(id_of(#[trigger] nets[j]), id),
    decreases nets.len() - i,
{
    if i < nets.len() && id_before(id_of(nets[i]), id) {
        lemma_net_place(nets, id, i + 1);
    }
}

proof fn lemma_entry_at(nets: Seq<fw::NetView>, k: int)
    requires
        orderly(nets),
        0 <= k < nets.len(),
    ensures
        net_place(nets, id_of(nets[k]), 0) == k,
        entry(nets, id_of(nets[k])) == Some(nets[k]),
{
    let id = id_of(nets[k]);
    lemma_net_place(nets, id, 0);
    let i = net_place(nets, id, 0);
    if i < k {
        assert(id_before(id_of(nets[i]), id_of(nets[k])));
    } else if k < i {
        assert(id_before(id_of(nets[k]), id));
    }
}

/// What a network becomes when a member joins.
pub open spec fn joined_by(e: Option<fw::NetView>, n: mesh::SharedView, ip: u32) -> fw::NetView {
    match e {
        Some(x) => fw::NetView { ips: with_number(x.ips, ip), ..x },
        None => fw::NetView {
            guild_id: n.guild_id,
            role_id: n.role_id,
            guild: n.community,
            name: n.name,
            ips: seq![ip],
        },
    }
}

proof fn lemma_with_member(nets: Seq<fw::NetView>, n: mesh::SharedView, ip: u32)
    requires
        orderly(nets),
    ensures
        orderly(with_member(nets, n, ip)),
        forall|id: NetId| #[trigger]
            entry(with_member(nets, n, ip), id) == if id == (n.guild_id, n.role_id) {
                Some(joined_by(entry(nets, id), n, ip))
            } else {
                entry(nets, id)
            },
{
    let nid = (n.guild_id, n.role_id);
    let k = net_place(nets, nid, 0);
    lemma_net_place(nets, nid, 0);
    let t = with_member(nets, n, ip);
    let found = k < nets.len() && id_of(nets[k]) == nid;
    let e = joined_by(entry(nets, nid), n, ip);
    assert(t[k] == e);
    if found {
        lemma_with_number(nets[k].ips, ip);
    }
    assert forall|i: int, j: int| 0 <= i < j < t.len() implies id_before(
        id_of(#[trigger] t[i]),
        id_of(#[trigger] t[j]),
    ) by {
        if found {
            assert(id_of(t[i]) == id_of(nets[i]) && id_of(t[j]) == id_of(nets[j]));
        } else {
            if i < k {
                assert(t[i] == nets[i]);
            } else if i > k {
                assert(t[i] == nets[i - 1]);
            }
            if j < k {
                assert(t[j] == nets[j]);
            } else if j > k {
                assert(t[j] == nets[j - 1]);
                if i == k && j - 1 > k {
                    assert(id_before(id_of(nets[k]), id_of(nets[j - 1])));
                }
            }
        }
    }
    assert forall|i: int| 0 <= i < t.len() implies ascending((#[trigger] t[i]).ips) by {
        if i != k {
            if found || i < k {
                assert(t[i] == nets[i]);
            } else {
                assert(t[i] == nets[i - 1]);
            }
        }
    }
    assert forall|id: NetId| #[trigger] entry(t, id) == if id == nid {
        Some(e)
    } else {
        entry(nets, id)
    } by {
        if id == nid {
            lemma_entry_at(t, k);
        } else {
            lemma_net_place(nets, id, 0);
            lemma_net_place(t, id, 0);
            let a = net_place(nets, id, 0);
            let b = net_place(t, id, 0);
            if entry(nets, id) is Some {
                let c = if found || a < k {
                    a
                } else {
                    a + 1
                };
                assert(t[c] == nets[a]);
                lemma_entry_at(t, c);
            } else if entry(t, id) is Some {
                assert(b != k);
                let c = if found || b < k {
                    b
                } else {
                    b - 1
                };
                assert(nets[c] == t[b]);
                lemma_entry_at(nets, c);
            }
        }
    }
}

proof fn lemma_entries_decide(a: Seq<fw::NetView>, b: Seq<fw::NetView>)
    requires
        orderly(a),
        orderly(b),
        forall|id: NetId| #[trigger] entry(a, id) == entry(b, id),
    ensures
        a == b,
    decreases a.len(),
{
    if a.len() == 0 {
        if b.len() > 0 {
            lemma_entry_at(b, 0);
            assert(entry(a, id_of(b[0])) == entry(b, id_of(b[0])));
        }
        assert(a =~= b);
    } else {
        let x = a.last();
        lemma_entry_at(a, a.len() - 1);
        assert(entry(a, id_of(x)) == entry(b, id_of(x)));
        assert(b.len() > 0) by {
            lemma_net_place(b, id_of(x), 0);
        }
        let y = b.last();
        lemma_entry_at(b, b.len() - 1);
        assert(entry(a, id_of(y)) == entry(b, id_of(y)));
        lemma_net_place(a, id_of(y), 0);
        lemma_net_place(b, id_of(x), 0);
        let i = net_place(a, id_of(y), 0);
        let j = net_place(b, id_of(x), 0);
        assert(a[i] == y && b[j] == x);
        if i < a.len() - 1 {
            assert(id_before(id_of(a[i]), id_of(a[a.len() - 1])));
        }
        if j < b.len() - 1 {
            assert(id_before(id_of(b[j]), id_of(b[b.len() - 1])));
        }
        assert(x == y);
        let (c, d) = (a.drop_last(), b.drop_last());
        lemma_orderly_prefix(a);
        lemma_orderly_prefix(b);
        assert forall|id: NetId| #[trigger] entry(c, id) == entry(d, id) by {
            lemma_entry_prefix(a, id);
            lemma_entry_prefix(b, id);
            assert(entry(a, id) == entry(b, id));
        }
        lemma_entries_decide(c, d);
        assert(a =~= c.push(x));
        assert(b =~= d.push(y));
    }
}

proof fn lemma_orderly_prefix(a: Seq<fw::NetView>)
    requires
        orderly(a),
        a.len() > 0,
    ensures
        orderly(a.drop_last()),
{
    let c = a.drop_last();
    assert forall|i: int, j: int| 0 <= i < j < c.len() implies id_before(
        id_of(#[trigger] c[i]),
        id_of(#[trigger] c[j]),
    ) by {
        assert(c[i] == a[i] && c[j] == a[j]);
    }
    assert forall|i: int| 0 <= i < c.len() implies ascending((#[trigger] c[i]).ips) by {
        assert(c[i] == a[i]);
    }
}

proof fn lemma_entry_prefix(a: Seq<fw::NetView>, id: NetId)
    requires
        orderly(a),
        a.len() > 0,
    ensures
        entry(a.drop_last(), id) == if id == id_of(a.last()) {
            None
        } else {
            entry(a, id)
        },
{
    let c = a.drop_last();
    lemma_orderly_prefix(a);
    lemma_net_place(a, id, 0);
    lemma_net_place(c, id, 0);
    let i = net_place(a, id, 0);
    let j = net_place(c, id, 0);
    if entry(c, id) is Some {
        assert(c[j] == a[j]);
        lemma_entry_at(a, j);
        assert(id_before(id_of(a[j]), id_of(a[a.len() - 1])));
    } else if entry(a, id) is Some && id != id_of(a.last()) {
        assert(i < c.len());
        assert(c[i] == a[i]);
        lemma_entry_at(c, i);
    }
}

/// Whether two mentions of a network agree: with the same ids come the same labels.
pub open spec fn agree(m: mesh::SharedView, n: mesh::SharedView) -> bool {
    m.guild_id == n.guild_id && m.role_id == n.role_id ==> m.name == n.name && m.community
        == n.community
}

proof fn lemma_members_commute(
    nets: Seq<fw::NetView>,
    m: mesh::SharedView,
    a: u32,
    n: mesh::SharedView,
    b: u32,
)
    requires
        orderly(nets),
        agree(m, n),
    ensures
        with_member(with_member(nets, m, a), n, b) == with_member(with_member(nets, n, b), m, a),
{
    let x = with_member(nets, m, a);
    let y = with_member(nets, n, b);
    lemma_with_member(nets, m, a);
    lemma_with_member(nets, n, b);
    lemma_with_member(x, n, b);
    lemma_with_member(y, m, a);
    let u = with_member(x, n, b);
    let v = with_member(y, m, a);
    assert forall|id: NetId| #[trigger] entry(u, id) == entry(v, id) by {
        assert(entry(x, id) == entry(x, id) && entry(y, id) == entry(y, id));
        if id == (m.guild_id, m.role_id) && id == (n.guild_id, n.role_id) {
            match entry(nets, id) {
                Some(e) => {
                    lemma_net_place(nets, id, 0);
                    assert(ascending(nets[net_place(nets, id, 0)].ips));
                    lemma_numbers_commute(e.ips, a, b);
                },
                None => {
                    let none = Seq::<u32>::empty();
                    lemma_numbers_commute(none, a, b);
                    assert(with_number(none, a) =~= seq![a]);
                    assert(with_number(none, b) =~= seq![b]);
                },
            }
        }
    }
    lemma_entries_decide(u, v);
}

proof fn lemma_networks_orderly(nets: Seq<fw::NetView>, shared: Seq<mesh::SharedView>, ip: u32)
    requires
        orderly(nets),
    ensures
        orderly(with_networks(nets, shared, ip)),
    decreases shared.len(),
{
    if shared.len() > 0 {
        lemma_networks_orderly(nets, shared.drop_last(), ip);
        lemma_with_member(with_networks(nets, shared.drop_last(), ip), shared.last(), ip);
    }
}

proof fn lemma_member_past_networks(
    nets: Seq<fw::NetView>,
    m: mesh::SharedView,
    a: u32,
    shared: Seq<mesh::SharedView>,
    b: u32,
)
    requires
        orderly(nets),
        forall|j: int| 0 <= j < shared.len() ==> agree(m, #[trigger] shared[j]),
    ensures
        with_networks(with_member(nets, m, a), shared, b) == with_member(
            with_networks(nets, shared, b),
            m,
            a,
        ),
    decreases shared.len(),
{
    if shared.len() > 0 {
        let t = shared.drop_last();
        assert forall|j: int| 0 <= j < t.len() implies agree(m, #[trigger] t[j]) by {
            assert(t[j] == shared[j]);
        }
        lemma_member_past_networks(nets, m, a, t, b);
        lemma_networks_orderly(nets, t, b);
        assert(agree(m, shared[shared.len() - 1]));
        lemma_members_commute(with_networks(nets, t, b), m, a, shared.last(), b);
    }
}

proof fn lemma_networks_commute(
    nets: Seq<fw::NetView>,
    xs: Seq<mesh::SharedView>,
    a: u32,
    ys: Seq<mesh::SharedView>,
    b: u32,
)
    requires
        orderly(nets),
        forall|i: int, j: int|
            0 <= i < xs.len() && 0 <= j < ys.len() ==> agree(#[trigger] xs[i], #[trigger] ys[j]),
    ensures
        with_networks(with_networks(nets, xs, a), ys, b) == with_networks(
            with_networks(nets, ys, b),
            xs,
            a,
        ),
    decreases xs.len(),
{
    if xs.len() > 0 {
        let t = xs.drop_last();
        assert forall|i: int, j: int| 0 <= i < t.len() && 0 <= j < ys.len() implies agree(
            #[trigger] t[i],
            #[trigger] ys[j],
        ) by {
            assert(t[i] == xs[i]);
        }
        lemma_networks_commute(nets, t, a, ys, b);
        let m = xs.last();
        lemma_networks_orderly(nets, t, a);
        if mesh::net_id(m.guild_id, m.role_id) is Some {
            assert forall|j: int| 0 <= j < ys.len() implies agree(m, #[trigger] ys[j]) by {
                assert(agree(xs[xs.len() - 1], ys[j]));
            }
            lemma_member_past_networks(with_networks(nets, t, a), m, a, ys, b);
        }
    }
}

proof fn lemma_sets_orderly(seeds: Seq<mesh::SeedView>, owner: Option<u64>)
    ensures
        orderly(sets_of(seeds, owner).nets),
        ascending(sets_of(seeds, owner).own_devices),
    decreases seeds.len(),
{
    if seeds.len() > 0 {
        let t = seeds.drop_last();
        lemma_sets_orderly(t, owner);
        lemma_networks_orderly(sets_of(t, owner).nets, seeds.last().networks, seeds.last().ip);
        lemma_with_number(sets_of(t, owner).own_devices, seeds.last().ip);
    }
}

/// What the firewall is told is in one order: networks by their ids, each once, and addresses
/// ascending.
pub proof fn law_sets_are_in_order(seeds: Seq<mesh::SeedView>, owner: Option<u64>)
    ensures
        orderly(sets_of(seeds, owner).nets),
        ascending(sets_of(seeds, owner).own_devices),
{
    lemma_sets_orderly(seeds, owner);
}

/// The order in which the coordinator sends peers does not show in what the firewall is told, so an
/// unchanged membership is never taken for a change: two neighbours that trade places, and so any
/// rearrangement, change nothing. Labels are taken to agree between the two.
pub proof fn law_order_does_not_show(
    before: Seq<mesh::SeedView>,
    x: mesh::SeedView,
    y: mesh::SeedView,
    after: Seq<mesh::SeedView>,
    owner: Option<u64>,
)
    requires
        forall|i: int, j: int|
            0 <= i < x.networks.len() && 0 <= j < y.networks.len() ==> agree(
                #[trigger] x.networks[i],
                #[trigger] y.networks[j],
            ),
    ensures
        sets_of(before.push(x).push(y) + after, owner) == sets_of(
            before.push(y).push(x) + after,
            owner,
        ),
    decreases after.len(),
{
    let p = before.push(x).push(y);
    let q = before.push(y).push(x);
    if after.len() == 0 {
        assert(p + after =~= p);
        assert(q + after =~= q);
        assert(p.drop_last() =~= before.push(x));
        assert(q.drop_last() =~= before.push(y));
        assert(before.push(x).drop_last() =~= before);
        assert(before.push(y).drop_last() =~= before);
        let base = sets_of(before, owner);
        lemma_sets_orderly(before, owner);
        lemma_networks_commute(base.nets, x.networks, x.ip, y.networks, y.ip);
        lemma_numbers_commute(base.own_devices, x.ip, y.ip);
        assert(sets_of(before.push(x), owner) == with_peer(base, x, owner));
        assert(sets_of(before.push(y), owner) == with_peer(base, y, owner));
        assert(sets_of(p, owner) == with_peer(with_peer(base, x, owner), y, owner));
        assert(sets_of(q, owner) == with_peer(with_peer(base, y, owner), x, owner));
        assert(sets_of(p, owner) =~= sets_of(q, owner));
    } else {
        law_order_does_not_show(before, x, y, after.drop_last(), owner);
        assert((p + after).drop_last() =~= p + after.drop_last());
        assert((q + after).drop_last() =~= q + after.drop_last());
        assert((p + after).last() == after.last() && (q + after).last() == after.last());
    }
}

/// The owner's other devices are the peers with the owner's id, whatever networks they are in, and
/// no others.
pub proof fn law_own_devices_by_identity(seeds: Seq<mesh::SeedView>, owner: Option<u64>, ip: u32)
    ensures
        sets_of(seeds, owner).own_devices.contains(ip) <==> exists|i: int|
            0 <= i < seeds.len() && owner == Some((#[trigger] seeds[i]).user_id) && seeds[i].ip
                == ip,
    decreases seeds.len(),
{
    if seeds.len() > 0 {
        let t = seeds.drop_last();
        let s = seeds.last();
        law_own_devices_by_identity(t, owner, ip);
        lemma_sets_orderly(t, owner);
        lemma_with_number(sets_of(t, owner).own_devices, s.ip);
        if sets_of(t, owner).own_devices.contains(ip) {
            let i = choose|i: int|
                0 <= i < t.len() && owner == Some((#[trigger] t[i]).user_id) && t[i].ip == ip;
            assert(seeds[i] == t[i]);
        }
        if owner == Some(s.user_id) && s.ip == ip {
            assert(seeds[seeds.len() - 1] == s);
            assert(with_number(sets_of(t, owner).own_devices, s.ip).contains(ip));
        }
        if exists|i: int|
            0 <= i < seeds.len() && owner == Some((#[trigger] seeds[i]).user_id) && seeds[i].ip
                == ip {
            let i = choose|i: int|
                0 <= i < seeds.len() && owner == Some((#[trigger] seeds[i]).user_id) && seeds[i].ip
                    == ip;
            if i < t.len() {
                assert(t[i] == seeds[i]);
            }
            assert(with_number(sets_of(t, owner).own_devices, s.ip).contains(ip)
                || sets_of(t, owner).own_devices.contains(ip));
        }
    }
}

/// Whether a network is disabled: the last of those with its name that this device knows is.
pub open spec fn is_disabled(
    n: mesh::SharedView,
    disabled: Set<NetId>,
    nets: Seq<mesh::NetworkView>,
) -> bool {
    exists|m: int|
        0 <= m < nets.len() && (#[trigger] nets[m]).name == n.name && disabled.contains(
            (nets[m].guild_id, nets[m].role_id),
        ) && forall|l: int| m < l < nets.len() ==> (#[trigger] nets[l]).name != n.name
}

proof fn lemma_id_of_name(nets: Seq<mesh::NetworkView>, name: Seq<char>)
    ensures
        match id_of_name(nets, name) {
            Some(id) => exists|m: int|
                0 <= m < nets.len() && (#[trigger] nets[m]).name == name && id == (
                    nets[m].guild_id,
                    nets[m].role_id,
                ) && forall|l: int| m < l < nets.len() ==> (#[trigger] nets[l]).name != name,
            None => forall|m: int| 0 <= m < nets.len() ==> (#[trigger] nets[m]).name != name,
        },
    decreases nets.len(),
{
    if nets.len() > 0 {
        let t = nets.drop_last();
        let n = nets.len() - 1;
        assert(nets[n] == nets.last());
        if nets.last().name != name {
            lemma_id_of_name(t, name);
            match id_of_name(t, name) {
                Some(id) => {
                    let m = choose|m: int|
                        0 <= m < t.len() && (#[trigger] t[m]).name == name && id == (
                            t[m].guild_id,
                            t[m].role_id,
                        ) && forall|l: int| m < l < t.len() ==> (#[trigger] t[l]).name != name;
                    assert(nets[m].name == name);
                    assert forall|l: int| m < l < nets.len() implies (
                    #[trigger] nets[l]).name != name by {
                        if l < n {
                            assert(t[l] == nets[l]);
                        }
                    }
                },
                None => {
                    assert forall|m: int| 0 <= m < nets.len() implies (
                    #[trigger] nets[m]).name != name by {
                        if m < n {
                            assert(t[m] == nets[m]);
                        }
                    }
                },
            }
        }
    }
}

proof fn lemma_enabled(n: mesh::SharedView, disabled: Set<NetId>, nets: Seq<mesh::NetworkView>)
    ensures
        is_enabled(n, disabled, nets) <==> !is_disabled(n, disabled, nets),
{
    lemma_id_of_name(nets, n.name);
    match id_of_name(nets, n.name) {
        Some(id) => {
            let m = choose|m: int|
                0 <= m < nets.len() && (#[trigger] nets[m]).name == n.name && id == (
                    nets[m].guild_id,
                    nets[m].role_id,
                ) && forall|l: int| m < l < nets.len() ==> (#[trigger] nets[l]).name != n.name;
            if is_disabled(n, disabled, nets) {
                let q = choose|q: int|
                    0 <= q < nets.len() && (#[trigger] nets[q]).name == n.name && disabled.contains(
                        (nets[q].guild_id, nets[q].role_id),
                    ) && forall|l: int| q < l < nets.len() ==> (#[trigger] nets[l]).name != n.name;
                assert(q == m) by {
                    if q < m {
                        assert(nets[m].name != n.name);
                    } else if m < q {
                        assert(nets[q].name != n.name);
                    }
                }
            }
            if disabled.contains(id) {
                assert(nets[m].name == n.name);
            }
        },
        None => {},
    }
}

/// A peer is meshed with if and only if its owner is not blocked and it shares, at any place of its list,
/// a network that is not disabled, or none at all.
pub proof fn law_any_enabled_network_is_enough(
    s: mesh::SeedView,
    disabled: Set<NetId>,
    blocked: Set<u64>,
    nets: Seq<mesh::NetworkView>,
)
    ensures
        active_of(seq![s], disabled, blocked, nets).contains(s) <==> !blocked.contains(s.user_id) && (
        s.networks.len() == 0 || exists|i: int|
            0 <= i < s.networks.len() && !is_disabled(#[trigger] s.networks[i], disabled, nets)),
        s.networks.len() > 0 && (forall|i: int|
            0 <= i < s.networks.len() ==> is_disabled(#[trigger] s.networks[i], disabled, nets))
            ==> active_of(seq![s], disabled, blocked, nets).len() == 0,
        blocked.contains(s.user_id) ==> active_of(seq![s], disabled, blocked, nets).len() == 0,
{
    reveal(Seq::filter);
    let p = |s: mesh::SeedView| is_active(s, disabled, blocked, nets);
    assert(seq![s].drop_last() =~= seq![]);
    assert(Seq::<mesh::SeedView>::empty().filter(p) =~= seq![]);
    let r = active_of(seq![s], disabled, blocked, nets);
    assert(r =~= if p(s) {
        seq![s]
    } else {
        seq![]
    });
    if p(s) {
        assert(r[0] == s);
    }
    assert forall|i: int| 0 <= i < s.networks.len() implies is_enabled(
        #[trigger] s.networks[i],
        disabled,
        nets,
    ) == !is_disabled(s.networks[i], disabled, nets) by {
        lemma_enabled(s.networks[i], disabled, nets);
    }
    if exists|i: int|
        0 <= i < s.networks.len() && !is_disabled(#[trigger] s.networks[i], disabled, nets) {
        let i = choose|i: int|
            0 <= i < s.networks.len() && !is_disabled(#[trigger] s.networks[i], disabled, nets);
        assert(is_enabled(s.networks[i], disabled, nets));
    }
}

/// Each peer is decided for itself: of a list, those that would be meshed with alone are, as they are and
/// in their order.
pub proof fn law_each_peer_for_itself(
    a: Seq<mesh::SeedView>,
    b: Seq<mesh::SeedView>,
    s: mesh::SeedView,
    disabled: Set<NetId>,
    blocked: Set<u64>,
    nets: Seq<mesh::NetworkView>,
)
    ensures
        active_of(a + b, disabled, blocked, nets) == active_of(a, disabled, blocked, nets)
            + active_of(b, disabled, blocked, nets),
        active_of(seq![s], disabled, blocked, nets) == seq![s] || active_of(
            seq![s],
            disabled,
            blocked,
            nets,
        ).len() == 0,
        active_of(seq![], disabled, blocked, nets).len() == 0,
    decreases b.len(),
{
    reveal(Seq::filter);
    let p = |s: mesh::SeedView| is_active(s, disabled, blocked, nets);
    assert(seq![s].drop_last() =~= seq![]);
    assert(Seq::<mesh::SeedView>::empty().filter(p) =~= seq![]);
    assert(active_of(seq![s], disabled, blocked, nets) =~= if p(s) {
        seq![s]
    } else {
        seq![]
    });
    if b.len() == 0 {
        assert(a + b =~= a);
        assert(active_of(a + b, disabled, blocked, nets) =~= active_of(a, disabled, blocked, nets)
            + active_of(b, disabled, blocked, nets));
    } else {
        law_each_peer_for_itself(a, b.drop_last(), s, disabled, blocked, nets);
        assert((a + b).drop_last() =~= a + b.drop_last());
        assert((a + b).last() == b.last());
        assert(active_of(a + b, disabled, blocked, nets) =~= active_of(a, disabled, blocked, nets)
            + active_of(b, disabled, blocked, nets));
    }
}

/// Whether a network is listed with a member.
spec fn lists(nets: Seq<fw::NetView>, id: NetId, ip: u32) -> bool {
    match entry(nets, id) {
        Some(e) => e.ips.contains(ip),
        None => false,
    }
}

/// Whether a network with these ids is among those that are shared.
spec fn shares(shared: Seq<mesh::SharedView>, id: NetId) -> bool {
    exists|j: int|
        0 <= j < shared.len() && (#[trigger] shared[j]).guild_id == id.0 && shared[j].role_id == id.1
}

proof fn lemma_lists(nets: Seq<fw::NetView>, shared: Seq<mesh::SharedView>, ip: u32, id: NetId, x: u32)
    requires
        orderly(nets),
    ensures
        lists(with_networks(nets, shared, ip), id, x) <==> lists(nets, id, x) || (x == ip && id.0 != 0
            && id.1 != 0 && shares(shared, id)),
    decreases shared.len(),
{
    if shared.len() > 0 {
        let t = shared.drop_last();
        let n = shared.last();
        let before = with_networks(nets, t, ip);
        lemma_lists(nets, t, ip, id, x);
        lemma_networks_orderly(nets, t, ip);
        assert(shared[shared.len() - 1] == n);
        if shares(t, id) {
            let j = choose|j: int|
                0 <= j < t.len() && (#[trigger] t[j]).guild_id == id.0 && t[j].role_id == id.1;
            assert(shared[j].guild_id == id.0);
        }
        if shares(shared, id) && !(n.guild_id == id.0 && n.role_id == id.1) {
            let j = choose|j: int|
                0 <= j < shared.len() && (#[trigger] shared[j]).guild_id == id.0 && shared[j].role_id
                    == id.1;
            assert(t[j].guild_id == id.0);
        }
        if mesh::net_id(n.guild_id, n.role_id) is Some {
            lemma_with_member(before, n, ip);
            if id == (n.guild_id, n.role_id) {
                let e = entry(before, id);
                lemma_net_place(before, id, 0);
                if let Some(v) = e {
                    lemma_with_number(v.ips, ip);
                    assert(with_number(v.ips, ip).contains(x) <==> v.ips.contains(x) || x == ip);
                } else {
                    assert(seq![ip][0] == ip);
                }
            }
        }
    }
}

proof fn lemma_listed(nets: Seq<fw::NetView>, id: NetId, x: u32)
    requires
        orderly(nets),
    ensures
        lists(nets, id, x) <==> exists|k: int|
            0 <= k < nets.len() && (#[trigger] nets[k]).guild_id == id.0 && nets[k].role_id == id.1
                && nets[k].ips.contains(x),
{
    lemma_net_place(nets, id, 0);
    if lists(nets, id, x) {
        let k = net_place(nets, id, 0);
        assert(nets[k].guild_id == id.0);
    }
    if exists|k: int|
        0 <= k < nets.len() && (#[trigger] nets[k]).guild_id == id.0 && nets[k].role_id == id.1
            && nets[k].ips.contains(x) {
        let k = choose|k: int|
            0 <= k < nets.len() && (#[trigger] nets[k]).guild_id == id.0 && nets[k].role_id == id.1
                && nets[k].ips.contains(x);
        lemma_entry_at(nets, k);
    }
}

/// The members of a network are the peers that share it, and no others: a peer's address is listed under
/// ids if and only if neither is zero and the peer shares a network with them, at any place of its list.
pub proof fn law_members_are_those_who_share(
    seeds: Seq<mesh::SeedView>,
    owner: Option<u64>,
    guild_id: u64,
    role_id: u64,
    ip: u32,
)
    ensures
        (exists|k: int|
            0 <= k < sets_of(seeds, owner).nets.len() && (#[trigger] sets_of(
                seeds,
                owner,
            ).nets[k]).guild_id == guild_id && sets_of(seeds, owner).nets[k].role_id == role_id
                && sets_of(seeds, owner).nets[k].ips.contains(ip)) <==> guild_id != 0 && role_id != 0
            && exists|i: int, j: int|
            0 <= i < seeds.len() && 0 <= j < (#[trigger] seeds[i]).networks.len() && (
            #[trigger] seeds[i].networks[j]).guild_id == guild_id && seeds[i].networks[j].role_id
                == role_id && seeds[i].ip == ip,
    decreases seeds.len(),
{
    let id = (guild_id, role_id);
    lemma_sets_orderly(seeds, owner);
    lemma_listed(sets_of(seeds, owner).nets, id, ip);
    if seeds.len() > 0 {
        let t = seeds.drop_last();
        let s = seeds.last();
        law_members_are_those_who_share(t, owner, guild_id, role_id, ip);
        lemma_sets_orderly(t, owner);
        lemma_listed(sets_of(t, owner).nets, id, ip);
        lemma_lists(sets_of(t, owner).nets, s.networks, s.ip, id, ip);
        assert(seeds[seeds.len() - 1] == s);
        if shares(s.networks, id) && s.ip == ip {
            let j = choose|j: int|
                0 <= j < s.networks.len() && (#[trigger] s.networks[j]).guild_id == id.0
                    && s.networks[j].role_id == id.1;
            assert(seeds[seeds.len() - 1].networks[j].guild_id == guild_id);
        }
        if exists|i: int, j: int|
            0 <= i < t.len() && 0 <= j < (#[trigger] t[i]).networks.len() && (
            #[trigger] t[i].networks[j]).guild_id == guild_id && t[i].networks[j].role_id == role_id
                && t[i].ip == ip {
            let (i, j) = choose|i: int, j: int|
                0 <= i < t.len() && 0 <= j < (#[trigger] t[i]).networks.len() && (
                #[trigger] t[i].networks[j]).guild_id == guild_id && t[i].networks[j].role_id
                    == role_id && t[i].ip == ip;
            assert(seeds[i].networks[j].guild_id == guild_id);
        }
        if exists|i: int, j: int|
            0 <= i < seeds.len() && 0 <= j < (#[trigger] seeds[i]).networks.len() && (
            #[trigger] seeds[i].networks[j]).guild_id == guild_id && seeds[i].networks[j].role_id
                == role_id && seeds[i].ip == ip {
            let (i, j) = choose|i: int, j: int|
                0 <= i < seeds.len() && 0 <= j < (#[trigger] seeds[i]).networks.len() && (
                #[trigger] seeds[i].networks[j]).guild_id == guild_id && seeds[i].networks[j].role_id
                    == role_id && seeds[i].ip == ip;
            if i < t.len() {
                assert(t[i].networks[j].guild_id == guild_id);
            } else {
                assert(s.networks[j].guild_id == id.0);
            }
        }
    }
}

/// Whether a network is labelled as one that is shared.
spec fn labelled(n: fw::NetView, shared: Seq<mesh::SharedView>) -> bool {
    exists|j: int|
        0 <= j < shared.len() && (#[trigger] shared[j]).guild_id == n.guild_id && shared[j].role_id
            == n.role_id && shared[j].community == n.guild && shared[j].name == n.name
}

proof fn lemma_labelled(nets: Seq<fw::NetView>, shared: Seq<mesh::SharedView>, ip: u32, k: int)
    requires
        0 <= k < with_networks(nets, shared, ip).len(),
    ensures
        ({
            let n = with_networks(nets, shared, ip)[k];
            labelled(n, shared) || exists|m: int|
                0 <= m < nets.len() && (#[trigger] nets[m]).guild_id == n.guild_id
                    && nets[m].role_id == n.role_id && nets[m].guild == n.guild && nets[m].name
                    == n.name
        }),
    decreases shared.len(),
{
    if shared.len() > 0 {
        let t = shared.drop_last();
        let x = shared.last();
        let before = with_networks(nets, t, ip);
        let all = with_networks(nets, shared, ip);
        let n = all[k];
        assert(shared[shared.len() - 1] == x);
        lemma_net_place(before, (x.guild_id, x.role_id), 0);
        let p = net_place(before, (x.guild_id, x.role_id), 0);
        let joins = mesh::net_id(x.guild_id, x.role_id) is Some;
        let found = p < before.len() && id_of(before[p]) == (x.guild_id, x.role_id);
        if joins && !found && k == p {
            assert(labelled(n, shared));
        } else {
            let q = if joins && !found && k > p {
                k - 1
            } else {
                k
            };
            assert(before[q].guild_id == n.guild_id && before[q].role_id == n.role_id
                && before[q].guild == n.guild && before[q].name == n.name);
            lemma_labelled(nets, t, ip, q);
            if labelled(before[q], t) {
                let j = choose|j: int|
                    0 <= j < t.len() && (#[trigger] t[j]).guild_id == n.guild_id && t[j].role_id
                        == n.role_id && t[j].community == n.guild && t[j].name == n.name;
                assert(shared[j].guild_id == n.guild_id);
            }
        }
    } else {
        assert(nets[k] == with_networks(nets, shared, ip)[k]);
    }
}

/// A network is listed under the labels that some peer shares it by.
pub proof fn law_networks_are_labelled_as_shared(
    seeds: Seq<mesh::SeedView>,
    owner: Option<u64>,
    k: int,
)
    requires
        0 <= k < sets_of(seeds, owner).nets.len(),
    ensures
        ({
            let n = sets_of(seeds, owner).nets[k];
            exists|i: int, j: int|
                0 <= i < seeds.len() && 0 <= j < (#[trigger] seeds[i]).networks.len() && (
                #[trigger] seeds[i].networks[j]).guild_id == n.guild_id && seeds[i].networks[j].role_id
                    == n.role_id && seeds[i].networks[j].community == n.guild
                    && seeds[i].networks[j].name == n.name
        }),
    decreases seeds.len(),
{
    if seeds.len() > 0 {
        let t = seeds.drop_last();
        let s = seeds.last();
        let nets = sets_of(t, owner).nets;
        let n = sets_of(seeds, owner).nets[k];
        lemma_labelled(nets, s.networks, s.ip, k);
        assert(seeds[seeds.len() - 1] == s);
        if labelled(n, s.networks) {
            let j = choose|j: int|
                0 <= j < s.networks.len() && (#[trigger] s.networks[j]).guild_id == n.guild_id
                    && s.networks[j].role_id == n.role_id && s.networks[j].community == n.guild
                    && s.networks[j].name == n.name;
            assert(seeds[seeds.len() - 1].networks[j].guild_id == n.guild_id);
        } else {
            let m = choose|m: int|
                0 <= m < nets.len() && (#[trigger] nets[m]).guild_id == n.guild_id && nets[m].role_id
                    == n.role_id && nets[m].guild == n.guild && nets[m].name == n.name;
            law_networks_are_labelled_as_shared(t, owner, m);
            let (i, j) = choose|i: int, j: int|
                0 <= i < t.len() && 0 <= j < (#[trigger] t[i]).networks.len() && (
                #[trigger] t[i].networks[j]).guild_id == n.guild_id && t[i].networks[j].role_id
                    == n.role_id && t[i].networks[j].community == n.guild && t[i].networks[j].name
                    == n.name;
            assert(seeds[i].networks[j].guild_id == n.guild_id);
        }
    }
}

proof fn lemma_with_unidentified(names: Seq<Seq<char>>, shared: Seq<mesh::SharedView>, x: Seq<char>)
    ensures
        with_unidentified(names, shared).contains(x) <==> names.contains(x) || exists|j: int|
            0 <= j < shared.len() && (#[trigger] shared[j]).name == x && (shared[j].guild_id == 0
                || shared[j].role_id == 0),
        names.no_duplicates() ==> with_unidentified(names, shared).no_duplicates(),
    decreases shared.len(),
{
    if shared.len() > 0 {
        let t = shared.drop_last();
        let n = shared.last();
        lemma_with_unidentified(names, t, x);
        lemma_with_unidentified(names, t, n.name);
        let before = with_unidentified(names, t);
        let all = with_unidentified(names, shared);
        assert(shared[shared.len() - 1] == n);
        if before.contains(x) {
            let k = choose|k: int| 0 <= k < before.len() && before[k] == x;
            assert(all[k] == x);
        }
        if all.contains(x) && !before.contains(x) {
            let k = choose|k: int| 0 <= k < all.len() && all[k] == x;
            if k < before.len() {
                assert(before[k] == x);
            }
        }
        if all.len() > before.len() {
            assert(all[before.len() as int] == n.name);
        }
        if exists|j: int|
            0 <= j < t.len() && (#[trigger] t[j]).name == x && (t[j].guild_id == 0 || t[j].role_id
                == 0) {
            let j = choose|j: int|
                0 <= j < t.len() && (#[trigger] t[j]).name == x && (t[j].guild_id == 0
                    || t[j].role_id == 0);
            assert(shared[j].name == x);
        }
        if exists|j: int|
            0 <= j < shared.len() && (#[trigger] shared[j]).name == x && (shared[j].guild_id == 0
                || shared[j].role_id == 0) {
            let j = choose|j: int|
                0 <= j < shared.len() && (#[trigger] shared[j]).name == x && (shared[j].guild_id
                    == 0 || shared[j].role_id == 0);
            if j < t.len() {
                assert(t[j].name == x);
            }
        }
    }
}

/// The networks that cannot be scoped are those of which an id is missing, each named once.
pub proof fn law_unidentified_are_those_without_ids(seeds: Seq<mesh::SeedView>, x: Seq<char>)
    ensures
        unidentified_of(seeds).contains(x) <==> exists|i: int, j: int|
            0 <= i < seeds.len() && 0 <= j < (#[trigger] seeds[i]).networks.len() && (
            #[trigger] seeds[i].networks[j]).name == x && (seeds[i].networks[j].guild_id == 0
                || seeds[i].networks[j].role_id == 0),
        unidentified_of(seeds).no_duplicates(),
    decreases seeds.len(),
{
    if seeds.len() > 0 {
        let t = seeds.drop_last();
        let s = seeds.last();
        law_unidentified_are_those_without_ids(t, x);
        lemma_with_unidentified(unidentified_of(t), s.networks, x);
        assert(seeds[seeds.len() - 1] == s);
        if exists|j: int|
            0 <= j < s.networks.len() && (#[trigger] s.networks[j]).name == x && (
            s.networks[j].guild_id == 0 || s.networks[j].role_id == 0) {
            let j = choose|j: int|
                0 <= j < s.networks.len() && (#[trigger] s.networks[j]).name == x && (
                s.networks[j].guild_id == 0 || s.networks[j].role_id == 0);
            assert(seeds[seeds.len() - 1].networks[j].name == x);
        }
        if unidentified_of(t).contains(x) {
            let (i, j) = choose|i: int, j: int|
                0 <= i < t.len() && 0 <= j < (#[trigger] t[i]).networks.len() && (
                #[trigger] t[i].networks[j]).name == x && (t[i].networks[j].guild_id == 0
                    || t[i].networks[j].role_id == 0);
            assert(seeds[i].networks[j].name == x);
        }
        if exists|i: int, j: int|
            0 <= i < seeds.len() && 0 <= j < (#[trigger] seeds[i]).networks.len() && (
            #[trigger] seeds[i].networks[j]).name == x && (seeds[i].networks[j].guild_id == 0
                || seeds[i].networks[j].role_id == 0) {
            let (i, j) = choose|i: int, j: int|
                0 <= i < seeds.len() && 0 <= j < (#[trigger] seeds[i]).networks.len() && (
                #[trigger] seeds[i].networks[j]).name == x && (seeds[i].networks[j].guild_id == 0
                    || seeds[i].networks[j].role_id == 0);
            if i < t.len() {
                assert(t[i].networks[j].name == x);
            } else {
                assert(s.networks[j].name == x);
            }
        }
    }
}

} // verus!
