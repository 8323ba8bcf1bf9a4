//! What the owner of a device decided locally: which networks it does not peer in, whether it is
//! connected at all, and whom it blocks.
//!
//! The device is the source of truth for all of it. It is kept across restarts and enforced locally,
//! so that it holds while the coordinator is out of reach.
use crate::assoc::{self, Assoc};
use crate::net::{self, Net};
use crate::text;
use vstd::prelude::*;
use vstd::string::*;

verus! {

/// An address of a local interface.
pub struct LocalAddr {
    /// The interface's name.
    pub name: String,
    pub loopback: bool,
    pub ip: u32,
    pub mask: u32,
}

/// Whether a local interface's subnet meets the mesh's block. The mesh interface itself, the
/// loopback, and an interface whose mask is none are left out.
pub open spec fn shadowed(mesh: Net, mesh_iface: Seq<char>, a: LocalAddr) -> bool {
    a.name@ != mesh_iface && !a.loopback && exists|p: u8|
        p <= 32 && a.mask == #[trigger] net::mask_of(p as nat) && mesh.meets(
            Net { addr: a.ip, prefix: p },
        )
}

/// The first interface at or after `i` whose subnet meets the mesh's block, or the length.
pub open spec fn shadowed_from(
    mesh: Net,
    mesh_iface: Seq<char>,
    addrs: Seq<LocalAddr>,
    i: int,
) -> int
    decreases addrs.len() - i,
{
    if i >= addrs.len() {
        addrs.len() as int
    } else if shadowed(mesh, mesh_iface, addrs[i]) {
        i
    } else {
        shadowed_from(mesh, mesh_iface, addrs, i + 1)
    }
}

/// What a warning says of an interface.
pub open spec fn overlap_text(mesh: Net, name: Seq<char>, subnet: Net) -> Seq<char> {
    "mesh range "@ + mesh.text() + " overlaps local interface "@ + name + " ("@ + subnet.text()
        + ")"@
}

/// Whether a warning names an interface and its subnet.
pub open spec fn warns_of(w: Seq<char>, mesh: Net, a: LocalAddr) -> bool {
    exists|p: u8|
        p <= 32 && a.mask == #[trigger] net::mask_of(p as nat) && w == overlap_text(
            mesh,
            a.name@,
            Net { addr: Net { addr: a.ip, prefix: p }.base() as u32, prefix: p },
        )
}

proof fn lemma_mask(p: u8, q: u8)
    requires
        p <= 32,
        q <= 32,
        net::mask_of(p as nat) == net::mask_of(q as nat),
    ensures
        p == q,
{
    if p < q {
        vstd::arithmetic::power2::lemma_pow2_strictly_increases((32 - q) as nat, (32 - p) as nat);
    } else if q < p {
        vstd::arithmetic::power2::lemma_pow2_strictly_increases((32 - p) as nat, (32 - q) as nat);
    }
}

/// A warning when the mesh's block meets the subnet of a local interface, which it might then
/// shadow: of the first such interface. Routes come from signed attestations, so this is advice.
pub fn lan_overlap_warning(mesh: Net, mesh_iface: &str, addrs: &Vec<LocalAddr>) -> (r: Option<
    String,
>)
    requires
        mesh.wf(),
    ensures
        ({
            let i = shadowed_from(mesh, mesh_iface@, addrs@, 0);
            match r {
                Some(w) => 0 <= i < addrs.len() && warns_of(w@, mesh, addrs@[i]),
                None => i == addrs.len(),
            }
        }),
{
    let mut i: usize = 0;
    while i < addrs.len()
        invariant
            i <= addrs.len(),
            mesh.wf(),
            shadowed_from(mesh, mesh_iface@, addrs@, 0) == shadowed_from(
                mesh,
                mesh_iface@,
                addrs@,
                i as int,
            ),
        decreases addrs.len() - i,
    {
        let a = &addrs[i];
        if !text::same(a.name.as_str(), mesh_iface) && !a.loopback {
            if let Some(subnet) = Net::of_mask(a.ip, a.mask) {
                let met = mesh.overlaps(&subnet);
                proof {
                    if shadowed(mesh, mesh_iface@, *a) {
                        let p = choose|p: u8|
                            p <= 32 && a.mask == #[trigger] net::mask_of(p as nat) && mesh.meets(
                                Net { addr: a.ip, prefix: p },
                            );
                        lemma_mask(p, subnet.prefix);
                    }
                    assert(a.mask == net::mask_of(subnet.prefix as nat));
                    assert(subnet == (Net { addr: a.ip, prefix: subnet.prefix }));
                    assert(met == shadowed(mesh, mesh_iface@, *a));
                }
                if met {
                    let mut w = "mesh range ".to_owned();
                    w.append(mesh.to_text().as_str());
                    w.append(" overlaps local interface ");
                    w.append(a.name.as_str());
                    w.append(" (");
                    w.append(subnet.trunc().to_text().as_str());
                    w.append(")");
                    assert(warns_of(w@, mesh, *a));
                    return Some(w);
                }
            } else {
                proof {
                    if shadowed(mesh, mesh_iface@, *a) {
                        let p = choose|p: u8|
                            p <= 32 && a.mask == #[trigger] net::mask_of(p as nat) && mesh.meets(
                                Net { addr: a.ip, prefix: p },
                            );
                        assert(a.mask == net::mask_of(p as nat));
                    }
                }
            }
        }
        i += 1;
    }
    None
}

/// A network, by its guild and role.
pub type NetId = (u64, u64);

/// What was saved of the local decisions. An absent part was never saved, or cannot be read.
pub struct SavedNet {
    pub disabled: Option<Vec<NetId>>,
    pub paused: Option<bool>,
    pub known: Option<Vec<NetId>>,
    pub disable_new: Option<bool>,
    pub peer_own: Option<bool>,
    pub blocked: Option<Vec<(u64, String)>>,
}

/// The local decisions.
pub struct LocalNet {
    /// The networks that the device does not peer in.
    pub disabled: Assoc<NetId, ()>,
    /// Disconnected. It stands above the single networks, whose settings it leaves alone.
    pub paused: bool,
    /// Every network that was ever seen; one that is not here is new.
    pub known: Assoc<NetId, ()>,
    /// Whether a new network starts out disabled.
    pub disable_new: bool,
    /// Whether to peer with the owner's other devices though they share no network.
    pub peer_own: bool,
    /// The users whose devices are refused, with the name each goes by.
    pub blocked: Assoc<u64, String>,
    /// The mesh is to be rebuilt: set by every change that bears on it, and taken by who rebuilds.
    pub wake: bool,
}

/// The model of the local decisions.
#[verifier::ext_equal]
pub struct LocalView {
    pub disabled: Set<NetId>,
    pub paused: bool,
    pub known: Set<NetId>,
    pub disable_new: bool,
    pub peer_own: bool,
    pub blocked: Map<u64, Seq<char>>,
    pub wake: bool,
}

/// A map of strings as a map of texts.
pub open spec fn text_map(m: Map<u64, String>) -> Map<u64, Seq<char>> {
    Map::new(|k: u64| m.contains_key(k), |k: u64| m[k]@)
}

impl View for LocalNet {
    type V = LocalView;

    open spec fn view(&self) -> LocalView {
        LocalView {
            disabled: self.disabled@.dom(),
            paused: self.paused,
            known: self.known@.dom(),
            disable_new: self.disable_new,
            peer_own: self.peer_own,
            blocked: text_map(self.blocked@),
            wake: self.wake,
        }
    }
}

/// The networks in a list that may be absent.
pub open spec fn ids_in(s: Option<Vec<NetId>>) -> Set<NetId> {
    match s {
        Some(v) => v@.to_set(),
        None => Set::empty(),
    }
}

/// The users in a list, each with the name that comes last.
pub open spec fn names_in(s: Seq<(u64, String)>) -> Map<u64, Seq<char>>
    decreases s.len(),
{
    if s.len() == 0 {
        Map::empty()
    } else {
        names_in(s.drop_last()).insert(s.last().0, s.last().1@)
    }
}

/// A saved value, or what stands in for it.
pub open spec fn or_else<A>(s: Option<A>, d: A) -> A {
    match s {
        Some(x) => x,
        None => d,
    }
}

/// What is loaded: each part as it was saved, and else none, or what the configuration says.
pub open spec fn loaded(saved: SavedNet, disable_new: bool, peer_own: bool) -> LocalView {
    LocalView {
        disabled: ids_in(saved.disabled),
        paused: or_else(saved.paused, false),
        known: ids_in(saved.known),
        disable_new: or_else(saved.disable_new, disable_new),
        peer_own: or_else(saved.peer_own, peer_own),
        blocked: match saved.blocked {
            Some(v) => names_in(v@),
            None => Map::empty(),
        },
        wake: false,
    }
}

fn id_set(saved: &Option<Vec<NetId>>) -> (r: Assoc<NetId, ()>)
    ensures
        r.wf(),
        r@.dom() == ids_in(*saved),
{
    let mut out: Assoc<NetId, ()> = Assoc::new();
    assert(out@.dom() =~= Set::empty());
    if let Some(v) = saved {
        let mut i: usize = 0;
        assert(out@.dom() =~= v@.take(0).to_set());
        while i < v.len()
            invariant
                i <= v.len(),
                out.wf(),
                out@.dom() == v@.take(i as int).to_set(),
            decreases v.len() - i,
        {
            out.insert(v[i], ());
            proof {
                lemma_take_set(v@, i as int);
                assert(out@.dom() =~= v@.take(i + 1).to_set());
            }
            i += 1;
        }
        assert(v@.take(i as int) =~= v@);
    }
    out
}

/// The keys of a set of networks, as a list.
fn id_list(set: &Assoc<NetId, ()>) -> (r: Vec<NetId>)
    requires
        set.wf(),
    ensures
        r@.to_set() == set@.dom(),
        r@.no_duplicates(),
{
    let mut out: Vec<NetId> = Vec::new();
    let ghost s = set.entries@;
    let mut i: usize = 0;
    while i < set.entries.len()
        invariant
            i <= set.entries.len(),
            s == set.entries@,
            out@ == Seq::new(i as nat, |k: int| s[k].0),
        decreases set.entries.len() - i,
    {
        out.push(set.entries[i].0);
        assert(out@ =~= Seq::new((i + 1) as nat, |k: int| s[k].0));
        i += 1;
    }
    assert forall|x: NetId| #[trigger] out@.to_set().contains(x) == set@.dom().contains(x) by {
        if out@.contains(x) {
            let k = choose|k: int| 0 <= k < out@.len() && out@[k] == x;
            assert(s[k].0@ == x);
        }
        if assoc::has_key(s, x) {
            let k = assoc::key_at(s, x);
            assert(out@[k] == x);
        }
    }
    assert(out@.to_set() =~= set@.dom());
    assert forall|a: int, b: int| 0 <= a < b < out@.len() implies out@[a] != out@[b] by {
        assert(s[a].0@ != s[b].0@);
    }
    out
}

impl LocalNet {
    /// The sets are well formed.
    pub open spec fn wf(&self) -> bool {
        self.disabled.wf() && self.known.wf() && self.blocked.wf()
    }

    /// The decisions as they were saved. The configuration sets the first posture only.
    pub fn load(saved: &SavedNet, disable_new_default: bool, peer_own_default: bool) -> (r: LocalNet)
        ensures
            r.wf(),
            r@ == loaded(*saved, disable_new_default, peer_own_default),
    {
        let mut blocked: Assoc<u64, String> = Assoc::new();
        assert(text_map(blocked@) =~= Map::empty());
        if let Some(v) = &saved.blocked {
            let mut i: usize = 0;
            assert(text_map(blocked@) =~= names_in(v@.take(0)));
            while i < v.len()
                invariant
                    i <= v.len(),
                    blocked.wf(),
                    text_map(blocked@) == names_in(v@.take(i as int)),
                decreases v.len() - i,
            {
                let ghost before = blocked@;
                blocked.insert(v[i].0, v[i].1.clone());
                assert(v@.take(i + 1).drop_last() =~= v@.take(i as int));
                assert(text_map(blocked@) =~= text_map(before).insert(
                    v@[i as int].0,
                    v@[i as int].1@,
                ));
                i += 1;
            }
            assert(v@.take(i as int) =~= v@);
        }
        let r = LocalNet {
            disabled: id_set(&saved.disabled),
            paused: match saved.paused {
                Some(p) => p,
                None => false,
            },
            known: id_set(&saved.known),
            disable_new: match saved.disable_new {
                Some(d) => d,
                None => disable_new_default,
            },
            peer_own: match saved.peer_own {
                Some(p) => p,
                None => peer_own_default,
            },
            blocked,
            wake: false,
        };
        assert(r@ =~= loaded(*saved, disable_new_default, peer_own_default));
        r
    }

    /// The decisions to save.
    pub fn saved(&self) -> (r: SavedNet)
        requires
            self.wf(),
        ensures
            forall|d: bool, p: bool| #[trigger]
                loaded(r, d, p) == (LocalView { wake: false, ..self@ }),
    {
        let mut names: Vec<(u64, String)> = Vec::new();
        let ghost s = self.blocked.entries@;
        let mut i: usize = 0;
        assert(text_map(assoc::map_of(s.take(0))) =~= names_in(names@));
        while i < self.blocked.entries.len()
            invariant
                i <= self.blocked.entries.len(),
                s == self.blocked.entries@,
                assoc::distinct(s),
                text_map(assoc::map_of(s.take(i as int))) == names_in(names@),
            decreases self.blocked.entries.len() - i,
        {
            let ghost before = names@;
            names.push((self.blocked.entries[i].0, self.blocked.entries[i].1.clone()));
            proof {
                let (k, v) = s[i as int];
                assoc::lemma_prefix(s, i as int);
                assoc::lemma_pushed(s.take(i as int), k, v);
                assert(s.take(i + 1) =~= s.take(i as int).push((k, v)));
                assert(names@.drop_last() =~= before);
                assert(text_map(assoc::map_of(s.take(i + 1))) =~= text_map(
                    assoc::map_of(s.take(i as int)),
                ).insert(k, v@));
            }
            i += 1;
        }
        assert(s.take(i as int) =~= s);
        let r = SavedNet {
            disabled: Some(id_list(&self.disabled)),
            paused: Some(self.paused),
            known: Some(id_list(&self.known)),
            disable_new: Some(self.disable_new),
            peer_own: Some(self.peer_own),
            blocked: Some(names),
        };
        assert forall|d: bool, p: bool| #[trigger]
            loaded(r, d, p) == (LocalView { wake: false, ..self@ }) by {
            assert(loaded(r, d, p) =~= (LocalView { wake: false, ..self@ }));
        }
        r
    }

    /// Connects (`false`) or disconnects (`true`) the mesh. Says whether that is a change.
    pub fn set_paused(&mut self, paused: bool) -> (changed: bool)
        requires
            old(self).wf(),
        ensures
            final(self).wf(),
            changed == (old(self)@.paused != paused),
            final(self)@ == (LocalView { paused, wake: old(self)@.wake || changed, ..old(self)@ }),
    {
        let changed = self.paused != paused;
        self.paused = paused;
        if changed {
            self.wake = true;
        }
        changed
    }

    /// Whether the mesh is disconnected.
    pub fn is_paused(&self) -> (r: bool)
        ensures
            r == self@.paused,
    {
        self.paused
    }

    /// Whether a new network starts out disabled.
    pub fn disable_new(&self) -> (r: bool)
        ensures
            r == self@.disable_new,
    {
        self.disable_new
    }

    /// Sets whether a new network starts out disabled. It bears on no network that is known, so the
    /// mesh is not rebuilt.
    pub fn set_disable_new(&mut self, disable: bool) -> (changed: bool)
        requires
            old(self).wf(),
        ensures
            final(self).wf(),
            changed == (old(self)@.disable_new != disable),
            final(self)@ == (LocalView { disable_new: disable, ..old(self)@ }),
    {
        let changed = self.disable_new != disable;
        self.disable_new = disable;
        changed
    }

    /// Whether to peer with the owner's other devices though they share no network.
    pub fn peer_own_devices(&self) -> (r: bool)
        ensures
            r == self@.peer_own,
    {
        self.peer_own
    }

    /// Sets whether to peer with the owner's other devices.
    pub fn set_peer_own_devices(&mut self, enabled: bool) -> (changed: bool)
        requires
            old(self).wf(),
        ensures
            final(self).wf(),
            changed == (old(self)@.peer_own != enabled),
            final(self)@ == (LocalView {
                peer_own: enabled,
                wake: old(self)@.wake || changed,
                ..old(self)@
            }),
    {
        let changed = self.peer_own != enabled;
        self.peer_own = enabled;
        if changed {
            self.wake = true;
        }
        changed
    }

    /// Blocks a user, keeping the name for display, or lets the user in again. A user that is
    /// blocked already takes the new name, which is no change.
    pub fn set_blocked(&mut self, user_id: u64, username: String, blocked: bool) -> (changed: bool)
        requires
            old(self).wf(),
        ensures
            final(self).wf(),
            changed == (old(self)@.blocked.contains_key(user_id) != blocked),
            final(self)@ == (LocalView {
                blocked: if blocked {
                    old(self)@.blocked.insert(user_id, username@)
                } else {
                    old(self)@.blocked.remove(user_id)
                },
                wake: old(self)@.wake || changed,
                ..old(self)@
            }),
    {
        let ghost before = self.blocked@;
        let ghost name = username@;
        let had = self.blocked.contains(&user_id);
        if blocked {
            self.blocked.insert(user_id, username);
            assert(text_map(self.blocked@) =~= text_map(before).insert(user_id, name));
        } else {
            self.blocked.remove(&user_id);
            assert(text_map(self.blocked@) =~= text_map(before).remove(user_id));
        }
        if had != blocked {
            self.wake = true;
        }
        had != blocked
    }

    /// The blocked users, each with a name.
    pub fn blocked_snapshot(&self) -> (r: &Assoc<u64, String>)
        requires
            self.wf(),
        ensures
            r.wf(),
            text_map(r@) == self@.blocked,
    {
        &self.blocked
    }

    /// Records the networks that the coordinator reports. One that was never seen is known from now
    /// on and, if so set, disabled. Says whether the disabled set changed.
    pub fn reconcile_new(&mut self, present: &Vec<NetId>) -> (changed: bool)
        requires
            old(self).wf(),
        ensures
            final(self).wf(),
            final(self)@ == with_present(old(self)@, present@.to_set()),
            changed == (final(self)@.disabled != old(self)@.disabled),
    {
        let ghost start = self@;
        let mut changed = false;
        let mut i: usize = 0;
        assert(start =~= with_present(start, present@.take(0).to_set()));
        while i < present.len()
            invariant
                i <= present.len(),
                self.wf(),
                self@ == with_present(start, present@.take(i as int).to_set()),
                changed == (self@.disabled != start.disabled),
                self.disable_new == start.disable_new,
            decreases present.len() - i,
        {
            let n = present[i];
            let ghost seen = present@.take(i as int).to_set();
            let ghost mid = self@;
            let is_known = self.known.contains(&n);
            if !is_known {
                self.known.insert(n, ());
                if self.disable_new {
                    let was = self.disabled.contains(&n);
                    self.disabled.insert(n, ());
                    if !was {
                        changed = true;
                    }
                }
            }
            proof {
                let more = present@.take(i + 1).to_set();
                lemma_take_set(present@, i as int);
                assert(more == seen.insert(n));
                assert(self@ =~= with_present(start, more));
                assert(mid.disabled.contains(n) ==> mid.disabled.insert(n) =~= mid.disabled);
                if !is_known && self.disable_new && !mid.disabled.contains(n) {
                    assert(self@.disabled.contains(n) && !start.disabled.contains(n));
                } else {
                    assert(self@.disabled =~= mid.disabled);
                }
            }
            i += 1;
        }
        assert(present@.take(i as int) =~= present@);
        changed
    }

    /// Enables or disables peering in a network. Says whether that is a change.
    pub fn set(&mut self, guild_id: u64, role_id: u64, enabled: bool) -> (changed: bool)
        requires
            old(self).wf(),
        ensures
            final(self).wf(),
            changed == (old(self)@.disabled.contains((guild_id, role_id)) == enabled),
            final(self)@ == (LocalView {
                disabled: if enabled {
                    old(self)@.disabled.remove((guild_id, role_id))
                } else {
                    old(self)@.disabled.insert((guild_id, role_id))
                },
                wake: old(self)@.wake || changed,
                ..old(self)@
            }),
    {
        let had = self.disabled.contains(&(guild_id, role_id));
        let ghost before = self.disabled@.dom();
        if enabled {
            self.disabled.remove(&(guild_id, role_id));
            assert(self.disabled@.dom() =~= before.remove((guild_id, role_id)));
        } else {
            self.disabled.insert((guild_id, role_id), ());
            assert(self.disabled@.dom() =~= before.insert((guild_id, role_id)));
        }
        if had == enabled {
            self.wake = true;
        }
        had == enabled
    }

    /// The networks that the device does not peer in.
    pub fn snapshot(&self) -> (r: &Assoc<NetId, ()>)
        requires
            self.wf(),
        ensures
            r.wf(),
            r@.dom() == self@.disabled,
    {
        &self.disabled
    }

    /// The networks that the device does not peer in, for the coordinator.
    pub fn as_refs(&self) -> (r: Vec<NetId>)
        requires
            self.wf(),
        ensures
            r@.to_set() == self@.disabled,
            r@.no_duplicates(),
    {
        id_list(&self.disabled)
    }

    /// Whether the mesh is to be rebuilt; it is, once, for any number of changes.
    pub fn take_wake(&mut self) -> (r: bool)
        requires
            old(self).wf(),
        ensures
            final(self).wf(),
            r == old(self)@.wake,
            final(self)@ == (LocalView { wake: false, ..old(self)@ }),
    {
        let r = self.wake;
        self.wake = false;
        r
    }
}

proof fn lemma_take_set(s: Seq<NetId>, i: int)
    requires
        0 <= i < s.len(),
    ensures
        s.take(i + 1).to_set() == s.take(i).to_set().insert(s[i]),
{
    let a = s.take(i);
    let b = s.take(i + 1);
    assert forall|x: NetId| #[trigger] b.to_set().contains(x) == a.to_set().insert(s[i]).contains(
        x,
    ) by {
        if a.contains(x) {
            let k = choose|k: int| 0 <= k < a.len() && a[k] == x;
            assert(b[k] == x);
        }
        assert(b[i] == s[i]);
        if b.contains(x) {
            let k = choose|k: int| 0 <= k < b.len() && b[k] == x;
            if k < i {
                assert(a[k] == x);
            }
        }
    }
    assert(b.to_set() =~= a.to_set().insert(s[i]));
}

/// The decisions once a set of networks was seen.
pub open spec fn with_present(v: LocalView, present: Set<NetId>) -> LocalView {
    LocalView {
        known: v.known.union(present),
        disabled: if v.disable_new {
            v.disabled.union(present.difference(v.known))
        } else {
            v.disabled
        },
        ..v
    }
}

/// A network is disabled on discovery at most once: an owner who then enables it is not overruled
/// when the network is seen again.
pub proof fn law_manual_choice_sticks(v: LocalView, present: Set<NetId>, n: NetId)
    requires
        v.known.contains(n),
    ensures
        with_present(v, present).disabled.contains(n) == v.disabled.contains(n),
{
}

/// Seeing the same networks again changes nothing.
pub proof fn law_seeing_again_changes_nothing(v: LocalView, present: Set<NetId>)
    ensures
        with_present(with_present(v, present), present) == with_present(v, present),
{
    let once = with_present(v, present);
    assert(with_present(once, present) =~= once);
}

/// What was saved wins over the configuration: the decisions come back as they were, whatever the
/// configuration says.
pub proof fn law_saved_wins(saved: SavedNet, d1: bool, p1: bool, d2: bool, p2: bool)
    requires
        saved.disable_new is Some,
        saved.peer_own is Some,
    ensures
        loaded(saved, d1, p1) == loaded(saved, d2, p2),
{
}

/// What was saved is loaded as it was: every list with what stands in it, and every switch as it was
/// set. What was never saved is empty or off, and the two postures are as configured.
pub proof fn law_loaded_as_saved(saved: SavedNet, disable_new: bool, peer_own: bool, id: NetId)
    ensures
        ({
            let l = loaded(saved, disable_new, peer_own);
            &&& l.disabled.contains(id) <==> saved.disabled is Some && saved.disabled->0@.contains(id)
            &&& l.known.contains(id) <==> saved.known is Some && saved.known->0@.contains(id)
            &&& l.paused == (saved.paused == Some(true))
            &&& l.disable_new == if saved.disable_new is Some {
                saved.disable_new->0
            } else {
                disable_new
            }
            &&& l.peer_own == if saved.peer_own is Some {
                saved.peer_own->0
            } else {
                peer_own
            }
            &&& !l.wake
        }),
{
}

/// Whoever was blocked is, under the name that was saved last, and nobody else is.
pub proof fn law_blocked_as_saved(saved: SavedNet, disable_new: bool, peer_own: bool, user: u64)
    ensures
        ({
            let l = loaded(saved, disable_new, peer_own);
            &&& saved.blocked is None ==> !l.blocked.contains_key(user)
            &&& saved.blocked matches Some(v) ==> {
                &&& l.blocked.contains_key(user) <==> exists|i: int|
                    0 <= i < v@.len() && (#[trigger] v@[i]).0 == user
                &&& forall|i: int|
                    0 <= i < v@.len() && (#[trigger] v@[i]).0 == user && (forall|j: int|
                        i < j < v@.len() ==> (#[trigger] v@[j]).0 != user) ==> l.blocked[user]
                        == v@[i].1@
            }
        }),
{
    if let Some(v) = saved.blocked {
        if forall|i: int| 0 <= i < v@.len() ==> (#[trigger] v@[i]).0 != user {
            lemma_unnamed(v@, user);
        } else {
            lemma_last_of(v@, user);
        }
        assert forall|i: int|
            0 <= i < v@.len() && (#[trigger] v@[i]).0 == user && (forall|j: int|
                i < j < v@.len() ==> (#[trigger] v@[j]).0 != user) implies names_in(v@)[user]
            == v@[i].1@ by {
            lemma_named(v@, user, i);
        }
    }
}

proof fn lemma_unnamed(s: Seq<(u64, String)>, user: u64)
    requires
        forall|i: int| 0 <= i < s.len() ==> (#[trigger] s[i]).0 != user,
    ensures
        !names_in(s).contains_key(user),
    decreases s.len(),
{
    if s.len() > 0 {
        let f = s.drop_last();
        assert forall|i: int| 0 <= i < f.len() implies (#[trigger] f[i]).0 != user by {
            assert(s[i].0 != user);
        }
        lemma_unnamed(f, user);
        assert(s[s.len() - 1].0 != user);
    }
}

proof fn lemma_named(s: Seq<(u64, String)>, user: u64, i: int)
    requires
        0 <= i < s.len(),
        s[i].0 == user,
        forall|j: int| i < j < s.len() ==> (#[trigger] s[j]).0 != user,
    ensures
        names_in(s).contains_key(user),
        names_in(s)[user] == s[i].1@,
    decreases s.len(),
{
    if i < s.len() - 1 {
        let f = s.drop_last();
        assert forall|j: int| i < j < f.len() implies (#[trigger] f[j]).0 != user by {
            assert(s[j].0 != user);
        }
        lemma_named(f, user, i);
        assert(s[s.len() - 1].0 != user);
    }
}

proof fn lemma_last_of(s: Seq<(u64, String)>, user: u64)
    requires
        exists|i: int| 0 <= i < s.len() && (#[trigger] s[i]).0 == user,
    ensures
        names_in(s).contains_key(user),
    decreases s.len(),
{
    if s.last().0 != user {
        let f = s.drop_last();
        let i = choose|i: int| 0 <= i < s.len() && (#[trigger] s[i]).0 == user;
        assert(f[i].0 == user);
        lemma_last_of(f, user);
    }
}

/// Every network that is seen becomes known. Where new ones start out disabled, just those that were
/// not known are disabled; no other setting changes.
pub proof fn law_new_networks_are_disabled_where_wanted(
    v: LocalView,
    present: Set<NetId>,
    id: NetId,
)
    ensures
        ({
            let w = with_present(v, present);
            &&& w.known.contains(id) <==> v.known.contains(id) || present.contains(id)
            &&& w.disabled.contains(id) <==> v.disabled.contains(id) || (v.disable_new
                && present.contains(id) && !v.known.contains(id))
            &&& w.paused == v.paused
            &&& w.disable_new == v.disable_new
            &&& w.peer_own == v.peer_own
            &&& w.blocked == v.blocked
            &&& w.wake == v.wake
        }),
{
}

/// A warning is of the first interface, other than the mesh's own and the loopback, on which some
/// address lies in the mesh's block too; there is none if and only if there is no such interface.
pub proof fn law_first_overlap_is_warned_of(mesh: Net, mesh_iface: Seq<char>, addrs: Seq<LocalAddr>)
    ensures
        ({
            let i = shadowed_from(mesh, mesh_iface, addrs, 0);
            &&& 0 <= i <= addrs.len()
            &&& i < addrs.len() ==> meets_mesh(mesh, mesh_iface, addrs[i])
            &&& forall|j: int| 0 <= j < i ==> !meets_mesh(mesh, mesh_iface, #[trigger] addrs[j])
        }),
{
    lemma_shadowed_from(mesh, mesh_iface, addrs, 0);
}

/// Whether an address of the mesh's block lies in the subnet of an interface that is neither the mesh's
/// own nor the loopback.
pub open spec fn meets_mesh(mesh: Net, mesh_iface: Seq<char>, a: LocalAddr) -> bool {
    &&& a.name@ != mesh_iface
    &&& !a.loopback
    &&& exists|p: u8, ip: u32|
        p <= 32 && a.mask == 0x1_0000_0000 - vstd::arithmetic::power2::pow2((32 - p) as nat)
            && #[trigger] mesh.has(ip) && #[trigger] (Net { addr: a.ip, prefix: p }).has(ip)
}

proof fn lemma_shadowed_from(mesh: Net, mesh_iface: Seq<char>, addrs: Seq<LocalAddr>, i: int)
    requires
        0 <= i <= addrs.len(),
    ensures
        ({
            let k = shadowed_from(mesh, mesh_iface, addrs, i);
            &&& i <= k <= addrs.len()
            &&& k < addrs.len() ==> meets_mesh(mesh, mesh_iface, addrs[k])
            &&& forall|j: int| i <= j < k ==> !meets_mesh(mesh, mesh_iface, #[trigger] addrs[j])
        }),
    decreases addrs.len() - i,
{
    if i < addrs.len() {
        let a = addrs[i];
        if shadowed(mesh, mesh_iface, a) {
            let p = choose|p: u8|
                p <= 32 && a.mask == #[trigger] net::mask_of(p as nat) && mesh.meets(
                    Net { addr: a.ip, prefix: p },
                );
            let other = Net { addr: a.ip, prefix: p };
            let ip = choose|ip: u32| #[trigger] mesh.has(ip) && other.has(ip);
            assert(mesh.has(ip) && other.has(ip));
        } else {
            if meets_mesh(mesh, mesh_iface, a) {
                let (p, ip) = choose|p: u8, ip: u32|
                    p <= 32 && a.mask == 0x1_0000_0000 - vstd::arithmetic::power2::pow2(
                        (32 - p) as nat,
                    ) && #[trigger] mesh.has(ip) && #[trigger] (Net { addr: a.ip, prefix: p }).has(
                        ip,
                    );
                assert(a.mask == net::mask_of(p as nat));
                assert(mesh.meets(Net { addr: a.ip, prefix: p }));
            }
            lemma_shadowed_from(mesh, mesh_iface, addrs, i + 1);
        }
    }
}

/// A warning says which block meets which interface, and the interface's subnet by its lowest address.
pub proof fn law_what_a_warning_says(w: Seq<char>, mesh: Net, a: LocalAddr, p: u8)
    requires
        p <= 32,
        a.mask == net::mask_of(p as nat),
        warns_of(w, mesh, a),
    ensures
        w == "mesh range "@ + mesh.text() + " overlaps local interface "@ + a.name@ + " ("@ + (Net {
            addr: (Net { addr: a.ip, prefix: p }).base() as u32,
            prefix: p,
        }).text() + ")"@,
{
    let q = choose|p: u8|
        p <= 32 && a.mask == #[trigger] net::mask_of(p as nat) && w == overlap_text(
            mesh,
            a.name@,
            Net { addr: Net { addr: a.ip, prefix: p }.base() as u32, prefix: p },
        );
    lemma_mask(p, q);
}

} // verus!
