//! The nftables rendering of the exposed set.
//!
//! The whole `inet unitylan` table is rendered for one atomic load, so that the ruleset is always a
//! function of the exposed set and of the addresses behind each scope.
//!
//! The mesh addresses lie in `100.64.0.0/10`. Other tools that use this block may install a rule
//! that drops packets from it on any interface but their own, which would silence the mesh: a `drop`
//! in any base chain wins over an `accept` here. The second half of this module finds such a rule in
//! a listed ruleset and says which exemptions to insert ahead of it, and which to delete again.
use crate::api::{self, ExposeScope, Proto};
use crate::fw::{self, Exposed, FirewallBackend, PeerSets};
use crate::net::{self, join_v4, v4_text};
use crate::order;
use crate::text;
use vstd::prelude::*;
use vstd::string::*;

verus! {

/// Renders the rules for nftables.
pub struct NftBackend;

/// Whether `c` may stand in a set name as it is.
pub open spec fn plain_char(c: char) -> bool {
    ('a' <= c && c <= 'z') || ('A' <= c && c <= 'Z') || ('0' <= c && c <= '9')
}

/// `s` as a part of a set name.
pub open spec fn plain(s: Seq<char>) -> Seq<char> {
    s.map_values(
        |c: char|
            if plain_char(c) {
                c
            } else {
                '_'
            },
    )
}

fn to_plain(s: &str) -> (r: String)
    ensures
        r@ == plain(s@),
{
    let v = text::chars_of(s);
    let mut out = String::new();
    let mut i: usize = 0;
    assert(out@ =~= plain(s@).take(0));
    while i < v.len()
        invariant
            i <= v.len(),
            v@ == s@,
            out@ == plain(s@).take(i as int),
        decreases v.len() - i,
    {
        let c = v[i];
        if ('a' <= c && c <= 'z') || ('A' <= c && c <= 'Z') || ('0' <= c && c <= '9') {
            out.push(c);
        } else {
            out.push('_');
        }
        assert(out@ =~= plain(s@).take(i + 1));
        i += 1;
    }
    assert(plain(s@).take(i as int) =~= plain(s@));
    out
}

/// The name of the set that holds a scope's addresses. A network's is made of its ids, so that no
/// two networks share one; only a scope that is still a typed name has its text cleaned, under a
/// prefix of its own.
pub open spec fn set_of(scope: api::ScopeView) -> Seq<char> {
    match scope {
        api::ScopeView::AllPeers => seq![],
        api::ScopeView::OwnDevices => "own_devices"@,
        api::ScopeView::Net { guild_id, role_id } => "net_"@ + text::dec(guild_id as nat) + "_"@
            + text::dec(role_id as nat),
        api::ScopeView::Unresolved { guild, name } => "named_"@ + plain(
            match guild {
                Some(g) => g,
                None => seq![],
            },
        ) + "_"@ + plain(name),
    }
}

/// The name of the set that holds a scope's addresses.
pub fn set_name(scope: &ExposeScope) -> (r: String)
    ensures
        r@ == set_of(scope@),
{
    match scope {
        ExposeScope::AllPeers => {
            let r = String::new();
            assert(r@ =~= seq![]);
            r
        },
        ExposeScope::OwnDevices => "own_devices".to_owned(),
        ExposeScope::Net { guild_id, role_id } => {
            let mut r = "net_".to_owned();
            r.append(text::decimal(*guild_id).as_str());
            r.append("_");
            r.append(text::decimal(*role_id).as_str());
            r
        },
        ExposeScope::Unresolved { guild, name } => {
            let mut r = "named_".to_owned();
            match guild {
                Some(g) => {
                    r.append(to_plain(g.as_str()).as_str());
                },
                None => {
                    assert(plain(seq![]) =~= seq![]);
                    assert(r@ + plain(seq![]) =~= r@);
                },
            }
            r.append("_");
            r.append(to_plain(name.as_str()).as_str());
            r
        },
    }
}

/// Whether an exposure is restricted to some peers.
pub open spec fn scoped(e: fw::ExposedView) -> bool {
    e.scope !is AllPeers
}

/// Where a name stands, or would stand, in a sorted list, at or after `i`.
pub open spec fn place(s: Seq<Seq<char>>, x: Seq<char>, i: int) -> int
    decreases s.len() - i,
{
    if i >= s.len() {
        s.len() as int
    } else if order::text_le(x, s[i]) {
        i
    } else {
        place(s, x, i + 1)
    }
}

/// A sorted list with a name in it, once.
pub open spec fn with_name(s: Seq<Seq<char>>, x: Seq<char>) -> Seq<Seq<char>> {
    let i = place(s, x, 0);
    if 0 <= i < s.len() && s[i] == x {
        s
    } else {
        s.insert(i, x)
    }
}

/// The names of the sets that the scoped exposures need, sorted.
pub open spec fn set_names(exposed: Seq<fw::ExposedView>) -> Seq<Seq<char>>
    decreases exposed.len(),
{
    if exposed.len() == 0 {
        seq![]
    } else if scoped(exposed.last()) {
        with_name(set_names(exposed.drop_last()), set_of(exposed.last().scope))
    } else {
        set_names(exposed.drop_last())
    }
}

/// The last of the first `i` exposures whose scope goes by a set name, or -1.
pub open spec fn last_of_set(exposed: Seq<fw::ExposedView>, name: Seq<char>, i: int) -> int
    decreases i,
{
    if i <= 0 {
        -1
    } else if scoped(exposed[i - 1]) && set_of(exposed[i - 1].scope) == name {
        i - 1
    } else {
        last_of_set(exposed, name, i - 1)
    }
}

/// The addresses in a set.
pub open spec fn set_members(
    exposed: Seq<fw::ExposedView>,
    peers: fw::PeersView,
    name: Seq<char>,
) -> Seq<u32> {
    let i = last_of_set(exposed, name, exposed.len() as int);
    if i < 0 {
        seq![]
    } else {
        match peers.sources(exposed[i].scope) {
            Some(ips) => ips,
            None => seq![],
        }
    }
}

/// The lines that define one set.
pub open spec fn set_lines(name: Seq<char>, members: Seq<u32>) -> Seq<Seq<char>> {
    let define = "add set inet unitylan "@ + name + " { type ipv4_addr ; }"@;
    if members.len() == 0 {
        seq![define]
    } else {
        seq![
            define,
            "add element inet unitylan "@ + name + " { "@ + text::join(
                net::dotted_list(members),
                ", "@,
            ) + " }"@,
        ]
    }
}

/// The lines that define the first `i` of the sets.
pub open spec fn all_set_lines(
    exposed: Seq<fw::ExposedView>,
    peers: fw::PeersView,
    names: Seq<Seq<char>>,
) -> Seq<Seq<char>>
    decreases names.len(),
{
    if names.len() == 0 {
        seq![]
    } else {
        all_set_lines(exposed, peers, names.drop_last()) + set_lines(
            names.last(),
            set_members(exposed, peers, names.last()),
        )
    }
}

/// The lines that replace the table with an empty one.
pub open spec fn opening_lines() -> Seq<Seq<char>> {
    seq![
        "add table inet unitylan"@,
        "delete table inet unitylan"@,
        "add table inet unitylan"@,
    ]
}

/// The lines that refuse what comes to the mesh address on another interface than the mesh's, the
/// loopback apart.
pub open spec fn guard_lines(iface: Seq<char>, mesh_addr: Option<u32>) -> Seq<Seq<char>> {
    match mesh_addr {
        Some(a) => seq![
            "add rule inet unitylan input iifname != { \"lo\", \""@ + iface + "\" } ip daddr "@
                + net::dotted(a) + " drop"@,
        ],
        None => seq![],
    }
}

/// The lines that hold whatever is exposed: other interfaces are left alone, answers to what this
/// host began come in, and so do pings and the mesh's own refresh traffic.
pub open spec fn base_lines(iface: Seq<char>, p2p_port: u16) -> Seq<Seq<char>> {
    seq![
        "add rule inet unitylan input iifname != \""@ + iface + "\" accept"@,
        "add rule inet unitylan input ct state established,related accept"@,
        "add rule inet unitylan input icmp type echo-request accept"@,
        "add rule inet unitylan input udp dport "@ + text::dec(p2p_port as nat) + " accept"@,
    ]
}

/// The ports of a protocol that any peer reaches.
pub open spec fn open_ports(exposed: Seq<fw::ExposedView>, proto: Proto) -> Seq<Seq<char>>
    decreases exposed.len(),
{
    if exposed.len() == 0 {
        seq![]
    } else {
        let before = open_ports(exposed.drop_last(), proto);
        let e = exposed.last();
        if !scoped(e) && e.proto == proto {
            before.push(text::dec(e.port as nat))
        } else {
            before
        }
    }
}

/// The lines that open a protocol's unscoped ports.
pub open spec fn open_lines(exposed: Seq<fw::ExposedView>, proto: Proto) -> Seq<Seq<char>> {
    let ports = open_ports(exposed, proto);
    if ports.len() == 0 {
        seq![]
    } else {
        seq![
            "add rule inet unitylan input "@ + proto.text() + " dport { "@ + text::join(
                ports,
                ", "@,
            ) + " } accept"@,
        ]
    }
}

/// The line that opens a port to the addresses of a scope.
pub open spec fn scoped_line(e: fw::ExposedView) -> Seq<char> {
    "add rule inet unitylan input ip saddr @"@ + set_of(e.scope) + " "@ + e.proto.text()
        + " dport "@ + text::dec(e.port as nat) + " accept"@
}

/// The lines that open the scoped ports.
pub open spec fn scoped_lines(exposed: Seq<fw::ExposedView>) -> Seq<Seq<char>>
    decreases exposed.len(),
{
    if exposed.len() == 0 {
        seq![]
    } else if scoped(exposed.last()) {
        scoped_lines(exposed.drop_last()).push(scoped_line(exposed.last()))
    } else {
        scoped_lines(exposed.drop_last())
    }
}

/// The line that refuses everything else on the mesh interface.
pub open spec fn closing_line() -> Seq<char> {
    "add rule inet unitylan input drop"@
}

/// The script, line by line.
pub open spec fn rules(
    iface: Seq<char>,
    mesh_addr: Option<u32>,
    exposed: Seq<fw::ExposedView>,
    peers: fw::PeersView,
    p2p_port: u16,
) -> Seq<Seq<char>> {
    (opening_lines() + all_set_lines(exposed, peers, set_names(exposed))).push(
        "add chain inet unitylan input { type filter hook input priority 0 ; policy accept ; }"@,
    ) + guard_lines(iface, mesh_addr) + base_lines(iface, p2p_port) + open_lines(
        exposed,
        Proto::Tcp,
    ) + open_lines(exposed, Proto::Udp) + scoped_lines(exposed) + seq![closing_line()]
}

fn insert_name(names: &mut Vec<String>, x: String)
    ensures
        text::texts(final(names)@) == with_name(text::texts(old(names)@), x@),
{
    let ghost s = text::texts(names@);
    let mut i: usize = 0;
    while i < names.len() && !order::text_leq(x.as_str(), names[i].as_str())
        invariant
            i <= names.len(),
            s == text::texts(names@),
            place(s, x@, 0) == place(s, x@, i as int),
        decreases names.len() - i,
    {
        i += 1;
    }
    if i < names.len() && text::same(names[i].as_str(), x.as_str()) {
        return;
    }
    let ghost t = x@;
    names.insert(i, x);
    assert(text::texts(names@) =~= s.insert(i as int, t));
}

fn needed_sets(exposed: &Vec<Exposed>) -> (r: Vec<String>)
    ensures
        text::texts(r@) == set_names(fw::exposed_views(exposed@)),
{
    let ghost es = fw::exposed_views(exposed@);
    let mut out: Vec<String> = Vec::new();
    let mut i: usize = 0;
    assert(text::texts(out@) =~= set_names(es.take(0)));
    while i < exposed.len()
        invariant
            i <= exposed.len(),
            es == fw::exposed_views(exposed@),
            text::texts(out@) == set_names(es.take(i as int)),
        decreases exposed.len() - i,
    {
        assert(es.take(i + 1).drop_last() =~= es.take(i as int));
        match &exposed[i].scope {
            ExposeScope::AllPeers => {},
            s => {
                insert_name(&mut out, set_name(s));
            },
        }
        i += 1;
    }
    assert(es.take(i as int) =~= es);
    out
}

fn is_scoped(scope: &ExposeScope) -> (r: bool)
    ensures
        r == (scope@ !is AllPeers),
{
    match scope {
        ExposeScope::AllPeers => false,
        _ => true,
    }
}

fn push_set(lines: &mut Vec<String>, exposed: &Vec<Exposed>, peers: &PeerSets, name: &String)
    ensures
        text::texts(final(lines)@) == text::texts(old(lines)@) + set_lines(
            name@,
            set_members(fw::exposed_views(exposed@), peers@, name@),
        ),
{
    let ghost es = fw::exposed_views(exposed@);
    let ghost before = text::texts(lines@);
    let mut i: usize = exposed.len();
    while i > 0 && !(is_scoped(&exposed[i - 1].scope) && text::same(
        set_name(&exposed[i - 1].scope).as_str(),
        name.as_str(),
    ))
        invariant
            i <= exposed.len(),
            es == fw::exposed_views(exposed@),
            last_of_set(es, name@, es.len() as int) == last_of_set(es, name@, i as int),
        decreases i,
    {
        i -= 1;
    }
    let ghost members = set_members(es, peers@, name@);
    let mut define = "add set inet unitylan ".to_owned();
    define.append(name.as_str());
    define.append(" { type ipv4_addr ; }");
    lines.push(define);
    assert(text::texts(lines@) =~= before.push(define@));
    if i > 0 {
        match peers.sources(&exposed[i - 1].scope) {
            Some(ips) => {
                if ips.len() > 0 {
                    let ghost mid = text::texts(lines@);
                    let mut fill = "add element inet unitylan ".to_owned();
                    fill.append(name.as_str());
                    fill.append(" { ");
                    fill.append(join_v4(ips, ", ").as_str());
                    fill.append(" }");
                    lines.push(fill);
                    assert(text::texts(lines@) =~= mid.push(fill@));
                }
            },
            None => {},
        }
    }
    assert(text::texts(lines@) =~= before + set_lines(name@, members));
}

/// The ports of a protocol that any peer reaches, with commas between them.
pub fn unscoped_ports(exposed: &Vec<Exposed>, proto: Proto) -> (r: String)
    ensures
        r@ == text::join(open_ports(fw::exposed_views(exposed@), proto), ", "@),
{
    text::join_with(&port_list(exposed, proto), ", ")
}

fn port_list(exposed: &Vec<Exposed>, proto: Proto) -> (r: Vec<String>)
    ensures
        text::texts(r@) == open_ports(fw::exposed_views(exposed@), proto),
{
    let ghost es = fw::exposed_views(exposed@);
    let mut out: Vec<String> = Vec::new();
    let mut i: usize = 0;
    assert(text::texts(out@) =~= open_ports(es.take(0), proto));
    while i < exposed.len()
        invariant
            i <= exposed.len(),
            es == fw::exposed_views(exposed@),
            text::texts(out@) == open_ports(es.take(i as int), proto),
        decreases exposed.len() - i,
    {
        assert(es.take(i + 1).drop_last() =~= es.take(i as int));
        let e = &exposed[i];
        if !is_scoped(&e.scope) && e.proto == proto {
            text::push_text(&mut out, text::decimal(e.port as u64));
        }
        i += 1;
    }
    assert(es.take(i as int) =~= es);
    out
}

fn push_open(lines: &mut Vec<String>, exposed: &Vec<Exposed>, proto: Proto)
    ensures
        text::texts(final(lines)@) == text::texts(old(lines)@) + open_lines(
            fw::exposed_views(exposed@),
            proto,
        ),
{
    let ghost before = text::texts(lines@);
    let ports = port_list(exposed, proto);
    if ports.len() > 0 {
        let mut line = "add rule inet unitylan input ".to_owned();
        line.append(proto.as_str());
        line.append(" dport { ");
        line.append(unscoped_ports(exposed, proto).as_str());
        line.append(" } accept");
        text::push_text(lines, line);
    }
    assert(text::texts(lines@) =~= before + open_lines(fw::exposed_views(exposed@), proto));
}

fn push_scoped(lines: &mut Vec<String>, exposed: &Vec<Exposed>)
    ensures
        text::texts(final(lines)@) == text::texts(old(lines)@) + scoped_lines(
            fw::exposed_views(exposed@),
        ),
{
    let ghost es = fw::exposed_views(exposed@);
    let ghost before = text::texts(lines@);
    let mut i: usize = 0;
    assert(text::texts(lines@) =~= before + scoped_lines(es.take(0)));
    while i < exposed.len()
        invariant
            i <= exposed.len(),
            es == fw::exposed_views(exposed@),
            text::texts(lines@) == before + scoped_lines(es.take(i as int)),
        decreases exposed.len() - i,
    {
        assert(es.take(i + 1).drop_last() =~= es.take(i as int));
        let e = &exposed[i];
        if is_scoped(&e.scope) {
            let mut line = "add rule inet unitylan input ip saddr @".to_owned();
            line.append(set_name(&e.scope).as_str());
            line.append(" ");
            line.append(e.proto.as_str());
            line.append(" dport ");
            line.append(text::decimal(e.port as u64).as_str());
            line.append(" accept");
            text::push_text(lines, line);
        }
        assert(text::texts(lines@) =~= before + scoped_lines(es.take(i + 1)));
        i += 1;
    }
    assert(es.take(i as int) =~= es);
}

fn push_sets(lines: &mut Vec<String>, exposed: &Vec<Exposed>, peers: &PeerSets)
    ensures
        text::texts(final(lines)@) == text::texts(old(lines)@) + all_set_lines(
            fw::exposed_views(exposed@),
            peers@,
            set_names(fw::exposed_views(exposed@)),
        ),
{
    let ghost es = fw::exposed_views(exposed@);
    let ghost before = text::texts(lines@);
    let names = needed_sets(exposed);
    let ghost ns = text::texts(names@);
    let mut i: usize = 0;
    assert(text::texts(lines@) =~= before + all_set_lines(es, peers@, ns.take(0)));
    while i < names.len()
        invariant
            i <= names.len(),
            es == fw::exposed_views(exposed@),
            ns == text::texts(names@),
            text::texts(lines@) == before + all_set_lines(es, peers@, ns.take(i as int)),
        decreases names.len() - i,
    {
        assert(ns.take(i + 1).drop_last() =~= ns.take(i as int));
        push_set(lines, exposed, peers, &names[i]);
        assert(text::texts(lines@) =~= before + all_set_lines(es, peers@, ns.take(i + 1)));
        i += 1;
    }
    assert(ns.take(i as int) =~= ns);
}

fn push_base(lines: &mut Vec<String>, iface: &str, mesh_addr: Option<u32>, p2p_port: u16)
    ensures
        text::texts(final(lines)@) == text::texts(old(lines)@) + guard_lines(iface@, mesh_addr)
            + base_lines(iface@, p2p_port),
{
    let ghost before = text::texts(lines@);
    match mesh_addr {
        Some(a) => {
            let mut guard = "add rule inet unitylan input iifname != { \"lo\", \"".to_owned();
            guard.append(iface);
            guard.append("\" } ip daddr ");
            guard.append(v4_text(a).as_str());
            guard.append(" drop");
            text::push_text(lines, guard);
        },
        None => {},
    }
    assert(text::texts(lines@) =~= before + guard_lines(iface@, mesh_addr));
    let ghost mid = text::texts(lines@);
    let mut others = "add rule inet unitylan input iifname != \"".to_owned();
    others.append(iface);
    others.append("\" accept");
    text::push_text(lines, others);
    text::push_text(
        lines,
        "add rule inet unitylan input ct state established,related accept".to_owned(),
    );
    text::push_text(lines, "add rule inet unitylan input icmp type echo-request accept".to_owned());
    let mut refresh = "add rule inet unitylan input udp dport ".to_owned();
    refresh.append(text::decimal(p2p_port as u64).as_str());
    refresh.append(" accept");
    text::push_text(lines, refresh);
    assert(text::texts(lines@) =~= mid + base_lines(iface@, p2p_port));
}

/// The script that replaces the table. Only traffic on `iface` is policed.
pub fn ruleset(
    iface: &str,
    mesh_addr: Option<u32>,
    exposed: &Vec<Exposed>,
    peers: &PeerSets,
    p2p_port: u16,
) -> (r: String)
    ensures
        r@ == text::unlines(
            rules(iface@, mesh_addr, fw::exposed_views(exposed@), peers@, p2p_port),
        ),
{
    let mut lines: Vec<String> = Vec::new();
    assert(text::texts(lines@) =~= seq![]);
    text::push_text(&mut lines, "add table inet unitylan".to_owned());
    text::push_text(&mut lines, "delete table inet unitylan".to_owned());
    text::push_text(&mut lines, "add table inet unitylan".to_owned());
    assert(text::texts(lines@) =~= opening_lines());
    push_sets(&mut lines, exposed, peers);
    text::push_text(
        &mut lines,
        "add chain inet unitylan input { type filter hook input priority 0 ; policy accept ; }".to_owned(),
    );
    push_base(&mut lines, iface, mesh_addr, p2p_port);
    push_open(&mut lines, exposed, Proto::Tcp);
    push_open(&mut lines, exposed, Proto::Udp);
    push_scoped(&mut lines, exposed);
    text::push_text(&mut lines, "add rule inet unitylan input drop".to_owned());
    assert(text::texts(lines@) =~= rules(
        iface@,
        mesh_addr,
        fw::exposed_views(exposed@),
        peers@,
        p2p_port,
    ));
    text::render_lines(&lines)
}

/// The script that removes the table. Adding it first keeps the removal from failing when there is
/// none.
pub open spec fn removal() -> Seq<char> {
    "add table inet unitylan\ndelete table inet unitylan\n"@
}

impl FirewallBackend for NftBackend {
    open spec fn script(
        &self,
        iface: Seq<char>,
        mesh_addr: Option<u32>,
        exposed: Seq<fw::ExposedView>,
        peers: fw::PeersView,
        p2p_port: u16,
    ) -> Seq<char> {
        text::unlines(rules(iface, mesh_addr, exposed, peers, p2p_port))
    }

    open spec fn clearing(&self) -> Seq<char> {
        removal()
    }

    fn apply(
        &self,
        iface: &str,
        mesh_addr: Option<u32>,
        exposed: &Vec<Exposed>,
        peers: &PeerSets,
        p2p_port: u16,
    ) -> (r: String) {
        ruleset(iface, mesh_addr, exposed, peers, p2p_port)
    }

    fn reset(&self) -> (r: String) {
        "add table inet unitylan\ndelete table inet unitylan\n".to_owned()
    }
}

/// The comment on the exemptions, by which they are found again in a chain of someone else's.
pub open spec fn compat_comment() -> Seq<char> {
    "unitylan-cgnat-compat"@
}

/// Where in a listed ruleset a line stands.
pub struct Spot {
    pub family: String,
    pub table: String,
    pub chain: String,
}

/// The model of a spot.
pub struct SpotView {
    pub family: Seq<char>,
    pub table: Seq<char>,
    pub chain: Seq<char>,
}

impl View for Spot {
    type V = SpotView;

    open spec fn view(&self) -> SpotView {
        SpotView { family: self.family@, table: self.table@, chain: self.chain@ }
    }
}

/// The spot before the first line.
pub open spec fn no_spot() -> SpotView {
    SpotView { family: seq![], table: seq![], chain: seq![] }
}

/// Whether a line opens a table or a chain.
pub open spec fn is_header(l: Seq<char>) -> bool {
    text::starts_with(l, "table "@) || text::starts_with(l, "chain "@)
}

/// The spot behind a line.
pub open spec fn moved(at: SpotView, l: Seq<char>) -> SpotView {
    if text::starts_with(l, "table "@) {
        let w = text::words(l.skip("table "@.len() as int));
        SpotView { family: text::nth(w, 0), table: text::nth(w, 1), ..at }
    } else if text::starts_with(l, "chain "@) {
        SpotView { chain: text::nth(text::words(l.skip("chain "@.len() as int)), 0), ..at }
    } else {
        at
    }
}

impl Spot {
    fn new() -> (r: Spot)
        ensures
            r@ == no_spot(),
    {
        let r = Spot { family: String::new(), table: String::new(), chain: String::new() };
        assert(r@.family =~= seq![] && r@.table =~= seq![] && r@.chain =~= seq![]);
        r
    }

    fn copy(&self) -> (r: Spot)
        ensures
            r@ == self@,
    {
        Spot {
            family: self.family.clone(),
            table: self.table.clone(),
            chain: self.chain.clone(),
        }
    }

    fn step(&mut self, l: &str) -> (r: bool)
        ensures
            final(self)@ == moved(old(self)@, l@),
            r == is_header(l@),
    {
        if let Some(rest) = text::strip_prefix(l, "table ") {
            let w = text::split_words(rest.as_str());
            self.family = text::nth_of(&w, 0);
            self.table = text::nth_of(&w, 1);
            return true;
        }
        if let Some(rest) = text::strip_prefix(l, "chain ") {
            let w = text::split_words(rest.as_str());
            self.chain = text::nth_of(&w, 0);
            return true;
        }
        false
    }
}

/// A rule of another tool that silences the mesh, and where it stands.
pub struct CgnatConflict {
    pub at: Spot,
    pub rule: String,
}

/// Whether a rule drops or rejects by the mesh's address block. The mesh's own closing rule is a
/// bare `drop`, and is not one.
pub open spec fn blocks(l: Seq<char>) -> bool {
    (text::has(l, "drop"@) || text::has(l, "reject"@)) && text::has(l, "100.64.0.0/10"@)
}

/// The first line at or after `i` that blocks the mesh, with the spot it stands at.
pub open spec fn conflict_from(ls: Seq<Seq<char>>, i: int, at: SpotView) -> Option<
    (SpotView, Seq<char>),
>
    decreases ls.len() - i,
{
    if i >= ls.len() {
        None
    } else {
        let l = text::trimmed(ls[i]);
        if is_header(l) {
            conflict_from(ls, i + 1, moved(at, l))
        } else if blocks(l) {
            Some((at, l))
        } else {
            conflict_from(ls, i + 1, at)
        }
    }
}

/// The rule in a listed ruleset that silences the mesh.
pub open spec fn conflict_in(listing: Seq<char>) -> Option<(SpotView, Seq<char>)> {
    conflict_from(text::lines(listing), 0, no_spot())
}

/// The rule in a listed ruleset that silences the mesh.
pub fn cgnat_conflict(listing: &str) -> (r: Option<CgnatConflict>)
    ensures
        match r {
            Some(c) => conflict_in(listing@) == Some((c.at@, c.rule@)),
            None => conflict_in(listing@) is None,
        },
{
    let ls = text::split_lines(listing);
    let ghost all = text::texts(ls@);
    let mut at = Spot::new();
    let mut i: usize = 0;
    while i < ls.len()
        invariant
            i <= ls.len(),
            all == text::texts(ls@),
            all == text::lines(listing@),
            conflict_from(all, 0, no_spot()) == conflict_from(all, i as int, at@),
        decreases ls.len() - i,
    {
        let l = text::trim(ls[i].as_str());
        let ghost before = at@;
        assert(all[i as int] == ls@[i as int]@);
        assert(moved(before, l@) == before || is_header(l@));
        if !at.step(l.as_str()) {
            if (text::contains(l.as_str(), "drop") || text::contains(l.as_str(), "reject"))
                && text::contains(l.as_str(), "100.64.0.0/10") {
                return Some(CgnatConflict { at, rule: l });
            }
        }
        i += 1;
    }
    None
}

/// An exemption to have in another tool's chain: the arguments that make it, and a text by which it
/// is known in a listing.
pub struct CompatRule {
    pub args: Vec<String>,
    pub key: String,
}

/// The model of an exemption.
pub struct CompatView {
    pub args: Seq<Seq<char>>,
    pub key: Seq<char>,
}

impl View for CompatRule {
    type V = CompatView;

    open spec fn view(&self) -> CompatView {
        CompatView { args: text::texts(self.args@), key: self.key@ }
    }
}

/// The models of a list of exemptions.
pub open spec fn compat_views(s: Seq<CompatRule>) -> Seq<CompatView> {
    s.map_values(|r: CompatRule| r@)
}

/// The exemption of what peers send, which arrives on the mesh interface.
pub open spec fn iface_exemption(iface: Seq<char>) -> CompatView {
    CompatView {
        args: seq!["iifname"@, iface, "accept"@, "comment"@, compat_comment()],
        key: "iifname \""@ + iface + "\""@,
    }
}

/// The exemption of what this host sends to its own mesh address, which arrives on the loopback. It
/// admits that one address, not the block.
pub open spec fn loopback_exemption(addr: u32) -> CompatView {
    CompatView {
        args: seq![
            "ip"@,
            "saddr"@,
            net::dotted(addr),
            "iifname"@,
            "lo"@,
            "accept"@,
            "comment"@,
            compat_comment(),
        ],
        key: "ip saddr "@ + net::dotted(addr) + " iifname \"lo\""@,
    }
}

/// The exemptions that a blocking rule makes necessary.
pub open spec fn exemptions(iface: Seq<char>, mesh_addr: Option<u32>) -> Seq<CompatView> {
    match mesh_addr {
        Some(a) => seq![iface_exemption(iface), loopback_exemption(a)],
        None => seq![iface_exemption(iface)],
    }
}

/// The exemptions that a blocking rule makes necessary.
pub fn compat_rules(iface: &str, mesh_addr: Option<u32>) -> (r: Vec<CompatRule>)
    ensures
        compat_views(r@) == exemptions(iface@, mesh_addr),
{
    let mut args: Vec<String> = Vec::new();
    assert(text::texts(args@) =~= seq![]);
    text::push_text(&mut args, "iifname".to_owned());
    text::push_text(&mut args, iface.to_owned());
    text::push_text(&mut args, "accept".to_owned());
    text::push_text(&mut args, "comment".to_owned());
    text::push_text(&mut args, "unitylan-cgnat-compat".to_owned());
    let mut key = "iifname \"".to_owned();
    key.append(iface);
    key.append("\"");
    let first = CompatRule { args, key };
    assert(first@.args =~= iface_exemption(iface@).args);
    assert(first@ == iface_exemption(iface@));
    let mut out: Vec<CompatRule> = Vec::new();
    out.push(first);
    if let Some(a) = mesh_addr {
        let mut args: Vec<String> = Vec::new();
        assert(text::texts(args@) =~= seq![]);
        text::push_text(&mut args, "ip".to_owned());
        text::push_text(&mut args, "saddr".to_owned());
        text::push_text(&mut args, v4_text(a));
        text::push_text(&mut args, "iifname".to_owned());
        text::push_text(&mut args, "lo".to_owned());
        text::push_text(&mut args, "accept".to_owned());
        text::push_text(&mut args, "comment".to_owned());
        text::push_text(&mut args, "unitylan-cgnat-compat".to_owned());
        let mut key = "ip saddr ".to_owned();
        key.append(v4_text(a).as_str());
        key.append(" iifname \"lo\"");
        let second = CompatRule { args, key };
        assert(second@.args =~= loopback_exemption(a).args);
        assert(second@ == loopback_exemption(a));
        out.push(second);
    }
    assert(compat_views(out@) =~= exemptions(iface@, mesh_addr));
    out
}

/// Whether a line is an exemption of the mesh's that a key names.
pub open spec fn is_exemption(l: Seq<char>, key: Seq<char>) -> bool {
    text::has(l, compat_comment()) && text::has(l, key)
}

/// Whether a listed ruleset holds an exemption.
pub open spec fn present(listing: Seq<char>, key: Seq<char>) -> bool {
    exists|i: int|
        0 <= i < text::lines(listing).len() && #[trigger] is_exemption(
            text::lines(listing)[i],
            key,
        )
}

/// Whether a listed ruleset holds an exemption.
pub fn compat_present(listing: &str, key: &str) -> (r: bool)
    ensures
        r == present(listing@, key@),
{
    let ls = text::split_lines(listing);
    let ghost all = text::texts(ls@);
    let mut i: usize = 0;
    while i < ls.len()
        invariant
            i <= ls.len(),
            all == text::texts(ls@),
            all == text::lines(listing@),
            forall|j: int| 0 <= j < i ==> !#[trigger] is_exemption(all[j], key@),
        decreases ls.len() - i,
    {
        let l = &ls[i];
        assert(all[i as int] == l@);
        if text::contains(l.as_str(), "unitylan-cgnat-compat") && text::contains(l.as_str(), key) {
            assert(is_exemption(all[i as int], key@));
            return true;
        }
        i += 1;
    }
    false
}

/// A rule of the mesh's in another tool's chain, as a deletion names it.
pub struct CompatHandle {
    pub at: Spot,
    pub handle: String,
}

/// The models of a list of handles.
pub open spec fn handle_views(s: Seq<CompatHandle>) -> Seq<(SpotView, Seq<char>)> {
    s.map_values(|h: CompatHandle| (h.at@, h.handle@))
}

/// The spot behind the first `i` lines.
pub open spec fn spot_after(ls: Seq<Seq<char>>, i: int) -> SpotView
    decreases i,
{
    if i <= 0 {
        no_spot()
    } else {
        moved(spot_after(ls, i - 1), text::trimmed(ls[i - 1]))
    }
}

/// The exemptions among the first `i` lines.
pub open spec fn handles_in(ls: Seq<Seq<char>>, i: int) -> Seq<(SpotView, Seq<char>)>
    decreases i,
{
    if i <= 0 {
        seq![]
    } else {
        let before = handles_in(ls, i - 1);
        let l = text::trimmed(ls[i - 1]);
        if !is_header(l) && text::has(l, compat_comment()) {
            before.push(
                (spot_after(ls, i - 1), text::trimmed(text::after_last(l, "# handle "@))),
            )
        } else {
            before
        }
    }
}

/// Every exemption in a ruleset that was listed with handles, in the order of the listing.
pub fn compat_handles(listing: &str) -> (r: Vec<CompatHandle>)
    ensures
        handle_views(r@) == handles_in(
            text::lines(listing@),
            text::lines(listing@).len() as int,
        ),
{
    let ls = text::split_lines(listing);
    let ghost all = text::texts(ls@);
    let mut at = Spot::new();
    let mut out: Vec<CompatHandle> = Vec::new();
    let mut i: usize = 0;
    assert(handle_views(out@) =~= seq![]);
    while i < ls.len()
        invariant
            i <= ls.len(),
            all == text::texts(ls@),
            at@ == spot_after(all, i as int),
            handle_views(out@) == handles_in(all, i as int),
        decreases ls.len() - i,
    {
        let l = text::trim(ls[i].as_str());
        assert(all[i as int] == ls@[i as int]@);
        let ghost before = handle_views(out@);
        let ghost spot = at@;
        if !at.step(l.as_str()) {
            if text::contains(l.as_str(), "unitylan-cgnat-compat") {
                let h = text::trim(text::tail_after(l.as_str(), "# handle ").as_str());
                let ghost hv = h@;
                out.push(CompatHandle { at: at.copy(), handle: h });
                assert(handle_views(out@) =~= before.push((spot, hv)));
            }
        }
        i += 1;
    }
    out
}

/// The exemptions that a listed ruleset lacks.
pub open spec fn missing_from(listing: Seq<char>, rules: Seq<CompatView>) -> Seq<CompatView> {
    rules.filter(|r: CompatView| !present(listing, r.key))
}

/// The words of an exemption that a person would type: without the comment.
pub open spec fn typed(args: Seq<Seq<char>>) -> Seq<Seq<char>>
    decreases args.len(),
{
    if args.len() == 0 || args[0] == "comment"@ {
        seq![]
    } else {
        seq![args[0]] + typed(args.skip(1))
    }
}

/// The command that inserts an exemption at a spot, as a person would type it.
pub open spec fn manual_command(at: SpotView, r: CompatView) -> Seq<char> {
    "nft insert rule "@ + at.family + " "@ + at.table + " "@ + at.chain + " "@ + text::join(
        typed(r.args),
        " "@,
    )
}

/// The commands that insert exemptions at a spot, as a person would type them.
pub open spec fn manual_commands(at: SpotView, rules: Seq<CompatView>) -> Seq<Seq<char>> {
    rules.map_values(|r: CompatView| manual_command(at, r))
}

/// What a listed ruleset asks for: the rule that silences the mesh, the exemptions to insert ahead
/// of it, and the commands that would do it by hand.
pub struct CompatPlan {
    pub conflict: CgnatConflict,
    pub missing: Vec<CompatRule>,
    pub manual: String,
}

/// Whether a plan answers a listed ruleset. There is none when nothing silences the mesh, or when
/// every exemption is in place.
pub open spec fn is_plan(
    r: Option<CompatPlan>,
    listing: Seq<char>,
    iface: Seq<char>,
    mesh_addr: Option<u32>,
) -> bool {
    let missing = missing_from(listing, exemptions(iface, mesh_addr));
    match (r, conflict_in(listing)) {
        (Some(p), Some((at, rule))) => {
            &&& missing.len() > 0
            &&& p.conflict.at@ == at
            &&& p.conflict.rule@ == rule
            &&& compat_views(p.missing@) == missing
            &&& p.manual@ == text::join(manual_commands(at, missing), "; "@)
        },
        (None, c) => c is None || missing.len() == 0,
        _ => false,
    }
}

fn to_type(args: &Vec<String>) -> (r: Vec<String>)
    ensures
        text::texts(r@) == typed(text::texts(args@)),
{
    let ghost all = text::texts(args@);
    let mut out: Vec<String> = Vec::new();
    let mut i: usize = 0;
    assert(all.skip(0) =~= all);
    assert(text::texts(out@) + typed(all) =~= typed(all));
    while i < args.len() && !text::same(args[i].as_str(), "comment")
        invariant
            i <= args.len(),
            all == text::texts(args@),
            text::texts(out@) + typed(all.skip(i as int)) == typed(all),
        decreases args.len() - i,
    {
        let ghost before = text::texts(out@);
        let ghost here = all.skip(i as int);
        assert(here[0] == all[i as int]);
        assert(here.skip(1) =~= all.skip(i + 1));
        text::push_text(&mut out, args[i].clone());
        assert(text::texts(out@) + typed(here.skip(1)) =~= before + typed(here));
        i += 1;
    }
    proof {
        if i < args.len() {
            assert(all.skip(i as int)[0] == all[i as int]);
        }
        assert(text::texts(out@) + typed(all.skip(i as int)) =~= text::texts(out@));
    }
    out
}

fn command_for(at: &Spot, r: &CompatRule) -> (s: String)
    ensures
        s@ == manual_command(at@, r@),
{
    let mut s = "nft insert rule ".to_owned();
    s.append(at.family.as_str());
    s.append(" ");
    s.append(at.table.as_str());
    s.append(" ");
    s.append(at.chain.as_str());
    s.append(" ");
    s.append(text::join_with(&to_type(&r.args), " ").as_str());
    s
}

/// What to do about a listed ruleset, so that the mesh is heard on `iface`. The rules of the mesh's
/// own table still decide what is let in: an exemption only takes back what the other rule refused
/// too broadly. To be asked again whenever the rules are applied, as the other tool may rebuild its
/// chain.
pub fn ensure_cgnat_compat(listing: &str, iface: &str, mesh_addr: Option<u32>) -> (r: Option<
    CompatPlan,
>)
    ensures
        is_plan(r, listing@, iface@, mesh_addr),
{
    let conflict = match cgnat_conflict(listing) {
        Some(c) => c,
        None => {
            return None;
        },
    };
    let mut rest = compat_rules(iface, mesh_addr);
    let ghost rules = compat_views(rest@);
    let ghost p = |r: CompatView| !present(listing@, r.key);
    let ghost at = conflict.at@;
    let mut missing: Vec<CompatRule> = Vec::new();
    let mut manual: Vec<String> = Vec::new();
    let ghost mut done: int = 0;
    proof {
        reveal(Seq::filter);
        assert(rules.skip(0) =~= rules);
        assert(compat_views(missing@) =~= rules.take(0).filter(p));
        assert(text::texts(manual@) =~= manual_commands(at, compat_views(missing@)));
    }
    while rest.len() > 0
        invariant
            0 <= done <= rules.len(),
            compat_views(rest@) == rules.skip(done),
            compat_views(missing@) == rules.take(done).filter(p),
            p == (|r: CompatView| !present(listing@, r.key)),
            at == conflict.at@,
            text::texts(manual@) == manual_commands(at, compat_views(missing@)),
        decreases rest.len(),
    {
        let ghost all = compat_views(rest@);
        let r = rest.remove(0);
        proof {
            reveal(Seq::filter);
            assert(all.len() == rest.len() + 1 && all == rules.skip(done));
            assert(r@ == all[0]);
            assert(r@ == rules[done]);
            assert(compat_views(rest@) =~= all.skip(1));
            assert(rules.skip(done).skip(1) =~= rules.skip(done + 1));
            assert(rules.take(done + 1).drop_last() =~= rules.take(done));
            done = done + 1;
        }
        if !compat_present(listing, r.key.as_str()) {
            let ghost before = compat_views(missing@);
            let ghost rv = r@;
            text::push_text(&mut manual, command_for(&conflict.at, &r));
            missing.push(r);
            assert(compat_views(missing@) =~= before.push(rv));
            assert(text::texts(manual@) =~= manual_commands(at, compat_views(missing@)));
        }
    }
    proof {
        assert(rules.skip(done).len() == compat_views(rest@).len());
        assert(rules.take(done) =~= rules);
        assert(p =~= (|r: CompatView| !present(listing@, r.key)));
    }
    if missing.len() == 0 {
        assert(compat_views(missing@).len() == 0);
        return None;
    }
    assert(compat_views(missing@).len() > 0);
    let text = text::join_with(&manual, "; ");
    Some(CompatPlan { conflict, missing, manual: text })
}

/// The arguments that insert an exemption at a spot.
pub open spec fn insertion(at: SpotView, args: Seq<Seq<char>>) -> Seq<Seq<char>> {
    seq!["insert"@, "rule"@, at.family, at.table, at.chain] + args
}

/// The arguments that insert an exemption at a spot. They are never one shell line, so nothing in
/// them is subject to quoting.
pub fn insert_args(at: &Spot, r: &CompatRule) -> (a: Vec<String>)
    ensures
        text::texts(a@) == insertion(at@, r@.args),
{
    let mut a: Vec<String> = Vec::new();
    assert(text::texts(a@) =~= seq![]);
    text::push_text(&mut a, "insert".to_owned());
    text::push_text(&mut a, "rule".to_owned());
    text::push_text(&mut a, at.family.clone());
    text::push_text(&mut a, at.table.clone());
    text::push_text(&mut a, at.chain.clone());
    let ghost head = text::texts(a@);
    let ghost all = text::texts(r.args@);
    let mut i: usize = 0;
    assert(head + all.take(0) =~= head);
    while i < r.args.len()
        invariant
            i <= r.args.len(),
            all == text::texts(r.args@),
            text::texts(a@) == head + all.take(i as int),
        decreases r.args.len() - i,
    {
        text::push_text(&mut a, r.args[i].clone());
        assert(text::texts(a@) =~= head + all.take(i + 1));
        i += 1;
    }
    assert(all.take(i as int) =~= all);
    assert(text::texts(a@) =~= insertion(at@, r@.args));
    a
}

/// The arguments that delete an exemption.
pub open spec fn deletion(at: SpotView, handle: Seq<char>) -> Seq<Seq<char>> {
    seq!["delete"@, "rule"@, at.family, at.table, at.chain, "handle"@, handle]
}

/// The commands that delete exemptions.
pub open spec fn deletions(hs: Seq<(SpotView, Seq<char>)>) -> Seq<Seq<Seq<char>>> {
    hs.map_values(|h: (SpotView, Seq<char>)| deletion(h.0, h.1))
}

/// The texts of a list of argument lists.
pub open spec fn arg_lists(v: Seq<Vec<String>>) -> Seq<Seq<Seq<char>>> {
    v.map_values(|a: Vec<String>| text::texts(a@))
}

/// The commands that remove every exemption from a ruleset that was listed with handles. Those
/// rules are in another tool's chain, so nothing else would ever remove them.
pub fn remove_cgnat_compat(listing: &str) -> (r: Vec<Vec<String>>)
    ensures
        arg_lists(r@) == deletions(
            handles_in(text::lines(listing@), text::lines(listing@).len() as int),
        ),
{
    let hs = compat_handles(listing);
    let ghost views = handle_views(hs@);
    let ghost want = deletions(views);
    let mut out: Vec<Vec<String>> = Vec::new();
    let mut i: usize = 0;
    assert(arg_lists(out@) =~= want.take(0));
    while i < hs.len()
        invariant
            i <= hs.len(),
            views == handle_views(hs@),
            want == deletions(views),
            arg_lists(out@) == want.take(i as int),
        decreases hs.len() - i,
    {
        let h = &hs[i];
        let mut a: Vec<String> = Vec::new();
        assert(text::texts(a@) =~= seq![]);
        text::push_text(&mut a, "delete".to_owned());
        text::push_text(&mut a, "rule".to_owned());
        text::push_text(&mut a, h.at.family.clone());
        text::push_text(&mut a, h.at.table.clone());
        text::push_text(&mut a, h.at.chain.clone());
        text::push_text(&mut a, "handle".to_owned());
        text::push_text(&mut a, h.handle.clone());
        assert(views[i as int] == (h.at@, h.handle@));
        assert(text::texts(a@) =~= deletion(h.at@, h.handle@));
        let ghost before = arg_lists(out@);
        let ghost av = text::texts(a@);
        out.push(a);
        assert(arg_lists(out@) =~= before.push(av));
        assert(want.take(i + 1) =~= want.take(i as int).push(want[i as int]));
        i += 1;
    }
    assert(want.take(i as int) =~= want);
    out
}

/// What is not let in by a rule is refused: the last line of every script drops the rest.
pub proof fn law_denies_by_default(
    iface: Seq<char>,
    mesh_addr: Option<u32>,
    exposed: Seq<fw::ExposedView>,
    peers: fw::PeersView,
    p2p_port: u16,
)
    ensures
        rules(iface, mesh_addr, exposed, peers, p2p_port).last() == closing_line(),
{
}

proof fn lemma_split_at(a: Seq<char>, b: Seq<char>, c: Seq<char>, d: Seq<char>, sep: char)
    requires
        a + seq![sep] + b == c + seq![sep] + d,
        text::free_of(a, sep),
        text::free_of(b, sep),
        text::free_of(c, sep),
        text::free_of(d, sep),
    ensures
        a == c,
        b == d,
{
    let x = a + seq![sep] + b;
    let y = c + seq![sep] + d;
    assert(x[a.len() as int] == sep && y[c.len() as int] == sep);
    if a.len() < c.len() {
        assert(y[a.len() as int] == c[a.len() as int]);
    } else if c.len() < a.len() {
        assert(x[c.len() as int] == a[c.len() as int]);
    }
    assert(a =~= x.take(a.len() as int));
    assert(c =~= y.take(a.len() as int));
    assert(b =~= x.skip(a.len() as int + 1));
    assert(d =~= y.skip(a.len() as int + 1));
}

proof fn lemma_dec_free(n: nat, c: char)
    requires
        !text::is_digit(c),
    ensures
        text::free_of(text::dec(n), c),
{
    text::lemma_dec(n);
    let s = text::dec(n);
    assert forall|i: int| 0 <= i < s.len() implies #[trigger] s[i] != c by {
        assert(text::is_digit(s[i]));
    }
}

/// No two scopes that are settled share a set: a network's is told from every other network's and
/// from that of the owner's devices.
pub proof fn law_sets_are_exact(a: api::ScopeView, b: api::ScopeView)
    requires
        a is Net || a is OwnDevices,
        b !is AllPeers,
        set_of(a) == set_of(b),
    ensures
        a == b,
{
    reveal_strlit("own_devices");
    reveal_strlit("net_");
    reveal_strlit("named_");
    reveal_strlit("_");
    let x = set_of(a);
    let y = set_of(b);
    assert("_"@ =~= seq!['_']);
    assert(a is OwnDevices ==> x[0] == 'o' && x[1] == 'w');
    assert(b is OwnDevices ==> y[0] == 'o' && y[1] == 'w');
    assert(a is Net ==> x[0] == 'n' && x[1] == 'e');
    assert(b is Net ==> y[0] == 'n' && y[1] == 'e');
    assert(b is Unresolved ==> y[0] == 'n' && y[1] == 'a');
    match (a, b) {
        (
            api::ScopeView::Net { guild_id: g, role_id: r },
            api::ScopeView::Net { guild_id: h, role_id: q },
        ) => {
            lemma_dec_free(g as nat, '_');
            lemma_dec_free(r as nat, '_');
            lemma_dec_free(h as nat, '_');
            lemma_dec_free(q as nat, '_');
            let (gs, rs) = (text::dec(g as nat), text::dec(r as nat));
            let (hs, qs) = (text::dec(h as nat), text::dec(q as nat));
            assert(gs + seq!['_'] + rs =~= x.skip(4));
            assert(hs + seq!['_'] + qs =~= y.skip(4));
            lemma_split_at(gs, rs, hs, qs, '_');
            text::lemma_dec(g as nat);
            text::lemma_dec(r as nat);
            text::lemma_dec(h as nat);
            text::lemma_dec(q as nat);
        },
        _ => {},
    }
}

proof fn lemma_last_of_set(exposed: Seq<fw::ExposedView>, name: Seq<char>, i: int, k: int)
    requires
        0 <= k < i <= exposed.len(),
        scoped(exposed[k]),
        set_of(exposed[k].scope) == name,
    ensures
        k <= last_of_set(exposed, name, i) < i,
        scoped(exposed[last_of_set(exposed, name, i)]),
        set_of(exposed[last_of_set(exposed, name, i)].scope) == name,
    decreases i,
{
    if !(scoped(exposed[i - 1]) && set_of(exposed[i - 1].scope) == name) {
        lemma_last_of_set(exposed, name, i - 1, k);
    }
}

/// A scoped rule admits the addresses that its scope admits, and no others.
pub proof fn law_rule_admits_its_scope(
    exposed: Seq<fw::ExposedView>,
    peers: fw::PeersView,
    k: int,
)
    requires
        0 <= k < exposed.len(),
        exposed[k].scope is Net || exposed[k].scope is OwnDevices,
    ensures
        Some(set_members(exposed, peers, set_of(exposed[k].scope))) == peers.sources(
            exposed[k].scope,
        ),
{
    let name = set_of(exposed[k].scope);
    lemma_last_of_set(exposed, name, exposed.len() as int, k);
    let i = last_of_set(exposed, name, exposed.len() as int);
    law_sets_are_exact(exposed[k].scope, exposed[i].scope);
}

/// The block of addresses that carriers share, which the mesh's are taken from.
pub open spec fn shared_block() -> Seq<char> {
    "100.64.0.0/10"@
}

/// Whether a text does not speak of the shared block.
pub open spec fn clear(s: Seq<char>) -> bool {
    !text::has(s, shared_block())
}

proof fn lemma_shared_block()
    ensures
        shared_block().len() == 13,
        shared_block()[10] == '/',
        text::free_of(shared_block(), '"'),
        text::free_of(shared_block(), '\n'),
{
    reveal_strlit("100.64.0.0/10");
    reveal_with_fuel(text::scan, 14);
    text::lemma_scan(shared_block(), '"', 0);
    text::lemma_scan(shared_block(), '\n', 0);
}

/// Where in a text that is not clear the block stands.
proof fn lemma_block_at(s: Seq<char>) -> (i: int)
    requires
        !clear(s),
    ensures
        0 <= i,
        i + 13 <= s.len(),
        s.subrange(i, i + 13) == shared_block(),
        forall|j: int| 0 <= j < 13 ==> #[trigger] s[i + j] == shared_block()[j],
{
    lemma_shared_block();
    let i = choose|i: int|
        0 <= i && i + shared_block().len() <= s.len() && #[trigger] s.subrange(
            i,
            i + shared_block().len(),
        ) == shared_block();
    assert forall|j: int| 0 <= j < 13 implies #[trigger] s[i + j] == shared_block()[j] by {
        assert(s.subrange(i, i + 13)[j] == s[i + j]);
    }
    i
}

/// A text without a slash does not speak of the block.
proof fn lemma_free_is_clear(s: Seq<char>)
    requires
        text::free_of(s, '/'),
    ensures
        clear(s),
{
    if !clear(s) {
        lemma_shared_block();
        let i = lemma_block_at(s);
        assert(s[i + 10] == '/');
    }
}

/// A part of a text that is clear is clear.
proof fn lemma_part_is_clear(s: Seq<char>, a: int, b: int)
    requires
        clear(s),
        0 <= a <= b <= s.len(),
    ensures
        clear(s.subrange(a, b)),
{
    let t = s.subrange(a, b);
    if !clear(t) {
        lemma_shared_block();
        let i = lemma_block_at(t);
        assert(s.subrange(a + i, a + i + shared_block().len()) =~= t.subrange(i, i + 13));
    }
}

/// A name that is clear stays so in quotes, whatever stands around them but a slash.
proof fn lemma_quoted_is_clear(before: Seq<char>, name: Seq<char>, after: Seq<char>)
    requires
        clear(name),
        text::free_of(before, '/'),
        text::free_of(after, '/'),
        before.len() > 0,
        before.last() == '"',
        after.len() > 0,
        after[0] == '"',
    ensures
        clear(before + name + after),
{
    let s = before + name + after;
    if !clear(s) {
        lemma_shared_block();
        let i = lemma_block_at(s);
        let p = before.len() as int;
        let q = p + name.len();
        assert(s[i + 10] == '/');
        if i + 10 < p {
            assert(s[i + 10] == before[i + 10]);
        }
        if i + 10 >= q {
            assert(s[i + 10] == after[i + 10 - q]);
        }
        if i < p {
            let j = p - 1 - i;
            assert(s[i + j] == before.last());
        }
        if i + 13 > q {
            let j = q - i;
            assert(s[i + j] == after[0]);
        }
        assert(name.subrange(i - p, i - p + shared_block().len()) =~= s.subrange(i, i + 13));
    }
}

/// Lines that are clear make a text that is.
proof fn lemma_unlines_clear(items: Seq<Seq<char>>)
    requires
        forall|k: int| 0 <= k < items.len() ==> clear(#[trigger] items[k]),
    ensures
        clear(text::unlines(items)),
        items.len() > 0 ==> text::unlines(items).len() > 0 && text::unlines(items).last() == '\n',
    decreases items.len(),
{
    reveal_strlit("\n");
    lemma_shared_block();
    let s = text::unlines(items);
    if items.len() > 0 {
        let front = items.drop_last();
        assert forall|k: int| 0 <= k < front.len() implies clear(#[trigger] front[k]) by {
            assert(front[k] == items[k]);
        }
        lemma_unlines_clear(front);
        let u = text::unlines(front);
        let l = items.last();
        assert(clear(items[items.len() - 1]));
        assert(s == u + l + "\n"@);
        if !clear(s) {
            let i = lemma_block_at(s);
            let p = u.len() as int;
            let q = p + l.len();
            if i + 13 > q {
                let j = q - i;
                assert(s[i + j] == '\n');
            }
            if i < p && i + 13 > p {
                assert(front.len() > 0);
                let j = p - 1 - i;
                assert(s[i + j] == u.last());
            }
            if i >= p {
                assert(l.subrange(i - p, i - p + shared_block().len()) =~= s.subrange(i, i + 13));
            } else {
                assert(u.subrange(i, i + shared_block().len()) =~= s.subrange(i, i + 13));
            }
        }
    } else if !clear(s) {
        let i = lemma_block_at(s);
    }
}

/// The lines of a text that is clear are.
proof fn lemma_lines_clear(s: Seq<char>, i: int)
    requires
        0 <= i,
        clear(s),
    ensures
        forall|k: int|
            0 <= k < text::lines_from(s, i).len() ==> clear(#[trigger] text::lines_from(s, i)[k]),
    decreases s.len() - i,
{
    if i < s.len() {
        text::lemma_pos_from(s, '\n', i);
        let p = text::pos_from(s, '\n', i);
        let ls = text::lines_from(s, i);
        let first = s.subrange(i, p);
        lemma_part_is_clear(s, i, p);
        if first.len() > 0 {
            lemma_part_is_clear(s, i, p - 1);
            assert(first.drop_last() =~= s.subrange(i, p - 1));
        }
        assert(clear(text::uncarried(first)));
        if p < s.len() {
            lemma_lines_clear(s, p + 1);
            assert forall|k: int| 0 <= k < ls.len() implies clear(#[trigger] ls[k]) by {
                if k > 0 {
                    assert(ls[k] == text::lines_from(s, p + 1)[k - 1]);
                }
            }
        }
    }
}

/// A line that is clear blocks nothing.
proof fn lemma_clear_blocks_nothing(l: Seq<char>)
    requires
        clear(l),
    ensures
        !blocks(text::trimmed(l)),
{
    let a = text::space_from(l, false, 0);
    let b = text::trim_point(l);
    text::lemma_space_from(l, false, 0);
    lemma_trim_point(l);
    if a < b {
        lemma_part_is_clear(l, a, b);
    } else {
        lemma_part_is_clear(l, 0, 0);
        assert(l.subrange(0, 0) =~= Seq::<char>::empty());
    }
}

proof fn lemma_trim_point(s: Seq<char>)
    ensures
        0 <= text::trim_point(s) <= s.len(),
    decreases s.len(),
{
    if s.len() > 0 {
        lemma_trim_point(s.drop_last());
    }
}

proof fn lemma_no_conflict(ls: Seq<Seq<char>>, i: int, at: SpotView)
    requires
        0 <= i,
        forall|k: int| 0 <= k < ls.len() ==> clear(#[trigger] ls[k]),
    ensures
        conflict_from(ls, i, at) is None,
    decreases ls.len() - i,
{
    if i < ls.len() {
        let l = text::trimmed(ls[i]);
        lemma_clear_blocks_nothing(ls[i]);
        lemma_no_conflict(ls, i + 1, moved(at, l));
        lemma_no_conflict(ls, i + 1, at);
    }
}

proof fn lemma_dotted_free(a: u32)
    ensures
        text::free_of(net::dotted(a), '/'),
{
    reveal_strlit(".");
    lemma_dec_free((a / 16777216) as nat, '/');
    lemma_dec_free((a / 65536 % 256) as nat, '/');
    lemma_dec_free((a / 256 % 256) as nat, '/');
    lemma_dec_free((a % 256) as nat, '/');
}

proof fn lemma_plain_free(s: Seq<char>)
    ensures
        text::free_of(plain(s), '/'),
{
    assert forall|i: int| 0 <= i < plain(s).len() implies #[trigger] plain(s)[i] != '/' by {
        let c = s[i];
        assert(plain(s)[i] == if plain_char(c) {
            c
        } else {
            '_'
        });
    }
}

proof fn lemma_set_free(scope: api::ScopeView)
    ensures
        text::free_of(set_of(scope), '/'),
{
    reveal_strlit("own_devices");
    reveal_strlit("net_");
    reveal_strlit("named_");
    reveal_strlit("_");
    reveal_with_fuel(text::scan, 12);
    text::lemma_scan("own_devices"@, '/', 0);
    text::lemma_scan("net_"@, '/', 0);
    text::lemma_scan("named_"@, '/', 0);
    text::lemma_scan("_"@, '/', 0);
    match scope {
        api::ScopeView::Net { guild_id, role_id } => {
            lemma_dec_free(guild_id as nat, '/');
            lemma_dec_free(role_id as nat, '/');
        },
        api::ScopeView::Unresolved { guild, name } => {
            lemma_plain_free(
                match guild {
                    Some(g) => g,
                    None => seq![],
                },
            );
            lemma_plain_free(name);
        },
        _ => {},
    }
}

proof fn lemma_sets_free(exposed: Seq<fw::ExposedView>)
    ensures
        forall|k: int|
            0 <= k < set_names(exposed).len() ==> text::free_of(
                #[trigger] set_names(exposed)[k],
                '/',
            ),
    decreases exposed.len(),
{
    if exposed.len() > 0 {
        lemma_sets_free(exposed.drop_last());
        lemma_set_free(exposed.last().scope);
        lemma_place(set_names(exposed.drop_last()), set_of(exposed.last().scope), 0);
    }
}

proof fn lemma_place(s: Seq<Seq<char>>, x: Seq<char>, i: int)
    requires
        0 <= i <= s.len(),
    ensures
        i <= place(s, x, i) <= s.len(),
    decreases s.len() - i,
{
    if i < s.len() {
        lemma_place(s, x, i + 1);
    }
}

proof fn lemma_set_lines_free(name: Seq<char>, members: Seq<u32>)
    requires
        text::free_of(name, '/'),
    ensures
        forall|k: int|
            0 <= k < set_lines(name, members).len() ==> text::free_of(
                #[trigger] set_lines(name, members)[k],
                '/',
            ),
{
    reveal_strlit("add set inet unitylan ");
    reveal_strlit(" { type ipv4_addr ; }");
    reveal_strlit("add element inet unitylan ");
    reveal_strlit(" { ");
    reveal_strlit(" }");
    reveal_strlit(", ");
    reveal_with_fuel(text::scan, 30);
    text::lemma_scan("add set inet unitylan "@, '/', 0);
    text::lemma_scan(" { type ipv4_addr ; }"@, '/', 0);
    text::lemma_scan("add element inet unitylan "@, '/', 0);
    text::lemma_scan(" { "@, '/', 0);
    text::lemma_scan(" }"@, '/', 0);
    text::lemma_scan(", "@, '/', 0);
    let d = net::dotted_list(members);
    assert forall|k: int| 0 <= k < d.len() implies text::free_of(#[trigger] d[k], '/') by {
        lemma_dotted_free(members[k]);
    }
    text::lemma_join_free(d, ", "@, '/');
}

proof fn lemma_all_sets_free(
    exposed: Seq<fw::ExposedView>,
    peers: fw::PeersView,
    names: Seq<Seq<char>>,
)
    requires
        forall|k: int| 0 <= k < names.len() ==> text::free_of(#[trigger] names[k], '/'),
    ensures
        forall|k: int|
            0 <= k < all_set_lines(exposed, peers, names).len() ==> text::free_of(
                #[trigger] all_set_lines(exposed, peers, names)[k],
                '/',
            ),
    decreases names.len(),
{
    if names.len() > 0 {
        let t = names.drop_last();
        assert forall|k: int| 0 <= k < t.len() implies text::free_of(#[trigger] t[k], '/') by {
            assert(t[k] == names[k]);
        }
        lemma_all_sets_free(exposed, peers, t);
        let m = set_members(exposed, peers, names.last());
        assert(text::free_of(names[names.len() - 1], '/'));
        lemma_set_lines_free(names.last(), m);
        let before = all_set_lines(exposed, peers, t);
        let all = all_set_lines(exposed, peers, names);
        assert forall|k: int| 0 <= k < all.len() implies text::free_of(#[trigger] all[k], '/') by {
            if k >= before.len() {
                assert(all[k] == set_lines(names.last(), m)[k - before.len()]);
            } else {
                assert(all[k] == before[k]);
            }
        }
    }
}

proof fn lemma_proto_free(p: Proto)
    ensures
        text::free_of(p.text(), '/'),
{
    reveal_strlit("tcp");
    reveal_strlit("udp");
    reveal_with_fuel(text::scan, 4);
    text::lemma_scan("tcp"@, '/', 0);
    text::lemma_scan("udp"@, '/', 0);
}

proof fn lemma_guard_clear(iface: Seq<char>, mesh_addr: Option<u32>, k: int)
    requires
        clear(iface),
        0 <= k < guard_lines(iface, mesh_addr).len(),
    ensures
        clear(guard_lines(iface, mesh_addr)[k]),
{
    reveal_strlit("add rule inet unitylan input iifname != { \"lo\", \"");
    reveal_strlit("\" } ip daddr ");
    reveal_strlit(" drop");
    reveal_with_fuel(text::scan, 60);
    text::lemma_scan("add rule inet unitylan input iifname != { \"lo\", \""@, '/', 0);
    text::lemma_scan("\" } ip daddr "@, '/', 0);
    text::lemma_scan(" drop"@, '/', 0);
    lemma_dotted_free(mesh_addr->0);
    let before = "add rule inet unitylan input iifname != { \"lo\", \""@;
    let after = "\" } ip daddr "@ + net::dotted(mesh_addr->0) + " drop"@;
    lemma_quoted_is_clear(before, iface, after);
    assert(guard_lines(iface, mesh_addr)[k] =~= before + iface + after);
}

#[verifier::spinoff_prover]
proof fn lemma_base_clear(iface: Seq<char>, p2p_port: u16, k: int)
    requires
        clear(iface),
        0 <= k < base_lines(iface, p2p_port).len(),
    ensures
        clear(base_lines(iface, p2p_port)[k]),
{
    assert(text::free_of("add rule inet unitylan input iifname != \""@, '/')) by {
        reveal_strlit("add rule inet unitylan input iifname != \"");
        reveal_with_fuel(text::scan, 42);
        text::lemma_scan("add rule inet unitylan input iifname != \""@, '/', 0);
    }
    assert(text::free_of("\" accept"@, '/')) by {
        reveal_strlit("\" accept");
        reveal_with_fuel(text::scan, 9);
        text::lemma_scan("\" accept"@, '/', 0);
    }
    assert(text::free_of("add rule inet unitylan input ct state established,related accept"@, '/')) by {
        reveal_strlit("add rule inet unitylan input ct state established,related accept");
        reveal_with_fuel(text::scan, 65);
        text::lemma_scan("add rule inet unitylan input ct state established,related accept"@, '/', 0);
    }
    assert(text::free_of("add rule inet unitylan input icmp type echo-request accept"@, '/')) by {
        reveal_strlit("add rule inet unitylan input icmp type echo-request accept");
        reveal_with_fuel(text::scan, 59);
        text::lemma_scan("add rule inet unitylan input icmp type echo-request accept"@, '/', 0);
    }
    assert(text::free_of("add rule inet unitylan input udp dport "@, '/')) by {
        reveal_strlit("add rule inet unitylan input udp dport ");
        reveal_with_fuel(text::scan, 40);
        text::lemma_scan("add rule inet unitylan input udp dport "@, '/', 0);
    }
    assert(text::free_of(" accept"@, '/')) by {
        reveal_strlit(" accept");
        reveal_with_fuel(text::scan, 8);
        text::lemma_scan(" accept"@, '/', 0);
    }
    lemma_dec_free(p2p_port as nat, '/');
    if k == 0 {
        reveal_strlit("add rule inet unitylan input iifname != \"");
        reveal_strlit("\" accept");
        lemma_quoted_is_clear(
            "add rule inet unitylan input iifname != \""@,
            iface,
            "\" accept"@,
        );
    } else {
        lemma_free_is_clear(base_lines(iface, p2p_port)[k]);
    }
}

proof fn lemma_ports_free(exposed: Seq<fw::ExposedView>, proto: Proto)
    ensures
        forall|k: int|
            0 <= k < open_ports(exposed, proto).len() ==> text::free_of(
                #[trigger] open_ports(exposed, proto)[k],
                '/',
            ),
    decreases exposed.len(),
{
    if exposed.len() > 0 {
        let before = open_ports(exposed.drop_last(), proto);
        let all = open_ports(exposed, proto);
        lemma_ports_free(exposed.drop_last(), proto);
        lemma_dec_free(exposed.last().port as nat, '/');
        assert forall|k: int| 0 <= k < all.len() implies text::free_of(#[trigger] all[k], '/') by {
            if k < before.len() {
                assert(all[k] == before[k]);
            }
        }
    }
}

proof fn lemma_open_free(exposed: Seq<fw::ExposedView>, proto: Proto, k: int)
    requires
        0 <= k < open_lines(exposed, proto).len(),
    ensures
        text::free_of(open_lines(exposed, proto)[k], '/'),
{
    reveal_strlit("add rule inet unitylan input ");
    reveal_strlit(" dport { ");
    reveal_strlit(" } accept");
    reveal_strlit(", ");
    reveal_with_fuel(text::scan, 31);
    text::lemma_scan("add rule inet unitylan input "@, '/', 0);
    text::lemma_scan(" dport { "@, '/', 0);
    text::lemma_scan(" } accept"@, '/', 0);
    text::lemma_scan(", "@, '/', 0);
    lemma_ports_free(exposed, proto);
    lemma_proto_free(proto);
    text::lemma_join_free(open_ports(exposed, proto), ", "@, '/');
}

proof fn lemma_scoped_free(exposed: Seq<fw::ExposedView>)
    ensures
        forall|k: int|
            0 <= k < scoped_lines(exposed).len() ==> text::free_of(
                #[trigger] scoped_lines(exposed)[k],
                '/',
            ),
    decreases exposed.len(),
{
    if exposed.len() > 0 {
        lemma_scoped_free(exposed.drop_last());
        let e = exposed.last();
        assert(text::free_of(scoped_line(e), '/')) by {
            reveal_strlit("add rule inet unitylan input ip saddr @");
            reveal_strlit(" ");
            reveal_strlit(" dport ");
            reveal_strlit(" accept");
            reveal_with_fuel(text::scan, 42);
            text::lemma_scan("add rule inet unitylan input ip saddr @"@, '/', 0);
            text::lemma_scan(" "@, '/', 0);
            text::lemma_scan(" dport "@, '/', 0);
            text::lemma_scan(" accept"@, '/', 0);
            lemma_set_free(e.scope);
            lemma_proto_free(e.proto);
            lemma_dec_free(e.port as nat, '/');
        }
        let before = scoped_lines(exposed.drop_last());
        let all = scoped_lines(exposed);
        assert forall|k: int| 0 <= k < all.len() implies text::free_of(#[trigger] all[k], '/') by {
            if k < before.len() {
                assert(all[k] == before[k]);
            }
        }
    }
}

#[verifier::spinoff_prover]
proof fn lemma_fixed_free()
    ensures
        text::free_of("add table inet unitylan"@, '/'),
        text::free_of("delete table inet unitylan"@, '/'),
        text::free_of(
            "add chain inet unitylan input { type filter hook input priority 0 ; policy accept ; }"@,
            '/',
        ),
        text::free_of(closing_line(), '/'),
{
    assert(text::free_of("add table inet unitylan"@, '/')) by {
        reveal_strlit("add table inet unitylan");
        reveal_with_fuel(text::scan, 24);
        text::lemma_scan("add table inet unitylan"@, '/', 0);
    }
    assert(text::free_of("delete table inet unitylan"@, '/')) by {
        reveal_strlit("delete table inet unitylan");
        reveal_with_fuel(text::scan, 27);
        text::lemma_scan("delete table inet unitylan"@, '/', 0);
    }
    assert(text::free_of("add chain inet unitylan input { type filter hook input priority 0 ; policy accept ; }"@, '/')) by {
        reveal_strlit("add chain inet unitylan input { type filter hook input priority 0 ; policy accept ; }");
        reveal_with_fuel(text::scan, 86);
        text::lemma_scan("add chain inet unitylan input { type filter hook input priority 0 ; policy accept ; }"@, '/', 0);
    }
    assert(text::free_of("add rule inet unitylan input drop"@, '/')) by {
        reveal_strlit("add rule inet unitylan input drop");
        reveal_with_fuel(text::scan, 34);
        text::lemma_scan("add rule inet unitylan input drop"@, '/', 0);
    }
}

proof fn lemma_rules_clear(
    iface: Seq<char>,
    mesh_addr: Option<u32>,
    exposed: Seq<fw::ExposedView>,
    peers: fw::PeersView,
    p2p_port: u16,
)
    requires
        clear(iface),
    ensures
        forall|k: int|
            0 <= k < rules(iface, mesh_addr, exposed, peers, p2p_port).len() ==> clear(
                #[trigger] rules(iface, mesh_addr, exposed, peers, p2p_port)[k],
            ),
{
    lemma_fixed_free();
    lemma_sets_free(exposed);
    lemma_all_sets_free(exposed, peers, set_names(exposed));
    lemma_scoped_free(exposed);
    let chain =
        "add chain inet unitylan input { type filter hook input priority 0 ; policy accept ; }"@;
    let a = opening_lines() + all_set_lines(exposed, peers, set_names(exposed));
    assert forall|k: int| 0 <= k < a.len() implies clear(#[trigger] a[k]) by {
        if k >= 3 {
            assert(a[k] == all_set_lines(exposed, peers, set_names(exposed))[k - 3]);
        }
        lemma_free_is_clear(a[k]);
    }
    let b = a.push(chain) + guard_lines(iface, mesh_addr);
    assert forall|k: int| 0 <= k < b.len() implies clear(#[trigger] b[k]) by {
        if k > a.len() {
            lemma_guard_clear(iface, mesh_addr, k - a.len() - 1);
        } else if k < a.len() {
            assert(b[k] == a[k]);
        } else {
            lemma_free_is_clear(chain);
        }
    }
    let c = b + base_lines(iface, p2p_port);
    assert forall|k: int| 0 <= k < c.len() implies clear(#[trigger] c[k]) by {
        if k >= b.len() {
            lemma_base_clear(iface, p2p_port, k - b.len());
        } else {
            assert(c[k] == b[k]);
        }
    }
    let d = c + open_lines(exposed, Proto::Tcp);
    assert forall|k: int| 0 <= k < d.len() implies clear(#[trigger] d[k]) by {
        if k >= c.len() {
            lemma_open_free(exposed, Proto::Tcp, k - c.len());
            lemma_free_is_clear(d[k]);
        } else {
            assert(d[k] == c[k]);
        }
    }
    let e = d + open_lines(exposed, Proto::Udp);
    assert forall|k: int| 0 <= k < e.len() implies clear(#[trigger] e[k]) by {
        if k >= d.len() {
            lemma_open_free(exposed, Proto::Udp, k - d.len());
            lemma_free_is_clear(e[k]);
        } else {
            assert(e[k] == d[k]);
        }
    }
    let f = e + scoped_lines(exposed);
    assert forall|k: int| 0 <= k < f.len() implies clear(#[trigger] f[k]) by {
        if k >= e.len() {
            assert(f[k] == scoped_lines(exposed)[k - e.len()]);
            lemma_free_is_clear(f[k]);
        } else {
            assert(f[k] == e[k]);
        }
    }
    let g = f + seq![closing_line()];
    assert forall|k: int| 0 <= k < g.len() implies clear(#[trigger] g[k]) by {
        if k < f.len() {
            assert(g[k] == f[k]);
        } else {
            lemma_free_is_clear(closing_line());
        }
    }
}

/// The mesh's own rules are never taken for a rule that silences it, whatever is exposed, as long as
/// the interface's name does not hold the block itself.
pub proof fn law_own_rules_do_not_conflict(
    iface: Seq<char>,
    mesh_addr: Option<u32>,
    exposed: Seq<fw::ExposedView>,
    peers: fw::PeersView,
    p2p_port: u16,
)
    requires
        !text::has(iface, "100.64.0.0/10"@),
    ensures
        conflict_in(text::unlines(rules(iface, mesh_addr, exposed, peers, p2p_port))) is None,
{
    let rs = rules(iface, mesh_addr, exposed, peers, p2p_port);
    lemma_rules_clear(iface, mesh_addr, exposed, peers, p2p_port);
    lemma_unlines_clear(rs);
    lemma_lines_clear(text::unlines(rs), 0);
    lemma_no_conflict(text::lines(text::unlines(rs)), 0, no_spot());
}

proof fn lemma_conflict_blocks(ls: Seq<Seq<char>>, i: int, at: SpotView)
    requires
        0 <= i,
    ensures
        conflict_from(ls, i, at) matches Some((_, l)) ==> blocks(l),
    decreases ls.len() - i,
{
    if i < ls.len() {
        let l = text::trimmed(ls[i]);
        lemma_conflict_blocks(ls, i + 1, moved(at, l));
        lemma_conflict_blocks(ls, i + 1, at);
    }
}

/// Only a rule that refuses is taken for one that silences the mesh: one that speaks of the block but
/// lets it in never is.
pub proof fn law_only_a_refusal_conflicts(listing: Seq<char>)
    ensures
        conflict_in(listing) matches Some((_, l)) ==> {
            &&& text::has(l, "100.64.0.0/10"@)
            &&& text::has(l, "drop"@) || text::has(l, "reject"@)
        },
{
    lemma_conflict_blocks(text::lines(listing), 0, no_spot());
}

/// Whether these are the ports of a protocol that are exposed to all peers: each of them, and no other.
pub open spec fn are_open_to_all(
    exposed: Seq<fw::ExposedView>,
    proto: Proto,
    ports: Seq<Seq<char>>,
) -> bool {
    forall|x: Seq<char>| #[trigger]
        ports.contains(x) <==> exists|j: int|
            0 <= j < exposed.len() && (#[trigger] exposed[j]).scope is AllPeers && exposed[j].proto
                == proto && x == text::dec(exposed[j].port as nat)
}

/// The line that lets every peer reach these ports of a protocol.
pub open spec fn line_for_all(proto: Proto, ports: Seq<Seq<char>>) -> Seq<char> {
    "add rule inet unitylan input "@ + (match proto {
        Proto::Tcp => "tcp"@,
        Proto::Udp => "udp"@,
    }) + " dport { "@ + text::join(ports, ", "@) + " } accept"@
}

/// The line that lets a set of addresses reach a port.
pub open spec fn line_for_set(e: fw::ExposedView) -> Seq<char> {
    "add rule inet unitylan input ip saddr @"@ + set_of(e.scope) + " "@ + (match e.proto {
        Proto::Tcp => "tcp"@,
        Proto::Udp => "udp"@,
    }) + " dport "@ + text::dec(e.port as nat) + " accept"@
}

proof fn lemma_open_ports(exposed: Seq<fw::ExposedView>, proto: Proto)
    ensures
        are_open_to_all(exposed, proto, open_ports(exposed, proto)),
        open_ports(exposed, proto).len() > 0 <==> exists|j: int|
            0 <= j < exposed.len() && (#[trigger] exposed[j]).scope is AllPeers && exposed[j].proto
                == proto,
    decreases exposed.len(),
{
    if exposed.len() > 0 {
        let t = exposed.drop_last();
        let e = exposed.last();
        let before = open_ports(t, proto);
        let all = open_ports(exposed, proto);
        let n = exposed.len() - 1;
        assert(exposed[n] == e);
        lemma_open_ports(t, proto);
        assert forall|x: Seq<char>| #[trigger] all.contains(x) <==> exists|j: int|
            0 <= j < exposed.len() && (#[trigger] exposed[j]).scope is AllPeers && exposed[j].proto
                == proto && x == text::dec(exposed[j].port as nat) by {
            if before.contains(x) {
                let k = choose|k: int| 0 <= k < before.len() && before[k] == x;
                assert(all[k] == x);
                let j = choose|j: int|
                    0 <= j < t.len() && (#[trigger] t[j]).scope is AllPeers && t[j].proto == proto
                        && x == text::dec(t[j].port as nat);
                assert(exposed[j] == t[j]);
            }
            if all.contains(x) && !before.contains(x) {
                let k = choose|k: int| 0 <= k < all.len() && all[k] == x;
                if k < before.len() {
                    assert(before[k] == x);
                }
                assert(exposed[n].scope is AllPeers);
            }
            if exists|j: int|
                0 <= j < exposed.len() && (#[trigger] exposed[j]).scope is AllPeers
                    && exposed[j].proto == proto && x == text::dec(exposed[j].port as nat) {
                let j = choose|j: int|
                    0 <= j < exposed.len() && (#[trigger] exposed[j]).scope is AllPeers
                        && exposed[j].proto == proto && x == text::dec(exposed[j].port as nat);
                if j < n {
                    assert(t[j] == exposed[j]);
                    assert(before.contains(x));
                } else {
                    assert(all[all.len() - 1] == x);
                }
            }
        }
        if all.len() > 0 && before.len() > 0 {
            let j = choose|j: int|
                0 <= j < t.len() && (#[trigger] t[j]).scope is AllPeers && t[j].proto == proto;
            assert(exposed[j] == t[j]);
        }
        if exists|j: int|
            0 <= j < exposed.len() && (#[trigger] exposed[j]).scope is AllPeers && exposed[j].proto
                == proto {
            let j = choose|j: int|
                0 <= j < exposed.len() && (#[trigger] exposed[j]).scope is AllPeers
                    && exposed[j].proto == proto;
            if j < n {
                assert(t[j] == exposed[j]);
            }
        }
    }
}

proof fn lemma_scoped_lines(exposed: Seq<fw::ExposedView>, x: Seq<char>)
    ensures
        scoped_lines(exposed).contains(x) <==> exists|k: int|
            0 <= k < exposed.len() && (#[trigger] exposed[k]).scope !is AllPeers && x
                == line_for_set(exposed[k]),
    decreases exposed.len(),
{
    if exposed.len() > 0 {
        let t = exposed.drop_last();
        let e = exposed.last();
        let before = scoped_lines(t);
        let all = scoped_lines(exposed);
        let n = exposed.len() - 1;
        assert(exposed[n] == e);
        assert(scoped_line(e) == line_for_set(e));
        lemma_scoped_lines(t, x);
        if before.contains(x) {
            let i = choose|i: int| 0 <= i < before.len() && before[i] == x;
            assert(all[i] == x);
            let k = choose|k: int|
                0 <= k < t.len() && (#[trigger] t[k]).scope !is AllPeers && x == line_for_set(t[k]);
            assert(exposed[k] == t[k]);
        }
        if all.contains(x) && !before.contains(x) {
            let i = choose|i: int| 0 <= i < all.len() && all[i] == x;
            if i < before.len() {
                assert(before[i] == x);
            }
            assert(exposed[n].scope !is AllPeers);
        }
        if exists|k: int|
            0 <= k < exposed.len() && (#[trigger] exposed[k]).scope !is AllPeers && x
                == line_for_set(exposed[k]) {
            let k = choose|k: int|
                0 <= k < exposed.len() && (#[trigger] exposed[k]).scope !is AllPeers && x
                    == line_for_set(exposed[k]);
            if k < n {
                assert(t[k] == exposed[k]);
                assert(before.contains(x));
            } else {
                assert(all[all.len() - 1] == x);
            }
        }
    }
}

proof fn lemma_with_name_has(s: Seq<Seq<char>>, x: Seq<char>, y: Seq<char>)
    ensures
        with_name(s, x).contains(y) <==> s.contains(y) || y == x,
{
    lemma_place(s, x, 0);
    let p = place(s, x, 0);
    let r = with_name(s, x);
    if p < s.len() && s[p] == x {
        assert(s.contains(x));
    } else {
        assert(r[p] == x);
        if s.contains(y) {
            let i = choose|i: int| 0 <= i < s.len() && s[i] == y;
            if i < p {
                assert(r[i] == y);
            } else {
                assert(r[i + 1] == y);
            }
        }
        if r.contains(y) && y != x {
            let i = choose|i: int| 0 <= i < r.len() && r[i] == y;
            if i < p {
                assert(s[i] == y);
            } else {
                assert(s[i - 1] == y);
            }
        }
    }
}

proof fn lemma_set_names(exposed: Seq<fw::ExposedView>, x: Seq<char>)
    ensures
        set_names(exposed).contains(x) <==> exists|k: int|
            0 <= k < exposed.len() && (#[trigger] exposed[k]).scope !is AllPeers && x == set_of(
                exposed[k].scope,
            ),
    decreases exposed.len(),
{
    if exposed.len() > 0 {
        let t = exposed.drop_last();
        let e = exposed.last();
        let n = exposed.len() - 1;
        assert(exposed[n] == e);
        lemma_set_names(t, x);
        lemma_with_name_has(set_names(t), set_of(e.scope), x);
        if set_names(t).contains(x) {
            let k = choose|k: int|
                0 <= k < t.len() && (#[trigger] t[k]).scope !is AllPeers && x == set_of(t[k].scope);
            assert(exposed[k] == t[k]);
        }
        if exists|k: int|
            0 <= k < exposed.len() && (#[trigger] exposed[k]).scope !is AllPeers && x == set_of(
                exposed[k].scope,
            ) {
            let k = choose|k: int|
                0 <= k < exposed.len() && (#[trigger] exposed[k]).scope !is AllPeers && x == set_of(
                    exposed[k].scope,
                );
            if k < n {
                assert(t[k] == exposed[k]);
            }
        }
    }
}

proof fn lemma_all_set_lines(
    exposed: Seq<fw::ExposedView>,
    peers: fw::PeersView,
    names: Seq<Seq<char>>,
    x: Seq<char>,
)
    ensures
        all_set_lines(exposed, peers, names).contains(x) <==> exists|i: int|
            0 <= i < names.len() && set_lines(
                #[trigger] names[i],
                set_members(exposed, peers, names[i]),
            ).contains(x),
    decreases names.len(),
{
    if names.len() > 0 {
        let t = names.drop_last();
        let n = names.len() - 1;
        let before = all_set_lines(exposed, peers, t);
        let step = set_lines(names.last(), set_members(exposed, peers, names.last()));
        let all = all_set_lines(exposed, peers, names);
        assert(names[n] == names.last());
        lemma_all_set_lines(exposed, peers, t, x);
        if before.contains(x) {
            let k = choose|k: int| 0 <= k < before.len() && before[k] == x;
            assert(all[k] == x);
            let i = choose|i: int|
                0 <= i < t.len() && set_lines(
                    #[trigger] t[i],
                    set_members(exposed, peers, t[i]),
                ).contains(x);
            assert(names[i] == t[i]);
        }
        if step.contains(x) {
            let k = choose|k: int| 0 <= k < step.len() && step[k] == x;
            assert(all[before.len() + k] == x);
        }
        if all.contains(x) && !before.contains(x) {
            let k = choose|k: int| 0 <= k < all.len() && all[k] == x;
            if k < before.len() {
                assert(before[k] == x);
            } else {
                assert(step[k - before.len()] == x);
            }
        }
        if exists|i: int|
            0 <= i < names.len() && set_lines(
                #[trigger] names[i],
                set_members(exposed, peers, names[i]),
            ).contains(x) {
            let i = choose|i: int|
                0 <= i < names.len() && set_lines(
                    #[trigger] names[i],
                    set_members(exposed, peers, names[i]),
                ).contains(x);
            if i < n {
                assert(t[i] == names[i]);
            }
        }
    }
}

/// The line that makes the chain.
pub open spec fn chain_line() -> Seq<char> {
    "add chain inet unitylan input { type filter hook input priority 0 ; policy accept ; }"@
}

proof fn lemma_parts(
    iface: Seq<char>,
    mesh_addr: Option<u32>,
    exposed: Seq<fw::ExposedView>,
    peers: fw::PeersView,
    p2p_port: u16,
    x: Seq<char>,
)
    ensures
        rules(iface, mesh_addr, exposed, peers, p2p_port).contains(x) <==> {
            ||| opening_lines().contains(x)
            ||| all_set_lines(exposed, peers, set_names(exposed)).contains(x)
            ||| x == chain_line()
            ||| guard_lines(iface, mesh_addr).contains(x)
            ||| base_lines(iface, p2p_port).contains(x)
            ||| open_lines(exposed, Proto::Tcp).contains(x)
            ||| open_lines(exposed, Proto::Udp).contains(x)
            ||| scoped_lines(exposed).contains(x)
            ||| x == closing_line()
        },
{
    let a = opening_lines();
    let b = all_set_lines(exposed, peers, set_names(exposed));
    let g = guard_lines(iface, mesh_addr);
    let h = base_lines(iface, p2p_port);
    let t = open_lines(exposed, Proto::Tcp);
    let u = open_lines(exposed, Proto::Udp);
    let v = scoped_lines(exposed);
    let r = rules(iface, mesh_addr, exposed, peers, p2p_port);
    lemma_in_sum(a, b, x);
    lemma_in_sum(a + b, seq![chain_line()], x);
    assert((a + b).push(chain_line()) =~= a + b + seq![chain_line()]);
    lemma_in_sum((a + b).push(chain_line()), g, x);
    lemma_in_sum((a + b).push(chain_line()) + g, h, x);
    lemma_in_sum((a + b).push(chain_line()) + g + h, t, x);
    lemma_in_sum((a + b).push(chain_line()) + g + h + t, u, x);
    lemma_in_sum((a + b).push(chain_line()) + g + h + t + u, v, x);
    lemma_in_sum((a + b).push(chain_line()) + g + h + t + u + v, seq![closing_line()], x);
    assert(seq![chain_line()].contains(x) <==> x == chain_line()) by {
        assert(seq![chain_line()][0] == chain_line());
    }
    assert(seq![closing_line()].contains(x) <==> x == closing_line()) by {
        assert(seq![closing_line()][0] == closing_line());
    }
}

proof fn lemma_in_sum(a: Seq<Seq<char>>, b: Seq<Seq<char>>, x: Seq<char>)
    ensures
        (a + b).contains(x) <==> a.contains(x) || b.contains(x),
{
    let s = a + b;
    if a.contains(x) {
        let i = choose|i: int| 0 <= i < a.len() && a[i] == x;
        assert(s[i] == x);
    }
    if b.contains(x) {
        let i = choose|i: int| 0 <= i < b.len() && b[i] == x;
        assert(s[a.len() + i] == x);
    }
    if s.contains(x) {
        let i = choose|i: int| 0 <= i < s.len() && s[i] == x;
        if i < a.len() {
            assert(a[i] == x);
        } else {
            assert(b[i - a.len()] == x);
        }
    }
}

/// A port that is exposed to all peers is open to them: it is among the ports of the line that accepts
/// its protocol, and every port of that line is exposed so.
pub proof fn law_exposed_to_all_is_open(
    iface: Seq<char>,
    mesh_addr: Option<u32>,
    exposed: Seq<fw::ExposedView>,
    peers: fw::PeersView,
    p2p_port: u16,
    k: int,
)
    requires
        0 <= k < exposed.len(),
        exposed[k].scope is AllPeers,
    ensures
        exists|ports: Seq<Seq<char>>|
            #![trigger line_for_all(exposed[k].proto, ports)]
            rules(iface, mesh_addr, exposed, peers, p2p_port).contains(
                line_for_all(exposed[k].proto, ports),
            ) && ports.contains(text::dec(exposed[k].port as nat)) && are_open_to_all(
                exposed,
                exposed[k].proto,
                ports,
            ),
{
    let p = exposed[k].proto;
    let ports = open_ports(exposed, p);
    let line = line_for_all(p, ports);
    lemma_open_ports(exposed, p);
    assert(ports.contains(text::dec(exposed[k].port as nat)));
    assert(open_lines(exposed, p)[0] == line);
    lemma_parts(iface, mesh_addr, exposed, peers, p2p_port, line);
}

/// A port that is exposed to some peers is open to just them: a line accepts it from the set of its
/// scope, that set is made, and what is put into a network's set, or into that of the owner's devices,
/// is the addresses that the scope admits.
pub proof fn law_scoped_port_is_open_to_its_set(
    iface: Seq<char>,
    mesh_addr: Option<u32>,
    exposed: Seq<fw::ExposedView>,
    peers: fw::PeersView,
    p2p_port: u16,
    k: int,
)
    requires
        0 <= k < exposed.len(),
        exposed[k].scope !is AllPeers,
    ensures
        ({
            let r = rules(iface, mesh_addr, exposed, peers, p2p_port);
            let set = set_of(exposed[k].scope);
            &&& r.contains(line_for_set(exposed[k]))
            &&& r.contains("add set inet unitylan "@ + set + " { type ipv4_addr ; }"@)
            &&& (exposed[k].scope is Net || exposed[k].scope is OwnDevices) ==> match peers.sources(
                exposed[k].scope,
            ) {
                Some(ips) => ips.len() > 0 ==> r.contains(
                    "add element inet unitylan "@ + set + " { "@ + text::join(
                        net::dotted_list(ips),
                        ", "@,
                    ) + " }"@,
                ),
                None => false,
            }
        }),
{
    let set = set_of(exposed[k].scope);
    let names = set_names(exposed);
    let members = set_members(exposed, peers, set);
    let define = "add set inet unitylan "@ + set + " { type ipv4_addr ; }"@;
    let fill = "add element inet unitylan "@ + set + " { "@ + text::join(
        net::dotted_list(members),
        ", "@,
    ) + " }"@;
    lemma_scoped_lines(exposed, line_for_set(exposed[k]));
    lemma_parts(iface, mesh_addr, exposed, peers, p2p_port, line_for_set(exposed[k]));
    lemma_set_names(exposed, set);
    let i = choose|i: int| 0 <= i < names.len() && names[i] == set;
    let lines = set_lines(names[i], set_members(exposed, peers, names[i]));
    assert(lines[0] == define);
    lemma_all_set_lines(exposed, peers, names, define);
    lemma_parts(iface, mesh_addr, exposed, peers, p2p_port, define);
    if exposed[k].scope is Net || exposed[k].scope is OwnDevices {
        law_rule_admits_its_scope(exposed, peers, k);
        if members.len() > 0 {
            assert(lines[1] == fill);
            lemma_all_set_lines(exposed, peers, names, fill);
            lemma_parts(iface, mesh_addr, exposed, peers, p2p_port, fill);
        }
    }
}

proof fn lemma_ends(s: Seq<char>, t: Seq<char>)
    requires
        text::ends_with(s, t),
        t.len() > 0,
    ensures
        s.len() > 0,
        s.last() == t.last(),
{
    assert(s.skip(s.len() - t.len())[t.len() - 1] == t[t.len() - 1]);
}

/// Nothing is let in but what is to be: a line that accepts is one of those that hold whatever is
/// exposed, or the line of a protocol for the ports that are exposed to all, or that of an exposure to
/// some, for its set.
pub proof fn law_accepts_nothing_else(
    iface: Seq<char>,
    mesh_addr: Option<u32>,
    exposed: Seq<fw::ExposedView>,
    peers: fw::PeersView,
    p2p_port: u16,
    x: Seq<char>,
)
    requires
        rules(iface, mesh_addr, exposed, peers, p2p_port).contains(x),
        text::ends_with(x, " accept"@),
    ensures
        ({
            ||| x == "add rule inet unitylan input iifname != \""@ + iface + "\" accept"@
            ||| x == "add rule inet unitylan input ct state established,related accept"@
            ||| x == "add rule inet unitylan input icmp type echo-request accept"@
            ||| x == "add rule inet unitylan input udp dport "@ + text::dec(p2p_port as nat)
                + " accept"@
            ||| exists|proto: Proto, ports: Seq<Seq<char>>| #[trigger]
                are_open_to_all(exposed, proto, ports) && x == line_for_all(proto, ports)
            ||| exists|k: int|
                0 <= k < exposed.len() && (#[trigger] exposed[k]).scope !is AllPeers && x
                    == line_for_set(exposed[k])
        }),
{
    lemma_parts(iface, mesh_addr, exposed, peers, p2p_port, x);
    reveal_strlit(" accept");
    lemma_ends(x, " accept"@);
    assert(x.last() == 't');
    reveal_strlit("add table inet unitylan");
    reveal_strlit("delete table inet unitylan");
    reveal_strlit(
        "add chain inet unitylan input { type filter hook input priority 0 ; policy accept ; }",
    );
    reveal_strlit("add rule inet unitylan input drop");
    reveal_strlit(" drop");
    reveal_strlit(" }");
    reveal_strlit(" { type ipv4_addr ; }");
    assert(!opening_lines().contains(x)) by {
        let o = opening_lines();
        if o.contains(x) {
            let i = choose|i: int| 0 <= i < o.len() && o[i] == x;
            assert(o[i].last() == 'n');
        }
    }
    if all_set_lines(exposed, peers, set_names(exposed)).contains(x) {
        let names = set_names(exposed);
        lemma_all_set_lines(exposed, peers, names, x);
        let i = choose|i: int|
            0 <= i < names.len() && set_lines(
                #[trigger] names[i],
                set_members(exposed, peers, names[i]),
            ).contains(x);
        let l = set_lines(names[i], set_members(exposed, peers, names[i]));
        let j = choose|j: int| 0 <= j < l.len() && l[j] == x;
        assert(l[j].last() == '}');
    }
    if guard_lines(iface, mesh_addr).contains(x) {
        let l = guard_lines(iface, mesh_addr);
        let j = choose|j: int| 0 <= j < l.len() && l[j] == x;
        assert(l[j].last() == 'p');
    }
    if base_lines(iface, p2p_port).contains(x) {
        let l = base_lines(iface, p2p_port);
        let j = choose|j: int| 0 <= j < l.len() && l[j] == x;
        assert(j == 0 || j == 1 || j == 2 || j == 3);
    }
    if open_lines(exposed, Proto::Tcp).contains(x) {
        lemma_open_ports(exposed, Proto::Tcp);
        let ports = open_ports(exposed, Proto::Tcp);
        assert(are_open_to_all(exposed, Proto::Tcp, ports) && x == line_for_all(Proto::Tcp, ports));
    }
    if open_lines(exposed, Proto::Udp).contains(x) {
        lemma_open_ports(exposed, Proto::Udp);
        let ports = open_ports(exposed, Proto::Udp);
        assert(are_open_to_all(exposed, Proto::Udp, ports) && x == line_for_all(Proto::Udp, ports));
    }
    lemma_scoped_lines(exposed, x);
}

proof fn lemma_last_in_range(exposed: Seq<fw::ExposedView>, name: Seq<char>, i: int)
    requires
        i <= exposed.len(),
    ensures
        last_of_set(exposed, name, i) >= 0 ==> last_of_set(exposed, name, i) < i && scoped(
            exposed[last_of_set(exposed, name, i)],
        ) && set_of(exposed[last_of_set(exposed, name, i)].scope) == name,
    decreases i,
{
    if i > 0 && !(scoped(exposed[i - 1]) && set_of(exposed[i - 1].scope) == name) {
        lemma_last_in_range(exposed, name, i - 1);
    }
}

/// Nobody is put into a set but those whom an exposure that goes by it admits.
pub proof fn law_sets_hold_nobody_else(
    iface: Seq<char>,
    mesh_addr: Option<u32>,
    exposed: Seq<fw::ExposedView>,
    peers: fw::PeersView,
    p2p_port: u16,
    x: Seq<char>,
)
    requires
        rules(iface, mesh_addr, exposed, peers, p2p_port).contains(x),
        text::starts_with(x, "add element "@),
    ensures
        exists|k: int|
            0 <= k < exposed.len() && (#[trigger] exposed[k]).scope !is AllPeers && (
            peers.sources(exposed[k].scope) matches Some(ips) && ips.len() > 0 && x
                == "add element inet unitylan "@ + set_of(exposed[k].scope) + " { "@ + text::join(
                net::dotted_list(ips),
                ", "@,
            ) + " }"@),
{
    lemma_parts(iface, mesh_addr, exposed, peers, p2p_port, x);
    reveal_strlit("add element ");
    assert(x[4] == "add element "@[4]) by {
        assert(x.take(12)[4] == x[4]);
    }
    reveal_strlit("add table inet unitylan");
    reveal_strlit("delete table inet unitylan");
    reveal_strlit(
        "add chain inet unitylan input { type filter hook input priority 0 ; policy accept ; }",
    );
    reveal_strlit("add rule inet unitylan input drop");
    reveal_strlit("add rule inet unitylan input ct state established,related accept");
    reveal_strlit("add rule inet unitylan input icmp type echo-request accept");
    reveal_strlit("add rule inet unitylan input udp dport ");
    reveal_strlit("add rule inet unitylan input iifname != \"");
    reveal_strlit("add rule inet unitylan input iifname != { \"lo\", \"");
    reveal_strlit("add rule inet unitylan input ");
    reveal_strlit("add rule inet unitylan input ip saddr @");
    reveal_strlit("add set inet unitylan ");
    assert(x[4] == 'e');
    if opening_lines().contains(x) {
        let o = opening_lines();
        let i = choose|i: int| 0 <= i < o.len() && o[i] == x;
        assert(o[i][4] == 't');
    }
    if guard_lines(iface, mesh_addr).contains(x) {
        let l = guard_lines(iface, mesh_addr);
        let j = choose|j: int| 0 <= j < l.len() && l[j] == x;
        assert(l[j][4] == 'r');
    }
    if base_lines(iface, p2p_port).contains(x) {
        let l = base_lines(iface, p2p_port);
        let j = choose|j: int| 0 <= j < l.len() && l[j] == x;
        assert(l[j][4] == 'r');
    }
    if open_lines(exposed, Proto::Tcp).contains(x) {
        assert(open_lines(exposed, Proto::Tcp)[0][4] == 'r');
    }
    if open_lines(exposed, Proto::Udp).contains(x) {
        assert(open_lines(exposed, Proto::Udp)[0][4] == 'r');
    }
    lemma_scoped_lines(exposed, x);
    if scoped_lines(exposed).contains(x) {
        let k = choose|k: int|
            0 <= k < exposed.len() && (#[trigger] exposed[k]).scope !is AllPeers && x
                == line_for_set(exposed[k]);
        assert(x[4] == 'r');
    }
    let names = set_names(exposed);
    lemma_all_set_lines(exposed, peers, names, x);
    let i = choose|i: int|
        0 <= i < names.len() && set_lines(
            #[trigger] names[i],
            set_members(exposed, peers, names[i]),
        ).contains(x);
    let l = set_lines(names[i], set_members(exposed, peers, names[i]));
    assert(l[0][4] == 's');
    let j = choose|j: int| 0 <= j < l.len() && l[j] == x;
    assert(j == 1);
    lemma_last_in_range(exposed, names[i], exposed.len() as int);
    let k = last_of_set(exposed, names[i], exposed.len() as int);
    assert(exposed[k].scope !is AllPeers);
}

/// The order of a script: the table is replaced and the sets are made before the chain; every line after
/// the chain is a rule of it. What comes to the mesh address from elsewhere is refused before any other
/// interface is let be; then come answers, pings and the mesh's own traffic; and the last line refuses
/// the rest.
pub proof fn law_order_of_a_script(
    iface: Seq<char>,
    mesh_addr: Option<u32>,
    exposed: Seq<fw::ExposedView>,
    peers: fw::PeersView,
    p2p_port: u16,
)
    ensures
        exists|c: int| #[trigger]
            is_chain_at(rules(iface, mesh_addr, exposed, peers, p2p_port), iface, mesh_addr, p2p_port, c),
{
    let r = rules(iface, mesh_addr, exposed, peers, p2p_port);
    let sets = all_set_lines(exposed, peers, set_names(exposed));
    let c: int = 3 + sets.len() as int;
    let g = guard_lines(iface, mesh_addr).len() as int;
    let t = open_lines(exposed, Proto::Tcp);
    let u = open_lines(exposed, Proto::Udp);
    let v = scoped_lines(exposed);
    assert(r[c] == chain_line());
    reveal_strlit("add rule inet unitylan input ");
    reveal_strlit("add rule inet unitylan input ct state established,related accept");
    reveal_strlit("add rule inet unitylan input icmp type echo-request accept");
    reveal_strlit("add rule inet unitylan input udp dport ");
    reveal_strlit("add rule inet unitylan input iifname != \"");
    reveal_strlit("add rule inet unitylan input iifname != { \"lo\", \"");
    reveal_strlit("add rule inet unitylan input ip saddr @");
    reveal_strlit("add rule inet unitylan input drop");
    reveal_strlit("add table inet unitylan");
    reveal_strlit("delete table inet unitylan");
    reveal_strlit("add set inet unitylan ");
    reveal_strlit("add element inet unitylan ");
    let head = "add rule inet unitylan input "@;
    assert forall|j: int| c < j < r.len() implies text::starts_with(#[trigger] r[j], head) by {
        let b = c + 1 + g;
        if j < b {
            assert(r[j] == guard_lines(iface, mesh_addr)[j - c - 1]);
        } else if j < b + 4 {
            assert(r[j] == base_lines(iface, p2p_port)[j - b]);
        } else if j < b + 4 + t.len() {
            assert(r[j] == t[j - b - 4]);
        } else if j < b + 4 + t.len() + u.len() {
            assert(r[j] == u[j - b - 4 - t.len()]);
        } else if j < b + 4 + t.len() + u.len() + v.len() {
            let i = j - b - 4 - t.len() - u.len();
            assert(r[j] == v[i]);
            assert(v.contains(v[i]));
            lemma_scoped_lines(exposed, v[i]);
        } else {
            assert(r[j] == closing_line());
        }
        assert(r[j].take(29) =~= head);
    }
    assert forall|j: int| 0 <= j < c implies !text::starts_with(#[trigger] r[j], head) by {
        if j < 3 {
            assert(r[j] == opening_lines()[j]);
            assert(r[j][4] == 't');
        } else {
            assert(r[j] == sets[j - 3]);
            assert(sets.contains(sets[j - 3]));
            let names = set_names(exposed);
            lemma_all_set_lines(exposed, peers, names, sets[j - 3]);
            let i = choose|i: int|
                0 <= i < names.len() && set_lines(
                    #[trigger] names[i],
                    set_members(exposed, peers, names[i]),
                ).contains(sets[j - 3]);
            let l = set_lines(names[i], set_members(exposed, peers, names[i]));
            let m = choose|m: int| 0 <= m < l.len() && l[m] == sets[j - 3];
            assert(l[m][4] == 's' || l[m][4] == 'e');
        }
        if text::starts_with(r[j], head) {
            assert(r[j].take(29)[4] == head[4]);
        }
    }
    let b = c + 1 + g;
    assert(r[b] == base_lines(iface, p2p_port)[0]);
    assert(r[b + 1] == base_lines(iface, p2p_port)[1]);
    assert(r[b + 2] == base_lines(iface, p2p_port)[2]);
    assert(r[b + 3] == base_lines(iface, p2p_port)[3]);
    if mesh_addr is Some {
        assert(r[c + 1] == guard_lines(iface, mesh_addr)[0]);
    }
    assert(is_chain_at(r, iface, mesh_addr, p2p_port, c));
}

/// Whether a script's chain is made at a line, with all before it that is to be before, and all after.
pub open spec fn is_chain_at(
    r: Seq<Seq<char>>,
    iface: Seq<char>,
    mesh_addr: Option<u32>,
    p2p_port: u16,
    c: int,
) -> bool {
    let g: int = if mesh_addr is Some {
        1
    } else {
        0
    };
    &&& 3 <= c && c + g + 5 < r.len()
    &&& r[0] == "add table inet unitylan"@
    &&& r[1] == "delete table inet unitylan"@
    &&& r[2] == "add table inet unitylan"@
    &&& r[c] == chain_line()
    &&& forall|j: int|
        0 <= j < c ==> !text::starts_with(#[trigger] r[j], "add rule inet unitylan input "@)
    &&& forall|j: int|
        c < j < r.len() ==> text::starts_with(#[trigger] r[j], "add rule inet unitylan input "@)
    &&& mesh_addr matches Some(a) ==> r[c + 1]
        == "add rule inet unitylan input iifname != { \"lo\", \""@ + iface + "\" } ip daddr "@
        + net::dotted(a) + " drop"@
    &&& r[c + g + 1] == "add rule inet unitylan input iifname != \""@ + iface + "\" accept"@
    &&& r[c + g + 2] == "add rule inet unitylan input ct state established,related accept"@
    &&& r[c + g + 3] == "add rule inet unitylan input icmp type echo-request accept"@
    &&& r[c + g + 4] == "add rule inet unitylan input udp dport "@ + text::dec(p2p_port as nat)
        + " accept"@
    &&& r.last() == "add rule inet unitylan input drop"@
}

/// Whether a text is one word: it is not empty and has no space in it.
pub open spec fn is_word(s: Seq<char>) -> bool {
    s.len() > 0 && forall|i: int| 0 <= i < s.len() ==> !text::is_space(#[trigger] s[i])
}

/// A line that opens a table is followed by what stands in that table, and one that opens a chain by
/// what stands in that chain; any other line moves nothing.
pub proof fn law_where_a_line_stands(
    at: SpotView,
    family: Seq<char>,
    table: Seq<char>,
    chain: Seq<char>,
    l: Seq<char>,
)
    requires
        is_word(family),
        is_word(table),
        is_word(chain),
    ensures
        ({
            let t = moved(at, "table "@ + family + " "@ + table + " {"@);
            t.family == family && t.table == table && t.chain == at.chain
        }),
        ({
            let c = moved(at, "chain "@ + chain + " {"@);
            c.family == at.family && c.table == at.table && c.chain == chain
        }),
        !text::starts_with(l, "table "@) && !text::starts_with(l, "chain "@) ==> moved(at, l) == at,
{
    reveal_strlit("table ");
    reveal_strlit("chain ");
    reveal_strlit(" {");
    reveal_strlit(" ");
    let brace = seq!['{'];
    text::law_spaces_of_ascii(' ');
    text::law_spaces_of_ascii('{');
    let end = " {"@;
    assert(end =~= seq![' '] + brace);
    let t = "table "@ + family + " "@ + table + end;
    let behind = table + end;
    let rest = " "@ + behind;
    assert(t.take(6) =~= "table "@);
    assert(t.skip(6) =~= family + rest);
    text::law_read_word_by_word(family, rest, ' ');
    assert(rest =~= seq![' '] + behind);
    text::law_read_word_by_word(family, behind, ' ');
    text::law_read_word_by_word(table, end, ' ');
    assert(text::words(family + rest)[0] == family);
    assert(text::words(family + rest)[1] == table);
    let c = "chain "@ + chain + end;
    assert(c.take(6) =~= "chain "@);
    assert(c.skip(6) =~= chain + end);
    assert(c[0] == 'c' && "table "@[0] == 't');
    assert(!text::starts_with(c, "table "@)) by {
        assert(c.take(6)[0] == 'c');
    }
    text::law_read_word_by_word(chain, end, ' ');
    assert(text::words(chain + end)[0] == chain);
}

/// Whether a line, without the spaces at its ends, is no header and drops or rejects by the mesh's
/// block.
pub open spec fn silences(l: Seq<char>) -> bool {
    let t = text::trimmed(l);
    &&& !text::starts_with(t, "table "@) && !text::starts_with(t, "chain "@)
    &&& text::has(t, "drop"@) || text::has(t, "reject"@)
    &&& text::has(t, "100.64.0.0/10"@)
}

proof fn lemma_conflict_at(ls: Seq<Seq<char>>, i: int, k: int)
    requires
        0 <= i <= k <= ls.len(),
        forall|j: int| i <= j < k ==> !silences(#[trigger] ls[j]),
        k < ls.len() ==> silences(ls[k]),
    ensures
        conflict_from(ls, i, spot_after(ls, i)) == if k < ls.len() {
            Some((spot_after(ls, k), text::trimmed(ls[k])))
        } else {
            None
        },
    decreases k - i,
{
    if i < k {
        assert(!silences(ls[i]));
        lemma_conflict_at(ls, i + 1, k);
    }
}

/// What silences the mesh is the first line of a listing that drops or rejects by its block, told with
/// where it stands; there is none if and only if no line does.
pub proof fn law_first_refusal_is_the_conflict(listing: Seq<char>, k: int)
    ensures
        ({
            let ls = text::lines(listing);
            &&& 0 <= k < ls.len() && silences(ls[k]) && (forall|j: int|
                0 <= j < k ==> !silences(#[trigger] ls[j])) ==> conflict_in(listing) == Some(
                (spot_after(ls, k), text::trimmed(ls[k])),
            )
            &&& (forall|j: int| 0 <= j < ls.len() ==> !silences(#[trigger] ls[j])) ==> conflict_in(
                listing,
            ) is None
        }),
{
    let ls = text::lines(listing);
    if 0 <= k < ls.len() && silences(ls[k]) && (forall|j: int|
        0 <= j < k ==> !silences(#[trigger] ls[j])) {
        lemma_conflict_at(ls, 0, k);
    }
    if forall|j: int| 0 <= j < ls.len() ==> !silences(#[trigger] ls[j]) {
        lemma_conflict_at(ls, 0, ls.len() as int);
    }
}

/// Where a line stands is told by the headers before it, each in turn.
pub proof fn law_headers_are_followed_in_turn(ls: Seq<Seq<char>>, i: int)
    requires
        0 <= i < ls.len(),
    ensures
        spot_after(ls, 0) == (SpotView { family: seq![], table: seq![], chain: seq![] }),
        spot_after(ls, i + 1) == moved(spot_after(ls, i), text::trimmed(ls[i])),
{
}

/// What peers send is let in by the interface it comes in on; and where the host has an address in the
/// mesh, what it sends itself is let in by that address on the loopback, and by no other.
pub proof fn law_what_is_exempted(iface: Seq<char>, addr: u32)
    ensures
        exemptions(iface, None) == seq![
            CompatView {
                args: seq!["iifname"@, iface, "accept"@, "comment"@, "unitylan-cgnat-compat"@],
                key: "iifname \""@ + iface + "\""@,
            },
        ],
        exemptions(iface, Some(addr)) == exemptions(iface, None) + seq![
            CompatView {
                args: seq![
                    "ip"@,
                    "saddr"@,
                    net::dotted(addr),
                    "iifname"@,
                    "lo"@,
                    "accept"@,
                    "comment"@,
                    "unitylan-cgnat-compat"@,
                ],
                key: "ip saddr "@ + net::dotted(addr) + " iifname \"lo\""@,
            },
        ],
{
    assert(exemptions(iface, Some(addr)) =~= exemptions(iface, None) + seq![
        loopback_exemption(addr),
    ]);
}

/// An exemption is in place if and only if some line carries the mesh's comment and its key; those that
/// are missing are just the others, in order.
pub proof fn law_what_is_missing(
    listing: Seq<char>,
    a: Seq<CompatView>,
    b: Seq<CompatView>,
    r: CompatView,
)
    ensures
        present(listing, r.key) <==> exists|i: int|
            0 <= i < text::lines(listing).len() && text::has(
                #[trigger] text::lines(listing)[i],
                "unitylan-cgnat-compat"@,
            ) && text::has(text::lines(listing)[i], r.key),
        missing_from(listing, seq![]) == Seq::<CompatView>::empty(),
        missing_from(listing, seq![r]) == if present(listing, r.key) {
            seq![]
        } else {
            seq![r]
        },
        missing_from(listing, a + b) == missing_from(listing, a) + missing_from(listing, b),
    decreases b.len(),
{
    let ls = text::lines(listing);
    if present(listing, r.key) {
        let i = choose|i: int| 0 <= i < ls.len() && #[trigger] is_exemption(ls[i], r.key);
        assert(text::has(ls[i], "unitylan-cgnat-compat"@));
    }
    if exists|i: int|
        0 <= i < ls.len() && text::has(#[trigger] ls[i], "unitylan-cgnat-compat"@) && text::has(
            ls[i],
            r.key,
        ) {
        let i = choose|i: int|
            0 <= i < ls.len() && text::has(#[trigger] ls[i], "unitylan-cgnat-compat"@) && text::has(
                ls[i],
                r.key,
            );
        assert(is_exemption(ls[i], r.key));
    }
    reveal(Seq::filter);
    let p = |r: CompatView| !present(listing, r.key);
    assert(seq![r].drop_last() =~= seq![]);
    assert(Seq::<CompatView>::empty().filter(p) =~= seq![]);
    assert(missing_from(listing, seq![r]) =~= if p(r) {
        seq![r]
    } else {
        seq![]
    });
    if b.len() == 0 {
        assert(a + b =~= a);
        assert(missing_from(listing, a) + missing_from(listing, b) =~= missing_from(listing, a));
    } else {
        law_what_is_missing(listing, a, b.drop_last(), r);
        assert((a + b).drop_last() =~= a + b.drop_last());
        assert(missing_from(listing, a + b) =~= missing_from(listing, a) + missing_from(listing, b));
    }
}

/// Whether a line, without the spaces at its ends, is no header and carries the mesh's comment.
pub open spec fn is_own(l: Seq<char>) -> bool {
    let t = text::trimmed(l);
    &&& !text::starts_with(t, "table "@) && !text::starts_with(t, "chain "@)
    &&& text::has(t, "unitylan-cgnat-compat"@)
}

/// Whether one of the first lines carries the mesh's comment, with this place and handle.
pub open spec fn stands_in(ls: Seq<Seq<char>>, n: int, h: (SpotView, Seq<char>)) -> bool {
    exists|j: int|
        0 <= j < n && is_own(#[trigger] ls[j]) && h == (
            spot_after(ls, j),
            text::trimmed(text::after_last(text::trimmed(ls[j]), "# handle "@)),
        )
}

/// Every exemption of a listing is found again: each line with the mesh's comment, where it stands and
/// by its handle, and nothing else.
pub proof fn law_every_exemption_is_found_again(ls: Seq<Seq<char>>, n: int, i: int)
    requires
        0 <= n <= ls.len(),
    ensures
        0 <= i < n && is_own(ls[i]) ==> handles_in(ls, n).contains(
            (
                spot_after(ls, i),
                text::trimmed(text::after_last(text::trimmed(ls[i]), "# handle "@)),
            ),
        ),
        forall|k: int|
            0 <= k < handles_in(ls, n).len() ==> stands_in(ls, n, #[trigger] handles_in(ls, n)[k]),
    decreases n,
{
    if n > 0 {
        let before = handles_in(ls, n - 1);
        let all = handles_in(ls, n);
        law_every_exemption_is_found_again(ls, n - 1, i);
        let l = ls[n - 1];
        let last = (
            spot_after(ls, n - 1),
            text::trimmed(text::after_last(text::trimmed(l), "# handle "@)),
        );
        if is_own(l) {
            assert(all == before.push(last));
            assert(all[all.len() - 1] == last);
        } else {
            assert(all == before);
        }
        if 0 <= i < n - 1 && is_own(ls[i]) {
            let x = (
                spot_after(ls, i),
                text::trimmed(text::after_last(text::trimmed(ls[i]), "# handle "@)),
            );
            let k = choose|k: int| 0 <= k < before.len() && before[k] == x;
            assert(all[k] == x);
        }
        assert forall|k: int| 0 <= k < all.len() implies stands_in(ls, n, #[trigger] all[k]) by {
            if k < before.len() {
                assert(stands_in(ls, n - 1, before[k]));
                let j = choose|j: int|
                    0 <= j < n - 1 && is_own(#[trigger] ls[j]) && before[k] == (
                        spot_after(ls, j),
                        text::trimmed(text::after_last(text::trimmed(ls[j]), "# handle "@)),
                    );
                assert(is_own(ls[j]));
            } else {
                assert(is_own(ls[n - 1]));
            }
        }
    }
}

/// A person would type all of an exemption but its comment.
pub proof fn law_what_a_person_would_type(a: Seq<Seq<char>>, b: Seq<Seq<char>>)
    requires
        !a.contains("comment"@),
    ensures
        typed(a) == a,
        typed(a + seq!["comment"@] + b) == a,
    decreases a.len(),
{
    let s = a + seq!["comment"@] + b;
    if a.len() == 0 {
        assert(s[0] == "comment"@);
        assert(typed(a) =~= a);
        assert(typed(s) =~= a);
    } else {
        let t = a.skip(1);
        assert(a.contains(a[0]));
        assert(!t.contains("comment"@)) by {
            if t.contains("comment"@) {
                let i = choose|i: int| 0 <= i < t.len() && t[i] == "comment"@;
                assert(a[i + 1] == "comment"@);
            }
        }
        law_what_a_person_would_type(t, b);
        assert(s.skip(1) =~= t + seq!["comment"@] + b);
        assert(s[0] == a[0]);
        assert(seq![a[0]] + t =~= a);
    }
}

/// An exemption is inserted where the refusal stands, ahead of it, and taken out where it stands, by its
/// handle; a person would do the same.
pub proof fn law_how_an_exemption_comes_and_goes(
    at: SpotView,
    r: CompatView,
    handle: Seq<char>,
    hs: Seq<(SpotView, Seq<char>)>,
    rules: Seq<CompatView>,
    i: int,
)
    ensures
        insertion(at, r.args) == seq!["insert"@, "rule"@, at.family, at.table, at.chain] + r.args,
        deletion(at, handle) == seq![
            "delete"@,
            "rule"@,
            at.family,
            at.table,
            at.chain,
            "handle"@,
            handle,
        ],
        deletions(hs).len() == hs.len(),
        0 <= i < hs.len() ==> deletions(hs)[i] == deletion(hs[i].0, hs[i].1),
        manual_commands(at, rules).len() == rules.len(),
        0 <= i < rules.len() ==> manual_commands(at, rules)[i] == "nft insert rule "@ + at.family
            + " "@ + at.table + " "@ + at.chain + " "@ + text::join(typed(rules[i].args), " "@),
{
}

/// There is something to do if and only if a line silences the mesh and an exemption is missing; it is
/// then all that are missing, at that line.
pub proof fn law_when_there_is_something_to_do(
    r: Option<CompatPlan>,
    listing: Seq<char>,
    iface: Seq<char>,
    mesh_addr: Option<u32>,
)
    requires
        is_plan(r, listing, iface, mesh_addr),
    ensures
        ({
            let missing = missing_from(listing, exemptions(iface, mesh_addr));
            &&& r is Some <==> conflict_in(listing) is Some && missing.len() > 0
            &&& r matches Some(p) ==> {
                &&& compat_views(p.missing@) == missing
                &&& Some((p.conflict.at@, p.conflict.rule@)) == conflict_in(listing)
                &&& p.manual@ == text::join(manual_commands(p.conflict.at@, missing), "; "@)
            }
        }),
{
}

/// A set is named for its scope: the owner's devices, a network by its numbers, or a typed name with
/// what may not stand in a set's name replaced.
pub proof fn law_what_a_set_is_called(
    guild_id: u64,
    role_id: u64,
    guild: Seq<char>,
    name: Seq<char>,
    i: int,
)
    ensures
        set_of(api::ScopeView::OwnDevices) == "own_devices"@,
        set_of(api::ScopeView::Net { guild_id, role_id }) == "net_"@ + text::dec(guild_id as nat)
            + "_"@ + text::dec(role_id as nat),
        set_of(api::ScopeView::Unresolved { guild: Some(guild), name }) == "named_"@ + plain(guild)
            + "_"@ + plain(name),
        plain(name).len() == name.len(),
        0 <= i < name.len() ==> plain(name)[i] == if ('a' <= name[i] <= 'z') || ('A' <= name[i]
            <= 'Z') || ('0' <= name[i] <= '9') {
            name[i]
        } else {
            '_'
        },
        NftBackend.clearing() == "add table inet unitylan\ndelete table inet unitylan\n"@,
{
}

} // verus!
