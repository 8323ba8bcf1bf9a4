//! The Windows Defender Firewall rendering of the exposed set, as a PowerShell script.
//!
//! Every rule for a port is an inbound allow on the mesh interface alone. All rules share one group,
//! so that a reset is one removal and every application replaces them. That firewall lets answers
//! in by itself and blocks what is not allowed, so that nothing is open unless it is exposed. Each
//! rule tolerates a missing interface: what is built before the adapter exists is skipped, and made
//! by the first application after it does.
use crate::api::Proto;
use crate::fw::{self, Exposed, FirewallBackend, PeerSets};
use crate::net::{self, join_v4};
use crate::text;
use vstd::prelude::*;
use vstd::string::*;

verus! {

/// Renders the rules for Windows Defender Firewall.
pub struct WindowsFwBackend {
    /// The port of the tunnel.
    pub listen_port: u16,
    /// The port of the discovery beacon, when it runs.
    pub beacon_port: Option<u16>,
}

/// The removal of every rule of the group. It does not fail when there is none.
pub open spec fn group_removal() -> Seq<char> {
    "Remove-NetFirewallRule -Group 'UnityLAN' -ErrorAction SilentlyContinue"@
}

/// The removal of every rule of the group.
pub fn remove_group() -> (r: String)
    ensures
        r@ == group_removal(),
{
    "Remove-NetFirewallRule -Group 'UnityLAN' -ErrorAction SilentlyContinue".to_owned()
}

/// `s` with every single quote doubled.
pub open spec fn doubled(s: Seq<char>) -> Seq<char>
    decreases s.len(),
{
    if s.len() == 0 {
        seq![]
    } else if s.last() == '\'' {
        doubled(s.drop_last()).push('\'').push('\'')
    } else {
        doubled(s.drop_last()).push(s.last())
    }
}

/// `s` as a PowerShell literal.
pub open spec fn quoted(s: Seq<char>) -> Seq<char> {
    "'"@ + doubled(s) + "'"@
}

/// `s` as a PowerShell literal.
pub fn ps_quote(s: &str) -> (r: String)
    ensures
        r@ == quoted(s@),
{
    let v = text::chars_of(s);
    let mut inner = String::new();
    let mut i: usize = 0;
    assert(inner@ =~= doubled(s@.take(0)));
    while i < v.len()
        invariant
            i <= v.len(),
            v@ == s@,
            inner@ == doubled(s@.take(i as int)),
        decreases v.len() - i,
    {
        assert(s@.take(i + 1).drop_last() =~= s@.take(i as int));
        if v[i] == '\'' {
            inner.push('\'');
        }
        inner.push(v[i]);
        i += 1;
    }
    assert(s@.take(i as int) =~= s@);
    let mut r = "'".to_owned();
    r.append(inner.as_str());
    r.append("'");
    r
}

/// A protocol as the rules name it.
pub open spec fn proto_word(proto: Proto) -> Seq<char> {
    match proto {
        Proto::Tcp => "TCP"@,
        Proto::Udp => "UDP"@,
    }
}

/// A protocol as the rules name it.
pub fn ps_proto(proto: Proto) -> (r: &'static str)
    ensures
        r@ == proto_word(proto),
{
    match proto {
        Proto::Tcp => "TCP",
        Proto::Udp => "UDP",
    }
}

/// The rule that lets pings in.
pub open spec fn echo_rule(iface: Seq<char>) -> Seq<char> {
    "New-NetFirewallRule -DisplayName 'UnityLAN ICMPv4 echo' -Group 'UnityLAN' -Direction Inbound -Action Allow -Protocol ICMPv4 -IcmpType 8 -InterfaceAlias "@
        + quoted(iface) + " -ErrorAction SilentlyContinue | Out-Null"@
}

/// The name of an exposure's rule. A rule that any peer meets names no scope.
pub open spec fn rule_name(e: fw::ExposedView, peers: fw::PeersView) -> Seq<char> {
    let plain = "UnityLAN "@ + e.proto.text() + "/"@ + text::dec(e.port as nat);
    if peers.sources(e.scope) is None {
        plain
    } else {
        plain + " scope:"@ + peers.label(e.scope)
    }
}

/// The start of an exposure's rule, up to the peers it is for.
pub open spec fn rule_head(iface: Seq<char>, e: fw::ExposedView, peers: fw::PeersView) -> Seq<
    char,
> {
    "New-NetFirewallRule -DisplayName "@ + quoted(rule_name(e, peers))
        + " -Group 'UnityLAN' -Direction Inbound -Action Allow -Protocol "@ + proto_word(e.proto)
        + " -LocalPort "@ + text::dec(e.port as nat) + " -InterfaceAlias "@ + quoted(iface)
}

/// The rule of an exposure. One whose scope admits nobody at present has none: the firewall has no
/// way to name no address, and a rule without addresses would admit every peer.
pub open spec fn port_rule(iface: Seq<char>, e: fw::ExposedView, peers: fw::PeersView) -> Option<
    Seq<char>,
> {
    let head = rule_head(iface, e, peers);
    let tail = " -ErrorAction SilentlyContinue | Out-Null"@;
    match peers.sources(e.scope) {
        None => Some(head + tail),
        Some(ips) => if ips.len() == 0 {
            None
        } else {
            Some(head + " -RemoteAddress "@ + text::join(net::dotted_list(ips), ","@) + tail)
        },
    }
}

/// The rules of the exposures.
pub open spec fn port_rules(
    iface: Seq<char>,
    exposed: Seq<fw::ExposedView>,
    peers: fw::PeersView,
) -> Seq<Seq<char>>
    decreases exposed.len(),
{
    if exposed.len() == 0 {
        seq![]
    } else {
        let before = port_rules(iface, exposed.drop_last(), peers);
        match port_rule(iface, exposed.last(), peers) {
            Some(r) => before.push(r),
            None => before,
        }
    }
}

/// The script that replaces the group's rules on the mesh interface, line by line.
pub open spec fn mesh_rules(
    iface: Seq<char>,
    exposed: Seq<fw::ExposedView>,
    peers: fw::PeersView,
) -> Seq<Seq<char>> {
    seq![group_removal(), echo_rule(iface)] + port_rules(iface, exposed, peers)
}

fn render_rule(iface: &str, e: &Exposed, peers: &PeerSets) -> (r: Option<String>)
    ensures
        text::opt_text(r) == port_rule(iface@, e@, peers@),
{
    let mut name = "UnityLAN ".to_owned();
    name.append(e.proto.as_str());
    name.append("/");
    name.append(text::decimal(e.port as u64).as_str());
    let sources = peers.sources(&e.scope);
    if let Some(ips) = sources {
        if ips.len() == 0 {
            return None;
        }
        name.append(" scope:");
        name.append(peers.label(&e.scope).as_str());
    }
    let mut s = "New-NetFirewallRule -DisplayName ".to_owned();
    s.append(ps_quote(name.as_str()).as_str());
    s.append(" -Group 'UnityLAN' -Direction Inbound -Action Allow -Protocol ");
    s.append(ps_proto(e.proto));
    s.append(" -LocalPort ");
    s.append(text::decimal(e.port as u64).as_str());
    s.append(" -InterfaceAlias ");
    s.append(ps_quote(iface).as_str());
    if let Some(ips) = sources {
        s.append(" -RemoteAddress ");
        s.append(join_v4(ips, ",").as_str());
    }
    s.append(" -ErrorAction SilentlyContinue | Out-Null");
    Some(s)
}

fn mesh_lines(iface: &str, exposed: &Vec<Exposed>, peers: &PeerSets) -> (r: Vec<String>)
    ensures
        text::texts(r@) == mesh_rules(iface@, fw::exposed_views(exposed@), peers@),
{
    let ghost es = fw::exposed_views(exposed@);
    let mut lines: Vec<String> = Vec::new();
    assert(text::texts(lines@) =~= seq![]);
    text::push_text(&mut lines, remove_group());
    let mut echo =
        "New-NetFirewallRule -DisplayName 'UnityLAN ICMPv4 echo' -Group 'UnityLAN' -Direction Inbound -Action Allow -Protocol ICMPv4 -IcmpType 8 -InterfaceAlias ".to_owned();
    echo.append(ps_quote(iface).as_str());
    echo.append(" -ErrorAction SilentlyContinue | Out-Null");
    text::push_text(&mut lines, echo);
    let ghost head = text::texts(lines@);
    let mut i: usize = 0;
    assert(head =~= head + port_rules(iface@, es.take(0), peers@));
    while i < exposed.len()
        invariant
            i <= exposed.len(),
            es == fw::exposed_views(exposed@),
            text::texts(lines@) == head + port_rules(iface@, es.take(i as int), peers@),
        decreases exposed.len() - i,
    {
        assert(es.take(i + 1).drop_last() =~= es.take(i as int));
        assert(es[i as int] == exposed@[i as int]@);
        if let Some(line) = render_rule(iface, &exposed[i], peers) {
            text::push_text(&mut lines, line);
        }
        assert(text::texts(lines@) =~= head + port_rules(iface@, es.take(i + 1), peers@));
        i += 1;
    }
    assert(es.take(i as int) =~= es);
    assert(text::texts(lines@) =~= mesh_rules(iface@, es, peers@));
    lines
}

/// The script that replaces the group's rules on the mesh interface.
pub fn script(iface: &str, exposed: &Vec<Exposed>, peers: &PeerSets) -> (r: String)
    ensures
        r@ == text::unlines(mesh_rules(iface@, fw::exposed_views(exposed@), peers@)),
{
    text::render_lines(&mesh_lines(iface, exposed, peers))
}

/// The rule that opens a UDP port of this host to every interface.
pub open spec fn host_rule(name: Seq<char>, port: u16) -> Seq<char> {
    "New-NetFirewallRule -DisplayName "@ + quoted(name)
        + " -Group 'UnityLAN' -Direction Inbound -Action Allow -Protocol UDP -LocalPort "@
        + text::dec(port as nat) + " -ErrorAction SilentlyContinue | Out-Null"@
}

/// The rules that let the tunnel's handshakes and the discovery beacons arrive.
pub open spec fn host_rules(listen_port: u16, beacon_port: Option<u16>) -> Seq<Seq<char>> {
    let tunnel = host_rule("UnityLAN WireGuard"@, listen_port);
    match beacon_port {
        Some(p) => seq![tunnel, host_rule("UnityLAN beacon"@, p)],
        None => seq![tunnel],
    }
}

fn render_host_rule(name: &str, port: u16) -> (r: String)
    ensures
        r@ == host_rule(name@, port),
{
    let mut s = "New-NetFirewallRule -DisplayName ".to_owned();
    s.append(ps_quote(name).as_str());
    s.append(" -Group 'UnityLAN' -Direction Inbound -Action Allow -Protocol UDP -LocalPort ");
    s.append(text::decimal(port as u64).as_str());
    s.append(" -ErrorAction SilentlyContinue | Out-Null");
    s
}

/// A script as it is run: whatever its tolerated steps did, it ends well. A script that does not
/// parse still fails before that.
pub open spec fn tolerant(script: Seq<char>) -> Seq<char> {
    script + "\nexit 0\n"@
}

/// A script as it is run.
pub fn run_fw_ps(script: &str) -> (r: String)
    ensures
        r@ == tolerant(script@),
{
    let mut s = script.to_owned();
    s.append("\nexit 0\n");
    s
}

impl FirewallBackend for WindowsFwBackend {
    open spec fn script(
        &self,
        iface: Seq<char>,
        mesh_addr: Option<u32>,
        exposed: Seq<fw::ExposedView>,
        peers: fw::PeersView,
        p2p_port: u16,
    ) -> Seq<char> {
        tolerant(
            text::unlines(
                mesh_rules(iface, exposed, peers) + host_rules(self.listen_port, self.beacon_port),
            ),
        )
    }

    open spec fn clearing(&self) -> Seq<char> {
        tolerant(group_removal())
    }

    fn apply(
        &self,
        iface: &str,
        mesh_addr: Option<u32>,
        exposed: &Vec<Exposed>,
        peers: &PeerSets,
        p2p_port: u16,
    ) -> (r: String) {
        let mut lines = mesh_lines(iface, exposed, peers);
        let ghost head = text::texts(lines@);
        text::push_text(&mut lines, render_host_rule("UnityLAN WireGuard", self.listen_port));
        if let Some(p) = self.beacon_port {
            text::push_text(&mut lines, render_host_rule("UnityLAN beacon", p));
        }
        assert(text::texts(lines@) =~= head + host_rules(self.listen_port, self.beacon_port));
        run_fw_ps(text::render_lines(&lines).as_str())
    }

    fn reset(&self) -> (r: String) {
        run_fw_ps(remove_group().as_str())
    }
}

/// A port that is scoped to nobody at present gets no rule, rather than one that admits every peer.
pub proof fn law_empty_scope_opens_nothing(
    iface: Seq<char>,
    exposed: Seq<fw::ExposedView>,
    peers: fw::PeersView,
)
    requires
        forall|i: int|
            0 <= i < exposed.len() ==> peers.sources((#[trigger] exposed[i]).scope) == Some(
                Seq::<u32>::empty(),
            ),
    ensures
        port_rules(iface, exposed, peers) == Seq::<Seq<char>>::empty(),
    decreases exposed.len(),
{
    if exposed.len() > 0 {
        let t = exposed.drop_last();
        assert forall|i: int| 0 <= i < t.len() implies peers.sources((#[trigger] t[i]).scope)
            == Some(Seq::<u32>::empty()) by {
            assert(t[i] == exposed[i]);
        }
        law_empty_scope_opens_nothing(iface, t, peers);
        assert(peers.sources(exposed[exposed.len() - 1].scope) == Some(Seq::<u32>::empty()));
    }
}

proof fn lemma_doubled(s: Seq<char>, t: Seq<char>)
    requires
        doubled(s) == doubled(t),
    ensures
        s == t,
    decreases s.len() + t.len(),
{
    let x = doubled(s);
    let y = doubled(t);
    if s.len() == 0 || t.len() == 0 {
        assert(s =~= t);
    } else {
        let (a, b) = (s.drop_last(), t.drop_last());
        assert(x.last() == s.last() && y.last() == t.last());
        if s.last() == '\'' {
            assert(doubled(a) =~= x.drop_last().drop_last());
            assert(doubled(b) =~= y.drop_last().drop_last());
        } else {
            assert(doubled(a) =~= x.drop_last());
            assert(doubled(b) =~= y.drop_last());
        }
        lemma_doubled(a, b);
        assert(s =~= a.push(s.last()));
        assert(t =~= b.push(t.last()));
    }
}

/// Two names that are quoted alike are alike: quoting loses nothing, whatever quotes a name holds.
pub proof fn law_quoting_is_exact(a: Seq<char>, b: Seq<char>)
    requires
        quoted(a) == quoted(b),
    ensures
        a == b,
{
    reveal_strlit("'");
    assert(doubled(a) =~= quoted(a).subrange(1, quoted(a).len() - 1));
    assert(doubled(b) =~= quoted(b).subrange(1, quoted(b).len() - 1));
    lemma_doubled(a, b);
}

/// A text stands between single quotes as it is, but that each single quote in it is doubled.
pub proof fn law_quoted_character_by_character(a: Seq<char>, b: Seq<char>, c: char)
    ensures
        doubled(seq![]) == Seq::<char>::empty(),
        doubled(seq![c]) == if c == '\'' {
            seq![c, c]
        } else {
            seq![c]
        },
        doubled(a + b) == doubled(a) + doubled(b),
        quoted(a) == "'"@ + doubled(a) + "'"@,
    decreases b.len(),
{
    assert(seq![c].drop_last() =~= seq![]);
    assert(doubled(seq![]) =~= Seq::<char>::empty());
    assert(doubled(seq![c]) =~= if c == '\'' {
        seq![c, c]
    } else {
        seq![c]
    });
    if b.len() == 0 {
        assert(a + b =~= a);
        assert(doubled(a) + doubled(b) =~= doubled(a));
    } else {
        law_quoted_character_by_character(a, b.drop_last(), c);
        assert((a + b).drop_last() =~= a + b.drop_last());
        assert(doubled(a + b) =~= doubled(a) + doubled(b));
    }
}

/// Each exposure has its rule: it lets its port in by its protocol on the mesh interface, from everyone
/// where its scope is everyone, and else from each of the addresses that its scope admits and no other.
/// One that admits nobody has none.
pub proof fn law_each_exposure_has_its_rule(
    iface: Seq<char>,
    a: Seq<fw::ExposedView>,
    b: Seq<fw::ExposedView>,
    e: fw::ExposedView,
    peers: fw::PeersView,
)
    ensures
        port_rules(iface, seq![], peers) == Seq::<Seq<char>>::empty(),
        port_rules(iface, a + b, peers) == port_rules(iface, a, peers) + port_rules(
            iface,
            b,
            peers,
        ),
        ({
            let plain = "UnityLAN "@ + (if e.proto == Proto::Tcp {
                "tcp"@
            } else {
                "udp"@
            }) + "/"@ + text::dec(e.port as nat);
            let middle = " -Group 'UnityLAN' -Direction Inbound -Action Allow -Protocol "@ + (
            if e.proto == Proto::Tcp {
                "TCP"@
            } else {
                "UDP"@
            }) + " -LocalPort "@ + text::dec(e.port as nat) + " -InterfaceAlias "@ + quoted(iface);
            let end = " -ErrorAction SilentlyContinue | Out-Null"@;
            &&& peers.sources(e.scope) is None ==> port_rules(iface, seq![e], peers) == seq![
                "New-NetFirewallRule -DisplayName "@ + quoted(plain) + middle + end,
            ]
            &&& peers.sources(e.scope) matches Some(ips) ==> {
                &&& ips.len() == 0 ==> port_rules(iface, seq![e], peers).len() == 0
                &&& ips.len() > 0 ==> port_rules(iface, seq![e], peers) == seq![
                    "New-NetFirewallRule -DisplayName "@ + quoted(
                        plain + " scope:"@ + peers.label(e.scope),
                    ) + middle + " -RemoteAddress "@ + text::join(net::dotted_list(ips), ","@) + end,
                ]
            }
        }),
    decreases b.len(),
{
    assert(seq![e].drop_last() =~= seq![]);
    assert(port_rules(iface, seq![], peers) =~= Seq::<Seq<char>>::empty());
    let plain = "UnityLAN "@ + (if e.proto == Proto::Tcp {
        "tcp"@
    } else {
        "udp"@
    }) + "/"@ + text::dec(e.port as nat);
    let middle = " -Group 'UnityLAN' -Direction Inbound -Action Allow -Protocol "@ + (if e.proto
        == Proto::Tcp {
        "TCP"@
    } else {
        "UDP"@
    }) + " -LocalPort "@ + text::dec(e.port as nat) + " -InterfaceAlias "@ + quoted(iface);
    let end = " -ErrorAction SilentlyContinue | Out-Null"@;
    let name = rule_name(e, peers);
    assert(rule_head(iface, e, peers) =~= "New-NetFirewallRule -DisplayName "@ + quoted(name)
        + middle);
    match port_rule(iface, e, peers) {
        Some(r) => {
            assert(port_rules(iface, seq![e], peers) =~= seq![r]);
        },
        None => {
            assert(port_rules(iface, seq![e], peers) =~= seq![]);
        },
    }
    if b.len() == 0 {
        assert(a + b =~= a);
        assert(port_rules(iface, a, peers) + port_rules(iface, b, peers) =~= port_rules(
            iface,
            a,
            peers,
        ));
    } else {
        law_each_exposure_has_its_rule(iface, a, b.drop_last(), e, peers);
        assert((a + b).drop_last() =~= a + b.drop_last());
        assert(port_rules(iface, a + b, peers) =~= port_rules(iface, a, peers) + port_rules(
            iface,
            b,
            peers,
        ));
    }
}

/// A script first removes what an earlier one left, then lets pings in, then what is exposed, and last
/// the tunnel's handshakes and the beacons where they are listened for; whatever its steps did, it ends
/// well.
pub proof fn law_order_of_the_script(
    w: WindowsFwBackend,
    iface: Seq<char>,
    mesh_addr: Option<u32>,
    exposed: Seq<fw::ExposedView>,
    peers: fw::PeersView,
    p2p_port: u16,
)
    ensures
        ({
            let tail = "\nexit 0\n"@;
            let first = seq![
                "Remove-NetFirewallRule -Group 'UnityLAN' -ErrorAction SilentlyContinue"@,
                "New-NetFirewallRule -DisplayName 'UnityLAN ICMPv4 echo' -Group 'UnityLAN' -Direction Inbound -Action Allow -Protocol ICMPv4 -IcmpType 8 -InterfaceAlias "@
                    + quoted(iface) + " -ErrorAction SilentlyContinue | Out-Null"@,
            ];
            let tunnel = "New-NetFirewallRule -DisplayName "@ + quoted("UnityLAN WireGuard"@)
                + " -Group 'UnityLAN' -Direction Inbound -Action Allow -Protocol UDP -LocalPort "@
                + text::dec(w.listen_port as nat)
                + " -ErrorAction SilentlyContinue | Out-Null"@;
            let last = match w.beacon_port {
                Some(p) => seq![
                    tunnel,
                    "New-NetFirewallRule -DisplayName "@ + quoted("UnityLAN beacon"@)
                        + " -Group 'UnityLAN' -Direction Inbound -Action Allow -Protocol UDP -LocalPort "@
                        + text::dec(p as nat) + " -ErrorAction SilentlyContinue | Out-Null"@,
                ],
                None => seq![tunnel],
            };
            &&& w.script(iface, mesh_addr, exposed, peers, p2p_port) == text::unlines(
                first + port_rules(iface, exposed, peers) + last,
            ) + tail
            &&& w.clearing()
                == "Remove-NetFirewallRule -Group 'UnityLAN' -ErrorAction SilentlyContinue"@ + tail
        }),
{
}

} // verus!
