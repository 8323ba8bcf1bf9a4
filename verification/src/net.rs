//! Network addresses as plain values.
use crate::text;
use vstd::arithmetic::power2::*;
use vstd::prelude::*;
use vstd::string::*;

verus! {

/// An IP address, as the number that its octets spell.
#[derive(Clone, Copy, Debug, PartialEq, Eq, Structural)]
pub enum Ip {
    V4(u32),
    V6(u128),
}

/// An IP address and a port.
#[derive(Clone, Copy, Debug, PartialEq, Eq, Structural)]
pub struct Endpoint {
    pub ip: Ip,
    pub port: u16,
}

/// The number of an IPv4 address, given its octets.
pub open spec fn v4_number(a: u8, b: u8, c: u8, d: u8) -> u32 {
    (a * 16777216 + b * 65536 + c * 256 + d) as u32
}

/// An IPv4 address, given its octets.
pub fn v4(a: u8, b: u8, c: u8, d: u8) -> (r: u32)
    ensures
        r == v4_number(a, b, c, d),
{
    a as u32 * 16777216 + b as u32 * 65536 + c as u32 * 256 + d as u32
}

/// An IPv4 endpoint, given the octets of its address.
pub fn endpoint_v4(a: u8, b: u8, c: u8, d: u8, port: u16) -> (r: Endpoint)
    ensures
        r == (Endpoint { ip: Ip::V4(v4_number(a, b, c, d)), port }),
{
    Endpoint { ip: Ip::V4(v4(a, b, c, d)), port }
}

/// An IPv4 address in dotted decimals.
pub open spec fn dotted(a: u32) -> Seq<char> {
    text::dec((a / 16777216) as nat) + "."@ + text::dec((a / 65536 % 256) as nat) + "."@ + text::dec(
        (a / 256 % 256) as nat,
    ) + "."@ + text::dec((a % 256) as nat)
}

/// An IPv4 address in dotted decimals.
pub fn v4_text(a: u32) -> (r: String)
    ensures
        r@ == dotted(a),
{
    let mut s = text::decimal((a / 16777216) as u64);
    s.append(".");
    s.append(text::decimal((a / 65536 % 256) as u64).as_str());
    s.append(".");
    s.append(text::decimal((a / 256 % 256) as u64).as_str());
    s.append(".");
    s.append(text::decimal((a % 256) as u64).as_str());
    s
}

/// Addresses in dotted decimals.
pub open spec fn dotted_list(ips: Seq<u32>) -> Seq<Seq<char>> {
    ips.map_values(|a: u32| dotted(a))
}

/// Addresses in dotted decimals, with `sep` between each two.
pub fn join_v4(ips: &[u32], sep: &str) -> (r: String)
    ensures
        r@ == text::join(dotted_list(ips@), sep@),
{
    let mut out: Vec<String> = Vec::new();
    let ghost want = dotted_list(ips@);
    let mut i: usize = 0;
    while i < ips.len()
        invariant
            i <= ips.len(),
            want == dotted_list(ips@),
            text::texts(out@) == want.take(i as int),
        decreases ips.len() - i,
    {
        let ghost before = text::texts(out@);
        out.push(v4_text(ips[i]));
        assert(text::texts(out@) =~= before.push(want[i as int]));
        assert(want.take(i + 1) =~= want.take(i as int).push(want[i as int]));
        i += 1;
    }
    assert(want.take(i as int) =~= want);
    text::join_with(&out, sep)
}

/// A block of IPv4 addresses: those that agree with `addr` in their first `prefix` bits.
#[derive(Clone, Copy, Debug, PartialEq, Eq, Structural)]
pub struct Net {
    pub addr: u32,
    pub prefix: u8,
}

impl Net {
    /// A block has between none and all of its bits fixed.
    pub open spec fn wf(self) -> bool {
        self.prefix <= 32
    }

    /// How many addresses the block holds.
    pub open spec fn size(self) -> nat {
        pow2((32 - self.prefix) as nat)
    }

    /// The lowest address of the block.
    pub open spec fn base(self) -> int {
        self.addr - self.addr as int % self.size() as int
    }

    /// Whether an address lies in the block.
    pub open spec fn has(self, ip: u32) -> bool {
        self.base() <= ip < self.base() + self.size()
    }

    /// Whether some address lies in both blocks.
    pub open spec fn meets(self, other: Net) -> bool {
        exists|ip: u32| #[trigger] self.has(ip) && other.has(ip)
    }

    /// The block as text: its lowest address, and the number of fixed bits.
    pub open spec fn text(self) -> Seq<char> {
        dotted(self.addr) + "/"@ + text::dec(self.prefix as nat)
    }
}

/// Whether an address lies in a block: `ipnet::Ipv4Net::contains`, on the block made by
/// `ipnet::Ipv4Net::new`. It holds of the addresses from the block's lowest one, which is `addr`
/// with the bits behind the prefix cleared, up to its highest, in which they are set.
#[verifier::external_body]
fn ipnet_contains(net: Net, ip: u32) -> (r: bool)
    requires
        net.wf(),
    ensures
        r == net.has(ip),
{
    let host = ipnet::Ipv4Net::new(ip.into(), 32).expect("a full prefix");
    let block = ipnet::Ipv4Net::new(net.addr.into(), net.prefix).expect("a prefix within 32");
    block.contains(&host.addr())
}

/// The lowest address of a block: `ipnet::Ipv4Net::network`, on the block made by
/// `ipnet::Ipv4Net::new`. It is `addr` with the bits behind the prefix cleared.
#[verifier::external_body]
fn ipnet_network(net: Net) -> (r: u32)
    requires
        net.wf(),
    ensures
        r == net.base(),
{
    let block = ipnet::Ipv4Net::new(net.addr.into(), net.prefix).expect("a prefix within 32");
    block.network().into()
}

/// How many leading bits a network mask fixes: `ipnet::ipv4_mask_to_prefix`. It fails on a mask that
/// is not a run of ones before a run of zeros.
#[verifier::external_body]
fn ipnet_mask_to_prefix(mask: u32) -> (r: Option<u8>)
    ensures
        match r {
            Some(p) => p <= 32 && mask == mask_of(p as nat),
            None => forall|p: nat| p <= 32 ==> mask != #[trigger] mask_of(p),
        },
{
    ipnet::ipv4_mask_to_prefix(mask.into()).ok()
}

/// The mask that fixes the first `p` bits.
pub open spec fn mask_of(p: nat) -> int {
    0x1_0000_0000 - pow2((32 - p) as nat)
}

impl Net {
    /// Whether an address lies in the block.
    pub fn contains(&self, ip: u32) -> (r: bool)
        requires
            self.wf(),
        ensures
            r == self.has(ip),
    {
        ipnet_contains(*self, ip)
    }

    /// The block by its lowest address.
    pub fn trunc(&self) -> (r: Net)
        requires
            self.wf(),
        ensures
            r == (Net { addr: self.base() as u32, prefix: self.prefix }),
            self.base() == r.addr,
    {
        Net { addr: ipnet_network(*self), prefix: self.prefix }
    }

    /// The block that a host's address and mask put it in, unless the mask is none.
    pub fn of_mask(addr: u32, mask: u32) -> (r: Option<Net>)
        ensures
            match r {
                Some(n) => n.wf() && n.addr == addr && mask == mask_of(n.prefix as nat),
                None => forall|p: nat| p <= 32 ==> mask != #[trigger] mask_of(p),
            },
    {
        match ipnet_mask_to_prefix(mask) {
            Some(prefix) => Some(Net { addr, prefix }),
            None => None,
        }
    }

    /// Whether some address lies in both blocks.
    pub fn overlaps(&self, other: &Net) -> (r: bool)
        requires
            self.wf(),
            other.wf(),
        ensures
            r == self.meets(*other),
    {
        let a = ipnet_network(*self);
        let b = ipnet_network(*other);
        let r = ipnet_contains(*self, b) || ipnet_contains(*other, a);
        proof {
            lemma_pow2_pos((32 - self.prefix) as nat);
            lemma_pow2_pos((32 - other.prefix) as nat);
            if r {
                if self.has(b) {
                    assert(other.has(b));
                } else {
                    assert(self.has(a));
                }
            } else if self.meets(*other) {
                let ip = choose|ip: u32| #[trigger] self.has(ip) && other.has(ip);
                if a <= b {
                    assert(self.has(b));
                } else {
                    assert(other.has(a));
                }
            }
        }
        r
    }

    /// The block as text.
    pub fn to_text(&self) -> (r: String)
        ensures
            r@ == self.text(),
    {
        let mut s = v4_text(self.addr);
        s.append("/");
        s.append(text::decimal(self.prefix as u64).as_str());
        s
    }
}

proof fn lemma_split(x: Seq<char>, c: char, y: Seq<char>)
    requires
        text::free_of(x, c),
    ensures
        text::split_once(x + seq![c] + y, c) == Some((x, y)),
{
    let s = x + seq![c] + y;
    text::lemma_pos_from(s, c, 0);
    let p = text::pos_from(s, c, 0);
    assert(s[x.len() as int] == c);
    if p < x.len() {
        assert(s[p] == x[p]);
    }
    assert(s.take(p) =~= x);
    assert(s.skip(p + 1) =~= y);
}

/// The number that a text spells in plain decimals: no sign, and no digit too many.
fn octet(s: &str) -> (r: Option<u32>)
    ensures
        match r {
            Some(n) => n <= 255 && text::dec(n as nat) == s@,
            None => forall|n: nat| n <= 255 ==> #[trigger] text::dec(n) != s@,
        },
{
    proof {
        assert forall|n: nat| n <= 255 && #[trigger] text::dec(n) == s@ implies text::uint(s@, 255)
            == Some(n) by {
            text::lemma_dec(n);
        }
    }
    match text::parse_uint(s, 255) {
        Some(n) => {
            if text::same(text::decimal(n).as_str(), s) {
                Some(n as u32)
            } else {
                None
            }
        },
        None => None,
    }
}

proof fn lemma_dotted(a: u32, s: Seq<char>)
    requires
        dotted(a) == s,
    ensures
        ({
            let (x, y, z, w) = (
                text::dec((a / 16777216) as nat),
                text::dec((a / 65536 % 256) as nat),
                text::dec((a / 256 % 256) as nat),
                text::dec((a % 256) as nat),
            );
            let yzw = y + "."@ + z + "."@ + w;
            let zw = z + "."@ + w;
            &&& text::split_once(s, '.') == Some((x, yzw))
            &&& text::split_once(yzw, '.') == Some((y, zw))
            &&& text::split_once(zw, '.') == Some((z, w))
        }),
{
    reveal_strlit(".");
    let (x, y, z, w) = (
        text::dec((a / 16777216) as nat),
        text::dec((a / 65536 % 256) as nat),
        text::dec((a / 256 % 256) as nat),
        text::dec((a % 256) as nat),
    );
    text::lemma_dec((a / 16777216) as nat);
    text::lemma_dec((a / 65536 % 256) as nat);
    text::lemma_dec((a / 256 % 256) as nat);
    assert("."@ =~= seq!['.']);
    let zw = z + "."@ + w;
    let yzw = y + "."@ + z + "."@ + w;
    assert(yzw =~= y + seq!['.'] + zw);
    assert(s =~= x + seq!['.'] + yzw);
    lemma_split(x, '.', yzw);
    lemma_split(y, '.', zw);
    lemma_split(z, '.', w);
}

fn four_parts(s: &str) -> (r: Option<(String, String, String, String)>)
    ensures
        match r {
            Some((x, y, z, w)) => s@ == x@ + "."@ + y@ + "."@ + z@ + "."@ + w@,
            None => true,
        },
        forall|a: u32| #[trigger]
            dotted(a) == s@ ==> match r {
                Some((x, y, z, w)) => x@ == text::dec((a / 16777216) as nat) && y@ == text::dec(
                    (a / 65536 % 256) as nat,
                ) && z@ == text::dec((a / 256 % 256) as nat) && w@ == text::dec(
                    (a % 256) as nat,
                ),
                None => false,
            },
{
    proof {
        assert forall|a: u32| #[trigger] dotted(a) == s@ implies ({
            let (x, y, z, w) = (
                text::dec((a / 16777216) as nat),
                text::dec((a / 65536 % 256) as nat),
                text::dec((a / 256 % 256) as nat),
                text::dec((a % 256) as nat),
            );
            let yzw = y + "."@ + z + "."@ + w;
            let zw = z + "."@ + w;
            &&& text::split_once(s@, '.') == Some((x, yzw))
            &&& text::split_once(yzw, '.') == Some((y, zw))
            &&& text::split_once(zw, '.') == Some((z, w))
        }) by {
            lemma_dotted(a, s@);
        }
        reveal_strlit(".");
        assert("."@ =~= seq!['.']);
        text::lemma_pos_from(s@, '.', 0);
    }
    let (x, rest) = match text::split_once_at(s, '.') {
        Some(p) => p,
        None => {
            return None;
        },
    };
    assert(s@ =~= x@ + "."@ + rest@);
    proof {
        text::lemma_pos_from(rest@, '.', 0);
    }
    let (y, more) = match text::split_once_at(rest.as_str(), '.') {
        Some(p) => p,
        None => {
            return None;
        },
    };
    assert(rest@ =~= y@ + "."@ + more@);
    proof {
        text::lemma_pos_from(more@, '.', 0);
    }
    let (z, w) = match text::split_once_at(more.as_str(), '.') {
        Some(p) => p,
        None => {
            return None;
        },
    };
    assert(more@ =~= z@ + "."@ + w@);
    assert(s@ =~= x@ + "."@ + y@ + "."@ + z@ + "."@ + w@);
    Some((x, y, z, w))
}

/// The IPv4 address that a text spells in dotted decimals.
pub fn parse_v4(s: &str) -> (r: Option<u32>)
    ensures
        match r {
            Some(a) => dotted(a) == s@,
            None => forall|a: u32| #[trigger] dotted(a) != s@,
        },
{
    let (x, y, z, w) = match four_parts(s) {
        Some(p) => p,
        None => {
            return None;
        },
    };
    match (octet(x.as_str()), octet(y.as_str()), octet(z.as_str()), octet(w.as_str())) {
        (Some(a), Some(b), Some(c), Some(d)) => {
            let n: u32 = a * 16777216 + b * 65536 + c * 256 + d;
            assert(n / 16777216 == a && n / 65536 % 256 == b && n / 256 % 256 == c && n % 256 == d)
                by (nonlinear_arith)
                requires
                    n == a * 16777216 + b * 65536 + c * 256 + d,
                    a <= 255,
                    b <= 255,
                    c <= 255,
                    d <= 255,
            ;
            Some(n)
        },
        _ => None,
    }
}

/// Why a text is no address with a prefix.
#[derive(Clone, Copy, Debug, PartialEq, Eq, Structural)]
pub enum CidrError {
    NoSlash,
    BadAddress,
    BadPrefix,
}

/// The address and prefix that a text spells: dotted decimals, a slash, and a number.
pub fn parse_cidr(s: &str) -> (r: Result<(u32, u8), CidrError>)
    ensures
        match (text::split_once(s@, '/'), r) {
            (None, Err(e)) => e == CidrError::NoSlash,
            (Some((ip, n)), Ok((a, p))) => dotted(a) == ip && text::uint(n, 255) == Some(p as nat),
            (Some((ip, n)), Err(CidrError::BadAddress)) => forall|a: u32| #[trigger]
                dotted(a) != ip,
            (Some((ip, n)), Err(CidrError::BadPrefix)) => text::uint(n, 255) is None && exists|
                a: u32,
            | #[trigger] dotted(a) == ip,
            _ => false,
        },
{
    let (ip, n) = match text::split_once_at(s, '/') {
        Some(p) => p,
        None => {
            return Err(CidrError::NoSlash);
        },
    };
    let a: u32 = match parse_v4(ip.as_str()) {
        Some(a) => a,
        None => {
            return Err(CidrError::BadAddress);
        },
    };
    match text::parse_uint(n.as_str(), 255) {
        Some(p) => Ok((a, p as u8)),
        None => Err(CidrError::BadPrefix),
    }
}

/// An address is written as its four octets in decimal, from the highest, with a dot between any two.
pub proof fn law_address_by_its_octets(a: u8, b: u8, c: u8, d: u8)
    ensures
        v4_number(a, b, c, d) as int == ((a * 256 + b) * 256 + c) * 256 + d,
        dotted(v4_number(a, b, c, d)) == text::dec(a as nat) + "."@ + text::dec(b as nat) + "."@
            + text::dec(c as nat) + "."@ + text::dec(d as nat),
{
    let n = a * 16777216 + b * 65536 + c * 256 + d;
    assert(0 <= n <= u32::MAX);
    let m = v4_number(a, b, c, d);
    assert(m == n);
    assert(m / 16777216 == a);
    assert(m / 65536 % 256 == b);
    assert(m / 256 % 256 == c);
    assert(m % 256 == d);
}

/// A block holds the addresses from its lowest to its highest, which differ from it behind the prefix
/// only; its lowest is a multiple of their number.
pub proof fn law_addresses_of_a_block(n: Net, ip: u32)
    requires
        n.prefix <= 32,
    ensures
        n.has(ip) <==> ip as int / pow2((32 - n.prefix) as nat) as int == n.addr as int / pow2(
            (32 - n.prefix) as nat,
        ) as int,
        n.has(n.addr),
        n.base() % pow2((32 - n.prefix) as nat) as int == 0,
        n.text() == dotted(n.addr) + "/"@ + text::dec(n.prefix as nat),
{
    let k = pow2((32 - n.prefix) as nat) as int;
    lemma_pow2_pos((32 - n.prefix) as nat);
    let a = n.addr as int;
    let i = ip as int;
    vstd::arithmetic::div_mod::lemma_fundamental_div_mod(a, k);
    vstd::arithmetic::div_mod::lemma_fundamental_div_mod(i, k);
    vstd::arithmetic::div_mod::lemma_mod_bound(a, k);
    vstd::arithmetic::div_mod::lemma_mod_bound(i, k);
    let q = a / k;
    let r = i / k;
    assert(n.base() == k * q);
    assert(i == k * r + i % k);
    if r == q {
        assert(n.has(ip));
    } else if r < q {
        assert(k * r + k <= k * q) by (nonlinear_arith)
            requires
                r < q,
                k > 0,
        ;
    } else {
        assert(k * q + k <= k * r) by (nonlinear_arith)
            requires
                q < r,
                k > 0,
        ;
    }
    vstd::arithmetic::div_mod::lemma_mod_multiples_basic(q, k);
    assert(k * q == q * k) by (nonlinear_arith);
}

/// Two blocks meet if and only if some address lies in both; and every address of a list is written.
pub proof fn law_blocks_meet_in_an_address(a: Net, b: Net, ips: Seq<u32>, i: int)
    requires
        0 <= i < ips.len(),
    ensures
        a.meets(b) <==> exists|ip: u32| #[trigger] a.has(ip) && b.has(ip),
        dotted_list(ips).len() == ips.len(),
        dotted_list(ips)[i] == dotted(ips[i]),
{
}

} // verus!
