//! Choosing the LAN addresses to show in the QR code: address filters,
//! virtual-adapter detection, subnet preferences.

use vstd::prelude::*;
use crate::text::{
    ascii_lowercase, chars_of, contains, contains_chars, decimal, push_char, push_decimal,
    starts_with, starts_with_chars, to_ascii_lowercase_chars, trim_chars, trimmed,
};

verus! {

/// An IPv4 address by its four octets.
#[derive(Clone, Copy, Debug, PartialEq, Eq)]
pub struct Ipv4 {
    pub octets: [u8; 4],
}

impl Ipv4 {
    /// The address `a.b.c.d`.
    pub fn new(a: u8, b: u8, c: u8, d: u8) -> (r: Ipv4)
        ensures
            r.octets@ == seq![a, b, c, d],
    {
        let r = Ipv4 { octets: [a, b, c, d] };
        assert(r.octets@ =~= seq![a, b, c, d]);
        r
    }

    /// The four octets, most significant first.
    pub fn octets(&self) -> (r: [u8; 4])
        ensures
            r@ == self.octets@,
    {
        self.octets
    }
}

/// The address as a number, for ordering (most significant octet first).
pub open spec fn ip_key(ip: Ipv4) -> int {
    ip.octets@[0] as int * 16777216 + ip.octets@[1] as int * 65536 + ip.octets@[2] as int * 256
        + ip.octets@[3] as int
}

fn ip_key_exec(ip: &Ipv4) -> (r: u32)
    ensures
        r as int == ip_key(*ip),
{
    let o = ip.octets;
    (o[0] as u32) * 16777216 + (o[1] as u32) * 65536 + (o[2] as u32) * 256 + (o[3] as u32)
}

/// `x` comes before `y` in address order: at the first octet where they
/// differ, `x`'s is smaller (the first octet is the most significant).
pub open spec fn octets_before(x: Ipv4, y: Ipv4) -> bool {
    let (a, b) = (x.octets@, y.octets@);
    a[0] < b[0] || (a[0] == b[0] && (a[1] < b[1] || (a[1] == b[1] && (a[2] < b[2] || (a[2] == b[2]
        && a[3] < b[3])))))
}

/// The ordering key orders addresses as numbers with the first octet most
/// significant: a smaller key means an earlier address, and equal keys mean
/// the same octets.
pub proof fn law_address_order(x: Ipv4, y: Ipv4)
    ensures
        ip_key(x) < ip_key(y) <==> octets_before(x, y),
        ip_key(x) == ip_key(y) <==> x.octets@ == y.octets@,
{
    let (a0, a1, a2, a3) = (x.octets@[0] as int, x.octets@[1] as int, x.octets@[2] as int, x.octets@[3] as int);
    let (b0, b1, b2, b3) = (y.octets@[0] as int, y.octets@[1] as int, y.octets@[2] as int, y.octets@[3] as int);
    assert(0 <= a0 < 256 && 0 <= a1 < 256 && 0 <= a2 < 256 && 0 <= a3 < 256);
    assert(0 <= b0 < 256 && 0 <= b1 < 256 && 0 <= b2 < 256 && 0 <= b3 < 256);
    if x.octets@ == y.octets@ {
        assert(ip_key(x) == ip_key(y));
    }
    if ip_key(x) == ip_key(y) {
        lemma_ip_key_injective(x, y);
    }
    if x.octets@ != y.octets@ {
        assert(a0 != b0 || a1 != b1 || a2 != b2 || a3 != b3) by {
            if a0 == b0 && a1 == b1 && a2 == b2 && a3 == b3 {
                assert(x.octets@ =~= y.octets@);
            }
        }
    }
}

/// The dotted-decimal text of an address (`192.168.1.10`).
pub open spec fn dotted(ip: Ipv4) -> Seq<char> {
    decimal(ip.octets@[0] as nat) + seq!['.'] + decimal(ip.octets@[1] as nat) + seq!['.']
        + decimal(ip.octets@[2] as nat) + seq!['.'] + decimal(ip.octets@[3] as nat)
}

/// Appends the dotted-decimal text of an address.
pub fn push_dotted(s: &mut String, ip: &Ipv4)
    ensures
        final(s)@ == old(s)@ + dotted(*ip),
{
    let ghost start = s@;
    let o = ip.octets;
    push_decimal(s, o[0] as u64);
    push_char(s, '.');
    push_decimal(s, o[1] as u64);
    push_char(s, '.');
    push_decimal(s, o[2] as u64);
    push_char(s, '.');
    push_decimal(s, o[3] as u64);
    assert(s@ =~= start + dotted(*ip));
}

/// The dotted-decimal text of an address, as a new string.
pub fn ipv4_to_string(ip: &Ipv4) -> (r: String)
    ensures
        r@ == dotted(*ip),
{
    let mut s = String::new();
    push_dotted(&mut s, ip);
    assert(s@ =~= dotted(*ip));
    s
}

/// An address that looks like a real LAN address: not loopback
/// (127/8), not link-local (169.254/16), not the RFC 2544 benchmark ranges
/// 192.18/15 and 198.18/15 used by VPN tools, not VirtualBox's host-only
/// range 192.168.56/21.
pub open spec fn likely_lan(ip: Ipv4) -> bool {
    let o = ip.octets@;
    &&& o[0] != 127
    &&& !(o[0] == 169 && o[1] == 254)
    &&& !(o[0] == 192 && (o[1] == 18 || o[1] == 19))
    &&& !(o[0] == 198 && (o[1] == 18 || o[1] == 19))
    &&& !(o[0] == 192 && o[1] == 168 && 56 <= o[2] <= 63)
}

/// Whether an address looks like a real LAN address (see [`likely_lan`]).
/// Ordinary private ranges and public addresses are kept.
pub fn is_likely_lan(ip: Ipv4) -> (r: bool)
    ensures
        r == likely_lan(ip),
{
    let o = ip.octets;
    let a: u8 = o[0];
    let b: u8 = o[1];
    let c: u8 = o[2];
    assert((b & 0xFE) == 18 <==> (b == 18 || b == 19)) by (bit_vector);
    assert((c & 0xF8) == 56 <==> (56 <= c && c <= 63)) by (bit_vector);
    if a == 127 {
        return false;
    }
    if a == 169 && b == 254 {
        return false;
    }
    // RFC 2544: 192.18.0.0/15
    if a == 192 && (b & 0xFE) == 18 {
        return false;
    }
    // RFC 2544 / RFC 6815: 198.18.0.0/15
    if a == 198 && (b & 0xFE) == 18 {
        return false;
    }
    // VirtualBox host-only: 192.168.56.0/21
    if a == 192 && b == 168 && (c & 0xF8) == 56 {
        return false;
    }
    true
}

/// Name fragments of virtual adapters and VPN tunnels (Hyper-V, WSL, Docker,
/// VMware, VirtualBox, OpenVPN, WireGuard, user-space `tun`/`tap` tunnels,
/// macOS `utun`, libvirt, Docker Compose bridges), lower case.
pub open spec fn virtual_keywords() -> Seq<Seq<char>> {
    seq![
        "wsl"@, "vethernet"@, "docker"@, "vmware"@, "virtualbox"@, "virtual pc"@, "hyper-v"@,
        "openvpn"@, "wireguard"@, "tun"@, "tap"@, "utun"@, "virbr"@, "br-"@, "tunnel adapter"@,
        "tap-windows"@,
    ]
}

/// The interface name, compared without regard to ASCII case, contains one
/// of the [`virtual_keywords`].
pub open spec fn looks_virtual(name: Seq<char>) -> bool {
    exists|k: int| 0 <= k < virtual_keywords().len() && contains(ascii_lowercase(name), #[trigger] virtual_keywords()[k])
}

fn keyword(k: usize) -> (r: &'static str)
    requires
        k < 16,
    ensures
        r@ == virtual_keywords()[k as int],
{
    match k {
        0 => "wsl",
        1 => "vethernet",
        2 => "docker",
        3 => "vmware",
        4 => "virtualbox",
        5 => "virtual pc",
        6 => "hyper-v",
        7 => "openvpn",
        8 => "wireguard",
        9 => "tun",
        10 => "tap",
        11 => "utun",
        12 => "virbr",
        13 => "br-",
        14 => "tunnel adapter",
        _ => "tap-windows",
    }
}

/// Whether an interface is a virtual adapter or VPN tunnel, by its name.
pub fn is_virtual_interface(name: &str) -> (r: bool)
    ensures
        r == looks_virtual(name@),
{
    let lower = to_ascii_lowercase_chars(chars_of(name).as_slice());
    let mut k: usize = 0;
    while k < 16
        invariant
            k <= 16,
            lower@ == ascii_lowercase(name@),
            forall|j: int| 0 <= j < k ==> !contains(ascii_lowercase(name@), #[trigger] virtual_keywords()[j]),
        decreases 16 - k,
    {
        let kw = chars_of(keyword(k));
        if contains_chars(lower.as_slice(), kw.as_slice()) {
            return true;
        }
        k = k + 1;
    }
    false
}

/// A network interface with an IPv4 address.
#[derive(Clone)]
pub struct LanInterface {
    pub name: String,
    pub ip: Ipv4,
    pub netmask: Ipv4,
}

/// Dotted-decimal text of the network address of an interface: each octet
/// of its address masked by the same octet of its netmask.
pub open spec fn network_text(iface: LanInterface) -> Seq<char> {
    decimal((iface.ip.octets@[0] & iface.netmask.octets@[0]) as nat) + seq!['.']
        + decimal((iface.ip.octets@[1] & iface.netmask.octets@[1]) as nat) + seq!['.']
        + decimal((iface.ip.octets@[2] & iface.netmask.octets@[2]) as nat) + seq!['.']
        + decimal((iface.ip.octets@[3] & iface.netmask.octets@[3]) as nat)
}

/// Number of one bits in a byte.
pub open spec fn ones(b: nat) -> nat
    decreases b,
{
    if b == 0 {
        0
    } else {
        (b % 2) + ones(b / 2)
    }
}

/// `2^k`.
pub open spec fn exp2(k: nat) -> nat
    decreases k,
{
    if k == 0 {
        1
    } else {
        2 * exp2((k - 1) as nat)
    }
}

proof fn lemma_ones_bound(b: nat, k: nat)
    requires
        b < exp2(k),
    ensures
        ones(b) <= k,
    decreases k,
{
    if b > 0 {
        lemma_ones_bound(b / 2, (k - 1) as nat);
    }
}

fn count_ones(b: u8) -> (r: u8)
    ensures
        r as nat == ones(b as nat),
        r <= 8,
{
    let mut x = b;
    let mut n: u8 = 0;
    while x > 0
        invariant
            n as nat + ones(x as nat) == ones(b as nat),
            n as int + x as int <= b as int,
        decreases x,
    {
        n = n + (x % 2);
        x = x / 2;
    }
    proof {
        reveal_with_fuel(exp2, 9);
        assert(exp2(8) == 256);
        lemma_ones_bound(b as nat, 8);
    }
    n
}

impl LanInterface {
    /// Length of the network prefix: the one bits of the netmask
    /// (`255.255.255.0` gives 24).
    pub fn prefix_len(&self) -> (r: u8)
        ensures
            r as nat == ones(self.netmask.octets@[0] as nat) + ones(self.netmask.octets@[1] as nat)
                + ones(self.netmask.octets@[2] as nat) + ones(self.netmask.octets@[3] as nat),
    {
        let m = self.netmask.octets;
        count_ones(m[0]) + count_ones(m[1]) + count_ones(m[2]) + count_ones(m[3])
    }

    /// The network address: the address masked by the netmask, octet by
    /// octet (`192.168.20.175/24` gives `192.168.20.0`).
    pub fn network(&self) -> (r: Ipv4)
        ensures
            forall|i: int| 0 <= i < 4 ==> #[trigger] r.octets@[i] == (self.ip.octets@[i] & self.netmask.octets@[i]),
    {
        let a = self.ip.octets;
        let m = self.netmask.octets;
        let r = Ipv4::new(a[0] & m[0], a[1] & m[1], a[2] & m[2], a[3] & m[3]);
        r
    }

    /// The subnet in CIDR notation: network address, `/`, prefix length
    /// (`192.168.20.0/24`).
    pub fn cidr(&self) -> (r: String)
        ensures
            r@ == network_text(*self) + seq!['/'] + decimal(
                ones(self.netmask.octets@[0] as nat) + ones(self.netmask.octets@[1] as nat)
                    + ones(self.netmask.octets@[2] as nat) + ones(self.netmask.octets@[3] as nat),
            ),
    {
        let n = self.network();
        let mut s = String::new();
        push_dotted(&mut s, &n);
        push_char(&mut s, '/');
        let p = self.prefix_len();
        push_decimal(&mut s, p as u64);
        proof {
            assert(dotted(n) =~= network_text(*self)) by {
                assert(n.octets@[0] == (self.ip.octets@[0] & self.netmask.octets@[0]));
                assert(n.octets@[1] == (self.ip.octets@[1] & self.netmask.octets@[1]));
                assert(n.octets@[2] == (self.ip.octets@[2] & self.netmask.octets@[2]));
                assert(n.octets@[3] == (self.ip.octets@[3] & self.netmask.octets@[3]));
            }
        }
        s
    }

    /// The subnet prefix for `--prefer-ip`: the leading octets the netmask
    /// covers whole, at least one (`/24` gives `192.168.20`, `/22` gives
    /// `192.168`), so every address of the subnet starts with it (see
    /// [`law_prefix_matches_the_subnet`]).
    pub fn prefer_prefix(&self) -> (r: String)
        ensures
            r@ == leading_octets(self.ip, prefix_segments(
                ones(self.netmask.octets@[0] as nat) + ones(self.netmask.octets@[1] as nat)
                    + ones(self.netmask.octets@[2] as nat) + ones(self.netmask.octets@[3] as nat),
            )),
    {
        let p = self.prefix_len();
        let mut seg: usize = (p as usize) / 8;
        if seg < 1 {
            seg = 1;
        }
        if seg > 4 {
            seg = 4;
        }
        let o = self.ip.octets;
        let mut s = String::new();
        let mut i: usize = 0;
        while i < seg
            invariant
                1 <= seg <= 4,
                seg == prefix_segments(p as nat),
                i <= seg,
                o@ == self.ip.octets@,
                i > 0 ==> s@ == leading_octets(self.ip, i as nat),
                i == 0 ==> s@.len() == 0,
            decreases seg - i,
        {
            if i > 0 {
                push_char(&mut s, '.');
            }
            push_decimal(&mut s, o[i] as u64);
            proof {
                if i == 0 {
                    assert(s@ =~= leading_octets(self.ip, 1));
                } else {
                    assert(s@ =~= leading_octets(self.ip, (i + 1) as nat));
                }
            }
            i = i + 1;
        }
        s
    }
}

/// Whole octets covered by a prefix of `p` bits, clamped to `1..=4`.
pub open spec fn prefix_segments(p: nat) -> nat {
    let s = p / 8;
    if s < 1 {
        1
    } else if s > 4 {
        4
    } else {
        s
    }
}

/// The first `n` octets of an address, dotted.
pub open spec fn leading_octets(ip: Ipv4, n: nat) -> Seq<char>
    decreases n,
{
    if n <= 1 {
        decimal(ip.octets@[0] as nat)
    } else {
        leading_octets(ip, (n - 1) as nat) + seq!['.'] + decimal(ip.octets@[n - 1] as nat)
    }
}

proof fn lemma_leading_same(a: Ipv4, b: Ipv4, n: nat)
    requires
        1 <= n <= 4,
        forall|i: int| 0 <= i < n ==> a.octets@[i] == b.octets@[i],
    ensures
        leading_octets(a, n) == leading_octets(b, n),
    decreases n,
{
    if n > 1 {
        lemma_leading_same(a, b, (n - 1) as nat);
    }
}

proof fn lemma_leading_prefix(a: Ipv4, n: nat, m: nat)
    requires
        1 <= n <= m,
    ensures
        starts_with(leading_octets(a, m), leading_octets(a, n)),
    decreases m,
{
    if m > n {
        lemma_leading_prefix(a, n, (m - 1) as nat);
        let shorter = leading_octets(a, (m - 1) as nat);
        let p = leading_octets(a, n);
        assert(leading_octets(a, m).subrange(0, p.len() as int) =~= shorter.subrange(0, p.len() as int));
    } else {
        assert(leading_octets(a, m).subrange(0, leading_octets(a, m).len() as int) =~= leading_octets(a, m));
    }
}

/// Every address of an interface's subnet starts with its `--prefer-ip`
/// prefix, when the octets the prefix takes are whole octets of the
/// netmask (as in every contiguous netmask of `/8` or longer).
pub proof fn law_prefix_matches_the_subnet(iface: LanInterface, addr: Ipv4)
    requires
        forall|i: int| 0 <= i < prefix_segments(
            ones(iface.netmask.octets@[0] as nat) + ones(iface.netmask.octets@[1] as nat)
                + ones(iface.netmask.octets@[2] as nat) + ones(iface.netmask.octets@[3] as nat),
        ) ==> iface.netmask.octets@[i] == 255,
        forall|i: int| 0 <= i < 4 ==> (addr.octets@[i] & iface.netmask.octets@[i]) == (iface.ip.octets@[i] & iface.netmask.octets@[i]),
    ensures
        starts_with(dotted(addr), leading_octets(iface.ip, prefix_segments(
            ones(iface.netmask.octets@[0] as nat) + ones(iface.netmask.octets@[1] as nat)
                + ones(iface.netmask.octets@[2] as nat) + ones(iface.netmask.octets@[3] as nat),
        ))),
{
    let seg = prefix_segments(
        ones(iface.netmask.octets@[0] as nat) + ones(iface.netmask.octets@[1] as nat)
            + ones(iface.netmask.octets@[2] as nat) + ones(iface.netmask.octets@[3] as nat),
    );
    assert forall|i: int| 0 <= i < seg implies addr.octets@[i] == iface.ip.octets@[i] by {
        let x: u8 = addr.octets@[i];
        let y: u8 = iface.ip.octets@[i];
        let m: u8 = iface.netmask.octets@[i];
        assert(m == 255u8);
        assert((x & m) == (y & m));
        assert(x == y) by (bit_vector)
            requires m == 255u8, (x & m) == (y & m);
    }
    lemma_leading_same(iface.ip, addr, seg);
    lemma_leading_prefix(addr, seg, 4);
    assert(dotted(addr) == leading_octets(addr, 4)) by {
        reveal_with_fuel(leading_octets, 4);
        assert(dotted(addr) =~= leading_octets(addr, 4));
    }
}

// ---------------------------------------------------------------------------
// Interface selection
// ---------------------------------------------------------------------------

/// The interfaces with a likely LAN address.
pub open spec fn lan_only(s: Seq<LanInterface>) -> Seq<LanInterface>
    decreases s.len(),
{
    if s.len() == 0 {
        Seq::empty()
    } else if likely_lan(s.last().ip) {
        lan_only(s.drop_last()).push(s.last())
    } else {
        lan_only(s.drop_last())
    }
}

/// The interfaces whose names do not look virtual.
pub open spec fn physical_only(s: Seq<LanInterface>) -> Seq<LanInterface>
    decreases s.len(),
{
    if s.len() == 0 {
        Seq::empty()
    } else if !looks_virtual(s.last().name@) {
        physical_only(s.drop_last()).push(s.last())
    } else {
        physical_only(s.drop_last())
    }
}

/// The ordering key of an interface: its address.
pub open spec fn lan_key(e: LanInterface) -> int {
    ip_key(e.ip)
}

/// Where `x` goes in a list sorted by address: after every entry whose
/// address is not greater, so that equal addresses keep their order.
pub open spec fn insert_pos(s: Seq<LanInterface>, x: LanInterface) -> int
    decreases s.len(),
{
    if s.len() == 0 {
        0
    } else if lan_key(s.last()) <= lan_key(x) {
        s.len() as int
    } else {
        insert_pos(s.drop_last(), x)
    }
}

/// Stable sort by address (insertion sort, as `sort_by_key` orders).
pub open spec fn sorted_by_ip(s: Seq<LanInterface>) -> Seq<LanInterface>
    decreases s.len(),
{
    if s.len() == 0 {
        Seq::empty()
    } else {
        let t = sorted_by_ip(s.drop_last());
        t.insert(insert_pos(t, s.last()), s.last())
    }
}

/// The interfaces shown: those with a likely LAN address, without virtual
/// adapters unless every one of them is virtual, sorted by address.
pub open spec fn selected_interfaces(all: Seq<LanInterface>) -> Seq<LanInterface> {
    let lan = lan_only(all);
    let phys = physical_only(lan);
    if phys.len() == 0 {
        sorted_by_ip(lan)
    } else {
        sorted_by_ip(phys)
    }
}

/// Elements in ascending address order.
pub open spec fn is_sorted_by_ip(s: Seq<LanInterface>) -> bool {
    forall|i: int, j: int| 0 <= i < j < s.len() ==> lan_key(#[trigger] s[i]) <= lan_key(#[trigger] s[j])
}

proof fn lemma_insert_pos(s: Seq<LanInterface>, x: LanInterface)
    requires
        is_sorted_by_ip(s),
    ensures
        0 <= insert_pos(s, x) <= s.len(),
        forall|i: int| 0 <= i < insert_pos(s, x) ==> lan_key(#[trigger] s[i]) <= lan_key(x),
        forall|i: int| insert_pos(s, x) <= i < s.len() ==> lan_key(#[trigger] s[i]) > lan_key(x),
    decreases s.len(),
{
    if s.len() > 0 && lan_key(s.last()) > lan_key(x) {
        let t = s.drop_last();
        assert(is_sorted_by_ip(t)) by {
            assert forall|i: int, j: int| 0 <= i < j < t.len() implies lan_key(#[trigger] t[i]) <= lan_key(#[trigger] t[j]) by {
                assert(t[i] == s[i] && t[j] == s[j]);
            }
        }
        lemma_insert_pos(t, x);
        assert forall|i: int| insert_pos(s, x) <= i < s.len() implies lan_key(#[trigger] s[i]) > lan_key(x) by {
            if i < s.len() - 1 {
                assert(s[i] == t[i]);
            }
        }
        assert forall|i: int| 0 <= i < insert_pos(s, x) implies lan_key(#[trigger] s[i]) <= lan_key(x) by {
            assert(s[i] == t[i]);
        }
    } else if s.len() > 0 {
        assert forall|i: int| 0 <= i < insert_pos(s, x) implies lan_key(#[trigger] s[i]) <= lan_key(x) by {
            if i < s.len() - 1 {
                assert(lan_key(s[i]) <= lan_key(s[s.len() - 1]));
            }
        }
    }
}

/// The selection is in ascending address order and never shorter than the
/// set it was chosen from: with any LAN candidate, something is shown.
pub proof fn law_selection_sorted(s: Seq<LanInterface>)
    ensures
        is_sorted_by_ip(sorted_by_ip(s)),
        sorted_by_ip(s).len() == s.len(),
    decreases s.len(),
{
    if s.len() > 0 {
        law_selection_sorted(s.drop_last());
        let t = sorted_by_ip(s.drop_last());
        let x = s.last();
        lemma_insert_pos(t, x);
        let p = insert_pos(t, x);
        let u = t.insert(p, x);
        assert forall|i: int, j: int| 0 <= i < j < u.len() implies lan_key(#[trigger] u[i]) <= lan_key(#[trigger] u[j]) by {
            if j < p {
                assert(u[i] == t[i] && u[j] == t[j]);
            } else if j == p {
                assert(u[i] == t[i]);
            } else if i < p {
                assert(u[i] == t[i] && u[j] == t[j - 1]);
            } else if i == p {
                assert(u[j] == t[j - 1]);
            } else {
                assert(u[i] == t[i - 1] && u[j] == t[j - 1]);
            }
        }
    }
}

fn insert_sorted(out: &mut Vec<LanInterface>, x: LanInterface)
    ensures
        final(out)@ == old(out)@.insert(insert_pos(old(out)@, x), x),
{
    let kx = ip_key_exec(&x.ip);
    let mut p: usize = out.len();
    assert(old(out)@.take(p as int) =~= old(out)@);
    while p > 0 && ip_key_exec(&out[p - 1].ip) > kx
        invariant
            p <= out@.len(),
            out@ == old(out)@,
            insert_pos(old(out)@, x) == insert_pos(old(out)@.take(p as int), x),
            kx as int == lan_key(x),
        decreases p,
    {
        proof {
            let t = old(out)@.take(p as int);
            assert(t.drop_last() =~= old(out)@.take(p - 1));
            assert(t.last() == old(out)@[p - 1]);
        }
        p = p - 1;
    }
    proof {
        let t = old(out)@.take(p as int);
        if p > 0 {
            assert(t.last() == old(out)@[p - 1]);
            assert(insert_pos(t, x) == p);
        } else {
            assert(insert_pos(t, x) == 0);
        }
    }
    out.insert(p, x);
}

/// Picks the interfaces to show from the IPv4 interfaces of the machine:
/// keeps likely LAN addresses, leaves out virtual adapters and VPN tunnels
/// unless nothing else is left, and sorts by address (stable).
pub fn list_lan_interfaces(all: Vec<LanInterface>) -> (r: Vec<LanInterface>)
    ensures
        r@ == selected_interfaces(all@),
        forall|i: int, j: int| 0 <= i < j < r@.len() ==> !octets_before(#[trigger] r@[j].ip, #[trigger] r@[i].ip),
{
    proof {
        let lan = lan_only(all@);
        law_selection_sorted(lan);
        law_selection_sorted(physical_only(lan));
        let sel = selected_interfaces(all@);
        assert forall|i: int, j: int| 0 <= i < j < sel.len() implies !octets_before(#[trigger] sel[j].ip, #[trigger] sel[i].ip) by {
            assert(lan_key(sel[i]) <= lan_key(sel[j]));
            law_address_order(sel[j].ip, sel[i].ip);
        }
    }
    let ghost orig = all@;
    let n = all.len();
    let mut rev = reversed(all);
    let mut lan: Vec<LanInterface> = Vec::new();
    let mut phys_count: usize = 0;
    let mut i: usize = 0;
    while rev.len() > 0
        invariant
            n == orig.len(),
            rev@.len() + i == n,
            forall|p: int| 0 <= p < rev@.len() ==> #[trigger] rev@[p] == orig[n - 1 - p],
            lan@ == lan_only(orig.take(i as int)),
            phys_count == physical_only(lan@).len(),
            phys_count <= lan@.len(),
            lan@.len() <= i,
        decreases rev.len(),
    {
        let e = rev.pop().unwrap();
        let ghost before = lan@;
        proof {
            assert(e == orig[i as int]);
            assert(orig.take(i + 1).drop_last() =~= orig.take(i as int));
            assert(orig.take(i + 1).last() == e);
        }
        if is_likely_lan(e.ip) {
            if !is_virtual_interface(e.name.as_str()) {
                phys_count = phys_count + 1;
            }
            lan.push(e);
            proof {
                assert(lan@.drop_last() =~= before);
            }
        }
        i = i + 1;
    }
    assert(orig.take(n as int) =~= orig);
    let keep_all = phys_count == 0;
    let ghost lan_all = lan@;
    let ghost chosen = if keep_all { lan_all } else { physical_only(lan_all) };
    let m = lan.len();
    let mut rev2 = reversed(lan);
    let mut out: Vec<LanInterface> = Vec::new();
    let mut k: usize = 0;
    while rev2.len() > 0
        invariant
            m == lan_all.len(),
            rev2@.len() + k == m,
            forall|p: int| 0 <= p < rev2@.len() ==> #[trigger] rev2@[p] == lan_all[m - 1 - p],
            keep_all == (physical_only(lan_all).len() == 0),
            out@ == sorted_by_ip(if keep_all { lan_all.take(k as int) } else { physical_only(lan_all.take(k as int)) }),
        decreases rev2.len(),
    {
        let e = rev2.pop().unwrap();
        proof {
            assert(e == lan_all[k as int]);
            assert(lan_all.take(k + 1).drop_last() =~= lan_all.take(k as int));
            assert(lan_all.take(k + 1).last() == e);
        }
        let ghost pre = if keep_all { lan_all.take(k as int) } else { physical_only(lan_all.take(k as int)) };
        if keep_all || !is_virtual_interface(e.name.as_str()) {
            insert_sorted(&mut out, e);
            proof {
                assert(pre.push(e).drop_last() =~= pre);
            }
        }
        k = k + 1;
    }
    assert(lan_all.take(m as int) =~= lan_all);
    out
}

/// The same elements in reverse order.
fn reversed(v: Vec<LanInterface>) -> (r: Vec<LanInterface>)
    ensures
        r@.len() == v@.len(),
        forall|p: int| 0 <= p < r@.len() ==> #[trigger] r@[p] == v@[v@.len() - 1 - p],
{
    let ghost orig = v@;
    let mut src = v;
    let mut rev: Vec<LanInterface> = Vec::new();
    while src.len() > 0
        invariant
            src@ == orig.take(src@.len() as int),
            src@.len() + rev@.len() == orig.len(),
            forall|p: int| 0 <= p < rev@.len() ==> #[trigger] rev@[p] == orig[orig.len() - 1 - p],
        decreases src.len(),
    {
        let e = src.pop().unwrap();
        rev.push(e);
        proof {
            assert(orig.take(src@.len() + 1int).drop_last() =~= orig.take(src@.len() as int));
        }
    }
    rev
}

/// Two addresses with the same ordering key are the same address.
pub proof fn lemma_ip_key_injective(a: Ipv4, b: Ipv4)
    ensures
        ip_key(a) == ip_key(b) ==> a.octets@ == b.octets@,
{
    if ip_key(a) == ip_key(b) {
        let x = ip_key(a);
        let (a0, a1, a2, a3) = (a.octets@[0] as int, a.octets@[1] as int, a.octets@[2] as int, a.octets@[3] as int);
        let (b0, b1, b2, b3) = (b.octets@[0] as int, b.octets@[1] as int, b.octets@[2] as int, b.octets@[3] as int);
        vstd::arithmetic::div_mod::lemma_fundamental_div_mod_converse(x, 256, a0 * 65536 + a1 * 256 + a2, a3);
        vstd::arithmetic::div_mod::lemma_fundamental_div_mod_converse(x, 256, b0 * 65536 + b1 * 256 + b2, b3);
        let y = x / 256;
        vstd::arithmetic::div_mod::lemma_fundamental_div_mod_converse(y, 256, a0 * 256 + a1, a2);
        vstd::arithmetic::div_mod::lemma_fundamental_div_mod_converse(y, 256, b0 * 256 + b1, b2);
        let z = y / 256;
        vstd::arithmetic::div_mod::lemma_fundamental_div_mod_converse(z, 256, a0, a1);
        vstd::arithmetic::div_mod::lemma_fundamental_div_mod_converse(z, 256, b0, b1);
        assert(a.octets@ =~= b.octets@);
    }
}

/// Addresses in strictly increasing order, hence each once.
pub open spec fn strictly_increasing(s: Seq<Ipv4>) -> bool {
    forall|a: int, b: int| 0 <= a < b < s.len() ==> ip_key(#[trigger] s[a]) < ip_key(#[trigger] s[b])
}

fn insert_unique(out: &mut Vec<Ipv4>, x: Ipv4)
    requires
        strictly_increasing(old(out)@),
    ensures
        strictly_increasing(final(out)@),
        exists|a: int| 0 <= a < final(out)@.len() && (#[trigger] final(out)@[a]).octets@ == x.octets@,
        forall|a: int| #![trigger final(out)@[a]] 0 <= a < final(out)@.len()
            ==> final(out)@[a] == x || exists|b: int| 0 <= b < old(out)@.len() && (#[trigger] old(out)@[b]) == final(out)@[a],
        forall|b: int| #![trigger old(out)@[b]] 0 <= b < old(out)@.len()
            ==> exists|a: int| 0 <= a < final(out)@.len() && (#[trigger] final(out)@[a]) == old(out)@[b],
{
    let kx = ip_key_exec(&x);
    let mut p: usize = 0;
    while p < out.len() && ip_key_exec(&out[p]) < kx
        invariant
            p <= out@.len(),
            out@ == old(out)@,
            kx as int == ip_key(x),
            forall|q: int| 0 <= q < p ==> ip_key(#[trigger] out@[q]) < kx,
        decreases out.len() - p,
    {
        p = p + 1;
    }
    let ghost before = out@;
    if p < out.len() && ip_key_exec(&out[p]) == kx {
        proof {
            lemma_ip_key_injective(out@[p as int], x);
            assert(out@[p as int].octets@ == x.octets@);
            assert forall|b: int| #![trigger old(out)@[b]] 0 <= b < old(out)@.len()
                implies exists|a: int| 0 <= a < out@.len() && (#[trigger] out@[a]) == old(out)@[b] by {
                assert(out@[b] == old(out)@[b]);
            }
            assert forall|a: int| #![trigger out@[a]] 0 <= a < out@.len()
                implies out@[a] == x || exists|b: int| 0 <= b < old(out)@.len() && (#[trigger] old(out)@[b]) == out@[a] by {
                assert(old(out)@[a] == out@[a]);
            }
        }
    } else {
        proof {
            if p < before.len() {
                assert(ip_key(before[p as int]) > kx);
            }
        }
        out.insert(p, x);
        proof {
            assert(out@ == before.insert(p as int, x));
            assert forall|a: int, b: int| 0 <= a < b < out@.len() implies ip_key(#[trigger] out@[a]) < ip_key(#[trigger] out@[b]) by {
                if b < p {
                    assert(out@[a] == before[a] && out@[b] == before[b]);
                } else if b == p {
                    assert(out@[a] == before[a]);
                } else if a < p {
                    assert(out@[a] == before[a] && out@[b] == before[b - 1]);
                    assert(ip_key(before[p as int]) > kx);
                    if b - 1 > p {
                        assert(ip_key(before[p as int]) < ip_key(before[b - 1]));
                    }
                } else if a == p {
                    assert(out@[b] == before[b - 1]);
                    assert(ip_key(before[p as int]) > kx);
                    if b - 1 > p {
                        assert(ip_key(before[p as int]) < ip_key(before[b - 1]));
                    }
                } else {
                    assert(out@[a] == before[a - 1] && out@[b] == before[b - 1]);
                }
            }
            assert(out@[p as int] == x);
            assert forall|a: int| #![trigger out@[a]] 0 <= a < out@.len()
                implies out@[a] == x || exists|b: int| 0 <= b < old(out)@.len() && (#[trigger] old(out)@[b]) == out@[a] by {
                if a < p {
                    assert(old(out)@[a] == out@[a]);
                } else if a > p {
                    assert(old(out)@[a - 1] == out@[a]);
                }
            }
            assert forall|b: int| #![trigger old(out)@[b]] 0 <= b < old(out)@.len()
                implies exists|a: int| 0 <= a < out@.len() && (#[trigger] out@[a]) == old(out)@[b] by {
                if b < p {
                    assert(out@[b] == old(out)@[b]);
                } else {
                    assert(out@[b + 1] == old(out)@[b]);
                }
            }
        }
    }
}

/// Every address of `out` is the address of one of the first `n` interfaces.
pub open spec fn drawn_from(out: Seq<Ipv4>, ifaces: Seq<LanInterface>, n: int) -> bool {
    forall|a: int| #![trigger out[a]] 0 <= a < out.len() ==> exists|k: int| 0 <= k < n && (#[trigger] ifaces[k]).ip == out[a]
}

/// The address of each of the first `n` interfaces is in `out`.
pub open spec fn covers(out: Seq<Ipv4>, ifaces: Seq<LanInterface>, n: int) -> bool {
    forall|k: int| #![trigger ifaces[k]] 0 <= k < n ==> exists|a: int| 0 <= a < out.len() && (#[trigger] out[a]).octets@ == ifaces[k].ip.octets@
}

proof fn lemma_unique_step(ifaces: Seq<LanInterface>, i: int, before: Seq<Ipv4>, after: Seq<Ipv4>)
    requires
        0 <= i < ifaces.len(),
        drawn_from(before, ifaces, i),
        covers(before, ifaces, i),
        exists|a: int| 0 <= a < after.len() && (#[trigger] after[a]).octets@ == ifaces[i].ip.octets@,
        forall|a: int| #![trigger after[a]] 0 <= a < after.len()
            ==> after[a] == ifaces[i].ip || exists|b: int| 0 <= b < before.len() && (#[trigger] before[b]) == after[a],
        forall|b: int| #![trigger before[b]] 0 <= b < before.len()
            ==> exists|a: int| 0 <= a < after.len() && (#[trigger] after[a]) == before[b],
    ensures
        drawn_from(after, ifaces, i + 1),
        covers(after, ifaces, i + 1),
{
    assert forall|a: int| #![trigger after[a]] 0 <= a < after.len()
        implies exists|k: int| 0 <= k < i + 1 && (#[trigger] ifaces[k]).ip == after[a] by {
        if after[a] == ifaces[i].ip {
            assert(ifaces[i].ip == after[a]);
        } else {
            let b = choose|b: int| 0 <= b < before.len() && (#[trigger] before[b]) == after[a];
            let k = choose|k: int| 0 <= k < i && (#[trigger] ifaces[k]).ip == before[b];
            assert(ifaces[k].ip == after[a]);
        }
    }
    assert forall|k: int| #![trigger ifaces[k]] 0 <= k < i + 1
        implies exists|a: int| 0 <= a < after.len() && (#[trigger] after[a]).octets@ == ifaces[k].ip.octets@ by {
        if k < i {
            let b = choose|b: int| 0 <= b < before.len() && (#[trigger] before[b]).octets@ == ifaces[k].ip.octets@;
            let a = choose|a: int| 0 <= a < after.len() && (#[trigger] after[a]) == before[b];
            assert(after[a].octets@ == ifaces[k].ip.octets@);
        }
    }
}

/// The addresses of the selected interfaces, each once, in ascending
/// order: strictly increasing, and holding exactly the interfaces'
/// addresses.
pub fn list_local_ipv4s(ifaces: &[LanInterface]) -> (r: Vec<Ipv4>)
    ensures
        strictly_increasing(r@),
        forall|a: int, b: int| 0 <= a < b < r@.len() ==> octets_before(#[trigger] r@[a], #[trigger] r@[b]),
        drawn_from(r@, ifaces@, ifaces@.len() as int),
        covers(r@, ifaces@, ifaces@.len() as int),
{
    let mut out: Vec<Ipv4> = Vec::new();
    let mut i: usize = 0;
    while i < ifaces.len()
        invariant
            i <= ifaces@.len(),
            ifaces@.len() == ifaces.len(),
            strictly_increasing(out@),
            drawn_from(out@, ifaces@, i as int),
            covers(out@, ifaces@, i as int),
        decreases ifaces.len() - i,
    {
        let ghost before = out@;
        let x = ifaces[i].ip;
        insert_unique(&mut out, x);
        proof {
            lemma_unique_step(ifaces@, i as int, before, out@);
        }
        i = i + 1;
    }
    proof {
        assert forall|a: int, b: int| 0 <= a < b < out@.len() implies octets_before(#[trigger] out@[a], #[trigger] out@[b]) by {
            law_address_order(out@[a], out@[b]);
        }
    }
    out
}

/// The addresses whose dotted text starts with `prefix`, in order.
pub open spec fn matching(ips: Seq<Ipv4>, prefix: Seq<char>) -> Seq<Ipv4>
    decreases ips.len(),
{
    if ips.len() == 0 {
        Seq::empty()
    } else if starts_with(dotted(ips.last()), prefix) {
        matching(ips.drop_last(), prefix).push(ips.last())
    } else {
        matching(ips.drop_last(), prefix)
    }
}

/// The candidates in the preferred subnet: those whose dotted text starts
/// with the trimmed preference; all of them when the preference is blank or
/// matches none.
pub open spec fn subnet_filtered(ips: Seq<Ipv4>, prefer: Seq<char>) -> Seq<Ipv4> {
    let p = trimmed(prefer);
    if p.len() == 0 {
        ips
    } else {
        let m = matching(ips, p);
        if m.len() == 0 {
            ips
        } else {
            m
        }
    }
}

proof fn lemma_matching_subset(ips: Seq<Ipv4>, prefix: Seq<char>)
    ensures
        forall|k: int| 0 <= k < matching(ips, prefix).len() ==> ips.contains(#[trigger] matching(ips, prefix)[k])
            && starts_with(dotted(matching(ips, prefix)[k]), prefix),
    decreases ips.len(),
{
    if ips.len() > 0 {
        let rest = ips.drop_last();
        lemma_matching_subset(rest, prefix);
        let m = matching(ips, prefix);
        assert forall|k: int| 0 <= k < m.len() implies ips.contains(#[trigger] m[k]) && starts_with(dotted(m[k]), prefix) by {
            if k < matching(rest, prefix).len() {
                assert(m[k] == matching(rest, prefix)[k]);
                let j = choose|j: int| 0 <= j < rest.len() && rest[j] == m[k];
                assert(ips[j] == m[k]);
            } else {
                assert(m[k] == ips.last());
                assert(ips[ips.len() - 1] == m[k]);
            }
        }
    }
}

/// A subnet preference never leaves the QR code without an address: when
/// there are candidates, some remain; every one kept is a candidate; and
/// when a non-blank preference matches some candidate, every one kept is in
/// the preferred subnet.
pub proof fn law_preference_keeps_candidates(ips: Seq<Ipv4>, prefer: Seq<char>)
    ensures
        ips.len() > 0 ==> subnet_filtered(ips, prefer).len() > 0,
        forall|k: int| 0 <= k < subnet_filtered(ips, prefer).len() ==> ips.contains(#[trigger] subnet_filtered(ips, prefer)[k]),
        trimmed(prefer).len() > 0 && matching(ips, trimmed(prefer)).len() > 0 ==> forall|k: int|
            0 <= k < subnet_filtered(ips, prefer).len() ==> starts_with(dotted(#[trigger] subnet_filtered(ips, prefer)[k]), trimmed(prefer)),
{
    lemma_matching_subset(ips, trimmed(prefer));
    let r = subnet_filtered(ips, prefer);
    assert forall|k: int| 0 <= k < r.len() implies ips.contains(#[trigger] r[k]) by {
        if r == ips {
            assert(ips[k] == r[k]);
        }
    }
}

/// Narrows the candidate addresses to a preferred subnet given as a text
/// prefix (`192.168.20` or `192.168.20.`). Never returns fewer than all
/// candidates when nothing matches.
pub fn filter_by_subnet(ips: &[Ipv4], prefer_subnet: &str) -> (r: Vec<Ipv4>)
    ensures
        r@ == subnet_filtered(ips@, prefer_subnet@),
{
    let prefix = trim_chars(chars_of(prefer_subnet).as_slice());
    let mut all: Vec<Ipv4> = Vec::new();
    let mut matched: Vec<Ipv4> = Vec::new();
    let mut i: usize = 0;
    while i < ips.len()
        invariant
            i <= ips@.len(),
            prefix@ == trimmed(prefer_subnet@),
            all@ == ips@.take(i as int),
            matched@ == matching(ips@.take(i as int), prefix@),
        decreases ips.len() - i,
    {
        let ip = ips[i];
        let text = chars_of(ipv4_to_string(&ip).as_str());
        let ghost before = matched@;
        proof {
            assert(ips@.take(i + 1).drop_last() =~= ips@.take(i as int));
            assert(ips@.take(i + 1).last() == ip);
        }
        if starts_with_chars(text.as_slice(), prefix.as_slice()) {
            matched.push(ip);
            proof {
                assert(matched@.drop_last() =~= before);
            }
        }
        all.push(ip);
        proof {
            assert(all@ =~= ips@.take(i + 1));
        }
        i = i + 1;
    }
    assert(ips@.take(ips@.len() as int) =~= ips@);
    if prefix.len() == 0 || matched.len() == 0 {
        all
    } else {
        matched
    }
}

} // verus!
