//! IP address and network normalisation: parsing address, CIDR and mask
//! text, reconciling mixed address/mask arguments into one canonical network,
//! truncation, containment tests, and compact binary forms.

use vstd::prelude::*;

use vstd::arithmetic::power2::pow2;

use crate::text::{dec_value, first_index_of, hex_digit_value, hex_value, is_dec_digit,
    is_hex_digit, lemma_first_index_of, lemma_hex_value_bound, lemma_pow16_monotone,
    lemma_pow2_127, lemma_trunc_bits_idempotent, lemma_trunc_bits_le, low_byte, low_byte_u128,
    low_u32, parse_u8_decimal, pow16, pow2_u128, pow2_u64, split_chars, split_on, str_chars,
    trunc_bits, views_of};

verus! {

/// An IP address value: 32 bits for the v4 family, 128 for v6.
#[derive(Debug, Clone, Copy, PartialEq, Eq, Structural)]
pub enum IpAddress {
    /// A v4 address.
    V4(u32),
    /// A v6 address.
    V6(u128),
}

/// A network: an address plus a prefix length. The address need not be
/// truncated to the prefix; truncation is an explicit operation.
#[derive(Debug, Clone, Copy, PartialEq, Eq, Structural)]
pub struct IpNetwork {
    /// The network's base address.
    pub addr: IpAddress,
    /// How many leading address bits the network fixes.
    pub prefix: u8,
}

/// An address or a network, as a caller supplied it.
#[derive(Debug, Clone, Copy, PartialEq, Eq, Structural)]
pub enum UserNetAddr {
    /// A bare address.
    Address(IpAddress),
    /// A network.
    Network(IpNetwork),
}

/// The address family's width in bits.
pub open spec fn addr_bits(a: IpAddress) -> nat {
    match a {
        IpAddress::V4(_) => 32,
        IpAddress::V6(_) => 128,
    }
}

/// The address as a plain number.
pub open spec fn addr_val(a: IpAddress) -> nat {
    match a {
        IpAddress::V4(v) => v as nat,
        IpAddress::V6(v) => v as nat,
    }
}

/// Two values of one family.
pub open spec fn same_family(a: IpAddress, b: IpAddress) -> bool {
    (a is V4 && b is V4) || (a is V6 && b is V6)
}

/// A network's prefix fits its family.
pub open spec fn net_wf(n: IpNetwork) -> bool {
    n.prefix as nat <= addr_bits(n.addr)
}

/// The network's base address truncated to its prefix.
pub open spec fn net_trunc_val(n: IpNetwork) -> nat {
    trunc_bits(addr_val(n.addr), (addr_bits(n.addr) - n.prefix) as nat)
}

/// The network covers the address: same family, and the address truncated to
/// the network's prefix equals the network's truncated base.
pub open spec fn net_contains_addr(n: IpNetwork, a: IpAddress) -> bool {
    &&& same_family(n.addr, a)
    &&& trunc_bits(addr_val(a), (addr_bits(n.addr) - n.prefix) as nat) == net_trunc_val(n)
}

/// The network covers the whole of network `m`: same family, `m` at least as
/// specific, `m`'s base truncated to `n`'s prefix equal to `n`'s truncated
/// base.
pub open spec fn net_contains_net(n: IpNetwork, m: IpNetwork) -> bool {
    &&& same_family(n.addr, m.addr)
    &&& n.prefix <= m.prefix
    &&& trunc_bits(addr_val(m.addr), (addr_bits(n.addr) - n.prefix) as nat) == net_trunc_val(n)
}

/// What a caller-supplied value being inside a network means: an address is
/// covered; a network is covered as a whole range.
pub open spec fn una_within(u: UserNetAddr, n: IpNetwork) -> bool {
    match u {
        UserNetAddr::Address(a) => net_contains_addr(n, a),
        UserNetAddr::Network(m) => net_contains_net(n, m),
    }
}

/// A caller-supplied value's own well-formedness.
pub open spec fn una_wf(u: UserNetAddr) -> bool {
    match u {
        UserNetAddr::Address(_) => true,
        UserNetAddr::Network(m) => net_wf(m),
    }
}

/// Errors of the IP engine.
#[derive(Debug, Clone, PartialEq, Eq)]
pub enum InetError {
    /// The text is neither an address nor a CIDR network; carries it.
    BadAddress(String),
    /// A binary value has a size other than 4, 5, 16 or 17 bytes; carries it.
    UnrecognizedBlobLength(Vec<u8>),
    /// A mask field holds neither a prefix length nor a contiguous dotted
    /// mask; carries its text.
    InvalidNetworkMask(String),
    /// The primary value already fixes a prefix length and a separate mask
    /// was supplied too; carries the mask's text.
    MultipleNetworkMasks(String),
    /// A prefix length beyond the family's width, or a mask whose bit
    /// pattern is not one contiguous run of leading ones.
    PrefixLength,
}

/// Truncate an address value to its leading `prefix` bits.
fn trunc_addr(a: IpAddress, prefix: u8) -> (r: IpAddress)
    requires
        prefix as nat <= addr_bits(a),
    ensures
        same_family(a, r),
        addr_val(r) == trunc_bits(addr_val(a), (addr_bits(a) - prefix) as nat),
{
    match a {
        IpAddress::V4(v) => {
            let p = pow2_u64(32 - prefix);
            proof {
                vstd::arithmetic::power2::lemma_pow2_pos((32 - prefix) as nat);
                lemma_trunc_bits_le(v as nat, (32 - prefix) as nat);
            }
            let t = (v as u64 / p) * p;
            IpAddress::V4(low_u32(t))
        },
        IpAddress::V6(v) => {
            if prefix == 0 {
                proof {
                    lemma_pow2_127();
                    vstd::arithmetic::power2::lemma_pow2_unfold(128);
                    assert((v as nat) < pow2(128));
                    assert(v as nat / pow2(128) == 0) by {
                        vstd::arithmetic::div_mod::lemma_basic_div(v as int, pow2(128) as int);
                    }
                }
                IpAddress::V6(0)
            } else {
                let p = pow2_u128(128 - prefix);
                proof {
                    vstd::arithmetic::power2::lemma_pow2_pos((128 - prefix) as nat);
                    lemma_trunc_bits_le(v as nat, (128 - prefix) as nat);
                }
                IpAddress::V6((v / p) * p)
            }
        },
    }
}

impl IpNetwork {
    /// The network with its base address truncated to the prefix.
    pub fn trunc(&self) -> (r: IpNetwork)
        requires
            net_wf(*self),
        ensures
            same_family(self.addr, r.addr),
            r.prefix == self.prefix,
            addr_val(r.addr) == net_trunc_val(*self),
            net_wf(r),
    {
        IpNetwork { addr: trunc_addr(self.addr, self.prefix), prefix: self.prefix }
    }

    /// Does this network cover the address?
    pub fn contains_addr(&self, a: &IpAddress) -> (r: bool)
        requires
            net_wf(*self),
        ensures
            r == net_contains_addr(*self, *a),
    {
        match (self.addr, a) {
            (IpAddress::V4(_), IpAddress::V4(x)) => {
                let t = self.trunc();
                let ta = trunc_addr(IpAddress::V4(*x), self.prefix);
                match (t.addr, ta) {
                    (IpAddress::V4(u), IpAddress::V4(w)) => u == w,
                    _ => false,
                }
            },
            (IpAddress::V6(_), IpAddress::V6(x)) => {
                let t = self.trunc();
                let ta = trunc_addr(IpAddress::V6(*x), self.prefix);
                match (t.addr, ta) {
                    (IpAddress::V6(u), IpAddress::V6(w)) => u == w,
                    _ => false,
                }
            },
            _ => false,
        }
    }
}

impl UserNetAddr {
    /// The bare address, or a network's base address.
    pub fn address(&self) -> (r: IpAddress)
        ensures
            r == match *self {
                UserNetAddr::Address(a) => a,
                UserNetAddr::Network(n) => n.addr,
            },
    {
        match self {
            UserNetAddr::Address(a) => *a,
            UserNetAddr::Network(n) => n.addr,
        }
    }

    /// Is this value inside the network's truncated range?
    pub fn within(&self, net: IpNetwork) -> (r: bool)
        requires
            net_wf(net),
        ensures
            r == una_within(*self, net),
    {
        match self {
            UserNetAddr::Address(a) => net.contains_addr(a),
            UserNetAddr::Network(m) => {
                match (net.addr, m.addr) {
                    (IpAddress::V4(_), IpAddress::V4(_)) | (IpAddress::V6(_), IpAddress::V6(_)) => {
                        if m.prefix < net.prefix {
                            false
                        } else {
                            net.contains_addr(&m.addr)
                        }
                    },
                    _ => false,
                }
            },
        }
    }
}

/// One octet of dotted-quad text: one to three decimal digits valuing at most
/// 255.
pub open spec fn octet_ok(p: Seq<char>) -> bool {
    &&& 1 <= p.len() <= 3
    &&& forall|i: int| 0 <= i < p.len() ==> is_dec_digit(#[trigger] p[i])
    &&& dec_value(p) <= 255
}

/// Whether text is a dotted-quad v4 address.
pub open spec fn v4_text_ok(s: Seq<char>) -> bool {
    let ps = split_on(s, '.');
    ps.len() == 4 && forall|i: int| 0 <= i < 4 ==> octet_ok(#[trigger] ps[i])
}

/// The value of dotted-quad text.
pub open spec fn v4_text_val(s: Seq<char>) -> nat {
    let ps = split_on(s, '.');
    ((dec_value(ps[0]) * 256 + dec_value(ps[1])) * 256 + dec_value(ps[2])) * 256 + dec_value(ps[3])
}

/// Parse one dotted-quad octet.
fn parse_octet(p: &Vec<char>) -> (r: Option<u8>)
    ensures
        r is Some <==> octet_ok(p@),
        r is Some ==> r->0 as nat == dec_value(p@),
{
    proof {
        assert(p@.subrange(0, p@.len() as int) =~= p@);
    }
    if p.len() > 3 {
        return None;
    }
    parse_u8_decimal(p, 0, p.len())
}

/// Parse dotted-quad v4 address text.
fn parse_ipv4(cs: &Vec<char>) -> (r: Option<u32>)
    ensures
        r is Some <==> v4_text_ok(cs@),
        r is Some ==> r->0 as nat == v4_text_val(cs@),
{
    let parts = split_chars(cs, '.');
    let ghost pv = views_of(parts@);
    if parts.len() != 4 {
        return None;
    }
    proof {
        assert(parts@[0]@ == pv[0] && parts@[1]@ == pv[1] && parts@[2]@ == pv[2] && parts@[3]@
            == pv[3]);
    }
    let b0 = match parse_octet(&parts[0]) {
        Some(b) => b,
        None => {
            return None;
        },
    };
    let b1 = match parse_octet(&parts[1]) {
        Some(b) => b,
        None => {
            return None;
        },
    };
    let b2 = match parse_octet(&parts[2]) {
        Some(b) => b,
        None => {
            return None;
        },
    };
    let b3 = match parse_octet(&parts[3]) {
        Some(b) => b,
        None => {
            return None;
        },
    };
    proof {
        assert(parts@[0]@ == pv[0] && parts@[1]@ == pv[1] && parts@[2]@ == pv[2] && parts@[3]@
            == pv[3]);
        assert forall|i: int| 0 <= i < 4 implies octet_ok(#[trigger] pv[i]) by {
            assert(pv[i] == parts@[i]@);
        }
    }
    Some(
        ((b0 as u32 * 256 + b1 as u32) * 256 + b2 as u32) * 256 + b3 as u32,
    )
}

/// A v6 group: one to four hexadecimal digits.
pub open spec fn group_ok(g: Seq<char>) -> bool {
    1 <= g.len() <= 4 && forall|i: int| 0 <= i < g.len() ==> is_hex_digit(#[trigger] g[i])
}

/// The value of a list of 16-bit groups, big-endian.
pub open spec fn groups_value(ps: Seq<Seq<char>>) -> nat
    decreases ps.len(),
{
    if ps.len() == 0 {
        0
    } else {
        groups_value(ps.drop_last()) * 0x10000 + hex_value(ps.last())
    }
}

/// The position of the first `::`, or -1.
pub open spec fn first_dcolon(s: Seq<char>) -> int
    decreases s.len(),
{
    if s.len() < 2 {
        -1
    } else if s[0] == ':' && s[1] == ':' {
        0
    } else if first_dcolon(s.skip(1)) == -1 {
        -1
    } else {
        first_dcolon(s.skip(1)) + 1
    }
}

proof fn lemma_first_dcolon(s: Seq<char>)
    ensures
        first_dcolon(s) == -1 ==> forall|i: int|
            0 <= i < s.len() - 1 ==> !(#[trigger] s[i] == ':' && s[i + 1] == ':'),
        first_dcolon(s) != -1 ==> {
            let k = first_dcolon(s);
            &&& 0 <= k < s.len() - 1
            &&& s[k] == ':' && s[k + 1] == ':'
            &&& forall|i: int| 0 <= i < k ==> !(#[trigger] s[i] == ':' && s[i + 1] == ':')
        },
    decreases s.len(),
{
    if s.len() >= 2 && !(s[0] == ':' && s[1] == ':') {
        let t = s.skip(1);
        lemma_first_dcolon(t);
        assert(forall|i: int| 0 <= i < t.len() ==> #[trigger] t[i] == s[i + 1]);
        if first_dcolon(t) == -1 {
            assert forall|i: int| 0 <= i < s.len() - 1 implies !(#[trigger] s[i] == ':' && s[i + 1]
                == ':') by {
                if i > 0 {
                    assert(t[i - 1] == s[i]);
                    assert(t[i] == s[i + 1]);
                    assert(!(t[i - 1] == ':' && t[i] == ':'));
                }
            }
        } else {
            let k = first_dcolon(t);
            assert(t[k] == s[k + 1] && t[k + 1] == s[k + 2]);
            assert forall|i: int| 0 <= i < k + 1 implies !(#[trigger] s[i] == ':' && s[i + 1]
                == ':') by {
                if i > 0 {
                    assert(t[i - 1] == s[i]);
                    assert(t[i] == s[i + 1]);
                    assert(!(t[i - 1] == ':' && t[i] == ':'));
                }
            }
        }
    }
}

/// The groups left of the `::`, where one exists.
pub open spec fn v6_left_parts(s: Seq<char>) -> Seq<Seq<char>> {
    let k = first_dcolon(s);
    if k == 0 {
        Seq::empty()
    } else {
        split_on(s.take(k), ':')
    }
}

/// The groups right of the `::`, where one exists.
pub open spec fn v6_right_parts(s: Seq<char>) -> Seq<Seq<char>> {
    let k = first_dcolon(s);
    if k + 2 == s.len() {
        Seq::empty()
    } else {
        split_on(s.skip(k + 2), ':')
    }
}

/// A part list whose final part is a dotted quad standing for the two lowest
/// groups, as in IPv4-mapped or IPv4-compatible text.
pub open spec fn tail_mixed(ps: Seq<Seq<char>>) -> bool {
    ps.len() >= 1 && v4_text_ok(ps.last())
}

/// Colon-separated parts ending an address: hexadecimal groups, the last of
/// which may instead be a dotted quad.
pub open spec fn tail_parts_ok(ps: Seq<Seq<char>>) -> bool {
    if tail_mixed(ps) {
        forall|i: int| 0 <= i < ps.len() - 1 ==> group_ok(#[trigger] ps[i])
    } else {
        forall|i: int| 0 <= i < ps.len() ==> group_ok(#[trigger] ps[i])
    }
}

/// How many 16-bit groups the part list stands for: a dotted tail counts as
/// two.
pub open spec fn tail_group_count(ps: Seq<Seq<char>>) -> int {
    if tail_mixed(ps) {
        ps.len() as int + 1
    } else {
        ps.len() as int
    }
}

/// The combined value of the part list.
pub open spec fn tail_parts_val(ps: Seq<Seq<char>>) -> nat {
    if tail_mixed(ps) {
        groups_value(ps.drop_last()) * 0x1_0000_0000 + v4_text_val(ps.last())
    } else {
        groups_value(ps)
    }
}

/// Whether text is a v6 address: eight 16-bit groups in all, written as
/// hexadecimal groups of one to four digits, at most one `::` standing for at
/// least one zero group, and optionally a final dotted quad standing for the
/// two lowest groups.
pub open spec fn v6_text_ok(s: Seq<char>) -> bool {
    let k = first_dcolon(s);
    if k == -1 {
        let ps = split_on(s, ':');
        tail_parts_ok(ps) && tail_group_count(ps) == 8
    } else {
        let lp = v6_left_parts(s);
        let rp = v6_right_parts(s);
        &&& forall|i: int| 0 <= i < lp.len() ==> group_ok(#[trigger] lp[i])
        &&& tail_parts_ok(rp)
        &&& lp.len() + tail_group_count(rp) <= 7
    }
}

/// The value of v6 address text.
pub open spec fn v6_text_val(s: Seq<char>) -> nat {
    let k = first_dcolon(s);
    if k == -1 {
        tail_parts_val(split_on(s, ':'))
    } else {
        let lp = v6_left_parts(s);
        let rp = v6_right_parts(s);
        groups_value(lp) * pow2((16 * (8 - lp.len())) as nat) + tail_parts_val(rp)
    }
}

/// A dotted quad's value fits 32 bits.
proof fn lemma_v4_val_bound(t: Seq<char>)
    requires
        v4_text_ok(t),
    ensures
        v4_text_val(t) < 0x1_0000_0000,
{
}

/// A hexadecimal group is never a dotted quad.
proof fn lemma_group_not_v4(g: Seq<char>)
    requires
        group_ok(g),
    ensures
        !v4_text_ok(g),
{
    if v4_text_ok(g) {
        crate::text::lemma_split_on_sep(g, '.');
        assert(split_on(g, '.').len() == 4);
        let i = choose|i: int| 0 <= i < g.len() && #[trigger] g[i] == '.';
        assert(is_hex_digit(g[i]));
        assert(false);
    }
}

/// A valid part list of `n` groups values below `2^(16 n)`.
proof fn lemma_tail_parts_bound(ps: Seq<Seq<char>>)
    requires
        tail_parts_ok(ps),
    ensures
        tail_parts_val(ps) < pow2((16 * tail_group_count(ps)) as nat),
{
    if tail_mixed(ps) {
        let hexpart = ps.drop_last();
        assert(forall|i: int|
            0 <= i < hexpart.len() ==> group_ok(#[trigger] hexpart[i])) by {
            assert(forall|i: int| 0 <= i < hexpart.len() ==> hexpart[i] == ps[i]);
        }
        lemma_groups_value_bound(hexpart);
        lemma_v4_val_bound(ps.last());
        let m = groups_value(hexpart);
        let b = pow2((16 * (ps.len() - 1)) as nat);
        assert(pow2((16 * tail_group_count(ps)) as nat) == b * 0x1_0000_0000) by {
            vstd::arithmetic::power2::lemma_pow2_adds((16 * (ps.len() - 1)) as nat, 32);
            vstd::arithmetic::power2::lemma2_to64();
        }
        assert(m * 0x1_0000_0000 + v4_text_val(ps.last()) < b * 0x1_0000_0000)
            by (nonlinear_arith)
            requires
                m < b,
                v4_text_val(ps.last()) < 0x1_0000_0000,
        ;
    } else {
        lemma_groups_value_bound(ps);
    }
}

/// Parse one v6 group.
fn parse_group(p: &Vec<char>) -> (r: Option<u64>)
    ensures
        r is Some <==> group_ok(p@),
        r is Some ==> r->0 as nat == hex_value(p@) && r->0 < 0x10000,
{
    let n = p.len();
    if n < 1 || n > 4 {
        return None;
    }
    let mut acc: u64 = 0;
    let mut i: usize = 0;
    while i < n
        invariant
            i <= n,
            n == p@.len(),
            n <= 4,
            forall|j: int| 0 <= j < i ==> is_hex_digit(#[trigger] p@[j]),
            acc as nat == hex_value(p@.subrange(0, i as int)),
            acc < 0x10000,
        decreases n - i,
    {
        let d = match hex_digit_value(p[i]) {
            Some(d) => d,
            None => {
                return None;
            },
        };
        proof {
            assert(p@.subrange(0, i + 1).drop_last() =~= p@.subrange(0, i as int));
            assert(p@.subrange(0, i + 1).last() == p@[i as int]);
            lemma_hex_value_bound(p@.subrange(0, i as int));
            lemma_pow16_monotone(i as nat, 3);
            assert(pow16(0) == 1);
            assert(pow16(1) == 16);
            assert(pow16(2) == 0x100);
            assert(pow16(3) == 0x1000);
        }
        acc = acc * 16 + d as u64;
        i = i + 1;
    }
    proof {
        assert(p@.subrange(0, n as int) =~= p@);
    }
    Some(acc)
}

/// A list of `n` groups values below `2^(16 n)`.
proof fn lemma_groups_value_bound(ps: Seq<Seq<char>>)
    requires
        forall|i: int| 0 <= i < ps.len() ==> group_ok(#[trigger] ps[i]),
    ensures
        groups_value(ps) < pow2((16 * ps.len()) as nat),
    decreases ps.len(),
{
    vstd::arithmetic::power2::lemma2_to64();
    if ps.len() == 0 {
    } else {
        lemma_groups_value_bound(ps.drop_last());
        let m = groups_value(ps.drop_last());
        let b = pow2((16 * (ps.len() - 1)) as nat);
        lemma_hex_value_bound(ps.last());
        lemma_pow16_monotone(ps.last().len(), 4);
        assert(pow16(4) == 0x10000) by {
            assert(pow16(0) == 1);
            assert(pow16(1) == 16);
            assert(pow16(2) == 0x100);
            assert(pow16(3) == 0x1000);
            assert(pow16(4) == 0x10000);
        }
        assert(hex_value(ps.last()) < 0x10000);
        assert(pow2((16 * ps.len()) as nat) == b * 0x10000) by {
            vstd::arithmetic::power2::lemma_pow2_adds((16 * (ps.len() - 1)) as nat, 16);
            assert(pow2(16) == 0x10000);
        }
        assert(m * 0x10000 + hex_value(ps.last()) < b * 0x10000) by (nonlinear_arith)
            requires
                m < b,
                hex_value(ps.last()) < 0x10000,
        ;
    }
}

/// Parse trailing address parts: hexadecimal groups with an optional dotted
/// quad at the end, as far as they fit one address.
fn parse_tail_parts(parts: Vec<Vec<char>>) -> (r: Option<(u128, usize)>)
    requires
        parts@.len() <= 8,
    ensures
        ({
            let pv = views_of(parts@);
            match r {
                Some((v, cnt)) => tail_parts_ok(pv) && tail_group_count(pv) <= 8 && v as nat
                    == tail_parts_val(pv) && cnt as int == tail_group_count(pv),
                None => !(tail_parts_ok(pv) && tail_group_count(pv) <= 8),
            }
        }),
{
    let ghost pv = views_of(parts@);
    let np = parts.len();
    if np == 0 {
        proof {
            assert(!tail_mixed(pv));
            assert(tail_parts_ok(pv));
            assert(groups_value(pv) == 0);
        }
        return Some((0, 0));
    }
    let mut ps = parts;
    let tail = match ps.pop() {
        Some(t) => t,
        None => {
            proof {
                assert(false);
            }
            Vec::new()
        },
    };
    let ghost hv = views_of(ps@);
    proof {
        assert(hv =~= pv.drop_last());
        assert(tail@ == pv.last());
        assert(forall|i: int| 0 <= i < hv.len() ==> #[trigger] hv[i] == pv[i]);
    }
    match parse_group(&tail) {
        Some(g) => {
            proof {
                lemma_group_not_v4(tail@);
                assert(!tail_mixed(pv));
            }
            let rest = match parse_groups(&ps) {
                Some(v) => v,
                None => {
                    return None;
                },
            };
            proof {
                lemma_groups_value_bound(hv);
                vstd::arithmetic::power2::lemma2_to64();
                lemma_pow2_127();
                vstd::arithmetic::power2::lemma_pow2_unfold(128);
                let b = pow2((16 * (np - 1)) as nat);
                assert(pow2((16 * np) as nat) == b * 0x10000) by {
                    vstd::arithmetic::power2::lemma_pow2_adds((16 * (np - 1)) as nat, 16);
                }
                assert(rest as nat * 0x10000 + g < b * 0x10000) by (nonlinear_arith)
                    requires
                        (rest as nat) < b,
                        g < 0x10000,
                ;
                assert(pow2((16 * np) as nat) <= pow2(128)) by {
                    if ((16 * np) as nat) < 128 {
                        vstd::arithmetic::power2::lemma_pow2_strictly_increases(
                            (16 * np) as nat,
                            128,
                        );
                    }
                }
                assert forall|i: int| 0 <= i < pv.len() implies group_ok(#[trigger] pv[i]) by {
                    if i < pv.len() - 1 {
                        assert(pv[i] == hv[i]);
                    } else {
                        assert(pv[i] == pv.last());
                    }
                }
                assert(tail_parts_ok(pv));
                assert(groups_value(pv) == groups_value(pv.drop_last()) * 0x10000 + hex_value(
                    pv.last(),
                ));
            }
            Some((rest * 0x10000 + g as u128, np))
        },
        None => {
            match parse_ipv4(&tail) {
                Some(v4) => {
                    proof {
                        assert(tail_mixed(pv));
                    }
                    if np > 7 {
                        return None;
                    }
                    let rest = match parse_groups(&ps) {
                        Some(v) => v,
                        None => {
                            return None;
                        },
                    };
                    proof {
                        lemma_groups_value_bound(hv);
                        vstd::arithmetic::power2::lemma2_to64();
                        lemma_pow2_127();
                        vstd::arithmetic::power2::lemma_pow2_unfold(128);
                        let b = pow2((16 * (np - 1)) as nat);
                        assert(pow2((16 * (np + 1)) as nat) == b * 0x1_0000_0000) by {
                            vstd::arithmetic::power2::lemma_pow2_adds(
                                (16 * (np - 1)) as nat,
                                32,
                            );
                        }
                        assert(rest as nat * 0x1_0000_0000 + v4 < b * 0x1_0000_0000)
                            by (nonlinear_arith)
                            requires
                                (rest as nat) < b,
                                v4 < 0x1_0000_0000,
                        ;
                        assert(pow2((16 * (np + 1)) as nat) <= pow2(128)) by {
                            if ((16 * (np + 1)) as nat) < 128 {
                                vstd::arithmetic::power2::lemma_pow2_strictly_increases(
                                    (16 * (np + 1)) as nat,
                                    128,
                                );
                            }
                        }
                        assert forall|i: int| 0 <= i < pv.len() - 1 implies group_ok(
                            #[trigger] pv[i],
                        ) by {
                            assert(pv[i] == hv[i]);
                        }
                        assert(tail_parts_ok(pv));
                    }
                    Some((rest * 0x1_0000_0000 + v4 as u128, np + 1))
                },
                None => {
                    proof {
                        assert(!group_ok(pv.last()) && !v4_text_ok(pv.last()));
                    }
                    None
                },
            }
        },
    }
}

/// Parse v6 address text.
fn parse_ipv6(cs: &Vec<char>) -> (r: Option<u128>)
    ensures
        r is Some <==> v6_text_ok(cs@),
        r is Some ==> r->0 as nat == v6_text_val(cs@),
{
    proof {
        lemma_first_dcolon(cs@);
    }
    let n = cs.len();
    let mut dc: Option<usize> = None;
    let mut i: usize = 0;
    while n >= 2 && i < n - 1 && dc.is_none()
        invariant
            i <= n,
            n == cs@.len(),
            dc is None ==> forall|j: int|
                0 <= j < i ==> !(#[trigger] cs@[j] == ':' && cs@[j + 1] == ':'),
            dc is Some ==> {
                let k = dc->0 as int;
                &&& 0 <= k < n - 1
                &&& cs@[k] == ':' && cs@[k + 1] == ':'
                &&& forall|j: int| 0 <= j < k ==> !(#[trigger] cs@[j] == ':' && cs@[j + 1] == ':')
            },
        decreases n - i + (if dc is None { 1int } else { 0int }),
    {
        if cs[i] == ':' && cs[i + 1] == ':' {
            dc = Some(i);
        } else {
            i = i + 1;
        }
    }
    proof {
        lemma_first_dcolon(cs@);
        match dc {
            Some(k) => {
                if first_dcolon(cs@) == -1 {
                    assert(!(cs@[k as int] == ':' && cs@[k as int + 1] == ':'));
                    assert(false);
                }
                let f = first_dcolon(cs@);
                if f < k as int {
                    assert(!(cs@[f] == ':' && cs@[f + 1] == ':'));
                    assert(false);
                }
                if f > k as int {
                    assert(!(cs@[k as int] == ':' && cs@[k as int + 1] == ':'));
                    assert(false);
                }
                assert(k as int == first_dcolon(cs@));
            },
            None => {
                if first_dcolon(cs@) != -1 {
                    let f = first_dcolon(cs@);
                    assert(!(cs@[f] == ':' && cs@[f + 1] == ':'));
                    assert(false);
                }
            },
        }
    }
    match dc {
        None => {
            let parts = split_chars(cs, ':');
            let ghost pv = views_of(parts@);
            let np = parts.len();
            if np > 8 {
                proof {
                    assert(tail_group_count(pv) >= pv.len());
                }
                return None;
            }
            match parse_tail_parts(parts) {
                None => None,
                Some((v, cnt)) => {
                    if cnt != 8 {
                        return None;
                    }
                    proof {
                        assert(v6_text_ok(cs@));
                        assert(v as nat == v6_text_val(cs@));
                    }
                    Some(v)
                },
            }
        },
        Some(k) => {
            // Left of the `::`.
            let mut left: Vec<char> = Vec::new();
            let mut li: usize = 0;
            while li < k
                invariant
                    li <= k < n,
                    n == cs@.len(),
                    left@ == cs@.subrange(0, li as int),
                decreases k - li,
            {
                left.push(cs[li]);
                li = li + 1;
                proof {
                    assert(cs@.subrange(0, li as int) =~= cs@.subrange(0, li - 1).push(
                        cs@[li - 1],
                    ));
                }
            }
            // Right of the `::`.
            let mut right: Vec<char> = Vec::new();
            let mut ri: usize = k + 2;
            while ri < n
                invariant
                    k + 2 <= ri <= n,
                    n == cs@.len(),
                    right@ == cs@.subrange(k + 2, ri as int),
                decreases n - ri,
            {
                right.push(cs[ri]);
                ri = ri + 1;
                proof {
                    assert(cs@.subrange(k + 2, ri as int) =~= cs@.subrange(k + 2, ri - 1).push(
                        cs@[ri - 1],
                    ));
                }
            }
            proof {
                assert(left@ =~= cs@.take(k as int));
                assert(right@ =~= cs@.skip(k + 2));
            }
            let lparts: Vec<Vec<char>> = if left.len() == 0 {
                Vec::new()
            } else {
                split_chars(&left, ':')
            };
            let rparts: Vec<Vec<char>> = if right.len() == 0 {
                Vec::new()
            } else {
                split_chars(&right, ':')
            };
            let ghost lv = v6_left_parts(cs@);
            let ghost rv = v6_right_parts(cs@);
            proof {
                if left@.len() == 0 {
                    if k == 0 {
                        assert(views_of(lparts@) =~= lv);
                    } else {
                        assert(false);
                    }
                } else {
                    assert(k != 0);
                    assert(views_of(lparts@) == lv);
                }
                if right@.len() == 0 {
                    assert(k + 2 == n);
                    assert(views_of(rparts@) =~= rv);
                } else {
                    assert(k + 2 != n);
                    assert(views_of(rparts@) == rv);
                }
            }
            let nl = lparts.len();
            let nr = rparts.len();
            if nl > 7 {
                proof {
                    assert(tail_group_count(rv) >= 0);
                }
                return None;
            }
            if nr > 7 - nl {
                proof {
                    assert(tail_group_count(rv) >= rv.len());
                }
                return None;
            }
            let lval = match parse_groups(&lparts) {
                Some(v) => v,
                None => {
                    return None;
                },
            };
            let (rval, rcnt) = match parse_tail_parts(rparts) {
                Some(x) => x,
                None => {
                    return None;
                },
            };
            if rcnt > 7 - nl {
                return None;
            }
            proof {
                lemma_groups_value_bound(lv);
                lemma_tail_parts_bound(rv);
                lemma_pow2_127();
                vstd::arithmetic::power2::lemma_pow2_unfold(128);
                vstd::arithmetic::power2::lemma_pow2_adds(
                    (16 * lv.len()) as nat,
                    (16 * (8 - lv.len())) as nat,
                );
                let a = groups_value(lv);
                let pl = pow2((16 * lv.len()) as nat);
                let ph = pow2((16 * (8 - lv.len())) as nat);
                vstd::arithmetic::power2::lemma_pow2_pos((16 * (8 - lv.len())) as nat);
                assert(pow2((16 * tail_group_count(rv)) as nat) <= ph) by {
                    if ((16 * tail_group_count(rv)) as nat) < ((16 * (8 - lv.len())) as nat) {
                        vstd::arithmetic::power2::lemma_pow2_strictly_increases(
                            (16 * tail_group_count(rv)) as nat,
                            (16 * (8 - lv.len())) as nat,
                        );
                    }
                }
                assert(tail_parts_val(rv) < pow2((16 * tail_group_count(rv)) as nat));
                assert(a * ph + pow2((16 * tail_group_count(rv)) as nat) <= pl * ph)
                    by (nonlinear_arith)
                    requires
                        a < pl,
                        pow2((16 * tail_group_count(rv)) as nat) <= ph,
                        ph > 0,
                ;
            }
            if nl == 0 {
                proof {
                    assert(lv.len() == 0);
                    assert(groups_value(lv) == 0);
                    vstd::arithmetic::mul::lemma_mul_basics(
                        pow2((16 * (8 - lv.len())) as nat) as int,
                    );
                    assert(groups_value(lv) * pow2((16 * (8 - lv.len())) as nat) == 0);
                    assert(v6_text_ok(cs@));
                    assert(rval as nat == v6_text_val(cs@));
                }
                Some(rval)
            } else {
                let shift = pow2_u128(16 * (8 - (nl as u8)));
                proof {
                    assert(nl == lv.len());
                    assert(shift as nat == pow2((16 * (8 - lv.len())) as nat));
                    assert(v6_text_ok(cs@));
                    assert((lval * shift + rval) as nat == v6_text_val(cs@));
                }
                Some(lval * shift + rval)
            }
        },
    }
}

/// Parse a list of v6 groups into their combined value.
fn parse_groups(parts: &Vec<Vec<char>>) -> (r: Option<u128>)
    requires
        parts@.len() <= 8,
    ensures
        r is Some <==> forall|i: int|
            0 <= i < parts@.len() ==> group_ok(#[trigger] views_of(parts@)[i]),
        r is Some ==> r->0 as nat == groups_value(views_of(parts@)),
{
    let ghost pv = views_of(parts@);
    let n = parts.len();
    let mut acc: u128 = 0;
    let mut gi: usize = 0;
    proof {
        assert(pv.take(0) =~= Seq::<Seq<char>>::empty());
    }
    while gi < n
        invariant
            gi <= n <= 8,
            n == parts@.len(),
            pv == views_of(parts@),
            forall|j: int| 0 <= j < gi ==> group_ok(#[trigger] pv[j]),
            acc as nat == groups_value(pv.take(gi as int)),
        decreases n - gi,
    {
        let g = match parse_group(&parts[gi]) {
            Some(g) => g,
            None => {
                proof {
                    assert(parts@[gi as int]@ == pv[gi as int]);
                }
                return None;
            },
        };
        proof {
            assert(parts@[gi as int]@ == pv[gi as int]);
            assert(pv.take(gi + 1).drop_last() =~= pv.take(gi as int));
            assert(pv.take(gi + 1).last() == pv[gi as int]);
            assert forall|j: int| 0 <= j < gi + 1 implies group_ok(#[trigger] pv[j]) by {}
            lemma_groups_value_bound(pv.take(gi as int));
            lemma_groups_value_bound(pv.take(gi + 1));
            assert(pv.take(gi + 1).len() == gi + 1);
            vstd::arithmetic::power2::lemma_pow2_adds((16 * (gi as int)) as nat, 16);
            vstd::arithmetic::power2::lemma2_to64();
            lemma_pow2_127();
            vstd::arithmetic::power2::lemma_pow2_unfold(128);
            if 16 * (gi as int) + 16 < 128 {
                vstd::arithmetic::power2::lemma_pow2_strictly_increases(
                    (16 * (gi as int) + 16) as nat,
                    128,
                );
            }
        }
        acc = acc * 0x10000 + g as u128;
        gi = gi + 1;
    }
    proof {
        assert(pv.take(n as int) =~= pv);
    }
    Some(acc)
}

/// Whether text is an address of either family.
pub open spec fn addr_text_ok(s: Seq<char>) -> bool {
    v4_text_ok(s) || v6_text_ok(s)
}

/// Parse address text: dotted-quad v4 first, then v6.
fn parse_ip_address(cs: &Vec<char>) -> (r: Option<IpAddress>)
    ensures
        match r {
            Some(IpAddress::V4(v)) => v4_text_ok(cs@) && v as nat == v4_text_val(cs@),
            Some(IpAddress::V6(v)) => !v4_text_ok(cs@) && v6_text_ok(cs@) && v as nat
                == v6_text_val(cs@),
            None => !addr_text_ok(cs@),
        },
        r is Some <==> addr_text_ok(cs@),
{
    match parse_ipv4(cs) {
        Some(v) => Some(IpAddress::V4(v)),
        None => match parse_ipv6(cs) {
            Some(v) => Some(IpAddress::V6(v)),
            None => None,
        },
    }
}


/// The character of one hexadecimal digit, lowercase.
pub open spec fn hexc(d: nat) -> char {
    if d == 0 { '0' } else if d == 1 { '1' } else if d == 2 { '2' } else if d == 3 { '3' }
    else if d == 4 { '4' } else if d == 5 { '5' } else if d == 6 { '6' } else if d == 7 { '7' }
    else if d == 8 { '8' } else if d == 9 { '9' } else if d == 10 { 'a' } else if d == 11 { 'b' }
    else if d == 12 { 'c' } else if d == 13 { 'd' } else if d == 14 { 'e' } else { 'f' }
}

/// Shortest lowercase hexadecimal text of a value.
pub open spec fn hex_short(n: nat) -> Seq<char>
    decreases n,
{
    if n < 16 {
        seq![hexc(n)]
    } else {
        hex_short(n / 16).push(hexc(n % 16))
    }
}

/// Exec mirror of [`hexc`].
fn hex_digit_lower(d: u64) -> (c: char)
    requires
        d < 16,
    ensures
        c == hexc(d as nat),
{
    if d == 0 { '0' } else if d == 1 { '1' } else if d == 2 { '2' } else if d == 3 { '3' }
    else if d == 4 { '4' } else if d == 5 { '5' } else if d == 6 { '6' } else if d == 7 { '7' }
    else if d == 8 { '8' } else if d == 9 { '9' } else if d == 10 { 'a' } else if d == 11 { 'b' }
    else if d == 12 { 'c' } else if d == 13 { 'd' } else if d == 14 { 'e' } else { 'f' }
}

/// The shortest hexadecimal text of one 16-bit group.
fn hex_short_chars(n: u64) -> (r: Vec<char>)
    requires
        n < 0x10000,
    ensures
        r@ == hex_short(n as nat),
{
    let mut r: Vec<char> = Vec::new();
    proof {
        assert(n as nat / 16 / 16 == n as nat / 256) by {
            vstd::arithmetic::div_mod::lemma_div_denominator(n as int, 16, 16);
        }
        assert(n as nat / 256 / 16 == n as nat / 4096) by {
            vstd::arithmetic::div_mod::lemma_div_denominator(n as int, 256, 16);
        }
        assert(n as nat / 16 / 256 == n as nat / 4096) by {
            vstd::arithmetic::div_mod::lemma_div_denominator(n as int, 16, 256);
        }
    }
    if n >= 4096 {
        r.push(hex_digit_lower(n / 4096));
        r.push(hex_digit_lower((n / 256) % 16));
        r.push(hex_digit_lower((n / 16) % 16));
        r.push(hex_digit_lower(n % 16));
        proof {
            assert(n as nat / 4096 < 16);
            assert(hex_short(n as nat / 4096) == seq![hexc(n as nat / 4096)]);
            assert(hex_short(n as nat / 256) =~= seq![
                hexc(n as nat / 4096),
                hexc((n as nat / 256) % 16),
            ]);
            assert(hex_short(n as nat / 16) =~= hex_short(n as nat / 256).push(
                hexc((n as nat / 16) % 16),
            ));
            assert(r@ =~= hex_short(n as nat));
        }
    } else if n >= 256 {
        r.push(hex_digit_lower(n / 256));
        r.push(hex_digit_lower((n / 16) % 16));
        r.push(hex_digit_lower(n % 16));
        proof {
            assert(n as nat / 256 < 16);
            assert(hex_short(n as nat / 256) == seq![hexc(n as nat / 256)]);
            assert(hex_short(n as nat / 16) =~= seq![
                hexc(n as nat / 256),
                hexc((n as nat / 16) % 16),
            ]);
            assert(r@ =~= hex_short(n as nat));
        }
    } else if n >= 16 {
        r.push(hex_digit_lower(n / 16));
        r.push(hex_digit_lower(n % 16));
        proof {
            assert(hex_short(n as nat / 16) =~= seq![hexc(n as nat / 16)]);
            assert(r@ =~= hex_short(n as nat));
        }
    } else {
        r.push(hex_digit_lower(n));
        proof {
            assert(r@ =~= hex_short(n as nat));
        }
    }
    r
}

/// The `i`-th 16-bit group of a v6 value, big-endian.
pub open spec fn v6_group_at(v: nat, i: int) -> nat {
    (v / pow2((16 * (7 - i)) as nat)) % 0x10000
}

/// The eight groups of a v6 value.
pub open spec fn v6_groups(v: nat) -> Seq<nat> {
    Seq::new(8, |i: int| v6_group_at(v, i))
}

/// Groups joined with `:`, each in shortest hexadecimal form.
pub open spec fn join_groups(gs: Seq<nat>) -> Seq<char>
    decreases gs.len(),
{
    if gs.len() == 0 {
        Seq::empty()
    } else if gs.len() == 1 {
        hex_short(gs[0])
    } else {
        join_groups(gs.drop_last()) + seq![':'] + hex_short(gs.last())
    }
}

/// The leftmost longest run of zero groups, as (start, length): scans left to
/// right, a run replaces the recorded best only when strictly longer.
pub open spec fn best_zero_run(
    gs: Seq<nat>,
    i: int,
    cur_start: int,
    cur_len: int,
    best_start: int,
    best_len: int,
) -> (int, int)
    decreases gs.len() - i,
{
    if i < 0 || i >= gs.len() {
        (best_start, best_len)
    } else if gs[i] == 0 {
        let ncs = if cur_len == 0 {
            i
        } else {
            cur_start
        };
        let ncl = cur_len + 1;
        if ncl > best_len {
            best_zero_run(gs, i + 1, ncs, ncl, ncs, ncl)
        } else {
            best_zero_run(gs, i + 1, ncs, ncl, best_start, best_len)
        }
    } else {
        best_zero_run(gs, i + 1, 0, 0, best_start, best_len)
    }
}

/// The canonical text of a v6 value: shortest groups, the leftmost longest
/// run of at least two zero groups compressed to `::`. Always pure
/// hexadecimal groups: a dotted-quad tail is read on input, never written.
pub open spec fn v6_chars(v: nat) -> Seq<char> {
    let gs = v6_groups(v);
    let (bs, bl) = best_zero_run(gs, 0, 0, 0, 0, 0);
    if bl >= 2 {
        join_groups(gs.take(bs)) + seq![':', ':'] + join_groups(gs.skip(bs + bl))
    } else {
        join_groups(gs)
    }
}

/// Join a slice of the groups, mirroring [`join_groups`].
fn join_group_range(gs: &Vec<u64>, from: usize, to: usize, out: &mut Vec<char>)
    requires
        from <= to <= gs@.len(),
        forall|i: int| 0 <= i < gs@.len() ==> (#[trigger] gs@[i]) < 0x10000,
    ensures
        final(out)@ == old(out)@ + join_groups(
            gs@.map_values(|g: u64| g as nat).subrange(from as int, to as int),
        ),
{
    let ghost vals = gs@.map_values(|g: u64| g as nat);
    let ghost base = out@;
    let mut i: usize = from;
    proof {
        assert(vals.subrange(from as int, from as int) =~= Seq::<nat>::empty());
        assert(out@ =~= base + join_groups(vals.subrange(from as int, from as int)));
    }
    while i < to
        invariant
            from <= i <= to <= gs@.len(),
            vals == gs@.map_values(|g: u64| g as nat),
            forall|j: int| 0 <= j < gs@.len() ==> (#[trigger] gs@[j]) < 0x10000,
            out@ == base + join_groups(vals.subrange(from as int, i as int)),
        decreases to - i,
    {
        if i > from {
            out.push(':');
        }
        let h = hex_short_chars(gs[i]);
        let mut k: usize = 0;
        let ghost mid = out@;
        while k < h.len()
            invariant
                k <= h@.len(),
                out@ == mid + h@.subrange(0, k as int),
            decreases h@.len() - k,
        {
            out.push(h[k]);
            k = k + 1;
            proof {
                assert(mid + h@.subrange(0, k as int) =~= (mid + h@.subrange(0, k - 1)).push(
                    h@[k - 1],
                ));
            }
        }
        proof {
            assert(h@.subrange(0, h@.len() as int) =~= h@);
            assert(vals.subrange(from as int, i + 1).drop_last() =~= vals.subrange(
                from as int,
                i as int,
            ));
            assert(vals.subrange(from as int, i + 1).last() == vals[i as int]);
            assert(vals[i as int] == gs@[i as int] as nat);
            if i == from {
                assert(vals.subrange(from as int, i + 1).len() == 1);
                assert(join_groups(vals.subrange(from as int, i + 1)) == hex_short(
                    vals[i as int],
                ));
                assert(out@ =~= base + join_groups(vals.subrange(from as int, i + 1)));
            } else {
                assert(out@ =~= base + join_groups(vals.subrange(from as int, i + 1)));
            }
        }
        i = i + 1;
    }
}

/// The canonical text of a v6 address value.
fn format_v6(v: u128) -> (r: Vec<char>)
    ensures
        r@ == v6_chars(v as nat),
{
    let ghost gspec = v6_groups(v as nat);
    let mut gs: Vec<u64> = Vec::new();
    let mut i: usize = 0;
    while i < 8
        invariant
            i <= 8,
            gs@.len() == i,
            forall|j: int| 0 <= j < i ==> (#[trigger] gs@[j]) as nat == v6_group_at(v as nat, j),
            forall|j: int| 0 <= j < i ==> (#[trigger] gs@[j]) < 0x10000,
        decreases 8 - i,
    {
        let p = pow2_u128(16 * (7 - (i as u8)));
        proof {
            vstd::arithmetic::power2::lemma_pow2_pos((16 * (7 - i)) as nat);
        }
        let g = (v / p) % 0x10000;
        proof {
            assert(g as nat == v6_group_at(v as nat, i as int));
        }
        gs.push(low_u64_of_u128(g));
        i = i + 1;
    }
    proof {
        assert(gs@.map_values(|g: u64| g as nat) =~= gspec);
    }
    // Find the leftmost longest run of zero groups.
    let mut cur_start: usize = 0;
    let mut cur_len: usize = 0;
    let mut best_start: usize = 0;
    let mut best_len: usize = 0;
    let mut k: usize = 0;
    while k < 8
        invariant
            k <= 8,
            gs@.len() == 8,
            gs@.map_values(|g: u64| g as nat) == gspec,
            cur_start + cur_len <= k && best_start + best_len <= 8,
            cur_len <= k && best_len <= 8,
            best_zero_run(
                gspec,
                k as int,
                cur_start as int,
                cur_len as int,
                best_start as int,
                best_len as int,
            ) == best_zero_run(gspec, 0, 0, 0, 0, 0),
        decreases 8 - k,
    {
        proof {
            assert(gspec[k as int] == gs@[k as int] as nat);
        }
        if gs[k] == 0 {
            if cur_len == 0 {
                cur_start = k;
            }
            cur_len = cur_len + 1;
            if cur_len > best_len {
                best_start = cur_start;
                best_len = cur_len;
            }
        } else {
            cur_start = 0;
            cur_len = 0;
        }
        k = k + 1;
    }
    let mut out: Vec<char> = Vec::new();
    if best_len >= 2 {
        join_group_range(&gs, 0, best_start, &mut out);
        out.push(':');
        out.push(':');
        let ghost before_tail = out@;
        join_group_range(&gs, best_start + best_len, 8, &mut out);
        proof {
            assert(gspec.take(best_start as int) =~= gspec.subrange(0, best_start as int));
            assert(gspec.skip(best_start + best_len) =~= gspec.subrange(
                best_start + best_len,
                8,
            ));
            assert(out@ =~= v6_chars(v as nat));
        }
    } else {
        join_group_range(&gs, 0, 8, &mut out);
        proof {
            assert(gspec.subrange(0, 8) =~= gspec);
        }
    }
    out
}

/// The dotted-quad text of a v4 address value.
pub open spec fn v4_chars(v: nat) -> Seq<char> {
    crate::text::dec_chars((v / 0x100_0000) % 256) + seq!['.'] + crate::text::dec_chars(
        (v / 0x1_0000) % 256,
    ) + seq!['.'] + crate::text::dec_chars((v / 0x100) % 256) + seq!['.'] + crate::text::dec_chars(
        v % 256,
    )
}

/// The dotted-quad text of a v4 address.
fn format_v4(v: u32) -> (r: Vec<char>)
    ensures
        r@ == v4_chars(v as nat),
{
    let b0 = low_byte((v as u64 / 0x100_0000) % 256);
    let b1 = low_byte((v as u64 / 0x1_0000) % 256);
    let b2 = low_byte((v as u64 / 0x100) % 256);
    let b3 = low_byte(v as u64 % 256);
    let mut out: Vec<char> = Vec::new();
    let p0 = crate::text::format_u8_decimal(b0);
    let p1 = crate::text::format_u8_decimal(b1);
    let p2 = crate::text::format_u8_decimal(b2);
    let p3 = crate::text::format_u8_decimal(b3);
    push_chars(&mut out, &p0);
    out.push('.');
    push_chars(&mut out, &p1);
    out.push('.');
    push_chars(&mut out, &p2);
    out.push('.');
    push_chars(&mut out, &p3);
    proof {
        assert(out@ =~= v4_chars(v as nat));
    }
    out
}

/// Append every character of `src` to `dst`.
fn push_chars(dst: &mut Vec<char>, src: &Vec<char>)
    ensures
        final(dst)@ == old(dst)@ + src@,
{
    let mut i: usize = 0;
    while i < src.len()
        invariant
            i <= src@.len(),
            dst@ == old(dst)@ + src@.subrange(0, i as int),
        decreases src@.len() - i,
    {
        dst.push(src[i]);
        i = i + 1;
        proof {
            assert(old(dst)@ + src@.subrange(0, i as int) =~= (old(dst)@ + src@.subrange(
                0,
                i - 1,
            )).push(src@[i - 1]));
        }
    }
    proof {
        assert(src@.subrange(0, src@.len() as int) =~= src@);
    }
}

/// A 128-bit value below `2^64`, narrowed.
fn low_u64_of_u128(x: u128) -> (r: u64)
    requires
        x < 0x1_0000_0000_0000_0000,
    ensures
        r as u128 == x,
{
    proof {
        assert((x as u64) as u128 == x) by (bit_vector)
            requires
                x < 0x1_0000_0000_0000_0000,
        ;
    }
    x as u64
}

/// The text of an address, canonical per family.
pub open spec fn addr_chars(a: IpAddress) -> Seq<char> {
    match a {
        IpAddress::V4(v) => v4_chars(v as nat),
        IpAddress::V6(v) => v6_chars(v as nat),
    }
}

/// The text of a network: its address, `/`, its prefix length in decimal.
pub open spec fn net_chars(n: IpNetwork) -> Seq<char> {
    addr_chars(n.addr) + seq!['/'] + crate::text::dec_chars(n.prefix as nat)
}

/// Format an address.
fn format_addr(a: &IpAddress) -> (r: Vec<char>)
    ensures
        r@ == addr_chars(*a),
{
    match a {
        IpAddress::V4(v) => format_v4(*v),
        IpAddress::V6(v) => format_v6(*v),
    }
}

/// Format a network.
fn format_net(n: &IpNetwork) -> (r: Vec<char>)
    ensures
        r@ == net_chars(*n),
{
    let mut out = format_addr(&n.addr);
    out.push('/');
    let d = crate::text::format_u8_decimal(n.prefix);
    push_chars(&mut out, &d);
    proof {
        assert(out@ =~= net_chars(*n));
    }
    out
}


/// An address value `a` is what address text `t` denotes: dotted-quad first,
/// v6 otherwise.
pub open spec fn addr_matches_text(a: IpAddress, t: Seq<char>) -> bool {
    match a {
        IpAddress::V4(v) => v4_text_ok(t) && v as nat == v4_text_val(t),
        IpAddress::V6(v) => !v4_text_ok(t) && v6_text_ok(t) && v as nat == v6_text_val(t),
    }
}

/// Position of the `/` in CIDR text.
pub open spec fn net_slash(s: Seq<char>) -> int {
    first_index_of(s, '/')
}

/// The address portion of CIDR text.
pub open spec fn net_addr_text(s: Seq<char>) -> Seq<char> {
    s.take(net_slash(s))
}

/// The prefix-length portion of CIDR text.
pub open spec fn net_len_text(s: Seq<char>) -> Seq<char> {
    s.skip(net_slash(s) + 1)
}

/// The family width the address portion implies.
pub open spec fn net_family_bits(s: Seq<char>) -> nat {
    if v4_text_ok(net_addr_text(s)) {
        32
    } else {
        128
    }
}

/// Whether text is a CIDR network: address, `/`, decimal prefix length within
/// the family's width.
pub open spec fn net_text_ok(s: Seq<char>) -> bool {
    &&& net_slash(s) != -1
    &&& addr_text_ok(net_addr_text(s))
    &&& net_len_text(s).len() > 0
    &&& forall|i: int| 0 <= i < net_len_text(s).len() ==> is_dec_digit(#[trigger] net_len_text(s)[i])
    &&& dec_value(net_len_text(s)) <= 255
    &&& dec_value(net_len_text(s)) <= net_family_bits(s)
}

/// Whether text is an address or a CIDR network.
pub open spec fn una_text_ok(s: Seq<char>) -> bool {
    addr_text_ok(s) || net_text_ok(s)
}

/// A network value `n` is what CIDR text `s` denotes.
pub open spec fn net_matches_text(n: IpNetwork, s: Seq<char>) -> bool {
    &&& addr_matches_text(n.addr, net_addr_text(s))
    &&& n.prefix as nat == dec_value(net_len_text(s))
}

/// Parse CIDR text into a network.
fn parse_net_text(cs: &Vec<char>) -> (r: Option<IpNetwork>)
    ensures
        r is Some <==> net_text_ok(cs@),
        r is Some ==> net_matches_text(r->0, cs@) && net_wf(r->0),
{
    let k = match crate::text::find_char(cs, '/') {
        None => {
            proof {
                lemma_first_index_of(cs@, '/');
            }
            return None;
        },
        Some(k) => k,
    };
    proof {
        lemma_first_index_of(cs@, '/');
    }
    let n = cs.len();
    let mut ac: Vec<char> = Vec::new();
    let mut i: usize = 0;
    while i < k
        invariant
            i <= k < n,
            n == cs@.len(),
            ac@ == cs@.subrange(0, i as int),
        decreases k - i,
    {
        ac.push(cs[i]);
        i = i + 1;
        proof {
            assert(cs@.subrange(0, i as int) =~= cs@.subrange(0, i - 1).push(cs@[i - 1]));
        }
    }
    proof {
        assert(ac@ =~= net_addr_text(cs@));
    }
    let a = match parse_ip_address(&ac) {
        None => {
            return None;
        },
        Some(a) => a,
    };
    proof {
        assert(cs@.subrange(k + 1, n as int) =~= net_len_text(cs@));
    }
    let plen = match parse_u8_decimal(cs, k + 1, n) {
        None => {
            return None;
        },
        Some(p) => p,
    };
    let bits: u8 = match a {
        IpAddress::V4(_) => 32,
        IpAddress::V6(_) => 128,
    };
    if plen > bits {
        return None;
    }
    Some(IpNetwork { addr: a, prefix: plen })
}

impl UserNetAddr {
    /// Parse text as an address first, else as a CIDR network; neither is an
    /// error carrying the text.
    pub fn from_str(s: &str) -> (r: Result<UserNetAddr, InetError>)
        ensures
            match r {
                Ok(UserNetAddr::Address(a)) => addr_matches_text(a, s@),
                Ok(UserNetAddr::Network(n)) => !addr_text_ok(s@) && net_text_ok(s@)
                    && net_matches_text(n, s@) && net_wf(n),
                Err(InetError::BadAddress(m)) => m@ == s@ && !una_text_ok(s@),
                Err(_) => false,
            },
            r is Ok <==> una_text_ok(s@),
    {
        let cs = str_chars(s);
        match parse_ip_address(&cs) {
            Some(a) => Ok(UserNetAddr::Address(a)),
            None => match parse_net_text(&cs) {
                Some(n) => Ok(UserNetAddr::Network(n)),
                None => Err(InetError::BadAddress(s.to_owned())),
            },
        }
    }
}

/// The contiguous mask whose leading `p` bits are ones, over a `bits`-wide
/// family.
pub open spec fn prefix_mask(p: nat, bits: nat) -> nat {
    (pow2(bits) - pow2((bits - p) as nat)) as nat
}

/// Whether an address value is a contiguous mask of its family.
pub open spec fn is_mask(a: IpAddress) -> bool {
    exists|p: nat| p <= addr_bits(a) && addr_val(a) == #[trigger] prefix_mask(p, addr_bits(a))
}

/// Convert a dotted or grouped mask address into its prefix length; `None`
/// exactly when the bit pattern is not contiguous.
pub fn mask_to_prefix(a: &IpAddress) -> (r: Option<u8>)
    ensures
        r is Some <==> is_mask(*a),
        r is Some ==> r->0 as nat <= addr_bits(*a) && addr_val(*a) == prefix_mask(
            r->0 as nat,
            addr_bits(*a),
        ),
{
    match a {
        IpAddress::V4(v) => {
            proof {
                vstd::arithmetic::power2::lemma2_to64();
            }
            let mut p: u8 = 0;
            while p <= 32
                invariant
                    p <= 33,
                    *a == IpAddress::V4(*v),
                    forall|q: nat| q < p ==> (*v) as nat != #[trigger] prefix_mask(q, 32),
                decreases 33 - p,
            {
                proof {
                    vstd::arithmetic::power2::lemma2_to64();
                    vstd::arithmetic::power2::lemma_pow2_pos((32 - p) as nat);
                    if ((32 - p) as nat) < 32 {
                        vstd::arithmetic::power2::lemma_pow2_strictly_increases(
                            (32 - p) as nat,
                            32,
                        );
                    }
                }
                let m64 = 0x1_0000_0000u64 - pow2_u64(32 - p);
                let m = low_u32(m64);
                if *v == m {
                    proof {
                        assert((*v) as nat == prefix_mask(p as nat, 32));
                        assert(addr_bits(*a) == 32 && addr_val(*a) == (*v) as nat);
                        assert(addr_val(*a) == prefix_mask(p as nat, addr_bits(*a)));
                        assert(is_mask(*a));
                    }
                    return Some(p);
                }
                p = p + 1;
            }
            proof {
                if is_mask(*a) {
                    let q = choose|q: nat|
                        q <= addr_bits(*a) && addr_val(*a) == #[trigger] prefix_mask(
                            q,
                            addr_bits(*a),
                        );
                    assert((*v) as nat != prefix_mask(q, 32));
                }
            }
            None
        },
        IpAddress::V6(v) => {
            proof {
                lemma_pow2_127();
                vstd::arithmetic::power2::lemma_pow2_unfold(128);
            }
            let mut p: u8 = 0;
            while p <= 128
                invariant
                    p <= 129,
                    *a == IpAddress::V6(*v),
                    forall|q: nat| q < p ==> (*v) as nat != #[trigger] prefix_mask(q, 128),
                decreases 129 - p,
            {
                proof {
                    lemma_pow2_127();
                    vstd::arithmetic::power2::lemma_pow2_unfold(128);
                    vstd::arithmetic::power2::lemma_pow2_pos((128 - p) as nat);
                    if ((128 - p) as nat) < 128 {
                        vstd::arithmetic::power2::lemma_pow2_strictly_increases(
                            (128 - p) as nat,
                            128,
                        );
                    }
                }
                let m: u128 = if p == 0 {
                    0
                } else {
                    0xffff_ffff_ffff_ffff_ffff_ffff_ffff_ffffu128 - (pow2_u128(128 - p) - 1)
                };
                if *v == m {
                    proof {
                        assert(pow2(128) == 0x1_0000_0000_0000_0000_0000_0000_0000_0000);
                        assert((*v) as nat == prefix_mask(p as nat, 128));
                        assert(addr_bits(*a) == 128 && addr_val(*a) == (*v) as nat);
                        assert(addr_val(*a) == prefix_mask(p as nat, addr_bits(*a)));
                        assert(is_mask(*a));
                    }
                    return Some(p);
                }
                p = p + 1;
            }
            proof {
                if is_mask(*a) {
                    let q = choose|q: nat|
                        q <= addr_bits(*a) && addr_val(*a) == #[trigger] prefix_mask(
                            q,
                            addr_bits(*a),
                        );
                    assert((*v) as nat != prefix_mask(q, 128));
                }
            }
            None
        },
    }
}

/// The prefix length a contiguous mask address denotes.
pub open spec fn mask_prefix_of(a: IpAddress) -> nat {
    choose|p: nat| p <= addr_bits(a) && addr_val(a) == #[trigger] prefix_mask(p, addr_bits(a))
}

/// The views of optional text.
pub open spec fn opt_view(m: Option<&str>) -> Option<Seq<char>> {
    match m {
        Some(t) => Some(t@),
        None => None,
    }
}

/// Whether a subnet field and mask field can normalise at all.
pub open spec fn normalizable(sub: Seq<char>, mask: Option<Seq<char>>) -> bool {
    net_text_ok(sub) || (mask is Some && addr_text_ok(sub) && addr_text_ok(mask->0) && exists|
        m: IpAddress,
    |
        #[trigger] addr_matches_text(m, mask->0) && is_mask(m) && mask_prefix_of(m) <= (
        if v4_text_ok(sub) {
            32nat
        } else {
            128nat
        }))
}

/// The network a subnet field and mask field denote.
pub open spec fn norm_net_ok(sub: Seq<char>, mask: Option<Seq<char>>, n: IpNetwork) -> bool {
    net_wf(n) && {
        ||| (net_text_ok(sub) && net_matches_text(n, sub))
        ||| {
            &&& !net_text_ok(sub)
            &&& mask is Some
            &&& addr_matches_text(n.addr, sub)
            &&& exists|m: IpAddress|
                #[trigger] addr_matches_text(m, mask->0) && is_mask(m) && prefix_mask(
                    n.prefix as nat,
                    addr_bits(m),
                ) == addr_val(m)
        }
    }
}

/// A caller value `u` is what text `s` denotes.
pub open spec fn una_matches_text(u: UserNetAddr, s: Seq<char>) -> bool {
    match u {
        UserNetAddr::Address(a) => addr_matches_text(a, s),
        UserNetAddr::Network(n) => !addr_text_ok(s) && net_text_ok(s) && net_matches_text(n, s)
            && net_wf(n),
    }
}

/// Reconcile a subnet field and an optional mask field into one network:
/// CIDR text short-circuits; otherwise the subnet must be a bare address and
/// the mask a contiguous mask address whose prefix length fits the subnet's
/// family.
pub fn normalize_mask(subnet: Option<&str>, mask: Option<&str>) -> (r: Result<
    Option<IpNetwork>,
    InetError,
>)
    ensures
        match r {
            Ok(None) => subnet is None,
            Ok(Some(n)) => subnet is Some && norm_net_ok(subnet->0@, opt_view(mask), n),
            Err(InetError::BadAddress(t)) => {
                &&& subnet is Some
                &&& !net_text_ok(subnet->0@)
                &&& (t@ == subnet->0@ && (mask is None || !addr_text_ok(subnet->0@)) || (mask
                    is Some && t@ == mask->0@ && !addr_text_ok(mask->0@)))
            },
            Err(InetError::PrefixLength) => {
                &&& subnet is Some && mask is Some
                &&& !net_text_ok(subnet->0@)
                &&& addr_text_ok(subnet->0@) && addr_text_ok(mask->0@)
                &&& exists|m: IpAddress|
                    #[trigger] addr_matches_text(m, mask->0@) && (!is_mask(m) || mask_prefix_of(m)
                        > (if v4_text_ok(subnet->0@) {
                        32nat
                    } else {
                        128nat
                    }))
            },
            Err(_) => false,
        },
        r is Ok <==> (subnet is None || normalizable(subnet->0@, opt_view(mask))),
{
    let st = match subnet {
        None => {
            return Ok(None);
        },
        Some(st) => st,
    };
    let scs = str_chars(st);
    match parse_net_text(&scs) {
        Some(n) => {
            proof {
                assert(norm_net_ok(st@, opt_view(mask), n));
            }
            return Ok(Some(n));
        },
        None => {},
    }
    // Not CIDR text: need a bare address plus a mask.
    let mt = match mask {
        None => {
            return Err(InetError::BadAddress(st.to_owned()));
        },
        Some(mt) => mt,
    };
    let a = match parse_ip_address(&scs) {
        None => {
            return Err(InetError::BadAddress(st.to_owned()));
        },
        Some(a) => a,
    };
    let mcs = str_chars(mt);
    let m = match parse_ip_address(&mcs) {
        None => {
            return Err(InetError::BadAddress(mt.to_owned()));
        },
        Some(m) => m,
    };
    let p = match mask_to_prefix(&m) {
        None => {
            proof {
                assert(addr_matches_text(m, mt@) && !is_mask(m));
                assert forall|m2: IpAddress| #[trigger] addr_matches_text(m2, mt@) implies m2
                    == m by {}
            }
            proof {
                assert(opt_view(mask) == Some(mt@));
                assert(addr_matches_text(m, opt_view(mask)->0));
            }
            return Err(InetError::PrefixLength);
        },
        Some(p) => p,
    };
    proof {
        assert(addr_val(m) == prefix_mask(p as nat, addr_bits(m)));
        assert(mask_prefix_of(m) == p as nat) by {
            lemma_prefix_mask_injective(m, p as nat);
        }
    }
    let bits: u8 = match a {
        IpAddress::V4(_) => 32,
        IpAddress::V6(_) => 128,
    };
    if p > bits {
        proof {
            assert(addr_matches_text(m, mt@));
            assert(opt_view(mask) == Some(mt@));
            assert(addr_matches_text(m, opt_view(mask)->0));
            assert forall|m2: IpAddress| #[trigger] addr_matches_text(m2, mt@) implies m2 == m by {}
            assert forall|m2: IpAddress| #[trigger] addr_matches_text(m2, opt_view(mask)->0)
                implies m2 == m by {}
        }
        return Err(InetError::PrefixLength);
    }
    let out = IpNetwork { addr: a, prefix: p };
    proof {
        assert(opt_view(mask) == Some(mt@));
        assert(addr_matches_text(m, opt_view(mask)->0));
        assert(prefix_mask(out.prefix as nat, addr_bits(m)) == addr_val(m));
        assert(norm_net_ok(st@, opt_view(mask), out));
        assert(normalizable(st@, opt_view(mask))) by {
            assert(mask_prefix_of(m) == p as nat);
            assert(addr_text_ok(st@) && addr_text_ok(mt@));
        }
    }
    Ok(Some(out))
}

/// A contiguous mask determines its prefix length uniquely.
proof fn lemma_prefix_mask_injective(a: IpAddress, p: nat)
    requires
        p <= addr_bits(a),
        addr_val(a) == prefix_mask(p, addr_bits(a)),
    ensures
        mask_prefix_of(a) == p,
{
    assert(addr_val(a) == prefix_mask(p, addr_bits(a)));
    assert(exists|q: nat| q <= addr_bits(a) && addr_val(a) == #[trigger] prefix_mask(q, addr_bits(a)));
    let q = mask_prefix_of(a);
    assert(q <= addr_bits(a) && addr_val(a) == prefix_mask(q, addr_bits(a)));
    assert(q <= addr_bits(a) && addr_val(a) == prefix_mask(q, addr_bits(a)));
    if q != p {
        let bits = addr_bits(a);
        vstd::arithmetic::power2::lemma_pow2_pos((bits - p) as nat);
        vstd::arithmetic::power2::lemma_pow2_pos((bits - q) as nat);
        vstd::arithmetic::power2::lemma_pow2_pos(bits);
        assert(prefix_mask(q, bits) == prefix_mask(p, bits));
        if p < q {
            vstd::arithmetic::power2::lemma_pow2_strictly_increases(
                (bits - q) as nat,
                (bits - p) as nat,
            );
        } else {
            vstd::arithmetic::power2::lemma_pow2_strictly_increases(
                (bits - p) as nat,
                (bits - q) as nat,
            );
        }
        assert(pow2((bits - q) as nat) != pow2((bits - p) as nat));
        assert(pow2((bits - p) as nat) <= pow2(bits)) by {
            if ((bits - p) as nat) < bits {
                vstd::arithmetic::power2::lemma_pow2_strictly_increases((bits - p) as nat, bits);
            }
        }
        assert(pow2((bits - q) as nat) <= pow2(bits)) by {
            if ((bits - q) as nat) < bits {
                vstd::arithmetic::power2::lemma_pow2_strictly_increases((bits - q) as nat, bits);
            }
        }
        assert(false);
    }
}

/// Truncating a network's truncation changes nothing: the promised
/// idempotence of truncation.
pub proof fn lemma_network_trunc_idempotent(n: IpNetwork, t: IpNetwork)
    requires
        net_wf(n),
        same_family(n.addr, t.addr),
        t.prefix == n.prefix,
        addr_val(t.addr) == net_trunc_val(n),
    ensures
        net_trunc_val(t) == addr_val(t.addr),
{
    lemma_trunc_bits_idempotent(addr_val(n.addr), (addr_bits(n.addr) - n.prefix) as nat);
}


/// The big-endian value of a byte string.
pub open spec fn be_value(bs: Seq<u8>) -> nat
    decreases bs.len(),
{
    if bs.len() == 0 {
        0
    } else {
        be_value(bs.drop_last()) * 256 + bs.last() as nat
    }
}

/// A string of `n` bytes values below `2^(8 n)`.
proof fn lemma_be_value_bound(bs: Seq<u8>)
    ensures
        be_value(bs) < pow2((8 * bs.len()) as nat),
    decreases bs.len(),
{
    vstd::arithmetic::power2::lemma2_to64();
    if bs.len() > 0 {
        lemma_be_value_bound(bs.drop_last());
        let m = be_value(bs.drop_last());
        let b = pow2((8 * (bs.len() - 1)) as nat);
        assert(pow2((8 * bs.len()) as nat) == b * 256) by {
            vstd::arithmetic::power2::lemma_pow2_adds((8 * (bs.len() - 1)) as nat, 8);
            assert(pow2(8) == 256);
        }
        assert(m * 256 + bs.last() < b * 256) by (nonlinear_arith)
            requires
                m < b,
                bs.last() < 256,
        ;
    }
}

/// The big-endian value of `b[from..to]`, at most sixteen bytes.
fn be_value_of(b: &Vec<u8>, from: usize, to: usize) -> (r: u128)
    requires
        from <= to <= b@.len(),
        to - from <= 16,
    ensures
        r as nat == be_value(b@.subrange(from as int, to as int)),
{
    let ghost t = b@.subrange(from as int, to as int);
    let mut acc: u128 = 0;
    let mut i: usize = from;
    proof {
        assert(t.subrange(0, 0) =~= Seq::<u8>::empty());
    }
    while i < to
        invariant
            from <= i <= to <= b@.len(),
            to - from <= 16,
            t == b@.subrange(from as int, to as int),
            acc as nat == be_value(t.subrange(0, i - from)),
        decreases to - i,
    {
        proof {
            assert(t.subrange(0, i - from + 1).drop_last() =~= t.subrange(0, i - from));
            assert(t.subrange(0, i - from + 1).last() == t[i - from]);
            assert(t[i - from] == b@[i as int]);
            lemma_be_value_bound(t.subrange(0, i - from));
            vstd::arithmetic::power2::lemma_pow2_adds((8 * (i - from)) as nat, 8);
            vstd::arithmetic::power2::lemma2_to64();
            lemma_pow2_127();
            vstd::arithmetic::power2::lemma_pow2_unfold(128);
            if 8 * (i - from) + 8 < 128 {
                vstd::arithmetic::power2::lemma_pow2_strictly_increases(
                    (8 * (i - from) + 8) as nat,
                    128,
                );
            }
        }
        acc = acc * 256 + (b[i] as u128);
        i = i + 1;
    }
    proof {
        assert(t.subrange(0, to - from) =~= t);
    }
    acc
}

/// Append the `n`-byte big-endian form of `v`.
fn push_be_bytes(out: &mut Vec<u8>, v: u128, n: u8)
    requires
        n <= 16,
        (v as nat) < pow2((8 * (n as nat)) as nat),
    ensures
        final(out)@.len() == old(out)@.len() + n,
        final(out)@.subrange(0, old(out)@.len() as int) == old(out)@,
        be_value(final(out)@.subrange(old(out)@.len() as int, final(out)@.len() as int)) == v,
{
    let ghost base = out@;
    let mut i: u8 = 0;
    proof {
        assert(out@.subrange(base.len() as int, base.len() as int) =~= Seq::<u8>::empty());
        vstd::arithmetic::div_mod::lemma_basic_div(v as int, pow2((8 * (n as nat)) as nat) as int);
        vstd::arithmetic::power2::lemma_pow2_pos((8 * (n as nat)) as nat);
    }
    while i < n
        invariant
            i <= n <= 16,
            out@.len() == base.len() + i,
            out@.subrange(0, base.len() as int) == base,
            be_value(out@.subrange(base.len() as int, out@.len() as int)) == v as nat / pow2(
                (8 * ((n - i) as nat)) as nat,
            ),
        decreases n - i,
    {
        let p = pow2_u128(8 * ((n - 1 - i) as u8));
        proof {
            vstd::arithmetic::power2::lemma_pow2_pos((8 * ((n - 1 - i) as nat)) as nat);
        }
        let byte = low_byte_u128((v / p) % 256);
        let ghost prev = out@.subrange(base.len() as int, out@.len() as int);
        out.push(byte);
        proof {
            let cur = out@.subrange(base.len() as int, out@.len() as int);
            assert(cur.drop_last() =~= prev);
            assert(cur.last() == byte);
            assert(out@.subrange(0, base.len() as int) =~= base);
            let pd = pow2((8 * ((n - 1 - i) as nat)) as nat);
            let a = v as nat / pd;
            assert(pow2((8 * ((n - i) as nat)) as nat) == 256 * pd) by {
                vstd::arithmetic::power2::lemma_pow2_adds(8, (8 * ((n - 1 - i) as nat)) as nat);
                vstd::arithmetic::power2::lemma2_to64();
            }
            assert(v as nat / pow2((8 * ((n - i) as nat)) as nat) == a / 256) by {
                vstd::arithmetic::div_mod::lemma_div_denominator(v as int, pd as int, 256);
                vstd::arithmetic::mul::lemma_mul_is_commutative(pd as int, 256);
            }
            assert((a / 256) * 256 + a % 256 == a) by {
                vstd::arithmetic::div_mod::lemma_fundamental_div_mod(a as int, 256);
            }
            assert(byte as nat == a % 256);
            assert(be_value(cur) == a);
        }
        i = i + 1;
    }
    proof {
        assert(pow2(0) == 1) by {
            vstd::arithmetic::power2::lemma2_to64();
        }
        assert(v as nat / 1 == v as nat) by {
            vstd::arithmetic::div_mod::lemma_div_basics(v as int);
        }
    }
}

impl UserNetAddr {
    /// The compact binary form: the address's big-endian octets, and for a
    /// network one trailing prefix-length byte.
    pub fn to_binary(&self) -> (r: Vec<u8>)
        ensures
            match *self {
                UserNetAddr::Address(a) => r@.len() == addr_bits(a) / 8 && be_value(r@)
                    == addr_val(a),
                UserNetAddr::Network(n) => {
                    &&& r@.len() == addr_bits(n.addr) / 8 + 1
                    &&& be_value(r@.drop_last()) == addr_val(n.addr)
                    &&& r@.last() == n.prefix
                },
            },
    {
        let mut out: Vec<u8> = Vec::new();
        let (a, plen): (IpAddress, Option<u8>) = match self {
            UserNetAddr::Address(a) => (*a, None),
            UserNetAddr::Network(n) => (n.addr, Some(n.prefix)),
        };
        match a {
            IpAddress::V4(v) => {
                proof {
                    vstd::arithmetic::power2::lemma2_to64();
                }
                push_be_bytes(&mut out, v as u128, 4);
            },
            IpAddress::V6(v) => {
                proof {
                    lemma_pow2_127();
                    vstd::arithmetic::power2::lemma_pow2_unfold(128);
                }
                push_be_bytes(&mut out, v, 16);
            },
        }
        proof {
            assert(out@.subrange(0, out@.len() as int) =~= out@);
        }
        match plen {
            None => out,
            Some(p) => {
                let ghost before = out@;
                out.push(p);
                proof {
                    assert(out@.drop_last() =~= before);
                }
                out
            },
        }
    }

    /// Decode the compact binary form: 4 or 16 address bytes, optionally one
    /// trailing prefix-length byte.
    pub fn from_blob(b: &Vec<u8>) -> (r: Result<UserNetAddr, InetError>)
        ensures
            match r {
                Ok(UserNetAddr::Address(IpAddress::V4(v))) => b@.len() == 4 && v as nat == be_value(
                    b@,
                ),
                Ok(UserNetAddr::Address(IpAddress::V6(v))) => b@.len() == 16 && v as nat
                    == be_value(b@),
                Ok(UserNetAddr::Network(n)) => {
                    &&& (b@.len() == 5 || b@.len() == 17)
                    &&& (b@.len() == 5 ==> n.addr is V4)
                    &&& (b@.len() == 17 ==> n.addr is V6)
                    &&& addr_val(n.addr) == be_value(b@.drop_last())
                    &&& n.prefix == b@.last()
                    &&& net_wf(n)
                },
                Err(InetError::PrefixLength) => (b@.len() == 5 && b@.last() > 32) || (b@.len()
                    == 17 && b@.last() > 128),
                Err(InetError::UnrecognizedBlobLength(bb)) => bb@ == b@ && b@.len() != 4 && b@.len()
                    != 5 && b@.len() != 16 && b@.len() != 17,
                Err(_) => false,
            },
    {
        let n = b.len();
        if n == 4 {
            let v = be_value_of(b, 0, 4);
            proof {
                assert(b@.subrange(0, 4) =~= b@);
                lemma_be_value_bound(b@);
                vstd::arithmetic::power2::lemma2_to64();
            }
            let v64 = low_u64_of_u128(v);
            Ok(UserNetAddr::Address(IpAddress::V4(low_u32(v64))))
        } else if n == 5 {
            let p = b[4];
            if p > 32 {
                proof {
                    assert(b@.last() == b@[4]);
                }
                return Err(InetError::PrefixLength);
            }
            let v = be_value_of(b, 0, 4);
            proof {
                assert(b@.subrange(0, 4) =~= b@.drop_last());
                lemma_be_value_bound(b@.drop_last());
                vstd::arithmetic::power2::lemma2_to64();
            }
            let v64 = low_u64_of_u128(v);
            Ok(
                UserNetAddr::Network(
                    IpNetwork { addr: IpAddress::V4(low_u32(v64)), prefix: p },
                ),
            )
        } else if n == 16 {
            let v = be_value_of(b, 0, 16);
            proof {
                assert(b@.subrange(0, 16) =~= b@);
            }
            Ok(UserNetAddr::Address(IpAddress::V6(v)))
        } else if n == 17 {
            let p = b[16];
            if p > 128 {
                proof {
                    assert(b@.last() == b@[16]);
                }
                return Err(InetError::PrefixLength);
            }
            let v = be_value_of(b, 0, 16);
            proof {
                assert(b@.subrange(0, 16) =~= b@.drop_last());
            }
            Ok(UserNetAddr::Network(IpNetwork { addr: IpAddress::V6(v), prefix: p }))
        } else {
            Err(InetError::UnrecognizedBlobLength(b.clone()))
        }
    }
}

/// A separately supplied mask argument, as the host hands it over.
#[derive(Debug, Clone, PartialEq, Eq)]
pub enum MaskArg {
    /// No mask argument, or a null one.
    Absent,
    /// An integer prefix length.
    Int(i64),
    /// Mask text: a decimal prefix length or a dotted mask.
    Text(String),
}

/// The width of the family a caller-supplied value belongs to.
pub open spec fn una_bits(u: UserNetAddr) -> nat {
    match u {
        UserNetAddr::Address(a) => addr_bits(a),
        UserNetAddr::Network(n) => addr_bits(n.addr),
    }
}

/// Mask text that is a bare decimal prefix length (fitting one byte).
pub open spec fn mask_text_numeric(t: Seq<char>) -> bool {
    t.len() > 0 && (forall|i: int| 0 <= i < t.len() ==> is_dec_digit(#[trigger] t[i]))
        && dec_value(t) <= 255
}

/// Mask text that is a dotted, contiguous v4 mask (tried only when the text
/// is not a bare number).
pub open spec fn mask_text_dotted(t: Seq<char>) -> bool {
    &&& !mask_text_numeric(t)
    &&& v4_text_ok(t)
    &&& exists|p: nat| p <= 32 && v4_text_val(t) == #[trigger] prefix_mask(p, 32)
}

/// The prefix length a dotted mask denotes.
pub open spec fn dotted_mask_prefix(t: Seq<char>) -> nat {
    choose|p: nat| p <= 32 && v4_text_val(t) == #[trigger] prefix_mask(p, 32)
}

/// Whether a mask argument resolves to a prefix length for a family `bits`
/// wide.
pub open spec fn mask_arg_ok(m: MaskArg, bits: nat) -> bool {
    match m {
        MaskArg::Absent => false,
        MaskArg::Int(i) => 0 <= i <= bits,
        MaskArg::Text(t) => (mask_text_numeric(t@) && dec_value(t@) <= bits) || mask_text_dotted(
            t@,
        ),
    }
}

/// The prefix length a resolvable mask argument denotes.
pub open spec fn mask_arg_prefix(m: MaskArg) -> nat {
    match m {
        MaskArg::Absent => 0,
        MaskArg::Int(i) => i as nat,
        MaskArg::Text(t) => if mask_text_numeric(t@) {
            dec_value(t@)
        } else {
            dotted_mask_prefix(t@)
        },
    }
}

/// A value is one contiguous mask for exactly one prefix length.
proof fn lemma_prefix_mask_unique(v: nat, bits: nat, p: nat, q: nat)
    requires
        p <= bits,
        q <= bits,
        v == prefix_mask(p, bits),
        v == prefix_mask(q, bits),
    ensures
        p == q,
{
    if p != q {
        vstd::arithmetic::power2::lemma_pow2_pos((bits - p) as nat);
        vstd::arithmetic::power2::lemma_pow2_pos((bits - q) as nat);
        vstd::arithmetic::power2::lemma_pow2_pos(bits);
        if p < q {
            vstd::arithmetic::power2::lemma_pow2_strictly_increases(
                (bits - q) as nat,
                (bits - p) as nat,
            );
        } else {
            vstd::arithmetic::power2::lemma_pow2_strictly_increases(
                (bits - p) as nat,
                (bits - q) as nat,
            );
        }
        assert(pow2((bits - p) as nat) <= pow2(bits)) by {
            if ((bits - p) as nat) < bits {
                vstd::arithmetic::power2::lemma_pow2_strictly_increases((bits - p) as nat, bits);
            }
        }
        assert(pow2((bits - q) as nat) <= pow2(bits)) by {
            if ((bits - q) as nat) < bits {
                vstd::arithmetic::power2::lemma_pow2_strictly_increases((bits - q) as nat, bits);
            }
        }
        assert(false);
    }
}

impl UserNetAddr {
    /// Merge a separately supplied mask into this value: an address becomes a
    /// network under the resolved prefix length; a network with a second mask
    /// is an ambiguity fault; a bad mask is a fault whatever the value.
    pub fn apply_mask(self, mask: &MaskArg) -> (r: Result<UserNetAddr, InetError>)
        requires
            una_wf(self),
        ensures
            match r {
                Ok(u) => una_wf(u) && match *mask {
                    MaskArg::Absent => u == self,
                    _ => {
                        &&& self is Address
                        &&& mask_arg_ok(*mask, una_bits(self))
                        &&& u is Network
                        &&& u->Network_0.addr == self->Address_0
                        &&& u->Network_0.prefix as nat == mask_arg_prefix(*mask)
                    },
                },
                Err(InetError::PrefixLength) => match *mask {
                    MaskArg::Absent => false,
                    MaskArg::Int(i) => !(0 <= i <= una_bits(self)),
                    MaskArg::Text(t) => (mask_text_numeric(t@) && dec_value(t@) > una_bits(self))
                        || (!mask_text_numeric(t@) && v4_text_ok(t@) && !mask_text_dotted(t@)),
                },
                Err(InetError::InvalidNetworkMask(tt)) => mask matches MaskArg::Text(mt) && tt@
                    == mt@ && !mask_text_numeric(mt@) && !v4_text_ok(mt@),
                Err(InetError::MultipleNetworkMasks(_)) => self is Network && mask_arg_ok(
                    *mask,
                    una_bits(self),
                ),
                Err(_) => false,
            },
            r is Ok <==> (mask is Absent || (self is Address && mask_arg_ok(
                *mask,
                una_bits(self),
            ))),
    {
        let bits: u8 = match self.address() {
            IpAddress::V4(_) => 32,
            IpAddress::V6(_) => 128,
        };
        let p: u8 = match mask {
            MaskArg::Absent => {
                return Ok(self);
            },
            MaskArg::Int(i) => {
                if 0 <= *i && *i <= bits as i64 {
                    *i as u8
                } else {
                    return Err(InetError::PrefixLength);
                }
            },
            MaskArg::Text(t) => {
                let tc = str_chars(t.as_str());
                proof {
                    assert(tc@.subrange(0, tc@.len() as int) =~= tc@);
                }
                match parse_u8_decimal(&tc, 0, tc.len()) {
                    Some(nv) => {
                        if nv <= bits {
                            nv
                        } else {
                            return Err(InetError::PrefixLength);
                        }
                    },
                    None => {
                        match parse_ipv4(&tc) {
                            Some(mv) => {
                                match mask_to_prefix(&IpAddress::V4(mv)) {
                                    Some(mp) => {
                                        proof {
                                            assert(v4_text_val(tc@) == prefix_mask(
                                                mp as nat,
                                                32,
                                            ));
                                            lemma_prefix_mask_unique(
                                                v4_text_val(tc@),
                                                32,
                                                mp as nat,
                                                dotted_mask_prefix(tc@),
                                            );
                                        }
                                        mp
                                    },
                                    None => {
                                        proof {
                                            if mask_text_dotted(tc@) {
                                                let q = dotted_mask_prefix(tc@);
                                                assert(addr_bits(IpAddress::V4(mv)) == 32);
                                                assert(addr_val(IpAddress::V4(mv)) == prefix_mask(
                                                    q,
                                                    addr_bits(IpAddress::V4(mv)),
                                                ));
                                                assert(is_mask(IpAddress::V4(mv)));
                                            }
                                        }
                                        return Err(InetError::PrefixLength);
                                    },
                                }
                            },
                            None => {
                                return Err(InetError::InvalidNetworkMask(t.clone()));
                            },
                        }
                    },
                }
            },
        };
        match self {
            UserNetAddr::Address(a) => Ok(
                UserNetAddr::Network(IpNetwork { addr: a, prefix: p }),
            ),
            UserNetAddr::Network(_) => Err(
                InetError::MultipleNetworkMasks(
                    match mask {
                        MaskArg::Text(t) => t.clone(),
                        _ => String::new(),
                    },
                ),
            ),
        }
    }
}

/// Format an address (with optional mask) into normalized text. CIDR or
/// address+mask yields `address/len`; with the truncate flag set the address
/// is truncated first; a bare address yields canonical address text.
pub fn format(addr: Option<&str>, mask: Option<&str>, truncate: Option<bool>) -> (r: Result<
    Option<String>,
    InetError,
>)
    ensures
        match r {
            Ok(None) => addr is None,
            Ok(Some(t)) => addr is Some && {
                ||| exists|n: IpNetwork|
                    #[trigger] norm_net_ok(
                        addr->0@,
                        opt_view(mask),
                        n,
                    ) && if truncate == Some(true) {
                        exists|tn: IpNetwork|
                            same_family(n.addr, tn.addr) && tn.prefix == n.prefix && addr_val(
                                tn.addr,
                            ) == net_trunc_val(n) && t@ == #[trigger] net_chars(tn)
                    } else {
                        t@ == net_chars(n)
                    }
                ||| (!normalizable(addr->0@, opt_view(mask)) && exists|a: IpAddress|
                    #[trigger] addr_matches_text(a, addr->0@) && t@ == addr_chars(a))
            },
            Err(InetError::BadAddress(m)) => addr is Some && !normalizable(
                addr->0@,
                opt_view(mask),
            ) && m@ == addr->0@ && !addr_text_ok(addr->0@),
            Err(_) => false,
        },
        r is Ok <==> (addr is None || normalizable(addr->0@, opt_view(mask)) || addr_text_ok(
            addr->0@,
        )),
{
    match normalize_mask(addr, mask) {
        Ok(Some(net)) => {
            proof {
                assert(norm_net_ok(addr->0@, opt_view(mask), net));
                assert(normalizable(addr->0@, opt_view(mask)));
            }
            let should = match truncate {
                Some(b) => b,
                None => false,
            };
            let out = if should {
                net.trunc()
            } else {
                net
            };
            let cs = format_net(&out);
            let t = crate::text::chars_to_string(&cs);
            proof {
                if truncate == Some(true) {
                    assert(same_family(net.addr, out.addr) && out.prefix == net.prefix
                        && addr_val(out.addr) == net_trunc_val(net) && t@ == net_chars(out));
                } else {
                    assert(out == net);
                    assert(t@ == net_chars(net));
                }
            }
            Ok(Some(t))
        },
        _ => {
            let astr = match addr {
                None => {
                    return Ok(None);
                },
                Some(astr) => astr,
            };
            let acs = str_chars(astr);
            match parse_ip_address(&acs) {
                Some(a) => {
                    let cs = format_addr(&a);
                    let t = crate::text::chars_to_string(&cs);
                    proof {
                        assert(addr_matches_text(a, astr@) && t@ == addr_chars(a));
                    }
                    Ok(Some(t))
                },
                None => Err(InetError::BadAddress(astr.to_owned())),
            }
        },
    }
}

/// Is the first value (address or network text) inside the subnet the latter
/// arguments describe? `None` text for the subject or subnet yields `None`.
pub fn contains(subject: Option<&str>, network: Option<&str>, mask: Option<&str>) -> (r: Result<
    Option<bool>,
    InetError,
>)
    ensures
        match r {
            Ok(None) => subject is None || (una_text_ok(subject->0@) && network is None),
            Ok(Some(b)) => subject is Some && network is Some && exists|u: UserNetAddr, n: IpNetwork|
                #[trigger] una_matches_text(u, subject->0@) && #[trigger] norm_net_ok(
                    network->0@,
                    opt_view(mask),
                    n,
                ) && b == una_within(u, n),
            Err(InetError::BadAddress(m)) => subject is Some && ((m@ == subject->0@ && !una_text_ok(
                subject->0@,
            )) || (una_text_ok(subject->0@) && network is Some && !normalizable(
                network->0@,
                opt_view(mask),
            ))),
            Err(InetError::PrefixLength) => subject is Some && una_text_ok(subject->0@) && network
                is Some && !normalizable(network->0@, opt_view(mask)),
            Err(_) => false,
        },
        r is Ok <==> (subject is None || (una_text_ok(subject->0@) && (network is None
            || normalizable(network->0@, opt_view(mask))))),
{
    let sstr = match subject {
        None => {
            return Ok(None);
        },
        Some(s) => s,
    };
    let u = match UserNetAddr::from_str(sstr) {
        Ok(u) => u,
        Err(e) => {
            return Err(e);
        },
    };
    match normalize_mask(network, mask) {
        Ok(None) => Ok(None),
        Ok(Some(n)) => {
            let b = u.within(n);
            proof {
                assert(una_matches_text(u, sstr@));
                assert(norm_net_ok(network->0@, opt_view(mask), n));
                assert(b == una_within(u, n));
            }
            Ok(Some(b))
        },
        Err(e) => Err(e),
    }
}

/// Is the address inside the network, given either as CIDR text or as a
/// network address plus dotted mask?
pub fn in_subnet(addr: &str, network: &str, mask: Option<&str>) -> (r: Result<bool, InetError>)
    ensures
        match r {
            Ok(b) => addr_text_ok(addr@) && exists|a: IpAddress, n: IpNetwork|
                #[trigger] addr_matches_text(a, addr@) && #[trigger] norm_net_ok(
                    network@,
                    opt_view(mask),
                    n,
                ) && b == net_contains_addr(n, a),
            Err(InetError::BadAddress(m)) => (m@ == addr@ && !addr_text_ok(addr@)) || (addr_text_ok(
                addr@,
            ) && !normalizable(network@, opt_view(mask))),
            Err(InetError::PrefixLength) => addr_text_ok(addr@) && !normalizable(
                network@,
                opt_view(mask),
            ),
            Err(_) => false,
        },
        r is Ok <==> (addr_text_ok(addr@) && normalizable(network@, opt_view(mask))),
{
    let acs = str_chars(addr);
    let a = match parse_ip_address(&acs) {
        None => {
            return Err(InetError::BadAddress(addr.to_owned()));
        },
        Some(a) => a,
    };
    match normalize_mask(Some(network), mask) {
        Ok(Some(n)) => {
            let b = n.contains_addr(&a);
            proof {
                assert(addr_matches_text(a, addr@));
                assert(norm_net_ok(network@, opt_view(mask), n));
            }
            Ok(b)
        },
        Ok(None) => {
            proof {
                assert(false);
            }
            Err(InetError::BadAddress(addr.to_owned()))
        },
        Err(e) => Err(e),
    }
}

/// The compact binary form of address or network text: address octets, plus
/// one prefix-length byte for a network.
pub fn blobify(subject: Option<&str>) -> (r: Result<Option<Vec<u8>>, InetError>)
    ensures
        match r {
            Ok(None) => subject is None,
            Ok(Some(b)) => subject is Some && exists|u: UserNetAddr|
                #[trigger] una_matches_text(u, subject->0@) && match u {
                    UserNetAddr::Address(a) => b@.len() == addr_bits(a) / 8 && be_value(b@)
                        == addr_val(a),
                    UserNetAddr::Network(n) => b@.len() == addr_bits(n.addr) / 8 + 1 && be_value(
                        b@.drop_last(),
                    ) == addr_val(n.addr) && b@.last() == n.prefix,
                },
            Err(InetError::BadAddress(m)) => subject is Some && m@ == subject->0@ && !una_text_ok(
                subject->0@,
            ),
            Err(_) => false,
        },
        r is Ok <==> (subject is None || una_text_ok(subject->0@)),
{
    let sstr = match subject {
        None => {
            return Ok(None);
        },
        Some(s) => s,
    };
    match UserNetAddr::from_str(sstr) {
        Ok(u) => {
            let b = u.to_binary();
            proof {
                assert(una_matches_text(u, sstr@));
            }
            Ok(Some(b))
        },
        Err(e) => Err(e),
    }
}

} // verus!
