//! Internet addresses and networks as text.

use crate::text::{chars_of, copy_range, decimal_of, text_of};
use vstd::prelude::*;

verus! {

/// An Internet address, as the number its octets stand for, first octet highest.
#[derive(Clone, Copy, Debug, PartialEq, Eq, Structural)]
pub enum IpAddr {
    V4(u32),
    V6(u128),
}

impl IpAddr {
    /// Bits of an address of this kind.
    pub open spec fn spec_bits(self) -> u8 {
        match self {
            IpAddr::V4(_) => 32,
            IpAddr::V6(_) => 128,
        }
    }

    /// Bits of an address of this kind.
    pub fn bits(self) -> (n: u8)
        ensures
            n == self.spec_bits(),
    {
        match self {
            IpAddr::V4(_) => 32,
            IpAddr::V6(_) => 128,
        }
    }
}

/// The pieces of a text between separators.
pub open spec fn split_on(s: Seq<char>, sep: char) -> Seq<Seq<char>>
    decreases s.len(),
{
    if s.len() == 0 {
        seq![Seq::empty()]
    } else {
        let before = split_on(s.drop_last(), sep);
        if s.last() == sep {
            before.push(Seq::empty())
        } else {
            before.drop_last().push(before.last().push(s.last()))
        }
    }
}

/// Pieces as mathematical values.
pub open spec fn pieces_view(v: Seq<Vec<char>>) -> Seq<Seq<char>> {
    Seq::new(v.len(), |i: int| v[i]@)
}

fn split_chars(s: &[char], sep: char) -> (out: Vec<Vec<char>>)
    ensures
        pieces_view(out@) == split_on(s@, sep),
{
    let mut out: Vec<Vec<char>> = Vec::new();
    let mut piece: Vec<char> = Vec::new();
    let mut i: usize = 0;
    proof {
        assert(s@.take(0) =~= Seq::empty());
        assert(pieces_view(out@).push(piece@) =~= split_on(s@.take(0), sep));
    }
    while i < s.len()
        invariant
            i <= s@.len(),
            pieces_view(out@).push(piece@) == split_on(s@.take(i as int), sep),
        decreases s@.len() - i,
    {
        let c: char = s[i];
        let ghost before = pieces_view(out@);
        let ghost held = piece@;
        assert(s@.take(i + 1).drop_last() =~= s@.take(i as int));
        if c == sep {
            out.push(piece);
            piece = Vec::new();
            assert(pieces_view(out@) =~= before.push(held));
        } else {
            piece.push(c);
            assert(before.push(held).drop_last() =~= before);
        }
        assert(pieces_view(out@).push(piece@) =~= split_on(s@.take(i + 1), sep));
        i = i + 1;
    }
    assert(s@.take(s@.len() as int) =~= s@);
    let ghost before = pieces_view(out@);
    let ghost held = piece@;
    out.push(piece);
    assert(pieces_view(out@) =~= before.push(held));
    out
}

/// The value of a digit, up to sixteen.
pub open spec fn digit_of(c: char) -> Option<nat> {
    if '0' <= c <= '9' {
        Some((c as u32 - '0' as u32) as nat)
    } else if 'a' <= c <= 'f' {
        Some((c as u32 - 'a' as u32 + 10) as nat)
    } else if 'A' <= c <= 'F' {
        Some((c as u32 - 'A' as u32 + 10) as nat)
    } else {
        None
    }
}

/// Whether every character is a digit below `radix`.
pub open spec fn all_digits(s: Seq<char>, radix: nat) -> bool {
    forall|i: int|
        0 <= i < s.len() ==> (digit_of(#[trigger] s[i]) matches Some(d) && d < radix)
}

/// The number that digits stand for.
pub open spec fn digits_value(s: Seq<char>, radix: nat) -> nat
    decreases s.len(),
{
    if s.len() == 0 {
        0
    } else {
        digits_value(s.drop_last(), radix) * radix + digit_of(s.last()).unwrap()
    }
}

fn digit(c: char) -> (r: Option<u32>)
    ensures
        r.is_some() == digit_of(c).is_some(),
        r matches Some(d) ==> digit_of(c) == Some(d as nat) && d < 16,
{
    if '0' <= c && c <= '9' {
        Some(c as u32 - '0' as u32)
    } else if 'a' <= c && c <= 'f' {
        Some(c as u32 - 'a' as u32 + 10)
    } else if 'A' <= c && c <= 'F' {
        Some(c as u32 - 'A' as u32 + 10)
    } else {
        None
    }
}

/// What digits stand for, as far as `u16` can hold it.
fn read_digits(s: &[char], radix: u32) -> (r: Option<u32>)
    requires
        radix == 10 || radix == 16,
    ensures
        r.is_some() == all_digits(s@, radix as nat),
        r matches Some(n) ==> (n == digits_value(s@, radix as nat) || (n == 0x10000 && digits_value(
            s@,
            radix as nat,
        ) >= 0x10000)) && n <= 0x10000,
{
    let mut n: u32 = 0;
    let mut i: usize = 0;
    while i < s.len()
        invariant
            i <= s@.len(),
            radix == 10 || radix == 16,
            all_digits(s@.take(i as int), radix as nat),
            n <= 0x10000,
            n == digits_value(s@.take(i as int), radix as nat) || (n == 0x10000 && digits_value(
                s@.take(i as int),
                radix as nat,
            ) >= 0x10000),
        decreases s@.len() - i,
    {
        let ghost here = s@.take(i + 1);
        proof {
            assert(here.drop_last() =~= s@.take(i as int));
            assert(here.last() == s@[i as int]);
        }
        match digit(s[i]) {
            Some(d) => {
                if d >= radix {
                    return None;
                }
                proof {
                    assert forall|j: int| 0 <= j < here.len() implies (digit_of(
                        #[trigger] here[j],
                    ) matches Some(x) && x < radix) by {
                        if j < i {
                            assert(here[j] == s@.take(i as int)[j]);
                        }
                    }
                    let v = digits_value(s@.take(i as int), radix as nat) as int;
                    assert(v * radix >= v) by (nonlinear_arith)
                        requires
                            v >= 0,
                            radix >= 1,
                    ;
                }
                let m: u32 = n * radix + d;
                n = if m > 0x10000 {
                    0x10000
                } else {
                    m
                };
            },
            None => {
                return None;
            },
        }
        i = i + 1;
    }
    assert(s@.take(s@.len() as int) =~= s@);
    Some(n)
}

/// An octet of an IPv4 address: one to three digits without a leading zero, up to 255.
pub open spec fn octet_of(s: Seq<char>) -> Option<u8> {
    if 1 <= s.len() <= 3 && all_digits(s, 10) && (s.len() > 1 ==> s[0] != '0') && digits_value(
        s,
        10,
    ) <= 255 {
        Some(digits_value(s, 10) as u8)
    } else {
        None
    }
}

fn octet(s: &[char]) -> (r: Option<u8>)
    ensures
        r == octet_of(s@),
{
    if s.len() < 1 || s.len() > 3 || (s.len() > 1 && s[0] == '0') {
        return None;
    }
    match read_digits(s, 10) {
        Some(n) => if n <= 255 {
            Some(n as u8)
        } else {
            None
        },
        None => None,
    }
}

/// The IPv4 address a text stands for: four octets between dots.
pub open spec fn v4_of(s: Seq<char>) -> Option<u32> {
    let p = split_on(s, '.');
    if p.len() == 4 && octet_of(p[0]).is_some() && octet_of(p[1]).is_some() && octet_of(
        p[2],
    ).is_some() && octet_of(p[3]).is_some() {
        Some(
            (octet_of(p[0]).unwrap() * 0x100_0000 + octet_of(p[1]).unwrap() * 0x1_0000 + octet_of(
                p[2],
            ).unwrap() * 0x100 + octet_of(p[3]).unwrap()) as u32,
        )
    } else {
        None
    }
}

fn read_v4(s: &[char]) -> (r: Option<u32>)
    ensures
        r == v4_of(s@),
{
    let p: Vec<Vec<char>> = split_chars(s, '.');
    let ghost pv = split_on(s@, '.');
    assert(pv.len() == p@.len());
    if p.len() != 4 {
        return None;
    }
    assert(p@[0]@ == pv[0] && p@[1]@ == pv[1] && p@[2]@ == pv[2] && p@[3]@ == pv[3]);
    match (octet(p[0].as_slice()), octet(p[1].as_slice()), octet(p[2].as_slice()), octet(
        p[3].as_slice(),
    )) {
        (Some(a), Some(b), Some(c), Some(d)) => Some(
            a as u32 * 0x100_0000 + b as u32 * 0x1_0000 + c as u32 * 0x100 + d as u32,
        ),
        _ => None,
    }
}

/// A group of an IPv6 address: one to four hexadecimal digits.
pub open spec fn group_of(s: Seq<char>) -> Option<u16> {
    if 1 <= s.len() <= 4 && all_digits(s, 16) {
        Some(digits_value(s, 16) as u16)
    } else {
        None
    }
}

proof fn lemma_group_fits(s: Seq<char>)
    requires
        s.len() <= 4,
        all_digits(s, 16),
    ensures
        digits_value(s, 16) < 0x10000,
        s.len() == 3 ==> digits_value(s, 16) < 0x1000,
        s.len() == 2 ==> digits_value(s, 16) < 0x100,
        s.len() == 1 ==> digits_value(s, 16) < 0x10,
    decreases s.len(),
{
    if s.len() > 0 {
        let init = s.drop_last();
        assert forall|i: int| 0 <= i < init.len() implies (digit_of(#[trigger] init[i]) matches Some(
            d,
        ) && d < 16) by {
            assert(init[i] == s[i]);
        }
        lemma_group_fits(init);
        assert(digit_of(s[s.len() - 1]) matches Some(d) && d < 16);
    }
}

fn group(s: &[char]) -> (r: Option<u16>)
    ensures
        r == group_of(s@),
{
    if s.len() < 1 || s.len() > 4 {
        return None;
    }
    match read_digits(s, 16) {
        Some(n) => {
            proof {
                lemma_group_fits(s@);
            }
            Some(n as u16)
        },
        None => None,
    }
}

/// The groups of pieces, of which the last may be an IPv4 address that stands for two.
pub open spec fn groups_of(p: Seq<Seq<char>>, ipv4_tail: bool) -> Option<Seq<u16>>
    decreases p.len(),
{
    if p.len() == 0 {
        Some(Seq::empty())
    } else {
        match groups_of(p.drop_last(), false) {
            None => None,
            Some(before) => match group_of(p.last()) {
                Some(g) => Some(before.push(g)),
                None => match v4_of(p.last()) {
                    Some(a) if ipv4_tail => Some(
                        before.push((a / 0x1_0000) as u16).push((a % 0x1_0000) as u16),
                    ),
                    _ => None,
                },
            },
        }
    }
}

fn read_groups(p: &Vec<Vec<char>>, ipv4_tail: bool) -> (r: Option<Vec<u16>>)
    ensures
        match groups_of(pieces_view(p@), ipv4_tail) {
            Some(g) => r matches Some(v) && v@ == g,
            None => r.is_none(),
        },
{
    let mut out: Vec<u16> = Vec::new();
    let mut i: usize = 0;
    let ghost pv = pieces_view(p@);
    assert(pv.take(0) =~= Seq::empty());
    while i < p.len()
        invariant
            i <= p@.len(),
            pv == pieces_view(p@),
            groups_of(pv.take(i as int), i == p@.len() && ipv4_tail) == Some(out@),
        decreases p@.len() - i,
    {
        let ghost here = pv.take(i + 1);
        proof {
            assert(here.drop_last() =~= pv.take(i as int));
            assert(here.last() == p@[i as int]@);
            if i + 1 < p@.len() {
                lemma_groups_none(pv, i + 1, ipv4_tail);
            }
            assert(pv.take(pv.len() as int) =~= pv);
        }
        match group(p[i].as_slice()) {
            Some(g) => {
                out.push(g);
            },
            None => {
                if i + 1 != p.len() || !ipv4_tail {
                    return None;
                }
                match read_v4(p[i].as_slice()) {
                    Some(a) => {
                        out.push((a / 0x1_0000) as u16);
                        out.push((a % 0x1_0000) as u16);
                    },
                    None => {
                        return None;
                    },
                }
            },
        }
        i = i + 1;
    }
    assert(pv.take(pv.len() as int) =~= pv);
    Some(out)
}

/// Pieces that do not all stand for groups do not become groups with more of them.
proof fn lemma_groups_none(p: Seq<Seq<char>>, i: int, ipv4_tail: bool)
    requires
        0 <= i < p.len(),
    ensures
        groups_of(p.take(i), false).is_none() ==> groups_of(p, ipv4_tail).is_none(),
    decreases p.len(),
{
    if i < p.len() - 1 {
        lemma_groups_none(p.drop_last(), i, false);
        assert(p.drop_last().take(i) =~= p.take(i));
    } else {
        assert(p.take(i) =~= p.drop_last());
    }
}

/// Where the first `::` is, or `None`.
pub open spec fn gap_at(s: Seq<char>) -> Option<int>
    decreases s.len(),
{
    if s.len() < 2 {
        None
    } else if s[0] == ':' && s[1] == ':' {
        Some(0)
    } else {
        match gap_at(s.drop_first()) {
            Some(i) => Some(i + 1),
            None => None,
        }
    }
}

fn find_gap(s: &[char]) -> (r: Option<usize>)
    ensures
        r.is_some() == gap_at(s@).is_some(),
        r matches Some(i) ==> gap_at(s@) == Some(i as int) && i + 2 <= s@.len(),
{
    let mut i: usize = 0;
    assert(s@.skip(0) =~= s@);
    while i < s.len() && s.len() - i >= 2
        invariant
            i <= s@.len(),
            match gap_at(s@.skip(i as int)) {
                Some(k) => gap_at(s@) == Some(i + k),
                None => gap_at(s@).is_none(),
            },
        decreases s@.len() - i,
    {
        if s[i] == ':' && s[i + 1] == ':' {
            return Some(i);
        }
        assert(s@.skip(i as int).drop_first() =~= s@.skip(i + 1));
        i = i + 1;
    }
    None
}

/// The groups of a part of an IPv6 address; none in an empty part.
pub open spec fn part_groups(s: Seq<char>, ipv4_tail: bool) -> Option<Seq<u16>> {
    if s.len() == 0 {
        Some(Seq::empty())
    } else {
        groups_of(split_on(s, ':'), ipv4_tail)
    }
}

fn read_part(s: &[char], ipv4_tail: bool) -> (r: Option<Vec<u16>>)
    ensures
        match part_groups(s@, ipv4_tail) {
            Some(g) => r matches Some(v) && v@ == g,
            None => r.is_none(),
        },
{
    if s.len() == 0 {
        return Some(Vec::new());
    }
    let p: Vec<Vec<char>> = split_chars(s, ':');
    read_groups(&p, ipv4_tail)
}

/// The number that groups stand for, the first highest.
pub open spec fn groups_value(g: Seq<u16>) -> nat
    decreases g.len(),
{
    if g.len() == 0 {
        0
    } else {
        groups_value(g.drop_last()) * 0x10000 + g.last() as nat
    }
}

/// The eight groups of an IPv6 address: all of them between colons, or `::` in place of one or
/// more zero groups.
pub open spec fn v6_groups(s: Seq<char>) -> Option<Seq<u16>> {
    match gap_at(s) {
        None => match part_groups(s, true) {
            Some(g) if g.len() == 8 => Some(g),
            _ => None,
        },
        Some(k) => match (part_groups(s.take(k), false), part_groups(s.skip(k + 2), true)) {
            (Some(a), Some(b)) if a.len() + b.len() <= 7 => Some(
                a + Seq::new((8 - a.len() - b.len()) as nat, |i: int| 0u16) + b,
            ),
            _ => None,
        },
    }
}

proof fn lemma_groups_value_bound(g: Seq<u16>)
    requires
        g.len() <= 8,
    ensures
        groups_value(g) <= u128::MAX,
        g.len() < 8 ==> groups_value(g) * 0x10000 + 0xffff <= u128::MAX,
    decreases g.len(),
{
    reveal_with_fuel(groups_value, 9);
}

fn value_of_groups(g: &Vec<u16>) -> (n: u128)
    requires
        g@.len() == 8,
    ensures
        n == groups_value(g@),
{
    let mut n: u128 = 0;
    let mut i: usize = 0;
    while i < 8
        invariant
            i <= 8 == g@.len(),
            n == groups_value(g@.take(i as int)),
        decreases 8 - i,
    {
        proof {
            assert(g@.take(i + 1).drop_last() =~= g@.take(i as int));
            lemma_groups_value_bound(g@.take(i as int));
        }
        n = n * 0x10000 + g[i] as u128;
        i = i + 1;
    }
    assert(g@.take(8) =~= g@);
    n
}

/// The address a text stands for.
pub open spec fn ip_of(s: Seq<char>) -> Option<IpAddr> {
    match v4_of(s) {
        Some(a) => Some(IpAddr::V4(a)),
        None => match v6_groups(s) {
            Some(g) => Some(IpAddr::V6(groups_value(g) as u128)),
            None => None,
        },
    }
}

fn read_ip(s: &[char]) -> (r: Option<IpAddr>)
    ensures
        r == ip_of(s@),
{
    if let Some(a) = read_v4(s) {
        return Some(IpAddr::V4(a));
    }
    let groups: Vec<u16> = match find_gap(s) {
        None => match read_part(s, true) {
            Some(g) => {
                if g.len() != 8 {
                    return None;
                }
                g
            },
            None => {
                return None;
            },
        },
        Some(k) => {
            let len: usize = s.len();
            let head: Vec<char> = copy_range(s, 0, k);
            let tail: Vec<char> = copy_range(s, k + 2, len);
            assert(head@ =~= s@.take(k as int));
            assert(tail@ =~= s@.skip(k + 2));
            let mut a: Vec<u16> = match read_part(head.as_slice(), false) {
                Some(a) => a,
                None => {
                    return None;
                },
            };
            let mut b: Vec<u16> = match read_part(tail.as_slice(), true) {
                Some(b) => b,
                None => {
                    return None;
                },
            };
            if a.len() > 7 || b.len() > 7 - a.len() {
                return None;
            }
            let ghost av = a@;
            let zeros: usize = 8 - a.len() - b.len();
            let mut i: usize = 0;
            while i < zeros
                invariant
                    i <= zeros,
                    a@ == av + Seq::new(i as nat, |j: int| 0u16),
                decreases zeros - i,
            {
                a.push(0);
                assert(a@ =~= av + Seq::new((i + 1) as nat, |j: int| 0u16));
                i = i + 1;
            }
            a.append(&mut b);
            a
        },
    };
    proof {
        lemma_groups_value_bound(groups@);
    }
    Some(IpAddr::V6(value_of_groups(&groups)))
}

/// Reads an address.
pub fn parse_ip(s: &str) -> (r: Option<IpAddr>)
    ensures
        r == ip_of(s@),
{
    let v: Vec<char> = chars_of(s);
    read_ip(v.as_slice())
}

/// A number of prefix bits as text: digits, up to 255, perhaps after a plus.
pub open spec fn bits_of(s: Seq<char>) -> Option<u8> {
    let d = if s.len() > 0 && s[0] == '+' {
        s.drop_first()
    } else {
        s
    };
    if d.len() > 0 && all_digits(d, 10) && digits_value(d, 10) <= 255 {
        Some(digits_value(d, 10) as u8)
    } else {
        None
    }
}

fn read_bits(s: &[char]) -> (r: Option<u8>)
    ensures
        r == bits_of(s@),
{
    let from: usize = if s.len() > 0 && s[0] == '+' {
        1
    } else {
        0
    };
    let d: Vec<char> = copy_range(s, from, s.len());
    assert(from == 1 ==> d@ =~= s@.drop_first());
    assert(from == 0 ==> d@ =~= s@);
    if d.len() == 0 {
        return None;
    }
    match read_digits(d.as_slice(), 10) {
        Some(n) => if n <= 255 {
            Some(n as u8)
        } else {
            None
        },
        None => None,
    }
}

/// Where the first slash is, or the length.
pub open spec fn slash_at(s: Seq<char>) -> nat
    decreases s.len(),
{
    if s.len() == 0 || s[0] == '/' {
        0
    } else {
        1 + slash_at(s.drop_first())
    }
}

/// The network a text stands for: an address and its prefix bits after a slash, or a bare
/// address, which is a network of its own.
pub open spec fn net_of(s: Seq<char>) -> Option<(IpAddr, u8)> {
    let k = slash_at(s) as int;
    if k < s.len() {
        match (ip_of(s.take(k)), bits_of(s.skip(k + 1))) {
            (Some(ip), Some(bits)) if bits <= ip.spec_bits() => Some((ip, bits)),
            _ => None,
        }
    } else {
        match ip_of(s) {
            Some(ip) => Some((ip, ip.spec_bits())),
            None => None,
        }
    }
}

/// Reads a network.
pub fn parse_net(s: &str) -> (r: Option<(IpAddr, u8)>)
    ensures
        r == net_of(s@),
{
    let v: Vec<char> = chars_of(s);
    let mut k: usize = 0;
    assert(v@.skip(0) =~= v@);
    while k < v.len() && v[k] != '/'
        invariant
            k <= v@.len(),
            slash_at(v@) == k + slash_at(v@.skip(k as int)),
        decreases v@.len() - k,
    {
        assert(v@.skip(k as int).drop_first() =~= v@.skip(k + 1));
        k = k + 1;
    }
    if k < v.len() {
        let a: Vec<char> = copy_range(v.as_slice(), 0, k);
        let b: Vec<char> = copy_range(v.as_slice(), k + 1, v.len());
        assert(a@ =~= v@.take(k as int));
        assert(b@ =~= v@.skip(k + 1));
        match (read_ip(a.as_slice()), read_bits(b.as_slice())) {
            (Some(ip), Some(bits)) => if bits <= ip.bits() {
                Some((ip, bits))
            } else {
                None
            },
            _ => None,
        }
    } else {
        match read_ip(v.as_slice()) {
            Some(ip) => Some((ip, ip.bits())),
            None => None,
        }
    }
}

/// A port as text: digits, up to 65535, perhaps after a plus.
pub open spec fn port_of(s: Seq<char>) -> Option<u16> {
    let d = if s.len() > 0 && s[0] == '+' {
        s.drop_first()
    } else {
        s
    };
    if d.len() > 0 && all_digits(d, 10) && digits_value(d, 10) <= 65535 {
        Some(digits_value(d, 10) as u16)
    } else {
        None
    }
}

fn read_port(s: &[char]) -> (r: Option<u16>)
    ensures
        r == port_of(s@),
{
    let from: usize = if s.len() > 0 && s[0] == '+' {
        1
    } else {
        0
    };
    let d: Vec<char> = copy_range(s, from, s.len());
    assert(from == 1 ==> d@ =~= s@.drop_first());
    assert(from == 0 ==> d@ =~= s@);
    if d.len() == 0 {
        return None;
    }
    match read_digits(d.as_slice(), 10) {
        Some(n) => if n <= 65535 {
            Some(n as u16)
        } else {
            None
        },
        None => None,
    }
}

/// Where the last colon is.
pub open spec fn last_colon(s: Seq<char>) -> Option<int>
    decreases s.len(),
{
    if s.len() == 0 {
        None
    } else if s.last() == ':' {
        Some(s.len() - 1)
    } else {
        last_colon(s.drop_last())
    }
}

/// The host and the port of an advertised address; a port that is missing or is none is the
/// default one.
pub open spec fn endpoint_of(s: Seq<char>, default_port: u16) -> (Seq<char>, u16) {
    match last_colon(s) {
        None => (s, default_port),
        Some(k) => (
            s.take(k),
            match port_of(s.skip(k + 1)) {
                Some(p) => p,
                None => default_port,
            },
        ),
    }
}

/// Splits an advertised address into its host and its port.
pub fn endpoint(addr: &str, default_port: u16) -> (r: (String, u16))
    ensures
        (r.0@, r.1) == endpoint_of(addr@, default_port),
{
    let v: Vec<char> = chars_of(addr);
    let mut n: usize = v.len();
    assert(v@.take(v@.len() as int) =~= v@);
    while n > 0
        invariant
            n <= v@.len(),
            v@ == addr@,
            last_colon(v@) == last_colon(v@.take(n as int)),
        decreases n,
    {
        assert(v@.take(n as int).drop_last() =~= v@.take(n - 1));
        assert(v@.take(n as int).last() == v@[n - 1]);
        if v[n - 1] == ':' {
            let host: Vec<char> = copy_range(v.as_slice(), 0, n - 1);
            let port: Vec<char> = copy_range(v.as_slice(), n, v.len());
            assert(host@ =~= v@.take(n - 1));
            assert(port@ =~= v@.skip(n as int));
            let p: u16 = match read_port(port.as_slice()) {
                Some(p) => p,
                None => default_port,
            };
            return (text_of(host.as_slice()), p);
        }
        n = n - 1;
    }
    (addr.to_owned(), default_port)
}

proof fn lemma_split_some(s: Seq<char>, sep: char)
    ensures
        split_on(s, sep).len() > 0,
    decreases s.len(),
{
    if s.len() > 0 {
        lemma_split_some(s.drop_last(), sep);
    }
}

/// A text without a separator is one piece, and a separator between two texts parts their pieces.
pub proof fn lemma_pieces(a: Seq<char>, b: Seq<char>, sep: char)
    ensures
        (forall|i: int| 0 <= i < a.len() ==> #[trigger] a[i] != sep) ==> split_on(a, sep) == seq![a],
        split_on(a + seq![sep] + b, sep) == split_on(a, sep) + split_on(b, sep),
    decreases a.len(), b.len(),
{
    if a.len() == 0 {
        assert(a =~= Seq::empty());
        assert(split_on(a, sep) =~= seq![a]);
    } else if forall|i: int| 0 <= i < a.len() ==> #[trigger] a[i] != sep {
        let r = a.drop_last();
        assert forall|i: int| 0 <= i < r.len() implies #[trigger] r[i] != sep by {
            assert(r[i] == a[i]);
        }
        lemma_pieces(r, Seq::empty(), sep);
        assert(a[a.len() - 1] == a.last());
        assert(r.push(a.last()) =~= a);
        assert(split_on(a, sep) =~= seq![a]);
    }
    let s = a + seq![sep] + b;
    lemma_split_some(a, sep);
    lemma_split_some(b, sep);
    if b.len() == 0 {
        assert(s.drop_last() =~= a);
        assert(split_on(s, sep) =~= split_on(a, sep) + split_on(b, sep));
    } else {
        let c = b.drop_last();
        lemma_pieces(a, c, sep);
        lemma_split_some(c, sep);
        assert(s.drop_last() =~= a + seq![sep] + c);
        assert(s.last() == b.last());
        assert(split_on(s, sep) =~= split_on(a, sep) + split_on(b, sep));
    }
}

/// The decimal digits of a number stand for it, without a leading zero.
pub proof fn lemma_decimal_digits(n: nat)
    ensures
        all_digits(decimal_of(n), 10),
        digits_value(decimal_of(n), 10) == n,
        decimal_of(n).len() > 0,
        n < 10 ==> decimal_of(n).len() == 1,
        n < 100 ==> decimal_of(n).len() <= 2,
        n < 1000 ==> decimal_of(n).len() <= 3,
        n >= 10 ==> decimal_of(n).len() > 1 && decimal_of(n)[0] != '0',
        n > 0 ==> decimal_of(n)[0] != '0',
    decreases n,
{
    let d = decimal_of(n);
    if n < 10 {
        assert(d.drop_last() =~= Seq::empty());
        assert(digits_value(d.drop_last(), 10) == 0);
    } else {
        lemma_decimal_digits(n / 10);
        let r = decimal_of(n / 10);
        assert(d.drop_last() =~= r);
        assert(d[0] == r[0]);
        assert forall|i: int| 0 <= i < d.len() implies (digit_of(#[trigger] d[i]) matches Some(x)
            && x < 10) by {
            if i < r.len() {
                assert(d[i] == r[i]);
            }
        }
    }
}

proof fn lemma_digits_are_no_separators(n: nat)
    ensures
        forall|i: int|
            0 <= i < decimal_of(n).len() ==> #[trigger] decimal_of(n)[i] != '.' && decimal_of(n)[i]
                != '/' && decimal_of(n)[i] != ':' && decimal_of(n)[i] != '+',
{
    lemma_decimal_digits(n);
    assert forall|i: int| 0 <= i < decimal_of(n).len() implies #[trigger] decimal_of(n)[i] != '.'
        && decimal_of(n)[i] != '/' && decimal_of(n)[i] != ':' && decimal_of(n)[i] != '+' by {
        assert(digit_of(decimal_of(n)[i]).is_some());
    }
}

/// An IPv4 address is read as it is written: four numbers between dots, the first highest.
pub proof fn lemma_dotted_addresses(a: u8, b: u8, c: u8, d: u8)
    ensures
        ip_of(
            decimal_of(a as nat) + seq!['.'] + (decimal_of(b as nat) + seq!['.'] + (decimal_of(
                c as nat,
            ) + seq!['.'] + decimal_of(d as nat))),
        ) == Some(IpAddr::V4((a * 0x100_0000 + b * 0x1_0000 + c * 0x100 + d) as u32)),
{
    let w = decimal_of(a as nat);
    let x = decimal_of(b as nat);
    let y = decimal_of(c as nat);
    let z = decimal_of(d as nat);
    lemma_decimal_digits(a as nat);
    lemma_decimal_digits(b as nat);
    lemma_decimal_digits(c as nat);
    lemma_decimal_digits(d as nat);
    lemma_digits_are_no_separators(a as nat);
    lemma_digits_are_no_separators(b as nat);
    lemma_digits_are_no_separators(c as nat);
    lemma_digits_are_no_separators(d as nat);
    let yz = y + seq!['.'] + z;
    let xyz = x + seq!['.'] + yz;
    lemma_pieces(z, Seq::empty(), '.');
    lemma_pieces(y, z, '.');
    lemma_pieces(x, yz, '.');
    lemma_pieces(w, xyz, '.');
    let s = w + seq!['.'] + xyz;
    assert(split_on(s, '.') =~= seq![w, x, y, z]);
}

proof fn lemma_slash_at(a: Seq<char>, b: Seq<char>)
    requires
        forall|i: int| 0 <= i < a.len() ==> #[trigger] a[i] != '/',
    ensures
        slash_at(a) == a.len(),
        slash_at(a + seq!['/'] + b) == a.len(),
    decreases a.len(),
{
    let s = a + seq!['/'] + b;
    if a.len() > 0 {
        let r = a.drop_first();
        assert forall|i: int| 0 <= i < r.len() implies #[trigger] r[i] != '/' by {
            assert(r[i] == a[i + 1]);
        }
        lemma_slash_at(r, b);
        assert(s.drop_first() =~= r + seq!['/'] + b);
        assert(s[0] == a[0]);
    }
}

/// A network is an address and its prefix bits behind a slash, no more than the address has; an
/// address by itself is a network of all its bits.
pub proof fn lemma_networks(addr: Seq<char>, bits: u8)
    requires
        forall|i: int| 0 <= i < addr.len() ==> #[trigger] addr[i] != '/',
    ensures
        net_of(addr) == match ip_of(addr) {
            Some(IpAddr::V4(a)) => Some((IpAddr::V4(a), 32u8)),
            Some(IpAddr::V6(a)) => Some((IpAddr::V6(a), 128u8)),
            None => None,
        },
        net_of(addr + seq!['/'] + decimal_of(bits as nat)) == match ip_of(addr) {
            Some(IpAddr::V4(a)) => if bits <= 32 {
                Some((IpAddr::V4(a), bits))
            } else {
                None
            },
            Some(IpAddr::V6(a)) => if bits <= 128 {
                Some((IpAddr::V6(a), bits))
            } else {
                None
            },
            None => None,
        },
{
    let d = decimal_of(bits as nat);
    let s = addr + seq!['/'] + d;
    lemma_slash_at(addr, d);
    lemma_decimal_digits(bits as nat);
    lemma_digits_are_no_separators(bits as nat);
    assert(d[0] != '+');
    assert(s.take(addr.len() as int) =~= addr);
    assert(s.skip(addr.len() as int + 1) =~= d);
}

proof fn lemma_last_colon(a: Seq<char>, b: Seq<char>)
    requires
        forall|i: int| 0 <= i < b.len() ==> #[trigger] b[i] != ':',
    ensures
        last_colon(a + seq![':'] + b) == Some(a.len() as int),
        last_colon(b).is_none(),
    decreases b.len(),
{
    let s = a + seq![':'] + b;
    if b.len() > 0 {
        let r = b.drop_last();
        assert forall|i: int| 0 <= i < r.len() implies #[trigger] r[i] != ':' by {
            assert(r[i] == b[i]);
        }
        lemma_last_colon(a, r);
        assert(s.drop_last() =~= a + seq![':'] + r);
        assert(s.last() == b.last());
        assert(b[b.len() - 1] == b.last());
    }
}

/// An advertised address is a host and a port behind the last colon; without a colon it is a host
/// on the default port.
pub proof fn lemma_endpoints(host: Seq<char>, port: u16, default_port: u16)
    ensures
        endpoint_of(host + seq![':'] + decimal_of(port as nat), default_port) == (host, port),
        (forall|i: int| 0 <= i < host.len() ==> #[trigger] host[i] != ':') ==> endpoint_of(
            host,
            default_port,
        ) == (host, default_port),
        endpoint_of(host + seq![':'], default_port) == (host, default_port),
{
    let d = decimal_of(port as nat);
    let s = host + seq![':'] + d;
    lemma_decimal_digits(port as nat);
    lemma_digits_are_no_separators(port as nat);
    lemma_last_colon(host, d);
    assert(d[0] != '+');
    assert(s.take(host.len() as int) =~= host);
    assert(s.skip(host.len() as int + 1) =~= d);
    if forall|i: int| 0 <= i < host.len() ==> #[trigger] host[i] != ':' {
        lemma_last_colon(Seq::empty(), host);
    }
    lemma_last_colon(host, Seq::empty());
    let e = host + seq![':'];
    assert(e + Seq::<char>::empty() =~= e);
    assert(host + seq![':'] + Seq::<char>::empty() =~= e);
    assert(e.take(host.len() as int) =~= host);
    assert(e.skip(host.len() as int + 1) =~= Seq::empty());
}

/// The groups of an IPv6 address are eight, the first highest, and `::` stands for as many zero
/// groups as are missing.
pub proof fn lemma_groups(s: Seq<char>, a: Seq<u16>, g: u16)
    ensures
        v6_groups(s) matches Some(v) ==> v.len() == 8,
        groups_value(a.push(g)) == groups_value(a) * 0x10000 + g,
        groups_value(Seq::empty()) == 0,
        v6_groups(seq![':', ':']) == Some(Seq::new(8, |i: int| 0u16)),
{
    assert(a.push(g).drop_last() =~= a);
    let z = seq![':', ':'];
    assert(gap_at(z) == Some(0int));
    assert(z.take(0) =~= Seq::empty());
    assert(z.skip(2) =~= Seq::empty());
    assert(v6_groups(z).unwrap() =~= Seq::new(8, |i: int| 0u16));
}

/// A group of an IPv6 address is up to four hexadecimal digits of either case, and each digit more
/// makes sixteen times as much and the digit.
pub proof fn lemma_hex_groups(s: Seq<char>, c: char)
    ensures
        digit_of('0') == Some(0nat) && digit_of('9') == Some(9nat),
        digit_of('a') == Some(10nat) && digit_of('f') == Some(15nat),
        digit_of('A') == Some(10nat) && digit_of('F') == Some(15nat),
        digit_of('g').is_none() && digit_of('/').is_none() && digit_of(':').is_none(),
        digit_of(c) matches Some(d) ==> group_of(seq![c]) == Some(d as u16),
        s.len() < 4 && group_of(s).is_some() && digit_of(c).is_some() ==> group_of(s.push(c))
            == Some((16 * group_of(s).unwrap() + digit_of(c).unwrap()) as u16),
        digit_of(c).is_none() ==> group_of(s.push(c)).is_none(),
        s.len() == 0 || s.len() > 4 ==> group_of(s).is_none(),
{
    let one = seq![c];
    assert(one.drop_last() =~= Seq::empty());
    assert(digits_value(one.drop_last(), 16) == 0);
    let t = s.push(c);
    assert(t.drop_last() =~= s);
    assert(t[s.len() as int] == c);
    if group_of(s).is_some() {
        lemma_group_fits(s);
        if digit_of(c).is_some() {
            assert forall|i: int| 0 <= i < t.len() implies (digit_of(#[trigger] t[i]) matches Some(d)
                && d < 16) by {
                if i < s.len() {
                    assert(t[i] == s[i]);
                }
            }
        }
    }
}

/// The groups of two runs of pieces are those of the first and then those of the second.
pub proof fn lemma_groups_follow(p: Seq<Seq<char>>, q: Seq<Seq<char>>, ipv4_tail: bool)
    requires
        q.len() > 0,
    ensures
        groups_of(p + q, ipv4_tail) == match (groups_of(p, false), groups_of(q, ipv4_tail)) {
            (Some(a), Some(b)) => Some(a + b),
            _ => None,
        },
    decreases q.len(),
{
    let r = q.drop_last();
    assert((p + q).drop_last() =~= p + r);
    assert((p + q).last() == q.last());
    if r.len() > 0 {
        lemma_groups_follow(p, r, false);
    } else {
        assert(p + r =~= p);
        assert(groups_of(r, false) == Some(Seq::<u16>::empty()));
    }
    match (groups_of(p + q, ipv4_tail), groups_of(p, false), groups_of(q, ipv4_tail)) {
        (Some(x), Some(a), Some(b)) => {
            assert(x =~= a + b);
        },
        _ => {},
    }
}

/// A part of a dotted address is one to three decimal digits without a leading zero, for a number
/// that fits a byte.
pub proof fn lemma_octets(s: Seq<char>)
    ensures
        octet_of(s).is_some() <==> 1 <= s.len() <= 3 && (forall|i: int|
            0 <= i < s.len() ==> '0' <= #[trigger] s[i] <= '9') && (s.len() > 1 ==> s[0] != '0')
            && digits_value(s, 10) <= 255,
        octet_of(s) matches Some(n) ==> n == digits_value(s, 10),
{
    assert(all_digits(s, 10) <==> forall|i: int| 0 <= i < s.len() ==> '0' <= #[trigger] s[i] <= '9');
}

} // verus!
