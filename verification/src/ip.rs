//! IP address values and their textual forms.
//!
//! Addresses are held as plain integers (four octets, or eight 16-bit
//! groups) so that contracts can speak about them directly.  The parsers
//! accept dotted-quad IPv4 literals without leading zeros, and IPv6
//! literals made of hexadecimal groups with at most one `::` compression,
//! optionally ending in an embedded dotted-quad IPv4 tail.

use vstd::prelude::*;
use crate::bytes::spec_split;
use crate::bytes::split_bytes;

verus! {

broadcast use crate::bytes::lemma_vec_u8_deep_view;

/// An IPv4 address as its four dotted-quad octets.
#[derive(Clone, Copy, Debug, PartialEq, Eq, Hash, Structural)]
pub struct Ipv4Addr {
    pub a: u8,
    pub b: u8,
    pub c: u8,
    pub d: u8,
}

/// An IPv6 address as its eight 16-bit groups, most significant first.
#[derive(Clone, Copy, Debug, PartialEq, Eq, Hash, Structural)]
pub struct Ipv6Addr {
    pub g0: u16,
    pub g1: u16,
    pub g2: u16,
    pub g3: u16,
    pub g4: u16,
    pub g5: u16,
    pub g6: u16,
    pub g7: u16,
}

/// An address of either family.
#[derive(Clone, Copy, Debug, PartialEq, Eq, Hash, Structural)]
pub enum IpAddr {
    V4(Ipv4Addr),
    V6(Ipv6Addr),
}

impl IpAddr {
    pub open spec fn spec_is_v4(&self) -> bool {
        self is V4
    }

    #[verifier::when_used_as_spec(spec_is_v4)]
    pub fn is_v4(&self) -> (r: bool)
        ensures
            r == self.spec_is_v4(),
    {
        match self {
            IpAddr::V4(_) => true,
            IpAddr::V6(_) => false,
        }
    }
}

/// A resolver endpoint: an address, a port, and for IPv6 an optional
/// scope id (zero when absent).
#[derive(Clone, Copy, Debug, PartialEq, Eq, Hash, Structural)]
pub struct UpstreamAddr {
    pub ip: IpAddr,
    pub port: u16,
    pub scope_id: u32,
}

pub open spec fn spec_is_digit(b: u8) -> bool {
    48 <= b <= 57
}

/// Value of a string of decimal digits, most significant first.
pub open spec fn spec_dec_value(s: Seq<u8>) -> int
    decreases s.len(),
{
    if s.len() == 0 {
        0
    } else {
        spec_dec_value(s.drop_last()) * 10 + (s.last() - 48)
    }
}

/// A valid dotted-quad octet: one to three digits, no leading zero,
/// value at most 255.
pub open spec fn spec_valid_octet(s: Seq<u8>) -> bool {
    &&& 1 <= s.len() <= 3
    &&& (forall|i: int| 0 <= i < s.len() ==> spec_is_digit(#[trigger] s[i]))
    &&& (s.len() == 1 || s[0] != 48)
    &&& spec_dec_value(s) <= 255
}

proof fn lemma_dec_value_small(s: Seq<u8>)
    requires
        1 <= s.len() <= 3,
    ensures
        s.len() == 1 ==> spec_dec_value(s) == s[0] - 48,
        s.len() == 2 ==> spec_dec_value(s) == 10 * (s[0] - 48) + (s[1] - 48),
        s.len() == 3 ==> spec_dec_value(s) == 100 * (s[0] - 48) + 10 * (s[1] - 48) + (s[2] - 48),
{
    reveal_with_fuel(spec_dec_value, 4);
    if s.len() == 1 {
        assert(s.drop_last() =~= Seq::<u8>::empty());
    } else if s.len() == 2 {
        assert(s.drop_last() =~= seq![s[0]]);
        assert(s.drop_last().drop_last() =~= Seq::<u8>::empty());
    } else {
        assert(s.drop_last() =~= seq![s[0], s[1]]);
        assert(s.drop_last().drop_last() =~= seq![s[0]]);
        assert(s.drop_last().drop_last().drop_last() =~= Seq::<u8>::empty());
    }
}

/// Parses one decimal octet.  Returns its value exactly when the bytes
/// form a valid octet.
pub fn parse_octet(s: &[u8]) -> (r: Option<u8>)
    ensures
        r is Some <==> spec_valid_octet(s@),
        r is Some ==> r->0 == spec_dec_value(s@),
{
    if s.len() < 1 || s.len() > 3 {
        return None;
    }
    let mut i: usize = 0;
    while i < s.len()
        invariant
            0 <= i <= s@.len(),
            forall|j: int| 0 <= j < i ==> spec_is_digit(#[trigger] s@[j]),
        decreases s@.len() - i,
    {
        if s[i] < 48 || s[i] > 57 {
            return None;
        }
        i = i + 1;
    }
    if s.len() > 1 && s[0] == 48 {
        return None;
    }
    proof {
        lemma_dec_value_small(s@);
    }
    let v: u16 = if s.len() == 1 {
        (s[0] - 48) as u16
    } else if s.len() == 2 {
        10 * (s[0] - 48) as u16 + (s[1] - 48) as u16
    } else {
        100 * (s[0] - 48) as u16 + 10 * (s[1] - 48) as u16 + (s[2] - 48) as u16
    };
    if v > 255 {
        return None;
    }
    Some(v as u8)
}

/// The dotted-quad IPv4 grammar: four valid octets separated by dots.
pub open spec fn spec_parse_ipv4(s: Seq<u8>) -> Option<Ipv4Addr> {
    let p = spec_split(s, 46);
    if p.len() == 4 && spec_valid_octet(p[0]) && spec_valid_octet(p[1]) && spec_valid_octet(p[2])
        && spec_valid_octet(p[3]) {
        Some(
            Ipv4Addr {
                a: spec_dec_value(p[0]) as u8,
                b: spec_dec_value(p[1]) as u8,
                c: spec_dec_value(p[2]) as u8,
                d: spec_dec_value(p[3]) as u8,
            },
        )
    } else {
        None
    }
}

pub fn parse_ipv4(s: &[u8]) -> (r: Option<Ipv4Addr>)
    ensures
        r == spec_parse_ipv4(s@),
{
    let parts = split_bytes(s, 46);
    if parts.len() != 4 {
        return None;
    }
    proof {
        assert(forall|k: int| 0 <= k < parts@.len() ==> parts.deep_view()[k] == #[trigger] parts@[k]@);
    }
    let a = match parse_octet(parts[0].as_slice()) {
        Some(v) => v,
        None => {
            return None;
        },
    };
    let b = match parse_octet(parts[1].as_slice()) {
        Some(v) => v,
        None => {
            return None;
        },
    };
    let c = match parse_octet(parts[2].as_slice()) {
        Some(v) => v,
        None => {
            return None;
        },
    };
    let d = match parse_octet(parts[3].as_slice()) {
        Some(v) => v,
        None => {
            return None;
        },
    };
    Some(Ipv4Addr { a, b, c, d })
}

pub open spec fn spec_is_hex_digit(b: u8) -> bool {
    (48 <= b <= 57) || (97 <= b <= 102) || (65 <= b <= 70)
}

pub open spec fn spec_hex_digit_value(b: u8) -> int {
    if 48 <= b <= 57 {
        b - 48
    } else if 97 <= b <= 102 {
        b - 87
    } else {
        b - 55
    }
}

/// Value of a string of hexadecimal digits, most significant first.
pub open spec fn spec_hex_value(s: Seq<u8>) -> int
    decreases s.len(),
{
    if s.len() == 0 {
        0
    } else {
        spec_hex_value(s.drop_last()) * 16 + spec_hex_digit_value(s.last())
    }
}

/// A valid IPv6 group: one to four hexadecimal digits.
pub open spec fn spec_valid_group(s: Seq<u8>) -> bool {
    &&& 1 <= s.len() <= 4
    &&& (forall|i: int| 0 <= i < s.len() ==> spec_is_hex_digit(#[trigger] s[i]))
}

proof fn lemma_hex_value_small(s: Seq<u8>)
    requires
        1 <= s.len() <= 4,
    ensures
        s.len() == 1 ==> spec_hex_value(s) == spec_hex_digit_value(s[0]),
        s.len() == 2 ==> spec_hex_value(s) == 16 * spec_hex_digit_value(s[0]) + spec_hex_digit_value(s[1]),
        s.len() == 3 ==> spec_hex_value(s) == 256 * spec_hex_digit_value(s[0]) + 16 * spec_hex_digit_value(s[1]) + spec_hex_digit_value(s[2]),
        s.len() == 4 ==> spec_hex_value(s) == 4096 * spec_hex_digit_value(s[0]) + 256 * spec_hex_digit_value(s[1]) + 16 * spec_hex_digit_value(s[2]) + spec_hex_digit_value(s[3]),
{
    reveal_with_fuel(spec_hex_value, 5);
    if s.len() == 1 {
        assert(s.drop_last() =~= Seq::<u8>::empty());
    } else if s.len() == 2 {
        assert(s.drop_last() =~= seq![s[0]]);
        assert(s.drop_last().drop_last() =~= Seq::<u8>::empty());
    } else if s.len() == 3 {
        assert(s.drop_last() =~= seq![s[0], s[1]]);
        assert(s.drop_last().drop_last() =~= seq![s[0]]);
        assert(s.drop_last().drop_last().drop_last() =~= Seq::<u8>::empty());
    } else {
        assert(s.drop_last() =~= seq![s[0], s[1], s[2]]);
        assert(s.drop_last().drop_last() =~= seq![s[0], s[1]]);
        assert(s.drop_last().drop_last().drop_last() =~= seq![s[0]]);
        assert(s.drop_last().drop_last().drop_last().drop_last() =~= Seq::<u8>::empty());
    }
}

fn hex_digit_value(b: u8) -> (r: u8)
    requires
        spec_is_hex_digit(b),
    ensures
        r == spec_hex_digit_value(b),
        r <= 15,
{
    if 48 <= b && b <= 57 {
        b - 48
    } else if 97 <= b && b <= 102 {
        b - 87
    } else {
        b - 55
    }
}

/// Parses one hexadecimal group.  Returns its value exactly when the
/// bytes form a valid group.
pub fn parse_group(s: &[u8]) -> (r: Option<u16>)
    ensures
        r is Some <==> spec_valid_group(s@),
        r is Some ==> r->0 == spec_hex_value(s@),
{
    if s.len() < 1 || s.len() > 4 {
        return None;
    }
    let mut i: usize = 0;
    while i < s.len()
        invariant
            0 <= i <= s@.len(),
            forall|j: int| 0 <= j < i ==> spec_is_hex_digit(#[trigger] s@[j]),
        decreases s@.len() - i,
    {
        let b = s[i];
        if !((48 <= b && b <= 57) || (97 <= b && b <= 102) || (65 <= b && b <= 70)) {
            return None;
        }
        i = i + 1;
    }
    proof {
        lemma_hex_value_small(s@);
    }
    let v: u16 = if s.len() == 1 {
        hex_digit_value(s[0]) as u16
    } else if s.len() == 2 {
        16 * hex_digit_value(s[0]) as u16 + hex_digit_value(s[1]) as u16
    } else if s.len() == 3 {
        256 * hex_digit_value(s[0]) as u16 + 16 * hex_digit_value(s[1]) as u16 + hex_digit_value(s[2]) as u16
    } else {
        4096 * hex_digit_value(s[0]) as u16 + 256 * hex_digit_value(s[1]) as u16 + 16 * hex_digit_value(s[2]) as u16 + hex_digit_value(s[3]) as u16
    };
    Some(v)
}

/// All parts in `[lo, hi)` are valid groups.
pub open spec fn spec_all_groups(p: Seq<Seq<u8>>, lo: int, hi: int) -> bool {
    forall|k: int| lo <= k < hi ==> spec_valid_group(#[trigger] p[k])
}

/// The group values of the parts in `[lo, hi)`.
pub open spec fn spec_group_vals(p: Seq<Seq<u8>>, lo: int, hi: int) -> Seq<u16> {
    Seq::new((hi - lo) as nat, |k: int| spec_hex_value(p[lo + k]) as u16)
}

pub open spec fn spec_zero_groups(n: int) -> Seq<u16> {
    Seq::new(n as nat, |k: int| 0u16)
}

/// The address made of eight groups, most significant first.
pub open spec fn spec_ip6_from(g: Seq<u16>) -> Ipv6Addr {
    Ipv6Addr {
        g0: g[0],
        g1: g[1],
        g2: g[2],
        g3: g[3],
        g4: g[4],
        g5: g[5],
        g6: g[6],
        g7: g[7],
    }
}

/// An interior empty part with valid groups on both sides: the shape a
/// single mid-string `::` leaves after splitting on `:`.
pub open spec fn spec_mid_empty(p: Seq<Seq<u8>>, i: int) -> bool {
    &&& 0 < i < p.len() - 1
    &&& p[i].len() == 0
    &&& spec_all_groups(p, 0, i)
    &&& spec_all_groups(p, i + 1, p.len() as int)
}

/// The six leading groups of an IPv4-embedded literal, read from the
/// parts before the dotted-quad tail: six plain groups, or one `::`
/// compression at the start, directly before the tail, or in the
/// middle.
pub open spec fn spec_head_groups(p: Seq<Seq<u8>>) -> Option<Seq<u16>> {
    let m = p.len() as int;
    if m == 6 && spec_all_groups(p, 0, 6) {
        Some(spec_group_vals(p, 0, 6))
    } else if 2 <= m <= 7 && p[0].len() == 0 && p[1].len() == 0 && spec_all_groups(p, 2, m) {
        Some(spec_zero_groups(8 - m) + spec_group_vals(p, 2, m))
    } else if 2 <= m <= 6 && p[m - 1].len() == 0 && spec_all_groups(p, 0, m - 1) {
        Some(spec_group_vals(p, 0, m - 1) + spec_zero_groups(7 - m))
    } else if 3 <= m <= 6 && (exists|i: int| spec_mid_empty(p, i)) {
        let i = choose|i: int| spec_mid_empty(p, i);
        Some(spec_group_vals(p, 0, i) + spec_zero_groups(7 - m) + spec_group_vals(p, i + 1, m))
    } else {
        None
    }
}

/// The IPv6 grammar over the parts of the literal split on `:`: eight
/// plain groups, or one `::` compression standing for the missing zero
/// groups, at the start, the end, in the middle, or alone; the last
/// part may instead be an embedded dotted-quad IPv4 tail supplying the
/// final two groups.
pub open spec fn spec_parse_ipv6(s: Seq<u8>) -> Option<Ipv6Addr> {
    let p = spec_split(s, 58);
    let n = p.len() as int;
    if n >= 2 && spec_parse_ipv4(p[n - 1]) is Some {
        let v4 = spec_parse_ipv4(p[n - 1])->0;
        match spec_head_groups(p.take(n - 1)) {
            None => None,
            Some(g6) => Some(
                spec_ip6_from(
                    g6 + seq![(256 * v4.a + v4.b) as u16, (256 * v4.c + v4.d) as u16],
                ),
            ),
        }
    } else if n == 8 && spec_all_groups(p, 0, 8) {
        Some(spec_ip6_from(spec_group_vals(p, 0, 8)))
    } else if n == 3 && p[0].len() == 0 && p[1].len() == 0 && p[2].len() == 0 {
        Some(spec_ip6_from(spec_zero_groups(8)))
    } else if 3 <= n <= 9 && p[0].len() == 0 && p[1].len() == 0 && spec_all_groups(p, 2, n) {
        Some(spec_ip6_from(spec_zero_groups(10 - n) + spec_group_vals(p, 2, n)))
    } else if 3 <= n <= 9 && p[n - 1].len() == 0 && p[n - 2].len() == 0 && spec_all_groups(p, 0, n - 2) {
        Some(spec_ip6_from(spec_group_vals(p, 0, n - 2) + spec_zero_groups(10 - n)))
    } else if 3 <= n <= 8 && (exists|i: int| spec_mid_empty(p, i)) {
        let i = choose|i: int| spec_mid_empty(p, i);
        Some(spec_ip6_from(spec_group_vals(p, 0, i) + spec_zero_groups(9 - n) + spec_group_vals(p, i + 1, n)))
    } else {
        None
    }
}

/// Parses the parts in `[lo, hi)` as groups; succeeds exactly when all
/// are valid.
fn parse_group_range(parts: &Vec<Vec<u8>>, lo: usize, hi: usize) -> (r: Option<Vec<u16>>)
    requires
        lo <= hi <= parts@.len(),
    ensures
        r is Some <==> spec_all_groups(parts.deep_view(), lo as int, hi as int),
        r is Some ==> r->0@ == spec_group_vals(parts.deep_view(), lo as int, hi as int),
{
    let mut out: Vec<u16> = Vec::new();
    let mut k: usize = lo;
    while k < hi
        invariant
            lo <= k <= hi <= parts@.len(),
            spec_all_groups(parts.deep_view(), lo as int, k as int),
            out@ == spec_group_vals(parts.deep_view(), lo as int, k as int),
        decreases hi - k,
    {
        proof {
            assert(parts.deep_view()[k as int] == parts@[k as int]@);
        }
        match parse_group(parts[k].as_slice()) {
            Some(v) => {
                out.push(v);
                proof {
                    assert(out@ =~= spec_group_vals(parts.deep_view(), lo as int, k + 1));
                }
            },
            None => {
                proof {
                    assert(!spec_valid_group(parts.deep_view()[k as int]));
                }
                return None;
            },
        }
        k = k + 1;
    }
    Some(out)
}

fn push_zero_groups(out: &mut Vec<u16>, n: usize)
    ensures
        final(out)@ == old(out)@ + spec_zero_groups(n as int),
{
    let mut k: usize = 0;
    while k < n
        invariant
            0 <= k <= n,
            out@ == old(out)@ + spec_zero_groups(k as int),
        decreases n - k,
    {
        out.push(0u16);
        proof {
            assert(out@ =~= old(out)@ + spec_zero_groups(k + 1));
        }
        k = k + 1;
    }
}

/// Parses the first `m` parts as the six leading groups of an
/// IPv4-embedded literal.
fn head_groups(parts: &Vec<Vec<u8>>, m: usize) -> (r: Option<Vec<u16>>)
    requires
        m <= parts@.len(),
    ensures
        r is Some <==> spec_head_groups(parts.deep_view().take(m as int)) is Some,
        r matches Some(v) ==> Some(v@) == spec_head_groups(parts.deep_view().take(m as int)),
{
    let ghost p = parts.deep_view();
    let ghost h = p.take(m as int);
    proof {
        assert(h.len() == m);
        assert(forall|k: int| 0 <= k < m ==> #[trigger] h[k] == p[k]);
    }
    if m == 6 {
        if let Some(gs) = parse_group_range(parts, 0, 6) {
            proof {
                assert forall|k: int| 0 <= k < 6 implies spec_valid_group(#[trigger] h[k]) by {
                    assert(h[k] == p[k]);
                }
                assert(gs@ =~= spec_group_vals(h, 0, 6));
            }
            return Some(gs);
        }
        proof {
            assert(!spec_all_groups(h, 0, 6)) by {
                if spec_all_groups(h, 0, 6) {
                    assert forall|k: int| 0 <= k < 6 implies spec_valid_group(#[trigger] p[k]) by {
                        assert(h[k] == p[k]);
                        assert(spec_valid_group(h[k]));
                    }
                    assert(spec_all_groups(p, 0, 6));
                }
            }
        }
    }
    if 2 <= m && m <= 7 && parts[0].len() == 0 && parts[1].len() == 0 {
        proof {
            assert(p[0] == parts@[0].deep_view());
            assert(p[1] == parts@[1].deep_view());
        }
        if let Some(tail) = parse_group_range(parts, 2, m) {
            let mut gs: Vec<u16> = Vec::new();
            push_zero_groups(&mut gs, 8 - m);
            let mut t = tail;
            gs.append(&mut t);
            proof {
                assert forall|k: int| 2 <= k < m implies spec_valid_group(#[trigger] h[k]) by {
                    assert(h[k] == p[k]);
                }
                assert(spec_group_vals(h, 2, m as int) =~= spec_group_vals(p, 2, m as int));
                assert(gs@ =~= spec_zero_groups(8 - m as int) + spec_group_vals(h, 2, m as int));
            }
            return Some(gs);
        }
        proof {
            assert(!spec_all_groups(h, 2, m as int)) by {
                if spec_all_groups(h, 2, m as int) {
                    assert forall|k: int| 2 <= k < m implies spec_valid_group(#[trigger] p[k]) by {
                        assert(h[k] == p[k]);
                        assert(spec_valid_group(h[k]));
                    }
                    assert(spec_all_groups(p, 2, m as int));
                }
            }
            // the first part is empty, so no case asking the leading
            // parts to be valid groups can hold either
            if 2 <= m <= 6 && h[m - 1].len() == 0 && spec_all_groups(h, 0, m - 1) {
                assert(spec_valid_group(h[0]));
                assert(false);
            }
            if exists|i: int| spec_mid_empty(h, i) {
                let i = choose|i: int| spec_mid_empty(h, i);
                assert(spec_valid_group(h[0]));
                assert(false);
            }
        }
        return None;
    }
    proof {
        if 2 <= m <= 7 {
            assert(p[0] == parts@[0].deep_view());
            assert(p[1] == parts@[1].deep_view());
        }
    }
    if 2 <= m && m <= 6 && parts[m - 1].len() == 0 {
        proof {
            assert(p[m - 1] == parts@[m - 1].deep_view());
        }
        if let Some(head) = parse_group_range(parts, 0, m - 1) {
            let mut gs = head;
            push_zero_groups(&mut gs, 7 - m);
            proof {
                assert forall|k: int| 0 <= k < m - 1 implies spec_valid_group(#[trigger] h[k]) by {
                    assert(h[k] == p[k]);
                }
                assert(spec_group_vals(h, 0, m - 1) =~= spec_group_vals(p, 0, m - 1));
                assert(gs@ =~= spec_group_vals(h, 0, m - 1) + spec_zero_groups(7 - m as int));
            }
            return Some(gs);
        }
        proof {
            assert(!spec_all_groups(h, 0, m - 1)) by {
                if spec_all_groups(h, 0, m - 1) {
                    assert forall|k: int| 0 <= k < m - 1 implies spec_valid_group(
                        #[trigger] p[k],
                    ) by {
                        assert(h[k] == p[k]);
                        assert(spec_valid_group(h[k]));
                    }
                    assert(spec_all_groups(p, 0, m - 1));
                }
            }
            // a mid-string compression cannot exist either: its right
            // side would have to end at the empty last part
            if exists|i: int| spec_mid_empty(h, i) {
                let i = choose|i: int| spec_mid_empty(h, i);
                assert(spec_valid_group(h[m - 1]));
                assert(false);
            }
        }
        return None;
    }
    proof {
        if 2 <= m <= 6 {
            assert(p[m - 1] == parts@[m - 1].deep_view());
        }
    }
    if 3 <= m && m <= 6 {
        // look for the single interior empty part left by a mid-string `::`
        let mut e: usize = 0;
        while e < m && parts[e].len() != 0
            invariant
                0 <= e <= m <= parts@.len(),
                p == parts.deep_view(),
                h == p.take(m as int),
                forall|j: int| 0 <= j < e ==> p[j].len() != 0,
            decreases m - e,
        {
            proof {
                assert(p[e as int] == parts@[e as int].deep_view());
            }
            e = e + 1;
        }
        proof {
            if e < m {
                assert(p[e as int] == parts@[e as int].deep_view());
            }
        }
        if 0 < e && e < m - 1 {
            if let Some(head) = parse_group_range(parts, 0, e) {
                if let Some(tail) = parse_group_range(parts, e + 1, m) {
                    proof {
                        assert forall|k: int| 0 <= k < e implies spec_valid_group(
                            #[trigger] h[k],
                        ) by {
                            assert(h[k] == p[k]);
                        }
                        assert forall|k: int| e + 1 <= k < m implies spec_valid_group(
                            #[trigger] h[k],
                        ) by {
                            assert(h[k] == p[k]);
                        }
                        assert(spec_mid_empty(h, e as int));
                        let i = choose|i: int| spec_mid_empty(h, i);
                        if i != e as int {
                            if i < e as int {
                                assert(h[i].len() != 0);
                            } else {
                                assert(spec_valid_group(h[i]));
                            }
                            assert(false);
                        }
                    }
                    let mut gs = head;
                    push_zero_groups(&mut gs, 7 - m);
                    let mut t = tail;
                    gs.append(&mut t);
                    proof {
                        assert(spec_group_vals(h, 0, e as int) =~= spec_group_vals(p, 0, e as int));
                        assert(spec_group_vals(h, e + 1, m as int) =~= spec_group_vals(
                            p,
                            e + 1,
                            m as int,
                        ));
                        assert(gs@ =~= spec_group_vals(h, 0, e as int) + spec_zero_groups(
                            7 - m as int,
                        ) + spec_group_vals(h, e + 1, m as int));
                    }
                    return Some(gs);
                }
            }
            proof {
                assert(forall|j: int| 0 <= j < e ==> #[trigger] h[j].len() != 0);
                assert(!(spec_all_groups(h, 0, e as int) && spec_all_groups(h, e + 1, m as int)))
                    by {
                    if spec_all_groups(h, 0, e as int) && spec_all_groups(h, e + 1, m as int) {
                        assert forall|k: int| 0 <= k < e implies spec_valid_group(
                            #[trigger] p[k],
                        ) by {
                            assert(h[k] == p[k]);
                            assert(spec_valid_group(h[k]));
                        }
                        assert forall|k: int| e + 1 <= k < m implies spec_valid_group(
                            #[trigger] p[k],
                        ) by {
                            assert(h[k] == p[k]);
                            assert(spec_valid_group(h[k]));
                        }
                        assert(spec_all_groups(p, 0, e as int));
                        assert(spec_all_groups(p, e + 1, m as int));
                    }
                }
                lemma_no_mid_empty_when_sides_fail(h, e as int);
            }
            return None;
        }
        proof {
            if exists|i: int| spec_mid_empty(h, i) {
                let i = choose|i: int| spec_mid_empty(h, i);
                if e == m {
                    assert(h[i].len() != 0);
                } else {
                    if e == 0 {
                        assert(spec_valid_group(h[0]));
                    } else {
                        if (e as int) < i {
                            assert(spec_valid_group(h[e as int]));
                        } else {
                            assert(h[i].len() != 0);
                        }
                    }
                }
                assert(false);
            }
        }
        return None;
    }
    None
}

/// Parses an IPv6 literal; the result is exactly what the grammar
/// `spec_parse_ipv6` assigns to the bytes.
pub fn parse_ipv6(s: &[u8]) -> (r: Option<Ipv6Addr>)
    ensures
        r == spec_parse_ipv6(s@),
{
    let parts = split_bytes(s, 58);
    let ghost p = parts.deep_view();
    proof {
        crate::bytes::lemma_spec_split_len(s@, 58);
    }
    let n = parts.len();

    if n >= 2 {
        proof {
            assert(p[n - 1] == parts@[n - 1].deep_view());
        }
        if let Some(v4) = parse_ipv4(parts[n - 1].as_slice()) {
            match head_groups(&parts, n - 1) {
                Some(g6) => {
                    let mut gs = g6;
                    gs.push(256 * (v4.a as u16) + (v4.b as u16));
                    gs.push(256 * (v4.c as u16) + (v4.d as u16));
                    proof {
                        assert(gs@ =~= spec_head_groups(p.take(n - 1))->0 + seq![
                            (256 * v4.a + v4.b) as u16,
                            (256 * v4.c + v4.d) as u16,
                        ]);
                    }
                    return Some(ip6_from_vec(&gs));
                },
                None => {
                    return None;
                },
            }
        }
    }

    if n == 8 {
        if let Some(gs) = parse_group_range(&parts, 0, 8) {
            return Some(ip6_from_vec(&gs));
        }
    }
    if n == 3 && parts[0].len() == 0 && parts[1].len() == 0 && parts[2].len() == 0 {
        let mut gs: Vec<u16> = Vec::new();
        push_zero_groups(&mut gs, 8);
        return Some(ip6_from_vec(&gs));
    }
    if 3 <= n && n <= 9 && parts[0].len() == 0 && parts[1].len() == 0 {
        if let Some(tail) = parse_group_range(&parts, 2, n) {
            let mut gs: Vec<u16> = Vec::new();
            push_zero_groups(&mut gs, 10 - n);
            let mut t = tail;
            gs.append(&mut t);
            proof {
                assert(gs@ =~= spec_zero_groups(10 - n as int) + spec_group_vals(p, 2, n as int));
            }
            return Some(ip6_from_vec(&gs));
        }
    }
    if 3 <= n && n <= 9 && parts[n - 1].len() == 0 && parts[n - 2].len() == 0 {
        if let Some(head) = parse_group_range(&parts, 0, n - 2) {
            let mut gs = head;
            push_zero_groups(&mut gs, 10 - n);
            return Some(ip6_from_vec(&gs));
        }
    }
    if 3 <= n && n <= 8 {
        // look for the single interior empty part left by a mid-string `::`
        let mut e: usize = 0;
        while e < n && parts[e].len() != 0
            invariant
                0 <= e <= n == parts@.len(),
                p == parts.deep_view(),
                forall|j: int| 0 <= j < e ==> p[j].len() != 0,
            decreases n - e,
        {
            e = e + 1;
        }
        if 0 < e && e < n - 1 {
            if let Some(head) = parse_group_range(&parts, 0, e) {
                if let Some(tail) = parse_group_range(&parts, e + 1, n) {
                    proof {
                        assert(spec_mid_empty(p, e as int));
                        let i = choose|i: int| spec_mid_empty(p, i);
                        if i != e as int {
                            if i < e as int {
                                assert(p[i].len() != 0);
                            } else {
                                assert(spec_valid_group(p[i]));
                            }
                            assert(false);
                        }
                    }
                    let mut gs = head;
                    push_zero_groups(&mut gs, 9 - n);
                    let mut t = tail;
                    gs.append(&mut t);
                    proof {
                        assert(gs@ =~= spec_group_vals(p, 0, e as int) + spec_zero_groups(9 - n as int) + spec_group_vals(p, e + 1, n as int));
                    }
                    return Some(ip6_from_vec(&gs));
                }
            }
            proof {
                lemma_no_mid_empty_when_sides_fail(p, e as int);
            }
            return None;
        }
        proof {
            if exists|i: int| spec_mid_empty(p, i) {
                let i = choose|i: int| spec_mid_empty(p, i);
                if e == n {
                    assert(p[i].len() != 0);
                } else {
                    // the first empty part is at the border, so an interior
                    // empty with all-valid groups on its left cannot exist
                    if e == 0 {
                        assert(spec_valid_group(p[0]));
                    } else {
                        if (e as int) < i {
                            assert(spec_valid_group(p[e as int]));
                        } else {
                            assert(p[i].len() != 0);
                        }
                    }
                }
                assert(false);
            }
        }
        return None;
    }
    None
}

proof fn lemma_no_mid_empty_when_sides_fail(p: Seq<Seq<u8>>, e: int)
    requires
        0 < e < p.len() - 1,
        p[e].len() == 0,
        forall|j: int| 0 <= j < e ==> p[j].len() != 0,
        !(spec_all_groups(p, 0, e) && spec_all_groups(p, e + 1, p.len() as int)),
    ensures
        !(exists|i: int| spec_mid_empty(p, i)),
{
    if exists|i: int| spec_mid_empty(p, i) {
        let i = choose|i: int| spec_mid_empty(p, i);
        if i < e {
            assert(p[i].len() != 0);
        } else if i > e {
            assert(spec_valid_group(p[e]));
        }
        assert(i == e);
        assert(spec_all_groups(p, 0, e));
        assert(spec_all_groups(p, e + 1, p.len() as int));
    }
}

fn ip6_from_vec(gs: &Vec<u16>) -> (r: Ipv6Addr)
    requires
        gs@.len() == 8,
    ensures
        r == spec_ip6_from(gs@),
{
    Ipv6Addr {
        g0: gs[0],
        g1: gs[1],
        g2: gs[2],
        g3: gs[3],
        g4: gs[4],
        g5: gs[5],
        g6: gs[6],
        g7: gs[7],
    }
}

/// An IP literal of either family: the IPv4 grammar is tried first.
pub open spec fn spec_parse_ip(s: Seq<u8>) -> Option<IpAddr> {
    match spec_parse_ipv4(s) {
        Some(v4) => Some(IpAddr::V4(v4)),
        None => match spec_parse_ipv6(s) {
            Some(v6) => Some(IpAddr::V6(v6)),
            None => None,
        },
    }
}

pub fn parse_ip(s: &[u8]) -> (r: Option<IpAddr>)
    ensures
        r == spec_parse_ip(s@),
{
    match parse_ipv4(s) {
        Some(v4) => Some(IpAddr::V4(v4)),
        None => match parse_ipv6(s) {
            Some(v6) => Some(IpAddr::V6(v6)),
            None => None,
        },
    }
}

} // verus!
