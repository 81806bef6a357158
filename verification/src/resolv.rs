//! The host resolver-file reader.
//!
//! Lines are stripped of comments and tokenized on whitespace; each
//! `nameserver` line contributes one upstream endpoint on port 53.  An
//! IPv6 address may carry a scope suffix, either a numeric id or an
//! interface name that the operating system resolves to one; the final
//! list is truncated to the first three entries.

use vstd::prelude::*;
use vstd::string::StringExecFns;
use crate::bytes::{spec_split, spec_is_space, split_bytes, is_space};
use crate::error::{AardvarkError, AardvarkResult};
use crate::ip::{IpAddr, UpstreamAddr, spec_parse_ip, parse_ip};

verus! {

broadcast use crate::bytes::lemma_vec_u8_deep_view;

/// The scope suffix of a resolver address, when present.
pub enum ScopeSpec {
    Absent,
    Numeric(u32),
    Named(Vec<u8>),
}

pub enum ScopeSpecView {
    Absent,
    Numeric(u32),
    Named(Seq<u8>),
}

impl DeepView for ScopeSpec {
    type V = ScopeSpecView;

    open spec fn deep_view(&self) -> ScopeSpecView {
        match self {
            ScopeSpec::Absent => ScopeSpecView::Absent,
            ScopeSpec::Numeric(v) => ScopeSpecView::Numeric(*v),
            ScopeSpec::Named(n) => ScopeSpecView::Named(n@),
        }
    }
}

/// One accepted `nameserver` line, before scope resolution.
pub struct ResolvEntry {
    pub ip: IpAddr,
    pub scope: ScopeSpec,
}

pub struct ResolvEntryView {
    pub ip: IpAddr,
    pub scope: ScopeSpecView,
}

impl DeepView for ResolvEntry {
    type V = ResolvEntryView;

    open spec fn deep_view(&self) -> ResolvEntryView {
        ResolvEntryView { ip: self.ip, scope: self.scope.deep_view() }
    }
}

// --- tokenizing ----------------------------------------------------------

/// The first position of a comment character (`#` or `;`), or the
/// length when there is none.
pub open spec fn spec_comment_pos(s: Seq<u8>) -> int
    decreases s.len(),
{
    if s.len() == 0 {
        0
    } else if s[0] == 35 || s[0] == 59 {
        0
    } else {
        1 + spec_comment_pos(s.drop_first())
    }
}

/// The first position of a whitespace byte, or the length.
pub open spec fn spec_space_pos(s: Seq<u8>) -> int
    decreases s.len(),
{
    if s.len() == 0 {
        0
    } else if spec_is_space(s[0]) {
        0
    } else {
        1 + spec_space_pos(s.drop_first())
    }
}

/// The whitespace-separated tokens of a line.
pub open spec fn spec_tokens(s: Seq<u8>) -> Seq<Seq<u8>>
    decreases s.len(),
    via spec_tokens_dec
{
    if s.len() == 0 {
        Seq::empty()
    } else if spec_is_space(s[0]) {
        spec_tokens(s.drop_first())
    } else {
        let i = spec_space_pos(s);
        seq![s.take(i)] + spec_tokens(s.skip(i))
    }
}

#[via_fn]
proof fn spec_tokens_dec(s: Seq<u8>) {
    lemma_space_pos_bounds(s);
}

pub proof fn lemma_space_pos_bounds(s: Seq<u8>)
    ensures
        0 <= spec_space_pos(s) <= s.len(),
        s.len() > 0 && !spec_is_space(s[0]) ==> spec_space_pos(s) >= 1,
        forall|j: int| 0 <= j < spec_space_pos(s) ==> !spec_is_space(#[trigger] s[j]),
        spec_space_pos(s) < s.len() ==> spec_is_space(s[spec_space_pos(s)]),
    decreases s.len(),
{
    if s.len() > 0 && !spec_is_space(s[0]) {
        lemma_space_pos_bounds(s.drop_first());
        assert forall|j: int| 0 <= j < spec_space_pos(s) implies !spec_is_space(#[trigger] s[j]) by {
            if j > 0 {
                assert(s.drop_first()[j - 1] == s[j]);
            }
        }
        if spec_space_pos(s) < s.len() {
            assert(s.drop_first()[spec_space_pos(s) - 1] == s[spec_space_pos(s)]);
        }
    }
}

/// The tokens of a line, computed left to right.
pub fn tokens_of(s: &[u8]) -> (r: Vec<Vec<u8>>)
    ensures
        r.deep_view() == spec_tokens(s@),
{
    let mut out: Vec<Vec<u8>> = Vec::new();
    let mut p: usize = 0;
    proof {
        assert(s@.skip(0) =~= s@);
        assert(out.deep_view() + spec_tokens(s@.skip(0)) =~~= spec_tokens(s@));
    }
    while p < s.len()
        invariant
            0 <= p <= s@.len(),
            out.deep_view() + spec_tokens(s@.skip(p as int)) == spec_tokens(s@),
        decreases s@.len() - p,
    {
        let ghost pre = out.deep_view();
        proof {
            assert(s@.skip(p as int).drop_first() =~= s@.skip(p + 1));
        }
        if is_space(s[p]) {
            p = p + 1;
            proof {
                assert(pre + spec_tokens(s@.skip(p as int)) =~~= spec_tokens(s@));
            }
            continue;
        }
        // scan the token
        let start = p;
        let mut q: usize = p;
        while q < s.len() && !is_space(s[q])
            invariant
                p <= q <= s@.len(),
                forall|j: int| p <= j < q ==> !spec_is_space(#[trigger] s@[j]),
            decreases s@.len() - q,
        {
            q = q + 1;
        }
        proof {
            lemma_space_pos_bounds(s@.skip(p as int));
            assert forall|j: int| 0 <= j < q - p implies !spec_is_space(
                #[trigger] s@.skip(p as int)[j],
            ) by {
                assert(s@.skip(p as int)[j] == s@[p + j]);
            }
            if q < s@.len() {
                assert(s@.skip(p as int)[q - p] == s@[q as int]);
                assert(spec_space_pos(s@.skip(p as int)) == q - p) by {
                    let i = spec_space_pos(s@.skip(p as int));
                    if i < q - p {
                        assert(!spec_is_space(s@.skip(p as int)[i]));
                    }
                }
            } else {
                assert(spec_space_pos(s@.skip(p as int)) == q - p) by {
                    let i = spec_space_pos(s@.skip(p as int));
                    if i < q - p {
                        assert(!spec_is_space(s@.skip(p as int)[i]));
                    }
                }
            }
        }
        let tok = crate::bytes::sub_bytes(s, start, q);
        out.push(tok);
        proof {
            let sk = s@.skip(p as int);
            let i = spec_space_pos(sk);
            assert(sk.take(i) =~= s@.subrange(start as int, q as int));
            assert(sk.skip(i) =~= s@.skip(q as int));
            assert(spec_tokens(sk) == seq![sk.take(i)] + spec_tokens(sk.skip(i)));
            assert(out.deep_view() =~~= pre + seq![sk.take(i)]);
            assert(out.deep_view() + spec_tokens(s@.skip(q as int)) =~~= spec_tokens(s@));
        }
        p = q;
    }
    proof {
        assert(s@.skip(s@.len() as int) =~= Seq::<u8>::empty());
        assert(out.deep_view() + Seq::<Seq<u8>>::empty() =~~= out.deep_view());
    }
    out
}

// --- the line grammar ----------------------------------------------------

/// The bytes of the keyword `nameserver`.
pub open spec fn spec_nameserver_kw() -> Seq<u8> {
    seq![110u8, 97u8, 109u8, 101u8, 115u8, 101u8, 114u8, 118u8, 101u8, 114u8]
}

fn nameserver_kw() -> (r: Vec<u8>)
    ensures
        r@ == spec_nameserver_kw(),
{
    let mut v: Vec<u8> = Vec::new();
    v.push(110);
    v.push(97);
    v.push(109);
    v.push(101);
    v.push(115);
    v.push(101);
    v.push(114);
    v.push(118);
    v.push(101);
    v.push(114);
    proof {
        assert(v@ =~= spec_nameserver_kw());
    }
    v
}

/// The digit part of a decimal scope id: one optional leading plus
/// sign is stripped, as the usual integer grammar accepts it.
pub open spec fn spec_u32_digits(s: Seq<u8>) -> Seq<u8> {
    if s.len() >= 1 && s[0] == 43 {
        s.drop_first()
    } else {
        s
    }
}

/// Whether the bytes are a decimal `u32`: an optional plus sign, then
/// nonempty digits whose value fits.
pub open spec fn spec_is_u32(s: Seq<u8>) -> bool {
    let d = spec_u32_digits(s);
    &&& d.len() >= 1
    &&& (forall|i: int| 0 <= i < d.len() ==> crate::ip::spec_is_digit(#[trigger] d[i]))
    &&& crate::ip::spec_dec_value(d) <= 0xffff_ffff
}

/// Parse a decimal `u32`, with an optional leading plus sign.
pub fn parse_u32(full: &[u8]) -> (r: Option<u32>)
    ensures
        r is Some <==> spec_is_u32(full@),
        r matches Some(v) ==> v == crate::ip::spec_dec_value(spec_u32_digits(full@)),
{
    let s: &[u8] = if full.len() >= 1 && full[0] == 43 {
        vstd::slice::slice_subrange(full, 1, full.len())
    } else {
        full
    };
    proof {
        assert(s@ =~= spec_u32_digits(full@));
    }
    if s.len() < 1 {
        return None;
    }
    let mut i: usize = 0;
    let mut acc: u64 = 0;
    while i < s.len()
        invariant
            s@ == spec_u32_digits(full@),
            0 <= i <= s@.len(),
            forall|j: int| 0 <= j < i ==> crate::ip::spec_is_digit(#[trigger] s@[j]),
            acc == crate::ip::spec_dec_value(s@.take(i as int)),
            acc <= 0xffff_ffff,
        decreases s@.len() - i,
    {
        let b = s[i];
        if b < 48 || b > 57 {
            return None;
        }
        let next: u64 = acc * 10 + ((b - 48) as u64);
        proof {
            assert(s@.take(i + 1).drop_last() =~= s@.take(i as int));
            assert(s@.take(i + 1).last() == s@[i as int]);
        }
        if next > 0xffff_ffff {
            proof {
                assert(!spec_is_u32(s@)) by {
                    if forall|j: int| 0 <= j < s@.len() ==> crate::ip::spec_is_digit(
                        #[trigger] s@[j],
                    ) {
                        lemma_dec_value_monotonic(s@.take(i + 1), s@);
                    }
                }
            }
            return None;
        }
        acc = next;
        i = i + 1;
    }
    proof {
        assert(s@.take(s@.len() as int) =~= s@);
    }
    Some(acc as u32)
}

/// A digit string's value does not shrink when digits are appended.
proof fn lemma_dec_value_monotonic(p: Seq<u8>, s: Seq<u8>)
    requires
        p.len() <= s.len(),
        p == s.take(p.len() as int),
        forall|i: int| 0 <= i < s.len() ==> crate::ip::spec_is_digit(#[trigger] s[i]),
    ensures
        crate::ip::spec_dec_value(p) <= crate::ip::spec_dec_value(s),
    decreases s.len() - p.len(),
{
    if p.len() < s.len() {
        let p2 = s.take(p.len() as int + 1);
        assert(p2.drop_last() =~= p);
        assert(p2.last() == s[p.len() as int]);
        assert(crate::ip::spec_dec_value(p2) == crate::ip::spec_dec_value(p) * 10 + (p2.last()
            - 48));
        assert(crate::ip::spec_dec_value(p) >= 0) by {
            assert(forall|i: int| 0 <= i < p.len() ==> crate::ip::spec_is_digit(#[trigger] p[i]));
            lemma_dec_value_nonneg(p);
        }
        lemma_dec_value_monotonic(p2, s);
    } else {
        assert(p =~= s);
    }
}

proof fn lemma_dec_value_nonneg(s: Seq<u8>)
    requires
        forall|i: int| 0 <= i < s.len() ==> crate::ip::spec_is_digit(#[trigger] s[i]),
    ensures
        crate::ip::spec_dec_value(s) >= 0,
    decreases s.len(),
{
    if s.len() > 0 {
        assert(forall|i: int|
            0 <= i < s.drop_last().len() ==> crate::ip::spec_is_digit(#[trigger] s.drop_last()[i]));
        lemma_dec_value_nonneg(s.drop_last());
    }
}

/// What one line contributes: an entry, nothing, or a malformed-address
/// error.
pub open spec fn spec_resolv_line(line: Seq<u8>) -> Option<Option<ResolvEntryView>> {
    let cut = line.take(spec_comment_pos(line));
    let toks = spec_tokens(cut);
    if toks.len() >= 1 && toks[0] == spec_nameserver_kw() && toks.len() >= 2 {
        let addr = toks[1];
        let pct = spec_split(addr, 37);
        if pct.len() >= 2 {
            // one or more scope separators: the address is everything
            // before the first, the scope everything after it
            let ip_part = pct[0];
            let scope_part = addr.skip(ip_part.len() as int + 1);
            match spec_parse_ip(ip_part) {
                None => None,
                Some(ip) => if ip is V4 {
                    None
                } else if spec_is_u32(scope_part) {
                    Some(
                        Some(
                            ResolvEntryView {
                                ip: ip,
                                scope: ScopeSpecView::Numeric(
                                    crate::ip::spec_dec_value(spec_u32_digits(scope_part)) as u32,
                                ),
                            },
                        ),
                    )
                } else {
                    Some(Some(ResolvEntryView { ip: ip, scope: ScopeSpecView::Named(scope_part) }))
                },
            }
        } else {
            match spec_parse_ip(addr) {
                None => None,
                Some(ip) => Some(Some(ResolvEntryView { ip: ip, scope: ScopeSpecView::Absent })),
            }
        }
    } else {
        Some(None)
    }
}

/// The entries of every `nameserver` line, or absence on the first
/// malformed one.
pub open spec fn spec_resolv_entries_at(lines: Seq<Seq<u8>>, k: int) -> Option<
    Seq<ResolvEntryView>,
>
    decreases lines.len() - k,
{
    if k < 0 || k >= lines.len() {
        Some(Seq::empty())
    } else {
        match spec_resolv_line(lines[k]) {
            None => None,
            Some(None) => spec_resolv_entries_at(lines, k + 1),
            Some(Some(e)) => match spec_resolv_entries_at(lines, k + 1) {
                None => None,
                Some(rest) => Some(seq![e] + rest),
            },
        }
    }
}

pub open spec fn spec_resolv_entries(content: Seq<u8>) -> Option<Seq<ResolvEntryView>> {
    spec_resolv_entries_at(spec_split(content, 10), 0)
}

/// Parse the resolver file into its `nameserver` entries, before scope
/// resolution and truncation.
pub fn parse_resolv_entries(content: &[u8]) -> (r: Option<Vec<ResolvEntry>>)
    ensures
        r is Some <==> spec_resolv_entries(content@) is Some,
        r matches Some(v) ==> Some(v.deep_view()) == spec_resolv_entries(content@),
{
    let lines = split_bytes(content, 10);
    let ghost ls = lines.deep_view();
    let kw = nameserver_kw();
    let mut out: Vec<ResolvEntry> = Vec::new();
    let mut k: usize = 0;
    proof {
        match spec_resolv_entries_at(ls, 0) {
            None => {
            },
            Some(r0) => {
                assert(Seq::<ResolvEntryView>::empty() + r0 =~~= r0);
            },
        }
    }
    while k < lines.len()
        invariant
            0 <= k <= lines@.len(),
            ls == lines.deep_view(),
            ls == spec_split(content@, 10),
            kw@ == spec_nameserver_kw(),
            (match spec_resolv_entries_at(ls, k as int) {
                None => spec_resolv_entries_at(ls, 0) is None,
                Some(rest) => spec_resolv_entries_at(ls, 0) == Some(out.deep_view() + rest),
            }),
        decreases lines@.len() - k,
    {
        let ghost pre = out.deep_view();
        proof {
            assert(ls[k as int] == lines@[k as int].deep_view());
        }
        let line = &lines[k];
        // cut the comment off
        let mut c: usize = 0;
        while c < line.len() && line[c] != 35 && line[c] != 59
            invariant
                0 <= c <= line@.len(),
                forall|j: int| 0 <= j < c ==> line@[j] != 35 && line@[j] != 59,
            decreases line@.len() - c,
        {
            c = c + 1;
        }
        proof {
            lemma_comment_pos(line@, c as int);
        }
        let cut = crate::bytes::sub_bytes(line.as_slice(), 0, c);
        proof {
            assert(cut@ =~= line@.take(spec_comment_pos(line@)));
        }
        let toks = tokens_of(cut.as_slice());
        let ghost tv = toks.deep_view();
        if toks.len() >= 2 && crate::bytes::bytes_eq(toks[0].as_slice(), kw.as_slice()) {
            proof {
                assert(tv[0] == toks@[0].deep_view());
                assert(tv[1] == toks@[1].deep_view());
            }
            let addr = &toks[1];
            let pct = split_bytes(addr.as_slice(), 37);
            proof {
                crate::bytes::lemma_spec_split_len(addr@, 37);
                assert(pct.deep_view()[0] == pct@[0].deep_view());
                lemma_split_first_part(addr@, 37);
            }
            let alen = addr.len();
            let entry: ResolvEntry = if pct.len() >= 2 {
                let ip_part = &pct[0];
                proof {
                    assert(ip_part@.len() < alen);
                }
                let scope_part = crate::bytes::sub_bytes(
                    addr.as_slice(),
                    ip_part.len() + 1,
                    alen,
                );
                proof {
                    assert(scope_part@ =~= addr@.skip(ip_part@.len() as int + 1));
                }
                let ip = match parse_ip(ip_part.as_slice()) {
                    Some(ip) => ip,
                    None => {
                        return None;
                    },
                };
                if ip.is_v4() {
                    return None;
                }
                match parse_u32(scope_part.as_slice()) {
                    Some(v) => ResolvEntry { ip, scope: ScopeSpec::Numeric(v) },
                    None => ResolvEntry { ip, scope: ScopeSpec::Named(scope_part) },
                }
            } else {
                let ip = match parse_ip(addr.as_slice()) {
                    Some(ip) => ip,
                    None => {
                        return None;
                    },
                };
                ResolvEntry { ip, scope: ScopeSpec::Absent }
            };
            out.push(entry);
            proof {
                match spec_resolv_line(ls[k as int]) {
                    Some(Some(e)) => {
                        assert(out.deep_view() =~~= pre + seq![e]);
                        match spec_resolv_entries_at(ls, k + 1) {
                            None => {
                            },
                            Some(rest) => {
                                assert(pre + (seq![e] + rest) =~~= (pre + seq![e]) + rest);
                            },
                        }
                    },
                    _ => {
                        assert(false);
                    },
                }
            }
        } else {
            proof {
                assert(spec_resolv_line(ls[k as int]) == Some(None::<ResolvEntryView>));
            }
        }
        k = k + 1;
    }
    proof {
        assert(spec_resolv_entries_at(ls, lines@.len() as int) == Some(
            Seq::<ResolvEntryView>::empty(),
        ));
        assert(out.deep_view() + Seq::<ResolvEntryView>::empty() =~~= out.deep_view());
    }
    Some(out)
}

proof fn lemma_comment_pos(s: Seq<u8>, c: int)
    requires
        0 <= c <= s.len(),
        forall|j: int| 0 <= j < c ==> s[j] != 35 && s[j] != 59,
        c < s.len() ==> (s[c] == 35 || s[c] == 59),
    ensures
        spec_comment_pos(s) == c,
    decreases s.len(),
{
    if s.len() > 0 && !(s[0] == 35 || s[0] == 59) {
        assert forall|j: int| 0 <= j < c - 1 implies s.drop_first()[j] != 35 && s.drop_first()[j]
            != 59 by {
            assert(s.drop_first()[j] == s[j + 1]);
        }
        if c - 1 < s.drop_first().len() {
            assert(s.drop_first()[c - 1] == s[c]);
        }
        lemma_comment_pos(s.drop_first(), c - 1);
    }
}

/// When a separator occurs, the first split part is the prefix before
/// its first occurrence, and what follows is the rest of the string.
proof fn lemma_split_first_part(s: Seq<u8>, sep: u8)
    ensures
        spec_split(s, sep).len() >= 2 ==> {
            let p0 = spec_split(s, sep)[0];
            &&& p0.len() < s.len()
            &&& p0 == s.take(p0.len() as int)
            &&& s[p0.len() as int] == sep
        },
    decreases s.len(),
{
    crate::bytes::lemma_spec_split_len(s, sep);
    if s.len() > 0 && s[0] != sep {
        lemma_split_first_part(s.drop_first(), sep);
        crate::bytes::lemma_spec_split_len(s.drop_first(), sep);
        if spec_split(s, sep).len() >= 2 {
            let r = spec_split(s.drop_first(), sep);
            let p0 = spec_split(s, sep)[0];
            assert(p0 =~= seq![s[0]] + r[0]);
            assert(p0 == s.take(p0.len() as int)) by {
                assert(r[0] == s.drop_first().take(r[0].len() as int));
                assert(s.take(p0.len() as int) =~= seq![s[0]] + s.drop_first().take(
                    r[0].len() as int,
                ));
            }
            assert(s[p0.len() as int] == s.drop_first()[r[0].len() as int]);
        }
    }
}

// --- resolving scopes and truncating ------------------------------------

/// Relies on nix's if_nametoindex: maps an interface name to its index
/// through the operating system's interface table; the result depends
/// on the machine, so nothing is promised of it.
#[verifier::external_body]
fn iface_index(name: &[u8]) -> (r: Option<u32>) {
    match core::str::from_utf8(name) {
        Ok(s) => match nix::net::if_::if_nametoindex(s) {
            Ok(i) => Some(i),
            Err(_) => None,
        },
        Err(_) => None,
    }
}

/// Whether a scope is a name needing the interface table.
pub open spec fn spec_scope_named(e: ResolvEntryView) -> bool {
    e.scope is Named
}

/// Parse the host resolver file into at most three upstream endpoints.
///
/// A numeric scope id is taken as is; a named scope is resolved through
/// the interface table, and a name the machine does not know fails the
/// parse, as does a malformed address.  On success the endpoints are
/// the first three entries of the file in order, each on port 53.
pub fn parse_resolv_conf(content: &[u8]) -> (r: AardvarkResult<Vec<UpstreamAddr>>)
    ensures
        spec_resolv_entries(content@) is None ==> r is Err,
        r matches Ok(out) ==> spec_resolv_entries(content@) matches Some(es) && {
            &&& out@.len() == (if es.len() <= 3 { es.len() as int } else { 3int })
            &&& forall|k: int|
                0 <= k < out@.len() ==> {
                    &&& (#[trigger] out@[k]).ip == es[k].ip
                    &&& out@[k].port == 53
                    &&& (es[k].scope matches ScopeSpecView::Numeric(v) ==> out@[k].scope_id == v)
                    &&& (es[k].scope is Absent ==> out@[k].scope_id == 0)
                }
        },
        (spec_resolv_entries(content@) matches Some(es) && (forall|k: int|
            0 <= k < es.len() ==> !spec_scope_named(#[trigger] es[k]))) ==> r is Ok,
{
    let entries = match parse_resolv_entries(content) {
        Some(es) => es,
        None => {
            return Err(
                AardvarkError::msg(String::from_str("failed to parse resolver address")),
            );
        },
    };
    let ghost ev = entries.deep_view();
    let mut out: Vec<UpstreamAddr> = Vec::new();
    let mut k: usize = 0;
    while k < entries.len()
        invariant
            0 <= k <= entries@.len(),
            ev == entries.deep_view(),
            spec_resolv_entries(content@) == Some(ev),
            out@.len() == k,
            forall|t: int|
                0 <= t < k ==> {
                    &&& (#[trigger] out@[t]).ip == ev[t].ip
                    &&& out@[t].port == 53
                    &&& (ev[t].scope matches ScopeSpecView::Numeric(v) ==> out@[t].scope_id == v)
                    &&& (ev[t].scope is Absent ==> out@[t].scope_id == 0)
                },
        decreases entries@.len() - k,
    {
        proof {
            assert(ev[k as int] == entries@[k as int].deep_view());
        }
        let scope_id: u32 = match &entries[k].scope {
            ScopeSpec::Absent => 0,
            ScopeSpec::Numeric(v) => *v,
            ScopeSpec::Named(name) => match iface_index(name.as_slice()) {
                Some(i) => i,
                None => {
                    return Err(
                        AardvarkError::wrap(
                            String::from_str("resolve scope id"),
                            AardvarkError::msg(String::from_str("unknown interface name")),
                        ),
                    );
                },
            },
        };
        out.push(UpstreamAddr { ip: entries[k].ip, port: 53, scope_id });
        k = k + 1;
    }
    // we do not have time to try many resolvers anyway, so keep three
    out.truncate(3);
    proof {
        if ev.len() > 3 {
            assert(out@ =~= out@.take(3));
        }
    }
    Ok(out)
}

} // verus!
