//! The per-listener DNS engine.
//!
//! Messages are handled at the wire level: `parse_query` reads the
//! header and the first question of a serialized message, `process_query`
//! decides between a synthesized answer, an NXDOMAIN refusal, and
//! forwarding, and `build_response` writes the reply bytes.  The reply
//! keeps the request's header flags, its question section and the
//! sections after it; answers carry TTL 0 and class IN, and the
//! forwarded case carries the resolvers to try in order.

use vstd::prelude::*;
use crate::backend::{DNSBackend, DNSBackendView, spec_lookup, spec_reverse_lookup, spec_is_internal, spec_ctr_dns_of, spec_network_scoped_resolvers};
use crate::bytes::{spec_split, spec_ends_with, split_bytes, ends_with, sub_bytes};
use crate::ip::{IpAddr, Ipv4Addr, Ipv6Addr, UpstreamAddr, spec_parse_ip, parse_ip};

verus! {

broadcast use crate::bytes::lemma_vec_u8_deep_view;

/// The record types the engine answers locally; everything else is
/// forwarded.
#[derive(Clone, Copy, Debug, PartialEq, Eq, Structural)]
pub enum RecordKind {
    A,
    Aaaa,
    Ptr,
    Other,
}

/// What the engine reads from an incoming message: the transaction id,
/// the two recursion flags, and the first query's name and type.
pub struct QueryInfo {
    pub id: u16,
    pub recursion_desired: bool,
    pub recursion_available: bool,
    pub name: Vec<u8>,
    pub kind: RecordKind,
}

pub struct QueryInfoView {
    pub id: u16,
    pub recursion_desired: bool,
    pub recursion_available: bool,
    pub name: Seq<u8>,
    pub kind: RecordKind,
}

impl DeepView for QueryInfo {
    type V = QueryInfoView;

    open spec fn deep_view(&self) -> QueryInfoView {
        QueryInfoView {
            id: self.id,
            recursion_desired: self.recursion_desired,
            recursion_available: self.recursion_available,
            name: self.name@,
            kind: self.kind,
        }
    }
}

// --- parsing the header and the first question --------------------------

/// The first question's name read from wire format at `pos`: the label
/// bytes joined with dots, each label followed by one dot, and the
/// position just past the terminating zero.  Compressed names are not
/// accepted in a question.
pub open spec fn spec_parse_name(b: Seq<u8>, pos: int) -> Option<(Seq<u8>, int)>
    decreases b.len() - pos,
{
    if pos < 0 || pos >= b.len() {
        None
    } else if b[pos] == 0 {
        Some((Seq::empty(), pos + 1))
    } else if b[pos] >= 64 {
        None
    } else if pos + 1 + b[pos] > b.len() {
        None
    } else {
        match spec_parse_name(b, pos + 1 + b[pos]) {
            None => None,
            Some(rest) => Some(
                (b.subrange(pos + 1, pos + 1 + b[pos]) + seq![46u8] + rest.0, rest.1),
            ),
        }
    }
}

pub proof fn lemma_parse_name_pos(b: Seq<u8>, pos: int)
    ensures
        spec_parse_name(b, pos) matches Some(nm) ==> pos + 1 <= nm.1 <= b.len(),
    decreases b.len() - pos,
{
    if 0 <= pos < b.len() && b[pos] != 0 && b[pos] < 64 && pos + 1 + b[pos] <= b.len() {
        lemma_parse_name_pos(b, pos + 1 + b[pos]);
    }
}

pub open spec fn spec_kind_of(qtype: int) -> RecordKind {
    if qtype == 1 {
        RecordKind::A
    } else if qtype == 28 {
        RecordKind::Aaaa
    } else if qtype == 12 {
        RecordKind::Ptr
    } else {
        RecordKind::Other
    }
}

/// What `parse_query` reads from a serialized message: header fields and
/// the first question.  A message without a question yields an empty
/// name and type A, mirroring a default-constructed name.
pub open spec fn spec_parse_query(b: Seq<u8>) -> Option<QueryInfoView> {
    if b.len() < 12 {
        None
    } else {
        let id = (256 * b[0] + b[1]) as u16;
        let rd = b[2] % 2 == 1;
        let ra = b[3] >= 128;
        let qd = 256 * b[4] + b[5];
        if qd == 0 {
            Some(
                QueryInfoView {
                    id: id,
                    recursion_desired: rd,
                    recursion_available: ra,
                    name: Seq::empty(),
                    kind: RecordKind::A,
                },
            )
        } else {
            match spec_parse_name(b, 12) {
                None => None,
                Some(nm) => if nm.1 + 4 <= b.len() {
                    Some(
                        QueryInfoView {
                            id: id,
                            recursion_desired: rd,
                            recursion_available: ra,
                            name: nm.0,
                            kind: spec_kind_of(256 * b[nm.1] + b[nm.1 + 1]),
                        },
                    )
                } else {
                    None
                },
            }
        }
    }
}

/// The position just past `count` questions read from `pos`, when they
/// all parse; used to keep the question section in the reply.  A
/// compressed question name is refused.
pub open spec fn spec_questions_end(b: Seq<u8>, count: int, pos: int) -> Option<int>
    decreases count,
{
    if count <= 0 {
        Some(pos)
    } else {
        match spec_parse_name(b, pos) {
            None => None,
            Some(nm) => if nm.1 + 4 <= b.len() {
                spec_questions_end(b, count - 1, nm.1 + 4)
            } else {
                None
            },
        }
    }
}

/// Parse the header and first question of a serialized DNS message.
pub fn parse_query(b: &[u8]) -> (r: Option<QueryInfo>)
    ensures
        r is Some <==> spec_parse_query(b@) is Some,
        r matches Some(q) ==> Some(q.deep_view()) == spec_parse_query(b@),
{
    if b.len() < 12 {
        return None;
    }
    let id: u16 = 256 * (b[0] as u16) + (b[1] as u16);
    let rd = b[2] % 2 == 1;
    let ra = b[3] >= 128;
    let qd: u32 = 256 * (b[4] as u32) + (b[5] as u32);
    if qd == 0 {
        let q = QueryInfo {
            id,
            recursion_desired: rd,
            recursion_available: ra,
            name: Vec::new(),
            kind: RecordKind::A,
        };
        proof {
            assert(q.name@ =~= Seq::<u8>::empty());
        }
        return Some(q);
    }
    let (name, np) = match parse_name(b, 12) {
        Some(t) => t,
        None => {
            return None;
        },
    };
    if np > b.len() - 4 {
        return None;
    }
    let qtype: u32 = 256 * (b[np] as u32) + (b[np + 1] as u32);
    let kind = if qtype == 1 {
        RecordKind::A
    } else if qtype == 28 {
        RecordKind::Aaaa
    } else if qtype == 12 {
        RecordKind::Ptr
    } else {
        RecordKind::Other
    };
    Some(QueryInfo { id, recursion_desired: rd, recursion_available: ra, name, kind })
}

/// The wire-format name at `pos`, as presentation bytes and the position
/// just past it.
fn parse_name(b: &[u8], pos: usize) -> (r: Option<(Vec<u8>, usize)>)
    requires
        pos <= b@.len(),
    ensures
        r is Some <==> spec_parse_name(b@, pos as int) is Some,
        r matches Some(t) ==> Some((t.0@, t.1 as int)) == spec_parse_name(b@, pos as int),
{
    let blen: usize = b.len();
    let mut name: Vec<u8> = Vec::new();
    let mut p = pos;
    while p < b.len() && b[p] != 0
        invariant
            pos <= p <= b@.len(),
            b@.len() == blen,
            (match spec_parse_name(b@, p as int) {
                None => spec_parse_name(b@, pos as int) is None,
                Some(rest) => spec_parse_name(b@, pos as int) == Some(
                    (name@ + rest.0, rest.1),
                ),
            }),
        decreases b@.len() - p,
    {
        let l = b[p];
        if l >= 64 {
            return None;
        }
        if (l as usize) > b.len() - (p + 1) {
            return None;
        }
        let end: usize = p + 1 + (l as usize);
        let ghost pre = name@;
        let mut t: usize = p + 1;
        while t < end
            invariant
                p + 1 <= t <= end == p + 1 + l,
                end <= b@.len(),
                name@ == pre + b@.subrange(p + 1, t as int),
            decreases end - t,
        {
            name.push(b[t]);
            proof {
                assert(pre + b@.subrange(p + 1, t + 1) =~= (pre + b@.subrange(p + 1, t as int)).push(
                    b@[t as int],
                ));
            }
            t = t + 1;
        }
        name.push(46);
        proof {
            assert(name@ =~= pre + (b@.subrange(p + 1, p + 1 + l) + seq![46u8]));
        }
        p = end;
        proof {
            match spec_parse_name(b@, p as int) {
                None => {
                },
                Some(rest) => {
                    assert(pre + (b@.subrange(p - l, p as int) + seq![46u8]) + rest.0 =~= pre + (
                    b@.subrange(p - l, p as int) + seq![46u8] + rest.0));
                },
            }
        }
    }
    if p >= b.len() {
        return None;
    }
    proof {
        assert(spec_parse_name(b@, p as int) == Some((Seq::<u8>::empty(), p + 1)));
        assert(name@ + Seq::<u8>::empty() =~= name@);
    }
    Some((name, p + 1))
}

// --- the response plan ---------------------------------------------------

/// One answer record of the reply; PTR targets are absolute names.
pub enum AnswerData {
    A(Ipv4Addr),
    Aaaa(Ipv6Addr),
    Ptr(Vec<u8>),
}

pub enum AnswerDataView {
    A(Ipv4Addr),
    Aaaa(Ipv6Addr),
    Ptr(Seq<u8>),
}

impl DeepView for AnswerData {
    type V = AnswerDataView;

    open spec fn deep_view(&self) -> AnswerDataView {
        match self {
            AnswerData::A(a) => AnswerDataView::A(*a),
            AnswerData::Aaaa(a) => AnswerDataView::Aaaa(*a),
            AnswerData::Ptr(n) => AnswerDataView::Ptr(n@),
        }
    }
}

#[derive(Clone, Copy, Debug, PartialEq, Eq, Structural)]
pub enum Rcode {
    Keep,
    NxDomain,
}

/// The reply to synthesize: the transaction id to echo, whether to set
/// recursion-available, the response code, and the answers, each with
/// TTL 0, class IN, and the query name as owner.
pub struct ResponsePlan {
    pub id: u16,
    pub set_recursion_available: bool,
    pub rcode: Rcode,
    pub answers: Vec<AnswerData>,
}

pub struct ResponsePlanView {
    pub id: u16,
    pub set_recursion_available: bool,
    pub rcode: Rcode,
    pub answers: Seq<AnswerDataView>,
}

impl DeepView for ResponsePlan {
    type V = ResponsePlanView;

    open spec fn deep_view(&self) -> ResponsePlanView {
        ResponsePlanView {
            id: self.id,
            set_recursion_available: self.set_recursion_available,
            rcode: self.rcode,
            answers: self.answers.deep_view(),
        }
    }
}

/// The forwarding decision: the resolvers to try strictly in order, and
/// the per-resolver timeout.
pub struct ForwardPlan {
    pub resolvers: Vec<UpstreamAddr>,
    pub timeout_ms: u64,
}

pub struct ForwardPlanView {
    pub resolvers: Seq<UpstreamAddr>,
    pub timeout_ms: u64,
}

impl DeepView for ForwardPlan {
    type V = ForwardPlanView;

    open spec fn deep_view(&self) -> ForwardPlanView {
        ForwardPlanView { resolvers: self.resolvers@, timeout_ms: self.timeout_ms }
    }
}

pub enum QueryOutcome {
    Respond(ResponsePlan),
    Forward(ForwardPlan),
}

pub enum QueryOutcomeView {
    Respond(ResponsePlanView),
    Forward(ForwardPlanView),
}

impl DeepView for QueryOutcome {
    type V = QueryOutcomeView;

    open spec fn deep_view(&self) -> QueryOutcomeView {
        match self {
            QueryOutcome::Respond(p) => QueryOutcomeView::Respond(p.deep_view()),
            QueryOutcome::Forward(p) => QueryOutcomeView::Forward(p.deep_view()),
        }
    }
}


// --- wire-format name encoding ------------------------------------------

/// The labels of a presentation name: the dot-separated parts, with one
/// trailing empty part (from an absolute name's final dot) dropped.
pub open spec fn spec_name_labels(name: Seq<u8>) -> Seq<Seq<u8>> {
    let parts = spec_split(name, 46);
    if parts.len() > 0 && parts.last().len() == 0 {
        parts.drop_last()
    } else {
        parts
    }
}

pub open spec fn spec_labels_ok(ps: Seq<Seq<u8>>) -> bool {
    forall|k: int| 0 <= k < ps.len() ==> 1 <= #[trigger] ps[k].len() <= 63
}

/// Wire encoding of the labels from index `k` on: each label preceded
/// by its length, closed by a zero byte.
pub open spec fn spec_encode_labels(ps: Seq<Seq<u8>>, k: int) -> Seq<u8>
    decreases ps.len() - k,
{
    if k < 0 || k >= ps.len() {
        seq![0u8]
    } else {
        seq![ps[k].len() as u8] + ps[k] + spec_encode_labels(ps, k + 1)
    }
}

/// The wire form of a presentation name: defined when every label has
/// one to 63 bytes and the whole name fits in 255 bytes.
pub open spec fn spec_encode_name(name: Seq<u8>) -> Option<Seq<u8>> {
    let ps = spec_name_labels(name);
    if spec_labels_ok(ps) && spec_encode_labels(ps, 0).len() <= 255 {
        Some(spec_encode_labels(ps, 0))
    } else {
        None
    }
}

/// Encode a presentation name into wire format.
pub fn encode_name(name: &[u8]) -> (r: Option<Vec<u8>>)
    ensures
        r is Some <==> spec_encode_name(name@) is Some,
        r matches Some(v) ==> Some(v@) == spec_encode_name(name@),
{
    let parts = split_bytes(name, 46);
    proof {
        crate::bytes::lemma_spec_split_len(name@, 46);
    }
    let n: usize = if parts.len() > 0 && parts[parts.len() - 1].len() == 0 {
        parts.len() - 1
    } else {
        parts.len()
    };
    let ghost ps = spec_name_labels(name@);
    proof {
        if parts@.len() > 0 && parts@[parts@.len() - 1]@.len() == 0 {
            assert(parts.deep_view()[parts@.len() - 1] == parts@[parts@.len() - 1].deep_view());
            assert(ps =~~= parts.deep_view().drop_last());
        } else {
            assert(parts.deep_view()[parts@.len() - 1] == parts@[parts@.len() - 1].deep_view());
        }
        assert(ps.len() == n);
        assert(forall|k: int| 0 <= k < n ==> ps[k] == parts.deep_view()[k]);
    }
    let mut out: Vec<u8> = Vec::new();
    let mut k: usize = 0;
    while k < n
        invariant
            0 <= k <= n == ps.len(),
            ps == spec_name_labels(name@),
            n <= parts@.len(),
            forall|t: int| 0 <= t < n ==> ps[t] == parts.deep_view()[t],
            forall|t: int| 0 <= t < k ==> 1 <= #[trigger] ps[t].len() <= 63,
            out@ + spec_encode_labels(ps, k as int) == spec_encode_labels(ps, 0),
        decreases n - k,
    {
        proof {
            assert(parts.deep_view()[k as int] == parts@[k as int].deep_view());
        }
        let label = &parts[k];
        if label.len() < 1 || label.len() > 63 {
            proof {
                assert(!spec_labels_ok(ps));
            }
            return None;
        }
        let ghost pre = out@;
        out.push(label.len() as u8);
        let mut t: usize = 0;
        while t < label.len()
            invariant
                0 <= t <= label@.len(),
                out@ == pre + seq![label@.len() as u8] + label@.take(t as int),
            decreases label@.len() - t,
        {
            out.push(label[t]);
            proof {
                assert(pre + seq![label@.len() as u8] + label@.take(t + 1) =~= (pre + seq![
                    label@.len() as u8,
                ] + label@.take(t as int)).push(label@[t as int]));
            }
            t = t + 1;
        }
        proof {
            assert(label@.take(label@.len() as int) =~= label@);
            assert(out@ =~= pre + (seq![ps[k as int].len() as u8] + ps[k as int]));
            assert(spec_encode_labels(ps, k as int) == seq![ps[k as int].len() as u8] + ps[
                k as int
            ] + spec_encode_labels(ps, k + 1));
            assert(out@ + spec_encode_labels(ps, k + 1) =~= pre + spec_encode_labels(ps, k as int));
        }
        k = k + 1;
    }
    out.push(0);
    proof {
        assert(spec_encode_labels(ps, n as int) =~= seq![0u8]);
        assert(out@ =~= spec_encode_labels(ps, 0));
        assert(spec_labels_ok(ps));
    }
    if out.len() > 255 {
        return None;
    }
    Some(out)
}

// --- reconstructing the address of a PTR query --------------------------

/// The bytes of the reverse-zone suffix for IPv4, `.in-addr.arpa.`.
pub open spec fn spec_in_addr_suffix() -> Seq<u8> {
    seq![46u8, 105u8, 110u8, 45u8, 97u8, 100u8, 100u8, 114u8, 46u8, 97u8, 114u8, 112u8, 97u8, 46u8]
}

fn in_addr_suffix() -> (r: Vec<u8>)
    ensures
        r@ == spec_in_addr_suffix(),
{
    let mut v: Vec<u8> = Vec::new();
    v.push(46);
    v.push(105);
    v.push(110);
    v.push(45);
    v.push(97);
    v.push(100);
    v.push(100);
    v.push(114);
    v.push(46);
    v.push(97);
    v.push(114);
    v.push(112);
    v.push(97);
    v.push(46);
    proof {
        assert(v@ =~= spec_in_addr_suffix());
    }
    v
}

/// The bytes of the reverse-zone suffix for IPv6, `.ip6.arpa.`.
pub open spec fn spec_ip6_arpa_suffix() -> Seq<u8> {
    seq![46u8, 105u8, 112u8, 54u8, 46u8, 97u8, 114u8, 112u8, 97u8, 46u8]
}

fn ip6_arpa_suffix() -> (r: Vec<u8>)
    ensures
        r@ == spec_ip6_arpa_suffix(),
{
    let mut v: Vec<u8> = Vec::new();
    v.push(46);
    v.push(105);
    v.push(112);
    v.push(54);
    v.push(46);
    v.push(97);
    v.push(114);
    v.push(112);
    v.push(97);
    v.push(46);
    proof {
        assert(v@ =~= spec_ip6_arpa_suffix());
    }
    v
}

/// The first `i` parts of `ps`, taken from the end, joined with dots:
/// how an IPv4 reverse name is put back into address order.
pub open spec fn spec_rev_join_upto(ps: Seq<Seq<u8>>, i: int) -> Seq<u8>
    decreases i,
{
    if i <= 0 {
        Seq::empty()
    } else if i == 1 {
        ps[ps.len() - 1]
    } else {
        spec_rev_join_upto(ps, i - 1) + seq![46u8] + ps[ps.len() - i]
    }
}

/// The first `i` parts of `ps`, taken from the end, concatenated with a
/// colon after every fourth nibble (except at the very end): how an
/// IPv6 reverse name is put back into address order.
pub open spec fn spec_nib_join_upto(ps: Seq<Seq<u8>>, i: int) -> Seq<u8>
    decreases i,
{
    if i <= 0 {
        Seq::empty()
    } else {
        spec_nib_join_upto(ps, i - 1) + ps[ps.len() - i] + (if (i - 1) % 4 == 3 && i - 1 < 31 {
            seq![58u8]
        } else {
            Seq::empty()
        })
    }
}

/// The address a PTR query name denotes, when the name lies in one of
/// the two reverse zones and the reconstructed literal parses.
pub open spec fn spec_ptr_ip(name: Seq<u8>) -> Option<IpAddr> {
    if spec_ends_with(name, spec_in_addr_suffix()) {
        let ps = spec_split(name.take(name.len() - 14), 46);
        spec_parse_ip(spec_rev_join_upto(ps, ps.len() as int))
    } else if spec_ends_with(name, spec_ip6_arpa_suffix()) {
        let ps = spec_split(name.take(name.len() - 10), 46);
        spec_parse_ip(spec_nib_join_upto(ps, ps.len() as int))
    } else {
        None
    }
}

/// Reconstruct the address a PTR query asks about.
pub fn ptr_ip(name: &[u8]) -> (r: Option<IpAddr>)
    ensures
        r == spec_ptr_ip(name@),
{
    let in_addr = in_addr_suffix();
    let ip6 = ip6_arpa_suffix();
    if ends_with(name, in_addr.as_slice()) {
        let stripped = sub_bytes(name, 0, name.len() - 14);
        proof {
            assert(stripped@ =~= name@.take(name@.len() - 14));
        }
        let parts = split_bytes(stripped.as_slice(), 46);
        let ghost ps = parts.deep_view();
        let n = parts.len();
        let mut cand: Vec<u8> = Vec::new();
        let mut i: usize = 0;
        while i < n
            invariant
                0 <= i <= n == parts@.len(),
                ps == parts.deep_view(),
                cand@ == spec_rev_join_upto(ps, i as int),
            decreases n - i,
        {
            proof {
                assert(ps[n - 1 - i as int] == parts@[n - 1 - i as int].deep_view());
            }
            let ghost pre = cand@;
            if i > 0 {
                cand.push(46);
            }
            let part = &parts[n - 1 - i];
            let mut t: usize = 0;
            while t < part.len()
                invariant
                    0 <= t <= part@.len(),
                    cand@ == pre + (if i > 0 { seq![46u8] } else { Seq::<u8>::empty() }) + part@.take(t as int),
                decreases part@.len() - t,
            {
                cand.push(part[t]);
                proof {
                    assert(pre + (if i > 0 { seq![46u8] } else { Seq::<u8>::empty() }) + part@.take(t + 1)
                        =~= (pre + (if i > 0 { seq![46u8] } else { Seq::<u8>::empty() }) + part@.take(t as int)).push(part@[t as int]));
                }
                t = t + 1;
            }
            proof {
                assert(part@.take(part@.len() as int) =~= part@);
                if i == 0 {
                    assert(cand@ =~= spec_rev_join_upto(ps, 1));
                } else {
                    assert(cand@ =~= spec_rev_join_upto(ps, i as int) + seq![46u8] + ps[n - 1 - i as int]);
                }
            }
            i = i + 1;
        }
        parse_ip(cand.as_slice())
    } else if ends_with(name, ip6.as_slice()) {
        let stripped = sub_bytes(name, 0, name.len() - 10);
        proof {
            assert(stripped@ =~= name@.take(name@.len() - 10));
        }
        let parts = split_bytes(stripped.as_slice(), 46);
        let ghost ps = parts.deep_view();
        let n = parts.len();
        let mut cand: Vec<u8> = Vec::new();
        let mut i: usize = 0;
        while i < n
            invariant
                0 <= i <= n == parts@.len(),
                ps == parts.deep_view(),
                cand@ == spec_nib_join_upto(ps, i as int),
            decreases n - i,
        {
            proof {
                assert(ps[n - 1 - i as int] == parts@[n - 1 - i as int].deep_view());
            }
            let ghost pre = cand@;
            let part = &parts[n - 1 - i];
            let mut t: usize = 0;
            while t < part.len()
                invariant
                    0 <= t <= part@.len(),
                    cand@ == pre + part@.take(t as int),
                decreases part@.len() - t,
            {
                cand.push(part[t]);
                proof {
                    assert(pre + part@.take(t + 1) =~= (pre + part@.take(t as int)).push(part@[t as int]));
                }
                t = t + 1;
            }
            proof {
                assert(part@.take(part@.len() as int) =~= part@);
            }
            if i % 4 == 3 && i < 31 {
                cand.push(58);
            }
            proof {
                if i % 4 == 3 && i < 31 {
                    assert(cand@ =~= spec_nib_join_upto(ps, i + 1));
                } else {
                    assert(cand@ =~= pre + ps[n - 1 - i as int] + Seq::<u8>::empty());
                }
            }
            i = i + 1;
        }
        parse_ip(cand.as_slice())
    } else {
        None
    }
}


// --- synthesizing answers ------------------------------------------------

/// One A answer per IPv4 address in the list, in order.
pub open spec fn spec_a_answers(ips: Seq<IpAddr>) -> Seq<AnswerDataView>
    decreases ips.len(),
{
    if ips.len() == 0 {
        Seq::empty()
    } else {
        (match ips[0] {
            IpAddr::V4(v) => seq![AnswerDataView::A(v)],
            IpAddr::V6(_) => Seq::empty(),
        }) + spec_a_answers(ips.drop_first())
    }
}

/// One AAAA answer per IPv6 address in the list, in order.
pub open spec fn spec_aaaa_answers(ips: Seq<IpAddr>) -> Seq<AnswerDataView>
    decreases ips.len(),
{
    if ips.len() == 0 {
        Seq::empty()
    } else {
        (match ips[0] {
            IpAddr::V4(_) => Seq::empty(),
            IpAddr::V6(v) => seq![AnswerDataView::Aaaa(v)],
        }) + spec_aaaa_answers(ips.drop_first())
    }
}

/// One PTR answer per name, rendered absolute; a name whose absolute
/// form does not encode is skipped.
pub open spec fn spec_ptr_answers(names: Seq<Seq<u8>>) -> Seq<AnswerDataView>
    decreases names.len(),
{
    if names.len() == 0 {
        Seq::empty()
    } else {
        (if spec_encode_name(names[0].push(46u8)) is Some {
            seq![AnswerDataView::Ptr(names[0].push(46u8))]
        } else {
            Seq::empty()
        }) + spec_ptr_answers(names.drop_first())
    }
}

// --- choosing upstream resolvers ----------------------------------------

/// The resolver addresses for a requester before falling back to the
/// host list: the container-scoped list if non-empty, else the
/// network-scoped concatenation if the requester is known.
pub open spec fn spec_base_resolvers(m: DNSBackendView, requester: IpAddr) -> Seq<IpAddr> {
    let ctr = match spec_ctr_dns_of(m.ctr_dns_server, requester) {
        Some(Some(list)) => list,
        _ => Seq::empty(),
    };
    if ctr.len() > 0 {
        ctr
    } else {
        match spec_network_scoped_resolvers(m, requester) {
            Some(nl) => nl,
            None => Seq::empty(),
        }
    }
}

/// The endpoints to forward to: the requester's own resolvers on port
/// 53, or the host resolvers when the requester has none.
pub open spec fn spec_forward_resolvers(
    m: DNSBackendView,
    requester: IpAddr,
    hosts: Seq<UpstreamAddr>,
) -> Seq<UpstreamAddr> {
    let base = spec_base_resolvers(m, requester);
    if base.len() > 0 {
        Seq::new(base.len(), |k: int| UpstreamAddr { ip: base[k], port: 53, scope_id: 0 })
    } else {
        hosts
    }
}

/// The per-resolver timeout: the five-second budget split over the list.
pub open spec fn spec_timeout_ms(n: int) -> int {
    if n > 0 {
        5000int / n
    } else {
        5000int
    }
}

pub fn per_resolver_timeout_ms(n: usize) -> (r: u64)
    ensures
        r == spec_timeout_ms(n as int),
{
    if n > 0 {
        5000 / (n as u64)
    } else {
        5000
    }
}

// --- the decision --------------------------------------------------------

/// The local answers for a query, or absence when the query falls
/// through to forwarding.
pub open spec fn spec_local_answers(
    m: DNSBackendView,
    fallback: Seq<u8>,
    requester: IpAddr,
    q: QueryInfoView,
) -> Option<Seq<AnswerDataView>> {
    match q.kind {
        RecordKind::A => match spec_lookup(m, requester, fallback, q.name) {
            Some(ips) => Some(spec_a_answers(ips)),
            None => None,
        },
        RecordKind::Aaaa => match spec_lookup(m, requester, fallback, q.name) {
            Some(ips) => Some(spec_aaaa_answers(ips)),
            None => None,
        },
        RecordKind::Ptr => match spec_ptr_ip(q.name) {
            Some(ip) => match spec_reverse_lookup(m, requester, ip) {
                Some(names) => Some(spec_ptr_answers(names)),
                None => None,
            },
            None => None,
        },
        RecordKind::Other => None,
    }
}

/// Whether forwarding is gated out: by configuration, by the requester
/// being internal, or by the query lying under the search domain.
pub open spec fn spec_gated(
    m: DNSBackendView,
    no_proxy: bool,
    requester: IpAddr,
    q: QueryInfoView,
) -> bool {
    no_proxy || spec_is_internal(m, requester) || spec_ends_with(q.name, m.search_domain)
}

/// What the engine does with one parsed query: a synthesized reply when
/// the backend answers it; an NXDOMAIN reply when forwarding is gated
/// out; otherwise a forwarding plan.  Every reply echoes the query id
/// and sets recursion-available when it was desired but not yet set.
pub open spec fn spec_process_query(
    m: DNSBackendView,
    no_proxy: bool,
    fallback: Seq<u8>,
    hosts: Seq<UpstreamAddr>,
    requester: IpAddr,
    q: QueryInfoView,
) -> QueryOutcomeView {
    let set_ra = q.recursion_desired && !q.recursion_available;
    match spec_local_answers(m, fallback, requester, q) {
        Some(answers) => QueryOutcomeView::Respond(
            ResponsePlanView { id: q.id, set_recursion_available: set_ra, rcode: Rcode::Keep, answers: answers },
        ),
        None => if spec_gated(m, no_proxy, requester, q) {
            QueryOutcomeView::Respond(
                ResponsePlanView {
                    id: q.id,
                    set_recursion_available: set_ra,
                    rcode: Rcode::NxDomain,
                    answers: Seq::empty(),
                },
            )
        } else {
            let rs = spec_forward_resolvers(m, requester, hosts);
            QueryOutcomeView::Forward(
                ForwardPlanView { resolvers: rs, timeout_ms: spec_timeout_ms(rs.len() as int) as u64 },
            )
        },
    }
}

fn a_answers(ips: &Vec<IpAddr>) -> (r: Vec<AnswerData>)
    ensures
        r.deep_view() == spec_a_answers(ips@),
{
    let mut out: Vec<AnswerData> = Vec::new();
    let mut k: usize = 0;
    proof {
        assert(ips@.skip(0) =~= ips@);
        assert(out.deep_view() + spec_a_answers(ips@.skip(0)) =~~= spec_a_answers(ips@));
    }
    while k < ips.len()
        invariant
            0 <= k <= ips@.len(),
            out.deep_view() + spec_a_answers(ips@.skip(k as int)) == spec_a_answers(ips@),
        decreases ips@.len() - k,
    {
        let ghost pre = out.deep_view();
        proof {
            assert(ips@.skip(k as int).drop_first() =~= ips@.skip(k + 1));
            assert(ips@.skip(k as int)[0] == ips@[k as int]);
        }
        match ips[k] {
            IpAddr::V4(v) => {
                out.push(AnswerData::A(v));
                proof {
                    assert(out.deep_view() =~~= pre + seq![AnswerDataView::A(v)]);
                }
            },
            IpAddr::V6(_) => {
            },
        }
        proof {
            assert(out.deep_view() + spec_a_answers(ips@.skip(k + 1)) =~~= spec_a_answers(ips@));
        }
        k = k + 1;
    }
    proof {
        assert(ips@.skip(ips@.len() as int) =~= Seq::<IpAddr>::empty());
        assert(out.deep_view() + Seq::<AnswerDataView>::empty() =~~= out.deep_view());
    }
    out
}

fn aaaa_answers(ips: &Vec<IpAddr>) -> (r: Vec<AnswerData>)
    ensures
        r.deep_view() == spec_aaaa_answers(ips@),
{
    let mut out: Vec<AnswerData> = Vec::new();
    let mut k: usize = 0;
    proof {
        assert(ips@.skip(0) =~= ips@);
        assert(out.deep_view() + spec_aaaa_answers(ips@.skip(0)) =~~= spec_aaaa_answers(ips@));
    }
    while k < ips.len()
        invariant
            0 <= k <= ips@.len(),
            out.deep_view() + spec_aaaa_answers(ips@.skip(k as int)) == spec_aaaa_answers(ips@),
        decreases ips@.len() - k,
    {
        let ghost pre = out.deep_view();
        proof {
            assert(ips@.skip(k as int).drop_first() =~= ips@.skip(k + 1));
            assert(ips@.skip(k as int)[0] == ips@[k as int]);
        }
        match ips[k] {
            IpAddr::V4(_) => {
            },
            IpAddr::V6(v) => {
                out.push(AnswerData::Aaaa(v));
                proof {
                    assert(out.deep_view() =~~= pre + seq![AnswerDataView::Aaaa(v)]);
                }
            },
        }
        proof {
            assert(out.deep_view() + spec_aaaa_answers(ips@.skip(k + 1)) =~~= spec_aaaa_answers(ips@));
        }
        k = k + 1;
    }
    proof {
        assert(ips@.skip(ips@.len() as int) =~= Seq::<IpAddr>::empty());
        assert(out.deep_view() + Seq::<AnswerDataView>::empty() =~~= out.deep_view());
    }
    out
}

fn ptr_answers(names: &Vec<Vec<u8>>) -> (r: Vec<AnswerData>)
    ensures
        r.deep_view() == spec_ptr_answers(names.deep_view()),
{
    let ghost nv = names.deep_view();
    let mut out: Vec<AnswerData> = Vec::new();
    let mut k: usize = 0;
    proof {
        assert(nv.skip(0) =~= nv);
        assert(out.deep_view() + spec_ptr_answers(nv.skip(0)) =~~= spec_ptr_answers(nv));
    }
    while k < names.len()
        invariant
            0 <= k <= names@.len(),
            nv == names.deep_view(),
            out.deep_view() + spec_ptr_answers(nv.skip(k as int)) == spec_ptr_answers(nv),
        decreases names@.len() - k,
    {
        let ghost pre = out.deep_view();
        proof {
            assert(nv.skip(k as int).drop_first() =~= nv.skip(k + 1));
            assert(nv.skip(k as int)[0] == nv[k as int]);
            assert(nv[k as int] == names@[k as int]@);
        }
        let mut abs = vstd::slice::slice_to_vec(names[k].as_slice());
        abs.push(46);
        proof {
            assert(abs@ =~= nv[k as int].push(46u8));
        }
        match encode_name(abs.as_slice()) {
            Some(_) => {
                out.push(AnswerData::Ptr(abs));
                proof {
                    assert(out.deep_view() =~~= pre + seq![AnswerDataView::Ptr(nv[k as int].push(46u8))]);
                }
            },
            None => {
            },
        }
        proof {
            assert(out.deep_view() + spec_ptr_answers(nv.skip(k + 1)) =~~= spec_ptr_answers(nv));
        }
        k = k + 1;
    }
    proof {
        assert(nv.skip(names@.len() as int) =~= Seq::<Seq<u8>>::empty());
        assert(out.deep_view() + Seq::<AnswerDataView>::empty() =~~= out.deep_view());
    }
    out
}

/// Decide what to do with one parsed query.
pub fn process_query(
    backend: &DNSBackend,
    no_proxy: bool,
    network_name: &[u8],
    host_nameservers: &Vec<UpstreamAddr>,
    requester: &IpAddr,
    q: &QueryInfo,
) -> (r: QueryOutcome)
    ensures
        r.deep_view() == spec_process_query(
            backend.deep_view(),
            no_proxy,
            network_name@,
            host_nameservers@,
            *requester,
            q.deep_view(),
        ),
{
    let ghost m = backend.deep_view();
    let set_ra = q.recursion_desired && !q.recursion_available;

    let local: Option<Vec<AnswerData>> = match q.kind {
        RecordKind::A => match backend.lookup(requester, network_name, q.name.as_slice()) {
            Some(ips) => Some(a_answers(&ips)),
            None => None,
        },
        RecordKind::Aaaa => match backend.lookup(requester, network_name, q.name.as_slice()) {
            Some(ips) => Some(aaaa_answers(&ips)),
            None => None,
        },
        RecordKind::Ptr => match ptr_ip(q.name.as_slice()) {
            Some(ip) => match backend.reverse_lookup(requester, &ip) {
                Some(names) => Some(ptr_answers(&names)),
                None => None,
            },
            None => None,
        },
        RecordKind::Other => None,
    };

    match local {
        Some(answers) => QueryOutcome::Respond(
            ResponsePlan { id: q.id, set_recursion_available: set_ra, rcode: Rcode::Keep, answers },
        ),
        None => {
            if no_proxy || backend.ctr_is_internal(requester) || ends_with(
                q.name.as_slice(),
                backend.search_domain.as_slice(),
            ) {
                let plan = ResponsePlan {
                    id: q.id,
                    set_recursion_available: set_ra,
                    rcode: Rcode::NxDomain,
                    answers: Vec::new(),
                };
                proof {
                    assert(plan.answers.deep_view() =~= Seq::<AnswerDataView>::empty());
                }
                QueryOutcome::Respond(plan)
            } else {
                let mut base: Vec<IpAddr> = match ctr_dns_lookup(backend, requester) {
                    Some(list) => list,
                    None => Vec::new(),
                };
                if base.len() == 0 {
                    base = match backend.get_network_scoped_resolvers(requester) {
                        Some(nl) => nl,
                        None => Vec::new(),
                    };
                }
                proof {
                    assert(base@ == spec_base_resolvers(m, *requester));
                }
                let resolvers: Vec<UpstreamAddr> = if base.len() > 0 {
                    let mut rs: Vec<UpstreamAddr> = Vec::new();
                    let mut k: usize = 0;
                    while k < base.len()
                        invariant
                            0 <= k <= base@.len(),
                            rs@ == Seq::new(k as nat, |t: int| UpstreamAddr { ip: base@[t], port: 53, scope_id: 0 }),
                        decreases base@.len() - k,
                    {
                        rs.push(UpstreamAddr { ip: base[k], port: 53, scope_id: 0 });
                        proof {
                            assert(rs@ =~= Seq::new((k + 1) as nat, |t: int| UpstreamAddr { ip: base@[t], port: 53, scope_id: 0 }));
                        }
                        k = k + 1;
                    }
                    proof {
                        assert(rs@ =~= spec_forward_resolvers(m, *requester, host_nameservers@));
                    }
                    rs
                } else {
                    vstd::slice::slice_to_vec(host_nameservers.as_slice())
                };
                let timeout_ms = per_resolver_timeout_ms(resolvers.len());
                QueryOutcome::Forward(ForwardPlan { resolvers, timeout_ms })
            }
        },
    }
}

/// The container-scoped resolver list for a requester, when one was
/// declared and is itself present (the inner option of the table).
fn ctr_dns_lookup(backend: &DNSBackend, requester: &IpAddr) -> (r: Option<Vec<IpAddr>>)
    ensures
        (match spec_ctr_dns_of(backend.deep_view().ctr_dns_server, *requester) {
            Some(Some(list)) => r matches Some(v) && v@ == list,
            _ => r is None,
        }),
{
    let ghost m = backend.deep_view();
    let mut i: usize = 0;
    while i < backend.ctr_dns_server.len()
        invariant
            0 <= i <= backend.ctr_dns_server@.len(),
            m == backend.deep_view(),
            crate::backend::find_ctr_dns_at(m.ctr_dns_server, *requester, 0)
                == crate::backend::find_ctr_dns_at(m.ctr_dns_server, *requester, i as int),
        decreases backend.ctr_dns_server@.len() - i,
    {
        proof {
            assert(m.ctr_dns_server[i as int] == backend.ctr_dns_server@[i as int].deep_view());
        }
        if backend.ctr_dns_server[i].ip == *requester {
            match &backend.ctr_dns_server[i].servers {
                Some(list) => {
                    return Some(vstd::slice::slice_to_vec(list.as_slice()));
                },
                None => {
                    return None;
                },
            }
        }
        i = i + 1;
    }
    None
}


// --- writing the reply bytes --------------------------------------------

/// The request's third byte with the QR bit set: the message becomes a
/// response.
pub open spec fn spec_qr_byte(x: u8) -> u8 {
    if x < 128 {
        (x + 128) as u8
    } else {
        x
    }
}

/// The request's fourth byte with recursion-available set when asked
/// for, and the response code replaced for an NXDOMAIN reply.
pub open spec fn spec_flags_byte(x: u8, set_ra: bool, rcode: Rcode) -> u8 {
    let withra = if x >= 128 {
        x
    } else if set_ra {
        (x + 128) as u8
    } else {
        x
    };
    match rcode {
        Rcode::Keep => withra,
        Rcode::NxDomain => (withra - (withra % 16) + 3) as u8,
    }
}

/// The sixteen RDATA bytes of an AAAA answer, most significant first.
pub open spec fn spec_v6_bytes(v: Ipv6Addr) -> Seq<u8> {
    seq![
        (v.g0 / 256) as u8, (v.g0 % 256) as u8,
        (v.g1 / 256) as u8, (v.g1 % 256) as u8,
        (v.g2 / 256) as u8, (v.g2 % 256) as u8,
        (v.g3 / 256) as u8, (v.g3 % 256) as u8,
        (v.g4 / 256) as u8, (v.g4 % 256) as u8,
        (v.g5 / 256) as u8, (v.g5 % 256) as u8,
        (v.g6 / 256) as u8, (v.g6 % 256) as u8,
        (v.g7 / 256) as u8, (v.g7 % 256) as u8,
    ]
}

/// One answer record: the owner name, type, class IN, TTL 0, and the
/// record data.
pub open spec fn spec_answer_bytes(a: AnswerDataView, owner: Seq<u8>) -> Seq<u8> {
    match a {
        AnswerDataView::A(v) => owner + seq![
            0u8, 1u8, 0u8, 1u8, 0u8, 0u8, 0u8, 0u8, 0u8, 4u8, v.a, v.b, v.c, v.d,
        ],
        AnswerDataView::Aaaa(v) => owner + seq![
            0u8, 28u8, 0u8, 1u8, 0u8, 0u8, 0u8, 0u8, 0u8, 16u8,
        ] + spec_v6_bytes(v),
        AnswerDataView::Ptr(n) => {
            let enc = spec_encode_name(n)->0;
            owner + seq![0u8, 12u8, 0u8, 1u8, 0u8, 0u8, 0u8, 0u8, (enc.len() / 256) as u8, (enc.len() % 256) as u8] + enc
        },
    }
}

pub open spec fn spec_answers_bytes(ans: Seq<AnswerDataView>, owner: Seq<u8>) -> Seq<u8>
    decreases ans.len(),
{
    if ans.len() == 0 {
        Seq::empty()
    } else {
        spec_answer_bytes(ans[0], owner) + spec_answers_bytes(ans.drop_first(), owner)
    }
}

/// Every PTR answer's target has a wire form.
pub open spec fn spec_answers_encodable(ans: Seq<AnswerDataView>) -> bool {
    forall|k: int|
        0 <= k < ans.len() ==> ((#[trigger] ans[k]) matches AnswerDataView::Ptr(n)
            ==> spec_encode_name(n) is Some)
}

/// The reply to a request: the request's header with the plan's id, the
/// QR bit, the recursion and response-code bits applied; the question
/// section and everything after it kept unchanged, with the synthesized
/// answers placed at the front of the answer section and the answer
/// counts summed.  A record carried after the questions stays valid as
/// long as any name compression in it points at the header or question
/// area, as the usual OPT record with its root name trivially does.
/// Absent when the request itself does not parse, a question name is
/// compressed, or the plan cannot be written out.
pub open spec fn spec_build_response(req: Seq<u8>, plan: ResponsePlanView) -> Option<Seq<u8>> {
    if spec_parse_query(req) is None {
        None
    } else {
        let qd = 256 * req[4] + req[5];
        match spec_questions_end(req, qd, 12) {
            None => None,
            Some(qend) => {
                let total = 256 * req[6] + req[7] + plan.answers.len();
                if total > 0xffff {
                    None
                } else if !spec_answers_encodable(plan.answers) {
                    None
                } else {
                    let owner: Seq<u8> = if qd >= 1 {
                        seq![192u8, 12u8]
                    } else {
                        seq![0u8]
                    };
                    Some(
                        seq![
                            (plan.id / 256) as u8,
                            (plan.id % 256) as u8,
                            spec_qr_byte(req[2]),
                            spec_flags_byte(req[3], plan.set_recursion_available, plan.rcode),
                            req[4],
                            req[5],
                            (total / 256) as u8,
                            (total % 256) as u8,
                            req[8],
                            req[9],
                            req[10],
                            req[11],
                        ] + req.subrange(12, qend) + spec_answers_bytes(plan.answers, owner)
                            + req.skip(qend),
                    )
                }
            },
        }
    }
}

/// Append one answer record.  Fails, leaving the buffer unchanged, only
/// for a PTR target with no wire form.
fn push_answer(out: &mut Vec<u8>, a: &AnswerData, owner: &Vec<u8>) -> (ok: bool)
    ensures
        ok ==> final(out)@ == old(out)@ + spec_answer_bytes(a.deep_view(), owner@),
        ok ==> (a.deep_view() matches AnswerDataView::Ptr(n) ==> spec_encode_name(n) is Some),
        !ok ==> final(out)@ == old(out)@ && (a.deep_view() matches AnswerDataView::Ptr(n)
            && spec_encode_name(n) is None),
{
    let ghost pre = out@;
    let ghost ow = owner@;
    let enc_opt: Option<Vec<u8>> = match a {
        AnswerData::Ptr(name) => {
            match encode_name(name.as_slice()) {
                Some(e) => Some(e),
                None => {
                    return false;
                },
            }
        },
        _ => None,
    };
    let mut j: usize = 0;
    while j < owner.len()
        invariant
            0 <= j <= owner@.len(),
            ow == owner@,
            out@ == pre + ow.take(j as int),
        decreases owner@.len() - j,
    {
        out.push(owner[j]);
        proof {
            assert(pre + ow.take(j + 1) =~= (pre + ow.take(j as int)).push(ow[j as int]));
        }
        j = j + 1;
    }
    proof {
        assert(ow.take(ow.len() as int) =~= ow);
    }
    match a {
        AnswerData::A(v) => {
            out.push(0);
            out.push(1);
            out.push(0);
            out.push(1);
            out.push(0);
            out.push(0);
            out.push(0);
            out.push(0);
            out.push(0);
            out.push(4);
            out.push(v.a);
            out.push(v.b);
            out.push(v.c);
            out.push(v.d);
            proof {
                assert(out@ =~= pre + spec_answer_bytes(a.deep_view(), ow));
            }
        },
        AnswerData::Aaaa(v) => {
            out.push(0);
            out.push(28);
            out.push(0);
            out.push(1);
            out.push(0);
            out.push(0);
            out.push(0);
            out.push(0);
            out.push(0);
            out.push(16);
            out.push((v.g0 / 256) as u8);
            out.push((v.g0 % 256) as u8);
            out.push((v.g1 / 256) as u8);
            out.push((v.g1 % 256) as u8);
            out.push((v.g2 / 256) as u8);
            out.push((v.g2 % 256) as u8);
            out.push((v.g3 / 256) as u8);
            out.push((v.g3 % 256) as u8);
            out.push((v.g4 / 256) as u8);
            out.push((v.g4 % 256) as u8);
            out.push((v.g5 / 256) as u8);
            out.push((v.g5 % 256) as u8);
            out.push((v.g6 / 256) as u8);
            out.push((v.g6 % 256) as u8);
            out.push((v.g7 / 256) as u8);
            out.push((v.g7 % 256) as u8);
            proof {
                assert(out@ =~= pre + spec_answer_bytes(a.deep_view(), ow));
            }
        },
        AnswerData::Ptr(_) => {
            let enc = match enc_opt {
                Some(e) => e,
                None => {
                    proof {
                        assert(false);
                    }
                    return false;
                },
            };
            out.push(0);
            out.push(12);
            out.push(0);
            out.push(1);
            out.push(0);
            out.push(0);
            out.push(0);
            out.push(0);
            out.push((enc.len() / 256) as u8);
            out.push((enc.len() % 256) as u8);
            let ghost before_rdata = out@;
            let mut e: usize = 0;
            while e < enc.len()
                invariant
                    0 <= e <= enc@.len(),
                    out@ == before_rdata + enc@.take(e as int),
                decreases enc@.len() - e,
            {
                out.push(enc[e]);
                proof {
                    assert(before_rdata + enc@.take(e + 1) =~= (before_rdata + enc@.take(e as int)).push(
                        enc@[e as int],
                    ));
                }
                e = e + 1;
            }
            proof {
                assert(enc@.take(enc@.len() as int) =~= enc@);
                assert(out@ =~= pre + spec_answer_bytes(a.deep_view(), ow));
            }
        },
    }
    true
}

/// Write the reply bytes for a plan.
#[verifier::rlimit(60)]
pub fn build_response(req: &[u8], plan: &ResponsePlan) -> (r: Option<Vec<u8>>)
    ensures
        r is Some <==> spec_build_response(req@, plan.deep_view()) is Some,
        r matches Some(v) ==> Some(v@) == spec_build_response(req@, plan.deep_view()),
{
    let ghost pv = plan.deep_view();
    let q = match parse_query(req) {
        Some(q) => q,
        None => {
            return None;
        },
    };
    let qd: u32 = 256 * (req[4] as u32) + (req[5] as u32);
    proof {
        assert(req@.len() >= 12);
    }
    // walk past every question to find where the later sections begin
    let mut qend: usize = 12;
    let mut qleft: u32 = qd;
    while qleft > 0
        invariant
            12 <= qend <= req@.len(),
            qd == 256 * req@[4] + req@[5],
            spec_questions_end(req@, qd as int, 12) == spec_questions_end(
                req@,
                qleft as int,
                qend as int,
            ),
        decreases qleft,
    {
        match parse_name(req, qend) {
            Some(t) => {
                let np = t.1;
                proof {
                    lemma_parse_name_pos(req@, qend as int);
                }
                if np > req.len() - 4 {
                    proof {
                        assert(spec_questions_end(req@, qleft as int, qend as int) is None);
                        assert(spec_build_response(req@, plan.deep_view()) is None);
                    }
                    return None;
                }
                qend = np + 4;
            },
            None => {
                proof {
                    assert(spec_questions_end(req@, qleft as int, qend as int) is None);
                    assert(spec_build_response(req@, plan.deep_view()) is None);
                }
                return None;
            },
        }
        qleft = qleft - 1;
    }
    proof {
        assert(spec_questions_end(req@, qd as int, 12) == Some(qend as int));
    }

    let an_req: u32 = 256 * (req[6] as u32) + (req[7] as u32);
    if plan.answers.len() > 0xffff - (an_req as usize) {
        return None;
    }
    let total: u32 = an_req + (plan.answers.len() as u32);

    let mut out: Vec<u8> = Vec::new();
    out.push((plan.id / 256) as u8);
    out.push((plan.id % 256) as u8);
    let b2 = req[2];
    if b2 < 128 {
        out.push(b2 + 128);
    } else {
        out.push(b2);
    }
    let b3 = req[3];
    let withra = if b3 >= 128 {
        b3
    } else if plan.set_recursion_available {
        b3 + 128
    } else {
        b3
    };
    match plan.rcode {
        Rcode::Keep => {
            out.push(withra);
        },
        Rcode::NxDomain => {
            out.push(withra - (withra % 16) + 3);
        },
    }
    out.push(req[4]);
    out.push(req[5]);
    out.push((total / 256) as u8);
    out.push((total % 256) as u8);
    out.push(req[8]);
    out.push(req[9]);
    out.push(req[10]);
    out.push(req[11]);
    let ghost header = out@;
    proof {
        let stotal = 256 * req@[6] + req@[7] + pv.answers.len();
        assert(total == stotal);
        assert(header =~= seq![
            (pv.id / 256) as u8,
            (pv.id % 256) as u8,
            spec_qr_byte(req@[2]),
            spec_flags_byte(req@[3], pv.set_recursion_available, pv.rcode),
            req@[4],
            req@[5],
            (stotal / 256) as u8,
            (stotal % 256) as u8,
            req@[8],
            req@[9],
            req@[10],
            req@[11],
        ]);
    }

    // keep the question section verbatim
    let mut t: usize = 12;
    while t < qend
        invariant
            12 <= t <= qend <= req@.len(),
            out@ == header + req@.subrange(12, t as int),
        decreases qend - t,
    {
        out.push(req[t]);
        proof {
            assert(header + req@.subrange(12, t + 1) =~= (header + req@.subrange(12, t as int)).push(
                req@[t as int],
            ));
        }
        t = t + 1;
    }
    let ghost upto_question = out@;

    // the owner of every answer: a pointer to the question name, or the
    // root name when the request had no question
    let mut owner: Vec<u8> = Vec::new();
    if qd >= 1 {
        owner.push(192);
        owner.push(12);
    } else {
        owner.push(0);
    }
    let ghost ow: Seq<u8> = if 256 * req@[4] + req@[5] >= 1 {
        seq![192u8, 12u8]
    } else {
        seq![0u8]
    };
    proof {
        assert(owner@ =~= ow);
    }

    let ghost ans = pv.answers;
    let mut k: usize = 0;
    proof {
        assert(ans.skip(0) =~= ans);
        assert(out@ + spec_answers_bytes(ans.skip(0), ow) =~= upto_question + spec_answers_bytes(ans, ow));
    }
    while k < plan.answers.len()
        invariant
            0 <= k <= plan.answers@.len(),
            ans == plan.answers.deep_view(),
            owner@ == ow,
            spec_answers_encodable(ans.take(k as int)),
            out@ + spec_answers_bytes(ans.skip(k as int), ow) == upto_question + spec_answers_bytes(ans, ow),
        decreases plan.answers@.len() - k,
    {
        proof {
            assert(ans.skip(k as int).drop_first() =~= ans.skip(k + 1));
            assert(ans.skip(k as int)[0] == ans[k as int]);
            assert(ans[k as int] == plan.answers@[k as int].deep_view());
        }
        let ok = push_answer(&mut out, &plan.answers[k], &owner);
        if !ok {
            proof {
                assert(!spec_answers_encodable(ans)) by {
                    assert(ans[k as int] matches AnswerDataView::Ptr(nn) && spec_encode_name(nn) is None);
                }
            }
            return None;
        }
        proof {
            assert forall|t: int| 0 <= t < k + 1 implies ((#[trigger] ans.take(k + 1)[t])
                matches AnswerDataView::Ptr(n) ==> spec_encode_name(n) is Some) by {
                assert(ans.take(k + 1)[t] == ans[t]);
                if t < k {
                    assert(ans.take(k as int)[t] == ans[t]);
                }
            }
            assert(spec_answers_encodable(ans.take(k + 1)));
            assert(out@ + spec_answers_bytes(ans.skip(k + 1), ow) =~= upto_question
                + spec_answers_bytes(ans, ow));
        }
        k = k + 1;
    }
    proof {
        assert(ans.skip(plan.answers@.len() as int) =~= Seq::<AnswerDataView>::empty());
        assert(out@ + Seq::<u8>::empty() =~= out@);
        assert(spec_answers_encodable(ans)) by {
            assert(ans.take(ans.len() as int) =~= ans);
        }
    }

    // carry the request's remaining sections unchanged
    let ghost upto_answers = out@;
    let mut t2: usize = qend;
    while t2 < req.len()
        invariant
            qend <= t2 <= req@.len(),
            out@ == upto_answers + req@.subrange(qend as int, t2 as int),
        decreases req@.len() - t2,
    {
        out.push(req[t2]);
        proof {
            assert(upto_answers + req@.subrange(qend as int, t2 + 1) =~= (upto_answers
                + req@.subrange(qend as int, t2 as int)).push(req@[t2 as int]));
        }
        t2 = t2 + 1;
    }
    proof {
        assert(req@.subrange(qend as int, req@.len() as int) =~= req@.skip(qend as int));
        assert(out@ =~= header + req@.subrange(12, qend as int) + spec_answers_bytes(ans, ow)
            + req@.skip(qend as int));
    }
    Some(out)
}

// --- the whole per-message step -----------------------------------------

/// What the listener does with one datagram or framed message.
pub enum ReplyAction {
    /// The message does not parse, or a reply could not be written.
    Drop,
    /// Send these bytes back to the client.
    Send(Vec<u8>),
    /// Forward the original message per the plan.
    Forward(ForwardPlan),
}

pub enum ReplyActionView {
    Drop,
    Send(Seq<u8>),
    Forward(ForwardPlanView),
}

impl DeepView for ReplyAction {
    type V = ReplyActionView;

    open spec fn deep_view(&self) -> ReplyActionView {
        match self {
            ReplyAction::Drop => ReplyActionView::Drop,
            ReplyAction::Send(v) => ReplyActionView::Send(v@),
            ReplyAction::Forward(p) => ReplyActionView::Forward(p.deep_view()),
        }
    }
}

/// The whole step over wire bytes: parse, decide, and either write the
/// reply or hand back the forwarding plan.
pub open spec fn spec_respond(
    m: DNSBackendView,
    no_proxy: bool,
    fallback: Seq<u8>,
    hosts: Seq<UpstreamAddr>,
    requester: IpAddr,
    bytes: Seq<u8>,
) -> ReplyActionView {
    match spec_parse_query(bytes) {
        None => ReplyActionView::Drop,
        Some(q) => match spec_process_query(m, no_proxy, fallback, hosts, requester, q) {
            QueryOutcomeView::Respond(plan) => match spec_build_response(bytes, plan) {
                Some(b) => ReplyActionView::Send(b),
                None => ReplyActionView::Drop,
            },
            QueryOutcomeView::Forward(fp) => ReplyActionView::Forward(fp),
        },
    }
}

/// Handle one incoming message: the backend lookup, the forwarding
/// gate, and the reply serialization in one verified step.
pub fn respond(
    backend: &DNSBackend,
    no_proxy: bool,
    network_name: &[u8],
    host_nameservers: &Vec<UpstreamAddr>,
    requester: &IpAddr,
    bytes: &[u8],
) -> (r: ReplyAction)
    ensures
        r.deep_view() == spec_respond(
            backend.deep_view(),
            no_proxy,
            network_name@,
            host_nameservers@,
            *requester,
            bytes@,
        ),
{
    let q = match parse_query(bytes) {
        Some(q) => q,
        None => {
            return ReplyAction::Drop;
        },
    };
    match process_query(backend, no_proxy, network_name, host_nameservers, requester, &q) {
        QueryOutcome::Respond(plan) => match build_response(bytes, &plan) {
            Some(b) => ReplyAction::Send(b),
            None => ReplyAction::Drop,
        },
        QueryOutcome::Forward(fp) => ReplyAction::Forward(fp),
    }
}

/// Rewrite the transaction id of a serialized message: an upstream reply
/// is forwarded verbatim except for the id, which is set back to the
/// client's.
pub fn rewrite_txid(bytes: &mut Vec<u8>, id: u16)
    requires
        old(bytes)@.len() >= 2,
    ensures
        final(bytes)@ == old(bytes)@.update(0, (id / 256) as u8).update(1, (id % 256) as u8),
{
    bytes[0] = (id / 256) as u8;
    bytes[1] = (id % 256) as u8;
}


// --- the forwarding controller ------------------------------------------

/// What the forwarder does after one attempt.
#[derive(Clone, Copy, Debug, PartialEq, Eq, Structural)]
pub enum ForwardStep {
    /// The attempt produced a reply: deliver it and contact no one else.
    Deliver,
    /// Try this resolver next.
    Try(UpstreamAddr),
    /// The list is exhausted without a reply.
    GiveUp,
}

/// The first resolver to contact, if the plan has any.
pub fn forward_first(resolvers: &Vec<UpstreamAddr>) -> (r: Option<UpstreamAddr>)
    ensures
        resolvers@.len() == 0 <==> r is None,
        resolvers@.len() > 0 ==> r == Some(resolvers@[0]),
{
    if resolvers.len() == 0 {
        None
    } else {
        Some(resolvers[0])
    }
}

/// The next forwarding step after the attempt on `resolvers[idx]`:
/// a reply ends the loop at once; otherwise the next resolver in list
/// order is tried, and the loop gives up only past the end.  Upstream
/// resolvers are thus contacted strictly in configured order and a
/// successful reply aborts further attempts.
pub fn forward_next(resolvers: &Vec<UpstreamAddr>, idx: usize, got_reply: bool) -> (r: ForwardStep)
    requires
        idx < resolvers@.len(),
    ensures
        got_reply ==> r == ForwardStep::Deliver,
        !got_reply && idx + 1 < resolvers@.len() ==> r == ForwardStep::Try(resolvers@[idx + 1]),
        !got_reply && idx + 1 >= resolvers@.len() ==> r == ForwardStep::GiveUp,
{
    let n = resolvers.len();
    if got_reply {
        ForwardStep::Deliver
    } else if idx + 1 < n {
        ForwardStep::Try(resolvers[idx + 1])
    } else {
        ForwardStep::GiveUp
    }
}

// --- what every reply satisfies -----------------------------------------

/// Every synthesized reply plan echoes the query's transaction id, and
/// asks to set recursion-available exactly when recursion was desired
/// but not yet marked available.
pub proof fn lemma_plan_echoes_query(
    m: DNSBackendView,
    no_proxy: bool,
    fallback: Seq<u8>,
    hosts: Seq<UpstreamAddr>,
    requester: IpAddr,
    q: QueryInfoView,
)
    ensures
        spec_process_query(m, no_proxy, fallback, hosts, requester, q)
            matches QueryOutcomeView::Respond(p) ==> p.id == q.id && p.set_recursion_available == (
        q.recursion_desired && !q.recursion_available),
{
}

/// On the wire, the reply to any query echoes the request's transaction
/// id, has the response bit set, and has recursion-available set
/// whenever the request desired recursion.
pub proof fn lemma_response_transaction(
    m: DNSBackendView,
    no_proxy: bool,
    fallback: Seq<u8>,
    hosts: Seq<UpstreamAddr>,
    requester: IpAddr,
    bytes: Seq<u8>,
)
    requires
        spec_respond(m, no_proxy, fallback, hosts, requester, bytes)
            matches ReplyActionView::Send(out),
    ensures
        spec_respond(m, no_proxy, fallback, hosts, requester, bytes)
            matches ReplyActionView::Send(out) ==> {
            &&& out[0] == bytes[0]
            &&& out[1] == bytes[1]
            &&& out[2] >= 128
            &&& (bytes[2] % 2 == 1 ==> out[3] >= 128)
        },
{
    let q = spec_parse_query(bytes)->0;
    match spec_process_query(m, no_proxy, fallback, hosts, requester, q) {
        QueryOutcomeView::Respond(plan) => {
            let out = spec_build_response(bytes, plan)->0;
            assert(plan.id == q.id);
            assert(q.id == (256 * bytes[0] + bytes[1]) as u16);
            assert(256 * bytes[0] + bytes[1] < 65536);
            assert(q.id == 256 * bytes[0] + bytes[1]);
            assert(out[0] == (plan.id / 256) as u8);
            assert(out[1] == (plan.id % 256) as u8);
            assert(plan.id / 256 == bytes[0] as int && plan.id % 256 == bytes[1] as int) by {
                assert(plan.id == 256 * (bytes[0] as int) + (bytes[1] as int));
            }
            assert(out[2] == spec_qr_byte(bytes[2]));
            assert(out[3] == spec_flags_byte(
                bytes[3],
                plan.set_recursion_available,
                plan.rcode,
            ));
            if bytes[2] % 2 == 1 {
                assert(q.recursion_desired);
                if bytes[3] >= 128 {
                } else {
                    assert(!q.recursion_available);
                    assert(plan.set_recursion_available);
                }
            }
        },
        QueryOutcomeView::Forward(_) => {
        },
    }
}

/// An internal requester never produces outbound forwarding, whatever
/// `no_proxy` says.
pub proof fn lemma_internal_never_forwarded(
    m: DNSBackendView,
    no_proxy: bool,
    fallback: Seq<u8>,
    hosts: Seq<UpstreamAddr>,
    requester: IpAddr,
    q: QueryInfoView,
)
    requires
        spec_is_internal(m, requester),
    ensures
        !(spec_process_query(m, no_proxy, fallback, hosts, requester, q)
            is Forward),
{
}

/// A PTR query whose reconstructed address does not parse falls through
/// to forwarding when the forwarding gate is open.
pub proof fn lemma_bad_ptr_falls_through(
    m: DNSBackendView,
    no_proxy: bool,
    fallback: Seq<u8>,
    hosts: Seq<UpstreamAddr>,
    requester: IpAddr,
    q: QueryInfoView,
)
    requires
        q.kind == RecordKind::Ptr,
        spec_ptr_ip(q.name) is None,
        !spec_gated(m, no_proxy, requester, q),
    ensures
        spec_process_query(m, no_proxy, fallback, hosts, requester, q)
            is Forward,
{
}

} // verus!
