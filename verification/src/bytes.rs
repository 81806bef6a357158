//! Byte-string utilities shared by the parsers and the backend.
//!
//! All text this library handles (names, network labels, configuration
//! files) is ASCII byte strings, so the helpers here work on `[u8]` and
//! are specified over `Seq<u8>`.

use vstd::prelude::*;

verus! {

/// The parts of `s` split on the separator `sep`; there is always at
/// least one part, and parts do not contain `sep`.
pub open spec fn spec_split(s: Seq<u8>, sep: u8) -> Seq<Seq<u8>>
    decreases s.len(),
{
    if s.len() == 0 {
        seq![Seq::<u8>::empty()]
    } else if s[0] == sep {
        seq![Seq::<u8>::empty()] + spec_split(s.drop_first(), sep)
    } else {
        let r = spec_split(s.drop_first(), sep);
        seq![seq![s[0]] + r[0]] + r.drop_first()
    }
}

pub proof fn lemma_spec_split_len(s: Seq<u8>, sep: u8)
    ensures
        spec_split(s, sep).len() >= 1,
    decreases s.len(),
{
    if s.len() != 0 {
        lemma_spec_split_len(s.drop_first(), sep);
    }
}

/// Splits `s` on single occurrences of `sep`, like `str::split`.
pub fn split_bytes(s: &[u8], sep: u8) -> (parts: Vec<Vec<u8>>)
    ensures
        parts.deep_view() == spec_split(s@, sep),
{
    let mut parts: Vec<Vec<u8>> = Vec::new();
    let mut cur: Vec<u8> = Vec::new();
    let mut i: usize = 0;
    proof {
        lemma_spec_split_len(s@, sep);
        assert(s@.skip(0) =~= s@);
        assert(cons_first(cur@, spec_split(s@, sep)) =~~= spec_split(s@, sep));
        assert(parts.deep_view() + cons_first(cur@, spec_split(s@, sep)) =~~= spec_split(s@, sep));
    }
    while i < s.len()
        invariant
            0 <= i <= s@.len(),
            spec_split(s@, sep) == parts.deep_view() + cons_first(cur@, spec_split(s@.skip(i as int), sep)),
        decreases s@.len() - i,
    {
        proof {
            lemma_spec_split_len(s@.skip(i + 1), sep);
            assert(s@.skip(i as int).drop_first() =~= s@.skip(i + 1));
        }
        let ghost old_parts = parts.deep_view();
        let ghost old_cur = cur@;
        let b = s[i];
        if b == sep {
            parts.push(cur);
            cur = Vec::new();
            proof {
                let r = spec_split(s@.skip(i + 1), sep);
                assert(cons_first(old_cur, spec_split(s@.skip(i as int), sep)) =~~= seq![old_cur] + r);
                assert(parts.deep_view() =~~= old_parts + seq![old_cur]);
                assert(cons_first(cur@, r) =~~= r);
                assert(parts.deep_view() + cons_first(cur@, r) =~~= old_parts + (seq![old_cur] + r));
            }
        } else {
            cur.push(b);
            proof {
                let r = spec_split(s@.skip(i + 1), sep);
                assert(spec_split(s@.skip(i as int), sep) =~~= seq![seq![b] + r[0]] + r.drop_first());
                assert(old_cur + (seq![b] + r[0]) =~= cur@ + r[0]);
                assert(cons_first(old_cur, spec_split(s@.skip(i as int), sep)) =~~= cons_first(cur@, r));
            }
        }
        i = i + 1;
    }
    proof {
        assert(s@.skip(i as int) =~= Seq::<u8>::empty());
        assert(cons_first(cur@, spec_split(s@.skip(i as int), sep)) =~~= seq![cur@]);
    }
    let ghost old_parts = parts.deep_view();
    let ghost last = cur@;
    parts.push(cur);
    proof {
        assert(parts.deep_view() =~~= old_parts + seq![last]);
    }
    parts
}

/// The first part with the given prefix consed back on: used to relate
/// a partial left-to-right scan to `spec_split`.
pub open spec fn cons_first(prefix: Seq<u8>, parts: Seq<Seq<u8>>) -> Seq<Seq<u8>> {
    seq![prefix + parts[0]] + parts.drop_first()
}

/// The deep view of a byte vector is its plain view.
pub broadcast proof fn lemma_vec_u8_deep_view(v: Vec<u8>)
    ensures
        #[trigger] v.deep_view() == v@,
{
    assert(v.deep_view() =~= v@);
}

/// Ending with a one-byte suffix is the same as the last byte matching.
pub proof fn lemma_ends_with_single(s: Seq<u8>, b: u8)
    ensures
        spec_ends_with(s, seq![b]) <==> (s.len() >= 1 && s.last() == b),
{
    if s.len() >= 1 {
        assert(s.skip(s.len() - 1) =~= seq![s.last()]);
        if s.last() == b {
            assert(seq![s.last()] =~= seq![b]);
        } else {
            assert(s.skip(s.len() - 1) != seq![b]) by {
                if s.skip(s.len() - 1) == seq![b] {
                    assert(s.skip(s.len() - 1)[0] == b);
                }
            }
        }
    }
}

/// ASCII lowercase of one byte.
pub open spec fn spec_lower_byte(b: u8) -> u8 {
    if 65 <= b <= 90 {
        (b + 32) as u8
    } else {
        b
    }
}

/// ASCII lowercase of a byte string.
pub open spec fn spec_lower(s: Seq<u8>) -> Seq<u8> {
    s.map_values(|b: u8| spec_lower_byte(b))
}

pub fn lower_bytes(s: &[u8]) -> (r: Vec<u8>)
    ensures
        r@ == spec_lower(s@),
{
    let mut r: Vec<u8> = Vec::new();
    let mut i: usize = 0;
    while i < s.len()
        invariant
            0 <= i <= s@.len(),
            r@ == spec_lower(s@.take(i as int)),
        decreases s@.len() - i,
    {
        let b = s[i];
        if 65 <= b && b <= 90 {
            r.push(b + 32);
        } else {
            r.push(b);
        }
        proof {
            assert(s@.take(i + 1).map_values(|x: u8| spec_lower_byte(x)) =~= s@.take(i as int).map_values(|x: u8| spec_lower_byte(x)).push(spec_lower_byte(s@[i as int])));
        }
        i = i + 1;
    }
    proof {
        assert(s@.take(i as int) =~= s@);
    }
    r
}

pub fn bytes_eq(a: &[u8], b: &[u8]) -> (r: bool)
    ensures
        r == (a@ == b@),
{
    if a.len() != b.len() {
        return false;
    }
    let mut i: usize = 0;
    while i < a.len()
        invariant
            a@.len() == b@.len(),
            0 <= i <= a@.len(),
            forall|j: int| 0 <= j < i ==> a@[j] == b@[j],
        decreases a@.len() - i,
    {
        if a[i] != b[i] {
            return false;
        }
        i = i + 1;
    }
    proof {
        assert(a@ =~= b@);
    }
    true
}

/// True when `suffix` is a suffix of `s`.
pub open spec fn spec_ends_with(s: Seq<u8>, suffix: Seq<u8>) -> bool {
    suffix.len() <= s.len() && s.skip(s.len() - suffix.len()) == suffix
}

pub fn ends_with(s: &[u8], suffix: &[u8]) -> (r: bool)
    ensures
        r == spec_ends_with(s@, suffix@),
{
    if suffix.len() > s.len() {
        return false;
    }
    let off: usize = s.len() - suffix.len();
    let mut i: usize = 0;
    while i < suffix.len()
        invariant
            s@.len() <= usize::MAX,
            suffix@.len() <= s@.len(),
            off == s@.len() - suffix@.len(),
            0 <= i <= suffix@.len(),
            forall|j: int| 0 <= j < i ==> s@[off + j] == suffix@[j],
        decreases suffix@.len() - i,
    {
        if s[off + i] != suffix[i] {
            proof {
                assert(s@.skip(off as int)[i as int] != suffix@[i as int]);
            }
            return false;
        }
        i = i + 1;
    }
    proof {
        assert(s@.skip(off as int) =~= suffix@);
    }
    true
}

/// A copy of `s[from..to]` as a vector.
pub fn sub_bytes(s: &[u8], from: usize, to: usize) -> (r: Vec<u8>)
    requires
        from <= to <= s@.len(),
    ensures
        r@ == s@.subrange(from as int, to as int),
{
    let mut r: Vec<u8> = Vec::new();
    let mut i: usize = from;
    while i < to
        invariant
            from <= i <= to <= s@.len(),
            r@ == s@.subrange(from as int, i as int),
        decreases to - i,
    {
        r.push(s[i]);
        proof {
            assert(s@.subrange(from as int, i + 1) =~= s@.subrange(from as int, i as int).push(s@[i as int]));
        }
        i = i + 1;
    }
    r
}

/// True when every byte of `s` is ASCII whitespace in the sense of the
/// resolver-file tokenizer: space, tab or carriage return.
pub open spec fn spec_is_space(b: u8) -> bool {
    b == 32 || b == 9 || b == 13 || b == 10 || b == 11 || b == 12
}

pub fn is_space(b: u8) -> (r: bool)
    ensures
        r == spec_is_space(b),
{
    b == 32 || b == 9 || b == 13 || b == 10 || b == 11 || b == 12
}

} // verus!
