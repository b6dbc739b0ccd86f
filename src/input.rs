//! The line-oriented input format of a hypergraph.
//!
//! Sections start at a line beginning with `*vertices`, `*hyperedges` or `*weights`
//! (any case); lines beginning with `#` are comments. A vertex line is `<id> <name>`, a
//! hyperedge line `<id> <node> ... <node> <omega>`, a weight line `<edge> <node> <gamma>`.
//! Weights are decimals, read to four decimal places (further digits are dropped).
use crate::hypergraph::{Gamma, HyperEdge, HyperGraph, Node, NodeId, UNIT};
use vstd::prelude::*;
use vstd::string::StringSliceAdditionalSpecFns;
use vstd::utf8::{
    encode_utf8, encode_utf8_valid_utf8, is_char_boundary, is_char_boundary_iff_not_is_continuation_byte,
    is_char_boundary_start_end_of_seq, valid_utf8, valid_utf8_split,
};

verus! {

pub open spec fn is_space(c: u8) -> bool {
    c == 32 || (9 <= c <= 13)
}

pub open spec fn is_digit(c: u8) -> bool {
    48 <= c <= 57
}

pub open spec fn all_digits(s: Seq<u8>) -> bool {
    forall|i: int| 0 <= i < s.len() ==> is_digit(#[trigger] s[i])
}

/// The decimal value of a run of digits.
pub open spec fn digits_value(s: Seq<u8>) -> int
    decreases s.len(),
{
    if s.len() == 0 {
        0
    } else {
        digits_value(s.drop_last()) * 10 + (s.last() - 48)
    }
}

/// Largest number of digits in an integer field.
pub const MAX_DIGITS: usize = 18;

/// Largest number of digits before the decimal point of a weight.
pub const MAX_WHOLE_DIGITS: usize = 12;

/// The unsigned integer that `t` spells, if it is one of at most `MAX_DIGITS` digits
/// that fits in `usize`.
pub open spec fn number(t: Seq<u8>) -> Option<usize> {
    if 0 < t.len() <= MAX_DIGITS && all_digits(t) && digits_value(t) <= usize::MAX {
        Some(digits_value(t) as usize)
    } else {
        None
    }
}

/// Position of the first `c` in `s` at or after `from`, or `s.len()`.
pub open spec fn find_from(s: Seq<u8>, c: u8, from: int) -> int
    decreases s.len() - from,
{
    if from >= s.len() {
        s.len() as int
    } else if from >= 0 && s[from] == c {
        from
    } else {
        find_from(s, c, from + 1)
    }
}

/// The first `n` decimal places of the digits `f`, as an integer of `n` digits.
pub open spec fn fraction_value(f: Seq<u8>, n: int) -> int
    decreases n,
{
    if n <= 0 {
        0
    } else {
        fraction_value(f, n - 1) * 10 + if n - 1 < f.len() {
            f[n - 1] - 48
        } else {
            0
        }
    }
}

/// The weight, in weight units, that `t` spells as `<digits>[.<digits>]` (at least one
/// digit, at most `MAX_WHOLE_DIGITS` before the point).
pub open spec fn decimal(t: Seq<u8>) -> Option<u64> {
    let p = find_from(t, 46, 0);
    let whole = t.subrange(0, p);
    let frac = if p < t.len() {
        t.subrange(p + 1, t.len() as int)
    } else {
        seq![]
    };
    if all_digits(whole) && all_digits(frac) && whole.len() <= MAX_WHOLE_DIGITS && (whole.len() > 0
        || frac.len() > 0) {
        Some((digits_value(whole) * UNIT + fraction_value(frac, 4)) as u64)
    } else {
        None
    }
}

/// The whitespace-separated fields of `s`.
pub open spec fn tokens(s: Seq<u8>) -> Seq<Seq<u8>>
    decreases s.len(),
{
    if s.len() == 0 {
        seq![]
    } else {
        let t = tokens(s.drop_last());
        let c = s.last();
        if is_space(c) {
            t
        } else if s.len() >= 2 && !is_space(s[s.len() - 2]) {
            t.update(t.len() - 1, t.last().push(c))
        } else {
            t.push(seq![c])
        }
    }
}

pub open spec fn pow10(n: int) -> int
    decreases n,
{
    if n <= 0 {
        1
    } else {
        10 * pow10(n - 1)
    }
}

/// The integer that `t[from..to]` spells, if `number` accepts it.
pub fn parse_number(t: &[u8], from: usize, to: usize) -> (r: Option<usize>)
    requires
        from <= to <= t@.len(),
    ensures
        r == number(t@.subrange(from as int, to as int)),
{
    let ghost s = t@.subrange(from as int, to as int);
    if to == from || to - from > MAX_DIGITS {
        return None;
    }
    let mut v: u64 = 0;
    let mut i: usize = from;
    while i < to
        invariant
            from <= i <= to <= t@.len(),
            to - from <= MAX_DIGITS,
            s == t@.subrange(from as int, to as int),
            all_digits(t@.subrange(from as int, i as int)),
            v == digits_value(t@.subrange(from as int, i as int)),
            v < pow10(i - from),
        decreases to - i,
    {
        let c = t[i];
        assert(t@.subrange(from as int, i + 1).drop_last() =~= t@.subrange(from as int, i as int));
        if c < 48 || c > 57 {
            assert(s[i - from] == c);
            return None;
        }
        assert(pow10(i - from) <= pow10(17)) by {
            lemma_pow10_monotone(i - from, 17);
        }
        assert(pow10(17) == 100_000_000_000_000_000) by {
            reveal_with_fuel(pow10, 18);
        }
        v = v * 10 + (c - 48) as u64;
        i += 1;
        assert(all_digits(t@.subrange(from as int, i as int))) by {
            let u = t@.subrange(from as int, i as int);
            assert forall|k: int| 0 <= k < u.len() implies is_digit(#[trigger] u[k]) by {
                if k < u.len() - 1 {
                    assert(u[k] == t@.subrange(from as int, i - 1)[k]);
                }
            }
        }
    }
    assert(t@.subrange(from as int, i as int) =~= s);
    if v <= usize::MAX as u64 {
        Some(v as usize)
    } else {
        None
    }
}

proof fn lemma_find_from(s: Seq<u8>, c: u8, x: int, m: int)
    requires
        0 <= x <= m <= s.len(),
        forall|k: int| x <= k < m ==> s[k] != c,
        m == s.len() || s[m] == c,
    ensures
        find_from(s, c, x) == m,
    decreases m - x,
{
    if x < m {
        lemma_find_from(s, c, x + 1, m);
    }
}

/// Whether every byte of `b[from..to]` is a digit.
fn digits_only(b: &[u8], from: usize, to: usize) -> (r: bool)
    requires
        from <= to <= b@.len(),
    ensures
        r == all_digits(b@.subrange(from as int, to as int)),
{
    let mut i: usize = from;
    while i < to
        invariant
            from <= i <= to <= b@.len(),
            forall|k: int| from <= k < i ==> is_digit(b@[k]),
        decreases to - i,
    {
        if b[i] < 48 || b[i] > 57 {
            assert(!is_digit(b@.subrange(from as int, to as int)[i - from]));
            return false;
        }
        i += 1;
    }
    assert forall|k: int| 0 <= k < to - from implies is_digit(
        #[trigger] b@.subrange(from as int, to as int)[k],
    ) by {
        assert(b@.subrange(from as int, to as int)[k] == b@[from + k]);
    }
    true
}

/// The value of the digits `b[from..to]`, which number at most `MAX_WHOLE_DIGITS`.
fn whole_value(b: &[u8], from: usize, to: usize) -> (r: u64)
    requires
        from <= to <= b@.len(),
        to - from <= MAX_WHOLE_DIGITS,
        all_digits(b@.subrange(from as int, to as int)),
    ensures
        r == digits_value(b@.subrange(from as int, to as int)),
        r < 1_000_000_000_000,
{
    let mut v: u64 = 0;
    let mut i: usize = from;
    while i < to
        invariant
            from <= i <= to <= b@.len(),
            to - from <= MAX_WHOLE_DIGITS,
            all_digits(b@.subrange(from as int, to as int)),
            v == digits_value(b@.subrange(from as int, i as int)),
            v < pow10(i - from),
        decreases to - i,
    {
        assert(b@.subrange(from as int, i + 1).drop_last() =~= b@.subrange(from as int, i as int));
        assert(b@.subrange(from as int, to as int)[i - from] == b@[i as int]);
        assert(pow10(i - from) <= pow10(11)) by {
            lemma_pow10_monotone(i - from, 11);
        }
        assert(pow10(11) == 100_000_000_000) by {
            reveal_with_fuel(pow10, 12);
        }
        v = v * 10 + (b[i] - 48) as u64;
        i += 1;
    }
    assert(pow10(i - from) <= pow10(12)) by {
        lemma_pow10_monotone(i - from, 12);
    }
    assert(pow10(12) == 1_000_000_000_000) by {
        reveal_with_fuel(pow10, 13);
    }
    v
}

/// The weight, in weight units, that `t[from..to]` spells.
pub fn parse_decimal(t: &[u8], from: usize, to: usize) -> (r: Option<u64>)
    requires
        from <= to <= t@.len(),
    ensures
        r == decimal(t@.subrange(from as int, to as int)),
{
    let ghost s = t@.subrange(from as int, to as int);
    let mut p: usize = from;
    while p < to && t[p] != 46
        invariant
            from <= p <= to <= t@.len(),
            forall|k: int| from <= k < p ==> t@[k] != 46,
        decreases to - p,
    {
        p += 1;
    }
    proof {
        assert forall|k: int| 0 <= k < p - from implies s[k] != 46 by {
            assert(s[k] == t@[from + k]);
        }
        if p < to {
            assert(s[p - from] == 46);
        }
        lemma_find_from(s, 46, 0, p - from);
    }
    let fs: usize = if p < to {
        p + 1
    } else {
        to
    };
    assert(s.subrange(0, p - from) =~= t@.subrange(from as int, p as int));
    if p < to {
        assert(s.subrange(p - from + 1, s.len() as int) =~= t@.subrange(fs as int, to as int));
    } else {
        assert(t@.subrange(fs as int, to as int) =~= seq![]);
    }
    if !digits_only(t, from, p) || !digits_only(t, fs, to) || p - from > MAX_WHOLE_DIGITS || (p
        == from && fs == to) {
        return None;
    }
    let whole = whole_value(t, from, p);
    let ghost frac = t@.subrange(fs as int, to as int);
    let mut f: u64 = 0;
    let mut n: usize = 0;
    while n < 4
        invariant
            fs <= to <= t@.len(),
            frac == t@.subrange(fs as int, to as int),
            all_digits(frac),
            n <= 4,
            f == fraction_value(frac, n as int),
            f < pow10(n as int),
        decreases 4 - n,
    {
        let d: u64 = if n < to - fs {
            assert(frac[n as int] == t@[fs + n]);
            assert(is_digit(frac[n as int]));
            (t[fs + n] - 48) as u64
        } else {
            0
        };
        assert(pow10(n as int) <= pow10(3)) by {
            lemma_pow10_monotone(n as int, 3);
        }
        assert(pow10(3) == 1000) by {
            reveal_with_fuel(pow10, 4);
        }
        f = f * 10 + d;
        n += 1;
    }
    assert(pow10(4) == 10000) by {
        reveal_with_fuel(pow10, 5);
    }
    Some(whole * UNIT + f)
}

/// The byte ranges of the whitespace-separated fields of `b[from..to]`.
pub fn split_fields(b: &[u8], from: usize, to: usize) -> (r: Vec<(usize, usize)>)
    requires
        from <= to <= b@.len(),
    ensures
        r.len() == tokens(b@.subrange(from as int, to as int)).len(),
        forall|k: int|
            0 <= k < r.len() ==> {
                &&& from <= (#[trigger] r@[k]).0 <= r@[k].1 <= to
                &&& b@.subrange(r@[k].0 as int, r@[k].1 as int) == tokens(
                    b@.subrange(from as int, to as int),
                )[k]
            },
{
    let mut r: Vec<(usize, usize)> = Vec::new();
    let mut i: usize = from;
    while i < to
        invariant
            from <= i <= to <= b@.len(),
            r.len() == tokens(b@.subrange(from as int, i as int)).len(),
            i > from && !is_space(b@[i - 1]) ==> r.len() > 0 && r@[r.len() - 1].1 == i,
            forall|k: int|
                0 <= k < r.len() ==> {
                    &&& from <= (#[trigger] r@[k]).0 <= r@[k].1 <= i
                    &&& b@.subrange(r@[k].0 as int, r@[k].1 as int) == tokens(
                        b@.subrange(from as int, i as int),
                    )[k]
                },
        decreases to - i,
    {
        let ghost line = b@.subrange(from as int, i + 1);
        let ghost prev = tokens(b@.subrange(from as int, i as int));
        assert(line.drop_last() =~= b@.subrange(from as int, i as int));
        assert(line.last() == b@[i as int]);
        let c = b[i];
        let space = c == 32 || (9 <= c && c <= 13);
        if space {
        } else if i > from && !(b[i - 1] == 32 || (9 <= b[i - 1] && b[i - 1] <= 13)) {
            assert(line[line.len() - 2] == b@[i - 1]);
            let last = r.len() - 1;
            let (s0, e0) = r[last];
            r.set(last, (s0, e0 + 1));
            assert(b@.subrange(s0 as int, e0 + 1) =~= b@.subrange(s0 as int, e0 as int).push(c));
            assert forall|k: int| 0 <= k < r.len() implies {
                &&& from <= (#[trigger] r@[k]).0 <= r@[k].1 <= i + 1
                &&& b@.subrange(r@[k].0 as int, r@[k].1 as int) == tokens(line)[k]
            } by {
                if k < last {
                    assert(tokens(line)[k] == prev[k]);
                }
            }
        } else {
            if i > from {
                assert(line[line.len() - 2] == b@[i - 1]);
            }
            r.push((i, i + 1));
            assert(b@.subrange(i as int, i + 1) =~= seq![c]);
            assert forall|k: int| 0 <= k < r.len() implies {
                &&& from <= (#[trigger] r@[k]).0 <= r@[k].1 <= i + 1
                &&& b@.subrange(r@[k].0 as int, r@[k].1 as int) == tokens(line)[k]
            } by {
                if k < r.len() - 1 {
                    assert(tokens(line)[k] == prev[k]);
                }
            }
        }
        i += 1;
    }
    r
}

/// `line` without one trailing carriage return.
pub open spec fn strip_cr(line: Seq<u8>) -> Seq<u8> {
    if line.len() > 0 && line.last() == 13 {
        line.drop_last()
    } else {
        line
    }
}

/// The lines of `b` from byte `from` on, split at line feeds, as `str::lines` gives
/// them: a carriage return before a line feed is dropped, and a final line feed does
/// not start another line.
pub open spec fn lines_from(b: Seq<u8>, from: int) -> Seq<Seq<u8>>
    decreases b.len() - from,
{
    let nl = find_from(b, 10, from);
    if from >= b.len() || from < 0 {
        seq![]
    } else if nl >= b.len() || nl < from {
        seq![b.subrange(from, b.len() as int)]
    } else {
        seq![strip_cr(b.subrange(from, nl))] + lines_from(b, nl + 1)
    }
}

/// A section of the input.
#[derive(Clone, Copy, PartialEq, Eq, Structural, Debug)]
pub enum Section {
    Vertices,
    HyperEdges,
    Weights,
}

/// Why the input text cannot be read.
#[derive(Clone, Copy, PartialEq, Eq, Structural, Debug)]
pub enum ParseError {
    /// A vertex line is not `<id> <name>`.
    BadVertex,
    /// A hyperedge line is not `<id> <node> ... <omega>`.
    BadHyperEdge,
    /// A weight line is not `<edge> <node> <gamma>`.
    BadWeight,
}

pub open spec fn lower(c: u8) -> u8 {
    if 65 <= c <= 90 {
        (c + 32) as u8
    } else {
        c
    }
}

/// `line` starts with `word`, letters compared without case.
pub open spec fn starts_with_word(line: Seq<u8>, word: Seq<u8>) -> bool {
    word.len() <= line.len() && forall|i: int| 0 <= i < word.len() ==> lower(line[i]) == word[i]
}

pub open spec fn vertices_word() -> Seq<u8> {
    seq![42u8, 118, 101, 114, 116, 105, 99, 101, 115]
}

pub open spec fn hyperedges_word() -> Seq<u8> {
    seq![42u8, 104, 121, 112, 101, 114, 101, 100, 103, 101, 115]
}

pub open spec fn weights_word() -> Seq<u8> {
    seq![42u8, 119, 101, 105, 103, 104, 116, 115]
}

/// The section that a line starting with `*` opens, if any.
pub open spec fn section_of(line: Seq<u8>) -> Option<Section> {
    if starts_with_word(line, vertices_word()) {
        Some(Section::Vertices)
    } else if starts_with_word(line, hyperedges_word()) {
        Some(Section::HyperEdges)
    } else if starts_with_word(line, weights_word()) {
        Some(Section::Weights)
    } else {
        None
    }
}

/// A vertex line: the id before the first space, and the rest of the line as the name.
pub open spec fn vertex_line(line: Seq<u8>) -> Option<(NodeId, Seq<u8>)> {
    let p = find_from(line, 32, 0);
    if p < line.len() && number(line.subrange(0, p)) is Some {
        Some((number(line.subrange(0, p))->0, line.subrange(p + 1, line.len() as int)))
    } else {
        None
    }
}

/// The integers that the fields `ts` spell, if all of them do.
pub open spec fn numbers(ts: Seq<Seq<u8>>) -> Option<Seq<NodeId>>
    decreases ts.len(),
{
    if ts.len() == 0 {
        Some(seq![])
    } else {
        match (numbers(ts.drop_last()), number(ts.last())) {
            (Some(s), Some(x)) => Some(s.push(x)),
            _ => None,
        }
    }
}

/// A hyperedge line: its id, its members and its weight.
pub open spec fn hyperedge_line(line: Seq<u8>) -> Option<(NodeId, Seq<NodeId>, u64)> {
    let ts = tokens(line);
    if ts.len() < 2 {
        None
    } else {
        match (number(ts[0]), numbers(ts.subrange(1, ts.len() - 1)), decimal(ts.last())) {
            (Some(id), Some(ns), Some(w)) => Some((id, ns, w)),
            _ => None,
        }
    }
}

/// A weight line: hyperedge, node and affinity; later fields are ignored.
pub open spec fn weight_line(line: Seq<u8>) -> Option<Gamma> {
    let ts = tokens(line);
    if ts.len() < 3 {
        None
    } else {
        match (number(ts[0]), number(ts[1]), decimal(ts[2])) {
            (Some(e), Some(n), Some(g)) => Some(Gamma { edge: e, node: n, gamma: g }),
            _ => None,
        }
    }
}

/// What has been read: the current section, then vertices, hyperedges and weights.
pub type Loaded = (
    Option<Section>,
    Seq<(NodeId, Seq<u8>)>,
    Seq<(NodeId, Seq<NodeId>, u64)>,
    Seq<Gamma>,
);

/// Reads one more line.
pub open spec fn read_line(st: Loaded, line: Seq<u8>) -> Result<Loaded, ParseError> {
    if line.len() > 0 && line[0] == 35 {
        Ok(st)
    } else if line.len() > 0 && line[0] == 42 {
        Ok((section_of(line), st.1, st.2, st.3))
    } else {
        match st.0 {
            Some(Section::Vertices) => match vertex_line(line) {
                Some(v) => Ok((st.0, st.1.push(v), st.2, st.3)),
                None => Err(ParseError::BadVertex),
            },
            Some(Section::HyperEdges) => match hyperedge_line(line) {
                Some(e) => Ok((st.0, st.1, st.2.push(e), st.3)),
                None => Err(ParseError::BadHyperEdge),
            },
            Some(Section::Weights) => match weight_line(line) {
                Some(w) => Ok((st.0, st.1, st.2, st.3.push(w))),
                None => Err(ParseError::BadWeight),
            },
            None => Ok(st),
        }
    }
}

/// Reads `ls` in order, stopping at the first bad line.
pub open spec fn read_lines(ls: Seq<Seq<u8>>) -> Result<Loaded, ParseError>
    decreases ls.len(),
{
    if ls.len() == 0 {
        Ok((None, seq![], seq![], seq![]))
    } else {
        match read_lines(ls.drop_last()) {
            Ok(st) => read_line(st, ls.last()),
            Err(e) => Err(e),
        }
    }
}

/// The vertices, hyperedges and weights hold what `st` has read.
pub open spec fn holds(nodes: Seq<Node>, edges: Seq<HyperEdge>, weights: Seq<Gamma>, st: Loaded) -> bool {
    &&& nodes.len() == st.1.len()
    &&& forall|k: int|
        0 <= k < nodes.len() ==> {
            &&& (#[trigger] nodes[k]).id == st.1[k].0
            &&& encode_utf8(nodes[k].name@) == st.1[k].1
        }
    &&& edges.len() == st.2.len()
    &&& forall|a: int|
        0 <= a < edges.len() ==> {
            &&& (#[trigger] edges[a]).id == st.2[a].0
            &&& edges[a].nodes@ == st.2[a].1
            &&& edges[a].omega == st.2[a].2
        }
    &&& weights == st.3
}

/// The text `b` as read: the hypergraph's parts, or the first bad line's error.
pub open spec fn loaded(b: Seq<u8>) -> Result<Loaded, ParseError> {
    read_lines(lines_from(b, 0))
}

proof fn lemma_boundary_after_ascii(bytes: Seq<u8>, p: int)
    requires
        valid_utf8(bytes),
        0 <= p < bytes.len(),
        bytes[p] < 0x80,
    ensures
        is_char_boundary(bytes, p + 1),
{
    is_char_boundary_iff_not_is_continuation_byte(bytes, p);
    valid_utf8_split(bytes, p);
    let h = bytes.subrange(p, bytes.len() as int);
    if p + 1 == bytes.len() {
        is_char_boundary_start_end_of_seq(bytes);
    } else {
        assert(is_char_boundary(h, 1)) by {
            reveal_with_fuel(is_char_boundary, 2);
            assert(h.subrange(1, h.len() as int).len() >= 0);
        }
        is_char_boundary_iff_not_is_continuation_byte(h, 1);
        is_char_boundary_iff_not_is_continuation_byte(bytes, p + 1);
    }
}

proof fn lemma_numbers_stay_none(ts: Seq<Seq<u8>>, k: int)
    requires
        0 <= k <= ts.len(),
        numbers(ts.subrange(0, k)) is None,
    ensures
        numbers(ts) is None,
    decreases ts.len() - k,
{
    if k < ts.len() {
        assert(ts.subrange(0, k + 1).drop_last() =~= ts.subrange(0, k));
        lemma_numbers_stay_none(ts, k + 1);
    } else {
        assert(ts.subrange(0, k) =~= ts);
    }
}

/// Whether `b[from..to]` starts with `word`, letters compared without case.
fn starts_with_word_at(b: &[u8], from: usize, to: usize, word: &Vec<u8>) -> (r: bool)
    requires
        from <= to <= b@.len(),
    ensures
        r == starts_with_word(b@.subrange(from as int, to as int), word@),
{
    let ghost line = b@.subrange(from as int, to as int);
    if word.len() > to - from {
        return false;
    }
    let mut i: usize = 0;
    while i < word.len()
        invariant
            from <= to <= b@.len(),
            line == b@.subrange(from as int, to as int),
            word.len() <= to - from,
            i <= word.len(),
            forall|k: int| 0 <= k < i ==> lower(line[k]) == word@[k],
        decreases word.len() - i,
    {
        let c = b[from + i];
        assert(line[i as int] == c);
        let l = if 65 <= c && c <= 90 {
            c + 32
        } else {
            c
        };
        if l != word[i] {
            return false;
        }
        i += 1;
    }
    true
}

/// The vertex that the line `file[from..to]` gives, if it is a vertex line.
fn read_vertex(file: &str, b: &[u8], from: usize, to: usize) -> (r: Option<Node>)
    requires
        b@ == file.spec_bytes(),
        from <= to <= b@.len(),
        to == b@.len() || b@[to as int] < 0x80,
    ensures
        r is None <==> vertex_line(b@.subrange(from as int, to as int)) is None,
        r matches Some(n) ==> vertex_line(b@.subrange(from as int, to as int)) == Some(
            (n.id, encode_utf8(n.name@)),
        ),
{
    let ghost line = b@.subrange(from as int, to as int);
    let mut p: usize = from;
    while p < to && b[p] != 32
        invariant
            from <= p <= to <= b@.len(),
            forall|k: int| from <= k < p ==> b@[k] != 32,
        decreases to - p,
    {
        p += 1;
    }
    proof {
        assert forall|k: int| 0 <= k < p - from implies line[k] != 32 by {
            assert(line[k] == b@[from + k]);
        }
        if p < to {
            assert(line[p - from] == 32);
        }
        lemma_find_from(line, 32, 0, p - from);
    }
    if p == to {
        return None;
    }
    assert(line.subrange(0, p - from) =~= b@.subrange(from as int, p as int));
    let id = match parse_number(b, from, p) {
        Some(id) => id,
        None => {
            return None;
        },
    };
    proof {
        encode_utf8_valid_utf8(file@);
        if to == b@.len() {
            is_char_boundary_start_end_of_seq(b@);
        } else {
            is_char_boundary_iff_not_is_continuation_byte(b@, to as int);
        }
    }
    let (head, _) = file.split_at(to);
    proof {
        valid_utf8_split(b@, to as int);
        assert(head.spec_bytes()[p as int] == 32);
        lemma_boundary_after_ascii(head.spec_bytes(), p as int);
    }
    let (_, rest) = head.split_at(p + 1);
    let name = rest.to_owned();
    assert(line.subrange(p - from + 1, line.len() as int) =~= rest.spec_bytes());
    Some(Node { id, name })
}

/// The hyperedge that the line `b[from..to]` gives, if it is a hyperedge line.
fn read_hyperedge(b: &[u8], from: usize, to: usize) -> (r: Option<HyperEdge>)
    requires
        from <= to <= b@.len(),
    ensures
        r is None <==> hyperedge_line(b@.subrange(from as int, to as int)) is None,
        r matches Some(e) ==> hyperedge_line(b@.subrange(from as int, to as int)) == Some(
            (e.id, e.nodes@, e.omega),
        ),
{
    let ghost ts = tokens(b@.subrange(from as int, to as int));
    let fields = split_fields(b, from, to);
    if fields.len() < 2 {
        return None;
    }
    let last = fields.len() - 1;
    let id = parse_number(b, fields[0].0, fields[0].1);
    let omega = parse_decimal(b, fields[last].0, fields[last].1);
    assert(ts.last() == ts[last as int]);
    let ghost middle = ts.subrange(1, last as int);
    let mut nodes: Vec<NodeId> = Vec::new();
    let mut k: usize = 1;
    while k < last
        invariant
            from <= to <= b@.len(),
            ts == tokens(b@.subrange(from as int, to as int)),
            fields.len() == ts.len(),
            last == fields.len() - 1,
            1 <= k <= last,
            middle == ts.subrange(1, last as int),
            forall|i: int|
                0 <= i < fields.len() ==> {
                    &&& from <= (#[trigger] fields@[i]).0 <= fields@[i].1 <= to
                    &&& b@.subrange(fields@[i].0 as int, fields@[i].1 as int) == ts[i]
                },
            numbers(middle.subrange(0, k - 1)) == Some(nodes@),
        decreases last - k,
    {
        assert(middle.subrange(0, k as int).drop_last() =~= middle.subrange(0, k - 1));
        assert(middle.subrange(0, k as int).last() == ts[k as int]);
        match parse_number(b, fields[k].0, fields[k].1) {
            Some(x) => {
                nodes.push(x);
            },
            None => {
                proof {
                    lemma_numbers_stay_none(middle, k as int);
                }
                return None;
            },
        }
        k += 1;
    }
    assert(middle.subrange(0, last - 1) =~= middle);
    match (id, omega) {
        (Some(id), Some(omega)) => Some(HyperEdge { id, nodes, omega }),
        _ => None,
    }
}

/// The affinity record that the line `b[from..to]` gives, if it is a weight line.
fn read_weight(b: &[u8], from: usize, to: usize) -> (r: Option<Gamma>)
    requires
        from <= to <= b@.len(),
    ensures
        r == weight_line(b@.subrange(from as int, to as int)),
{
    let fields = split_fields(b, from, to);
    if fields.len() < 3 {
        return None;
    }
    let edge = parse_number(b, fields[0].0, fields[0].1);
    let node = parse_number(b, fields[1].0, fields[1].1);
    let gamma = parse_decimal(b, fields[2].0, fields[2].1);
    match (edge, node, gamma) {
        (Some(edge), Some(node), Some(gamma)) => Some(Gamma { edge, node, gamma }),
        _ => None,
    }
}

/// Once a line is bad, reading more lines keeps its error.
proof fn lemma_read_lines_stops(prefix: Seq<Seq<u8>>, rest: Seq<Seq<u8>>, e: ParseError)
    requires
        read_lines(prefix) == Err::<Loaded, ParseError>(e),
    ensures
        read_lines(prefix + rest) == Err::<Loaded, ParseError>(e),
    decreases rest.len(),
{
    if rest.len() > 0 {
        lemma_read_lines_stops(prefix, rest.drop_last(), e);
        assert((prefix + rest).drop_last() =~= prefix + rest.drop_last());
    } else {
        assert(prefix + rest =~= prefix);
    }
}

impl HyperGraph {
    /// Reads a hypergraph from the text of an input file.
    pub fn new(file: &str) -> (r: Result<HyperGraph, ParseError>)
        ensures
            r is Ok <==> loaded(file.spec_bytes()) is Ok,
            r matches Ok(g) ==> holds(g.nodes@, g.edges@, g.weights@, loaded(file.spec_bytes())->Ok_0),
            r matches Err(e) ==> loaded(file.spec_bytes()) == Err::<Loaded, ParseError>(e),
    {
        let b = file.as_bytes();
        let ghost bv = b@;
        let vertices: Vec<u8> = vec![42u8, 118, 101, 114, 116, 105, 99, 101, 115];
        let hyperedges: Vec<u8> = vec![42u8, 104, 121, 112, 101, 114, 101, 100, 103, 101, 115];
        let weights_marker: Vec<u8> = vec![42u8, 119, 101, 105, 103, 104, 116, 115];
        assert(vertices@ =~= vertices_word());
        assert(hyperedges@ =~= hyperedges_word());
        assert(weights_marker@ =~= weights_word());
        let mut context: Option<Section> = None;
        let mut nodes: Vec<Node> = Vec::new();
        let mut edges: Vec<HyperEdge> = Vec::new();
        let mut weights: Vec<Gamma> = Vec::new();
        let ghost mut done: Seq<Seq<u8>> = seq![];
        let ghost mut st: Loaded = (None, seq![], seq![], seq![]);
        let mut start: usize = 0;
        while start < b.len()
            invariant
                bv == b@,
                bv == file.spec_bytes(),
                vertices@ == vertices_word(),
                hyperedges@ == hyperedges_word(),
                weights_marker@ == weights_word(),
                start <= b.len(),
                lines_from(bv, 0) == done + lines_from(bv, start as int),
                read_lines(done) == Ok::<Loaded, ParseError>(st),
                st.0 == context,
                holds(nodes@, edges@, weights@, st),
            decreases b.len() - start,
        {
            let mut nl: usize = start;
            while nl < b.len() && b[nl] != 10
                invariant
                    start <= nl <= b@.len(),
                    forall|k: int| start <= k < nl ==> b@[k] != 10,
                decreases b.len() - nl,
            {
                nl += 1;
            }
            proof {
                lemma_find_from(bv, 10, start as int, nl as int);
            }
            let end: usize = if nl < b.len() && nl > start && b[nl - 1] == 13 {
                nl - 1
            } else {
                nl
            };
            let ghost line = bv.subrange(start as int, end as int);
            proof {
                if nl < b.len() {
                    let raw = bv.subrange(start as int, nl as int);
                    if end < nl {
                        assert(raw.drop_last() =~= line);
                    } else {
                        assert(raw =~= line);
                    }
                    assert(line == strip_cr(raw));
                } else {
                    assert(lines_from(bv, nl as int) == Seq::<Seq<u8>>::empty());
                }
                assert(lines_from(bv, start as int) =~= seq![line] + lines_from(
                    bv,
                    if nl < b.len() {
                        nl + 1
                    } else {
                        nl as int
                    },
                ));
            }
            let ghost before = st;
            assert((done.push(line)).drop_last() =~= done);
            if end > start && b[start] == 35 {
                assert(line[0] == 35);
            } else if end > start && b[start] == 42 {
                assert(line[0] == 42);
                context = if starts_with_word_at(b, start, end, &vertices) {
                    Some(Section::Vertices)
                } else if starts_with_word_at(b, start, end, &hyperedges) {
                    Some(Section::HyperEdges)
                } else if starts_with_word_at(b, start, end, &weights_marker) {
                    Some(Section::Weights)
                } else {
                    None
                };
                proof {
                    st = (context, st.1, st.2, st.3);
                }
            } else {
                assert(!(line.len() > 0 && line[0] == 35));
                assert(!(line.len() > 0 && line[0] == 42));
                match context {
                    Some(Section::Vertices) => {
                        match read_vertex(file, b, start, end) {
                            Some(n) => {
                                proof {
                                    st = (st.0, st.1.push((n.id, encode_utf8(n.name@))), st.2, st.3);
                                }
                                nodes.push(n);
                            },
                            None => {
                                proof {
                                    let rest = lines_from(
                                        bv,
                                        if nl < b.len() {
                                            nl + 1
                                        } else {
                                            nl as int
                                        },
                                    );
                                    lemma_read_lines_stops(done.push(line), rest, ParseError::BadVertex);
                                    assert(done.push(line) + rest =~= done + (seq![line] + rest));
                                }
                                return Err(ParseError::BadVertex);
                            },
                        }
                    },
                    Some(Section::HyperEdges) => {
                        match read_hyperedge(b, start, end) {
                            Some(e) => {
                                proof {
                                    st = (st.0, st.1, st.2.push((e.id, e.nodes@, e.omega)), st.3);
                                }
                                edges.push(e);
                            },
                            None => {
                                proof {
                                    let rest = lines_from(
                                        bv,
                                        if nl < b.len() {
                                            nl + 1
                                        } else {
                                            nl as int
                                        },
                                    );
                                    lemma_read_lines_stops(done.push(line), rest, ParseError::BadHyperEdge);
                                    assert(done.push(line) + rest =~= done + (seq![line] + rest));
                                }
                                return Err(ParseError::BadHyperEdge);
                            },
                        }
                    },
                    Some(Section::Weights) => {
                        match read_weight(b, start, end) {
                            Some(w) => {
                                proof {
                                    st = (st.0, st.1, st.2, st.3.push(w));
                                }
                                weights.push(w);
                            },
                            None => {
                                proof {
                                    let rest = lines_from(
                                        bv,
                                        if nl < b.len() {
                                            nl + 1
                                        } else {
                                            nl as int
                                        },
                                    );
                                    lemma_read_lines_stops(done.push(line), rest, ParseError::BadWeight);
                                    assert(done.push(line) + rest =~= done + (seq![line] + rest));
                                }
                                return Err(ParseError::BadWeight);
                            },
                        }
                    },
                    None => {},
                }
            }
            proof {
                done = done.push(line);
            }
            start = if nl < b.len() {
                nl + 1
            } else {
                nl
            };
        }
        assert(lines_from(bv, start as int) == Seq::<Seq<u8>>::empty());
        assert(done + Seq::<Seq<u8>>::empty() =~= done);
        Ok(HyperGraph { nodes, edges, weights })
    }
}

proof fn lemma_pow10_monotone(a: int, b: int)
    requires
        0 <= a <= b,
    ensures
        pow10(a) <= pow10(b),
    decreases b - a,
{
    if a < b {
        lemma_pow10_monotone(a, b - 1);
        assert(pow10(b) == 10 * pow10(b - 1));
        lemma_pow10_positive(b - 1);
    }
}

proof fn lemma_pow10_positive(a: int)
    ensures
        pow10(a) >= 1,
    decreases a,
{
    if a > 0 {
        lemma_pow10_positive(a - 1);
    }
}

} // verus!
