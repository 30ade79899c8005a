//! The text format of circuits: one line per layer, the output layer first.
//! A layer of gates is a line of whitespace-separated `w0,w1,+` or `w0,w1,*`
//! tokens; the first line without a comma holds the input values, and ends
//! the circuit.
use crate::arith_circuit::{evaluated, same_shape, wired, ArithCircuit, Gate};
use crate::field::p;
use vstd::prelude::*;

verus! {

/// Why a text is not a circuit.
#[derive(Debug, PartialEq, Eq, Structural, Clone, Copy)]
pub enum CircuitError {
    /// A gate of the layer with this index is not two wires and `+` or `*`
    /// separated by commas.
    WrongFormat(usize),
    /// A wire index or an input value is not a number of its type.
    InvalidNumber,
    /// The text holds no layer.
    NoLayers,
    /// A gate reads a gate that the next layer does not have.
    WireOutOfRange,
}

// ---------------------------------------------------------------------------
// Specifications
// ---------------------------------------------------------------------------

/// The views of a sequence of byte vectors.
pub open spec fn views(v: Seq<Vec<u8>>) -> Seq<Seq<u8>> {
    v.map_values(|x: Vec<u8>| x@)
}

/// The pieces of `s` between occurrences of `sep`, empty pieces included.
pub open spec fn split_on(s: Seq<u8>, sep: u8) -> Seq<Seq<u8>>
    decreases s.len(),
{
    if s.len() == 0 {
        seq![Seq::empty()]
    } else {
        let init = split_on(s.drop_last(), sep);
        if s.last() == sep {
            init.push(Seq::empty())
        } else {
            init.update(init.len() - 1, init.last().push(s.last()))
        }
    }
}

/// The lines of a text: the pieces between newlines, without the empty
/// piece after a final newline.
pub open spec fn text_lines(t: Seq<u8>) -> Seq<Seq<u8>> {
    let ps = split_on(t, 10);
    if ps.last().len() == 0 {
        ps.drop_last()
    } else {
        ps
    }
}

/// ASCII whitespace: space, tab, line feed, vertical tab, form feed,
/// carriage return.
pub open spec fn is_ws(c: u8) -> bool {
    c == 32 || (9 <= c && c <= 13)
}

/// The pieces of `s` between whitespace bytes, empty pieces included.
pub open spec fn ws_pieces(s: Seq<u8>) -> Seq<Seq<u8>>
    decreases s.len(),
{
    if s.len() == 0 {
        seq![Seq::empty()]
    } else {
        let init = ws_pieces(s.drop_last());
        if is_ws(s.last()) {
            init.push(Seq::empty())
        } else {
            init.update(init.len() - 1, init.last().push(s.last()))
        }
    }
}

/// The non-empty pieces.
pub open spec fn nonempty(ps: Seq<Seq<u8>>) -> Seq<Seq<u8>>
    decreases ps.len(),
{
    if ps.len() == 0 {
        ps
    } else {
        let r = nonempty(ps.drop_last());
        if ps.last().len() > 0 {
            r.push(ps.last())
        } else {
            r
        }
    }
}

/// The whitespace-separated words of `s`.
pub open spec fn words(s: Seq<u8>) -> Seq<Seq<u8>> {
    nonempty(ws_pieces(s))
}

pub open spec fn has_comma(s: Seq<u8>) -> bool {
    exists|i: int| 0 <= i < s.len() && s[i] == 44
}

pub open spec fn is_digit(c: u8) -> bool {
    48 <= c && c <= 57
}

/// The number that a sequence of decimal digits writes.
pub open spec fn decimal(s: Seq<u8>) -> nat
    decreases s.len(),
{
    if s.len() == 0 {
        0
    } else {
        decimal(s.drop_last()) * 10 + (s.last() - 48) as nat
    }
}

/// The digits of a number: without a leading `+` that more follows.
pub open spec fn digits_of(s: Seq<u8>) -> Seq<u8> {
    if s.len() > 1 && s[0] == 43 {
        s.skip(1)
    } else {
        s
    }
}

/// The unsigned number that `s` writes, if it writes one no larger than
/// `max`: an optional `+`, then at least one decimal digit.
pub open spec fn parse_uint_spec(s: Seq<u8>, max: nat) -> Option<nat> {
    let d = digits_of(s);
    if s.len() == 0 || !(forall|i: int| 0 <= i < d.len() ==> is_digit(#[trigger] d[i]))
        || decimal(d) > max {
        None
    } else {
        Some(decimal(d))
    }
}

/// A gate as the text describes it: its two wires, whether it adds, and the
/// value it starts with.
pub type GateDesc = (int, int, bool, int);

/// Gate described by one comma-separated word of layer number `layer`.
pub open spec fn gate_token_spec(tok: Seq<u8>, layer: int) -> Result<GateDesc, CircuitError> {
    let parts = split_on(tok, 44);
    if parts.len() != 3 {
        Err(CircuitError::WrongFormat(layer as usize))
    } else if !(parts[2] == seq![43u8] || parts[2] == seq![42u8]) {
        Err(CircuitError::WrongFormat(layer as usize))
    } else {
        match (parse_uint_spec(parts[0], usize::MAX as nat), parse_uint_spec(parts[1], usize::MAX as nat)) {
            (Some(w0), Some(w1)) => Ok((w0 as int, w1 as int, parts[2] == seq![43u8], 0)),
            _ => Err(CircuitError::InvalidNumber),
        }
    }
}

/// The gates of a layer's tokens, or the first token's error.
pub open spec fn gate_tokens_spec(toks: Seq<Seq<u8>>, layer: int) -> Result<Seq<GateDesc>, CircuitError>
    decreases toks.len(),
{
    if toks.len() == 0 {
        Ok(Seq::empty())
    } else {
        match gate_tokens_spec(toks.drop_last(), layer) {
            Err(e) => Err(e),
            Ok(gs) => match gate_token_spec(toks.last(), layer) {
                Err(e) => Err(e),
                Ok(g) => Ok(gs.push(g)),
            },
        }
    }
}

/// The input gates of the input line's tokens, or an error.
pub open spec fn input_tokens_spec(toks: Seq<Seq<u8>>) -> Result<Seq<GateDesc>, CircuitError>
    decreases toks.len(),
{
    if toks.len() == 0 {
        Ok(Seq::empty())
    } else {
        match input_tokens_spec(toks.drop_last()) {
            Err(e) => Err(e),
            Ok(gs) => match parse_uint_spec(toks.last(), u32::MAX as nat) {
                None => Err(CircuitError::InvalidNumber),
                Some(v) => Ok(gs.push((0, 0, false, v as int))),
            },
        }
    }
}

/// The layers that the lines `ls` describe, the first of them with index
/// `layer`: lines with a comma are layers of gates, and the first line
/// without one is the input layer, after which nothing is read.
pub open spec fn lines_spec(ls: Seq<Seq<u8>>, layer: int) -> Result<Seq<Seq<GateDesc>>, CircuitError>
    decreases ls.len(),
{
    if ls.len() == 0 {
        Ok(Seq::empty())
    } else if has_comma(ls[0]) {
        match gate_tokens_spec(words(ls[0]), layer) {
            Err(e) => Err(e),
            Ok(gs) => match lines_spec(ls.skip(1), layer + 1) {
                Err(e) => Err(e),
                Ok(rest) => Ok(seq![gs] + rest),
            },
        }
    } else {
        match input_tokens_spec(words(ls[0])) {
            Err(e) => Err(e),
            Ok(gs) => Ok(seq![gs]),
        }
    }
}

/// The layers that a text describes, where any whitespace character beyond
/// ASCII separates words as a space does.
pub open spec fn circuit_spec(text: Seq<u8>) -> Result<Seq<Seq<GateDesc>>, CircuitError> {
    lines_spec(text_lines(ascii_spaced(text)), 0)
}

/// Nothing after the first line without a comma matters: the layers are
/// those of the lines up to it.
proof fn lemma_lines_stop(ls: Seq<Seq<u8>>, m: int, layer: int)
    requires
        0 <= m < ls.len(),
        !has_comma(ls[m]),
    ensures
        lines_spec(ls, layer) == lines_spec(ls.take(m + 1), layer),
    decreases m,
{
    let t = ls.take(m + 1);
    assert(t[0] == ls[0]);
    if has_comma(ls[0]) {
        assert(m > 0);
        assert(t.skip(1) =~= ls.skip(1).take(m));
        lemma_lines_stop(ls.skip(1), m - 1, layer + 1);
    }
}

/// The text after the input line is never read: two texts whose lines
/// agree up to a line without a comma describe the same circuit.
pub proof fn law_input_line_ends_circuit(t1: Seq<u8>, t2: Seq<u8>, m: int)
    requires
        0 <= m < text_lines(ascii_spaced(t1)).len(),
        0 <= m < text_lines(ascii_spaced(t2)).len(),
        text_lines(ascii_spaced(t1)).take(m + 1) == text_lines(ascii_spaced(t2)).take(m + 1),
        !has_comma(text_lines(ascii_spaced(t1))[m]),
    ensures
        circuit_spec(t1) == circuit_spec(t2),
{
    let l1 = text_lines(ascii_spaced(t1));
    let l2 = text_lines(ascii_spaced(t2));
    assert(l2[m] == l2.take(m + 1)[m]);
    assert(l1[m] == l1.take(m + 1)[m]);
    lemma_lines_stop(l1, m, 0);
    lemma_lines_stop(l2, m, 0);
}

/// The length of the UTF-8 encoding of a whitespace character beyond ASCII
/// (U+0085, U+00A0, U+1680, U+2000 to U+200A, U+2028, U+2029, U+202F,
/// U+205F, U+3000) at the start of `s`, or 0 where none starts there.
pub open spec fn wide_ws_len(s: Seq<u8>) -> nat {
    if s.len() >= 2 && s[0] == 0xC2 && (s[1] == 0x85 || s[1] == 0xA0) {
        2
    } else if s.len() >= 3 && ((s[0] == 0xE1 && s[1] == 0x9A && s[2] == 0x80) || (s[0] == 0xE2 && s[1]
        == 0x80 && ((0x80 <= s[2] && s[2] <= 0x8A) || s[2] == 0xA8 || s[2] == 0xA9 || s[2] == 0xAF)) || (
    s[0] == 0xE2 && s[1] == 0x81 && s[2] == 0x9F) || (s[0] == 0xE3 && s[1] == 0x80 && s[2] == 0x80)) {
        3
    } else {
        0
    }
}

/// An ASCII text is its own `ascii_spaced`.
pub proof fn lemma_ascii_spaced_ascii(s: Seq<u8>)
    requires
        forall|i: int| 0 <= i < s.len() ==> #[trigger] s[i] < 128,
    ensures
        ascii_spaced(s) == s,
    decreases s.len(),
{
    if s.len() > 0 {
        assert(s[0] < 128);
        let t = s.skip(1);
        assert forall|i: int| 0 <= i < t.len() implies #[trigger] t[i] < 128 by {
            assert(t[i] == s[i + 1]);
        }
        lemma_ascii_spaced_ascii(t);
        assert(seq![s[0]] + t =~= s);
    }
}

/// The text with each whitespace character beyond ASCII written as a space.
pub open spec fn ascii_spaced(s: Seq<u8>) -> Seq<u8>
    decreases s.len(),
{
    if s.len() == 0 {
        s
    } else if wide_ws_len(s) > 0 {
        seq![32u8] + ascii_spaced(s.skip(wide_ws_len(s) as int))
    } else {
        seq![s[0]] + ascii_spaced(s.skip(1))
    }
}

/// Every gate of every layer but the last reads gates that the next layer has.
pub open spec fn descs_wired(ds: Seq<Seq<GateDesc>>) -> bool {
    forall|i: int, j: int|
        0 <= i < ds.len() - 1 && 0 <= j < ds[i].len() ==> 0 <= (#[trigger] ds[i][j]).0 < ds[i + 1].len()
            && 0 <= ds[i][j].1 < ds[i + 1].len()
}

/// A gate has the wiring and operation that a description gives.
pub open spec fn gate_is(g: Gate, d: GateDesc) -> bool {
    &&& g.wire0() == d.0
    &&& g.wire1() == d.1
    &&& g.adds() == d.2
}

/// The circuit that the parser builds from descriptions: the described
/// wiring and operations, the described input values reduced into the field,
/// every gate above them evaluated, the cursor on the output layer, and one
/// label bit per layer of gates.
pub open spec fn built_from(c: ArithCircuit, ds: Seq<Seq<GateDesc>>) -> bool {
    let ls = c.layers();
    &&& c.wf()
    &&& ls.len() == ds.len()
    &&& c.layer_index() == 0
    &&& c.label_bits() == ds.len() - 1
    &&& forall|i: int| 0 <= i < ls.len() ==> (#[trigger] ls[i]).len() == ds[i].len()
    &&& forall|i: int, j: int|
        0 <= i < ls.len() && 0 <= j < ls[i].len() ==> gate_is(#[trigger] ls[i][j], ds[i][j])
    &&& forall|j: int|
        0 <= j < ls.last().len() ==> (#[trigger] ls.last()[j]).value().raw() == ds.last()[j].3 % p()
}

// ---------------------------------------------------------------------------
// Lemmas on the specifications
// ---------------------------------------------------------------------------

pub proof fn lemma_split_on_nonempty(s: Seq<u8>, sep: u8)
    ensures
        split_on(s, sep).len() >= 1,
    decreases s.len(),
{
    if s.len() > 0 {
        lemma_split_on_nonempty(s.drop_last(), sep);
    }
}

/// Splitting at a separator splits the two sides apart.
pub proof fn lemma_split_on_concat(a: Seq<u8>, b: Seq<u8>, sep: u8)
    ensures
        split_on(a + seq![sep] + b, sep) == split_on(a, sep) + split_on(b, sep),
    decreases b.len(),
{
    let s = a + seq![sep] + b;
    if b.len() == 0 {
        assert(s =~= a.push(sep));
        assert(s.drop_last() =~= a);
        assert(split_on(a, sep).push(Seq::empty()) =~= split_on(a, sep) + split_on(b, sep));
    } else {
        let b2 = b.drop_last();
        lemma_split_on_concat(a, b2, sep);
        assert(s.drop_last() =~= a + seq![sep] + b2);
        assert(s.last() == b.last());
        let x = split_on(a, sep);
        let y = split_on(b2, sep);
        lemma_split_on_nonempty(b2, sep);
        if b.last() == sep {
            assert((x + y).push(Seq::empty()) =~= x + y.push(Seq::empty()));
        } else {
            assert((x + y).update((x + y).len() - 1, (x + y).last().push(b.last())) =~= x + y.update(
                y.len() - 1,
                y.last().push(b.last()),
            ));
        }
    }
}

proof fn lemma_ws_pieces_nonempty(s: Seq<u8>)
    ensures
        ws_pieces(s).len() >= 1,
    decreases s.len(),
{
    if s.len() > 0 {
        lemma_ws_pieces_nonempty(s.drop_last());
    }
}

proof fn lemma_gate_tokens_err(toks: Seq<Seq<u8>>, layer: int, j: int, e: CircuitError)
    requires
        0 <= j <= toks.len(),
        gate_tokens_spec(toks.take(j), layer) == Err::<Seq<GateDesc>, CircuitError>(e),
    ensures
        gate_tokens_spec(toks, layer) == Err::<Seq<GateDesc>, CircuitError>(e),
    decreases toks.len() - j,
{
    if j < toks.len() {
        assert(toks.take(j + 1).drop_last() =~= toks.take(j));
        lemma_gate_tokens_err(toks, layer, j + 1, e);
    } else {
        assert(toks.take(j) =~= toks);
    }
}

proof fn lemma_input_tokens_err(toks: Seq<Seq<u8>>, j: int, e: CircuitError)
    requires
        0 <= j <= toks.len(),
        input_tokens_spec(toks.take(j)) == Err::<Seq<GateDesc>, CircuitError>(e),
    ensures
        input_tokens_spec(toks) == Err::<Seq<GateDesc>, CircuitError>(e),
    decreases toks.len() - j,
{
    if j < toks.len() {
        assert(toks.take(j + 1).drop_last() =~= toks.take(j));
        lemma_input_tokens_err(toks, j + 1, e);
    } else {
        assert(toks.take(j) =~= toks);
    }
}

/// Reading more digits never makes a number smaller.
proof fn lemma_decimal_prefix(d: Seq<u8>, j: int)
    requires
        0 <= j <= d.len(),
        forall|i: int| 0 <= i < d.len() ==> is_digit(#[trigger] d[i]),
    ensures
        decimal(d.take(j)) <= decimal(d),
    decreases d.len() - j,
{
    if j < d.len() {
        lemma_decimal_prefix(d, j + 1);
        assert(d.take(j + 1).drop_last() =~= d.take(j));
    } else {
        assert(d.take(j) =~= d);
    }
}

// ---------------------------------------------------------------------------
// Scanning
// ---------------------------------------------------------------------------

/// The pieces of `s` between occurrences of `sep`, empty pieces included.
fn split_bytes(s: &[u8], sep: u8) -> (r: Vec<Vec<u8>>)
    ensures
        views(r@) == split_on(s@, sep),
{
    let mut done: Vec<Vec<u8>> = Vec::new();
    let mut cur: Vec<u8> = Vec::new();
    for i in 0..s.len()
        invariant
            split_on(s@.take(i as int), sep) == views(done@).push(cur@),
    {
        let c = s[i];
        let ghost before = views(done@);
        proof {
            assert(s@.take(i + 1).drop_last() =~= s@.take(i as int));
            assert(s@.take(i + 1).last() == c);
        }
        if c == sep {
            let piece = cur;
            done.push(piece);
            cur = Vec::new();
            proof {
                assert(views(done@) =~= before.push(piece@));
            }
        } else {
            let ghost old_cur = cur@;
            cur.push(c);
            proof {
                assert(views(done@).push(cur@) =~= before.push(old_cur).update(
                    before.len() as int,
                    old_cur.push(c),
                ));
            }
        }
    }
    proof {
        assert(s@.take(s@.len() as int) =~= s@);
    }
    let last = cur;
    done.push(last);
    proof {
        assert(views(done@) =~= split_on(s@, sep));
    }
    done
}

/// The whitespace-separated words of `s`.
fn split_whitespace(s: &[u8]) -> (r: Vec<Vec<u8>>)
    ensures
        views(r@) == words(s@),
{
    let mut done: Vec<Vec<u8>> = Vec::new();
    let mut cur: Vec<u8> = Vec::new();
    let ghost mut pieces: Seq<Seq<u8>> = Seq::empty();
    for i in 0..s.len()
        invariant
            ws_pieces(s@.take(i as int)) == pieces.push(cur@),
            nonempty(pieces) == views(done@),
    {
        let c = s[i];
        proof {
            assert(s@.take(i + 1).drop_last() =~= s@.take(i as int));
            assert(s@.take(i + 1).last() == c);
        }
        if c == 32 || (9 <= c && c <= 13) {
            let ghost before = views(done@);
            let ghost old_pieces = pieces;
            proof {
                pieces = pieces.push(cur@);
                assert(pieces.drop_last() =~= old_pieces);
            }
            if cur.len() > 0 {
                let piece = cur;
                done.push(piece);
                proof {
                    assert(views(done@) =~= before.push(piece@));
                }
            }
            cur = Vec::new();
        } else {
            let ghost old_cur = cur@;
            cur.push(c);
            proof {
                assert(pieces.push(cur@) =~= pieces.push(old_cur).update(pieces.len() as int, old_cur.push(c)));
            }
        }
    }
    proof {
        assert(s@.take(s@.len() as int) =~= s@);
        assert(pieces.push(cur@).drop_last() =~= pieces);
    }
    let ghost before = views(done@);
    if cur.len() > 0 {
        let piece = cur;
        done.push(piece);
        proof {
            assert(views(done@) =~= before.push(piece@));
        }
    }
    done
}

/// Whether `s` holds a comma.
fn contains_comma(s: &[u8]) -> (r: bool)
    ensures
        r == has_comma(s@),
{
    for i in 0..s.len()
        invariant
            forall|k: int| 0 <= k < i ==> s@[k] != 44,
    {
        if s[i] == 44 {
            return true;
        }
    }
    false
}

/// The unsigned number that `s` writes, if it writes one no larger than
/// `max`.
fn parse_uint(s: &[u8], max: u64) -> (r: Option<u64>)
    ensures
        match parse_uint_spec(s@, max as nat) {
            None => r is None,
            Some(v) => r == Some(v as u64),
        },
{
    if s.len() == 0 {
        return None;
    }
    let start: usize = if s.len() > 1 && s[0] == 43 {
        1
    } else {
        0
    };
    let ghost d = digits_of(s@);
    proof {
        assert(d =~= s@.skip(start as int));
    }
    let mut value: u64 = 0;
    let mut i = start;
    while i < s.len()
        invariant
            start <= i <= s@.len(),
            d == s@.skip(start as int),
            d == digits_of(s@),
            s@.len() > 0,
            forall|k: int| 0 <= k < i - start ==> is_digit(#[trigger] d[k]),
            value == decimal(d.take(i - start)),
            value <= max,
        decreases s.len() - i,
    {
        let c = s[i];
        proof {
            assert(d[i - start] == c);
            assert(d.take(i - start + 1).drop_last() =~= d.take(i - start));
        }
        if !(48 <= c && c <= 57) {
            proof {
                assert(!is_digit(d[i - start]));
            }
            return None;
        }
        let digit = (c - 48) as u64;
        if digit > max || value > (max - digit) / 10 {
            proof {
                assert(decimal(d.take(i - start + 1)) > max) by (nonlinear_arith)
                    requires
                        decimal(d.take(i - start + 1)) == value * 10 + digit,
                        digit > max || value > (max - digit) / 10,
                        value >= 0,
                ;
                if forall|k: int| 0 <= k < d.len() ==> is_digit(#[trigger] d[k]) {
                    lemma_decimal_prefix(d, i - start + 1);
                }
            }
            return None;
        }
        proof {
            assert(value * 10 + digit <= max) by (nonlinear_arith)
                requires
                    value <= (max - digit) / 10,
                    digit <= max,
            ;
        }
        value = value * 10 + digit;
        i = i + 1;
    }
    proof {
        assert(d.take(d.len() as int) =~= d);
    }
    Some(value)
}

// ---------------------------------------------------------------------------
// Parsing
// ---------------------------------------------------------------------------

/// The layers read so far, then those that the remaining lines describe.
pub open spec fn combine(
    done: Seq<Seq<GateDesc>>,
    rest: Result<Seq<Seq<GateDesc>>, CircuitError>,
) -> Result<Seq<Seq<GateDesc>>, CircuitError> {
    match rest {
        Err(e) => Err(e),
        Ok(r) => Ok(done + r),
    }
}

/// A layer of gates has the described wiring, operations and values.
pub open spec fn layer_is(gs: Seq<Gate>, ds: Seq<GateDesc>) -> bool {
    &&& gs.len() == ds.len()
    &&& forall|j: int|
        0 <= j < gs.len() ==> gate_is(#[trigger] gs[j], ds[j]) && gs[j].value().raw() == ds[j].3 % p()
}

/// Gate described by one comma-separated word of layer number `layer`.
fn parse_gate_token(tok: &[u8], layer: usize) -> (r: Result<Gate, CircuitError>)
    ensures
        match gate_token_spec(tok@, layer as int) {
            Err(e) => r == Err::<Gate, CircuitError>(e),
            Ok(d) => r matches Ok(g) && gate_is(g, d) && g.value().raw() == d.3 % p(),
        },
{
    let vals = split_bytes(tok, 44);
    proof {
        assert(views(vals@).len() == vals@.len());
    }
    if vals.len() != 3 {
        return Err(CircuitError::WrongFormat(layer));
    }
    let op = &vals[2];
    let is_plus = op.len() == 1 && op[0] == 43;
    let is_times = op.len() == 1 && op[0] == 42;
    proof {
        assert(views(vals@)[2] == op@);
        assert(is_plus == (op@ == seq![43u8])) by {
            if op@ == seq![43u8] {
                assert(op@.len() == 1 && op@[0] == 43);
            }
            if is_plus {
                assert(op@ =~= seq![43u8]);
            }
        }
        assert(is_times == (op@ == seq![42u8])) by {
            if op@ == seq![42u8] {
                assert(op@.len() == 1 && op@[0] == 42);
            }
            if is_times {
                assert(op@ =~= seq![42u8]);
            }
        }
    }
    if !(is_plus || is_times) {
        return Err(CircuitError::WrongFormat(layer));
    }
    let w0 = parse_uint(vals[0].as_slice(), usize::MAX as u64);
    let w1 = parse_uint(vals[1].as_slice(), usize::MAX as u64);
    proof {
        assert(views(vals@)[0] == vals@[0]@);
        assert(views(vals@)[1] == vals@[1]@);
    }
    match (w0, w1) {
        (Some(a), Some(b)) => {
            let g = Gate::new(a as usize, b as usize, is_plus, 0);
            proof {
                lemma_small_mod_zero();
            }
            Ok(g)
        },
        _ => Err(CircuitError::InvalidNumber),
    }
}

proof fn lemma_small_mod_zero()
    ensures
        0int % p() == 0,
{
}

/// The gates of a line of gate tokens of the layer with index `layer`.
fn parse_gate_layer(line: &[u8], layer: usize) -> (r: Result<Vec<Gate>, CircuitError>)
    ensures
        match gate_tokens_spec(words(line@), layer as int) {
            Err(e) => r == Err::<Vec<Gate>, CircuitError>(e),
            Ok(ds) => r matches Ok(gs) && layer_is(gs@, ds),
        },
{
    let toks = split_whitespace(line);
    let ghost ts = views(toks@);
    let mut gates: Vec<Gate> = Vec::new();
    let ghost mut ds: Seq<GateDesc> = Seq::empty();
    for j in 0..toks.len()
        invariant
            ts == views(toks@),
            ts == words(line@),
            gate_tokens_spec(ts.take(j as int), layer as int) == Ok::<Seq<GateDesc>, CircuitError>(ds),
            layer_is(gates@, ds),
    {
        let r = parse_gate_token(toks[j].as_slice(), layer);
        proof {
            assert(ts.take(j + 1).drop_last() =~= ts.take(j as int));
            assert(ts.take(j + 1).last() == toks@[j as int]@);
        }
        match r {
            Err(e) => {
                proof {
                    lemma_gate_tokens_err(ts, layer as int, j + 1, e);
                }
                return Err(e);
            },
            Ok(g) => {
                let ghost d = gate_token_spec(toks@[j as int]@, layer as int)->Ok_0;
                gates.push(g);
                proof {
                    ds = ds.push(d);
                }
            },
        }
    }
    proof {
        assert(ts.take(toks@.len() as int) =~= ts);
    }
    Ok(gates)
}

/// The input gates of the input line.
fn parse_input_layer(line: &[u8]) -> (r: Result<Vec<Gate>, CircuitError>)
    ensures
        match input_tokens_spec(words(line@)) {
            Err(e) => r == Err::<Vec<Gate>, CircuitError>(e),
            Ok(ds) => r matches Ok(gs) && layer_is(gs@, ds),
        },
{
    let toks = split_whitespace(line);
    let ghost ts = views(toks@);
    let mut gates: Vec<Gate> = Vec::new();
    let ghost mut ds: Seq<GateDesc> = Seq::empty();
    for j in 0..toks.len()
        invariant
            ts == views(toks@),
            ts == words(line@),
            input_tokens_spec(ts.take(j as int)) == Ok::<Seq<GateDesc>, CircuitError>(ds),
            layer_is(gates@, ds),
    {
        let r = parse_uint(toks[j].as_slice(), u32::MAX as u64);
        proof {
            assert(ts.take(j + 1).drop_last() =~= ts.take(j as int));
            assert(ts.take(j + 1).last() == toks@[j as int]@);
        }
        match r {
            None => {
                proof {
                    lemma_input_tokens_err(ts, j + 1, CircuitError::InvalidNumber);
                }
                return Err(CircuitError::InvalidNumber);
            },
            Some(v) => {
                gates.push(Gate::new(0, 0, false, v as u32));
                proof {
                    ds = ds.push((0, 0, false, v as int));
                }
            },
        }
    }
    proof {
        assert(ts.take(toks@.len() as int) =~= ts);
    }
    Ok(gates)
}

/// `wide_ws_len` of the text from `i` on.
fn wide_ws_at(t: &[u8], i: usize) -> (k: usize)
    requires
        i < t@.len(),
    ensures
        k == wide_ws_len(t@.skip(i as int)),
{
    let ghost s = t@.skip(i as int);
    let n = t.len() - i;
    if n >= 2 && t[i] == 0xC2 && (t[i + 1] == 0x85 || t[i + 1] == 0xA0) {
        2
    } else if n >= 3 && ((t[i] == 0xE1 && t[i + 1] == 0x9A && t[i + 2] == 0x80) || (t[i] == 0xE2 && t[i
        + 1] == 0x80 && ((0x80 <= t[i + 2] && t[i + 2] <= 0x8A) || t[i + 2] == 0xA8 || t[i + 2] == 0xA9
        || t[i + 2] == 0xAF)) || (t[i] == 0xE2 && t[i + 1] == 0x81 && t[i + 2] == 0x9F) || (t[i] == 0xE3
        && t[i + 1] == 0x80 && t[i + 2] == 0x80)) {
        3
    } else {
        0
    }
}

/// The text with each whitespace character beyond ASCII written as a space.
fn space_out(text: &[u8]) -> (out: Vec<u8>)
    ensures
        out@ == ascii_spaced(text@),
{
    let mut out: Vec<u8> = Vec::new();
    let mut i: usize = 0;
    proof {
        assert(text@.skip(0) =~= text@);
    }
    while i < text.len()
        invariant
            i <= text@.len(),
            out@ + ascii_spaced(text@.skip(i as int)) == ascii_spaced(text@),
        decreases text@.len() - i,
    {
        let ghost s = text@.skip(i as int);
        let ghost before = out@;
        let k = wide_ws_at(text, i);
        if k > 0 {
            out.push(32);
            proof {
                assert(s.skip(k as int) =~= text@.skip(i + k));
                let x = ascii_spaced(text@.skip(i + k));
                assert(before.push(32) + x =~= before + (seq![32u8] + x));
            }
            i = i + k;
        } else {
            out.push(text[i]);
            proof {
                assert(s.skip(1) =~= text@.skip(i + 1));
                assert(s[0] == text@[i as int]);
                let x = ascii_spaced(text@.skip(i + 1));
                assert(before.push(text@[i as int]) + x =~= before + (seq![s[0]] + x));
            }
            i = i + 1;
        }
    }
    proof {
        assert(text@.skip(i as int) =~= Seq::<u8>::empty());
        assert(out@ + Seq::<u8>::empty() =~= out@);
    }
    out
}

/// The lines of a text.
fn split_lines(text: &[u8]) -> (r: Vec<Vec<u8>>)
    ensures
        views(r@) == text_lines(text@),
{
    let mut pieces = split_bytes(text, 10);
    proof {
        lemma_split_on_nonempty(text@, 10);
    }
    let n = pieces.len();
    if pieces[n - 1].len() == 0 {
        let ghost before = views(pieces@);
        pieces.pop();
        proof {
            assert(views(pieces@) =~= before.drop_last());
        }
    }
    pieces
}

/// Whether every gate of every layer but the last reads gates that the next
/// layer has.
fn wires_in_range(circuit: &Vec<Vec<Gate>>) -> (r: bool)
    ensures
        r == wired(circuit@.map_values(|l: Vec<Gate>| l@)),
{
    let ghost ls = circuit@.map_values(|l: Vec<Gate>| l@);
    reveal(wired);
    let n = circuit.len();
    if n == 0 {
        return true;
    }
    let mut i: usize = 0;
    while i < n - 1
        invariant
            n == circuit@.len(),
            n >= 1,
            ls == circuit@.map_values(|l: Vec<Gate>| l@),
            i <= circuit@.len(),
            forall|a: int, b: int|
                0 <= a < i && a < ls.len() - 1 && 0 <= b < ls[a].len() ==> (#[trigger] ls[a][b]).wire0()
                    < ls[a + 1].len() && ls[a][b].wire1() < ls[a + 1].len(),
        decreases circuit@.len() - i,
    {
        let layer = &circuit[i];
        let next_len = circuit[i + 1].len();
        for j in 0..layer.len()
            invariant
                ls == circuit@.map_values(|l: Vec<Gate>| l@),
                i + 1 < circuit@.len(),
                layer@ == ls[i as int],
                next_len == ls[i + 1].len(),
                forall|a: int, b: int|
                    0 <= a < i && a < ls.len() - 1 && 0 <= b < ls[a].len() ==> (#[trigger] ls[a][b]).wire0()
                        < ls[a + 1].len() && ls[a][b].wire1() < ls[a + 1].len(),
                forall|b: int|
                    0 <= b < j ==> (#[trigger] ls[i as int][b]).wire0() < ls[i + 1].len() && ls[i as int][b].wire1()
                        < ls[i + 1].len(),
        {
            let (w0, w1) = layer[j].get_wiring();
            if w0 >= next_len || w1 >= next_len {
                proof {
                    reveal(wired);
                    assert(ls[i as int][j as int] == layer@[j as int]);
                }
                return false;
            }
        }
        i = i + 1;
    }
    proof {
        reveal(wired);
    }
    true
}

impl ArithCircuit {
    /// The circuit that a text describes (see `circuit_spec`), with every
    /// gate evaluated from the inputs, the cursor on the output layer, and
    /// one label bit per layer of gates.
    pub fn new(text: &[u8]) -> (r: Result<ArithCircuit, CircuitError>)
        ensures
            match circuit_spec(text@) {
                Err(e) => r == Err::<ArithCircuit, CircuitError>(e),
                Ok(ds) => if ds.len() == 0 {
                    r == Err::<ArithCircuit, CircuitError>(CircuitError::NoLayers)
                } else if !descs_wired(ds) {
                    r == Err::<ArithCircuit, CircuitError>(CircuitError::WireOutOfRange)
                } else {
                    r matches Ok(c) && built_from(c, ds)
                },
            },
    {
        let spaced = space_out(text);
        let lines = split_lines(spaced.as_slice());
        let ghost ls = views(lines@);
        let mut circuit: Vec<Vec<Gate>> = Vec::new();
        let ghost mut done: Seq<Seq<GateDesc>> = Seq::empty();
        let mut layer_count: usize = 0;
        let mut finished = false;
        proof {
            assert(ls.skip(0) =~= ls);
        }
        while layer_count < lines.len() && !finished
            invariant
                ls == views(lines@),
                ls == text_lines(ascii_spaced(text@)),
                layer_count <= lines@.len(),
                circuit@.len() == done.len(),
                forall|i: int| 0 <= i < done.len() ==> layer_is(#[trigger] circuit@[i]@, done[i]),
                !finished ==> circuit@.len() == layer_count,
                !finished ==> combine(done, lines_spec(ls.skip(layer_count as int), layer_count as int))
                    == circuit_spec(text@),
                finished ==> Ok::<Seq<Seq<GateDesc>>, CircuitError>(done) == circuit_spec(text@),
            decreases lines@.len() - layer_count, if finished { 0int } else { 1int },
        {
            let l = lines[layer_count].as_slice();
            let ghost rest = ls.skip(layer_count as int);
            proof {
                assert(rest[0] == l@);
                assert(rest.skip(1) =~= ls.skip(layer_count + 1));
            }
            if contains_comma(l) {
                match parse_gate_layer(l, layer_count) {
                    Err(e) => {
                        return Err(e);
                    },
                    Ok(layer) => {
                        let ghost d = gate_tokens_spec(words(l@), layer_count as int)->Ok_0;
                        circuit.push(layer);
                        proof {
                            let old_done = done;
                            done = done.push(d);
                            assert(seq![d] + lines_spec(ls.skip(layer_count + 1), layer_count + 1)->Ok_0
                                =~= seq![d] + lines_spec(ls.skip(layer_count + 1), layer_count + 1)->Ok_0);
                            match lines_spec(ls.skip(layer_count + 1), layer_count + 1) {
                                Err(e) => {},
                                Ok(r2) => {
                                    assert(old_done + (seq![d] + r2) =~= done + r2);
                                },
                            }
                        }
                        layer_count = layer_count + 1;
                    },
                }
            } else {
                match parse_input_layer(l) {
                    Err(e) => {
                        return Err(e);
                    },
                    Ok(layer) => {
                        let ghost d = input_tokens_spec(words(l@))->Ok_0;
                        circuit.push(layer);
                        proof {
                            let old_done = done;
                            done = done.push(d);
                            assert(old_done + seq![d] =~= done);
                        }
                        finished = true;
                    },
                }
            }
        }
        proof {
            if !finished {
                assert(ls.skip(layer_count as int) =~= Seq::<Seq<u8>>::empty());
                assert(done + Seq::<Seq<GateDesc>>::empty() =~= done);
            }
        }
        if circuit.len() == 0 {
            return Err(CircuitError::NoLayers);
        }
        let ghost layers = circuit@.map_values(|l: Vec<Gate>| l@);
        proof {
            reveal(wired);
            assert(wired(layers) == descs_wired(done)) by {
                if wired(layers) {
                    assert forall|i: int, j: int|
                        0 <= i < done.len() - 1 && 0 <= j < done[i].len() implies 0 <= (#[trigger] done[i][j]).0
                        < done[i + 1].len() && 0 <= done[i][j].1 < done[i + 1].len() by {
                        assert(layer_is(circuit@[i]@, done[i]));
                        assert(layer_is(circuit@[i + 1]@, done[i + 1]));
                        assert(layers[i][j] == circuit@[i]@[j]);
                    }
                }
                if descs_wired(done) {
                    assert forall|i: int, j: int|
                        0 <= i < layers.len() - 1 && 0 <= j < layers[i].len() implies (#[trigger] layers[i][j]).wire0()
                        < layers[i + 1].len() && layers[i][j].wire1() < layers[i + 1].len() by {
                        assert(layer_is(circuit@[i]@, done[i]));
                        assert(layer_is(circuit@[i + 1]@, done[i + 1]));
                        assert(layers[i][j] == circuit@[i]@[j]);
                    }
                }
            }
        }
        if !wires_in_range(&circuit) {
            return Err(CircuitError::WireOutOfRange);
        }
        let num_bits = circuit.len() - 1;
        let mut circ = ArithCircuit::from_layers(circuit, num_bits);
        circ.evaluate_circuit();
        proof {
            let fin = circ.layers();
            lemma_same_shape_wired(fin, layers);
            assert forall|i: int| 0 <= i < fin.len() implies (#[trigger] fin[i]).len() == done[i].len() by {
                assert(layer_is(layers[i], done[i]));
            }
            assert forall|i: int, j: int|
                0 <= i < fin.len() && 0 <= j < fin[i].len() implies gate_is(#[trigger] fin[i][j], done[i][j]) by {
                assert(layer_is(layers[i], done[i]));
            }
            assert forall|j: int| 0 <= j < fin.last().len() implies (#[trigger] fin.last()[j]).value().raw()
                == done.last()[j] .3 % p() by {
                assert(layer_is(layers[layers.len() - 1], done[done.len() - 1]));
            }
        }
        Ok(circ)
    }
}

/// Layers with the wiring of wired layers are wired.
proof fn lemma_same_shape_wired(a: Seq<Seq<Gate>>, b: Seq<Seq<Gate>>)
    requires
        same_shape(a, b),
        wired(b),
    ensures
        wired(a),
{
    reveal(wired);
    assert forall|i: int, j: int|
        0 <= i < a.len() - 1 && 0 <= j < a[i].len() implies (#[trigger] a[i][j]).wire0() < a[i + 1].len()
        && a[i][j].wire1() < a[i + 1].len() by {
        assert(b[i][j].wire0() < b[i + 1].len());
        assert(a[i + 1].len() == b[i + 1].len());
    }
}

// ---------------------------------------------------------------------------
// Whitespace
// ---------------------------------------------------------------------------

/// A blank: tab, vertical tab, form feed, carriage return or space, the
/// ASCII whitespace bytes other than the line feed.
pub open spec fn is_blank(c: u8) -> bool {
    c == 9 || c == 11 || c == 12 || c == 13 || c == 32
}

/// Two texts alike but for some blanks put in place of other blanks.
pub open spec fn blank_alike(x: Seq<u8>, y: Seq<u8>) -> bool {
    &&& x.len() == y.len()
    &&& forall|i: int| 0 <= i < x.len() ==> x[i] == y[i] || (is_blank(x[i]) && is_blank(y[i]))
}

proof fn lemma_blank_alike_concat(a: Seq<u8>, b: Seq<u8>, c: Seq<u8>, d: Seq<u8>)
    requires
        blank_alike(a, b),
        blank_alike(c, d),
    ensures
        blank_alike(a + c, b + d),
{
    assert forall|i: int| 0 <= i < (a + c).len() implies (a + c)[i] == (b + d)[i] || (is_blank((a + c)[i])
        && is_blank((b + d)[i])) by {
        if i < a.len() {
            assert((a + c)[i] == a[i] && (b + d)[i] == b[i]);
        } else {
            assert((a + c)[i] == c[i - a.len()] && (b + d)[i] == d[i - a.len()]);
        }
    }
}

proof fn lemma_blank_alike_skip(x: Seq<u8>, y: Seq<u8>, k: int)
    requires
        blank_alike(x, y),
        0 <= k <= x.len(),
    ensures
        blank_alike(x.skip(k), y.skip(k)),
{
    assert forall|i: int| 0 <= i < x.skip(k).len() implies x.skip(k)[i] == y.skip(k)[i] || (is_blank(
        x.skip(k)[i],
    ) && is_blank(y.skip(k)[i])) by {
        assert(x.skip(k)[i] == x[k + i] && y.skip(k)[i] == y[k + i]);
    }
}

/// Blanks are ASCII, so they never take part in a wider whitespace
/// character: writing those as spaces keeps texts alike.
proof fn lemma_blank_alike_spaced(x: Seq<u8>, y: Seq<u8>)
    requires
        blank_alike(x, y),
    ensures
        blank_alike(ascii_spaced(x), ascii_spaced(y)),
    decreases x.len(),
{
    if x.len() > 0 {
        assert(forall|i: int| 0 <= i < x.len() && x[i] != y[i] ==> x[i] < 128 && y[i] < 128);
        if x.len() >= 1 {
            assert(x[0] == y[0] || (x[0] < 128 && y[0] < 128));
        }
        if x.len() >= 2 {
            assert(x[1] == y[1] || (x[1] < 128 && y[1] < 128));
        }
        if x.len() >= 3 {
            assert(x[2] == y[2] || (x[2] < 128 && y[2] < 128));
        }
        let k = wide_ws_len(x);
        assert(k == wide_ws_len(y));
        if k > 0 {
            lemma_blank_alike_skip(x, y, k as int);
            lemma_blank_alike_spaced(x.skip(k as int), y.skip(k as int));
            lemma_blank_alike_concat(
                seq![32u8],
                seq![32u8],
                ascii_spaced(x.skip(k as int)),
                ascii_spaced(y.skip(k as int)),
            );
        } else {
            lemma_blank_alike_skip(x, y, 1);
            lemma_blank_alike_spaced(x.skip(1), y.skip(1));
            lemma_blank_alike_concat(seq![x[0]], seq![y[0]], ascii_spaced(x.skip(1)), ascii_spaced(y.skip(1)));
        }
    }
}

/// Alike texts split into alike lines.
proof fn lemma_blank_alike_lines(x: Seq<u8>, y: Seq<u8>)
    requires
        blank_alike(x, y),
    ensures
        split_on(x, 10).len() == split_on(y, 10).len(),
        forall|i: int| 0 <= i < split_on(x, 10).len() ==> blank_alike(#[trigger] split_on(x, 10)[i], split_on(y, 10)[i]),
    decreases x.len(),
{
    if x.len() == 0 {
        assert(blank_alike(Seq::<u8>::empty(), Seq::<u8>::empty()));
    } else {
        let x2 = x.drop_last();
        let y2 = y.drop_last();
        assert(blank_alike(x2, y2)) by {
            assert forall|i: int| 0 <= i < x2.len() implies x2[i] == y2[i] || (is_blank(x2[i]) && is_blank(y2[i])) by {
                assert(x2[i] == x[i] && y2[i] == y[i]);
            }
        }
        lemma_blank_alike_lines(x2, y2);
        lemma_split_on_nonempty(x2, 10);
        let px = split_on(x2, 10);
        let py = split_on(y2, 10);
        let m = x.len() - 1;
        assert(x[m] == y[m] || (is_blank(x[m]) && is_blank(y[m])));
        if x.last() == 10 {
            assert(y.last() == 10);
            assert(blank_alike(Seq::<u8>::empty(), Seq::<u8>::empty()));
        } else {
            assert(y.last() != 10);
            let lx = px.last().push(x.last());
            let ly = py.last().push(y.last());
            assert(blank_alike(px.last(), py.last()));
            lemma_blank_alike_concat(px.last(), py.last(), seq![x.last()], seq![y.last()]);
            assert(lx == px.last() + seq![x.last()]);
            assert(ly == py.last() + seq![y.last()]);
        }
    }
}

/// Alike lines have the same words.
proof fn lemma_blank_alike_pieces(x: Seq<u8>, y: Seq<u8>)
    requires
        blank_alike(x, y),
    ensures
        ws_pieces(x) == ws_pieces(y),
    decreases x.len(),
{
    if x.len() > 0 {
        let x2 = x.drop_last();
        let y2 = y.drop_last();
        assert(blank_alike(x2, y2)) by {
            assert forall|i: int| 0 <= i < x2.len() implies x2[i] == y2[i] || (is_blank(x2[i]) && is_blank(y2[i])) by {
                assert(x2[i] == x[i] && y2[i] == y[i]);
            }
        }
        lemma_blank_alike_pieces(x2, y2);
        let m = x.len() - 1;
        assert(x[m] == y[m] || (is_blank(x[m]) && is_blank(y[m])));
    }
}

proof fn lemma_blank_alike_comma(x: Seq<u8>, y: Seq<u8>)
    requires
        blank_alike(x, y),
    ensures
        has_comma(x) == has_comma(y),
{
    if has_comma(x) {
        let i = choose|i: int| 0 <= i < x.len() && x[i] == 44;
        assert(y[i] == 44);
    }
    if has_comma(y) {
        let i = choose|i: int| 0 <= i < y.len() && y[i] == 44;
        assert(x[i] == 44);
    }
}

/// Lines with the same commas and words describe the same layers.
proof fn lemma_lines_spec_same(l1: Seq<Seq<u8>>, l2: Seq<Seq<u8>>, layer: int)
    requires
        l1.len() == l2.len(),
        forall|i: int|
            0 <= i < l1.len() ==> has_comma(#[trigger] l1[i]) == has_comma(l2[i]) && words(l1[i]) == words(
                l2[i],
            ),
    ensures
        lines_spec(l1, layer) == lines_spec(l2, layer),
    decreases l1.len(),
{
    if l1.len() > 0 {
        assert(has_comma(l1[0]) == has_comma(l2[0]) && words(l1[0]) == words(l2[0]));
        let s1 = l1.skip(1);
        let s2 = l2.skip(1);
        assert forall|i: int| 0 <= i < s1.len() implies has_comma(#[trigger] s1[i]) == has_comma(s2[i])
            && words(s1[i]) == words(s2[i]) by {
            assert(s1[i] == l1[i + 1] && s2[i] == l2[i + 1]);
        }
        lemma_lines_spec_same(s1, s2, layer + 1);
    }
}

/// Every blank separates words as a space does: texts alike but for blanks
/// put in place of other blanks (a tab for a space, say) describe the same
/// circuit.
pub proof fn law_blanks_interchangeable(t1: Seq<u8>, t2: Seq<u8>)
    requires
        blank_alike(t1, t2),
    ensures
        circuit_spec(t1) == circuit_spec(t2),
{
    let a1 = ascii_spaced(t1);
    let a2 = ascii_spaced(t2);
    lemma_blank_alike_spaced(t1, t2);
    lemma_blank_alike_lines(a1, a2);
    let p1 = split_on(a1, 10);
    let p2 = split_on(a2, 10);
    lemma_split_on_nonempty(a1, 10);
    assert(blank_alike(p1.last(), p2.last()));
    let l1 = text_lines(a1);
    let l2 = text_lines(a2);
    assert(l1.len() == l2.len());
    assert forall|i: int| 0 <= i < l1.len() implies has_comma(#[trigger] l1[i]) == has_comma(l2[i]) && words(
        l1[i],
    ) == words(l2[i]) by {
        assert(l1[i] == p1[i] && l2[i] == p2[i]);
        assert(blank_alike(p1[i], p2[i]));
        lemma_blank_alike_comma(p1[i], p2[i]);
        lemma_blank_alike_pieces(p1[i], p2[i]);
    }
    lemma_lines_spec_same(l1, l2, 0);
}

/// Writing ASCII bytes as spaces leaves an ASCII byte in place.
proof fn lemma_spaced_around_ascii(x: Seq<u8>, c: u8, y: Seq<u8>)
    requires
        c < 128,
    ensures
        ascii_spaced(x + seq![c] + y) == ascii_spaced(x) + seq![c] + ascii_spaced(y),
    decreases x.len(),
{
    let s = x + seq![c] + y;
    if x.len() == 0 {
        assert(s =~= seq![c] + y);
        assert(s[0] == c);
        assert(wide_ws_len(s) == 0);
        assert(s.skip(1) =~= y);
        assert(ascii_spaced(x) =~= Seq::<u8>::empty());
        assert(seq![c] + ascii_spaced(y) =~= ascii_spaced(x) + seq![c] + ascii_spaced(y));
    } else {
        assert(forall|i: int| 0 <= i < x.len() ==> s[i] == x[i]);
        assert(s[x.len() as int] == c);
        let k = wide_ws_len(s);
        assert(k == wide_ws_len(x));
        assert(k <= x.len());
        if k > 0 {
            assert(s.skip(k as int) =~= x.skip(k as int) + seq![c] + y);
            lemma_spaced_around_ascii(x.skip(k as int), c, y);
            assert(seq![32u8] + (ascii_spaced(x.skip(k as int)) + seq![c] + ascii_spaced(y)) =~= (seq![32u8]
                + ascii_spaced(x.skip(k as int))) + seq![c] + ascii_spaced(y));
        } else {
            assert(s.skip(1) =~= x.skip(1) + seq![c] + y);
            assert(s[0] == x[0]);
            lemma_spaced_around_ascii(x.skip(1), c, y);
            assert(seq![x[0]] + (ascii_spaced(x.skip(1)) + seq![c] + ascii_spaced(y)) =~= (seq![x[0]]
                + ascii_spaced(x.skip(1))) + seq![c] + ascii_spaced(y));
        }
    }
}

/// Line endings written as a carriage return and a line feed read as line
/// feeds: removing the carriage return before a line feed leaves the
/// circuit that a text describes unchanged.
pub proof fn law_crlf_line_endings(a: Seq<u8>, b: Seq<u8>)
    ensures
        circuit_spec(a + seq![13u8, 10u8] + b) == circuit_spec(a + seq![10u8] + b),
{
    let ta = ascii_spaced(a);
    let tb = ascii_spaced(b);
    assert(a + seq![13u8, 10u8] + b =~= a + seq![13u8] + (seq![10u8] + b));
    lemma_spaced_around_ascii(a, 13, seq![10u8] + b);
    lemma_spaced_around_ascii(Seq::<u8>::empty(), 10, b);
    assert(Seq::<u8>::empty() + seq![10u8] + b =~= seq![10u8] + b);
    assert(ascii_spaced(Seq::<u8>::empty()) =~= Seq::<u8>::empty());
    lemma_spaced_around_ascii(a, 10, b);
    let s1 = ascii_spaced(a + seq![13u8, 10u8] + b);
    let s2 = ascii_spaced(a + seq![10u8] + b);
    assert(s1 =~= (ta + seq![13u8]) + seq![10u8] + tb);
    assert(s2 =~= ta + seq![10u8] + tb);
    lemma_split_on_concat(ta + seq![13u8], tb, 10);
    lemma_split_on_concat(ta, tb, 10);
    let pa = split_on(ta, 10);
    let pb = split_on(tb, 10);
    lemma_split_on_nonempty(ta, 10);
    lemma_split_on_nonempty(tb, 10);
    assert((ta + seq![13u8]).drop_last() =~= ta);
    let pa13 = split_on(ta + seq![13u8], 10);
    assert(pa13 == pa.update(pa.len() - 1, pa.last().push(13)));
    let p1 = pa13 + pb;
    let p2 = pa + pb;
    let m = pa.len() - 1;
    assert(p1.last() == p2.last());
    let l1 = text_lines(s1);
    let l2 = text_lines(s2);
    assert(l1.len() == l2.len());
    assert forall|i: int| 0 <= i < l1.len() implies has_comma(#[trigger] l1[i]) == has_comma(l2[i]) && words(
        l1[i],
    ) == words(l2[i]) by {
        if i == m {
            let l = pa.last();
            assert(l1[i] == l.push(13) && l2[i] == l);
            assert(l.push(13).drop_last() =~= l);
            assert(ws_pieces(l.push(13)) == ws_pieces(l).push(Seq::empty()));
            assert(ws_pieces(l.push(13)).drop_last() =~= ws_pieces(l));
            if has_comma(l.push(13)) {
                let j = choose|j: int| 0 <= j < l.push(13).len() && l.push(13)[j] == 44;
                assert(l[j] == 44);
            }
            if has_comma(l) {
                let j = choose|j: int| 0 <= j < l.len() && l[j] == 44;
                assert(l.push(13)[j] == 44);
            }
        } else {
            assert(l1[i] == p1[i] && l2[i] == p2[i]);
            if i < m {
                assert(p1[i] == pa[i] && p2[i] == pa[i]);
            } else {
                assert(p1[i] == pb[i - pa.len()] && p2[i] == pb[i - pa.len()]);
            }
        }
    }
    lemma_lines_spec_same(l1, l2, 0);
}

} // verus!
