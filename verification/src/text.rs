//! The text grammar, as specification functions over byte sequences: token
//! classes, decimal digit strings, string escaping, and the layout-directed
//! encoding of a value tree.

use vstd::prelude::*;
use vstd::utf8::encode_utf8;

use crate::atom::AtomV;
use crate::number::{ndigits, NumberV};
use crate::sexp::SexpV;

verus! {

/// The whitespace bytes the grammar accepts: space, newline, tab, carriage
/// return.
pub open spec fn is_ws(b: u8) -> bool {
    b == 0x20 || b == 0x0a || b == 0x09 || b == 0x0d
}

/// An ASCII decimal digit byte.
pub open spec fn is_digit(b: u8) -> bool {
    0x30 <= b <= 0x39
}

/// An ASCII letter byte.
pub open spec fn is_letter(b: u8) -> bool {
    (0x41 <= b <= 0x5a) || (0x61 <= b <= 0x7a)
}

/// A byte that may stand inside a bare symbol or keyword name: a letter, a
/// digit, or one of the symbol punctuation bytes
/// `! $ % & * + - / : < = > ? @ ^ _ ~`.
pub open spec fn is_symbol_byte(b: u8) -> bool {
    is_letter(b) || is_digit(b) || b == 0x21 || b == 0x24 || b == 0x25 || b == 0x26 || b == 0x2a
        || b == 0x2b || b == 0x2d || b == 0x2f || b == 0x3a || b == 0x3c || b == 0x3d || b == 0x3e
        || b == 0x3f || b == 0x40 || b == 0x5e || b == 0x5f || b == 0x7e
}

/// The minimal decimal digit string of `n`, most significant digit first.
pub open spec fn spec_digits(n: nat) -> Seq<u8>
    decreases n,
{
    if n < 10 {
        seq![(0x30 + n) as u8]
    } else {
        spec_digits(n / 10).push((0x30 + n % 10) as u8)
    }
}

/// `n` zero digits.
pub open spec fn spec_zeros(n: nat) -> Seq<u8> {
    Seq::new(n, |i: int| 0x30u8)
}

/// The lowercase hex digit for a value below sixteen.
pub open spec fn spec_hex_digit(v: u8) -> u8 {
    if v < 10 {
        (0x30 + v) as u8
    } else {
        (0x57 + v) as u8
    }
}

/// How one byte of a string payload is written between the quotes: the
/// quote, the backslash and the named control characters as two-character
/// escapes, the remaining control bytes as a six-character unicode escape,
/// anything else verbatim.
pub open spec fn spec_escape_byte(b: u8) -> Seq<u8> {
    if b == 0x22 {
        seq![0x5cu8, 0x22u8]
    } else if b == 0x5c {
        seq![0x5cu8, 0x5cu8]
    } else if b == 0x08 {
        seq![0x5cu8, 0x62u8]
    } else if b == 0x09 {
        seq![0x5cu8, 0x74u8]
    } else if b == 0x0a {
        seq![0x5cu8, 0x6eu8]
    } else if b == 0x0c {
        seq![0x5cu8, 0x66u8]
    } else if b == 0x0d {
        seq![0x5cu8, 0x72u8]
    } else if b < 0x20 {
        seq![0x5cu8, 0x75u8, 0x30u8, 0x30u8, spec_hex_digit(b / 16), spec_hex_digit(b % 16)]
    } else {
        seq![b]
    }
}

/// A whole payload, escaped byte for byte.
pub open spec fn spec_escaped(bs: Seq<u8>) -> Seq<u8>
    decreases bs.len(),
{
    if bs.len() == 0 {
        seq![]
    } else {
        spec_escape_byte(bs.first()) + spec_escaped(bs.drop_first())
    }
}

/// The text of an atom: a symbol bare, a keyword behind the `#:` marker, a
/// string quoted and escaped.
pub open spec fn spec_atom_text(a: AtomV) -> Seq<u8> {
    match a {
        AtomV::Symbol(s) => encode_utf8(s),
        AtomV::Keyword(s) => seq![0x23u8, 0x3au8] + encode_utf8(s),
        AtomV::Text(s) => seq![0x22u8] + spec_escaped(encode_utf8(s)) + seq![0x22u8],
    }
}

/// The text of a floating value's magnitude: every significand digit is
/// written, shifted by the exponent, with at least one digit on each side
/// of the decimal point.
pub open spec fn spec_dec_text(sig: u64, exp: i64) -> Seq<u8> {
    let ds = spec_digits(sig as nat);
    if exp >= 0 {
        ds + spec_zeros(exp as nat) + seq![0x2eu8, 0x30u8]
    } else {
        let k = -(exp as int);
        if ds.len() > k {
            ds.subrange(0, ds.len() - k) + seq![0x2eu8] + ds.subrange(ds.len() - k, ds.len() as int)
        } else {
            seq![0x30u8, 0x2eu8] + spec_zeros((k - ds.len()) as nat) + ds
        }
    }
}

/// The text of a number: minimal decimal digits, a leading minus sign for
/// negative values, the exact decimal expansion for floating values.
pub open spec fn spec_number_text(n: NumberV) -> Seq<u8> {
    match n {
        NumberV::PosInt(v) => spec_digits(v as nat),
        NumberV::NegInt(v) => if v < 0 {
            seq![0x2du8] + spec_digits((-(v as int)) as nat)
        } else {
            spec_digits(v as nat)
        },
        NumberV::Float(neg, sig, exp) => if neg {
            seq![0x2du8] + spec_dec_text(sig, exp)
        } else {
            spec_dec_text(sig, exp)
        },
    }
}

/// A layout strategy: compact output, or indented output with the given
/// indent unit.
pub enum Layout {
    /// No extra whitespace: a single space between elements.
    Compact,
    /// One element per line, indented by the unit once per nesting level.
    Pretty(Seq<u8>),
}

/// `s` repeated `n` times.
pub open spec fn spec_repeat(s: Seq<u8>, n: nat) -> Seq<u8>
    decreases n,
{
    if n == 0 {
        seq![]
    } else {
        spec_repeat(s, (n - 1) as nat) + s
    }
}

/// The nesting depth the layout tracks below the current one: indented
/// layout counts levels, compact layout needs none.
pub open spec fn lay_bump(l: Layout, d: nat) -> nat {
    match l {
        Layout::Compact => 0,
        Layout::Pretty(_) => d + 1,
    }
}

/// What stands before an element at depth `d`: nothing before a first
/// compact element, a single space before the rest, a newline and indent
/// before every indented element.
pub open spec fn lay_sep(l: Layout, d: nat, first: bool) -> Seq<u8> {
    match l {
        Layout::Compact => if first {
            seq![]
        } else {
            seq![0x20u8]
        },
        Layout::Pretty(ind) => seq![0x0au8] + spec_repeat(ind, d),
    }
}

/// What stands before the closing delimiter of an aggregate at depth `d`:
/// nothing in compact output, a newline and indent after a nonempty
/// indented aggregate.
pub open spec fn lay_close(l: Layout, d: nat, nonempty: bool) -> Seq<u8> {
    match l {
        Layout::Compact => seq![],
        Layout::Pretty(ind) => if nonempty {
            seq![0x0au8] + spec_repeat(ind, d)
        } else {
            seq![]
        },
    }
}

/// The text of a value under a layout, with `d` aggregates currently open.
pub open spec fn spec_encode(l: Layout, d: nat, v: SexpV) -> Seq<u8>
    decreases v,
{
    match v {
        SexpV::Nil => seq![0x23u8, 0x6eu8, 0x69u8, 0x6cu8],
        SexpV::Boolean(b) => if b {
            seq![0x23u8, 0x74u8]
        } else {
            seq![0x23u8, 0x66u8]
        },
        SexpV::Atom(a) => spec_atom_text(a),
        SexpV::Number(n) => spec_number_text(n),
        SexpV::List(es) => seq![0x28u8] + spec_encode_elems(l, lay_bump(l, d), es, true)
            + lay_close(l, d, es.len() > 0) + seq![0x29u8],
        SexpV::Improper(hs, t) => seq![0x28u8] + spec_encode_elems(l, lay_bump(l, d), hs, true)
            + lay_sep(l, lay_bump(l, d), false) + seq![0x2eu8, 0x20u8] + spec_encode(
            l,
            lay_bump(l, d),
            *t,
        ) + lay_close(l, d, true) + seq![0x29u8],
    }
}

/// The text of a run of elements at depth `d`, each behind its separator.
pub open spec fn spec_encode_elems(l: Layout, d: nat, es: Seq<SexpV>, first: bool) -> Seq<u8>
    decreases es,
{
    if es.len() == 0 {
        seq![]
    } else {
        lay_sep(l, d, first) + spec_encode(l, d, es.first()) + spec_encode_elems(
            l,
            d,
            es.drop_first(),
            false,
        )
    }
}


/// A digit string holds one byte per digit of its value.
pub proof fn lemma_digits_len(n: nat)
    ensures
        spec_digits(n).len() == ndigits(n),
    decreases n,
{
    if n >= 10 {
        lemma_digits_len(n / 10);
    }
}

/// Escaping a payload one byte longer appends that byte's escape.
pub proof fn lemma_escaped_push(bs: Seq<u8>, b: u8)
    ensures
        spec_escaped(bs.push(b)) == spec_escaped(bs) + spec_escape_byte(b),
    decreases bs.len(),
{
    if bs.len() == 0 {
        assert(bs.push(b).drop_first() =~= Seq::<u8>::empty());
        assert(bs.push(b).first() == b);
        assert(spec_escaped(Seq::<u8>::empty()) == Seq::<u8>::empty());
        assert(spec_escaped(bs.push(b)) == spec_escape_byte(b) + Seq::<u8>::empty());
        assert(spec_escape_byte(b) + Seq::<u8>::empty() =~= spec_escaped(bs) + spec_escape_byte(
            b,
        ));
    } else {
        assert(bs.push(b).drop_first() =~= bs.drop_first().push(b));
        assert(bs.push(b).first() == bs.first());
        lemma_escaped_push(bs.drop_first(), b);
        assert(spec_escaped(bs.push(b)) == spec_escape_byte(bs.first()) + (spec_escaped(
            bs.drop_first(),
        ) + spec_escape_byte(b)));
        assert(spec_escape_byte(bs.first()) + (spec_escaped(bs.drop_first()) + spec_escape_byte(b))
            =~= (spec_escape_byte(bs.first()) + spec_escaped(bs.drop_first())) + spec_escape_byte(
            b,
        ));
    }
}

/// Encoding one more element appends its separator and its text.
pub proof fn lemma_elems_push(l: Layout, d: nat, es: Seq<SexpV>, x: SexpV, first: bool)
    ensures
        spec_encode_elems(l, d, es.push(x), first) == spec_encode_elems(l, d, es, first) + lay_sep(
            l,
            d,
            first && es.len() == 0,
        ) + spec_encode(l, d, x),
    decreases es.len(),
{
    if es.len() == 0 {
        assert(es.push(x).drop_first() =~= Seq::<SexpV>::empty());
        assert(es.push(x).first() == x);
        assert(spec_encode_elems(l, d, Seq::<SexpV>::empty(), false) == Seq::<u8>::empty());
        assert(spec_encode_elems(l, d, es, first) == Seq::<u8>::empty());
        assert(spec_encode_elems(l, d, es.push(x), first) == lay_sep(l, d, first) + spec_encode(
            l,
            d,
            x,
        ) + Seq::<u8>::empty());
        assert(lay_sep(l, d, first) + spec_encode(l, d, x) + Seq::<u8>::empty()
            =~= spec_encode_elems(l, d, es, first) + lay_sep(l, d, first && es.len() == 0)
            + spec_encode(l, d, x));
    } else {
        assert(es.push(x).drop_first() =~= es.drop_first().push(x));
        assert(es.push(x).first() == es.first());
        lemma_elems_push(l, d, es.drop_first(), x, false);
        let head = lay_sep(l, d, first) + spec_encode(l, d, es.first());
        let mid = spec_encode_elems(l, d, es.drop_first(), false);
        let tail = lay_sep(l, d, false) + spec_encode(l, d, x);
        assert(spec_encode_elems(l, d, es.push(x), first) == head + (mid + tail));
        assert(head + (mid + tail) =~= (head + mid) + tail);
        assert(spec_encode_elems(l, d, es, first) == head + mid);
    }
}

/// Whether a value may stand as the key of a keyed aggregate: atoms and
/// integer numbers are string-like, everything else is rejected.
pub open spec fn spec_key_ok(k: SexpV) -> bool {
    match k {
        SexpV::Atom(_) => true,
        SexpV::Number(n) => !(n is Float),
        _ => false,
    }
}

/// The text of a string-like key: an atom as itself, an integer as quoted
/// decimal text.
pub open spec fn spec_key_text(k: SexpV) -> Seq<u8> {
    match k {
        SexpV::Atom(a) => spec_atom_text(a),
        SexpV::Number(n) => seq![0x22u8] + spec_number_text(n) + seq![0x22u8],
        _ => seq![],
    }
}

/// The text of one keyed entry: a parenthesized pair of key text and value
/// text.
pub open spec fn spec_entry_text(l: Layout, d: nat, e: (SexpV, SexpV)) -> Seq<u8> {
    seq![0x28u8] + spec_key_text(e.0) + seq![0x20u8, 0x2eu8, 0x20u8] + spec_encode(l, d, e.1)
        + seq![0x29u8]
}

/// The text of a run of keyed entries at depth `d`, each behind its
/// separator.
pub open spec fn spec_encode_entries(
    l: Layout,
    d: nat,
    entries: Seq<(SexpV, SexpV)>,
    first: bool,
) -> Seq<u8>
    decreases entries.len(),
{
    if entries.len() == 0 {
        seq![]
    } else {
        lay_sep(l, d, first) + spec_entry_text(l, d, entries.first()) + spec_encode_entries(
            l,
            d,
            entries.drop_first(),
            false,
        )
    }
}

/// The text of a keyed aggregate: its entries between one delimiter pair.
pub open spec fn spec_encode_alist(l: Layout, d: nat, entries: Seq<(SexpV, SexpV)>) -> Seq<u8> {
    seq![0x28u8] + spec_encode_entries(l, lay_bump(l, d), entries, true) + lay_close(
        l,
        d,
        entries.len() > 0,
    ) + seq![0x29u8]
}

/// Encoding one more entry appends its separator and its text.
pub proof fn lemma_entries_push(
    l: Layout,
    d: nat,
    entries: Seq<(SexpV, SexpV)>,
    x: (SexpV, SexpV),
    first: bool,
)
    ensures
        spec_encode_entries(l, d, entries.push(x), first) == spec_encode_entries(
            l,
            d,
            entries,
            first,
        ) + lay_sep(l, d, first && entries.len() == 0) + spec_entry_text(l, d, x),
    decreases entries.len(),
{
    if entries.len() == 0 {
        assert(entries.push(x).drop_first() =~= Seq::<(SexpV, SexpV)>::empty());
        assert(entries.push(x).first() == x);
        assert(spec_encode_entries(l, d, Seq::<(SexpV, SexpV)>::empty(), false)
            == Seq::<u8>::empty());
        assert(spec_encode_entries(l, d, entries, first) == Seq::<u8>::empty());
        assert(spec_encode_entries(l, d, entries.push(x), first) == lay_sep(l, d, first)
            + spec_entry_text(l, d, x) + Seq::<u8>::empty());
        assert(lay_sep(l, d, first) + spec_entry_text(l, d, x) + Seq::<u8>::empty()
            =~= spec_encode_entries(l, d, entries, first) + lay_sep(
            l,
            d,
            first && entries.len() == 0,
        ) + spec_entry_text(l, d, x));
    } else {
        assert(entries.push(x).drop_first() =~= entries.drop_first().push(x));
        assert(entries.push(x).first() == entries.first());
        lemma_entries_push(l, d, entries.drop_first(), x, false);
        let head = lay_sep(l, d, first) + spec_entry_text(l, d, entries.first());
        let mid = spec_encode_entries(l, d, entries.drop_first(), false);
        let tail = lay_sep(l, d, false) + spec_entry_text(l, d, x);
        assert(spec_encode_entries(l, d, entries.push(x), first) == head + (mid + tail));
        assert(head + (mid + tail) =~= (head + mid) + tail);
        assert(spec_encode_entries(l, d, entries, first) == head + mid);
    }
}

} // verus!
