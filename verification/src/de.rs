//! Deserialize S-expression text into a value tree.

use vstd::prelude::*;
use vstd::string::StringSliceAdditionalSpecFns;
use vstd::utf8::{decode_utf8, encode_utf8, valid_utf8};

use crate::atom::{Atom, AtomV};
use crate::error::{CodeV, Error, ErrorCode, ErrorV};
use crate::number::{dec_in_range, spec_normalize, Number, NumberV};
use crate::sexp::{lemma_views_of, views_of, Sexp, SexpV};
use crate::text::{is_digit, is_letter, is_symbol_byte, is_ws};

verus! {

/// What parsing one value yields: the value and the index after it, or an
/// error code and the index it is reported at.
pub enum PResult {
    /// Success: the value, and the index of the first byte after it.
    POk(SexpV, int),
    /// Failure: the code, and the index it is reported at.
    PErr(CodeV, int),
}

/// What parsing a quoted string's contents yields: the unescaped payload
/// bytes and the index after the closing quote, or an error.
pub enum SResult {
    /// Success: the payload bytes, and the index after the closing quote.
    SOk(Seq<u8>, int),
    /// Failure: the code, and the index it is reported at.
    SErr(CodeV, int),
}

/// The smaller of an index and the input's length.
pub open spec fn imin(s: Seq<u8>, i: int) -> int {
    if i < s.len() {
        i
    } else {
        s.len() as int
    }
}

/// The index of the first non-whitespace byte at or after `i`.
pub open spec fn skip_ws(s: Seq<u8>, i: int) -> int
    decreases s.len() - i,
{
    if 0 <= i < s.len() && is_ws(s[i]) {
        skip_ws(s, i + 1)
    } else {
        i
    }
}

/// As [`skip_ws`], clamped below by `i` so that it never moves backward.
pub open spec fn ws_end(s: Seq<u8>, i: int) -> int {
    let j = skip_ws(s, i);
    if j < i {
        i
    } else {
        j
    }
}

/// Whitespace skipping stays inside the input and lands on a
/// non-whitespace byte.
pub proof fn lemma_skip_ws(s: Seq<u8>, i: int)
    requires
        0 <= i <= s.len(),
    ensures
        i <= skip_ws(s, i) <= s.len(),
        ws_end(s, i) == skip_ws(s, i),
        skip_ws(s, i) < s.len() ==> !is_ws(s[skip_ws(s, i)]),
        forall|k: int| i <= k < skip_ws(s, i) ==> is_ws(s[k]),
    decreases s.len() - i,
{
    if i < s.len() && is_ws(s[i]) {
        lemma_skip_ws(s, i + 1);
    }
}

/// The index of the first byte at or after `i` that cannot stand inside a
/// bare name.
pub open spec fn sym_end(s: Seq<u8>, i: int) -> int
    decreases s.len() - i,
{
    if 0 <= i < s.len() && is_symbol_byte(s[i]) {
        sym_end(s, i + 1)
    } else {
        i
    }
}

/// Name scanning stays inside the input, covers symbol bytes only, and
/// stops at the first byte that is no symbol byte.
pub proof fn lemma_sym_end(s: Seq<u8>, i: int)
    requires
        0 <= i <= s.len(),
    ensures
        i <= sym_end(s, i) <= s.len(),
        sym_end(s, i) < s.len() ==> !is_symbol_byte(s[sym_end(s, i)]),
        forall|k: int| i <= k < sym_end(s, i) ==> is_symbol_byte(s[k]),
    decreases s.len() - i,
{
    if i < s.len() && is_symbol_byte(s[i]) {
        lemma_sym_end(s, i + 1);
    }
}

/// The index of the first byte at or after `i` that is not a decimal
/// digit.
pub open spec fn digits_end(s: Seq<u8>, i: int) -> int
    decreases s.len() - i,
{
    if 0 <= i < s.len() && is_digit(s[i]) {
        digits_end(s, i + 1)
    } else {
        i
    }
}

/// Digit scanning stays inside the input.
pub proof fn lemma_digits_end(s: Seq<u8>, i: int)
    requires
        0 <= i <= s.len(),
    ensures
        i <= digits_end(s, i) <= s.len(),
        digits_end(s, i) < s.len() ==> !is_digit(s[digits_end(s, i)]),
        forall|k: int| i <= k < digits_end(s, i) ==> is_digit(s[k]),
    decreases s.len() - i,
{
    if i < s.len() && is_digit(s[i]) {
        lemma_digits_end(s, i + 1);
    }
}

/// The exponent counter stops growing here; any number this long is out of
/// range regardless.
pub const EXP_CAP: i64 = 1000000000;

/// The number a finished literal denotes, reported at index `at`: integers
/// keep their variant by sign, floating values are normalized and must lie
/// within range.
pub open spec fn spec_mk_float(s: Seq<u8>, at: int, pos: bool, sig: u64, exp: int) -> PResult {
    let norm = spec_normalize(sig, exp);
    if dec_in_range(norm.0, norm.1) && norm.1 <= i64::MAX && norm.1 >= i64::MIN {
        PResult::POk(SexpV::Number(NumberV::Float(!pos, norm.0, norm.1 as i64)), at)
    } else {
        PResult::PErr(CodeV::NumberOutOfRange, at)
    }
}

/// Digits beyond the significand's capacity in the integer part only bump
/// the exponent, capped once the number is out of range anyway.
pub open spec fn spec_parse_long(s: Seq<u8>, i: int, pos: bool, sig: u64, exp: int) -> PResult
    decreases s.len() - i,
{
    if 0 <= i < s.len() && is_digit(s[i]) {
        spec_parse_long(
            s,
            i + 1,
            pos,
            sig,
            if exp < EXP_CAP {
                exp + 1
            } else {
                exp
            },
        )
    } else if 0 <= i < s.len() && s[i] == 0x2eu8 {
        spec_parse_decimal(s, i + 1, pos, sig, exp)
    } else {
        spec_mk_float(s, imin(s, i), pos, sig, exp)
    }
}

/// Fractional digits accumulate into the significand while room remains,
/// each lowering the exponent by one; once room is exhausted the remaining
/// digits are accepted and ignored.
pub open spec fn spec_parse_dec_loop(s: Seq<u8>, i: int, pos: bool, sig: u64, exp: int) -> PResult
    decreases s.len() - i,
{
    if 0 <= i < s.len() && is_digit(s[i]) {
        let dg = (s[i] - 0x30) as u64;
        if sig >= u64::MAX / 10 && (sig > u64::MAX / 10 || dg > u64::MAX % 10) {
            spec_mk_float(s, digits_end(s, i), pos, sig, exp)
        } else {
            spec_parse_dec_loop(
                s,
                i + 1,
                pos,
                (sig * 10 + dg) as u64,
                if exp > -EXP_CAP {
                    exp - 1
                } else {
                    exp
                },
            )
        }
    } else {
        spec_mk_float(s, imin(s, i), pos, sig, exp)
    }
}

/// A fractional part must hold at least one digit after the point.
pub open spec fn spec_parse_decimal(s: Seq<u8>, i: int, pos: bool, sig: u64, exp: int) -> PResult {
    if 0 <= i < s.len() && is_digit(s[i]) {
        spec_parse_dec_loop(s, i, pos, sig, exp)
    } else {
        PResult::PErr(CodeV::InvalidNumber, imin(s, i))
    }
}

/// A finished integer part: a following point starts the fraction;
/// otherwise the sign picks the variant, a magnitude beyond the signed
/// range falls back to a floating value, and `-0` denotes integer zero.
pub open spec fn spec_parse_number(s: Seq<u8>, i: int, pos: bool, sig: u64) -> PResult {
    if 0 <= i < s.len() && s[i] == 0x2eu8 {
        spec_parse_decimal(s, i + 1, pos, sig, 0)
    } else if pos {
        PResult::POk(SexpV::Number(NumberV::PosInt(sig)), i)
    } else if sig == 0 {
        PResult::POk(SexpV::Number(NumberV::PosInt(0)), i)
    } else if sig <= 9223372036854775808u64 {
        PResult::POk(SexpV::Number(NumberV::NegInt((-(sig as int)) as i64)), i)
    } else {
        spec_mk_float(s, i, false, sig, 0)
    }
}

/// Integer digits accumulate while they fit in sixty-four bits; the first
/// digit that would overflow switches to the long path, which keeps only a
/// power-of-ten count.
pub open spec fn spec_parse_int_loop(s: Seq<u8>, i: int, pos: bool, sig: u64) -> PResult
    decreases s.len() - i,
{
    if 0 <= i < s.len() && is_digit(s[i]) {
        let dg = (s[i] - 0x30) as u64;
        if sig >= u64::MAX / 10 && (sig > u64::MAX / 10 || dg > u64::MAX % 10) {
            spec_parse_long(s, i + 1, pos, sig, 1)
        } else {
            spec_parse_int_loop(s, i + 1, pos, (sig * 10 + dg) as u64)
        }
    } else {
        spec_parse_number(s, i, pos, sig)
    }
}

/// A number starts with a digit; a second leading zero in the same integer
/// is rejected.
pub open spec fn spec_parse_integer(s: Seq<u8>, i: int, pos: bool) -> PResult {
    if !(0 <= i < s.len()) {
        PResult::PErr(CodeV::InvalidNumber, imin(s, i))
    } else if s[i] == 0x30u8 {
        if i + 1 < s.len() && is_digit(s[i + 1]) {
            PResult::PErr(CodeV::InvalidNumber, i + 1)
        } else {
            spec_parse_number(s, i + 1, pos, 0)
        }
    } else if is_digit(s[i]) {
        spec_parse_int_loop(s, i + 1, pos, (s[i] - 0x30) as u64)
    } else {
        PResult::PErr(CodeV::InvalidNumber, i)
    }
}

/// A hex digit's value, or sixteen for any other byte.
pub open spec fn spec_hex_val(b: u8) -> u8 {
    if 0x30 <= b <= 0x39 {
        (b - 0x30) as u8
    } else if 0x61 <= b <= 0x66 {
        (b - 0x57) as u8
    } else if 0x41 <= b <= 0x46 {
        (b - 0x37) as u8
    } else {
        16u8
    }
}

/// The contents of a quoted string, unescaped byte for byte: the defined
/// two-character escapes, `\\u00XX` escapes up to the ASCII limit, and
/// everything else verbatim, until the closing quote.
pub open spec fn spec_parse_string(s: Seq<u8>, i: int, acc: Seq<u8>) -> SResult
    decreases s.len() - i,
{
    if !(0 <= i < s.len()) {
        SResult::SErr(CodeV::EofWhileParsingString, imin(s, i))
    } else if s[i] == 0x22u8 {
        SResult::SOk(acc, i + 1)
    } else if s[i] == 0x5cu8 {
        if !(i + 1 < s.len()) {
            SResult::SErr(CodeV::EofWhileParsingString, s.len() as int)
        } else {
            let c = s[i + 1];
            if c == 0x22u8 {
                spec_parse_string(s, i + 2, acc.push(0x22u8))
            } else if c == 0x5cu8 {
                spec_parse_string(s, i + 2, acc.push(0x5cu8))
            } else if c == 0x2fu8 {
                spec_parse_string(s, i + 2, acc.push(0x2fu8))
            } else if c == 0x62u8 {
                spec_parse_string(s, i + 2, acc.push(0x08u8))
            } else if c == 0x66u8 {
                spec_parse_string(s, i + 2, acc.push(0x0cu8))
            } else if c == 0x6eu8 {
                spec_parse_string(s, i + 2, acc.push(0x0au8))
            } else if c == 0x72u8 {
                spec_parse_string(s, i + 2, acc.push(0x0du8))
            } else if c == 0x74u8 {
                spec_parse_string(s, i + 2, acc.push(0x09u8))
            } else if c == 0x75u8 {
                if !(i + 6 <= s.len()) {
                    SResult::SErr(CodeV::UnexpectedEndOfHexEscape, s.len() as int)
                } else if spec_hex_val(s[i + 2]) == 16 {
                    SResult::SErr(CodeV::InvalidEscape, i + 2)
                } else if spec_hex_val(s[i + 3]) == 16 {
                    SResult::SErr(CodeV::InvalidEscape, i + 3)
                } else if spec_hex_val(s[i + 4]) == 16 {
                    SResult::SErr(CodeV::InvalidEscape, i + 4)
                } else if spec_hex_val(s[i + 5]) == 16 {
                    SResult::SErr(CodeV::InvalidEscape, i + 5)
                } else if spec_hex_val(s[i + 2]) > 0 || spec_hex_val(s[i + 3]) > 0 || spec_hex_val(
                    s[i + 4],
                ) >= 8 {
                    SResult::SErr(CodeV::InvalidUnicodeCodePoint, i + 6)
                } else {
                    spec_parse_string(
                        s,
                        i + 6,
                        acc.push((spec_hex_val(s[i + 4]) * 16 + spec_hex_val(s[i + 5])) as u8),
                    )
                }
            } else {
                SResult::SErr(CodeV::InvalidEscape, i + 1)
            }
        }
    } else {
        spec_parse_string(s, i + 1, acc.push(s[i]))
    }
}

/// A dotted tail folds into its heads: a nil tail closes a proper list, a
/// list tail splices its elements, an improper tail splices its heads, and
/// a leaf tail ends an improper list.
pub open spec fn spec_merge_tail(heads: Seq<SexpV>, tail: SexpV) -> SexpV {
    match tail {
        SexpV::Nil => SexpV::List(heads),
        SexpV::List(es) => SexpV::List(heads + es),
        SexpV::Improper(hs, t) => SexpV::Improper(heads + hs, t),
        _ => SexpV::Improper(heads, Box::new(tail)),
    }
}

/// One value, dispatched on its first byte; `depth` is the remaining
/// nesting budget.
pub open spec fn spec_parse_value(s: Seq<u8>, i: int, depth: int) -> PResult
    decreases s.len() - i, 0int,
{
    if !(0 <= i < s.len()) {
        PResult::PErr(CodeV::EofWhileParsingValue, imin(s, i))
    } else {
        let c = s[i];
        if c == 0x23u8 {
            // '#'
            spec_parse_hash(s, i)
        } else if c == 0x2du8 {
            // '-'
            spec_parse_integer(s, i + 1, false)
        } else if is_digit(c) {
            spec_parse_integer(s, i, true)
        } else if c == 0x22u8 {
            // '"'
            match spec_parse_string(s, i + 1, seq![]) {
                SResult::SOk(payload, end) => if valid_utf8(payload) {
                    PResult::POk(SexpV::Atom(AtomV::Text(decode_utf8(payload))), end)
                } else {
                    PResult::PErr(CodeV::InvalidUnicodeCodePoint, end)
                },
                SResult::SErr(code, at) => PResult::PErr(code, at),
            }
        } else if c == 0x28u8 {
            // '('
            if depth - 1 <= 0 {
                PResult::PErr(CodeV::RecursionLimitExceeded, i)
            } else {
                spec_parse_list(s, i + 1, depth - 1, seq![])
            }
        } else if is_letter(c) {
            let k = sym_end(s, i);
            PResult::POk(SexpV::Atom(AtomV::Symbol(decode_utf8(s.subrange(i, k)))), k)
        } else {
            PResult::PErr(CodeV::ExpectedSomeValue, i)
        }
    }
}

/// A literal behind `#`: the booleans, nil, or a keyword atom.
pub open spec fn spec_parse_hash(s: Seq<u8>, i: int) -> PResult {
    if !(i + 1 < s.len()) {
        PResult::PErr(CodeV::EofWhileParsingValue, s.len() as int)
    } else {
        let c = s[i + 1];
        if c == 0x74u8 {
            PResult::POk(SexpV::Boolean(true), i + 2)
        } else if c == 0x66u8 {
            PResult::POk(SexpV::Boolean(false), i + 2)
        } else if c == 0x6eu8 {
            if i + 2 < s.len() && s[i + 2] == 0x69u8 {
                if i + 3 < s.len() && s[i + 3] == 0x6cu8 {
                    PResult::POk(SexpV::Nil, i + 4)
                } else {
                    PResult::PErr(CodeV::ExpectedSomeIdent, imin(s, i + 3))
                }
            } else {
                PResult::PErr(CodeV::ExpectedSomeIdent, imin(s, i + 2))
            }
        } else if c == 0x3au8 {
            if i + 2 < s.len() && is_letter(s[i + 2]) {
                let k = sym_end(s, i + 2);
                PResult::POk(SexpV::Atom(AtomV::Keyword(decode_utf8(s.subrange(i + 2, k)))), k)
            } else {
                PResult::PErr(CodeV::ExpectedSomeIdent, imin(s, i + 2))
            }
        } else {
            PResult::PErr(CodeV::ExpectedSomeIdent, i + 1)
        }
    }
}

/// The inside of a list, after its opening parenthesis: elements separated
/// by whitespace, an optional dotted tail, and the closing parenthesis.
/// `acc` holds the elements read so far.
pub open spec fn spec_parse_list(s: Seq<u8>, i: int, depth: int, acc: Seq<SexpV>) -> PResult
    decreases s.len() - i, 1int,
{
    let j = ws_end(s, i);
    if j >= s.len() {
        PResult::PErr(CodeV::EofWhileParsingList, s.len() as int)
    } else if s[j] == 0x29u8 {
        // ')'
        PResult::POk(SexpV::List(acc), j + 1)
    } else if s[j] == 0x2eu8 && acc.len() >= 1 {
        // '.': the final element is the tail
        let k0 = imin(s, ws_end(s, j + 1));
        match spec_parse_value(s, k0, depth) {
            PResult::POk(tail, k) => {
                let k2 = ws_end(s, k);
                if k2 >= s.len() {
                    PResult::PErr(CodeV::EofWhileParsingList, s.len() as int)
                } else if s[k2] == 0x29u8 {
                    PResult::POk(spec_merge_tail(acc, tail), k2 + 1)
                } else {
                    PResult::PErr(CodeV::TrailingCharacters, k2)
                }
            },
            PResult::PErr(code, at) => PResult::PErr(code, at),
        }
    } else if acc.len() >= 1 && j == i {
        // an element already read, and no separating whitespace
        PResult::PErr(CodeV::ExpectedListEltOrEnd, j)
    } else {
        match spec_parse_value(s, j, depth) {
            PResult::POk(v, k) => spec_parse_list(
                s,
                imin(
                    s,
                    if k < j + 1 {
                        j + 1
                    } else {
                        k
                    },
                ),
                depth,
                acc.push(v),
            ),
            PResult::PErr(code, at) => PResult::PErr(code, at),
        }
    }
}

/// A whole document: one value between optional whitespace, to the end of
/// the input; the nesting budget starts at 128.
pub open spec fn spec_decode(s: Seq<u8>) -> PResult {
    let j = ws_end(s, 0);
    match spec_parse_value(s, j, 128) {
        PResult::POk(v, k) => {
            let k2 = ws_end(s, k);
            if k2 >= s.len() {
                PResult::POk(v, k2)
            } else {
                PResult::PErr(CodeV::TrailingCharacters, k2)
            }
        },
        PResult::PErr(code, at) => PResult::PErr(code, at),
    }
}

/// The number of line feeds strictly before index `i`.
pub open spec fn count_newlines(s: Seq<u8>, i: int) -> int
    decreases i,
{
    if i <= 0 {
        0
    } else {
        count_newlines(s, i - 1) + if 0 < i <= s.len() && s[i - 1] == 0x0au8 {
            1int
        } else {
            0int
        }
    }
}

/// The index right after the last line feed strictly before `i`, or zero.
pub open spec fn line_start(s: Seq<u8>, i: int) -> int
    decreases i,
{
    if i <= 0 {
        0
    } else if 0 < i <= s.len() && s[i - 1] == 0x0au8 {
        i
    } else {
        line_start(s, i - 1)
    }
}

/// The one-based line of index `i`.
pub open spec fn spec_line(s: Seq<u8>, i: int) -> int {
    1 + count_newlines(s, i)
}

/// The one-based column of index `i`.
pub open spec fn spec_col(s: Seq<u8>, i: int) -> int {
    i - line_start(s, i) + 1
}


/// Whether a byte is whitespace, executably.
fn is_ws_byte(b: u8) -> (r: bool)
    ensures
        r == is_ws(b),
{
    b == 0x20 || b == 0x0a || b == 0x09 || b == 0x0d
}

/// Whether a byte is a decimal digit, executably.
fn is_digit_byte(b: u8) -> (r: bool)
    ensures
        r == is_digit(b),
{
    0x30 <= b && b <= 0x39
}

/// Whether a byte may stand inside a bare name, executably.
fn is_symbol_byte_exec(b: u8) -> (r: bool)
    ensures
        r == is_symbol_byte(b),
{
    (0x41 <= b && b <= 0x5a) || (0x61 <= b && b <= 0x7a) || (0x30 <= b && b <= 0x39) || b == 0x21
        || b == 0x24 || b == 0x25 || b == 0x26 || b == 0x2a || b == 0x2b || b == 0x2d || b == 0x2f
        || b == 0x3a || b == 0x3c || b == 0x3d || b == 0x3e || b == 0x3f || b == 0x40 || b == 0x5e
        || b == 0x5f || b == 0x7e
}

/// A run of bytes below 0x80 is valid UTF-8.
pub proof fn lemma_ascii_valid_utf8(bs: Seq<u8>)
    requires
        forall|i: int| 0 <= i < bs.len() ==> bs[i] < 0x80,
    ensures
        valid_utf8(bs),
{
    assert(bs.subrange(0, 0) =~= Seq::<u8>::empty());
    assert(valid_utf8(bs.subrange(0, 0)));
    assert(vstd::utf8::partial_valid_utf8(bs, 0));
    assert forall|i: int|
        0 <= 0 <= i < bs.len() <= bs.len() implies #[trigger] vstd::utf8::is_leading_byte_width_1(
        bs[i],
    ) by {
        assert(bs[i] < 0x80);
    }
    vstd::utf8::partial_valid_utf8_extend_ascii_block(bs, 0, bs.len() as int);
    assert(bs.subrange(0, bs.len() as int) =~= bs);
}

/// Relies on `String::from_utf8`: it succeeds exactly on UTF-8 input, and
/// the returned string wraps the same bytes.
#[verifier::external_body]
pub(crate) fn bytes_to_string(v: Vec<u8>) -> (r: Option<String>)
    ensures
        r is Some <==> valid_utf8(v@),
        r matches Some(s) ==> s@ == decode_utf8(v@) && encode_utf8(s@) == v@,
{
    match String::from_utf8(v) {
        Ok(s) => Some(s),
        Err(_) => None,
    }
}

/// The error `e` reports the failure `sp`, with its position rendered as a
/// one-based line and column of `s`.
pub open spec fn err_matches(e: ErrorV, s: Seq<u8>, sp: PResult) -> bool {
    &&& sp is PErr
    &&& e.code == sp->PErr_0
    &&& e.line == spec_line(s, sp->PErr_1)
    &&& e.column == spec_col(s, sp->PErr_1)
}

/// A structure that deserializes S-expression text into value trees.
pub struct Deserializer<'a> {
    input: &'a [u8],
    pos: usize,
    remaining_depth: u8,
}

impl<'a> Deserializer<'a> {
    /// The input bytes.
    pub closed spec fn src(&self) -> Seq<u8> {
        self.input@
    }

    /// The cursor: how many bytes are consumed.
    pub closed spec fn at(&self) -> int {
        self.pos as int
    }

    /// The remaining nesting budget.
    pub closed spec fn rdepth(&self) -> int {
        self.remaining_depth as int
    }

    /// The cursor lies within the input, and the input leaves room for
    /// one-based positions.
    pub open spec fn wf(&self) -> bool {
        0 <= self.at() <= self.src().len() < usize::MAX
    }

    /// Creates an S-expression deserializer over a byte source.  The
    /// nesting budget starts at 128.
    pub fn new(input: &'a [u8]) -> (r: Self)
        requires
            input@.len() < usize::MAX,
        ensures
            r.src() == input@,
            r.at() == 0,
            r.rdepth() == 128,
            r.wf(),
    {
        Deserializer { input, pos: 0, remaining_depth: 128 }
    }

    /// Creates an S-expression deserializer from a byte slice.
    pub fn from_slice(bytes: &'a [u8]) -> (r: Self)
        requires
            bytes@.len() < usize::MAX,
        ensures
            r.src() == bytes@,
            r.at() == 0,
            r.rdepth() == 128,
            r.wf(),
    {
        Deserializer::new(bytes)
    }

    /// Creates an S-expression deserializer from a text slice.
    pub fn from_str(text: &'a str) -> (r: Self)
        requires
            text.spec_bytes().len() < usize::MAX,
        ensures
            r.src() == text.spec_bytes(),
            r.at() == 0,
            r.rdepth() == 128,
            r.wf(),
    {
        Deserializer::new(text.as_bytes())
    }

    /// The one-based line and column of an index into the input.
    fn position_of(&self, idx: usize) -> (r: (usize, usize))
        requires
            self.wf(),
            idx <= self.src().len(),
        ensures
            r.0 == spec_line(self.src(), idx as int),
            r.1 == spec_col(self.src(), idx as int),
    {
        let mut line: usize = 1;
        let mut start: usize = 0;
        let mut k: usize = 0;
        while k < idx
            invariant
                self.wf(),
                idx <= self.src().len(),
                k <= idx,
                start <= k,
                line == spec_line(self.src(), k as int),
                start == line_start(self.src(), k as int),
                line <= k + 1,
            decreases idx - k,
        {
            if self.input[k] == 0x0a {
                line = line + 1;
                start = k + 1;
            }
            k = k + 1;
        }
        (line, idx - start + 1)
    }

    /// Builds an error with the given code, positioned at an index.
    fn error_at(&self, code: ErrorCode, idx: usize) -> (r: Error)
        requires
            self.wf(),
            idx <= self.src().len(),
        ensures
            r@.code == code@,
            r@.line == spec_line(self.src(), idx as int),
            r@.column == spec_col(self.src(), idx as int),
    {
        let (line, column) = self.position_of(idx);
        Error::syntax(code, line, column)
    }

    /// Consumes whitespace; the cursor lands on the first byte that is not
    /// whitespace, or at the end of the input.
    fn parse_whitespace(&mut self)
        requires
            old(self).wf(),
        ensures
            final(self).wf(),
            final(self).src() == old(self).src(),
            final(self).rdepth() == old(self).rdepth(),
            final(self).at() == skip_ws(old(self).src(), old(self).at()),
    {
        let n = self.input.len();
        while self.pos < n && is_ws_byte(self.input[self.pos])
            invariant
                self.wf(),
                n == self.src().len(),
                self.src() == old(self).src(),
                self.rdepth() == old(self).rdepth(),
                skip_ws(self.src(), old(self).at()) == skip_ws(self.src(), self.at()),
            decreases n - self.pos,
        {
            self.pos = self.pos + 1;
        }
    }

    /// The remaining floating-value literal once its parts are known:
    /// normalization and the range check, positioned at the cursor.
    fn mk_float(&self, positive: bool, sig: u64, exp: i64) -> (r: Result<Number, Error>)
        requires
            self.wf(),
        ensures
            r matches Ok(num) ==> spec_mk_float(self.src(), self.at(), positive, sig, exp as int)
                == PResult::POk(SexpV::Number(num@), self.at()),
            r matches Err(e) ==> err_matches(
                e@,
                self.src(),
                spec_mk_float(self.src(), self.at(), positive, sig, exp as int),
            ),
    {
        match crate::number::number_from_decimal(!positive, sig, exp) {
            Some(num) => Ok(num),
            None => Err(self.error_at(ErrorCode::NumberOutOfRange, self.pos)),
        }
    }

    /// The fractional digits, after the point; at least one digit must
    /// follow.
    fn parse_decimal(&mut self, positive: bool, sig: u64, exp: i64) -> (r: Result<Number, Error>)
        requires
            old(self).wf(),
            -EXP_CAP <= exp <= EXP_CAP,
        ensures
            final(self).wf(),
            final(self).src() == old(self).src(),
            final(self).rdepth() == old(self).rdepth(),
            r matches Ok(num) ==> spec_parse_decimal(
                old(self).src(),
                old(self).at(),
                positive,
                sig,
                exp as int,
            ) == PResult::POk(SexpV::Number(num@), final(self).at()),
            r matches Err(e) ==> err_matches(
                e@,
                old(self).src(),
                spec_parse_decimal(old(self).src(), old(self).at(), positive, sig, exp as int),
            ),
    {
        let ghost s = self.src();
        let n = self.input.len();
        if !(self.pos < n && self.input[self.pos] >= 0x30 && self.input[self.pos] <= 0x39) {
            return Err(self.error_at(ErrorCode::InvalidNumber, self.pos));
        }
        let mut sig2: u64 = sig;
        let mut exp2: i64 = exp;
        proof {
            assert(spec_parse_decimal(s, old(self).at(), positive, sig, exp as int)
                == spec_parse_dec_loop(s, self.at(), positive, sig2, exp2 as int));
        }
        while self.pos < n && self.input[self.pos] >= 0x30 && self.input[self.pos] <= 0x39
            invariant
                self.wf(),
                n == s.len(),
                s == old(self).src(),
                self.src() == s,
                self.rdepth() == old(self).rdepth(),
                -EXP_CAP <= exp2 <= EXP_CAP,
                spec_parse_decimal(s, old(self).at(), positive, sig, exp as int)
                    == spec_parse_dec_loop(s, self.at(), positive, sig2, exp2 as int),
            decreases n - self.pos,
        {
            let dg = (self.input[self.pos] - 0x30) as u64;
            if sig2 >= u64::MAX / 10 && (sig2 > u64::MAX / 10 || dg > u64::MAX % 10) {
                // no room left: accept and ignore the remaining digits
                proof {
                    assert(spec_parse_dec_loop(s, self.at(), positive, sig2, exp2 as int)
                        == spec_mk_float(s, digits_end(s, self.at()), positive, sig2, exp2 as int));
                }
                while self.pos < n && self.input[self.pos] >= 0x30 && self.input[self.pos] <= 0x39
                    invariant
                        self.wf(),
                        n == s.len(),
                        s == old(self).src(),
                        self.src() == s,
                        self.rdepth() == old(self).rdepth(),
                        spec_parse_decimal(s, old(self).at(), positive, sig, exp as int)
                            == spec_mk_float(
                            s,
                            digits_end(s, self.at()),
                            positive,
                            sig2,
                            exp2 as int,
                        ),
                    decreases n - self.pos,
                {
                    self.pos = self.pos + 1;
                }
                proof {
                    assert(digits_end(s, self.at()) == self.at());
                }
                return self.mk_float(positive, sig2, exp2);
            }
            sig2 = sig2 * 10 + dg;
            if exp2 > -EXP_CAP {
                exp2 = exp2 - 1;
            }
            self.pos = self.pos + 1;
        }
        self.mk_float(positive, sig2, exp2)
    }

    /// The long integer path: digits that no longer fit only raise the
    /// exponent.
    fn parse_long(&mut self, positive: bool, sig: u64, exp: i64) -> (r: Result<Number, Error>)
        requires
            old(self).wf(),
            0 <= exp <= EXP_CAP,
        ensures
            final(self).wf(),
            final(self).src() == old(self).src(),
            final(self).rdepth() == old(self).rdepth(),
            r matches Ok(num) ==> spec_parse_long(
                old(self).src(),
                old(self).at(),
                positive,
                sig,
                exp as int,
            ) == PResult::POk(SexpV::Number(num@), final(self).at()),
            r matches Err(e) ==> err_matches(
                e@,
                old(self).src(),
                spec_parse_long(old(self).src(), old(self).at(), positive, sig, exp as int),
            ),
    {
        let ghost s = self.src();
        let n = self.input.len();
        let mut exp2: i64 = exp;
        while self.pos < n && self.input[self.pos] >= 0x30 && self.input[self.pos] <= 0x39
            invariant
                self.wf(),
                n == s.len(),
                s == old(self).src(),
                self.src() == s,
                self.rdepth() == old(self).rdepth(),
                0 <= exp2 <= EXP_CAP,
                spec_parse_long(s, old(self).at(), positive, sig, exp as int) == spec_parse_long(
                    s,
                    self.at(),
                    positive,
                    sig,
                    exp2 as int,
                ),
            decreases n - self.pos,
        {
            if exp2 < EXP_CAP {
                exp2 = exp2 + 1;
            }
            self.pos = self.pos + 1;
        }
        if self.pos < n && self.input[self.pos] == 0x2e {
            self.pos = self.pos + 1;
            self.parse_decimal(positive, sig, exp2)
        } else {
            self.mk_float(positive, sig, exp2)
        }
    }

    /// A finished integer part: fraction, signed variant or floating
    /// fallback.
    fn parse_number_tail(&mut self, positive: bool, sig: u64) -> (r: Result<Number, Error>)
        requires
            old(self).wf(),
        ensures
            final(self).wf(),
            final(self).src() == old(self).src(),
            final(self).rdepth() == old(self).rdepth(),
            r matches Ok(num) ==> spec_parse_number(old(self).src(), old(self).at(), positive, sig)
                == PResult::POk(SexpV::Number(num@), final(self).at()),
            r matches Err(e) ==> err_matches(
                e@,
                old(self).src(),
                spec_parse_number(old(self).src(), old(self).at(), positive, sig),
            ),
    {
        let n = self.input.len();
        if self.pos < n && self.input[self.pos] == 0x2e {
            self.pos = self.pos + 1;
            self.parse_decimal(positive, sig, 0)
        } else if positive {
            Ok(Number::from_u64(sig))
        } else if sig == 0 {
            Ok(Number::from_u64(0))
        } else if sig <= 9223372036854775808u64 {
            let v: i64 = if sig == 9223372036854775808u64 {
                i64::MIN
            } else {
                -(sig as i64)
            };
            Ok(Number::from_i64(v))
        } else {
            self.mk_float(false, sig, 0)
        }
    }

    /// A whole number literal, after any leading minus sign has been
    /// consumed; `positive` carries the sign.
    fn parse_integer(&mut self, positive: bool) -> (r: Result<Number, Error>)
        requires
            old(self).wf(),
        ensures
            final(self).wf(),
            final(self).src() == old(self).src(),
            final(self).rdepth() == old(self).rdepth(),
            r matches Ok(num) ==> spec_parse_integer(old(self).src(), old(self).at(), positive)
                == PResult::POk(SexpV::Number(num@), final(self).at()),
            r matches Err(e) ==> err_matches(
                e@,
                old(self).src(),
                spec_parse_integer(old(self).src(), old(self).at(), positive),
            ),
    {
        let ghost s = self.src();
        let n = self.input.len();
        if self.pos >= n {
            return Err(self.error_at(ErrorCode::InvalidNumber, self.pos));
        }
        let b = self.input[self.pos];
        if b == 0x30 {
            if self.pos + 1 < n && self.input[self.pos + 1] >= 0x30 && self.input[self.pos + 1]
                <= 0x39 {
                return Err(self.error_at(ErrorCode::InvalidNumber, self.pos + 1));
            }
            self.pos = self.pos + 1;
            self.parse_number_tail(positive, 0)
        } else if b >= 0x31 && b <= 0x39 {
            self.pos = self.pos + 1;
            let mut sig: u64 = (b - 0x30) as u64;
            proof {
                assert(spec_parse_integer(s, old(self).at(), positive) == spec_parse_int_loop(
                    s,
                    self.at(),
                    positive,
                    sig,
                ));
            }
            while self.pos < n && self.input[self.pos] >= 0x30 && self.input[self.pos] <= 0x39
                invariant
                    self.wf(),
                    n == s.len(),
                    s == old(self).src(),
                    self.src() == s,
                    self.rdepth() == old(self).rdepth(),
                    spec_parse_integer(s, old(self).at(), positive) == spec_parse_int_loop(
                        s,
                        self.at(),
                        positive,
                        sig,
                    ),
                decreases n - self.pos,
            {
                let dg = (self.input[self.pos] - 0x30) as u64;
                if sig >= u64::MAX / 10 && (sig > u64::MAX / 10 || dg > u64::MAX % 10) {
                    self.pos = self.pos + 1;
                    return self.parse_long(positive, sig, 1);
                }
                sig = sig * 10 + dg;
                self.pos = self.pos + 1;
            }
            self.parse_number_tail(positive, sig)
        } else {
            Err(self.error_at(ErrorCode::InvalidNumber, self.pos))
        }
    }
}


/// Whether a byte is an ASCII letter, executably.
fn is_letter_byte(b: u8) -> (r: bool)
    ensures
        r == is_letter(b),
{
    (0x41 <= b && b <= 0x5a) || (0x61 <= b && b <= 0x7a)
}

/// A hex digit's value, or sixteen for any other byte, executably.
fn hex_val(b: u8) -> (r: u8)
    ensures
        r == spec_hex_val(b),
{
    if 0x30 <= b && b <= 0x39 {
        b - 0x30
    } else if 0x61 <= b && b <= 0x66 {
        b - 0x57
    } else if 0x41 <= b && b <= 0x46 {
        b - 0x37
    } else {
        16
    }
}

/// Folds a dotted tail into its heads, as [`spec_merge_tail`] describes.
fn merge_tail(heads: Vec<Sexp>, tail: Sexp) -> (r: Sexp)
    ensures
        r@ == spec_merge_tail(views_of(heads@), tail@),
{
    let mut h = heads;
    match tail {
        Sexp::Nil => Sexp::List(h),
        Sexp::List(es) => {
            let mut rest = es;
            proof {
                lemma_views_of(h@);
                lemma_views_of(rest@);
            }
            let ghost hv = views_of(h@);
            let ghost rv = views_of(rest@);
            h.append(&mut rest);
            proof {
                lemma_views_of(h@);
                assert(views_of(h@) =~= hv + rv);
            }
            Sexp::List(h)
        },
        Sexp::ImproperList(hs, t) => {
            let mut rest = hs;
            proof {
                lemma_views_of(h@);
                lemma_views_of(rest@);
            }
            let ghost hv = views_of(h@);
            let ghost rv = views_of(rest@);
            h.append(&mut rest);
            proof {
                lemma_views_of(h@);
                assert(views_of(h@) =~= hv + rv);
            }
            Sexp::ImproperList(h, t)
        },
        Sexp::Atom(a) => Sexp::ImproperList(h, Box::new(Sexp::Atom(a))),
        Sexp::Number(x) => Sexp::ImproperList(h, Box::new(Sexp::Number(x))),
        Sexp::Boolean(x) => Sexp::ImproperList(h, Box::new(Sexp::Boolean(x))),
    }
}

impl<'a> Deserializer<'a> {
    /// Consumes the run of name bytes at the cursor.
    fn scan_name(&mut self)
        requires
            old(self).wf(),
        ensures
            final(self).wf(),
            final(self).src() == old(self).src(),
            final(self).rdepth() == old(self).rdepth(),
            final(self).at() == sym_end(old(self).src(), old(self).at()),
    {
        let n = self.input.len();
        while self.pos < n && is_symbol_byte_exec(self.input[self.pos])
            invariant
                self.wf(),
                n == self.src().len(),
                self.src() == old(self).src(),
                self.rdepth() == old(self).rdepth(),
                sym_end(self.src(), old(self).at()) == sym_end(self.src(), self.at()),
            decreases n - self.pos,
        {
            self.pos = self.pos + 1;
        }
    }

    /// Copies the input bytes between two cursors.
    fn take_bytes(&self, start: usize, end: usize) -> (r: Vec<u8>)
        requires
            self.wf(),
            start <= end <= self.src().len(),
        ensures
            r@ == self.src().subrange(start as int, end as int),
    {
        vstd::slice::slice_to_vec(&self.input[start..end])
    }

    /// Builds the text of a bare name from its input range.
    fn name_string(&self, start: usize, end: usize) -> (r: String)
        requires
            self.wf(),
            start <= end <= self.src().len(),
            forall|k: int| start <= k < end ==> is_symbol_byte(#[trigger] self.src()[k]),
        ensures
            r@ == decode_utf8(self.src().subrange(start as int, end as int)),
    {
        let v = self.take_bytes(start, end);
        proof {
            assert forall|k: int| 0 <= k < v@.len() implies v@[k] < 0x80 by {
                assert(is_symbol_byte(self.src()[start + k]));
            }
            lemma_ascii_valid_utf8(v@);
        }
        match bytes_to_string(v) {
            Some(text) => text,
            None => {
                proof {
                    assert(false);
                }
                String::new()
            },
        }
    }

    /// A literal behind `#`: the booleans, nil, or a keyword atom.
    fn parse_hash(&mut self) -> (r: Result<Sexp, Error>)
        requires
            old(self).wf(),
            old(self).at() < old(self).src().len(),
        ensures
            final(self).wf(),
            final(self).src() == old(self).src(),
            final(self).rdepth() == old(self).rdepth(),
            r matches Ok(v) ==> spec_parse_hash(old(self).src(), old(self).at()) == PResult::POk(
                v@,
                final(self).at(),
            ),
            r matches Err(e) ==> err_matches(
                e@,
                old(self).src(),
                spec_parse_hash(old(self).src(), old(self).at()),
            ),
    {
        let ghost s = self.src();
        let n = self.input.len();
        let i = self.pos;
        if i + 1 >= n {
            return Err(self.error_at(ErrorCode::EofWhileParsingValue, n));
        }
        let c = self.input[i + 1];
        if c == 0x74 {
            self.pos = i + 2;
            Ok(Sexp::Boolean(true))
        } else if c == 0x66 {
            self.pos = i + 2;
            Ok(Sexp::Boolean(false))
        } else if c == 0x6e {
            if i + 2 < n && self.input[i + 2] == 0x69 {
                if i + 3 < n && self.input[i + 3] == 0x6c {
                    self.pos = i + 4;
                    Ok(Sexp::Nil)
                } else {
                    let idx = if i + 3 < n {
                        i + 3
                    } else {
                        n
                    };
                    Err(self.error_at(ErrorCode::ExpectedSomeIdent, idx))
                }
            } else {
                let idx = if i + 2 < n {
                    i + 2
                } else {
                    n
                };
                Err(self.error_at(ErrorCode::ExpectedSomeIdent, idx))
            }
        } else if c == 0x3a {
            if i + 2 < n && is_letter_byte(self.input[i + 2]) {
                self.pos = i + 2;
                self.scan_name();
                proof {
                    lemma_sym_end(s, i + 2);
                }
                let name = self.name_string(i + 2, self.pos);
                Ok(Sexp::Atom(Atom::new_keyword(name)))
            } else {
                let idx = if i + 2 < n {
                    i + 2
                } else {
                    n
                };
                Err(self.error_at(ErrorCode::ExpectedSomeIdent, idx))
            }
        } else {
            Err(self.error_at(ErrorCode::ExpectedSomeIdent, i + 1))
        }
    }

    /// The contents of a quoted string after its opening quote: unescaped
    /// payload bytes, up to and including the closing quote.
    fn parse_string_contents(&mut self) -> (r: Result<Vec<u8>, Error>)
        requires
            old(self).wf(),
        ensures
            final(self).wf(),
            final(self).src() == old(self).src(),
            final(self).rdepth() == old(self).rdepth(),
            r matches Ok(v) ==> spec_parse_string(old(self).src(), old(self).at(), seq![])
                == SResult::SOk(v@, final(self).at()),
            r matches Err(e) ==> ({
                let sp = spec_parse_string(old(self).src(), old(self).at(), seq![]);
                &&& sp is SErr
                &&& e@.code == sp->SErr_0
                &&& e@.line == spec_line(old(self).src(), sp->SErr_1)
                &&& e@.column == spec_col(old(self).src(), sp->SErr_1)
            }),
    {
        let ghost s = self.src();
        let n = self.input.len();
        let mut acc: Vec<u8> = Vec::new();
        loop
            invariant
                self.wf(),
                n == s.len(),
                s == old(self).src(),
                self.src() == s,
                self.rdepth() == old(self).rdepth(),
                spec_parse_string(s, old(self).at(), seq![]) == spec_parse_string(
                    s,
                    self.at(),
                    acc@,
                ),
            decreases n - self.pos,
        {
            if self.pos >= n {
                return Err(self.error_at(ErrorCode::EofWhileParsingString, n));
            }
            let b = self.input[self.pos];
            if b == 0x22 {
                self.pos = self.pos + 1;
                return Ok(acc);
            }
            if b == 0x5c {
                if self.pos + 1 >= n {
                    return Err(self.error_at(ErrorCode::EofWhileParsingString, n));
                }
                let c = self.input[self.pos + 1];
                if c == 0x22 {
                    acc.push(0x22);
                    self.pos = self.pos + 2;
                } else if c == 0x5c {
                    acc.push(0x5c);
                    self.pos = self.pos + 2;
                } else if c == 0x2f {
                    acc.push(0x2f);
                    self.pos = self.pos + 2;
                } else if c == 0x62 {
                    acc.push(0x08);
                    self.pos = self.pos + 2;
                } else if c == 0x66 {
                    acc.push(0x0c);
                    self.pos = self.pos + 2;
                } else if c == 0x6e {
                    acc.push(0x0a);
                    self.pos = self.pos + 2;
                } else if c == 0x72 {
                    acc.push(0x0d);
                    self.pos = self.pos + 2;
                } else if c == 0x74 {
                    acc.push(0x09);
                    self.pos = self.pos + 2;
                } else if c == 0x75 {
                    if n - self.pos < 6 {
                        return Err(self.error_at(ErrorCode::UnexpectedEndOfHexEscape, n));
                    }
                    let h2 = hex_val(self.input[self.pos + 2]);
                    if h2 == 16 {
                        return Err(self.error_at(ErrorCode::InvalidEscape, self.pos + 2));
                    }
                    let h3 = hex_val(self.input[self.pos + 3]);
                    if h3 == 16 {
                        return Err(self.error_at(ErrorCode::InvalidEscape, self.pos + 3));
                    }
                    let h4 = hex_val(self.input[self.pos + 4]);
                    if h4 == 16 {
                        return Err(self.error_at(ErrorCode::InvalidEscape, self.pos + 4));
                    }
                    let h5 = hex_val(self.input[self.pos + 5]);
                    if h5 == 16 {
                        return Err(self.error_at(ErrorCode::InvalidEscape, self.pos + 5));
                    }
                    if h2 > 0 || h3 > 0 || h4 >= 8 {
                        return Err(
                            self.error_at(ErrorCode::InvalidUnicodeCodePoint, self.pos + 6),
                        );
                    }
                    acc.push(h4 * 16 + h5);
                    self.pos = self.pos + 6;
                } else {
                    return Err(self.error_at(ErrorCode::InvalidEscape, self.pos + 1));
                }
            } else {
                acc.push(b);
                self.pos = self.pos + 1;
            }
        }
    }

    /// Parses one value, after skipping any leading whitespace: a `#`
    /// literal, a number, a string, a list or a bare symbol.
    pub fn parse_value(&mut self) -> (r: Result<Sexp, Error>)
        requires
            old(self).wf(),
        ensures
            final(self).wf(),
            final(self).src() == old(self).src(),
            final(self).rdepth() == old(self).rdepth(),
            r matches Ok(v) ==> spec_parse_value(
                old(self).src(),
                ws_end(old(self).src(), old(self).at()),
                old(self).rdepth(),
            ) == PResult::POk(v@, final(self).at()),
            r matches Err(e) ==> err_matches(
                e@,
                old(self).src(),
                spec_parse_value(
                    old(self).src(),
                    ws_end(old(self).src(), old(self).at()),
                    old(self).rdepth(),
                ),
            ),
        decreases self.src().len() - self.at(), 0int,
    {
        let ghost s = self.src();
        self.parse_whitespace();
        proof {
            lemma_skip_ws(s, old(self).at());
        }
        let n = self.input.len();
        if self.pos >= n {
            return Err(self.error_at(ErrorCode::EofWhileParsingValue, self.pos));
        }
        let b = self.input[self.pos];
        if b == 0x23 {
            self.parse_hash()
        } else if b == 0x2d {
            self.pos = self.pos + 1;
            match self.parse_integer(false) {
                Ok(num) => Ok(Sexp::Number(num)),
                Err(e) => Err(e),
            }
        } else if is_digit_byte(b) {
            match self.parse_integer(true) {
                Ok(num) => Ok(Sexp::Number(num)),
                Err(e) => Err(e),
            }
        } else if b == 0x22 {
            self.pos = self.pos + 1;
            match self.parse_string_contents() {
                Ok(bytes) => {
                    proof {
                        vstd::utf8::encode_utf8_decode_utf8(decode_utf8(bytes@));
                    }
                    match bytes_to_string(bytes) {
                        Some(text) => Ok(Sexp::Atom(Atom::new_string(text))),
                        None => Err(
                            self.error_at(ErrorCode::InvalidUnicodeCodePoint, self.pos),
                        ),
                    }
                },
                Err(e) => Err(e),
            }
        } else if b == 0x28 {
            if self.remaining_depth <= 1 {
                return Err(self.error_at(ErrorCode::RecursionLimitExceeded, self.pos));
            }
            self.remaining_depth = self.remaining_depth - 1;
            self.pos = self.pos + 1;
            let r = self.parse_list_body();
            self.remaining_depth = self.remaining_depth + 1;
            r
        } else if is_letter_byte(b) {
            let start = self.pos;
            self.scan_name();
            proof {
                lemma_sym_end(s, start as int);
            }
            let name = self.name_string(start, self.pos);
            Ok(Sexp::Atom(Atom::new_symbol(name)))
        } else {
            Err(self.error_at(ErrorCode::ExpectedSomeValue, self.pos))
        }
    }

    /// The inside of a list, after its opening parenthesis and the nesting
    /// budget's decrement.
    #[verifier::rlimit(80)]
    fn parse_list_body(&mut self) -> (r: Result<Sexp, Error>)
        requires
            old(self).wf(),
            old(self).rdepth() >= 1,
        ensures
            final(self).wf(),
            final(self).src() == old(self).src(),
            final(self).rdepth() == old(self).rdepth(),
            r matches Ok(v) ==> spec_parse_list(
                old(self).src(),
                old(self).at(),
                old(self).rdepth(),
                seq![],
            ) == PResult::POk(v@, final(self).at()),
            r matches Err(e) ==> err_matches(
                e@,
                old(self).src(),
                spec_parse_list(old(self).src(), old(self).at(), old(self).rdepth(), seq![]),
            ),
        decreases self.src().len() - self.at(), 1int,
    {
        let ghost s = self.src();
        let ghost d = self.rdepth();
        let n = self.input.len();
        let mut acc: Vec<Sexp> = Vec::new();
        proof {
            lemma_views_of(acc@);
            assert(views_of(acc@) =~= Seq::<SexpV>::empty());
        }
        loop
            invariant
                self.wf(),
                n == s.len(),
                s == old(self).src(),
                self.src() == s,
                self.rdepth() == d,
                d == old(self).rdepth(),
                d >= 1,
                self.at() >= old(self).at(),
                spec_parse_list(s, old(self).at(), d, seq![]) == spec_parse_list(
                    s,
                    self.at(),
                    d,
                    views_of(acc@),
                ),
            decreases s.len() - self.at(),
        {
            let ghost iter0 = self.at();
            let ghost accv = views_of(acc@);
            proof {
                lemma_views_of(acc@);
            }
            let i_before = self.pos;
            self.parse_whitespace();
            proof {
                lemma_skip_ws(s, iter0);
                assert(ws_end(s, iter0) == self.at());
            }
            let j = self.pos;
            if j >= n {
                proof {
                    assert(spec_parse_list(s, iter0, d, accv) == PResult::PErr(
                        CodeV::EofWhileParsingList,
                        s.len() as int,
                    ));
                }
                return Err(self.error_at(ErrorCode::EofWhileParsingList, n));
            }
            let b = self.input[j];
            if b == 0x29 {
                self.pos = j + 1;
                proof {
                    assert(spec_parse_list(s, iter0, d, accv) == PResult::POk(
                        SexpV::List(accv),
                        j + 1,
                    ));
                }
                return Ok(Sexp::List(acc));
            }
            if b == 0x2e && acc.len() >= 1 {
                self.pos = j + 1;
                proof {
                    lemma_skip_ws(s, j + 1);
                }
                let tail = match self.parse_value() {
                    Ok(v) => v,
                    Err(e) => {
                        proof {
                            assert(spec_parse_list(s, iter0, d, accv) == PResult::PErr(
                                spec_parse_value(s, ws_end(s, j + 1), d)->PErr_0,
                                spec_parse_value(s, ws_end(s, j + 1), d)->PErr_1,
                            ));
                        }
                        return Err(e);
                    },
                };
                let ghost k = self.at();
                let k_mid = self.pos;
                self.parse_whitespace();
                proof {
                    lemma_skip_ws(s, k_mid as int);
                }
                let k2 = self.pos;
                if k2 >= n {
                    proof {
                        assert(spec_parse_list(s, iter0, d, accv) == PResult::PErr(
                            CodeV::EofWhileParsingList,
                            s.len() as int,
                        ));
                    }
                    return Err(self.error_at(ErrorCode::EofWhileParsingList, n));
                }
                if self.input[k2] == 0x29 {
                    self.pos = k2 + 1;
                    proof {
                        assert(spec_parse_list(s, iter0, d, accv) == PResult::POk(
                            spec_merge_tail(accv, tail@),
                            k2 + 1,
                        ));
                    }
                    return Ok(merge_tail(acc, tail));
                } else {
                    proof {
                        assert(spec_parse_list(s, iter0, d, accv) == PResult::PErr(
                            CodeV::TrailingCharacters,
                            k2 as int,
                        ));
                    }
                    return Err(self.error_at(ErrorCode::TrailingCharacters, k2));
                }
            }
            if acc.len() >= 1 && j == i_before {
                proof {
                    assert(spec_parse_list(s, iter0, d, accv) == PResult::PErr(
                        CodeV::ExpectedListEltOrEnd,
                        j as int,
                    ));
                }
                return Err(self.error_at(ErrorCode::ExpectedListEltOrEnd, j));
            }
            proof {
                assert(ws_end(s, j as int) == j as int);
            }
            let v = match self.parse_value() {
                Ok(v) => v,
                Err(e) => {
                    proof {
                        assert(spec_parse_list(s, iter0, d, accv) == PResult::PErr(
                            spec_parse_value(s, j as int, d)->PErr_0,
                            spec_parse_value(s, j as int, d)->PErr_1,
                        ));
                    }
                    return Err(e);
                },
            };
            proof {
                assert(spec_parse_value(s, j as int, d) == PResult::POk(v@, self.at()));
            }
            let ghost k = self.at();
            if self.pos < j + 1 {
                self.pos = j + 1;
            }
            proof {
                assert(self.at() == imin(
                    s,
                    if k < j + 1 {
                        j + 1
                    } else {
                        k
                    },
                ));
            }
            proof {
                lemma_views_of(acc@);
            }
            acc.push(v);
            proof {
                lemma_views_of(acc@);
                assert(views_of(acc@) =~= accv.push(v@));
                assert(spec_parse_list(s, iter0, d, accv) == spec_parse_list(
                    s,
                    self.at(),
                    d,
                    views_of(acc@),
                ));
            }
        }
    }

    /// The `Deserializer::end` method should be called after a value has
    /// been fully deserialized: it checks that only whitespace is left.
    pub fn end(&mut self) -> (r: Result<(), Error>)
        requires
            old(self).wf(),
        ensures
            final(self).wf(),
            final(self).src() == old(self).src(),
            final(self).rdepth() == old(self).rdepth(),
            r is Ok <==> ws_end(old(self).src(), old(self).at()) == old(self).src().len(),
            r matches Err(e) ==> ({
                let k2 = ws_end(old(self).src(), old(self).at());
                &&& e@.code == CodeV::TrailingCharacters
                &&& e@.line == spec_line(old(self).src(), k2)
                &&& e@.column == spec_col(old(self).src(), k2)
            }),
    {
        let ghost s = self.src();
        self.parse_whitespace();
        proof {
            lemma_skip_ws(s, old(self).at());
        }
        if self.pos < self.input.len() {
            Err(self.error_at(ErrorCode::TrailingCharacters, self.pos))
        } else {
            Ok(())
        }
    }
}

/// Deserialize one S-expression value from a byte slice; the whole input
/// must be consumed, up to trailing whitespace.
pub fn from_slice(v: &[u8]) -> (r: Result<Sexp, Error>)
    requires
        v@.len() < usize::MAX,
    ensures
        r matches Ok(val) ==> spec_decode(v@) matches PResult::POk(vv, _) && val@ == vv,
        r matches Err(e) ==> err_matches(e@, v@, spec_decode(v@)),
{
    let mut de = Deserializer::from_slice(v);
    proof {
        lemma_skip_ws(v@, 0);
    }
    let ghost sp = spec_parse_value(v@, ws_end(v@, 0), 128);
    let value = match de.parse_value() {
        Ok(val) => val,
        Err(e) => {
            proof {
                assert(spec_decode(v@) == sp);
            }
            return Err(e);
        },
    };
    proof {
        assert(sp == PResult::POk(value@, de.at()));
        lemma_skip_ws(v@, de.at());
    }
    match de.end() {
        Ok(()) => {
            proof {
                assert(spec_decode(v@) matches PResult::POk(vv, _) && value@ == vv);
            }
            Ok(value)
        },
        Err(e) => {
            proof {
                assert(spec_decode(v@) == PResult::PErr(
                    CodeV::TrailingCharacters,
                    ws_end(v@, sp->POk_1),
                ));
            }
            Err(e)
        },
    }
}

/// Deserialize one S-expression value from a text slice; the whole input
/// must be consumed, up to trailing whitespace.
pub fn from_str(text: &str) -> (r: Result<Sexp, Error>)
    requires
        text.spec_bytes().len() < usize::MAX,
    ensures
        r matches Ok(val) ==> spec_decode(text.spec_bytes()) matches PResult::POk(vv, _) && val@
            == vv,
        r matches Err(e) ==> err_matches(e@, text.spec_bytes(), spec_decode(text.spec_bytes())),
{
    from_slice(text.as_bytes())
}


/// One step of the streaming decoder at cursor `i`: nothing at the end of
/// the input, one parenthesized value parsed with a fresh nesting budget,
/// or a rejection of any other leading byte.
pub open spec fn spec_stream_step(s: Seq<u8>, i: int) -> Option<PResult> {
    let j = ws_end(s, i);
    if j >= s.len() {
        Option::None
    } else if s[j] == 0x28u8 {
        Option::Some(spec_parse_value(s, j, 128))
    } else {
        Option::Some(PResult::PErr(CodeV::ExpectedList, j))
    }
}

/// Iterator-like access to a stream of whitespace-separated top-level
/// values.  Only lists are valid top-level stream items.  After each
/// successfully decoded item the reported byte offset points at its end, so
/// a truncated stream can be resumed by re-feeding the input from there.
pub struct StreamDeserializer<'a> {
    de: Deserializer<'a>,
    offset: usize,
}

impl<'a> StreamDeserializer<'a> {
    /// The input bytes.
    pub closed spec fn src(&self) -> Seq<u8> {
        self.de.src()
    }

    /// The cursor: how many bytes are consumed.
    pub closed spec fn at(&self) -> int {
        self.de.at()
    }

    /// The reported resumption offset.
    pub closed spec fn offset_spec(&self) -> int {
        self.offset as int
    }

    /// The cursor and offset lie within the input, and the nesting budget
    /// is full between items.
    pub closed spec fn wf(&self) -> bool {
        self.de.wf() && self.de.rdepth() == 128 && 0 <= self.offset_spec() <= self.src().len()
    }

    /// Creates a stream deserializer over a byte source.
    pub fn new(input: &'a [u8]) -> (r: Self)
        requires
            input@.len() < usize::MAX,
        ensures
            r.wf(),
            r.src() == input@,
            r.at() == 0,
            r.offset_spec() == 0,
    {
        StreamDeserializer { de: Deserializer::new(input), offset: 0 }
    }

    /// The number of bytes so far deserialized into successful items.  If
    /// the stream ends in an EOF error, new data can be joined to
    /// `input[stream.byte_offset()..]` to try again.
    pub fn byte_offset(&self) -> (r: usize)
        ensures
            r == self.offset_spec(),
    {
        self.offset
    }

    /// The next top-level value of the stream, if any.
    pub fn next(&mut self) -> (r: Option<Result<Sexp, Error>>)
        requires
            old(self).wf(),
        ensures
            final(self).wf(),
            final(self).src() == old(self).src(),
            ({
                let step = spec_stream_step(old(self).src(), old(self).at());
                match step {
                    Option::None => r is None && final(self).offset_spec() == old(
                        self,
                    ).src().len(),
                    Option::Some(sp) => match sp {
                        PResult::POk(vv, k) => (r matches Some(item) && item matches Ok(val)
                            && val@ == vv) && final(self).offset_spec() == k && final(self).at()
                            == k,
                        PResult::PErr(_, _) => r matches Some(item) && item matches Err(e)
                            && err_matches(e@, old(self).src(), sp),
                    },
                }
            }),
    {
        let ghost s = self.src();
        self.de.parse_whitespace();
        proof {
            lemma_skip_ws(s, old(self).at());
        }
        let n = self.de.input.len();
        if self.de.pos >= n {
            self.offset = self.de.pos;
            return None;
        }
        let b = self.de.input[self.de.pos];
        if b != 0x28 {
            return Some(Err(self.de.error_at(ErrorCode::ExpectedList, self.de.pos)));
        }
        self.offset = self.de.pos;
        proof {
            lemma_skip_ws(s, self.de.at());
        }
        match self.de.parse_value() {
            Ok(val) => {
                self.offset = self.de.pos;
                Some(Ok(val))
            },
            Err(e) => Some(Err(e)),
        }
    }
}

impl<'a> Deserializer<'a> {
    /// Turns the deserializer into a stream over the remaining input.
    pub fn into_iter(self) -> (r: StreamDeserializer<'a>)
        requires
            self.wf(),
            self.rdepth() == 128,
        ensures
            r.wf(),
            r.src() == self.src(),
            r.at() == self.at(),
            r.offset_spec() == self.at(),
    {
        let offset = self.pos;
        StreamDeserializer { de: self, offset }
    }
}

} // verus!
