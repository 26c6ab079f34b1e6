//! The laws this library states of itself: decoding undoes encoding under
//! either layout, the compact encoding is idempotent, every value the
//! decoder yields is canonical, and the streaming decoder can resume from
//! its reported offsets.

use vstd::prelude::*;
use vstd::utf8::{decode_utf8, encode_utf8, valid_utf8};

use crate::atom::AtomV;
use crate::de::{
    digits_end, imin, lemma_digits_end, lemma_skip_ws, lemma_sym_end, skip_ws, spec_decode,
    spec_hex_val, spec_merge_tail, spec_parse_dec_loop, spec_parse_decimal, spec_parse_hash,
    spec_parse_int_loop, spec_parse_integer, spec_parse_list, spec_parse_long, spec_parse_number,
    spec_parse_string, spec_parse_value, spec_mk_float, sym_end, ws_end, PResult, SResult, EXP_CAP,
};
use crate::error::CodeV;
use crate::number::{ndigits, pow10, spec_normalize, NumberV};
use crate::sexp::{
    float_free, letter_char, sdepth, seq_depth, symbol_char, wf_atom, wf_name, wf_sexp,
    lemma_seq_depth_ge, SexpV,
};
use crate::text::{
    is_digit, is_letter, is_symbol_byte, is_ws, lay_bump, lay_close, lay_sep, spec_atom_text,
    spec_digits, spec_encode, spec_encode_elems, spec_escape_byte, spec_escaped, spec_number_text,
    spec_repeat, Layout,
};

verus! {

/// A layout whose extra whitespace really is whitespace: the compact
/// layout, or an indented layout whose indent unit is made of whitespace
/// bytes.
pub open spec fn ws_layout(l: Layout) -> bool {
    match l {
        Layout::Compact => true,
        Layout::Pretty(ind) => forall|i: int| 0 <= i < ind.len() ==> is_ws(#[trigger] ind[i]),
    }
}

/// A repeated whitespace unit stays whitespace.
proof fn lemma_repeat_ws(ind: Seq<u8>, n: nat)
    requires
        forall|i: int| 0 <= i < ind.len() ==> is_ws(#[trigger] ind[i]),
    ensures
        forall|i: int| 0 <= i < spec_repeat(ind, n).len() ==> is_ws(#[trigger] spec_repeat(ind, n)[i]),
    decreases n,
{
    if n > 0 {
        lemma_repeat_ws(ind, (n - 1) as nat);
        assert(spec_repeat(ind, n) == spec_repeat(ind, (n - 1) as nat) + ind);
        assert forall|i: int| 0 <= i < spec_repeat(ind, n).len() implies is_ws(
            #[trigger] spec_repeat(ind, n)[i],
        ) by {
            if i < spec_repeat(ind, (n - 1) as nat).len() {
                assert(spec_repeat(ind, n)[i] == spec_repeat(ind, (n - 1) as nat)[i]);
            } else {
                assert(spec_repeat(ind, n)[i] == ind[i - spec_repeat(ind, (n - 1) as nat).len()]);
            }
        }
    } else {
        assert(spec_repeat(ind, n).len() == 0);
    }
}

/// Every byte of an element separator is whitespace.
proof fn lemma_sep_ws(l: Layout, d: nat, first: bool)
    requires
        ws_layout(l),
    ensures
        forall|i: int|
            0 <= i < lay_sep(l, d, first).len() ==> is_ws(#[trigger] lay_sep(l, d, first)[i]),
{
    match l {
        Layout::Compact => {},
        Layout::Pretty(ind) => {
            lemma_repeat_ws(ind, d);
        },
    }
}

/// Every byte of a closing separator is whitespace.
proof fn lemma_close_ws(l: Layout, d: nat, nonempty: bool)
    requires
        ws_layout(l),
    ensures
        forall|i: int|
            0 <= i < lay_close(l, d, nonempty).len() ==> is_ws(
                #[trigger] lay_close(l, d, nonempty)[i],
            ),
{
    match l {
        Layout::Compact => {},
        Layout::Pretty(ind) => {
            lemma_repeat_ws(ind, d);
        },
    }
}

/// Skipping whitespace runs through a whitespace block laid into the input.
proof fn lemma_skip_ws_block(s: Seq<u8>, i: int, j: int)
    requires
        0 <= i <= j <= s.len(),
        forall|k: int| i <= k < j ==> is_ws(#[trigger] s[k]),
    ensures
        skip_ws(s, i) == skip_ws(s, j),
    decreases j - i,
{
    if i < j {
        lemma_skip_ws_block(s, i + 1, j);
    }
}

/// Whitespace skipping stops at a non-whitespace byte.
proof fn lemma_skip_ws_stop(s: Seq<u8>, i: int)
    requires
        0 <= i <= s.len(),
        i < s.len() ==> !is_ws(s[i]),
    ensures
        skip_ws(s, i) == i,
        ws_end(s, i) == i,
{
}


/// The shape of a digit string: one byte per digit, digits throughout, and
/// no leading zero unless the value is zero.
pub proof fn lemma_digits_shape(n: nat)
    ensures
        spec_digits(n).len() == ndigits(n),
        forall|i: int| 0 <= i < spec_digits(n).len() ==> is_digit(#[trigger] spec_digits(n)[i]),
        n >= 1 ==> spec_digits(n)[0] != 0x30,
        n >= 1 ==> is_digit(spec_digits(n)[0]) && spec_digits(n)[0] > 0x30,
        n == 0 ==> spec_digits(n) == seq![0x30u8],
    decreases n,
{
    if n < 10 {
        assert(spec_digits(n) == seq![(0x30 + n) as u8]);
        if n == 0 {
            assert(spec_digits(n) =~= seq![0x30u8]);
        }
    } else {
        lemma_digits_shape(n / 10);
        assert(spec_digits(n) == spec_digits(n / 10).push((0x30 + n % 10) as u8));
    }
}

/// Each byte of a digit string holds the matching decimal digit of the
/// value.
proof fn lemma_digits_index(n: nat, k: int)
    requires
        0 <= k < ndigits(n),
    ensures
        spec_digits(n)[k] == 0x30 + (n / pow10((ndigits(n) - 1 - k) as nat)) % 10,
    decreases n,
{
    lemma_digits_shape(n);
    if n < 10 {
        assert(pow10(0) == 1);
        assert(n / 1 == n);
    } else {
        lemma_digits_shape(n / 10);
        assert(spec_digits(n) == spec_digits(n / 10).push((0x30 + n % 10) as u8));
        if k == ndigits(n) - 1 {
            assert(pow10(0) == 1);
            assert(spec_digits(n)[k] == (0x30 + n % 10) as u8);
        } else {
            lemma_digits_index(n / 10, k);
            assert(spec_digits(n)[k] == spec_digits(n / 10)[k]);
            let a = (ndigits(n / 10) - 1 - k) as nat;
            assert(pow10(a + 1) == 10 * pow10(a));
            crate::number::lemma_pow10_le(0, a);
            vstd::arithmetic::div_mod::lemma_div_denominator(n as int, 10, pow10(a) as int);
            assert((n / 10) as nat / pow10(a) == n / (10 * pow10(a)));
            assert(ndigits(n) - 1 - k == a + 1);
        }
    }
}

/// The true-or-false of the sixty-four-bit overflow test: it holds exactly
/// when one more digit no longer fits.
proof fn lemma_overflow_check(acc: u64, dg: u64)
    requires
        dg < 10,
    ensures
        (acc >= u64::MAX / 10 && (acc > u64::MAX / 10 || dg > u64::MAX % 10)) <==> acc * 10 + dg
            > u64::MAX,
{
    assert(u64::MAX == (u64::MAX / 10) * 10 + u64::MAX % 10);
    if acc > u64::MAX / 10 {
        assert(acc * 10 >= (u64::MAX / 10 + 1) * 10 > u64::MAX) by (nonlinear_arith)
            requires
                acc > u64::MAX / 10,
                u64::MAX == (u64::MAX / 10) * 10 + u64::MAX % 10,
                u64::MAX % 10 < 10,
        ;
    } else if acc == u64::MAX / 10 {
    } else {
        assert(acc * 10 + dg <= (u64::MAX / 10 - 1) * 10 + dg <= u64::MAX) by (nonlinear_arith)
            requires
                acc < u64::MAX / 10,
                dg < 10,
                u64::MAX == (u64::MAX / 10) * 10 + u64::MAX % 10,
        ;
    }
}

/// Parsing the digits of `n` that remain after the first `k` accumulates
/// the whole of `n` and stops right after its digit string.
proof fn lemma_parse_int_digits(s: Seq<u8>, i: int, n: u64, k: int, positive: bool)
    requires
        0 <= i,
        1 <= k <= ndigits(n as nat),
        i + ndigits(n as nat) <= s.len(),
        s.subrange(i, i + ndigits(n as nat)) == spec_digits(n as nat),
        i + ndigits(n as nat) == s.len() || !is_digit(s[i + ndigits(n as nat)]),
    ensures
        spec_parse_int_loop(
            s,
            i + k,
            positive,
            (n as nat / pow10((ndigits(n as nat) - k) as nat)) as u64,
        ) == spec_parse_number(s, i + ndigits(n as nat), positive, n),
    decreases ndigits(n as nat) - k,
{
    let l = ndigits(n as nat) as int;
    let ds = spec_digits(n as nat);
    lemma_digits_shape(n as nat);
    crate::number::lemma_pow10_le(0, (l - k) as nat);
    if k == l {
        assert(pow10(0) == 1);
        assert(n as nat / 1 == n as nat);
        assert(spec_parse_int_loop(s, i + k, positive, n) == spec_parse_number(s, i + l, positive, n));
    } else {
        let a = (l - k - 1) as nat;
        let acc = (n as nat / pow10((l - k) as nat)) as u64;
        let next = (n as nat / pow10(a)) as u64;
        assert(n as nat / pow10((l - k) as nat) <= n as nat) by {
            vstd::arithmetic::div_mod::lemma_div_is_ordered_by_denominator(
                n as int,
                1,
                pow10((l - k) as nat) as int,
            );
            assert(n as int / 1 == n as int);
        };
        assert(n as nat / pow10(a) <= n as nat) by {
            crate::number::lemma_pow10_le(0, a);
            vstd::arithmetic::div_mod::lemma_div_is_ordered_by_denominator(
                n as int,
                1,
                pow10(a) as int,
            );
            assert(n as int / 1 == n as int);
        };
        lemma_digits_index(n as nat, k);
        assert(s[i + k] == ds[k]);
        assert(is_digit(s[i + k]));
        let dg = (s[i + k] - 0x30) as u64;
        assert(dg == (n as nat / pow10(a)) % 10);
        assert(pow10(a + 1) == 10 * pow10(a));
        vstd::arithmetic::div_mod::lemma_div_denominator(n as int, pow10(a) as int, 10);
        assert((n as nat / pow10(a)) / 10 == n as nat / (pow10(a) * 10));
        assert(pow10(a) * 10 == 10 * pow10(a));
        assert(acc == (n as nat / pow10(a)) / 10);
        vstd::arithmetic::div_mod::lemma_fundamental_div_mod(n as int / pow10(a) as int, 10);
        assert(next == acc * 10 + dg);
        lemma_overflow_check(acc, dg);
        assert(!(acc >= u64::MAX / 10 && (acc > u64::MAX / 10 || dg > u64::MAX % 10)));
        assert(spec_parse_int_loop(s, i + k, positive, acc) == spec_parse_int_loop(
            s,
            i + k + 1,
            positive,
            next,
        ));
        lemma_parse_int_digits(s, i, n, k + 1, positive);
    }
}

/// Parsing the text of an integer number yields the number, right after
/// its text.
proof fn lemma_parse_number_text(s: Seq<u8>, i: int, nv: NumberV, d: int)
    requires
        0 <= i,
        !(nv is Float),
        nv matches NumberV::NegInt(m) ==> m < 0,
        i + spec_number_text(nv).len() <= s.len(),
        s.subrange(i, i + spec_number_text(nv).len()) == spec_number_text(nv),
        ({
            let e = i + spec_number_text(nv).len();
            e == s.len() || (!is_digit(s[e]) && s[e] != 0x2eu8)
        }),
    ensures
        spec_parse_value(s, i, d) == PResult::POk(SexpV::Number(nv), i + spec_number_text(
            nv,
        ).len()),
{
    match nv {
        NumberV::PosInt(n) => {
            let l = ndigits(n as nat) as int;
            lemma_digits_shape(n as nat);
            assert(spec_number_text(nv) == spec_digits(n as nat));
            assert(s[i] == spec_digits(n as nat)[0]) by {
                assert(s.subrange(i, i + l)[0] == s[i]);
            };
            assert(is_digit(s[i]));
            if n == 0 {
                assert(spec_digits(n as nat)[0] == 0x30);
                assert(s[i] == 0x30);
                assert(l == 1);
                assert(spec_parse_value(s, i, d) == spec_parse_integer(s, i, true));
                assert(spec_parse_integer(s, i, true) == spec_parse_number(s, i + 1, true, 0));
                assert(spec_parse_number(s, i + 1, true, 0) == PResult::POk(
                    SexpV::Number(NumberV::PosInt(0)),
                    i + 1,
                ));
            } else {
                assert(s[i] == spec_digits(n as nat)[0]);
                assert(s[i] != 0x30);
                assert(spec_parse_value(s, i, d) == spec_parse_integer(s, i, true));
                lemma_digits_index(n as nat, 0);
                assert((s[i] - 0x30) as u64 == (n as nat / pow10((l - 1) as nat)) % 10);
                assert(n as nat / pow10((l - 1) as nat) < 10) by {
                    crate::number::lemma_ndigits_bounds(n as nat);
                    assert(pow10(ndigits(n as nat)) == 10 * pow10((l - 1) as nat));
                    crate::number::lemma_pow10_le(0, (l - 1) as nat);
                    vstd::arithmetic::div_mod::lemma_multiply_divide_lt(
                        n as int,
                        pow10((l - 1) as nat) as int,
                        10,
                    );
                };
                assert((s[i] - 0x30) as u64 == n as nat / pow10((l - 1) as nat)) by {
                    vstd::arithmetic::div_mod::lemma_small_mod(
                        (n as nat / pow10((l - 1) as nat)) as nat,
                        10,
                    );
                };
                lemma_parse_int_digits(s, i, n, 1, true);
                assert(spec_parse_integer(s, i, true) == spec_parse_int_loop(
                    s,
                    i + 1,
                    true,
                    (s[i] - 0x30) as u64,
                ));
                assert(spec_parse_number(s, i + l, true, n) == PResult::POk(
                    SexpV::Number(NumberV::PosInt(n)),
                    i + l,
                ));
            }
        },
        NumberV::NegInt(m) => {
            let mag = (-(m as int)) as u64;
            let l = ndigits(mag as nat) as int;
            lemma_digits_shape(mag as nat);
            assert(spec_number_text(nv) == seq![0x2du8] + spec_digits(mag as nat));
            assert(spec_number_text(nv).len() == l + 1);
            assert(s[i] == 0x2d) by {
                assert(s.subrange(i, i + l + 1)[0] == s[i]);
                assert(spec_number_text(nv)[0] == 0x2d);
            };
            assert forall|j: int| 0 <= j < l implies s.subrange(i + 1, i + 1 + l)[j]
                == spec_digits(mag as nat)[j] by {
                assert(s.subrange(i + 1, i + 1 + l)[j] == s[i + 1 + j]);
                assert(s.subrange(i, i + l + 1)[j + 1] == s[i + 1 + j]);
                assert(spec_number_text(nv)[j + 1] == spec_digits(mag as nat)[j]);
            }
            assert(s.subrange(i + 1, i + 1 + l) =~= spec_digits(mag as nat));
            assert(spec_parse_value(s, i, d) == spec_parse_integer(s, i + 1, false));
            assert(mag >= 1);
            assert(s[i + 1] == spec_digits(mag as nat)[0]) by {
                assert(s.subrange(i + 1, i + 1 + l)[0] == s[i + 1]);
            };
            assert(is_digit(s[i + 1]));
            if mag < 10 {
                assert(l == 1);
            }
            assert(s[i + 1] != 0x30);
            lemma_digits_index(mag as nat, 0);
            assert((s[i + 1] - 0x30) as u64 == (mag as nat / pow10((l - 1) as nat)) % 10);
            assert(mag as nat / pow10((l - 1) as nat) < 10) by {
                crate::number::lemma_ndigits_bounds(mag as nat);
                assert(pow10(ndigits(mag as nat)) == 10 * pow10((l - 1) as nat));
                crate::number::lemma_pow10_le(0, (l - 1) as nat);
                vstd::arithmetic::div_mod::lemma_multiply_divide_lt(
                    mag as int,
                    pow10((l - 1) as nat) as int,
                    10,
                );
            };
            assert((s[i + 1] - 0x30) as u64 == mag as nat / pow10((l - 1) as nat)) by {
                vstd::arithmetic::div_mod::lemma_small_mod(
                    (mag as nat / pow10((l - 1) as nat)) as nat,
                    10,
                );
            };
            lemma_parse_int_digits(s, i + 1, mag, 1, false);
            assert(spec_parse_number(s, i + 1 + l, false, mag) == PResult::POk(
                SexpV::Number(NumberV::NegInt((-(mag as int)) as i64)),
                i + 1 + l,
            ));
            assert((-(mag as int)) as i64 == m);
        },
        NumberV::Float(_, _, _) => {},
    }
}


/// The bytes of a well-formed bare name: ASCII, one byte per character,
/// symbol bytes throughout, a letter first.
proof fn lemma_name_bytes(cs: Seq<char>)
    requires
        wf_name(cs),
    ensures
        encode_utf8(cs).len() == cs.len(),
        forall|j: int|
            0 <= j < cs.len() ==> is_symbol_byte(#[trigger] encode_utf8(cs)[j]) && encode_utf8(
                cs,
            )[j] == cs[j] as u8,
        is_letter(encode_utf8(cs)[0]),
        decode_utf8(encode_utf8(cs)) == cs,
        valid_utf8(encode_utf8(cs)),
{
    assert(vstd::utf8::is_ascii_chars(cs)) by {
        assert forall|j| 0 <= j < cs.len() implies '\0' <= #[trigger] cs[j] <= '\u{7f}' by {
            assert(symbol_char(cs[j]));
        }
    };
    vstd::utf8::is_ascii_chars_encode_utf8(cs);
    assert forall|j: int| 0 <= j < cs.len() implies is_symbol_byte(
        #[trigger] encode_utf8(cs)[j],
    ) && encode_utf8(cs)[j] == cs[j] as u8 by {
        assert(symbol_char(cs[j]));
        assert(encode_utf8(cs)[j] == cs[j] as u8);
    }
    assert(letter_char(cs[0]));
    assert(encode_utf8(cs)[0] == cs[0] as u8);
    vstd::utf8::encode_utf8_decode_utf8(cs);
    vstd::utf8::encode_utf8_valid_utf8(cs);
}

/// Name scanning runs through a block of symbol bytes laid into the input.
proof fn lemma_sym_end_block(s: Seq<u8>, i: int, j: int)
    requires
        0 <= i <= j <= s.len(),
        forall|k: int| i <= k < j ==> is_symbol_byte(#[trigger] s[k]),
    ensures
        sym_end(s, i) == sym_end(s, j),
    decreases j - i,
{
    if i < j {
        lemma_sym_end_block(s, i + 1, j);
    }
}

/// Name scanning stops at a byte that is no symbol byte.
proof fn lemma_sym_end_stop(s: Seq<u8>, i: int)
    requires
        0 <= i <= s.len(),
        i < s.len() ==> !is_symbol_byte(s[i]),
    ensures
        sym_end(s, i) == i,
{
}

/// Escape classes invert: the hex digit written for a value reads back as
/// that value.
proof fn lemma_hex_digit_inverts(v: u8)
    requires
        v < 16,
    ensures
        spec_hex_val(crate::text::spec_hex_digit(v)) == v,
{
}

/// Parsing the escaped form of a payload, followed by a closing quote,
/// recovers the payload.
proof fn lemma_parse_escaped(s: Seq<u8>, i: int, bs: Seq<u8>, acc: Seq<u8>)
    requires
        0 <= i,
        i + spec_escaped(bs).len() + 1 <= s.len(),
        s.subrange(i, i + spec_escaped(bs).len() + 1) == spec_escaped(bs) + seq![0x22u8],
    ensures
        spec_parse_string(s, i, acc) == SResult::SOk(acc + bs, i + spec_escaped(bs).len() + 1),
    decreases bs.len(),
{
    let whole = spec_escaped(bs) + seq![0x22u8];
    if bs.len() == 0 {
        assert(spec_escaped(bs).len() == 0);
        assert(s[i] == 0x22) by {
            assert(s.subrange(i, i + 1)[0] == s[i]);
            assert(whole[0] == 0x22);
        };
        assert(spec_parse_string(s, i, acc) == SResult::SOk(acc, i + 1));
        assert(acc + bs =~= acc);
    } else {
        let b = bs.first();
        let e = spec_escape_byte(b);
        let rest = bs.drop_first();
        assert(spec_escaped(bs) == e + spec_escaped(rest));
        let whole_rest = spec_escaped(rest) + seq![0x22u8];
        assert forall|k: int| 0 <= k < e.len() implies s[i + k] == e[k] by {
            assert(s.subrange(i, i + whole.len() as int)[k] == s[i + k]);
            assert(whole[k] == (e + spec_escaped(rest))[k]);
        }
        assert forall|k: int|
            0 <= k < whole_rest.len() implies s.subrange(
            i + e.len() as int,
            i + e.len() + whole_rest.len() as int,
        )[k] == whole_rest[k] by {
            assert(s.subrange(i + e.len() as int, i + e.len() + whole_rest.len() as int)[k] == s[i
                + e.len() + k]);
            assert(s.subrange(i, i + whole.len() as int)[e.len() + k] == s[i + e.len() + k]);
            assert(whole[e.len() + k] == whole_rest[k]);
        }
        assert(s.subrange(i + e.len() as int, i + e.len() + whole_rest.len() as int)
            =~= whole_rest);
        if b == 0x22 {
            assert(e =~= seq![0x5cu8, 0x22u8]);
            lemma_parse_escaped(s, i + 2, rest, acc.push(0x22));
            assert(acc.push(0x22u8) + rest =~= acc + bs);
        } else if b == 0x5c {
            lemma_parse_escaped(s, i + 2, rest, acc.push(0x5c));
            assert(acc.push(0x5cu8) + rest =~= acc + bs);
        } else if b == 0x08 {
            lemma_parse_escaped(s, i + 2, rest, acc.push(0x08));
            assert(acc.push(0x08u8) + rest =~= acc + bs);
        } else if b == 0x09 {
            lemma_parse_escaped(s, i + 2, rest, acc.push(0x09));
            assert(acc.push(0x09u8) + rest =~= acc + bs);
        } else if b == 0x0a {
            lemma_parse_escaped(s, i + 2, rest, acc.push(0x0a));
            assert(acc.push(0x0au8) + rest =~= acc + bs);
        } else if b == 0x0c {
            lemma_parse_escaped(s, i + 2, rest, acc.push(0x0c));
            assert(acc.push(0x0cu8) + rest =~= acc + bs);
        } else if b == 0x0d {
            lemma_parse_escaped(s, i + 2, rest, acc.push(0x0d));
            assert(acc.push(0x0du8) + rest =~= acc + bs);
        } else if b < 0x20 {
            assert(e == seq![
                0x5cu8,
                0x75u8,
                0x30u8,
                0x30u8,
                crate::text::spec_hex_digit(b / 16),
                crate::text::spec_hex_digit(b % 16),
            ]);
            lemma_hex_digit_inverts(b / 16);
            lemma_hex_digit_inverts(b % 16);
            assert(spec_hex_val(s[i + 2]) == 0);
            assert(spec_hex_val(s[i + 3]) == 0);
            assert(spec_hex_val(s[i + 4]) == b / 16);
            assert(spec_hex_val(s[i + 5]) == b % 16);
            assert(b / 16 < 8);
            assert((b / 16) * 16 + b % 16 == b) by {
                vstd::arithmetic::div_mod::lemma_fundamental_div_mod(b as int, 16);
            };
            lemma_parse_escaped(s, i + 6, rest, acc.push(b));
            assert(acc.push(b) + rest =~= acc + bs);
        } else {
            assert(e =~= seq![b]);
            assert(s[i] == b) by {
                assert(s.subrange(i, i + whole.len() as int)[0] == s[i]);
                assert(whole[0] == e[0]);
            };
            assert(s[i] != 0x22 && s[i] != 0x5c);
            lemma_parse_escaped(s, i + 1, rest, acc.push(b));
            assert(acc.push(b) + rest =~= acc + bs);
        }
    }
}

/// A value's text never starts with whitespace, a closing parenthesis, or
/// the pair dot, and never is empty.
proof fn lemma_enc_head(l: Layout, ld: nat, v: SexpV)
    requires
        wf_sexp(v),
    ensures
        spec_encode(l, ld, v).len() >= 1,
        !is_ws(spec_encode(l, ld, v)[0]),
        spec_encode(l, ld, v)[0] != 0x29u8,
        spec_encode(l, ld, v)[0] != 0x2eu8,
{
    match v {
        SexpV::Nil => {},
        SexpV::Boolean(b) => {},
        SexpV::Atom(a) => {
            match a {
                AtomV::Symbol(cs) => {
                    lemma_name_bytes(cs);
                    assert(spec_atom_text(a)[0] == cs[0] as u8);
                },
                AtomV::Keyword(cs) => {
                    assert(spec_atom_text(a)[0] == 0x23);
                },
                AtomV::Text(cs) => {
                    assert(spec_atom_text(a)[0] == 0x22);
                },
            }
        },
        SexpV::Number(nv) => {
            match nv {
                NumberV::PosInt(n) => {
                    lemma_digits_shape(n as nat);
                    assert(spec_number_text(nv)[0] == spec_digits(n as nat)[0]);
                },
                NumberV::NegInt(m) => {
                    assert(spec_number_text(nv)[0] == 0x2d);
                },
                NumberV::Float(neg, sig, exp) => {
                    lemma_digits_shape(sig as nat);
                    if neg {
                        assert(spec_number_text(nv)[0] == 0x2d);
                    } else {
                        let ds = spec_digits(sig as nat);
                        if exp >= 0 {
                            assert(spec_number_text(nv)[0] == ds[0]);
                        } else {
                            let k = -(exp as int);
                            if ds.len() > k {
                                assert(spec_number_text(nv)[0] == ds[0]);
                            } else {
                                assert(spec_number_text(nv)[0] == 0x30);
                            }
                        }
                    }
                },
            }
        },
        SexpV::Improper(hs, t) => {
            assert(spec_encode(l, ld, v)[0] == 0x28);
        },
        SexpV::List(es) => {
            assert(spec_encode(l, ld, v)[0] == 0x28);
        },
    }
}

/// Parsing the text of an atom yields the atom, right after its text.
proof fn lemma_parse_atom_text(s: Seq<u8>, i: int, a: AtomV, d: int)
    requires
        0 <= i,
        wf_atom(a),
        i + spec_atom_text(a).len() <= s.len(),
        s.subrange(i, i + spec_atom_text(a).len()) == spec_atom_text(a),
        ({
            let e = i + spec_atom_text(a).len();
            e == s.len() || is_ws(s[e]) || s[e] == 0x29u8
        }),
    ensures
        spec_parse_value(s, i, d) == PResult::POk(SexpV::Atom(a), i + spec_atom_text(a).len()),
{
    let t = spec_atom_text(a);
    let e = i + t.len();
    match a {
        AtomV::Symbol(cs) => {
            lemma_name_bytes(cs);
            assert forall|k: int| i <= k < e implies is_symbol_byte(#[trigger] s[k]) by {
                assert(s.subrange(i, e)[k - i] == s[k]);
                assert(t[k - i] == encode_utf8(cs)[k - i]);
            }
            assert(s[i] == cs[0] as u8) by {
                assert(s.subrange(i, e)[0] == s[i]);
            };
            assert(is_letter(s[i]));
            lemma_sym_end_block(s, i, e);
            if e < s.len() {
                assert(!is_symbol_byte(s[e]));
            }
            lemma_sym_end_stop(s, e);
            assert(sym_end(s, i) == e);
            lemma_sym_end(s, i);
            assert(s.subrange(i, e) == encode_utf8(cs));
            assert(decode_utf8(s.subrange(i, sym_end(s, i))) == cs);
            assert(!is_digit(s[i]) && s[i] != 0x23 && s[i] != 0x2d && s[i] != 0x22 && s[i]
                != 0x28);
        },
        AtomV::Keyword(cs) => {
            lemma_name_bytes(cs);
            assert(t == seq![0x23u8, 0x3au8] + encode_utf8(cs));
            assert(s[i] == 0x23) by {
                assert(s.subrange(i, e)[0] == s[i]);
            };
            assert(s[i + 1] == 0x3a) by {
                assert(s.subrange(i, e)[1] == s[i + 1]);
            };
            assert forall|k: int| i + 2 <= k < e implies is_symbol_byte(#[trigger] s[k]) by {
                assert(s.subrange(i, e)[k - i] == s[k]);
                assert(t[k - i] == encode_utf8(cs)[k - i - 2]);
            }
            assert(s[i + 2] == cs[0] as u8) by {
                assert(s.subrange(i, e)[2] == s[i + 2]);
            };
            assert(is_letter(s[i + 2]));
            lemma_sym_end_block(s, i + 2, e);
            if e < s.len() {
                assert(!is_symbol_byte(s[e]));
            }
            lemma_sym_end_stop(s, e);
            assert(sym_end(s, i + 2) == e);
            lemma_sym_end(s, i + 2);
            assert forall|k: int| 0 <= k < cs.len() implies s.subrange(i + 2, e)[k]
                == encode_utf8(cs)[k] by {
                assert(s.subrange(i + 2, e)[k] == s[i + 2 + k]);
                assert(s.subrange(i, e)[k + 2] == s[i + 2 + k]);
                assert(t[k + 2] == encode_utf8(cs)[k]);
            }
            assert(s.subrange(i + 2, e) =~= encode_utf8(cs));
            assert(decode_utf8(s.subrange(i + 2, sym_end(s, i + 2))) == cs);
            assert(spec_parse_hash(s, i) == PResult::POk(SexpV::Atom(AtomV::Keyword(cs)), e));
        },
        AtomV::Text(cs) => {
            let bs = encode_utf8(cs);
            assert(t == seq![0x22u8] + spec_escaped(bs) + seq![0x22u8]);
            assert(s[i] == 0x22) by {
                assert(s.subrange(i, e)[0] == s[i]);
            };
            assert forall|k: int|
                0 <= k < spec_escaped(bs).len() + 1 implies s.subrange(i + 1, e)[k]
                == (spec_escaped(bs) + seq![0x22u8])[k] by {
                assert(s.subrange(i + 1, e)[k] == s[i + 1 + k]);
                assert(s.subrange(i, e)[k + 1] == s[i + 1 + k]);
                assert(t[k + 1] == (spec_escaped(bs) + seq![0x22u8])[k]);
            }
            assert(s.subrange(i + 1, e) =~= spec_escaped(bs) + seq![0x22u8]);
            lemma_parse_escaped(s, i + 1, bs, seq![]);
            assert(seq![] + bs =~= bs);
            vstd::utf8::encode_utf8_valid_utf8(cs);
            vstd::utf8::encode_utf8_decode_utf8(cs);
            assert(spec_parse_string(s, i + 1, seq![]) == SResult::SOk(bs, e));
        },
    }
}


/// The byte after an encoded value may close a list, separate elements, or
/// end the input.
pub open spec fn follower_ok(s: Seq<u8>, e: int) -> bool {
    e == s.len() || is_ws(s[e]) || s[e] == 0x29u8
}

/// What stands between a list's head elements and its closing parenthesis
/// when a dotted tail is present: the separator, the dot, and the tail's
/// text.
pub open spec fn tail_text(l: Layout, ld: nat, tail: Option<SexpV>) -> Seq<u8> {
    match tail {
        Option::None => seq![],
        Option::Some(t) => lay_sep(l, ld, false) + seq![0x2eu8, 0x20u8] + spec_encode(l, ld, t),
    }
}

/// What a parsed list denotes: a proper list of its elements, or the fold
/// of a dotted tail into them.
pub open spec fn list_result(elems: Seq<SexpV>, tail: Option<SexpV>) -> SexpV {
    match tail {
        Option::None => SexpV::List(elems),
        Option::Some(t) => spec_merge_tail(elems, t),
    }
}

/// Parsing an encoding of a value yields that value, right after its text.
/// The nesting budget must exceed the value's depth, and the byte after the
/// text must not extend it.
#[verifier::rlimit(100)]
#[verifier::spinoff_prover]
pub proof fn lemma_parse_encoded(l: Layout, ld: nat, v: SexpV, s: Seq<u8>, i: int, d: int)
    requires
        ws_layout(l),
        wf_sexp(v),
        float_free(v),
        0 <= i,
        i + spec_encode(l, ld, v).len() <= s.len(),
        s.subrange(i, i + spec_encode(l, ld, v).len() as int) == spec_encode(l, ld, v),
        follower_ok(s, i + spec_encode(l, ld, v).len()),
        d > sdepth(v),
    ensures
        spec_parse_value(s, i, d) == PResult::POk(v, i + spec_encode(l, ld, v).len()),
    decreases v, 1int, 0int,
{
    let t = spec_encode(l, ld, v);
    let e = i + t.len();
    match v {
        SexpV::Nil => {
            assert(t == seq![0x23u8, 0x6eu8, 0x69u8, 0x6cu8]);
            assert(s[i] == 0x23) by {
                assert(s.subrange(i, e)[0] == s[i]);
            };
            assert(s[i + 1] == 0x6e) by {
                assert(s.subrange(i, e)[1] == s[i + 1]);
            };
            assert(s[i + 2] == 0x69) by {
                assert(s.subrange(i, e)[2] == s[i + 2]);
            };
            assert(s[i + 3] == 0x6c) by {
                assert(s.subrange(i, e)[3] == s[i + 3]);
            };
        },
        SexpV::Boolean(b) => {
            assert(s[i] == 0x23) by {
                assert(s.subrange(i, e)[0] == s[i]);
            };
            if b {
                assert(s[i + 1] == 0x74) by {
                    assert(s.subrange(i, e)[1] == s[i + 1]);
                };
            } else {
                assert(s[i + 1] == 0x66) by {
                    assert(s.subrange(i, e)[1] == s[i + 1]);
                };
            }
        },
        SexpV::Atom(a) => {
            lemma_parse_atom_text(s, i, a, d);
        },
        SexpV::Number(nv) => {
            if e < s.len() {
                assert(!is_digit(s[e]) && s[e] != 0x2eu8);
            }
            lemma_parse_number_text(s, i, nv, d);
        },
        SexpV::List(es) => {
            let ld2 = lay_bump(l, ld);
            let close = lay_close(l, ld, es.len() > 0);
            let inner = spec_encode_elems(l, ld2, es, true) + tail_text(l, ld2, Option::None)
                + close + seq![0x29u8];
            assert(tail_text(l, ld2, Option::None) =~= Seq::<u8>::empty());
            assert(t =~= seq![0x28u8] + inner);
            assert(s[i] == 0x28) by {
                assert(s.subrange(i, e)[0] == s[i]);
            };
            assert forall|k: int| 0 <= k < inner.len() implies s.subrange(i + 1, e)[k] == inner[k]
                by {
                assert(s.subrange(i + 1, e)[k] == s[i + 1 + k]);
                assert(s.subrange(i, e)[k + 1] == s[i + 1 + k]);
                assert(t[k + 1] == inner[k]);
            }
            assert(s.subrange(i + 1, e) =~= inner);
            assert forall|j: int| 0 <= j < es.len() implies wf_sexp(#[trigger] es[j]) && float_free(
                es[j],
            ) && d - 1 > sdepth(es[j]) && decreases_to!(v => es[j]) by {
                lemma_seq_depth_ge(es, j);
                assert(decreases_to!(v => es));
                assert(decreases_to!(es => es[j]));
            }
            lemma_close_ws(l, ld, es.len() > 0);
            lemma_parse_list_enc(l, ld2, s, i + 1, d - 1, v, es, seq![], true, Option::None, close);
            assert(seq![] + es =~= es);
            assert(spec_parse_list(s, i + 1, d - 1, seq![]) == PResult::POk(SexpV::List(es), e));
        },
        SexpV::Improper(hs, tl) => {
            let ld2 = lay_bump(l, ld);
            let close = lay_close(l, ld, true);
            let inner = spec_encode_elems(l, ld2, hs, true) + tail_text(
                l,
                ld2,
                Option::Some(*tl),
            ) + close + seq![0x29u8];
            assert(t =~= seq![0x28u8] + inner);
            assert(s[i] == 0x28) by {
                assert(s.subrange(i, e)[0] == s[i]);
            };
            assert forall|k: int| 0 <= k < inner.len() implies s.subrange(i + 1, e)[k] == inner[k]
                by {
                assert(s.subrange(i + 1, e)[k] == s[i + 1 + k]);
                assert(s.subrange(i, e)[k + 1] == s[i + 1 + k]);
                assert(t[k + 1] == inner[k]);
            }
            assert(s.subrange(i + 1, e) =~= inner);
            assert forall|j: int| 0 <= j < hs.len() implies wf_sexp(#[trigger] hs[j]) && float_free(
                hs[j],
            ) && d - 1 > sdepth(hs[j]) && decreases_to!(v => hs[j]) by {
                lemma_seq_depth_ge(hs, j);
                assert(decreases_to!(v => hs));
                assert(decreases_to!(hs => hs[j]));
            }
            assert(d - 1 > sdepth(*tl)) by {
                assert(sdepth(v) >= 1 + sdepth(*tl));
            };
            assert(decreases_to!(v => *tl));
            lemma_close_ws(l, ld, true);
            lemma_parse_list_enc(
                l,
                ld2,
                s,
                i + 1,
                d - 1,
                v,
                hs,
                seq![],
                true,
                Option::Some(*tl),
                close,
            );
            assert(seq![] + hs =~= hs);
            assert(spec_merge_tail(hs, *tl) == v);
            assert(spec_parse_list(s, i + 1, d - 1, seq![]) == PResult::POk(v, e));
        },
    }
}

/// Parsing the remaining element texts of a list, a dotted tail if one is
/// present, the closing whitespace and the closing parenthesis, with `acc`
/// already read, yields the whole list.
#[verifier::rlimit(100)]
#[verifier::spinoff_prover]
proof fn lemma_parse_list_enc(
    l: Layout,
    ld: nat,
    s: Seq<u8>,
    i: int,
    d: int,
    vwhole: SexpV,
    es: Seq<SexpV>,
    acc: Seq<SexpV>,
    first: bool,
    tail: Option<SexpV>,
    close: Seq<u8>,
)
    requires
        ws_layout(l),
        forall|j: int|
            0 <= j < es.len() ==> wf_sexp(#[trigger] es[j]) && float_free(es[j]) && d > sdepth(
                es[j],
            ) && decreases_to!(vwhole => es[j]),
        tail matches Option::Some(t) ==> wf_sexp(t) && float_free(t) && d > sdepth(t) && !(t
            is Nil) && !(t is List) && !(t is Improper) && decreases_to!(vwhole => t),
        tail is Some ==> acc.len() + es.len() >= 1,
        first <==> acc.len() == 0,
        d >= 1,
        forall|k: int| 0 <= k < close.len() ==> is_ws(#[trigger] close[k]),
        0 <= i,
        i + (spec_encode_elems(l, ld, es, first) + tail_text(l, ld, tail) + close + seq![
            0x29u8,
        ]).len() <= s.len(),
        s.subrange(
            i,
            i + (spec_encode_elems(l, ld, es, first) + tail_text(l, ld, tail) + close + seq![
                0x29u8,
            ]).len() as int,
        ) == spec_encode_elems(l, ld, es, first) + tail_text(l, ld, tail) + close + seq![0x29u8],
    ensures
        spec_parse_list(s, i, d, acc) == PResult::POk(
            list_result(acc + es, tail),
            i + (spec_encode_elems(l, ld, es, first) + tail_text(l, ld, tail) + close + seq![
                0x29u8,
            ]).len(),
        ),
    decreases vwhole, 0int, es.len(),
{
    let text = spec_encode_elems(l, ld, es, first) + tail_text(l, ld, tail) + close + seq![
        0x29u8,
    ];
    let e = i + text.len();
    assert forall|k: int| 0 <= k < text.len() implies s[i + k] == text[k] by {
        assert(s.subrange(i, e)[k] == s[i + k]);
    }
    if es.len() == 0 {
        assert(spec_encode_elems(l, ld, es, first).len() == 0);
        match tail {
            Option::None => {
                assert(text =~= close + seq![0x29u8]);
                assert forall|k: int| i <= k < i + close.len() implies is_ws(#[trigger] s[k]) by {
                    assert(s[k] == text[k - i]);
                    assert(text[k - i] == close[k - i]);
                }
                lemma_skip_ws_block(s, i, i + close.len());
                assert(s[i + close.len()] == 0x29) by {
                    assert(text[close.len() as int] == 0x29);
                };
                lemma_skip_ws_stop(s, i + close.len());
                assert(ws_end(s, i) == i + close.len()) by {
                    lemma_skip_ws(s, i);
                };
                assert(spec_parse_list(s, i, d, acc) == PResult::POk(
                    SexpV::List(acc),
                    i + close.len() + 1,
                ));
                assert(acc + es =~= acc);
            },
            Option::Some(t) => {
                let sep = lay_sep(l, ld, false);
                let enc_t = spec_encode(l, ld, t);
                assert(text =~= sep + seq![0x2eu8, 0x20u8] + enc_t + close + seq![0x29u8]);
                lemma_sep_ws(l, ld, false);
                assert forall|k: int| i <= k < i + sep.len() implies is_ws(#[trigger] s[k]) by {
                    assert(s[k] == text[k - i]);
                    assert(text[k - i] == sep[k - i]);
                }
                let jd = i + sep.len();
                assert(s[jd] == 0x2e) by {
                    assert(text[sep.len() as int] == 0x2e);
                };
                lemma_skip_ws_block(s, i, jd);
                lemma_skip_ws_stop(s, jd);
                assert(ws_end(s, i) == jd) by {
                    lemma_skip_ws(s, i);
                };
                assert(s[jd + 1] == 0x20) by {
                    assert(text[sep.len() as int + 1] == 0x20);
                };
                let it = jd + 2;
                lemma_enc_head(l, ld, t);
                assert(s[it] == enc_t[0]) by {
                    assert(text[sep.len() as int + 2] == enc_t[0]);
                };
                assert(skip_ws(s, jd + 1) == it) by {
                    lemma_skip_ws_block(s, jd + 1, it);
                    lemma_skip_ws_stop(s, it);
                };
                assert(imin(s, ws_end(s, jd + 1)) == it) by {
                    lemma_skip_ws(s, jd + 1);
                };
                assert forall|k: int| 0 <= k < enc_t.len() implies s.subrange(
                    it,
                    it + enc_t.len() as int,
                )[k] == enc_t[k] by {
                    assert(s.subrange(it, it + enc_t.len() as int)[k] == s[it + k]);
                    assert(s[it + k] == text[sep.len() + 2 + k]);
                    assert(text[sep.len() + 2 + k] == enc_t[k]);
                }
                assert(s.subrange(it, it + enc_t.len() as int) =~= enc_t);
                let et = it + enc_t.len();
                assert(follower_ok(s, et)) by {
                    if close.len() > 0 {
                        assert(s[et] == text[et - i]);
                        assert(text[et - i] == close[0]);
                    } else {
                        assert(s[et] == text[et - i]);
                        assert(text[et - i] == 0x29);
                    }
                };
                lemma_parse_encoded(l, ld, t, s, it, d);
                assert forall|k: int| et <= k < et + close.len() implies is_ws(#[trigger] s[k]) by {
                    assert(s[k] == text[k - i]);
                    assert(text[k - i] == close[k - et]);
                }
                lemma_skip_ws_block(s, et, et + close.len());
                assert(s[et + close.len()] == 0x29) by {
                    assert(text[et + close.len() - i] == 0x29);
                };
                lemma_skip_ws_stop(s, et + close.len());
                assert(ws_end(s, et) == et + close.len()) by {
                    lemma_skip_ws(s, et);
                };
                assert(spec_parse_list(s, i, d, acc) == PResult::POk(
                    spec_merge_tail(acc, t),
                    et + close.len() + 1,
                ));
                assert(acc + es =~= acc);
                assert(spec_merge_tail(acc + es, t) == spec_merge_tail(acc, t));
            },
        }
    } else {
        let e0 = es.first();
        let rest = es.drop_first();
        let sep = lay_sep(l, ld, first);
        let enc0 = spec_encode(l, ld, e0);
        let text2 = spec_encode_elems(l, ld, rest, false) + tail_text(l, ld, tail) + close + seq![
            0x29u8,
        ];
        assert(spec_encode_elems(l, ld, es, first) == sep + enc0 + spec_encode_elems(
            l,
            ld,
            rest,
            false,
        ));
        assert(text =~= sep + enc0 + text2);
        lemma_sep_ws(l, ld, first);
        assert forall|k: int| i <= k < i + sep.len() implies is_ws(#[trigger] s[k]) by {
            assert(s[k] == text[k - i]);
            assert(text[k - i] == sep[k - i]);
        }
        lemma_enc_head(l, ld, e0);
        let j = i + sep.len();
        assert(s[j] == enc0[0]) by {
            assert(text[sep.len() as int] == enc0[0]);
        };
        lemma_skip_ws_block(s, i, j);
        lemma_skip_ws_stop(s, j);
        assert(ws_end(s, i) == j) by {
            lemma_skip_ws(s, i);
        };
        assert(s[j] != 0x29);
        assert(s[j] != 0x2e);
        assert(acc.len() >= 1 ==> j > i) by {
            if acc.len() >= 1 {
                assert(!first);
                assert(sep.len() >= 1);
            }
        };
        assert forall|k: int| 0 <= k < enc0.len() implies s.subrange(j, j + enc0.len() as int)[k]
            == enc0[k] by {
            assert(s.subrange(j, j + enc0.len() as int)[k] == s[j + k]);
            assert(s[j + k] == text[sep.len() + k]);
            assert(text[sep.len() + k] == enc0[k]);
        }
        assert(s.subrange(j, j + enc0.len() as int) =~= enc0);
        let k_end = j + enc0.len();
        assert(follower_ok(s, k_end)) by {
            assert(s[k_end] == text[k_end - i]);
            assert(text[k_end - i] == text2[0]);
            if rest.len() > 0 {
                lemma_sep_ws(l, ld, false);
                assert(spec_encode_elems(l, ld, rest, false) == lay_sep(l, ld, false)
                    + spec_encode(l, ld, rest.first()) + spec_encode_elems(
                    l,
                    ld,
                    rest.drop_first(),
                    false,
                ));
                assert(text2[0] == lay_sep(l, ld, false)[0]);
                assert(is_ws(text2[0])) by {
                    match l {
                        Layout::Compact => {},
                        Layout::Pretty(ind) => {
                            assert(lay_sep(l, ld, false)[0] == 0x0a);
                        },
                    }
                };
            } else {
                match tail {
                    Option::Some(t2) => {
                        lemma_sep_ws(l, ld, false);
                        assert(text2[0] == lay_sep(l, ld, false)[0]);
                        assert(is_ws(text2[0])) by {
                            match l {
                                Layout::Compact => {},
                                Layout::Pretty(ind) => {
                                    assert(lay_sep(l, ld, false)[0] == 0x0a);
                                },
                            }
                        };
                    },
                    Option::None => {
                        if close.len() > 0 {
                            assert(text2[0] == close[0]);
                        } else {
                            assert(text2[0] == 0x29);
                        }
                    },
                }
            }
        };
        assert(wf_sexp(e0) && float_free(e0) && d > sdepth(e0) && decreases_to!(vwhole => e0));
        lemma_parse_encoded(l, ld, e0, s, j, d);
        assert(spec_parse_value(s, j, d) == PResult::POk(e0, k_end));
        assert(imin(
            s,
            if k_end < j + 1 {
                j + 1
            } else {
                k_end
            },
        ) == k_end);
        assert forall|k: int| 0 <= k < text2.len() implies s.subrange(k_end, e)[k] == text2[k] by {
            assert(s.subrange(k_end, e)[k] == s[k_end + k]);
            assert(s[k_end + k] == text[sep.len() + enc0.len() + k]);
            assert(text[sep.len() + enc0.len() + k] == text2[k]);
        }
        assert(s.subrange(k_end, e) =~= text2);
        assert forall|j2: int|
            0 <= j2 < rest.len() implies wf_sexp(#[trigger] rest[j2]) && float_free(rest[j2]) && d
            > sdepth(rest[j2]) && decreases_to!(vwhole => rest[j2]) by {
            assert(rest[j2] == es[j2 + 1]);
        }
        lemma_parse_list_enc(l, ld, s, k_end, d, vwhole, rest, acc.push(e0), false, tail, close);
        assert(acc.push(e0) + rest =~= acc + es);
        assert(list_result(acc.push(e0) + rest, tail) == list_result(acc + es, tail));
        assert(spec_parse_list(s, i, d, acc) == spec_parse_list(s, k_end, d, acc.push(e0)));
    }
}


/// Round trip: decoding the compact encoding of any well-formed,
/// float-free value whose nesting stays below the recursion limit yields
/// that value again.
pub proof fn lemma_decode_encode(v: SexpV)
    requires
        wf_sexp(v),
        float_free(v),
        sdepth(v) < 128,
    ensures
        spec_decode(spec_encode(Layout::Compact, 0, v)) matches PResult::POk(w, _) && w == v,
{
    lemma_decode_encode_layout(v, Layout::Compact);
}

/// Round trip through the indented layout: decoding the pretty encoding of
/// any well-formed, float-free value whose nesting stays below the
/// recursion limit yields that value again, for any whitespace indent
/// unit.
pub proof fn lemma_decode_encode_pretty(v: SexpV, ind: Seq<u8>)
    requires
        wf_sexp(v),
        float_free(v),
        sdepth(v) < 128,
        forall|i: int| 0 <= i < ind.len() ==> is_ws(#[trigger] ind[i]),
    ensures
        spec_decode(spec_encode(Layout::Pretty(ind), 0, v)) matches PResult::POk(w, _) && w == v,
{
    lemma_decode_encode_layout(v, Layout::Pretty(ind));
}

/// Both layouts decode back to the same value: what the pretty text and
/// the compact text of a value denote is the value itself.
pub proof fn lemma_pretty_compact_agree(v: SexpV, ind: Seq<u8>)
    requires
        wf_sexp(v),
        float_free(v),
        sdepth(v) < 128,
        forall|i: int| 0 <= i < ind.len() ==> is_ws(#[trigger] ind[i]),
    ensures
        spec_decode(spec_encode(Layout::Pretty(ind), 0, v)) matches PResult::POk(w, _) && w == v,
        spec_decode(spec_encode(Layout::Compact, 0, v)) matches PResult::POk(w, _) && w == v,
{
    lemma_decode_encode(v);
    lemma_decode_encode_pretty(v, ind);
}

/// Idempotence of the compact encoding: encoding what the compact text
/// decodes to gives the compact text again.
pub proof fn lemma_encode_decode_encode(v: SexpV)
    requires
        wf_sexp(v),
        float_free(v),
        sdepth(v) < 128,
    ensures
        ({
            let t = spec_encode(Layout::Compact, 0, v);
            spec_decode(t) matches PResult::POk(w, _) && spec_encode(Layout::Compact, 0, w) == t
        }),
{
    lemma_decode_encode(v);
}

/// The shared round-trip argument, for any layout whose extra whitespace
/// is whitespace.
proof fn lemma_decode_encode_layout(v: SexpV, l: Layout)
    requires
        wf_sexp(v),
        float_free(v),
        sdepth(v) < 128,
        ws_layout(l),
    ensures
        spec_decode(spec_encode(l, 0, v)) matches PResult::POk(w, _) && w == v,
{
    let s = spec_encode(l, 0, v);
    lemma_enc_head(l, 0, v);
    assert(s.subrange(0, s.len() as int) =~= s);
    assert(follower_ok(s, s.len() as int));
    lemma_skip_ws_stop(s, 0);
    assert(ws_end(s, 0) == 0);
    lemma_parse_encoded(l, 0, v, s, 0, 128);
    assert(spec_parse_value(s, 0, 128) == PResult::POk(v, s.len() as int));
    lemma_skip_ws_stop(s, s.len() as int);
    assert(ws_end(s, s.len() as int) == s.len());
}



/// Where string-contents parsing can end up: between the cursor and the
/// end of the input.
#[verifier::rlimit(100)]
#[verifier::spinoff_prover]
proof fn lemma_parse_string_bounds(s: Seq<u8>, i: int, acc: Seq<u8>)
    requires
        0 <= i <= s.len(),
    ensures
        spec_parse_string(s, i, acc) matches SResult::SOk(_, k) ==> i <= k <= s.len(),
        spec_parse_string(s, i, acc) matches SResult::SErr(_, a) ==> 0 <= a <= s.len(),
    decreases s.len() - i,
{
    if 0 <= i < s.len() {
        if s[i] == 0x22 {
        } else if s[i] == 0x5c {
            if i + 1 < s.len() {
                let c = s[i + 1];
                if c == 0x22 || c == 0x5c || c == 0x2f || c == 0x62 || c == 0x66 || c == 0x6e || c
                    == 0x72 || c == 0x74 {
                    lemma_parse_string_bounds(s, i + 2, acc.push(spec_unescape(c)));
                } else if c == 0x75 {
                    if i + 6 <= s.len() {
                        if spec_hex_val(s[i + 2]) != 16 && spec_hex_val(s[i + 3]) != 16
                            && spec_hex_val(s[i + 4]) != 16 && spec_hex_val(s[i + 5]) != 16 && !(
                        spec_hex_val(s[i + 2]) > 0 || spec_hex_val(s[i + 3]) > 0 || spec_hex_val(
                            s[i + 4],
                        ) >= 8) {
                            lemma_parse_string_bounds(
                                s,
                                i + 6,
                                acc.push(
                                    (spec_hex_val(s[i + 4]) * 16 + spec_hex_val(s[i + 5])) as u8,
                                ),
                            );
                        }
                    }
                }
            }
        } else {
            lemma_parse_string_bounds(s, i + 1, acc.push(s[i]));
        }
    }
}

/// Where the fractional digit loop can end up.
proof fn lemma_parse_dec_loop_bounds(s: Seq<u8>, i: int, pos: bool, sig: u64, exp: int)
    requires
        0 <= i <= s.len(),
    ensures
        spec_parse_dec_loop(s, i, pos, sig, exp) matches PResult::POk(_, k) ==> i <= k <= s.len(),
        spec_parse_dec_loop(s, i, pos, sig, exp) matches PResult::PErr(_, a) ==> 0 <= a <= s.len(),
    decreases s.len() - i,
{
    if 0 <= i < s.len() && is_digit(s[i]) {
        let dg = (s[i] - 0x30) as u64;
        if sig >= u64::MAX / 10 && (sig > u64::MAX / 10 || dg > u64::MAX % 10) {
            lemma_digits_end(s, i);
        } else {
            lemma_parse_dec_loop_bounds(
                s,
                i + 1,
                pos,
                (sig * 10 + dg) as u64,
                if exp > -EXP_CAP {
                    exp - 1
                } else {
                    exp
                },
            );
        }
    }
}

/// Where a number literal's parse can end up.
#[verifier::rlimit(100)]
#[verifier::spinoff_prover]
proof fn lemma_parse_number_family_bounds(s: Seq<u8>, i: int, pos: bool, sig: u64, exp: int)
    requires
        0 <= i <= s.len(),
    ensures
        spec_parse_number(s, i, pos, sig) matches PResult::POk(_, k) ==> i <= k <= s.len(),
        spec_parse_number(s, i, pos, sig) matches PResult::PErr(_, a) ==> 0 <= a <= s.len(),
        spec_parse_long(s, i, pos, sig, exp) matches PResult::POk(_, k) ==> i <= k <= s.len(),
        spec_parse_long(s, i, pos, sig, exp) matches PResult::PErr(_, a) ==> 0 <= a <= s.len(),
        spec_parse_int_loop(s, i, pos, sig) matches PResult::POk(_, k) ==> i <= k <= s.len(),
        spec_parse_int_loop(s, i, pos, sig) matches PResult::PErr(_, a) ==> 0 <= a <= s.len(),
    decreases s.len() - i,
{
    if 0 <= i < s.len() && s[i] == 0x2e {
        if i + 1 < s.len() && is_digit(s[i + 1]) {
            lemma_parse_dec_loop_bounds(s, i + 1, pos, sig, 0);
        }
    }
    if 0 <= i < s.len() && is_digit(s[i]) {
        let dg = (s[i] - 0x30) as u64;
        lemma_parse_number_family_bounds(
            s,
            i + 1,
            pos,
            (sig * 10 + dg) as u64,
            if exp < EXP_CAP {
                exp + 1
            } else {
                exp
            },
        );
        lemma_parse_number_family_bounds(s, i + 1, pos, sig, 1);
        lemma_parse_number_family_bounds(
            s,
            i + 1,
            pos,
            sig,
            if exp < EXP_CAP {
                exp + 1
            } else {
                exp
            },
        );
    }
    if 0 <= i < s.len() && s[i] == 0x2e {
        if i + 1 < s.len() && is_digit(s[i + 1]) {
            lemma_parse_dec_loop_bounds(s, i + 1, pos, sig, exp);
        }
    }
}

/// Where one value's parse can end up: between the cursor and the end of
/// the input.
#[verifier::rlimit(100)]
#[verifier::spinoff_prover]
pub proof fn lemma_parse_value_bounds(s: Seq<u8>, i: int, depth: int)
    requires
        0 <= i <= s.len(),
    ensures
        spec_parse_value(s, i, depth) matches PResult::POk(_, k) ==> i <= k <= s.len(),
        spec_parse_value(s, i, depth) matches PResult::PErr(_, a) ==> 0 <= a <= s.len(),
    decreases s.len() - i, 0int,
{
    if 0 <= i < s.len() {
        let c = s[i];
        if c == 0x23 {
            if i + 1 < s.len() && s[i + 1] == 0x3a && i + 2 < s.len() && is_letter(s[i + 2]) {
                lemma_sym_end(s, i + 2);
            }
        } else if c == 0x2d {
            lemma_parse_integer_bounds(s, i + 1, false);
        } else if is_digit(c) {
            lemma_parse_integer_bounds(s, i, true);
        } else if c == 0x22 {
            lemma_parse_string_bounds(s, i + 1, seq![]);
        } else if c == 0x28 {
            if depth - 1 > 0 {
                lemma_parse_list_bounds(s, i + 1, depth - 1, seq![]);
            }
        } else if is_letter(c) {
            lemma_sym_end(s, i);
        }
    }
}

/// Where a whole number's parse can end up.
proof fn lemma_parse_integer_bounds(s: Seq<u8>, i: int, pos: bool)
    requires
        0 <= i <= s.len(),
    ensures
        spec_parse_integer(s, i, pos) matches PResult::POk(_, k) ==> i <= k <= s.len(),
        spec_parse_integer(s, i, pos) matches PResult::PErr(_, a) ==> 0 <= a <= s.len(),
{
    if 0 <= i < s.len() {
        if s[i] == 0x30 {
            if !(i + 1 < s.len() && is_digit(s[i + 1])) {
                lemma_parse_number_family_bounds(s, i + 1, pos, 0, 0);
            }
        } else if is_digit(s[i]) {
            lemma_parse_number_family_bounds(s, i + 1, pos, (s[i] - 0x30) as u64, 0);
            lemma_parse_number_family_bounds(s, i + 1, pos, (s[i] - 0x30) as u64, 1);
        }
    }
}

/// Where a list's parse can end up.
#[verifier::rlimit(100)]
#[verifier::spinoff_prover]
proof fn lemma_parse_list_bounds(s: Seq<u8>, i: int, depth: int, acc: Seq<SexpV>)
    requires
        0 <= i <= s.len(),
    ensures
        spec_parse_list(s, i, depth, acc) matches PResult::POk(_, k) ==> i <= k <= s.len(),
        spec_parse_list(s, i, depth, acc) matches PResult::PErr(_, a) ==> 0 <= a <= s.len(),
    decreases s.len() - i, 1int,
{
    lemma_skip_ws(s, i);
    let j = ws_end(s, i);
    if j < s.len() {
        if s[j] == 0x29 {
        } else if s[j] == 0x2e && acc.len() >= 1 {
            lemma_skip_ws(s, j + 1);
            let k0 = imin(s, ws_end(s, j + 1));
            lemma_parse_value_bounds(s, k0, depth);
            match spec_parse_value(s, k0, depth) {
                PResult::POk(_, k) => {
                    lemma_skip_ws(s, k);
                },
                PResult::PErr(_, _) => {},
            }
        } else if acc.len() >= 1 && j == i {
        } else {
            lemma_parse_value_bounds(s, j, depth);
            match spec_parse_value(s, j, depth) {
                PResult::POk(v, k) => {
                    let kc = imin(
                        s,
                        if k < j + 1 {
                            j + 1
                        } else {
                            k
                        },
                    );
                    lemma_parse_list_bounds(s, kc, depth, acc.push(v));
                },
                PResult::PErr(_, _) => {},
            }
        }
    }
}


/// An all-ASCII byte string encodes exactly an all-ASCII character string,
/// character for byte.
proof fn lemma_ascii_encode_inverse(cs: Seq<char>, bs: Seq<u8>)
    requires
        encode_utf8(cs) == bs,
        forall|j: int| 0 <= j < bs.len() ==> bs[j] < 0x80,
    ensures
        cs.len() == bs.len(),
        forall|j: int| 0 <= j < bs.len() ==> cs[j] == bs[j] as char,
    decreases cs.len(),
{
    if cs.len() == 0 {
        assert(bs.len() == 0);
    } else {
        let c = cs[0] as u32;
        vstd::utf8::char_is_scalar(cs[0]);
        assert(encode_utf8(cs) == vstd::utf8::encode_scalar(c) + encode_utf8(cs.drop_first()));
        if !vstd::utf8::has_width_1_encoding(c) {
            let b0 = encode_utf8(cs)[0];
            assert(b0 == vstd::utf8::encode_scalar(c)[0]);
            if vstd::utf8::has_width_2_encoding(c) {
                let x = ((c >> 6) & 0x1F) as u8;
                assert((0xC0u8 | x) >= 0x80) by (bit_vector);
                assert(b0 == (0xC0u8 | x));
            } else if vstd::utf8::has_width_3_encoding(c) {
                let x = ((c >> 12) & 0x0F) as u8;
                assert((0xE0u8 | x) >= 0x80) by (bit_vector);
                assert(b0 == (0xE0u8 | x));
            } else {
                let x = ((c >> 18) & 0x7) as u8;
                assert((0xF0u8 | x) >= 0x80) by (bit_vector);
                assert(b0 == (0xF0u8 | x));
            }
            assert(b0 < 0x80);
            assert(false);
        }
        assert(vstd::utf8::encode_scalar(c) == seq![((c & 0x7F) as u8)]);
        assert(c < 0x80 ==> ((c & 0x7F) as u32) == c) by (bit_vector);
        assert(bs[0] == (c & 0x7F) as u8);
        assert(cs[0] == bs[0] as char) by {
            vstd::utf8::char_u32_cast(cs[0], c);
        };
        assert(encode_utf8(cs.drop_first()) =~= bs.drop_first());
        lemma_ascii_encode_inverse(cs.drop_first(), bs.drop_first());
        assert forall|j: int| 0 <= j < bs.len() implies cs[j] == bs[j] as char by {
            if j > 0 {
                assert(cs.drop_first()[j - 1] == bs.drop_first()[j - 1] as char);
            }
        }
    }
}

/// Decoding an all-ASCII byte string yields its bytes as characters.
proof fn lemma_ascii_decode(bs: Seq<u8>)
    requires
        forall|j: int| 0 <= j < bs.len() ==> bs[j] < 0x80,
    ensures
        decode_utf8(bs).len() == bs.len(),
        forall|j: int| 0 <= j < bs.len() ==> decode_utf8(bs)[j] == bs[j] as char,
{
    crate::de::lemma_ascii_valid_utf8(bs);
    vstd::utf8::decode_utf8_encode_utf8(bs);
    lemma_ascii_encode_inverse(decode_utf8(bs), bs);
}

/// A byte below 0x80 is a symbol byte or a letter exactly when the
/// character it stands for is.
proof fn lemma_symbol_byte_char(b: u8)
    requires
        b < 0x80,
    ensures
        is_symbol_byte(b) == symbol_char(b as char),
        is_letter(b) == letter_char(b as char),
{
    vstd::utf8::char_u32_cast(b as char, b as u32);
}

/// A parse outcome, with its indexes moved right by `delta`.
pub open spec fn shift_p(r: PResult, delta: int) -> PResult {
    match r {
        PResult::POk(v, k) => PResult::POk(v, k + delta),
        PResult::PErr(c, a) => PResult::PErr(c, a + delta),
    }
}

/// A string-parse outcome, with its indexes moved right by `delta`.
pub open spec fn shift_s(r: SResult, delta: int) -> SResult {
    match r {
        SResult::SOk(bs, k) => SResult::SOk(bs, k + delta),
        SResult::SErr(c, a) => SResult::SErr(c, a + delta),
    }
}

/// Whitespace skipping ignores what stands before the cursor.
proof fn lemma_skip_ws_shift(s: Seq<u8>, d: int, i: int)
    requires
        0 <= d <= i,
        d <= s.len(),
    ensures
        skip_ws(s, i) == skip_ws(s.skip(d), i - d) + d,
    decreases s.len() - i + 1,
{
    if 0 <= i < s.len() && is_ws(s[i]) {
        assert(s.skip(d)[i - d] == s[i]);
        lemma_skip_ws_shift(s, d, i + 1);
    } else {
        if 0 <= i - d < s.skip(d).len() {
            assert(s.skip(d)[i - d] == s[i]);
        }
    }
}

/// Name scanning ignores what stands before the cursor.
proof fn lemma_sym_end_shift(s: Seq<u8>, d: int, i: int)
    requires
        0 <= d <= i,
        d <= s.len(),
    ensures
        sym_end(s, i) == sym_end(s.skip(d), i - d) + d,
    decreases s.len() - i + 1,
{
    if 0 <= i < s.len() && is_symbol_byte(s[i]) {
        assert(s.skip(d)[i - d] == s[i]);
        lemma_sym_end_shift(s, d, i + 1);
    } else {
        if 0 <= i - d < s.skip(d).len() {
            assert(s.skip(d)[i - d] == s[i]);
        }
    }
}

/// Digit scanning ignores what stands before the cursor.
proof fn lemma_digits_end_shift(s: Seq<u8>, d: int, i: int)
    requires
        0 <= d <= i,
        d <= s.len(),
    ensures
        digits_end(s, i) == digits_end(s.skip(d), i - d) + d,
    decreases s.len() - i + 1,
{
    if 0 <= i < s.len() && is_digit(s[i]) {
        assert(s.skip(d)[i - d] == s[i]);
        lemma_digits_end_shift(s, d, i + 1);
    } else {
        if 0 <= i - d < s.skip(d).len() {
            assert(s.skip(d)[i - d] == s[i]);
        }
    }
}

/// String contents parsing ignores what stands before the cursor.
#[verifier::rlimit(100)]
#[verifier::spinoff_prover]
proof fn lemma_parse_string_shift(s: Seq<u8>, d: int, i: int, acc: Seq<u8>)
    requires
        0 <= d <= i <= s.len(),
    ensures
        spec_parse_string(s, i, acc) == shift_s(spec_parse_string(s.skip(d), i - d, acc), d),
    decreases s.len() - i,
{
    let sfx = s.skip(d);
    if 0 <= i < s.len() {
        assert(sfx[i - d] == s[i]);
        if s[i] == 0x22 {
        } else if s[i] == 0x5c {
            if i + 1 < s.len() {
                assert(sfx[i + 1 - d] == s[i + 1]);
                let c = s[i + 1];
                if c == 0x22 || c == 0x5c || c == 0x2f || c == 0x62 || c == 0x66 || c == 0x6e || c
                    == 0x72 || c == 0x74 {
                    lemma_parse_string_shift(s, d, i + 2, acc.push(spec_unescape(c)));
                    assert(spec_parse_string(s, i, acc) == spec_parse_string(
                        s,
                        i + 2,
                        acc.push(spec_unescape(c)),
                    ));
                    assert(spec_parse_string(sfx, i - d, acc) == spec_parse_string(
                        sfx,
                        i + 2 - d,
                        acc.push(spec_unescape(c)),
                    ));
                } else if c == 0x75 {
                    if i + 6 <= s.len() {
                        assert(sfx[i + 2 - d] == s[i + 2]);
                        assert(sfx[i + 3 - d] == s[i + 3]);
                        assert(sfx[i + 4 - d] == s[i + 4]);
                        assert(sfx[i + 5 - d] == s[i + 5]);
                        if spec_hex_val(s[i + 2]) != 16 && spec_hex_val(s[i + 3]) != 16
                            && spec_hex_val(s[i + 4]) != 16 && spec_hex_val(s[i + 5]) != 16 && !(
                        spec_hex_val(s[i + 2]) > 0 || spec_hex_val(s[i + 3]) > 0 || spec_hex_val(
                            s[i + 4],
                        ) >= 8) {
                            lemma_parse_string_shift(
                                s,
                                d,
                                i + 6,
                                acc.push(
                                    (spec_hex_val(s[i + 4]) * 16 + spec_hex_val(s[i + 5])) as u8,
                                ),
                            );
                        }
                    }
                }
            }
        } else {
            lemma_parse_string_shift(s, d, i + 1, acc.push(s[i]));
        }
    }
}

/// The byte a two-character escape stands for.
pub open spec fn spec_unescape(c: u8) -> u8 {
    if c == 0x22 {
        0x22u8
    } else if c == 0x5c {
        0x5cu8
    } else if c == 0x2f {
        0x2fu8
    } else if c == 0x62 {
        0x08u8
    } else if c == 0x66 {
        0x0cu8
    } else if c == 0x6e {
        0x0au8
    } else if c == 0x72 {
        0x0du8
    } else {
        0x09u8
    }
}

/// The fractional digit loop ignores what stands before the cursor.
proof fn lemma_parse_dec_loop_shift(s: Seq<u8>, d: int, i: int, pos: bool, sig: u64, exp: int)
    requires
        0 <= d <= i <= s.len(),
    ensures
        spec_parse_dec_loop(s, i, pos, sig, exp) == shift_p(
            spec_parse_dec_loop(s.skip(d), i - d, pos, sig, exp),
            d,
        ),
    decreases s.len() - i,
{
    let sfx = s.skip(d);
    if 0 <= i < s.len() {
        assert(sfx[i - d] == s[i]);
        if is_digit(s[i]) {
            let dg = (s[i] - 0x30) as u64;
            if sig >= u64::MAX / 10 && (sig > u64::MAX / 10 || dg > u64::MAX % 10) {
                lemma_digits_end_shift(s, d, i);
            } else {
                lemma_parse_dec_loop_shift(
                    s,
                    d,
                    i + 1,
                    pos,
                    (sig * 10 + dg) as u64,
                    if exp > -EXP_CAP {
                        exp - 1
                    } else {
                        exp
                    },
                );
            }
        }
    }
}

/// The fractional part ignores what stands before the cursor.
proof fn lemma_parse_decimal_shift(s: Seq<u8>, d: int, i: int, pos: bool, sig: u64, exp: int)
    requires
        0 <= d <= i <= s.len(),
    ensures
        spec_parse_decimal(s, i, pos, sig, exp) == shift_p(
            spec_parse_decimal(s.skip(d), i - d, pos, sig, exp),
            d,
        ),
{
    let sfx = s.skip(d);
    if 0 <= i < s.len() {
        assert(sfx[i - d] == s[i]);
        if is_digit(s[i]) {
            lemma_parse_dec_loop_shift(s, d, i, pos, sig, exp);
        }
    }
}

/// The long integer path ignores what stands before the cursor.
proof fn lemma_parse_long_shift(s: Seq<u8>, d: int, i: int, pos: bool, sig: u64, exp: int)
    requires
        0 <= d <= i <= s.len(),
    ensures
        spec_parse_long(s, i, pos, sig, exp) == shift_p(
            spec_parse_long(s.skip(d), i - d, pos, sig, exp),
            d,
        ),
    decreases s.len() - i,
{
    let sfx = s.skip(d);
    if 0 <= i < s.len() {
        assert(sfx[i - d] == s[i]);
        if is_digit(s[i]) {
            lemma_parse_long_shift(
                s,
                d,
                i + 1,
                pos,
                sig,
                if exp < EXP_CAP {
                    exp + 1
                } else {
                    exp
                },
            );
        } else if s[i] == 0x2e {
            lemma_parse_decimal_shift(s, d, i + 1, pos, sig, exp);
        }
    }
}

/// A finished integer part ignores what stands before the cursor.
proof fn lemma_parse_number_shift(s: Seq<u8>, d: int, i: int, pos: bool, sig: u64)
    requires
        0 <= d <= i <= s.len(),
    ensures
        spec_parse_number(s, i, pos, sig) == shift_p(
            spec_parse_number(s.skip(d), i - d, pos, sig),
            d,
        ),
{
    let sfx = s.skip(d);
    if 0 <= i < s.len() {
        assert(sfx[i - d] == s[i]);
    }
    if 0 <= i < s.len() && s[i] == 0x2e {
        lemma_parse_decimal_shift(s, d, i + 1, pos, sig, 0);
    }
}

/// The integer digit loop ignores what stands before the cursor.
proof fn lemma_parse_int_loop_shift(s: Seq<u8>, d: int, i: int, pos: bool, sig: u64)
    requires
        0 <= d <= i <= s.len(),
    ensures
        spec_parse_int_loop(s, i, pos, sig) == shift_p(
            spec_parse_int_loop(s.skip(d), i - d, pos, sig),
            d,
        ),
    decreases s.len() - i,
{
    let sfx = s.skip(d);
    if 0 <= i < s.len() {
        assert(sfx[i - d] == s[i]);
        if is_digit(s[i]) {
            let dg = (s[i] - 0x30) as u64;
            if sig >= u64::MAX / 10 && (sig > u64::MAX / 10 || dg > u64::MAX % 10) {
                lemma_parse_long_shift(s, d, i + 1, pos, sig, 1);
            } else {
                lemma_parse_int_loop_shift(s, d, i + 1, pos, (sig * 10 + dg) as u64);
            }
        } else {
            lemma_parse_number_shift(s, d, i, pos, sig);
        }
    } else {
        lemma_parse_number_shift(s, d, i, pos, sig);
    }
}

/// A number literal ignores what stands before the cursor.
proof fn lemma_parse_integer_shift(s: Seq<u8>, d: int, i: int, pos: bool)
    requires
        0 <= d <= i <= s.len(),
    ensures
        spec_parse_integer(s, i, pos) == shift_p(spec_parse_integer(s.skip(d), i - d, pos), d),
{
    let sfx = s.skip(d);
    if 0 <= i < s.len() {
        assert(sfx[i - d] == s[i]);
        if s[i] == 0x30 {
            if i + 1 < s.len() {
                assert(sfx[i + 1 - d] == s[i + 1]);
            }
            if !(i + 1 < s.len() && is_digit(s[i + 1])) {
                lemma_parse_number_shift(s, d, i + 1, pos, 0);
            }
        } else if is_digit(s[i]) {
            lemma_parse_int_loop_shift(s, d, i + 1, pos, (s[i] - 0x30) as u64);
        }
    }
}

/// A `#` literal ignores what stands before the cursor.
proof fn lemma_parse_hash_shift(s: Seq<u8>, d: int, i: int)
    requires
        0 <= d <= i <= s.len(),
    ensures
        spec_parse_hash(s, i) == shift_p(spec_parse_hash(s.skip(d), i - d), d),
{
    let sfx = s.skip(d);
    if i + 1 < s.len() {
        assert(sfx[i + 1 - d] == s[i + 1]);
        if i + 2 < s.len() {
            assert(sfx[i + 2 - d] == s[i + 2]);
        }
        if i + 3 < s.len() {
            assert(sfx[i + 3 - d] == s[i + 3]);
        }
        if s[i + 1] == 0x3a && i + 2 < s.len() && is_letter(s[i + 2]) {
            lemma_sym_end_shift(s, d, i + 2);
            let k = sym_end(s, i + 2);
            lemma_sym_end(s, i + 2);
            lemma_sym_end((sfx), i + 2 - d);
            assert(s.subrange(i + 2, k) =~= sfx.subrange(i + 2 - d, k - d));
        }
    }
}

/// One value's parse ignores what stands before the cursor.
#[verifier::rlimit(100)]
#[verifier::spinoff_prover]
pub proof fn lemma_parse_value_shift(s: Seq<u8>, d: int, i: int, depth: int)
    requires
        0 <= d <= i <= s.len(),
    ensures
        spec_parse_value(s, i, depth) == shift_p(
            spec_parse_value(s.skip(d), i - d, depth),
            d,
        ),
    decreases s.len() - i, 0int,
{
    let sfx = s.skip(d);
    if 0 <= i < s.len() {
        assert(sfx[i - d] == s[i]);
        let c = s[i];
        if c == 0x23 {
            lemma_parse_hash_shift(s, d, i);
        } else if c == 0x2d {
            lemma_parse_integer_shift(s, d, i + 1, false);
        } else if is_digit(c) {
            lemma_parse_integer_shift(s, d, i, true);
        } else if c == 0x22 {
            lemma_parse_string_shift(s, d, i + 1, seq![]);
        } else if c == 0x28 {
            if depth - 1 > 0 {
                lemma_parse_list_shift(s, d, i + 1, depth - 1, seq![]);
            }
        } else if is_letter(c) {
            lemma_sym_end_shift(s, d, i);
            let k = sym_end(s, i);
            lemma_sym_end(s, i);
            lemma_sym_end(sfx, i - d);
            assert(s.subrange(i, k) =~= sfx.subrange(i - d, k - d));
        }
    }
}

/// A list's parse ignores what stands before the cursor.
#[verifier::rlimit(100)]
#[verifier::spinoff_prover]
proof fn lemma_parse_list_shift(s: Seq<u8>, d: int, i: int, depth: int, acc: Seq<SexpV>)
    requires
        0 <= d <= i <= s.len(),
    ensures
        spec_parse_list(s, i, depth, acc) == shift_p(
            spec_parse_list(s.skip(d), i - d, depth, acc),
            d,
        ),
    decreases s.len() - i, 1int,
{
    let sfx = s.skip(d);
    lemma_skip_ws_shift(s, d, i);
    lemma_skip_ws(s, i);
    lemma_skip_ws(sfx, i - d);
    let j = ws_end(s, i);
    assert(ws_end(sfx, i - d) == j - d);
    if j < s.len() {
        assert(sfx[j - d] == s[j]);
        if s[j] == 0x29 {
        } else if s[j] == 0x2e && acc.len() >= 1 {
            lemma_skip_ws_shift(s, d, j + 1);
            lemma_skip_ws(s, j + 1);
            lemma_skip_ws(sfx, j + 1 - d);
            let k0 = imin(s, ws_end(s, j + 1));
            assert(imin(sfx, ws_end(sfx, j + 1 - d)) == k0 - d);
            lemma_parse_value_shift(s, d, k0, depth);
            lemma_parse_value_bounds(s, k0, depth);
            match spec_parse_value(s, k0, depth) {
                PResult::POk(tail, k) => {
                    lemma_skip_ws_shift(s, d, k);
                    lemma_skip_ws(s, k);
                    lemma_skip_ws(sfx, k - d);
                    let k2 = ws_end(s, k);
                    assert(ws_end(sfx, k - d) == k2 - d);
                    if k2 < s.len() {
                        assert(sfx[k2 - d] == s[k2]);
                    }
                },
                PResult::PErr(_, _) => {},
            }
        } else if acc.len() >= 1 && j == i {
        } else {
            lemma_parse_value_shift(s, d, j, depth);
            match spec_parse_value(s, j, depth) {
                PResult::POk(v, k) => {
                    let kc = imin(
                        s,
                        if k < j + 1 {
                            j + 1
                        } else {
                            k
                        },
                    );
                    assert(imin(
                        sfx,
                        if k - d < j + 1 - d {
                            j + 1 - d
                        } else {
                            k - d
                        },
                    ) == kc - d);
                    lemma_parse_list_shift(s, d, kc, depth, acc.push(v));
                },
                PResult::PErr(_, _) => {},
            }
        }
    }
}

/// Streaming is resumable: what one step of the stream yields at a byte
/// offset is exactly what a fresh stream over the input from that offset
/// yields first, with positions moved by the offset.
#[verifier::rlimit(100)]
#[verifier::spinoff_prover]
pub proof fn lemma_stream_resumable(s: Seq<u8>, i: int)
    requires
        0 <= i <= s.len(),
    ensures
        crate::de::spec_stream_step(s, i) == (match crate::de::spec_stream_step(s.skip(i), 0) {
            Option::None => Option::None::<PResult>,
            Option::Some(r) => Option::Some(shift_p(r, i)),
        }),
{
    let sfx = s.skip(i);
    lemma_skip_ws_shift(s, i, i);
    lemma_skip_ws(s, i);
    lemma_skip_ws(sfx, 0);
    let j = ws_end(s, i);
    assert(ws_end(sfx, 0) == j - i);
    if j < s.len() {
        assert(sfx[j - i] == s[j]);
        if s[j] == 0x28 {
            lemma_parse_value_shift(s, i, j, 128);
        }
    }
}


/// Folding trailing zeros leaves a normalized decimal pair.
proof fn lemma_normalize_normalized(sig: u64, exp: int)
    ensures
        spec_normalize(sig, exp).0 == 0 ==> spec_normalize(sig, exp).1 == 0,
        spec_normalize(sig, exp).0 != 0 ==> spec_normalize(sig, exp).0 % 10 != 0,
    decreases sig,
{
    if sig != 0 && sig % 10 == 0 {
        lemma_normalize_normalized((sig / 10) as u64, exp + 1);
    }
}

/// Folding a well-formed tail into well-formed heads leaves a well-formed
/// tree.
proof fn lemma_merge_wf(heads: Seq<SexpV>, tail: SexpV)
    requires
        heads.len() >= 1,
        forall|j: int| 0 <= j < heads.len() ==> wf_sexp(#[trigger] heads[j]),
        wf_sexp(tail),
    ensures
        wf_sexp(spec_merge_tail(heads, tail)),
{
    match tail {
        SexpV::Nil => {
            assert forall|j: int| 0 <= j < heads.len() implies wf_sexp(
                #[trigger] (heads)[j],
            ) by {}
        },
        SexpV::List(es) => {
            assert forall|j: int| 0 <= j < (heads + es).len() implies wf_sexp(
                #[trigger] (heads + es)[j],
            ) by {
                if j < heads.len() {
                    assert((heads + es)[j] == heads[j]);
                } else {
                    assert((heads + es)[j] == es[j - heads.len()]);
                }
            }
        },
        SexpV::Improper(hs, t2) => {
            assert forall|j: int| 0 <= j < (heads + hs).len() implies wf_sexp(
                #[trigger] (heads + hs)[j],
            ) by {
                if j < heads.len() {
                    assert((heads + hs)[j] == heads[j]);
                } else {
                    assert((heads + hs)[j] == hs[j - heads.len()]);
                }
            }
        },
        _ => {},
    }
}

/// A scanned name reads back as a well-formed bare name.
proof fn lemma_scanned_name_wf(s: Seq<u8>, i: int)
    requires
        0 <= i < s.len(),
        is_letter(s[i]),
    ensures
        wf_name(decode_utf8(s.subrange(i, sym_end(s, i)))),
{
    lemma_sym_end(s, i);
    let k = sym_end(s, i);
    let bs = s.subrange(i, k);
    assert(is_symbol_byte(s[i]));
    assert(k > i);
    assert forall|j: int| 0 <= j < bs.len() implies bs[j] < 0x80 && is_symbol_byte(
        #[trigger] bs[j],
    ) by {
        assert(bs[j] == s[i + j]);
        assert(is_symbol_byte(s[i + j]));
    }
    lemma_ascii_decode(bs);
    let cs = decode_utf8(bs);
    assert forall|j: int| 0 <= j < cs.len() implies symbol_char(#[trigger] cs[j]) by {
        lemma_symbol_byte_char(bs[j]);
    }
    assert(bs[0] == s[i]);
    lemma_symbol_byte_char(bs[0]);
    assert(letter_char(cs[0]));
}

/// Every floating value the final conversion yields is well formed.
proof fn lemma_mk_float_wf(s: Seq<u8>, at: int, pos: bool, sig: u64, exp: int)
    ensures
        spec_mk_float(s, at, pos, sig, exp) matches PResult::POk(v, _) ==> wf_sexp(v),
{
    lemma_normalize_normalized(sig, exp);
}

/// Every number the number grammar yields is well formed.
proof fn lemma_parse_number_family_wf(s: Seq<u8>, i: int, pos: bool, sig: u64, exp: int)
    requires
        0 <= i,
    ensures
        spec_parse_dec_loop(s, i, pos, sig, exp) matches PResult::POk(v, _) ==> wf_sexp(v),
        spec_parse_decimal(s, i, pos, sig, exp) matches PResult::POk(v, _) ==> wf_sexp(v),
        spec_parse_long(s, i, pos, sig, exp) matches PResult::POk(v, _) ==> wf_sexp(v),
        spec_parse_number(s, i, pos, sig) matches PResult::POk(v, _) ==> wf_sexp(v),
        spec_parse_int_loop(s, i, pos, sig) matches PResult::POk(v, _) ==> wf_sexp(v),
    decreases s.len() - i + 1,
{
    lemma_mk_float_wf(s, imin(s, i), pos, sig, exp);
    lemma_mk_float_wf(s, i, false, sig, 0);
    lemma_mk_float_wf(s, imin(s, i), pos, sig, 0);
    if 0 <= i < s.len() && is_digit(s[i]) {
        let dg = (s[i] - 0x30) as u64;
        lemma_mk_float_wf(s, digits_end(s, i), pos, sig, exp);
        if !(sig >= u64::MAX / 10 && (sig > u64::MAX / 10 || dg > u64::MAX % 10)) {
            lemma_parse_number_family_wf(
                s,
                i + 1,
                pos,
                (sig * 10 + dg) as u64,
                if exp > -EXP_CAP {
                    exp - 1
                } else {
                    exp
                },
            );
            lemma_parse_number_family_wf(
                s,
                i + 1,
                pos,
                sig,
                if exp < EXP_CAP {
                    exp + 1
                } else {
                    exp
                },
            );
            lemma_parse_number_family_wf(s, i + 1, pos, sig, 1);
            lemma_parse_number_family_wf(s, i + 1, pos, (sig * 10 + dg) as u64, 0);
        } else {
            lemma_parse_number_family_wf(s, i + 1, pos, sig, 1);
            lemma_parse_number_family_wf(
                s,
                i + 1,
                pos,
                sig,
                if exp < EXP_CAP {
                    exp + 1
                } else {
                    exp
                },
            );
        }
    } else if 0 <= i < s.len() && s[i] == 0x2eu8 {
        lemma_parse_number_family_wf(s, i + 1, pos, sig, exp);
        lemma_parse_number_family_wf(s, i + 1, pos, sig, 0);
    }
    if !pos && sig != 0 && sig <= 9223372036854775808u64 {
        assert(-(sig as int) < 0);
        assert(((-(sig as int)) as i64) < 0);
    }
}

/// The number a whole literal yields is well formed.
proof fn lemma_parse_integer_wf(s: Seq<u8>, i: int, pos: bool)
    requires
        0 <= i,
    ensures
        spec_parse_integer(s, i, pos) matches PResult::POk(v, _) ==> wf_sexp(v),
{
    if 0 <= i < s.len() {
        if s[i] == 0x30 {
            lemma_parse_number_family_wf(s, i + 1, pos, 0, 0);
        } else if is_digit(s[i]) {
            lemma_parse_number_family_wf(s, i + 1, pos, (s[i] - 0x30) as u64, 0);
            lemma_parse_number_family_wf(s, i + 1, pos, (s[i] - 0x30) as u64, 1);
        }
    }
}

/// Everything the decoder yields is well formed: atoms follow the name
/// grammar, numbers are normalized and in range with negative integers
/// negative, and improper lists are canonical, with at least one head and
/// a leaf tail other than nil.
pub proof fn lemma_parse_value_wf(s: Seq<u8>, i: int, depth: int)
    requires
        0 <= i <= s.len(),
    ensures
        spec_parse_value(s, i, depth) matches PResult::POk(v, _) ==> wf_sexp(v),
    decreases s.len() - i, 0int,
{
    if 0 <= i < s.len() {
        let c = s[i];
        if c == 0x23 {
            if i + 1 < s.len() && s[i + 1] == 0x3a && i + 2 < s.len() && is_letter(s[i + 2]) {
                lemma_scanned_name_wf(s, i + 2);
            }
        } else if c == 0x2d {
            lemma_parse_integer_wf(s, i + 1, false);
        } else if is_digit(c) {
            lemma_parse_integer_wf(s, i, true);
        } else if c == 0x22 {
        } else if c == 0x28 {
            if depth - 1 > 0 {
                lemma_parse_list_wf(s, i + 1, depth - 1, seq![]);
            }
        } else if is_letter(c) {
            lemma_scanned_name_wf(s, i);
        }
    }
}

/// Everything a list parse yields is well formed, provided what was
/// already read is.
proof fn lemma_parse_list_wf(s: Seq<u8>, i: int, depth: int, acc: Seq<SexpV>)
    requires
        0 <= i <= s.len(),
        forall|j: int| 0 <= j < acc.len() ==> wf_sexp(#[trigger] acc[j]),
    ensures
        spec_parse_list(s, i, depth, acc) matches PResult::POk(v, _) ==> wf_sexp(v),
    decreases s.len() - i, 1int,
{
    lemma_skip_ws(s, i);
    let j = ws_end(s, i);
    if j < s.len() {
        if s[j] == 0x29 {
        } else if s[j] == 0x2e && acc.len() >= 1 {
            lemma_skip_ws(s, j + 1);
            let k0 = imin(s, ws_end(s, j + 1));
            lemma_parse_value_wf(s, k0, depth);
            lemma_parse_value_bounds(s, k0, depth);
            match spec_parse_value(s, k0, depth) {
                PResult::POk(tail, k) => {
                    lemma_skip_ws(s, k);
                    let k2 = ws_end(s, k);
                    if k2 < s.len() && s[k2] == 0x29 {
                        lemma_merge_wf(acc, tail);
                    }
                },
                PResult::PErr(_, _) => {},
            }
        } else if acc.len() >= 1 && j == i {
        } else {
            lemma_parse_value_wf(s, j, depth);
            match spec_parse_value(s, j, depth) {
                PResult::POk(v, k) => {
                    let kc = imin(
                        s,
                        if k < j + 1 {
                            j + 1
                        } else {
                            k
                        },
                    );
                    assert forall|j2: int| 0 <= j2 < acc.push(v).len() implies wf_sexp(
                        #[trigger] acc.push(v)[j2],
                    ) by {
                        if j2 < acc.len() {
                            assert(acc.push(v)[j2] == acc[j2]);
                        }
                    }
                    lemma_parse_list_wf(s, kc, depth, acc.push(v));
                },
                PResult::PErr(_, _) => {},
            }
        }
    }
}

/// What decoding a whole document yields is well formed.
pub proof fn lemma_decode_wf(s: Seq<u8>)
    ensures
        spec_decode(s) matches PResult::POk(v, _) ==> wf_sexp(v),
{
    lemma_skip_ws(s, 0);
    lemma_parse_value_wf(s, ws_end(s, 0), 128);
}

} // verus!
