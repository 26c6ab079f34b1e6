//! Serialize a value tree into S-expression text.

use vstd::prelude::*;
use vstd::string::StringSliceAdditionalSpecFns;

use crate::atom::AtomV;
use crate::error::{CodeV, Error, ErrorCode, ErrorV};
use crate::number::{Number, NumberV};
use crate::sexp::{entries_depth, entry_views, seq_depth, views_of, sdepth, Sexp, SexpV};
use crate::text::{
    lay_bump, lay_close, lay_sep, spec_atom_text, spec_digits, spec_dec_text, spec_encode,
    spec_encode_elems, spec_escape_byte, spec_escaped, spec_hex_digit, spec_number_text,
    spec_repeat, spec_zeros, spec_encode_alist, spec_encode_entries, spec_entry_text, spec_key_ok,
    spec_key_text, Layout,
};

verus! {

/// The default indent unit of the pretty layout: two spaces.
pub const DEFAULT_INDENT: [u8; 2] = [0x20u8, 0x20u8];

pub const BB: u8 = 0x62;

pub const TT: u8 = 0x74;

pub const NN: u8 = 0x6e;

pub const FF: u8 = 0x66;

pub const RR: u8 = 0x72;

pub const QU: u8 = 0x22;

pub const BS: u8 = 0x5c;

pub const UU: u8 = 0x75;

/// Represents a character escape code in a type-safe manner.
#[derive(Clone, Copy, Debug, PartialEq, Eq, Structural)]
pub enum CharEscape {
    /// An escaped quote `"`
    Quote,
    /// An escaped reverse solidus `\`
    ReverseSolidus,
    /// An escaped solidus `/`
    Solidus,
    /// An escaped backspace character (usually escaped as `\b`)
    Backspace,
    /// An escaped form feed character (usually escaped as `\f`)
    FormFeed,
    /// An escaped line feed character (usually escaped as `\n`)
    LineFeed,
    /// An escaped carriage return character (usually escaped as `\r`)
    CarriageReturn,
    /// An escaped tab character (usually escaped as `\t`)
    Tab,
    /// An escaped ASCII plane control character (usually escaped as
    /// `\u00XX` where `XX` are two hex characters)
    AsciiControl(u8),
}

/// The bytes a [`CharEscape`] writes.
pub open spec fn spec_char_escape_bytes(e: CharEscape) -> Seq<u8> {
    match e {
        CharEscape::Quote => seq![0x5cu8, 0x22u8],
        CharEscape::ReverseSolidus => seq![0x5cu8, 0x5cu8],
        CharEscape::Solidus => seq![0x5cu8, 0x2fu8],
        CharEscape::Backspace => seq![0x5cu8, 0x62u8],
        CharEscape::FormFeed => seq![0x5cu8, 0x66u8],
        CharEscape::LineFeed => seq![0x5cu8, 0x6eu8],
        CharEscape::CarriageReturn => seq![0x5cu8, 0x72u8],
        CharEscape::Tab => seq![0x5cu8, 0x74u8],
        CharEscape::AsciiControl(b) => seq![
            0x5cu8,
            0x75u8,
            0x30u8,
            0x30u8,
            spec_hex_digit(b / 16),
            spec_hex_digit(b % 16),
        ],
    }
}

impl CharEscape {
    /// Maps an escape class byte, as the escape table assigns them, to the
    /// escape it names; the class must be one of the eight assigned bytes.
    pub fn from_escape_table(escape: u8, byte: u8) -> (r: CharEscape)
        requires
            escape == BB || escape == TT || escape == NN || escape == FF || escape == RR || escape
                == QU || escape == BS || escape == UU,
        ensures
            r == if escape == BB {
                CharEscape::Backspace
            } else if escape == TT {
                CharEscape::Tab
            } else if escape == NN {
                CharEscape::LineFeed
            } else if escape == FF {
                CharEscape::FormFeed
            } else if escape == RR {
                CharEscape::CarriageReturn
            } else if escape == QU {
                CharEscape::Quote
            } else if escape == BS {
                CharEscape::ReverseSolidus
            } else {
                CharEscape::AsciiControl(byte)
            },
    {
        if escape == BB {
            CharEscape::Backspace
        } else if escape == TT {
            CharEscape::Tab
        } else if escape == NN {
            CharEscape::LineFeed
        } else if escape == FF {
            CharEscape::FormFeed
        } else if escape == RR {
            CharEscape::CarriageReturn
        } else if escape == QU {
            CharEscape::Quote
        } else if escape == BS {
            CharEscape::ReverseSolidus
        } else {
            CharEscape::AsciiControl(byte)
        }
    }
}

/// Appends the minimal decimal digit string of `v`.
pub fn write_u64_digits(w: &mut Vec<u8>, v: u64)
    ensures
        final(w)@ == old(w)@ + spec_digits(v as nat),
    decreases v,
{
    if v < 10 {
        w.push(0x30 + (v as u8));
    } else {
        write_u64_digits(w, v / 10);
        w.push(0x30 + ((v % 10) as u8));
    }
}

/// Appends the minimal decimal digit string of `v`, with a minus sign when
/// it is negative.
pub fn write_i64_digits(w: &mut Vec<u8>, v: i64)
    ensures
        final(w)@ == old(w)@ + if v < 0 {
            seq![0x2du8] + spec_digits((-(v as int)) as nat)
        } else {
            spec_digits(v as nat)
        },
{
    if v >= 0 {
        write_u64_digits(w, v as u64);
    } else {
        w.push(0x2d);
        let mag: u64 = if v == i64::MIN {
            9223372036854775808u64
        } else {
            (-v) as u64
        };
        write_u64_digits(w, mag);
    }
}

/// This trait abstracts away serializing the S-expression control
/// characters, which allows the user to choose compact or indented output.
/// Both layouts use the parenthesis pair for arrays and for keyed
/// aggregates alike.
pub trait Formatter: Sized {
    /// The layout this formatter writes.
    spec fn layout(&self) -> Layout;

    /// How many aggregates are open.
    spec fn depth(&self) -> nat;

    /// Whether the aggregate being written holds an element already; only
    /// the indented layout tracks this.
    spec fn has_value(&self) -> bool;

    /// Writes the nil token.
    fn write_null(&mut self, w: &mut Vec<u8>)
        ensures
            final(w)@ == old(w)@ + seq![0x23u8, 0x6eu8, 0x69u8, 0x6cu8],
            *final(self) == *old(self),
    ;

    /// Writes a boolean token.
    fn write_bool(&mut self, w: &mut Vec<u8>, value: bool)
        ensures
            final(w)@ == old(w)@ + if value {
                seq![0x23u8, 0x74u8]
            } else {
                seq![0x23u8, 0x66u8]
            },
            *final(self) == *old(self),
    ;

    /// Writes an integer in minimal decimal text.
    fn write_u64(&mut self, w: &mut Vec<u8>, value: u64)
        ensures
            final(w)@ == old(w)@ + spec_digits(value as nat),
            *final(self) == *old(self),
    ;

    /// Writes an integer in minimal decimal text, with its sign.
    fn write_i64(&mut self, w: &mut Vec<u8>, value: i64)
        ensures
            final(w)@ == old(w)@ + if value < 0 {
                seq![0x2du8] + spec_digits((-(value as int)) as nat)
            } else {
                spec_digits(value as nat)
            },
            *final(self) == *old(self),
    ;

    /// Writes an integer in minimal decimal text.
    fn write_u8(&mut self, w: &mut Vec<u8>, value: u8)
        ensures
            final(w)@ == old(w)@ + spec_digits(value as nat),
            *final(self) == *old(self),
    ;

    /// Writes an integer in minimal decimal text.
    fn write_u16(&mut self, w: &mut Vec<u8>, value: u16)
        ensures
            final(w)@ == old(w)@ + spec_digits(value as nat),
            *final(self) == *old(self),
    ;

    /// Writes an integer in minimal decimal text.
    fn write_u32(&mut self, w: &mut Vec<u8>, value: u32)
        ensures
            final(w)@ == old(w)@ + spec_digits(value as nat),
            *final(self) == *old(self),
    ;

    /// Writes an integer in minimal decimal text, with its sign.
    fn write_i8(&mut self, w: &mut Vec<u8>, value: i8)
        ensures
            final(w)@ == old(w)@ + if value < 0 {
                seq![0x2du8] + spec_digits((-(value as int)) as nat)
            } else {
                spec_digits(value as nat)
            },
            *final(self) == *old(self),
    ;

    /// Writes an integer in minimal decimal text, with its sign.
    fn write_i16(&mut self, w: &mut Vec<u8>, value: i16)
        ensures
            final(w)@ == old(w)@ + if value < 0 {
                seq![0x2du8] + spec_digits((-(value as int)) as nat)
            } else {
                spec_digits(value as nat)
            },
            *final(self) == *old(self),
    ;

    /// Writes an integer in minimal decimal text, with its sign.
    fn write_i32(&mut self, w: &mut Vec<u8>, value: i32)
        ensures
            final(w)@ == old(w)@ + if value < 0 {
                seq![0x2du8] + spec_digits((-(value as int)) as nat)
            } else {
                spec_digits(value as nat)
            },
            *final(self) == *old(self),
    ;

    /// Writes the exact decimal expansion of a floating value.
    fn write_decimal(&mut self, w: &mut Vec<u8>, neg: bool, sig: u64, exp: i64)
        ensures
            final(w)@ == old(w)@ + if neg {
                seq![0x2du8] + spec_dec_text(sig, exp)
            } else {
                spec_dec_text(sig, exp)
            },
            *final(self) == *old(self),
    ;

    /// Writes a string without any enclosing quotes or escaping.
    fn write_bare_string(&mut self, w: &mut Vec<u8>, value: &str)
        ensures
            final(w)@ == old(w)@ + value.spec_bytes(),
            *final(self) == *old(self),
    ;

    /// Writes the opening quote of a string.
    fn begin_string(&mut self, w: &mut Vec<u8>)
        ensures
            final(w)@ == old(w)@ + seq![0x22u8],
            *final(self) == *old(self),
    ;

    /// Writes the closing quote of a string.
    fn end_string(&mut self, w: &mut Vec<u8>)
        ensures
            final(w)@ == old(w)@ + seq![0x22u8],
            *final(self) == *old(self),
    ;

    /// Writes a character escape code.
    fn write_char_escape(&mut self, w: &mut Vec<u8>, char_escape: CharEscape)
        ensures
            final(w)@ == old(w)@ + spec_char_escape_bytes(char_escape),
            *final(self) == *old(self),
    ;

    /// Opens an array.
    fn begin_array(&mut self, w: &mut Vec<u8>)
        requires
            old(self).depth() < usize::MAX,
        ensures
            final(w)@ == old(w)@ + seq![0x28u8],
            final(self).layout() == old(self).layout(),
            final(self).depth() == lay_bump(old(self).layout(), old(self).depth()),
            final(self).layout() is Pretty ==> !final(self).has_value(),
    ;

    /// Closes an array, writing the layout's closing whitespace first.
    fn end_array(&mut self, w: &mut Vec<u8>)
        requires
            old(self).layout() is Pretty ==> old(self).depth() >= 1,
        ensures
            final(w)@ == old(w)@ + lay_close(
                old(self).layout(),
                (if old(self).layout() is Pretty {
                    (old(self).depth() - 1) as nat
                } else {
                    0
                }),
                old(self).has_value(),
            ) + seq![0x29u8],
            final(self).layout() == old(self).layout(),
            final(self).depth() == (if old(self).layout() is Pretty {
                (old(self).depth() - 1) as nat
            } else {
                0
            }),
            final(self).has_value() == old(self).has_value(),
    ;

    /// Writes what stands before an array element.
    fn begin_array_value(&mut self, w: &mut Vec<u8>, first: bool)
        ensures
            final(w)@ == old(w)@ + lay_sep(old(self).layout(), old(self).depth(), first),
            *final(self) == *old(self),
    ;

    /// Marks an array element as written.
    fn end_array_value(&mut self, w: &mut Vec<u8>)
        ensures
            final(w)@ == old(w)@,
            final(self).layout() == old(self).layout(),
            final(self).depth() == old(self).depth(),
            final(self).layout() is Pretty ==> final(self).has_value(),
    ;

    /// Writes the dot that separates an improper list's heads from its
    /// tail, with the space that follows it.
    fn write_pair_dot(&mut self, w: &mut Vec<u8>)
        ensures
            final(w)@ == old(w)@ + seq![0x2eu8, 0x20u8],
            *final(self) == *old(self),
    ;

    /// Opens a keyed aggregate.
    fn begin_object(&mut self, w: &mut Vec<u8>)
        requires
            old(self).depth() < usize::MAX,
        ensures
            final(w)@ == old(w)@ + seq![0x28u8],
            final(self).layout() == old(self).layout(),
            final(self).depth() == lay_bump(old(self).layout(), old(self).depth()),
            final(self).layout() is Pretty ==> !final(self).has_value(),
    ;

    /// Closes a keyed aggregate, writing the layout's closing whitespace
    /// first.
    fn end_object(&mut self, w: &mut Vec<u8>)
        requires
            old(self).layout() is Pretty ==> old(self).depth() >= 1,
        ensures
            final(w)@ == old(w)@ + lay_close(
                old(self).layout(),
                (if old(self).layout() is Pretty {
                    (old(self).depth() - 1) as nat
                } else {
                    0
                }),
                old(self).has_value(),
            ) + seq![0x29u8],
            final(self).layout() == old(self).layout(),
            final(self).depth() == (if old(self).layout() is Pretty {
                (old(self).depth() - 1) as nat
            } else {
                0
            }),
            final(self).has_value() == old(self).has_value(),
    ;

    /// Writes what stands before an entry of a keyed aggregate.
    fn begin_object_key(&mut self, w: &mut Vec<u8>, first: bool)
        ensures
            final(w)@ == old(w)@ + lay_sep(old(self).layout(), old(self).depth(), first),
            *final(self) == *old(self),
    ;

    /// Opens one entry of a keyed aggregate.
    fn begin_object_entry(&mut self, w: &mut Vec<u8>)
        ensures
            final(w)@ == old(w)@ + seq![0x28u8],
            *final(self) == *old(self),
    ;

    /// Ends the key of an entry.
    fn end_object_key(&mut self, w: &mut Vec<u8>)
        ensures
            final(w)@ == old(w)@,
            *final(self) == *old(self),
    ;

    /// Writes the dot that separates an entry's key from its value.
    fn begin_object_value(&mut self, w: &mut Vec<u8>)
        ensures
            final(w)@ == old(w)@ + seq![0x20u8, 0x2eu8, 0x20u8],
            *final(self) == *old(self),
    ;

    /// Closes one entry of a keyed aggregate and marks it as written.
    fn end_object_value(&mut self, w: &mut Vec<u8>)
        ensures
            final(w)@ == old(w)@ + seq![0x29u8],
            final(self).layout() == old(self).layout(),
            final(self).depth() == old(self).depth(),
            final(self).layout() is Pretty ==> final(self).has_value(),
    ;
}

/// This structure compacts an S-expression value with no extra whitespace.
#[derive(Clone, Debug)]
pub struct CompactFormatter;

impl Formatter for CompactFormatter {
    open spec fn layout(&self) -> Layout {
        Layout::Compact
    }

    open spec fn depth(&self) -> nat {
        0
    }

    open spec fn has_value(&self) -> bool {
        false
    }

    fn write_null(&mut self, w: &mut Vec<u8>) {
        w.push(0x23);
        w.push(0x6e);
        w.push(0x69);
        w.push(0x6c);
        proof {
            assert(w@ =~= old(w)@ + seq![0x23u8, 0x6eu8, 0x69u8, 0x6cu8]);
        }
    }

    fn write_bool(&mut self, w: &mut Vec<u8>, value: bool) {
        w.push(0x23);
        if value {
            w.push(0x74);
        } else {
            w.push(0x66);
        }
        proof {
            assert(w@ =~= old(w)@ + if value {
                seq![0x23u8, 0x74u8]
            } else {
                seq![0x23u8, 0x66u8]
            });
        }
    }

    fn write_u64(&mut self, w: &mut Vec<u8>, value: u64) {
        write_u64_digits(w, value);
    }

    fn write_i64(&mut self, w: &mut Vec<u8>, value: i64) {
        write_i64_digits(w, value);
    }

    fn write_u8(&mut self, w: &mut Vec<u8>, value: u8) {
        write_u64_digits(w, value as u64);
    }

    fn write_u16(&mut self, w: &mut Vec<u8>, value: u16) {
        write_u64_digits(w, value as u64);
    }

    fn write_u32(&mut self, w: &mut Vec<u8>, value: u32) {
        write_u64_digits(w, value as u64);
    }

    fn write_i8(&mut self, w: &mut Vec<u8>, value: i8) {
        write_i64_digits(w, value as i64);
    }

    fn write_i16(&mut self, w: &mut Vec<u8>, value: i16) {
        write_i64_digits(w, value as i64);
    }

    fn write_i32(&mut self, w: &mut Vec<u8>, value: i32) {
        write_i64_digits(w, value as i64);
    }

    fn write_decimal(&mut self, w: &mut Vec<u8>, neg: bool, sig: u64, exp: i64) {
        write_decimal_text(w, neg, sig, exp);
    }

    fn write_bare_string(&mut self, w: &mut Vec<u8>, value: &str) {
        w.extend_from_slice(value.as_bytes());
    }

    fn begin_string(&mut self, w: &mut Vec<u8>) {
        w.push(0x22);
        proof {
            assert(w@ =~= old(w)@ + seq![0x22u8]);
        }
    }

    fn end_string(&mut self, w: &mut Vec<u8>) {
        w.push(0x22);
        proof {
            assert(w@ =~= old(w)@ + seq![0x22u8]);
        }
    }

    fn write_char_escape(&mut self, w: &mut Vec<u8>, char_escape: CharEscape) {
        write_char_escape_bytes(w, char_escape);
    }

    fn begin_array(&mut self, w: &mut Vec<u8>) {
        w.push(0x28);
        proof {
            assert(w@ =~= old(w)@ + seq![0x28u8]);
        }
    }

    fn end_array(&mut self, w: &mut Vec<u8>) {
        w.push(0x29);
        proof {
            assert(w@ =~= old(w)@ + seq![0x29u8]);
            assert(w@ =~= old(w)@ + lay_close(Layout::Compact, 0, old(self).has_value()) + seq![
                0x29u8,
            ]);
        }
    }

    fn begin_array_value(&mut self, w: &mut Vec<u8>, first: bool) {
        if !first {
            w.push(0x20);
            proof {
                assert(w@ =~= old(w)@ + seq![0x20u8]);
            }
        } else {
            proof {
                assert(w@ =~= old(w)@ + Seq::<u8>::empty());
                assert(lay_sep(Layout::Compact, 0, true) =~= Seq::<u8>::empty());
            }
        }
    }

    fn end_array_value(&mut self, w: &mut Vec<u8>) {
    }

    fn write_pair_dot(&mut self, w: &mut Vec<u8>) {
        w.push(0x2e);
        w.push(0x20);
        proof {
            assert(w@ =~= old(w)@ + seq![0x2eu8, 0x20u8]);
        }
    }

    fn begin_object(&mut self, w: &mut Vec<u8>) {
        w.push(0x28);
        proof {
            assert(w@ =~= old(w)@ + seq![0x28u8]);
        }
    }

    fn end_object(&mut self, w: &mut Vec<u8>) {
        w.push(0x29);
        proof {
            assert(w@ =~= old(w)@ + seq![0x29u8]);
            assert(w@ =~= old(w)@ + lay_close(Layout::Compact, 0, old(self).has_value()) + seq![
                0x29u8,
            ]);
        }
    }

    fn begin_object_key(&mut self, w: &mut Vec<u8>, first: bool) {
        if !first {
            w.push(0x20);
            proof {
                assert(w@ =~= old(w)@ + seq![0x20u8]);
            }
        } else {
            proof {
                assert(w@ =~= old(w)@ + Seq::<u8>::empty());
                assert(lay_sep(Layout::Compact, 0, true) =~= Seq::<u8>::empty());
            }
        }
    }

    fn begin_object_entry(&mut self, w: &mut Vec<u8>) {
        w.push(0x28);
        proof {
            assert(w@ =~= old(w)@ + seq![0x28u8]);
        }
    }

    fn end_object_key(&mut self, w: &mut Vec<u8>) {
    }

    fn begin_object_value(&mut self, w: &mut Vec<u8>) {
        w.push(0x20);
        w.push(0x2e);
        w.push(0x20);
        proof {
            assert(w@ =~= old(w)@ + seq![0x20u8, 0x2eu8, 0x20u8]);
        }
    }

    fn end_object_value(&mut self, w: &mut Vec<u8>) {
        w.push(0x29);
        proof {
            assert(w@ =~= old(w)@ + seq![0x29u8]);
        }
    }
}

/// Appends the escape sequence a [`CharEscape`] stands for.
fn write_char_escape_bytes(w: &mut Vec<u8>, char_escape: CharEscape)
    ensures
        final(w)@ == old(w)@ + spec_char_escape_bytes(char_escape),
{
    match char_escape {
        CharEscape::Quote => {
            w.push(0x5c);
            w.push(0x22);
        },
        CharEscape::ReverseSolidus => {
            w.push(0x5c);
            w.push(0x5c);
        },
        CharEscape::Solidus => {
            w.push(0x5c);
            w.push(0x2f);
        },
        CharEscape::Backspace => {
            w.push(0x5c);
            w.push(0x62);
        },
        CharEscape::FormFeed => {
            w.push(0x5c);
            w.push(0x66);
        },
        CharEscape::LineFeed => {
            w.push(0x5c);
            w.push(0x6e);
        },
        CharEscape::CarriageReturn => {
            w.push(0x5c);
            w.push(0x72);
        },
        CharEscape::Tab => {
            w.push(0x5c);
            w.push(0x74);
        },
        CharEscape::AsciiControl(b) => {
            w.push(0x5c);
            w.push(0x75);
            w.push(0x30);
            w.push(0x30);
            let hi = b / 16;
            let lo = b % 16;
            w.push(
                if hi < 10 {
                    0x30 + hi
                } else {
                    0x57 + hi
                },
            );
            w.push(
                if lo < 10 {
                    0x30 + lo
                } else {
                    0x57 + lo
                },
            );
        },
    }
    proof {
        assert(w@ =~= old(w)@ + spec_char_escape_bytes(char_escape));
    }
}

/// Appends the exact decimal expansion of `(-1)^neg * sig * 10^exp`.
#[verifier::rlimit(50)]
#[verifier::spinoff_prover]
fn write_decimal_text(w: &mut Vec<u8>, neg: bool, sig: u64, exp: i64)
    ensures
        final(w)@ == old(w)@ + if neg {
            seq![0x2du8] + spec_dec_text(sig, exp)
        } else {
            spec_dec_text(sig, exp)
        },
{
    if neg {
        w.push(0x2d);
    }
    let ghost mid = w@;
    let mut ds: Vec<u8> = Vec::new();
    write_u64_digits(&mut ds, sig);
    proof {
        crate::text::lemma_digits_len(sig as nat);
        crate::number::lemma_ndigits_le_20(sig as nat);
        assert(ds@.len() <= 20);
    }
    if exp >= 0 {
        w.extend_from_slice(ds.as_slice());
        let mut i: i64 = 0;
        while i < exp
            invariant
                0 <= i <= exp,
                w@ == mid + spec_digits(sig as nat) + spec_zeros(i as nat),
            decreases exp - i,
        {
            w.push(0x30);
            proof {
                assert(spec_zeros((i + 1) as nat) =~= spec_zeros(i as nat).push(0x30u8));
                assert(w@ =~= mid + spec_digits(sig as nat) + spec_zeros((i + 1) as nat));
            }
            i = i + 1;
        }
        w.push(0x2e);
        w.push(0x30);
        proof {
            assert(w@ =~= mid + (spec_digits(sig as nat) + spec_zeros(exp as nat) + seq![
                0x2eu8,
                0x30u8,
            ]));
        }
    } else {
        let klarge: bool = if exp >= -64 {
            let k64: i64 = -exp;
            !((ds.len() as u64) > (k64 as u64))
        } else {
            true
        };
        if !klarge {
            let k: usize = (-exp) as usize;
            let cut: usize = ds.len() - k;
            let mut j: usize = 0;
            while j < cut
                invariant
                    cut <= ds.len(),
                    j <= cut,
                    ds@ == spec_digits(sig as nat),
                    w@ == mid + spec_digits(sig as nat).subrange(0, j as int),
                decreases cut - j,
            {
                w.push(ds[j]);
                proof {
                    assert(w@ =~= mid + spec_digits(sig as nat).subrange(0, (j + 1) as int));
                }
                j = j + 1;
            }
            w.push(0x2e);
            let mut j2: usize = cut;
            while j2 < ds.len()
                invariant
                    cut <= ds.len(),
                    cut <= j2 <= ds.len(),
                    ds@ == spec_digits(sig as nat),
                    w@ == mid + spec_digits(sig as nat).subrange(0, cut as int) + seq![0x2eu8]
                        + spec_digits(sig as nat).subrange(cut as int, j2 as int),
                decreases ds.len() - j2,
            {
                w.push(ds[j2]);
                proof {
                    assert(w@ =~= mid + spec_digits(sig as nat).subrange(0, cut as int) + seq![
                        0x2eu8,
                    ] + spec_digits(sig as nat).subrange(cut as int, (j2 + 1) as int));
                }
                j2 = j2 + 1;
            }
            proof {
                assert(w@ =~= mid + spec_dec_text(sig, exp));
            }
        } else {
            w.push(0x30);
            w.push(0x2e);
            let ghost mid2 = w@;
            let mut z: u64 = 0;
            let kz: u64 = if exp >= -64 {
                ((-exp) as u64) - (ds.len() as u64)
            } else {
                (-(exp + 64)) as u64 + 64 - (ds.len() as u64)
            };
            proof {
                assert(kz == -(exp as int) - ds@.len());
            }
            while z < kz
                invariant
                    z <= kz,
                    w@ == mid2 + spec_zeros(z as nat),
                decreases kz - z,
            {
                w.push(0x30);
                proof {
                    assert(spec_zeros((z + 1) as nat) =~= spec_zeros(z as nat).push(0x30u8));
                    assert(w@ =~= mid2 + spec_zeros((z + 1) as nat));
                }
                z = z + 1;
            }
            w.extend_from_slice(ds.as_slice());
            proof {
                assert(w@ =~= mid + spec_dec_text(sig, exp));
            }
        }
    }
    proof {
        assert(w@ =~= old(w)@ + if neg {
            seq![0x2du8] + spec_dec_text(sig, exp)
        } else {
            spec_dec_text(sig, exp)
        });
    }
}


/// Appends `n` copies of the indent unit `s`.
fn indent(wr: &mut Vec<u8>, n: usize, s: &[u8])
    ensures
        final(wr)@ == old(wr)@ + spec_repeat(s@, n as nat),
{
    let mut i: usize = 0;
    while i < n
        invariant
            i <= n,
            wr@ == old(wr)@ + spec_repeat(s@, i as nat),
        decreases n - i,
    {
        wr.extend_from_slice(s);
        proof {
            assert(spec_repeat(s@, (i + 1) as nat) == spec_repeat(s@, i as nat) + s@);
            assert(wr@ =~= old(wr)@ + spec_repeat(s@, (i + 1) as nat));
        }
        i = i + 1;
    }
}

/// This structure pretty prints an S-expression value to make it human
/// readable: one element per line, indented once per nesting level.
#[derive(Clone, Debug)]
pub struct PrettyFormatter<'a> {
    current_indent: usize,
    has_value: bool,
    indent: &'a [u8],
}

impl<'a> PrettyFormatter<'a> {
    /// Construct a pretty printer formatter that defaults to using two
    /// spaces for indentation.
    pub fn new() -> (r: PrettyFormatter<'a>)
        ensures
            r.layout() == Layout::Pretty(seq![0x20u8, 0x20u8]),
            r.depth() == 0,
    {
        let r = PrettyFormatter::with_indent(DEFAULT_INDENT.as_slice());
        proof {
            assert(DEFAULT_INDENT@ =~= seq![0x20u8, 0x20u8]);
        }
        r
    }

    /// Construct a pretty printer formatter that uses the given bytes for
    /// indentation.
    pub fn with_indent(indent: &'a [u8]) -> (r: Self)
        ensures
            r.layout() == Layout::Pretty(indent@),
            r.depth() == 0,
    {
        PrettyFormatter { current_indent: 0, has_value: false, indent }
    }
}

impl<'a> Formatter for PrettyFormatter<'a> {
    closed spec fn layout(&self) -> Layout {
        Layout::Pretty(self.indent@)
    }

    closed spec fn depth(&self) -> nat {
        self.current_indent as nat
    }

    closed spec fn has_value(&self) -> bool {
        self.has_value
    }

    fn write_null(&mut self, w: &mut Vec<u8>) {
        w.push(0x23);
        w.push(0x6e);
        w.push(0x69);
        w.push(0x6c);
        proof {
            assert(w@ =~= old(w)@ + seq![0x23u8, 0x6eu8, 0x69u8, 0x6cu8]);
        }
    }

    fn write_bool(&mut self, w: &mut Vec<u8>, value: bool) {
        w.push(0x23);
        if value {
            w.push(0x74);
        } else {
            w.push(0x66);
        }
        proof {
            assert(w@ =~= old(w)@ + if value {
                seq![0x23u8, 0x74u8]
            } else {
                seq![0x23u8, 0x66u8]
            });
        }
    }

    fn write_u64(&mut self, w: &mut Vec<u8>, value: u64) {
        write_u64_digits(w, value);
    }

    fn write_i64(&mut self, w: &mut Vec<u8>, value: i64) {
        write_i64_digits(w, value);
    }

    fn write_u8(&mut self, w: &mut Vec<u8>, value: u8) {
        write_u64_digits(w, value as u64);
    }

    fn write_u16(&mut self, w: &mut Vec<u8>, value: u16) {
        write_u64_digits(w, value as u64);
    }

    fn write_u32(&mut self, w: &mut Vec<u8>, value: u32) {
        write_u64_digits(w, value as u64);
    }

    fn write_i8(&mut self, w: &mut Vec<u8>, value: i8) {
        write_i64_digits(w, value as i64);
    }

    fn write_i16(&mut self, w: &mut Vec<u8>, value: i16) {
        write_i64_digits(w, value as i64);
    }

    fn write_i32(&mut self, w: &mut Vec<u8>, value: i32) {
        write_i64_digits(w, value as i64);
    }

    fn write_decimal(&mut self, w: &mut Vec<u8>, neg: bool, sig: u64, exp: i64) {
        write_decimal_text(w, neg, sig, exp);
    }

    fn write_bare_string(&mut self, w: &mut Vec<u8>, value: &str) {
        w.extend_from_slice(value.as_bytes());
    }

    fn begin_string(&mut self, w: &mut Vec<u8>) {
        w.push(0x22);
        proof {
            assert(w@ =~= old(w)@ + seq![0x22u8]);
        }
    }

    fn end_string(&mut self, w: &mut Vec<u8>) {
        w.push(0x22);
        proof {
            assert(w@ =~= old(w)@ + seq![0x22u8]);
        }
    }

    fn write_char_escape(&mut self, w: &mut Vec<u8>, char_escape: CharEscape) {
        write_char_escape_bytes(w, char_escape);
    }

    fn begin_array(&mut self, w: &mut Vec<u8>) {
        self.current_indent = self.current_indent + 1;
        self.has_value = false;
        w.push(0x28);
        proof {
            assert(w@ =~= old(w)@ + seq![0x28u8]);
        }
    }

    fn end_array(&mut self, w: &mut Vec<u8>) {
        self.current_indent = self.current_indent - 1;
        if self.has_value {
            w.push(0x0a);
            indent(w, self.current_indent, self.indent);
            proof {
                assert(w@ =~= old(w)@ + (seq![0x0au8] + spec_repeat(
                    self.indent@,
                    self.current_indent as nat,
                )));
            }
        }
        w.push(0x29);
        proof {
            assert(w@ =~= old(w)@ + lay_close(
                old(self).layout(),
                (old(self).depth() - 1) as nat,
                old(self).has_value(),
            ) + seq![0x29u8]);
        }
    }

    fn begin_array_value(&mut self, w: &mut Vec<u8>, first: bool) {
        w.push(0x0a);
        indent(w, self.current_indent, self.indent);
        proof {
            assert(w@ =~= old(w)@ + (seq![0x0au8] + spec_repeat(
                self.indent@,
                self.current_indent as nat,
            )));
        }
    }

    fn end_array_value(&mut self, w: &mut Vec<u8>) {
        self.has_value = true;
    }

    fn write_pair_dot(&mut self, w: &mut Vec<u8>) {
        w.push(0x2e);
        w.push(0x20);
        proof {
            assert(w@ =~= old(w)@ + seq![0x2eu8, 0x20u8]);
        }
    }

    fn begin_object(&mut self, w: &mut Vec<u8>) {
        self.current_indent = self.current_indent + 1;
        self.has_value = false;
        w.push(0x28);
        proof {
            assert(w@ =~= old(w)@ + seq![0x28u8]);
        }
    }

    fn end_object(&mut self, w: &mut Vec<u8>) {
        self.current_indent = self.current_indent - 1;
        if self.has_value {
            w.push(0x0a);
            indent(w, self.current_indent, self.indent);
            proof {
                assert(w@ =~= old(w)@ + (seq![0x0au8] + spec_repeat(
                    self.indent@,
                    self.current_indent as nat,
                )));
            }
        }
        w.push(0x29);
        proof {
            assert(w@ =~= old(w)@ + lay_close(
                old(self).layout(),
                (old(self).depth() - 1) as nat,
                old(self).has_value(),
            ) + seq![0x29u8]);
        }
    }

    fn begin_object_key(&mut self, w: &mut Vec<u8>, first: bool) {
        w.push(0x0a);
        indent(w, self.current_indent, self.indent);
        proof {
            assert(w@ =~= old(w)@ + (seq![0x0au8] + spec_repeat(
                self.indent@,
                self.current_indent as nat,
            )));
        }
    }

    fn begin_object_entry(&mut self, w: &mut Vec<u8>) {
        w.push(0x28);
        proof {
            assert(w@ =~= old(w)@ + seq![0x28u8]);
        }
    }

    fn end_object_key(&mut self, w: &mut Vec<u8>) {
    }

    fn begin_object_value(&mut self, w: &mut Vec<u8>) {
        w.push(0x20);
        w.push(0x2e);
        w.push(0x20);
        proof {
            assert(w@ =~= old(w)@ + seq![0x20u8, 0x2eu8, 0x20u8]);
        }
    }

    fn end_object_value(&mut self, w: &mut Vec<u8>) {
        w.push(0x29);
        self.has_value = true;
        proof {
            assert(w@ =~= old(w)@ + seq![0x29u8]);
        }
    }
}

/// The escape class of a byte, as the escape table assigns them: zero when
/// the byte stands for itself.
fn escape_class(b: u8) -> (r: u8)
    ensures
        r == if b == 0x22 {
            QU
        } else if b == 0x5c {
            BS
        } else if b == 0x08 {
            BB
        } else if b == 0x09 {
            TT
        } else if b == 0x0a {
            NN
        } else if b == 0x0c {
            FF
        } else if b == 0x0d {
            RR
        } else if b < 0x20 {
            UU
        } else {
            0u8
        },
{
    if b == 0x22 {
        QU
    } else if b == 0x5c {
        BS
    } else if b == 0x08 {
        BB
    } else if b == 0x09 {
        TT
    } else if b == 0x0a {
        NN
    } else if b == 0x0c {
        FF
    } else if b == 0x0d {
        RR
    } else if b < 0x20 {
        UU
    } else {
        0
    }
}

/// Writes the escaped contents of a string, without the quotes.
fn format_escaped_str_contents<F: Formatter>(w: &mut Vec<u8>, formatter: &mut F, value: &str)
    ensures
        final(w)@ == old(w)@ + spec_escaped(value.spec_bytes()),
        *final(formatter) == *old(formatter),
{
    let bytes = value.as_bytes();
    let n = bytes.len();
    let mut i: usize = 0;
    while i < n
        invariant
            n == bytes@.len(),
            bytes@ == value.spec_bytes(),
            i <= n,
            w@ == old(w)@ + spec_escaped(bytes@.take(i as int)),
            *formatter == *old(formatter),
        decreases n - i,
    {
        let b = bytes[i];
        let escape = escape_class(b);
        if escape == 0 {
            w.push(b);
        } else {
            let ce = CharEscape::from_escape_table(escape, b);
            formatter.write_char_escape(w, ce);
            proof {
                assert(spec_char_escape_bytes(ce) =~= spec_escape_byte(b));
            }
        }
        proof {
            assert(bytes@.take((i + 1) as int) =~= bytes@.take(i as int).push(bytes@[i as int]));
            crate::text::lemma_escaped_push(bytes@.take(i as int), bytes@[i as int]);
            assert(w@ =~= old(w)@ + spec_escaped(bytes@.take((i + 1) as int)));
        }
        i = i + 1;
    }
    proof {
        assert(bytes@.take(n as int) =~= bytes@);
    }
}

/// Writes a string with its quotes and escapes.
fn format_escaped_str<F: Formatter>(w: &mut Vec<u8>, formatter: &mut F, value: &str)
    ensures
        final(w)@ == old(w)@ + seq![0x22u8] + spec_escaped(value.spec_bytes()) + seq![0x22u8],
        *final(formatter) == *old(formatter),
{
    formatter.begin_string(w);
    format_escaped_str_contents(w, formatter, value);
    formatter.end_string(w);
    proof {
        assert(w@ =~= old(w)@ + seq![0x22u8] + spec_escaped(value.spec_bytes()) + seq![0x22u8]);
    }
}

/// A formatter state the serializer accepts: the compact layout tracks no
/// depth.
pub open spec fn fmt_ok<F: Formatter>(f: F) -> bool {
    f.layout() is Compact ==> f.depth() == 0
}

/// The data error every non-string-like map key is rejected with.
pub fn key_must_be_a_string() -> (r: Error)
    ensures
        r@.code == CodeV::KeyMustBeAString,
        r@.line == 0,
        r@.column == 0,
{
    Error::syntax(ErrorCode::KeyMustBeAString, 0, 0)
}

/// A structure for serializing a value tree into S-expression text.
pub struct Serializer<F = CompactFormatter> {
    writer: Vec<u8>,
    formatter: F,
}

impl Serializer<CompactFormatter> {
    /// Creates a new S-expression serializer with the compact layout.
    pub fn new(writer: Vec<u8>) -> (r: Self)
        ensures
            r.out() == writer@,
            r.fmt().layout() == Layout::Compact,
            r.fmt().depth() == 0,
    {
        Serializer::with_formatter(writer, CompactFormatter)
    }
}

impl<'a> Serializer<PrettyFormatter<'a>> {
    /// Creates a new S-expression pretty print serializer.
    pub fn pretty(writer: Vec<u8>) -> (r: Self)
        ensures
            r.out() == writer@,
            r.fmt().layout() == Layout::Pretty(seq![0x20u8, 0x20u8]),
            r.fmt().depth() == 0,
    {
        Serializer::with_formatter(writer, PrettyFormatter::new())
    }
}

impl<F: Formatter> Serializer<F> {
    /// The bytes written so far.
    pub closed spec fn out(&self) -> Seq<u8> {
        self.writer@
    }

    /// The formatter's state.
    pub closed spec fn fmt(&self) -> F {
        self.formatter
    }

    /// Creates an S-expression serializer whose output will be written to
    /// the given buffer through the given formatter.
    pub fn with_formatter(writer: Vec<u8>, formatter: F) -> (r: Self)
        ensures
            r.out() == writer@,
            r.fmt() == formatter,
    {
        Serializer { writer, formatter }
    }

    /// Unwrap the output buffer from the `Serializer`.
    pub fn into_inner(self) -> (r: Vec<u8>)
        ensures
            r@ == self.out(),
    {
        self.writer
    }

    /// Writes a boolean token.
    pub fn serialize_bool(&mut self, value: bool)
        ensures
            final(self).out() == old(self).out() + if value {
                seq![0x23u8, 0x74u8]
            } else {
                seq![0x23u8, 0x66u8]
            },
            final(self).fmt() == old(self).fmt(),
    {
        self.formatter.write_bool(&mut self.writer, value);
    }

    /// Writes the nil token.
    pub fn serialize_unit(&mut self)
        ensures
            final(self).out() == old(self).out() + seq![0x23u8, 0x6eu8, 0x69u8, 0x6cu8],
            final(self).fmt() == old(self).fmt(),
    {
        self.formatter.write_null(&mut self.writer);
    }

    /// Writes an absent optional value as the nil token.
    pub fn serialize_none(&mut self)
        ensures
            final(self).out() == old(self).out() + seq![0x23u8, 0x6eu8, 0x69u8, 0x6cu8],
            final(self).fmt() == old(self).fmt(),
    {
        self.serialize_unit();
    }

    /// Writes an integer in minimal decimal text.
    pub fn serialize_u64(&mut self, value: u64)
        ensures
            final(self).out() == old(self).out() + spec_digits(value as nat),
            final(self).fmt() == old(self).fmt(),
    {
        self.formatter.write_u64(&mut self.writer, value);
    }

    /// Writes an integer in minimal decimal text.
    pub fn serialize_u8(&mut self, value: u8)
        ensures
            final(self).out() == old(self).out() + spec_digits(value as nat),
            final(self).fmt() == old(self).fmt(),
    {
        self.formatter.write_u8(&mut self.writer, value);
    }

    /// Writes an integer in minimal decimal text.
    pub fn serialize_u16(&mut self, value: u16)
        ensures
            final(self).out() == old(self).out() + spec_digits(value as nat),
            final(self).fmt() == old(self).fmt(),
    {
        self.formatter.write_u16(&mut self.writer, value);
    }

    /// Writes an integer in minimal decimal text.
    pub fn serialize_u32(&mut self, value: u32)
        ensures
            final(self).out() == old(self).out() + spec_digits(value as nat),
            final(self).fmt() == old(self).fmt(),
    {
        self.formatter.write_u32(&mut self.writer, value);
    }

    /// Writes an integer in minimal decimal text, with its sign.
    pub fn serialize_i64(&mut self, value: i64)
        ensures
            final(self).out() == old(self).out() + if value < 0 {
                seq![0x2du8] + spec_digits((-(value as int)) as nat)
            } else {
                spec_digits(value as nat)
            },
            final(self).fmt() == old(self).fmt(),
    {
        self.formatter.write_i64(&mut self.writer, value);
    }

    /// Writes an integer in minimal decimal text, with its sign.
    pub fn serialize_i8(&mut self, value: i8)
        ensures
            final(self).out() == old(self).out() + if value < 0 {
                seq![0x2du8] + spec_digits((-(value as int)) as nat)
            } else {
                spec_digits(value as nat)
            },
            final(self).fmt() == old(self).fmt(),
    {
        self.formatter.write_i8(&mut self.writer, value);
    }

    /// Writes an integer in minimal decimal text, with its sign.
    pub fn serialize_i16(&mut self, value: i16)
        ensures
            final(self).out() == old(self).out() + if value < 0 {
                seq![0x2du8] + spec_digits((-(value as int)) as nat)
            } else {
                spec_digits(value as nat)
            },
            final(self).fmt() == old(self).fmt(),
    {
        self.formatter.write_i16(&mut self.writer, value);
    }

    /// Writes an integer in minimal decimal text, with its sign.
    pub fn serialize_i32(&mut self, value: i32)
        ensures
            final(self).out() == old(self).out() + if value < 0 {
                seq![0x2du8] + spec_digits((-(value as int)) as nat)
            } else {
                spec_digits(value as nat)
            },
            final(self).fmt() == old(self).fmt(),
    {
        self.formatter.write_i32(&mut self.writer, value);
    }

    /// Writes a quoted, escaped string.
    pub fn serialize_str(&mut self, value: &str)
        ensures
            final(self).out() == old(self).out() + seq![0x22u8] + spec_escaped(value.spec_bytes())
                + seq![0x22u8],
            final(self).fmt() == old(self).fmt(),
    {
        format_escaped_str(&mut self.writer, &mut self.formatter, value);
    }

    /// Writes a unit enum variant as its quoted name.
    pub fn serialize_unit_variant(&mut self, variant: &str)
        ensures
            final(self).out() == old(self).out() + seq![0x22u8] + spec_escaped(
                variant.spec_bytes(),
            ) + seq![0x22u8],
            final(self).fmt() == old(self).fmt(),
    {
        self.serialize_str(variant);
    }

    /// Writes an atom: a symbol bare, a keyword behind its marker, a string
    /// quoted and escaped.
    pub fn serialize_atom(&mut self, a: &crate::atom::Atom)
        ensures
            final(self).out() == old(self).out() + spec_atom_text(a@),
            final(self).fmt() == old(self).fmt(),
    {
        if a.is_symbol() {
            self.formatter.write_bare_string(&mut self.writer, a.as_str());
        } else if a.is_keyword() {
            self.writer.push(0x23);
            self.writer.push(0x3a);
            self.formatter.write_bare_string(&mut self.writer, a.as_str());
            proof {
                assert(self.out() =~= old(self).out() + spec_atom_text(a@));
            }
        } else {
            format_escaped_str(&mut self.writer, &mut self.formatter, a.as_str());
            proof {
                assert(self.out() =~= old(self).out() + spec_atom_text(a@));
            }
        }
    }

    /// Writes a number in the text form its variant calls for.
    #[verifier::rlimit(80)]
    #[verifier::spinoff_prover]
    pub fn serialize_number(&mut self, n: &Number)
        ensures
            final(self).out() == old(self).out() + spec_number_text(n@),
            final(self).fmt() == old(self).fmt(),
    {
        if let Some((neg, sig, exp)) = n.as_decimal() {
            self.formatter.write_decimal(&mut self.writer, neg, sig, exp);
        } else if n.is_u64() {
            let u = match n.as_u64() {
                Some(u) => u,
                None => 0,
            };
            self.formatter.write_u64(&mut self.writer, u);
        } else {
            let i = match n.as_i64() {
                Some(i) => i,
                None => 0,
            };
            self.formatter.write_i64(&mut self.writer, i);
        }
    }

    /// Writes a value tree in the layout the formatter carries.
    #[verifier::rlimit(80)]
    #[verifier::spinoff_prover]
    pub fn serialize_sexp(&mut self, value: &Sexp)
        requires
            fmt_ok(old(self).fmt()),
            old(self).fmt().depth() + sdepth(value@) <= usize::MAX,
        ensures
            final(self).out() == old(self).out() + spec_encode(
                old(self).fmt().layout(),
                old(self).fmt().depth(),
                value@,
            ),
            final(self).fmt().layout() == old(self).fmt().layout(),
            final(self).fmt().depth() == old(self).fmt().depth(),
        decreases value,
    {
        let ghost l = self.fmt().layout();
        let ghost d = self.fmt().depth();
        match value {
            Sexp::Nil => {
                self.formatter.write_null(&mut self.writer);
            },
            Sexp::Boolean(b) => {
                self.formatter.write_bool(&mut self.writer, *b);
            },
            Sexp::Atom(a) => {
                self.serialize_atom(a);
            },
            Sexp::Number(n) => {
                self.serialize_number(n);
            },
            Sexp::List(es) => {
                proof {
                    crate::sexp::lemma_views_of(es@);
                }
                self.formatter.begin_array(&mut self.writer);
                self.serialize_elements(es);
                self.formatter.end_array(&mut self.writer);
                proof {
                    crate::sexp::lemma_views_of(es@);
                    assert(value@ == SexpV::List(views_of(es@)));
                    assert(views_of(es@).len() == es@.len());
                    assert(self.out() =~= old(self).out() + spec_encode(l, d, value@));
                }
            },
            Sexp::ImproperList(es, t) => {
                proof {
                    crate::sexp::lemma_views_of(es@);
                }
                self.formatter.begin_array(&mut self.writer);
                self.serialize_elements(es);
                self.formatter.begin_array_value(&mut self.writer, false);
                self.formatter.write_pair_dot(&mut self.writer);
                self.serialize_sexp(&**t);
                self.formatter.end_array_value(&mut self.writer);
                self.formatter.end_array(&mut self.writer);
                proof {
                    crate::sexp::lemma_views_of(es@);
                    assert(value@ == SexpV::Improper(views_of(es@), Box::new((**t)@)));
                    assert(self.out() =~= old(self).out() + spec_encode(l, d, value@));
                }
            },
        }
    }

    /// Writes a run of elements, each behind its separator.
    #[verifier::rlimit(80)]
    #[verifier::spinoff_prover]
    fn serialize_elements(&mut self, es: &Vec<Sexp>)
        requires
            old(self).fmt().layout() is Compact ==> old(self).fmt().depth() == 0,
            old(self).fmt().depth() + seq_depth(views_of(es@)) <= usize::MAX,
        ensures
            final(self).out() == old(self).out() + spec_encode_elems(
                old(self).fmt().layout(),
                old(self).fmt().depth(),
                views_of(es@),
                true,
            ),
            final(self).fmt().layout() == old(self).fmt().layout(),
            final(self).fmt().depth() == old(self).fmt().depth(),
            old(self).fmt().layout() is Pretty ==> final(self).fmt().has_value() == (
            old(self).fmt().has_value() || es@.len() > 0),
        decreases es,
    {
        let ghost l = self.fmt().layout();
        let ghost d = self.fmt().depth();
        let n = es.len();
        let mut i: usize = 0;
        while i < n
            invariant
                n == es@.len(),
                i <= n,
                self.fmt().layout() is Compact ==> self.fmt().depth() == 0,
                self.fmt().depth() + seq_depth(views_of(es@)) <= usize::MAX,
                self.out() == old(self).out() + spec_encode_elems(l, d, views_of(es@).take(
                    i as int,
                ), true),
                self.fmt().layout() == l,
                self.fmt().depth() == d,
                l is Pretty ==> self.fmt().has_value() == (old(self).fmt().has_value() || i > 0),
            decreases n - i,
        {
            proof {
                assert(decreases_to!(*es => es@[i as int]));
                crate::sexp::lemma_views_of(es@);
                crate::sexp::lemma_seq_depth_ge(views_of(es@), i as int);
                assert(views_of(es@)[i as int] == es@[i as int]@);
            }
            self.formatter.begin_array_value(&mut self.writer, i == 0);
            self.serialize_sexp(&es[i]);
            self.formatter.end_array_value(&mut self.writer);
            proof {
                crate::sexp::lemma_views_of(es@);
                assert(views_of(es@).take((i + 1) as int) =~= views_of(es@).take(i as int).push(
                    es@[i as int]@,
                ));
                crate::text::lemma_elems_push(l, d, views_of(es@).take(i as int), es@[i as int]@, true);
                assert(self.out() =~= old(self).out() + spec_encode_elems(l, d, views_of(
                    es@,
                ).take((i + 1) as int), true));
            }
            i = i + 1;
        }
        proof {
            crate::sexp::lemma_views_of(es@);
            assert(views_of(es@).take(n as int) =~= views_of(es@));
        }
    }
}


impl<F: Formatter> Serializer<F> {
    /// Writes a string-like key: an atom as itself, an integer as quoted
    /// decimal text.  Booleans, floating values, nil and aggregates are
    /// rejected with a `KeyMustBeAString` data error, and nothing is
    /// written.
    pub fn serialize_key(&mut self, key: &Sexp) -> (r: Result<(), Error>)
        ensures
            r is Ok <==> spec_key_ok(key@),
            r is Ok ==> final(self).out() == old(self).out() + spec_key_text(key@),
            r is Err ==> final(self).out() == old(self).out(),
            r matches Err(e) ==> e@.code == CodeV::KeyMustBeAString,
            final(self).fmt() == old(self).fmt(),
    {
        match key {
            Sexp::Atom(a) => {
                self.serialize_atom(a);
                Ok(())
            },
            Sexp::Number(n) => {
                if n.is_f64() {
                    Err(key_must_be_a_string())
                } else {
                    self.formatter.begin_string(&mut self.writer);
                    self.serialize_number(n);
                    self.formatter.end_string(&mut self.writer);
                    proof {
                        assert(self.out() =~= old(self).out() + spec_key_text(key@));
                    }
                    Ok(())
                }
            },
            _ => Err(key_must_be_a_string()),
        }
    }

    /// Writes an enum variant that carries data, as a pair of the quoted
    /// variant name and the value.
    pub fn serialize_newtype_variant(&mut self, variant: &str, value: &Sexp)
        requires
            fmt_ok(old(self).fmt()),
            old(self).fmt().depth() + sdepth(value@) <= usize::MAX,
        ensures
            final(self).out() == old(self).out() + seq![0x28u8, 0x22u8] + spec_escaped(
                variant.spec_bytes(),
            ) + seq![0x22u8, 0x20u8, 0x2eu8, 0x20u8] + spec_encode(
                old(self).fmt().layout(),
                old(self).fmt().depth(),
                value@,
            ) + seq![0x29u8],
            final(self).fmt().layout() == old(self).fmt().layout(),
            final(self).fmt().depth() == old(self).fmt().depth(),
    {
        self.formatter.begin_object_entry(&mut self.writer);
        self.serialize_str(variant);
        self.formatter.begin_object_value(&mut self.writer);
        self.serialize_sexp(value);
        self.formatter.end_object_value(&mut self.writer);
        proof {
            assert(self.out() =~= old(self).out() + seq![0x28u8, 0x22u8] + spec_escaped(
                variant.spec_bytes(),
            ) + seq![0x22u8, 0x20u8, 0x2eu8, 0x20u8] + spec_encode(
                old(self).fmt().layout(),
                old(self).fmt().depth(),
                value@,
            ) + seq![0x29u8]);
        }
    }

    /// Writes a keyed aggregate from its entries.  Success is owed exactly
    /// when every key is string-like; the first entry with a boolean,
    /// floating, nil or aggregate key is rejected with a `KeyMustBeAString`
    /// data error, whatever the layout.
    #[verifier::rlimit(80)]
    #[verifier::spinoff_prover]
    pub fn serialize_alist(&mut self, entries: &Vec<(Sexp, Sexp)>) -> (r: Result<(), Error>)
        requires
            fmt_ok(old(self).fmt()),
            old(self).fmt().depth() + 1 + entries_depth(entry_views(entries@)) <= usize::MAX,
        ensures
            r is Ok <==> (forall|i: int|
                0 <= i < entries@.len() ==> spec_key_ok(#[trigger] entry_views(entries@)[i].0)),
            r is Ok ==> final(self).out() == old(self).out() + spec_encode_alist(
                old(self).fmt().layout(),
                old(self).fmt().depth(),
                entry_views(entries@),
            ),
            r is Ok ==> final(self).fmt().layout() == old(self).fmt().layout()
                && final(self).fmt().depth() == old(self).fmt().depth(),
            r matches Err(e) ==> e@.code == CodeV::KeyMustBeAString,
    {
        let ghost l = self.fmt().layout();
        let ghost d = self.fmt().depth();
        let ghost evs = entry_views(entries@);
        self.formatter.begin_object(&mut self.writer);
        let n = entries.len();
        let mut i: usize = 0;
        while i < n
            invariant
                n == entries@.len(),
                i <= n,
                evs == entry_views(entries@),
                self.fmt().depth() == lay_bump(l, d),
                self.fmt().layout() == l,
                l is Compact ==> d == 0,
                entries_depth(evs) + lay_bump(l, d) <= usize::MAX,
                self.out() == old(self).out() + seq![0x28u8] + spec_encode_entries(
                    l,
                    lay_bump(l, d),
                    evs.take(i as int),
                    true,
                ),
                l is Pretty ==> self.fmt().has_value() == (i > 0),
                forall|j: int| 0 <= j < i ==> spec_key_ok(#[trigger] evs[j].0),
            decreases n - i,
        {
            self.formatter.begin_object_key(&mut self.writer, i == 0);
            self.formatter.begin_object_entry(&mut self.writer);
            let key_ok = self.serialize_key(&entries[i].0);
            if let Err(e) = key_ok {
                proof {
                    assert(!spec_key_ok(evs[i as int].0));
                }
                return Err(e);
            }
            self.formatter.begin_object_value(&mut self.writer);
            proof {
                crate::sexp::lemma_entries_depth_ge(evs, i as int);
                assert(evs[i as int].1 == entries@[i as int].1@);
            }
            self.serialize_sexp(&entries[i].1);
            self.formatter.end_object_value(&mut self.writer);
            proof {
                assert(evs.take((i + 1) as int) =~= evs.take(i as int).push(evs[i as int]));
                crate::text::lemma_entries_push(l, lay_bump(l, d), evs.take(i as int), evs[i as int], true);
                assert(spec_entry_text(l, lay_bump(l, d), evs[i as int]) =~= seq![0x28u8]
                    + spec_key_text(evs[i as int].0) + seq![0x20u8, 0x2eu8, 0x20u8] + spec_encode(
                    l,
                    lay_bump(l, d),
                    evs[i as int].1,
                ) + seq![0x29u8]);
                assert(self.out() =~= old(self).out() + seq![0x28u8] + spec_encode_entries(
                    l,
                    lay_bump(l, d),
                    evs.take((i + 1) as int),
                    true,
                ));
            }
            i = i + 1;
        }
        proof {
            assert(evs.take(n as int) =~= evs);
        }
        self.formatter.end_object(&mut self.writer);
        proof {
            assert(self.out() =~= old(self).out() + spec_encode_alist(l, d, evs));
        }
        Ok(())
    }
}

/// Serialize the value tree as compact S-expression text, into a byte
/// vector.
pub fn to_vec(value: &Sexp) -> (r: Result<Vec<u8>, Error>)
    requires
        sdepth(value@) <= usize::MAX,
    ensures
        r matches Ok(out) && out@ == spec_encode(Layout::Compact, 0, value@),
{
    let mut ser = Serializer::new(Vec::new());
    ser.serialize_sexp(value);
    Ok(ser.into_inner())
}

/// Serialize the value tree as pretty-printed S-expression text, indented
/// with two spaces, into a byte vector.
pub fn to_vec_pretty(value: &Sexp) -> (r: Result<Vec<u8>, Error>)
    requires
        sdepth(value@) < usize::MAX,
    ensures
        r matches Ok(out) && out@ == spec_encode(Layout::Pretty(seq![0x20u8, 0x20u8]), 0, value@),
{
    let mut ser = Serializer::pretty(Vec::new());
    ser.serialize_sexp(value);
    Ok(ser.into_inner())
}

/// Serialize a keyed aggregate as compact S-expression text, into a byte
/// vector.  Success is owed exactly when every key is string-like.
pub fn to_vec_alist(entries: &Vec<(Sexp, Sexp)>) -> (r: Result<Vec<u8>, Error>)
    requires
        entries_depth(entry_views(entries@)) < usize::MAX,
    ensures
        r is Ok <==> (forall|i: int|
            0 <= i < entries@.len() ==> spec_key_ok(#[trigger] entry_views(entries@)[i].0)),
        r matches Ok(out) ==> out@ == spec_encode_alist(Layout::Compact, 0, entry_views(entries@)),
        r matches Err(e) ==> e@.code == CodeV::KeyMustBeAString,
{
    let mut ser = Serializer::new(Vec::new());
    let done = ser.serialize_alist(entries);
    match done {
        Ok(()) => Ok(ser.into_inner()),
        Err(e) => Err(e),
    }
}

} // verus!
