//! The `Sexp` enum, a loosely typed way of representing any S-expression
//! value as a finite tree.

use vstd::prelude::*;

use crate::atom::{Atom, AtomV};
use crate::number::{Number, NumberV};

verus! {

/// The mathematical model of a [`Sexp`] tree.
#[verifier::ext_equal]
pub enum SexpV {
    /// The nil value.
    Nil,
    /// A symbol, keyword or string leaf.
    Atom(AtomV),
    /// A number leaf.
    Number(NumberV),
    /// A boolean leaf.
    Boolean(bool),
    /// An improper list: head elements followed by a non-list tail.
    Improper(Seq<SexpV>, Box<SexpV>),
    /// A proper list of elements.
    List(Seq<SexpV>),
}

/// The element-wise model of a sequence of [`Sexp`] values.
pub open spec fn views_of(es: Seq<Sexp>) -> Seq<SexpV>
    decreases es,
{
    if es.len() == 0 {
        Seq::empty()
    } else {
        views_of(es.drop_last()).push(es.last()@)
    }
}

/// Represents any S-expression value.
#[derive(Debug)]
pub enum Sexp {
    /// The nil value, written `#nil`.
    Nil,
    /// A symbol, keyword or string.
    Atom(Atom),
    /// A number, whether integer or floating point.
    Number(Number),
    /// A boolean, written `#t` or `#f`.
    Boolean(bool),
    /// An improper list: a sequence of head elements and an explicit tail
    /// that is not itself a list.  A pair is the one-head-element case.
    ImproperList(Vec<Sexp>, Box<Sexp>),
    /// A proper list of elements.
    List(Vec<Sexp>),
}

impl View for Sexp {
    type V = SexpV;

    open spec fn view(&self) -> SexpV
        decreases self,
    {
        match self {
            Sexp::Nil => SexpV::Nil,
            Sexp::Atom(a) => SexpV::Atom(a@),
            Sexp::Number(n) => SexpV::Number(n@),
            Sexp::Boolean(b) => SexpV::Boolean(*b),
            Sexp::ImproperList(es, t) => SexpV::Improper(views_of(es@), Box::new((**t)@)),
            Sexp::List(es) => SexpV::List(views_of(es@)),
        }
    }
}

impl Clone for Sexp {
    fn clone(&self) -> (r: Self)
        ensures
            r@ == self@,
        decreases self,
    {
        match self {
            Sexp::Nil => Sexp::Nil,
            Sexp::Atom(a) => Sexp::Atom(a.clone()),
            Sexp::Number(n) => Sexp::Number(*n),
            Sexp::Boolean(b) => Sexp::Boolean(*b),
            Sexp::ImproperList(es, t) => {
                let copy = clone_elements(es);
                let tail = Box::new((**t).clone());
                proof {
                    lemma_views_of(copy@);
                    lemma_views_of(es@);
                    assert(views_of(copy@) =~= views_of(es@));
                }
                Sexp::ImproperList(copy, tail)
            },
            Sexp::List(es) => {
                let copy = clone_elements(es);
                proof {
                    lemma_views_of(copy@);
                    lemma_views_of(es@);
                    assert(views_of(copy@) =~= views_of(es@));
                }
                Sexp::List(copy)
            },
        }
    }
}

fn clone_elements(es: &Vec<Sexp>) -> (r: Vec<Sexp>)
    ensures
        r@.len() == es@.len(),
        forall|j: int| 0 <= j < es@.len() ==> r@[j]@ == es@[j]@,
    decreases es,
{
    let mut copy: Vec<Sexp> = Vec::new();
    let mut i: usize = 0;
    while i < es.len()
        invariant
            i <= es.len(),
            copy@.len() == i as int,
            forall|j: int| 0 <= j < i ==> copy@[j]@ == es@[j]@,
        decreases es@.len() - i,
    {
        proof {
            assert(decreases_to!(*es => es@[i as int]));
        }
        copy.push(es[i].clone());
        i = i + 1;
    }
    copy
}


/// A letter, as the grammar uses the word: an ASCII alphabetic character.
pub open spec fn letter_char(c: char) -> bool {
    ('a' <= c && c <= 'z') || ('A' <= c && c <= 'Z')
}

/// A character that may stand inside a bare symbol or keyword name: a
/// letter, a digit, or one of the symbol punctuation characters.
pub open spec fn symbol_char(c: char) -> bool {
    letter_char(c) || ('0' <= c && c <= '9') || c == '!' || c == '$' || c == '%' || c == '&' || c
        == '*' || c == '+' || c == '-' || c == '/' || c == ':' || c == '<' || c == '=' || c == '>'
        || c == '?' || c == '@' || c == '^' || c == '_' || c == '~'
}

/// A well-formed bare name: nonempty, starting with a letter, made of
/// symbol characters.
pub open spec fn wf_name(s: Seq<char>) -> bool {
    s.len() >= 1 && letter_char(s[0]) && forall|i: int| 0 <= i < s.len() ==> symbol_char(s[i])
}

/// Well-formedness of an atom: symbol and keyword payloads follow the bare
/// name grammar; string payloads are arbitrary text.
pub open spec fn wf_atom(a: AtomV) -> bool {
    match a {
        AtomV::Symbol(s) => wf_name(s),
        AtomV::Keyword(s) => wf_name(s),
        AtomV::Text(_) => true,
    }
}

/// Well-formedness of a value tree: atoms and numbers are well formed, and
/// an improper list has at least one head element and a tail that is a leaf
/// other than nil, so that the tree is in its canonical shape.
pub open spec fn wf_sexp(v: SexpV) -> bool
    decreases v,
{
    match v {
        SexpV::Nil => true,
        SexpV::Atom(a) => wf_atom(a),
        SexpV::Number(n) => crate::number::number_wf(n),
        SexpV::Boolean(_) => true,
        SexpV::Improper(hs, t) => hs.len() >= 1 && (forall|i: int|
            0 <= i < hs.len() ==> wf_sexp(#[trigger] hs[i])) && wf_sexp(*t) && !(*t is List) && !(
        *t is Improper) && !(*t is Nil),
        SexpV::List(es) => forall|i: int| 0 <= i < es.len() ==> wf_sexp(#[trigger] es[i]),
    }
}

/// True when no floating-point number occurs anywhere in the tree.
pub open spec fn float_free(v: SexpV) -> bool
    decreases v,
{
    match v {
        SexpV::Nil => true,
        SexpV::Atom(_) => true,
        SexpV::Number(n) => !(n is Float),
        SexpV::Boolean(_) => true,
        SexpV::Improper(hs, t) => (forall|i: int|
            0 <= i < hs.len() ==> float_free(#[trigger] hs[i])) && float_free(*t),
        SexpV::List(es) => forall|i: int| 0 <= i < es.len() ==> float_free(#[trigger] es[i]),
    }
}

/// The nesting depth of a value: the number of aggregates open while the
/// innermost leaf is read.
pub open spec fn sdepth(v: SexpV) -> nat
    decreases v,
{
    match v {
        SexpV::Nil => 0,
        SexpV::Atom(_) => 0,
        SexpV::Number(_) => 0,
        SexpV::Boolean(_) => 0,
        SexpV::Improper(hs, t) => 1 + if seq_depth(hs) >= sdepth(*t) {
            seq_depth(hs)
        } else {
            sdepth(*t)
        },
        SexpV::List(es) => 1 + seq_depth(es),
    }
}

/// The greatest nesting depth among a sequence of values.
pub open spec fn seq_depth(es: Seq<SexpV>) -> nat
    decreases es,
{
    if es.len() == 0 {
        0
    } else {
        let rest = seq_depth(es.drop_first());
        if sdepth(es.first()) >= rest {
            sdepth(es.first())
        } else {
            rest
        }
    }
}



/// The element-wise model of a sequence of key/value pairs.
pub open spec fn entry_views(es: Seq<(Sexp, Sexp)>) -> Seq<(SexpV, SexpV)> {
    Seq::new(
        es.len(),
        |i: int|
            if 0 <= i < es.len() {
                (es[i].0@, es[i].1@)
            } else {
                (SexpV::Nil, SexpV::Nil)
            },
    )
}

/// The greatest nesting depth among the values of a sequence of entries.
pub open spec fn entries_depth(es: Seq<(SexpV, SexpV)>) -> nat
    decreases es.len(),
{
    if es.len() == 0 {
        0
    } else {
        let rest = entries_depth(es.drop_first());
        if sdepth(es.first().1) >= rest {
            sdepth(es.first().1)
        } else {
            rest
        }
    }
}

/// An entry value's nesting depth never exceeds its sequence's.
pub proof fn lemma_entries_depth_ge(es: Seq<(SexpV, SexpV)>, i: int)
    requires
        0 <= i < es.len(),
    ensures
        entries_depth(es) >= sdepth(es[i].1),
    decreases es.len(),
{
    if i == 0 {
        assert(es.first() == es[0]);
    } else {
        lemma_entries_depth_ge(es.drop_first(), i - 1);
        assert(es.drop_first()[i - 1] == es[i]);
    }
}

/// An element's nesting depth never exceeds its sequence's.
pub proof fn lemma_seq_depth_ge(es: Seq<SexpV>, i: int)
    requires
        0 <= i < es.len(),
    ensures
        seq_depth(es) >= sdepth(es[i]),
    decreases es.len(),
{
    if i == 0 {
        assert(es.first() == es[0]);
    } else {
        lemma_seq_depth_ge(es.drop_first(), i - 1);
        assert(es.drop_first()[i - 1] == es[i]);
    }
}

impl Sexp {
    /// Builds a single association entry: a pair of a key atom and a value.
    pub fn new_entry(key: Atom, value: Sexp) -> (r: Sexp)
        ensures
            r@ == SexpV::Improper(seq![SexpV::Atom(key@)], Box::new(value@)),
    {
        let mut heads: Vec<Sexp> = Vec::new();
        heads.push(Sexp::Atom(key));
        let r = Sexp::ImproperList(heads, Box::new(value));
        proof {
            lemma_views_of(r->ImproperList_0@);
            assert(views_of(r->ImproperList_0@) =~= seq![SexpV::Atom(key@)]);
        }
        r
    }

    /// Builds an improper list from its head elements and its tail.
    pub fn new_improper_list(elements: Vec<Sexp>, rest: Sexp) -> (r: Sexp)
        ensures
            r@ == SexpV::Improper(views_of(elements@), Box::new(rest@)),
    {
        Sexp::ImproperList(elements, Box::new(rest))
    }

    /// Builds a symbol leaf.
    pub fn new_symbol(name: String) -> (r: Sexp)
        ensures
            r@ == SexpV::Atom(AtomV::Symbol(name@)),
    {
        Sexp::Atom(Atom::new_symbol(name))
    }

    /// Builds a keyword leaf.
    pub fn new_keyword(name: String) -> (r: Sexp)
        ensures
            r@ == SexpV::Atom(AtomV::Keyword(name@)),
    {
        Sexp::Atom(Atom::new_keyword(name))
    }

    /// Builds a string leaf.
    pub fn new_string(text: String) -> (r: Sexp)
        ensures
            r@ == SexpV::Atom(AtomV::Text(text@)),
    {
        Sexp::Atom(Atom::new_string(text))
    }

    /// Builds a proper list from its elements.
    pub fn new_list(elements: Vec<Sexp>) -> (r: Sexp)
        ensures
            r@ == SexpV::List(views_of(elements@)),
    {
        Sexp::List(elements)
    }
}

impl PartialEq for Sexp {
    fn eq(&self, other: &Sexp) -> (r: bool)
        decreases self,
    {
        match self {
            Sexp::Nil => match other {
                Sexp::Nil => true,
                _ => false,
            },
            Sexp::Atom(a) => match other {
                Sexp::Atom(o) => *a == *o,
                _ => false,
            },
            Sexp::Number(n) => match other {
                Sexp::Number(o) => {
                    let r = *n == *o;
                    proof {
                        if n@ == o@ {
                            crate::number::lemma_number_view_injective(*n, *o);
                        }
                    }
                    r
                },
                _ => false,
            },
            Sexp::Boolean(b) => match other {
                Sexp::Boolean(o) => *b == *o,
                _ => false,
            },
            Sexp::ImproperList(es, t) => match other {
                Sexp::ImproperList(os, ot) => {
                    let heads_eq = eq_elements(es, os);
                    heads_eq && (**t).eq(&**ot)
                },
                _ => false,
            },
            Sexp::List(es) => match other {
                Sexp::List(os) => eq_elements(es, os),
                _ => false,
            },
        }
    }
}

/// What [`views_of`] holds of every sequence: one model per element.
pub proof fn lemma_views_of(es: Seq<Sexp>)
    ensures
        views_of(es).len() == es.len(),
        forall|i: int| 0 <= i < es.len() ==> views_of(es)[i] == es[i]@,
    decreases es.len(),
{
    if es.len() > 0 {
        lemma_views_of(es.drop_last());
        assert(views_of(es) == views_of(es.drop_last()).push(es.last()@));
        assert(views_of(es).len() == es.len());
        assert(forall|i: int| 0 <= i < es.len() - 1 ==> es.drop_last()[i] == es[i]);
        assert(es.last() == es[es.len() - 1]);
        assert(forall|i: int| 0 <= i < es.len() ==> views_of(es)[i] == es[i]@);
    } else {
        assert(views_of(es).len() == 0);
    }
}




fn eq_elements(es: &Vec<Sexp>, os: &Vec<Sexp>) -> (r: bool)
    ensures
        r == (views_of(es@) == views_of(os@)),
    decreases es,
{
    proof {
        lemma_views_of(es@);
        lemma_views_of(os@);
    }
    if es.len() != os.len() {
        return false;
    }
    let mut i: usize = 0;
    while i < es.len()
        invariant
            es@.len() == os@.len(),
            i <= es.len(),
            forall|j: int| 0 <= j < i ==> views_of(es@)[j] == views_of(os@)[j],
        decreases es@.len() - i,
    {
        proof {
            assert(decreases_to!(*es => es@[i as int]));
            lemma_views_of(es@);
            lemma_views_of(os@);
        }
        let elt_eq = es[i].eq(&os[i]);
        if !elt_eq {
            proof {
                assert(views_of(es@)[i as int] != views_of(os@)[i as int]);
            }
            return false;
        }
        i = i + 1;
    }
    proof {
        lemma_views_of(es@);
        lemma_views_of(os@);
        assert(views_of(es@) =~= views_of(os@));
    }
    true
}

impl vstd::std_specs::cmp::PartialEqSpecImpl for Sexp {
    open spec fn obeys_eq_spec() -> bool {
        true
    }

    open spec fn eq_spec(&self, other: &Sexp) -> bool {
        self@ == other@
    }
}

impl Eq for Sexp {}

impl From<bool> for Sexp {
    fn from(v: bool) -> (r: Sexp) {
        Sexp::Boolean(v)
    }
}

impl vstd::std_specs::convert::FromSpecImpl<bool> for Sexp {
    open spec fn obeys_from_spec() -> bool {
        true
    }

    open spec fn from_spec(v: bool) -> Sexp {
        Sexp::Boolean(v)
    }
}

impl From<u64> for Sexp {
    fn from(v: u64) -> (r: Sexp) {
        Sexp::Number(Number::from(v))
    }
}

impl vstd::std_specs::convert::FromSpecImpl<u64> for Sexp {
    open spec fn obeys_from_spec() -> bool {
        true
    }

    closed spec fn from_spec(v: u64) -> Sexp {
        Sexp::Number(<Number as vstd::std_specs::convert::FromSpec<u64>>::from_spec(v))
    }
}

impl From<i64> for Sexp {
    fn from(v: i64) -> (r: Sexp) {
        Sexp::Number(Number::from(v))
    }
}

impl vstd::std_specs::convert::FromSpecImpl<i64> for Sexp {
    open spec fn obeys_from_spec() -> bool {
        true
    }

    closed spec fn from_spec(v: i64) -> Sexp {
        Sexp::Number(<Number as vstd::std_specs::convert::FromSpec<i64>>::from_spec(v))
    }
}

impl From<Number> for Sexp {
    fn from(v: Number) -> (r: Sexp) {
        Sexp::Number(v)
    }
}

impl vstd::std_specs::convert::FromSpecImpl<Number> for Sexp {
    open spec fn obeys_from_spec() -> bool {
        true
    }

    open spec fn from_spec(v: Number) -> Sexp {
        Sexp::Number(v)
    }
}

impl From<Atom> for Sexp {
    fn from(v: Atom) -> (r: Sexp)
        ensures
            r@ == SexpV::Atom(v@),
    {
        Sexp::Atom(v)
    }
}

impl vstd::std_specs::convert::FromSpecImpl<Atom> for Sexp {
    open spec fn obeys_from_spec() -> bool {
        true
    }

    open spec fn from_spec(v: Atom) -> Sexp {
        Sexp::Atom(v)
    }
}

} // verus!
