//! The `Atom` leaf value: a symbol, keyword or string, each wrapping a text
//! payload.

use vstd::prelude::*;
use vstd::string::StrSliceExecFns;

verus! {

/// The mathematical model of an [`Atom`]: the kind tag together with the
/// payload text as a sequence of characters.
#[verifier::ext_equal]
pub enum AtomV {
    /// A bare symbol.
    Symbol(Seq<char>),
    /// A keyword, written `#:name` in text; the payload excludes the marker.
    Keyword(Seq<char>),
    /// A quoted string; the payload excludes the quotes.
    Text(Seq<char>),
}

impl AtomV {
    /// The payload text, regardless of kind.
    pub open spec fn text(self) -> Seq<char> {
        match self {
            AtomV::Symbol(s) => s,
            AtomV::Keyword(s) => s,
            AtomV::Text(s) => s,
        }
    }
}

/// How a bare text token is classified when an atom is built from it:
/// a `#:` prefix marks a keyword (marker stripped), matching quotes on both
/// ends mark a string (quotes stripped), anything else is a symbol.
pub open spec fn spec_discriminate(s: Seq<char>) -> AtomV {
    if s.len() >= 2 && s[0] == '#' && s[1] == ':' {
        AtomV::Keyword(s.subrange(2, s.len() as int))
    } else if s.len() >= 2 && ((s[0] == '"' && s[s.len() - 1] == '"') || (s[0] == '\'' && s[s.len()
        - 1] == '\'')) {
        AtomV::Text(s.subrange(1, s.len() - 1))
    } else {
        AtomV::Symbol(s)
    }
}

#[derive(Debug)]
enum A {
    Symbol(String),
    Keyword(String),
    Text(String),
}

/// Represents a Sexp atom, whether symbol, keyword or string.
#[derive(Debug)]
pub struct Atom {
    a: A,
}

impl View for Atom {
    type V = AtomV;

    closed spec fn view(&self) -> AtomV {
        match self.a {
            A::Symbol(s) => AtomV::Symbol(s@),
            A::Keyword(s) => AtomV::Keyword(s@),
            A::Text(s) => AtomV::Text(s@),
        }
    }
}

impl Clone for Atom {
    fn clone(&self) -> (r: Self)
        ensures
            r@ == self@,
    {
        match &self.a {
            A::Symbol(s) => Atom { a: A::Symbol(s.clone()) },
            A::Keyword(s) => Atom { a: A::Keyword(s.clone()) },
            A::Text(s) => Atom { a: A::Text(s.clone()) },
        }
    }
}

impl PartialEq for Atom {
    fn eq(&self, other: &Atom) -> (r: bool) {
        match &self.a {
            A::Symbol(s) => match &other.a {
                A::Symbol(o) => *s == *o,
                _ => false,
            },
            A::Keyword(s) => match &other.a {
                A::Keyword(o) => *s == *o,
                _ => false,
            },
            A::Text(s) => match &other.a {
                A::Text(o) => *s == *o,
                _ => false,
            },
        }
    }
}

impl vstd::std_specs::cmp::PartialEqSpecImpl for Atom {
    open spec fn obeys_eq_spec() -> bool {
        true
    }

    open spec fn eq_spec(&self, other: &Atom) -> bool {
        self@ == other@
    }
}

impl Eq for Atom {}

impl Atom {
    /// True if the atom is a symbol.
    pub fn is_symbol(&self) -> (r: bool)
        ensures
            r == self@ is Symbol,
    {
        match self.a {
            A::Symbol(_) => true,
            A::Keyword(_) => false,
            A::Text(_) => false,
        }
    }

    /// True if the atom is a keyword.
    pub fn is_keyword(&self) -> (r: bool)
        ensures
            r == self@ is Keyword,
    {
        match self.a {
            A::Symbol(_) => false,
            A::Keyword(_) => true,
            A::Text(_) => false,
        }
    }

    /// True if the atom is a string.
    pub fn is_string(&self) -> (r: bool)
        ensures
            r == self@ is Text,
    {
        match self.a {
            A::Symbol(_) => false,
            A::Keyword(_) => false,
            A::Text(_) => true,
        }
    }

    /// Builds a string atom holding `s`.
    pub fn new_string(s: String) -> (r: Self)
        ensures
            r@ == AtomV::Text(s@),
    {
        Atom { a: A::Text(s) }
    }

    /// Builds a symbol atom holding `s`.
    pub fn new_symbol(s: String) -> (r: Self)
        ensures
            r@ == AtomV::Symbol(s@),
    {
        Atom { a: A::Symbol(s) }
    }

    /// Builds a keyword atom holding `s`.
    pub fn new_keyword(s: String) -> (r: Self)
        ensures
            r@ == AtomV::Keyword(s@),
    {
        Atom { a: A::Keyword(s) }
    }

    /// Returns an atom appropriate for its contents: a leading `#:` makes a
    /// keyword, matching quotes on both ends make a string, anything else a
    /// symbol.
    pub fn discriminate(s: String) -> (r: Self)
        ensures
            r@ == spec_discriminate(s@),
    {
        let n = s.as_str().unicode_len();
        if n >= 2 && s.as_str().get_char(0) == '#' && s.as_str().get_char(1) == ':' {
            let payload = s.as_str().substring_char(2, n);
            Atom { a: A::Keyword(payload.to_owned()) }
        } else if n >= 2 && ((s.as_str().get_char(0) == '"' && s.as_str().get_char(n - 1) == '"')
            || (s.as_str().get_char(0) == '\'' && s.as_str().get_char(n - 1) == '\'')) {
            let payload = s.as_str().substring_char(1, n - 1);
            Atom { a: A::Text(payload.to_owned()) }
        } else {
            Atom { a: A::Symbol(s) }
        }
    }

    /// Classifies a borrowed token, as [`Atom::discriminate`] does.
    pub fn from_str(s: &str) -> (r: Self)
        ensures
            r@ == spec_discriminate(s@),
    {
        Atom::discriminate(s.to_owned())
    }

    /// Classifies an owned token, as [`Atom::discriminate`] does.
    pub fn from_string(s: String) -> (r: Self)
        ensures
            r@ == spec_discriminate(s@),
    {
        Atom::discriminate(s)
    }

    /// Borrows the payload text.
    pub fn as_str(&self) -> (r: &str)
        ensures
            r@ == self@.text(),
    {
        match &self.a {
            A::Symbol(s) => s.as_str(),
            A::Keyword(s) => s.as_str(),
            A::Text(s) => s.as_str(),
        }
    }

    /// Copies the payload text.
    pub fn as_string(&self) -> (r: String)
        ensures
            r@ == self@.text(),
    {
        let s = match &self.a {
            A::Symbol(s) => s,
            A::Keyword(s) => s,
            A::Text(s) => s,
        };
        s.clone()
    }
}

} // verus!
