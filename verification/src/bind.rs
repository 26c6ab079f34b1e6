//! Reading decoded trees into typed shapes: the hooks a visitor-style
//! data-binding layer drives.  A keyed aggregate is a list of entries,
//! each either a pair `(key . value)` or a sequence `(key v1 v2 ...)`
//! standing for `key` mapped to the list of the remaining elements; an
//! enum value is a bare name for a unit variant, or a list `(name
//! payload...)` for a variant with data.

use vstd::prelude::*;
use vstd::utf8::{decode_utf8, encode_utf8};

use crate::atom::{Atom, AtomV};
use crate::error::{CodeV, Error};
use crate::sexp::{lemma_views_of, views_of, Sexp, SexpV};

verus! {

/// The key and value a tree reads as when taken as one entry of a keyed
/// aggregate: a one-head improper list maps its key atom to its tail, a
/// list maps its first atom to the list of the rest.
pub open spec fn spec_entry_of(v: SexpV) -> Option<(AtomV, SexpV)> {
    match v {
        SexpV::Improper(hs, t) => if hs.len() == 1 && hs[0] is Atom {
            Option::Some((hs[0]->Atom_0, *t))
        } else {
            Option::None
        },
        SexpV::List(es) => if es.len() >= 1 && es[0] is Atom {
            Option::Some((es[0]->Atom_0, SexpV::List(es.drop_first())))
        } else {
            Option::None
        },
        _ => Option::None,
    }
}

/// The entries a sequence of trees reads as, when each is a well-shaped
/// entry.
pub open spec fn spec_entries_of(es: Seq<SexpV>) -> Option<Seq<(AtomV, SexpV)>>
    decreases es.len(),
{
    if es.len() == 0 {
        Option::Some(Seq::empty())
    } else {
        match spec_entry_of(es.first()) {
            Option::Some(e) => match spec_entries_of(es.drop_first()) {
                Option::Some(rest) => Option::Some(seq![e] + rest),
                Option::None => Option::None,
            },
            Option::None => Option::None,
        }
    }
}

/// The entries a tree reads as when taken as a keyed aggregate: a list of
/// well-shaped entries.
pub open spec fn spec_alist_entries(v: SexpV) -> Option<Seq<(AtomV, SexpV)>> {
    match v {
        SexpV::List(es) => spec_entries_of(es),
        _ => Option::None,
    }
}

/// The value under the first entry whose key text is `key`.
pub open spec fn spec_lookup(entries: Seq<(AtomV, SexpV)>, key: Seq<char>) -> Option<SexpV>
    decreases entries.len(),
{
    if entries.len() == 0 {
        Option::None
    } else if entries.first().0.text() == key {
        Option::Some(entries.first().1)
    } else {
        spec_lookup(entries.drop_first(), key)
    }
}

/// The variant name and payload a tree reads as when taken as an enum
/// value.
pub open spec fn spec_variant_of(v: SexpV) -> Option<(AtomV, Seq<SexpV>)> {
    match v {
        SexpV::Atom(a) => Option::Some((a, Seq::empty())),
        SexpV::List(es) => if es.len() >= 1 && es[0] is Atom {
            Option::Some((es[0]->Atom_0, es.drop_first()))
        } else {
            Option::None
        },
        _ => Option::None,
    }
}

/// Whether two text slices hold the same characters.
pub fn str_eq(a: &str, b: &str) -> (r: bool)
    ensures
        r == (a@ == b@),
{
    let x = a.as_bytes();
    let y = b.as_bytes();
    if x.len() != y.len() {
        proof {
            vstd::utf8::encode_utf8_decode_utf8(a@);
            vstd::utf8::encode_utf8_decode_utf8(b@);
        }
        return false;
    }
    let n = x.len();
    let mut i: usize = 0;
    while i < n
        invariant
            n == x@.len() == y@.len(),
            x@ == encode_utf8(a@),
            y@ == encode_utf8(b@),
            i <= n,
            forall|j: int| 0 <= j < i ==> x@[j] == y@[j],
        decreases n - i,
    {
        if x[i] != y[i] {
            proof {
                vstd::utf8::encode_utf8_decode_utf8(a@);
                vstd::utf8::encode_utf8_decode_utf8(b@);
                assert(x@ != y@);
            }
            return false;
        }
        i = i + 1;
    }
    proof {
        assert(x@ =~= y@);
        vstd::utf8::encode_utf8_decode_utf8(a@);
        vstd::utf8::encode_utf8_decode_utf8(b@);
    }
    true
}

/// Reads one tree as an entry of a keyed aggregate, if it has the shape of
/// one.
pub fn entry_of(v: &Sexp) -> (r: Option<(Atom, Sexp)>)
    ensures
        r is Some <==> spec_entry_of(v@) is Some,
        r matches Some(p) ==> spec_entry_of(v@) matches Some(q) && p.0@ == q.0 && p.1@ == q.1,
{
    match v {
        Sexp::ImproperList(hs, t) => {
            proof {
                lemma_views_of(hs@);
            }
            if hs.len() == 1 {
                match &hs[0] {
                    Sexp::Atom(a) => Some((a.clone(), (**t).clone())),
                    _ => None,
                }
            } else {
                None
            }
        },
        Sexp::List(es) => {
            proof {
                lemma_views_of(es@);
            }
            if es.len() >= 1 {
                match &es[0] {
                    Sexp::Atom(a) => {
                        let mut tail: Vec<Sexp> = Vec::new();
                        let mut i: usize = 1;
                        while i < es.len()
                            invariant
                                1 <= i <= es@.len(),
                                tail@.len() == i - 1,
                                forall|j: int| 0 <= j < i - 1 ==> tail@[j]@ == es@[j + 1]@,
                            decreases es@.len() - i,
                        {
                            tail.push(es[i].clone());
                            i = i + 1;
                        }
                        proof {
                            lemma_views_of(tail@);
                            lemma_views_of(es@);
                            assert(views_of(tail@) =~= views_of(es@).drop_first());
                        }
                        Some((a.clone(), Sexp::List(tail)))
                    },
                    _ => None,
                }
            } else {
                None
            }
        },
        _ => None,
    }
}

/// One unfolding step of the entry reading of a suffix.
proof fn lemma_entries_of_step(es: Seq<SexpV>, i: int)
    requires
        0 <= i < es.len(),
    ensures
        spec_entries_of(es.skip(i)) == (match spec_entry_of(es[i]) {
            Option::Some(e) => match spec_entries_of(es.skip(i + 1)) {
                Option::Some(rest) => Option::Some(seq![e] + rest),
                Option::None => Option::None::<Seq<(AtomV, SexpV)>>,
            },
            Option::None => Option::None::<Seq<(AtomV, SexpV)>>,
        }),
{
    assert(es.skip(i).first() == es[i]);
    assert(es.skip(i).drop_first() =~= es.skip(i + 1));
}

/// Reads a tree as a keyed aggregate: a list of well-shaped entries.
/// Success is owed exactly when the tree has that shape; anything else is
/// a data error.
pub fn alist_entries(v: &Sexp) -> (r: Result<Vec<(Atom, Sexp)>, Error>)
    ensures
        r is Ok <==> spec_alist_entries(v@) is Some,
        r matches Ok(out) ==> ({
            let es = spec_alist_entries(v@)->Some_0;
            &&& out@.len() == es.len()
            &&& forall|i: int|
                0 <= i < es.len() ==> (#[trigger] out@[i]).0@ == es[i].0 && out@[i].1@ == es[i].1
        }),
        r matches Err(e) ==> e@.code is Message,
    decreases v,
{
    match v {
        Sexp::List(es) => {
            proof {
                lemma_views_of(es@);
            }
            let ghost full = views_of(es@);
            let mut out: Vec<(Atom, Sexp)> = Vec::new();
            let ghost done = Seq::<(AtomV, SexpV)>::empty();
            let n = es.len();
            let mut i: usize = 0;
            proof {
                assert(full.skip(0) =~= full);
            }
            while i < n
                invariant
                    n == es@.len(),
                    i <= n,
                    full == views_of(es@),
                    v@ == SexpV::List(full),
                    full.len() == n,
                    forall|j: int| 0 <= j < n ==> full[j] == es@[j]@,
                    out@.len() == i,
                    spec_entries_of(full) == (match spec_entries_of(full.skip(i as int)) {
                        Option::Some(rest) => Option::Some(done + rest),
                        Option::None => Option::None::<Seq<(AtomV, SexpV)>>,
                    }),
                    done.len() == i,
                    forall|j: int|
                        0 <= j < i ==> (#[trigger] out@[j]).0@ == done[j].0 && out@[j].1@
                            == done[j].1,
                decreases n - i,
            {
                proof {
                    assert(decreases_to!(*es => es@[i as int]));
                    lemma_entries_of_step(full, i as int);
                }
                match entry_of(&es[i]) {
                    Some(p) => {
                        let ghost q = spec_entry_of(full[i as int])->Some_0;
                        out.push(p);
                        proof {
                            assert(spec_entries_of(full) == (
                            match spec_entries_of(full.skip(i + 1)) {
                                Option::Some(rest) => Option::Some((done.push(q)) + rest),
                                Option::None => Option::None::<Seq<(AtomV, SexpV)>>,
                            })) by {
                                if spec_entries_of(full.skip(i + 1)) is Some {
                                    let rest = spec_entries_of(full.skip(i + 1))->Some_0;
                                    assert(done + (seq![q] + rest) =~= (done.push(q)) + rest);
                                }
                            };
                        }
                        proof {
                            done = done.push(q);
                        }
                    },
                    None => {
                        return Err(
                            Error::data("expected an association entry: a pair or a list led by a key".to_owned()),
                        );
                    },
                }
                i = i + 1;
            }
            proof {
                assert(full.skip(n as int) =~= Seq::<SexpV>::empty());
                assert(spec_entries_of(full) == Option::Some(done + Seq::empty()));
                assert(done + Seq::empty() =~= done);
            }
            Ok(out)
        },
        _ => Err(Error::data("expected an association list".to_owned())),
    }
}

/// Looks a key up in a tree taken as a keyed aggregate: the value of the
/// first entry whose key text matches, if any.  Success is owed exactly
/// when the tree has the aggregate shape.
pub fn alist_get(v: &Sexp, key: &str) -> (r: Result<Option<Sexp>, Error>)
    ensures
        r is Ok <==> spec_alist_entries(v@) is Some,
        r matches Ok(o) ==> ({
            let es = spec_alist_entries(v@)->Some_0;
            match spec_lookup(es, key@) {
                Option::Some(val) => o matches Some(x) && x@ == val,
                Option::None => o is None,
            }
        }),
        r matches Err(e) ==> e@.code is Message,
{
    let entries = match alist_entries(v) {
        Ok(entries) => entries,
        Err(e) => {
            return Err(e);
        },
    };
    let ghost es = spec_alist_entries(v@)->Some_0;
    let n = entries.len();
    let mut i: usize = 0;
    proof {
        assert(es.skip(0) =~= es);
    }
    while i < n
        invariant
            n == entries@.len() == es.len(),
            i <= n,
            spec_alist_entries(v@) is Some,
            es == spec_alist_entries(v@)->Some_0,
            forall|j: int|
                0 <= j < n ==> (#[trigger] entries@[j]).0@ == es[j].0 && entries@[j].1@
                    == es[j].1,
            spec_lookup(es, key@) == spec_lookup(es.skip(i as int), key@),
        decreases n - i,
    {
        proof {
            assert(es.skip(i as int).first() == es[i as int]);
            assert(es.skip(i as int).drop_first() =~= es.skip(i as int + 1));
        }
        let hit = str_eq(entries[i].0.as_str(), key);
        if hit {
            return Ok(Some(entries[i].1.clone()));
        }
        i = i + 1;
    }
    proof {
        assert(es.skip(n as int) =~= Seq::<(AtomV, SexpV)>::empty());
    }
    Ok(None)
}

/// Reads a tree as an enum value: a bare name for a unit variant, or a
/// list led by the variant name with the payload behind it.  Success is
/// owed exactly when the tree has one of those shapes.
pub fn enum_variant(v: &Sexp) -> (r: Result<(Atom, Vec<Sexp>), Error>)
    ensures
        r is Ok <==> spec_variant_of(v@) is Some,
        r matches Ok(p) ==> ({
            let q = spec_variant_of(v@)->Some_0;
            &&& p.0@ == q.0
            &&& views_of(p.1@) == q.1
        }),
        r matches Err(e) ==> e@.code is Message,
{
    match v {
        Sexp::Atom(a) => {
            let payload: Vec<Sexp> = Vec::new();
            proof {
                lemma_views_of(payload@);
                assert(views_of(payload@) =~= Seq::<SexpV>::empty());
            }
            Ok((a.clone(), payload))
        },
        Sexp::List(es) => {
            proof {
                lemma_views_of(es@);
            }
            if es.len() >= 1 {
                match &es[0] {
                    Sexp::Atom(a) => {
                        let mut payload: Vec<Sexp> = Vec::new();
                        let mut i: usize = 1;
                        while i < es.len()
                            invariant
                                1 <= i <= es@.len(),
                                payload@.len() == i - 1,
                                forall|j: int| 0 <= j < i - 1 ==> payload@[j]@ == es@[j + 1]@,
                            decreases es@.len() - i,
                        {
                            payload.push(es[i].clone());
                            i = i + 1;
                        }
                        proof {
                            lemma_views_of(payload@);
                            lemma_views_of(es@);
                            assert(views_of(payload@) =~= views_of(es@).drop_first());
                        }
                        Ok((a.clone(), payload))
                    },
                    _ => Err(Error::data("expected a variant name".to_owned())),
                }
            } else {
                Err(Error::data("expected a variant name".to_owned()))
            }
        },
        _ => Err(Error::data("expected an enum value".to_owned())),
    }
}

} // verus!
