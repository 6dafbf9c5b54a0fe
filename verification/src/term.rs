//! Runtime terms as the interpreter sees them: atoms are interned
//! identifiers, integers are fixed-width values, lists carry an explicit
//! improper tail, as Erlang terms do. The mathematical model of a term is
//! `TermV`, a mirror over `Seq` and `int`.

use vstd::prelude::*;

verus! {

broadcast use
    vstd::std_specs::vec::axiom_vec_index_decreases,
    vstd::std_specs::vec::axiom_vec_decreases_to_view,
    vstd::seq::axiom_seq_index_decreases,
    vstd::seq::axiom_seq_subrange_decreases;

/// A process identifier.
#[derive(Clone, Copy, PartialEq, Eq, Structural, Debug)]
pub struct Pid(pub usize);

/// A runtime value.
#[derive(Debug)]
pub enum Term {
    Nil,
    /// An interned atom identifier.
    Atom(usize),
    Integer(i128),
    /// A list segment: the eagerly known head elements and the tail term.
    List(Vec<Term>, Box<Term>),
    Tuple(Vec<Term>),
    /// Multiple values flowing as one, as a call result does.
    ValueList(Vec<Term>),
}

/// The mathematical shape of a term.
pub enum TermV {
    Nil,
    Atom(int),
    Integer(int),
    List(Seq<TermV>, Box<TermV>),
    Tuple(Seq<TermV>),
    ValueList(Seq<TermV>),
}

/// The model of a term: its mathematical shape.
pub open spec fn term_view(t: Term) -> TermV
    decreases t, 1int,
{
    match t {
        Term::Nil => TermV::Nil,
        Term::Atom(a) => TermV::Atom(a as int),
        Term::Integer(i) => TermV::Integer(i as int),
        Term::List(head, tail) => TermV::List(terms_view(head@), Box::new(term_view(*tail))),
        Term::Tuple(entries) => TermV::Tuple(terms_view(entries@)),
        Term::ValueList(entries) => TermV::ValueList(terms_view(entries@)),
    }
}

/// The elementwise model of a term sequence.
pub open spec fn terms_view(s: Seq<Term>) -> Seq<TermV>
    decreases s, 0int,
{
    if s.len() == 0 {
        Seq::empty()
    } else {
        terms_view(s.drop_last()).push(term_view(s.last()))
    }
}

/// A term sequence's model has the same length.
pub broadcast proof fn lemma_terms_view_len(s: Seq<Term>)
    ensures
        #[trigger] terms_view(s).len() == s.len(),
    decreases s.len(),
{
    if s.len() > 0 {
        lemma_terms_view_len(s.drop_last());
    }
}

/// A term sequence's model is the elementwise model.
pub broadcast proof fn lemma_terms_view_index(s: Seq<Term>, i: int)
    requires
        0 <= i < s.len(),
    ensures
        #[trigger] terms_view(s)[i] == term_view(s[i]),
    decreases s.len(),
{
    lemma_terms_view_len(s);
    if s.len() > 0 && i < s.len() - 1 {
        lemma_terms_view_index(s.drop_last(), i);
    }
}

/// A deep copy of a term: the model is preserved.
pub fn clone_term(t: &Term) -> (r: Term)
    ensures
        term_view(r) == term_view(*t),
    decreases *t,
{
    match t {
        Term::Nil => Term::Nil,
        Term::Atom(a) => Term::Atom(*a),
        Term::Integer(i) => Term::Integer(*i),
        Term::List(head, tail) => {
            let new_head = clone_terms(head);
            let new_tail = clone_term(&**tail);
            let r = Term::List(new_head, Box::new(new_tail));
            proof {
                assert(term_view(r) =~~= term_view(*t));
            }
            r
        },
        Term::Tuple(entries) => {
            let cloned_entries = clone_terms(entries);
            let r = Term::Tuple(cloned_entries);
            proof {
                assert(term_view(r) =~~= term_view(*t));
            }
            r
        },
        Term::ValueList(entries) => {
            let cloned_entries = clone_terms(entries);
            let r = Term::ValueList(cloned_entries);
            proof {
                assert(term_view(r) =~~= term_view(*t));
            }
            r
        },
    }
}

/// A deep copy of a term vector: the elementwise model is preserved.
pub fn clone_terms(v: &Vec<Term>) -> (r: Vec<Term>)
    ensures
        terms_view(r@) == terms_view(v@),
        r@.len() == v@.len(),
        forall|i: int| 0 <= i < v@.len() ==> term_view(#[trigger] r@[i]) == term_view(v@[i]),
    decreases *v,
{
    let n = v.len();
    let mut out: Vec<Term> = Vec::new();
    let mut i: usize = 0;
    while i < n
        invariant
            i <= n,
            n == v@.len(),
            out@.len() == i,
            forall|k: int| 0 <= k < i ==> term_view(#[trigger] out@[k]) == term_view(v@[k]),
        decreases n - i,
    {
        out.push(clone_term(&v[i]));
        i += 1;
    }
    proof {
        lemma_terms_view_len(out@);
        lemma_terms_view_len(v@);
        assert forall|k: int| 0 <= k < v@.len() implies terms_view(out@)[k] == terms_view(
            v@,
        )[k] by {
            lemma_terms_view_index(out@, k);
            lemma_terms_view_index(v@, k);
        }
        assert(terms_view(out@) =~= terms_view(v@));
    }
    out
}

} // verus!
