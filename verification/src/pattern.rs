//! Pattern matching of runtime terms against clause patterns, and the state
//! machine a match/guard/body sequence steps through.

use vstd::prelude::*;

use crate::assoc::AssocMap;
use crate::term::{clone_term, term_view, Term, TermV};

verus! {

broadcast use
    vstd::std_specs::vec::axiom_vec_index_decreases,
    vstd::std_specs::vec::axiom_vec_decreases_to_view,
    vstd::seq::axiom_seq_index_decreases,
    vstd::seq::axiom_seq_subrange_decreases;

/// An atomic literal a pattern can match against.
#[derive(Clone, Copy, PartialEq, Eq, Structural, Debug)]
pub enum AtomicLiteral {
    Nil,
    Atom(usize),
    Integer(i128),
}

/// One node of a pattern tree.
#[derive(Debug)]
pub enum PatternNode {
    /// Matches anything.
    Wildcard,
    /// Binds the matched term to a named variable, then matches the inner
    /// node.
    BindVar(usize, Box<PatternNode>),
    /// Matches a list: element patterns for the head, a pattern for the
    /// rest.
    List(Vec<PatternNode>, Box<PatternNode>),
    /// Matches a tuple of exactly as many elements.
    Tuple(Vec<PatternNode>),
    /// Matches one atomic literal.
    Atomic(AtomicLiteral),
}

/// A pattern with its variable-name-to-SSA bindings.
#[derive(Debug)]
pub struct Pattern {
    pub binds: Vec<(usize, usize)>,
    pub node: PatternNode,
}

/// One clause of a case construct: a pattern per matched value.
#[derive(Debug)]
pub struct Clause {
    pub patterns: Vec<Pattern>,
}

// ----------------------------------------------------------------------
// The mathematical account of matching.
// ----------------------------------------------------------------------

/// The SSA variable a pattern variable name resolves to: the first entry of
/// the bind table carrying the name.
pub open spec fn br_resolve(br: Seq<(usize, usize)>, name: usize) -> usize
    decreases br.len(),
{
    if br.len() == 0 {
        0
    } else if br[0].0 == name {
        br[0].1
    } else {
        br_resolve(br.skip(1), name)
    }
}

/// Whether a pattern variable name occurs in the bind table.
pub open spec fn br_contains(br: Seq<(usize, usize)>, name: usize) -> bool {
    exists|i: int| 0 <= i < br.len() && (#[trigger] br[i]).0 == name
}

/// Every variable the pattern binds occurs in the bind table.
pub open spec fn binds_ok(n: PatternNode, br: Seq<(usize, usize)>) -> bool
    decreases n, 1int,
{
    match n {
        PatternNode::Wildcard => true,
        PatternNode::BindVar(name, inner) => br_contains(br, name) && binds_ok(*inner, br),
        PatternNode::List(ph, pt) => binds_ok_elems(ph@, br) && binds_ok(*pt, br),
        PatternNode::Tuple(ps) => binds_ok_elems(ps@, br),
        PatternNode::Atomic(_) => true,
    }
}

/// Every variable any of the patterns binds occurs in the bind table.
pub open spec fn binds_ok_elems(ps: Seq<PatternNode>, br: Seq<(usize, usize)>) -> bool
    decreases ps, 0int,
{
    if ps.len() == 0 {
        true
    } else {
        binds_ok_elems(ps.drop_last(), br) && binds_ok(ps.last(), br)
    }
}

/// Whether matching the term against the pattern is defined: a list pattern
/// with more head patterns than the list term has eager head elements is
/// outside the matcher's domain.
pub open spec fn match_defined(t: TermV, n: PatternNode) -> bool
    decreases n, 1int,
{
    match n {
        PatternNode::Wildcard => true,
        PatternNode::BindVar(_, inner) => match_defined(t, *inner),
        PatternNode::List(ph, pt) => {
            match t {
                TermV::List(th, tt) => {
                    &&& th.len() >= ph@.len()
                    &&& (if th.len() == ph@.len() {
                        match_defined_elems(th, ph@) && match_defined(*tt, *pt)
                    } else {
                        match_defined_elems(th.take(ph@.len() as int), ph@) && match_defined(
                            TermV::List(th.skip(ph@.len() as int), tt),
                            *pt,
                        )
                    })
                },
                _ => ph@.len() == 0 ==> match_defined(t, *pt),
            }
        },
        PatternNode::Tuple(ps) => {
            match t {
                TermV::Tuple(ts) => ts.len() == ps@.len() ==> match_defined_elems(ts, ps@),
                _ => true,
            }
        },
        PatternNode::Atomic(_) => true,
    }
}

/// Whether matching each term against its pattern is defined.
pub open spec fn match_defined_elems(ts: Seq<TermV>, ps: Seq<PatternNode>) -> bool
    decreases ps, 0int,
{
    if ps.len() == 0 || ts.len() != ps.len() {
        true
    } else {
        match_defined_elems(ts.drop_last(), ps.drop_last()) && match_defined(ts.last(), ps.last())
    }
}

/// Whether the term matches the pattern.
pub open spec fn pat_match(t: TermV, n: PatternNode) -> bool
    decreases n, 1int,
{
    match n {
        PatternNode::Wildcard => true,
        PatternNode::BindVar(_, inner) => pat_match(t, *inner),
        PatternNode::List(ph, pt) => {
            match t {
                TermV::List(th, tt) => {
                    if th.len() < ph@.len() {
                        false
                    } else if th.len() == ph@.len() {
                        pat_match_elems(th, ph@) && pat_match(*tt, *pt)
                    } else {
                        pat_match_elems(th.take(ph@.len() as int), ph@) && pat_match(
                            TermV::List(th.skip(ph@.len() as int), tt),
                            *pt,
                        )
                    }
                },
                _ => ph@.len() == 0 && pat_match(t, *pt),
            }
        },
        PatternNode::Tuple(ps) => {
            match t {
                TermV::Tuple(ts) => ts.len() == ps@.len() && pat_match_elems(ts, ps@),
                _ => false,
            }
        },
        PatternNode::Atomic(lit) => {
            match lit {
                AtomicLiteral::Nil => t is Nil,
                AtomicLiteral::Atom(a) => (t matches TermV::Atom(x) && x == a as int),
                AtomicLiteral::Integer(v) => (t matches TermV::Integer(x) && x == v as int),
            }
        },
    }
}

/// Whether each term matches its pattern, pairwise.
pub open spec fn pat_match_elems(ts: Seq<TermV>, ps: Seq<PatternNode>) -> bool
    decreases ps, 0int,
{
    if ps.len() == 0 || ts.len() != ps.len() {
        ts.len() == ps.len()
    } else {
        pat_match_elems(ts.drop_last(), ps.drop_last()) && pat_match(ts.last(), ps.last())
    }
}

/// The variable table after matching the term against the pattern, assuming
/// the match succeeds: every variable the pattern binds is bound to the
/// sub-term it faced, resolved through the bind table; a variable bound
/// twice keeps the later binding.
pub open spec fn pat_binds(
    t: TermV,
    n: PatternNode,
    br: Seq<(usize, usize)>,
    m: Map<usize, TermV>,
) -> Map<usize, TermV>
    decreases n, 1int,
{
    match n {
        PatternNode::Wildcard => m,
        PatternNode::BindVar(name, inner) => pat_binds(
            t,
            *inner,
            br,
            m.insert(br_resolve(br, name), t),
        ),
        PatternNode::List(ph, pt) => {
            match t {
                TermV::List(th, tt) => {
                    if th.len() < ph@.len() {
                        m
                    } else if th.len() == ph@.len() {
                        pat_binds(*tt, *pt, br, pat_binds_elems(th, ph@, br, m))
                    } else {
                        pat_binds(
                            TermV::List(th.skip(ph@.len() as int), tt),
                            *pt,
                            br,
                            pat_binds_elems(th.take(ph@.len() as int), ph@, br, m),
                        )
                    }
                },
                _ => if ph@.len() == 0 {
                    pat_binds(t, *pt, br, m)
                } else {
                    m
                },
            }
        },
        PatternNode::Tuple(ps) => {
            match t {
                TermV::Tuple(ts) => if ts.len() == ps@.len() {
                    pat_binds_elems(ts, ps@, br, m)
                } else {
                    m
                },
                _ => m,
            }
        },
        PatternNode::Atomic(_) => m,
    }
}

/// The variable table after matching each term against its pattern in order.
pub open spec fn pat_binds_elems(
    ts: Seq<TermV>,
    ps: Seq<PatternNode>,
    br: Seq<(usize, usize)>,
    m: Map<usize, TermV>,
) -> Map<usize, TermV>
    decreases ps, 0int,
{
    if ps.len() == 0 || ts.len() != ps.len() {
        m
    } else {
        pat_binds(ts.last(), ps.last(), br, pat_binds_elems(ts.drop_last(), ps.drop_last(), br, m))
    }
}

/// The model of a map holding terms.
pub open spec fn binds_view_of(m: Map<usize, Term>) -> Map<usize, TermV> {
    Map::new(|k: usize| m.dom().contains(k), |k: usize| term_view(m[k]))
}

/// The model of a variable table holding terms.
pub open spec fn binds_view(m: &AssocMap<Term>) -> Map<usize, TermV> {
    binds_view_of(m.view_spec())
}

/// Inserting a term into a table inserts the term's model into the table's
/// model.
pub proof fn lemma_binds_view_insert(pre: Map<usize, Term>, key: usize, t: Term)
    ensures
        binds_view_of(pre.insert(key, t)) == binds_view_of(pre).insert(key, term_view(t)),
{
    assert(binds_view_of(pre.insert(key, t)) =~= binds_view_of(pre).insert(key, term_view(t)));
}

// ----------------------------------------------------------------------
// The matcher.
// ----------------------------------------------------------------------

/// The SSA variable a pattern variable name resolves to.
fn resolve_bind(binds_ref: &Vec<(usize, usize)>, name: usize) -> (r: usize)
    requires
        br_contains(binds_ref@, name),
    ensures
        r == br_resolve(binds_ref@, name),
{
    let n = binds_ref.len();
    proof {
        assert(binds_ref@.skip(0) =~= binds_ref@);
    }
    let mut i: usize = 0;
    while i < n
        invariant
            i <= n,
            n == binds_ref@.len(),
            br_contains(binds_ref@, name),
            forall|k: int| 0 <= k < i ==> (#[trigger] binds_ref@[k]).0 != name,
            br_resolve(binds_ref@, name) == br_resolve(binds_ref@.skip(i as int), name),
        decreases n - i,
    {
        if binds_ref[i].0 == name {
            proof {
                assert(binds_ref@.skip(i as int)[0] == binds_ref@[i as int]);
            }
            return binds_ref[i].1;
        }
        proof {
            assert(binds_ref@.skip(i as int)[0] == binds_ref@[i as int]);
            assert(binds_ref@.skip(i as int).skip(1) =~= binds_ref@.skip(i as int + 1));
        }
        i += 1;
    }
    proof {
        let k = choose|k: int| 0 <= k < binds_ref@.len() && (#[trigger] binds_ref@[k]).0 == name;
        assert(false);
    }
    0
}

/// Match one term against one pattern node. Returns whether it matched; on
/// success the variable table has been extended exactly as the pattern
/// dictates. On failure the table may hold bindings from sub-patterns that
/// matched before the failure was found.
pub fn match_node(
    term: &Term,
    node: &PatternNode,
    binds: &mut AssocMap<Term>,
    binds_ref: &Vec<(usize, usize)>,
) -> (r: bool)
    requires
        old(binds).wf(),
        binds_ok(*node, binds_ref@),
        match_defined(term_view(*term), *node),
    ensures
        final(binds).wf(),
        r == pat_match(term_view(*term), *node),
        r ==> binds_view(final(binds)) == pat_binds(
            term_view(*term),
            *node,
            binds_ref@,
            binds_view(old(binds)),
        ),
    decreases *node,
{
    match node {
        PatternNode::Wildcard => true,
        PatternNode::BindVar(var_name, i_node) => {
            let ssa = resolve_bind(binds_ref, *var_name);
            let copy = clone_term(term);
            let ghost copy_g = copy;
            let ghost pre_view = binds.view_spec();
            binds.insert(ssa, copy);
            proof {
                lemma_binds_view_insert(pre_view, ssa, copy_g);
                assert(binds_view(binds) == binds_view(old(binds)).insert(
                    ssa,
                    term_view(*term),
                ));
            }
            match_node(term, i_node, binds, binds_ref)
        },
        PatternNode::List(p_head, p_tail) => {
            match term {
                Term::List(t_head, t_tail) => {
                    proof {
                        lemma_terms_facts(t_head@);
                    }
                    if t_head.len() == p_head.len() {
                        proof {
                            assert(crate::term::terms_view(t_head@).take(p_head@.len() as int)
                                =~= crate::term::terms_view(t_head@));
                        }
                        let ok = match_elems(t_head, p_head, binds, binds_ref);
                        if !ok {
                            return false;
                        }
                        match_node(&**t_tail, &**p_tail, binds, binds_ref)
                    } else if t_head.len() > p_head.len() {
                        let plen = p_head.len();
                        let ok = match_elems(t_head, p_head, binds, binds_ref);
                        if !ok {
                            return false;
                        }
                        // rebuild the remainder of the list and match the tail
                        let mut head_rest: Vec<Term> = Vec::new();
                        let mut i: usize = plen;
                        let n = t_head.len();
                        while i < n
                            invariant
                                plen <= i <= n,
                                n == t_head@.len(),
                                head_rest@.len() == i - plen,
                                forall|k: int|
                                    0 <= k < i - plen ==> term_view(#[trigger] head_rest@[k])
                                        == term_view(t_head@[k + plen]),
                            decreases n - i,
                        {
                            head_rest.push(clone_term(&t_head[i]));
                            i += 1;
                        }
                        let rest_tail = clone_term(&**t_tail);
                        let rest_term = Term::List(head_rest, Box::new(rest_tail));
                        proof {
                            lemma_terms_facts(t_head@);
                            lemma_terms_facts(head_rest@);
                            assert(crate::term::terms_view(head_rest@)
                                =~= crate::term::terms_view(t_head@).skip(plen as int));
                            assert(term_view(rest_term) =~~= TermV::List(
                                crate::term::terms_view(t_head@).skip(plen as int),
                                Box::new(term_view(**t_tail)),
                            ));
                        }
                        let a = match_node(&rest_term, &**p_tail, binds, binds_ref);
                        a
                    } else {
                        // more head patterns than eager head elements: outside
                        // the matcher's domain, excluded by the precondition
                        proof {
                            assert(false);
                        }
                        false
                    }
                },
                _ => {
                    if p_head.len() == 0 {
                        match_node(term, p_tail, binds, binds_ref)
                    } else {
                        proof {
                            assert(!pat_match(term_view(*term), *node));
                        }
                        false
                    }
                },
            }
        },
        PatternNode::Tuple(p_entries) => {
            match term {
                Term::Tuple(t_entries) => {
                    proof {
                        lemma_terms_facts(t_entries@);
                    }
                    if t_entries.len() != p_entries.len() {
                        return false;
                    }
                    proof {
                        assert(crate::term::terms_view(t_entries@).take(p_entries@.len() as int)
                            =~= crate::term::terms_view(t_entries@));
                    }
                    let r = match_elems(t_entries, p_entries, binds, binds_ref);
                    r
                },
                _ => false,
            }
        },
        PatternNode::Atomic(lit) => {
            match (term, lit) {
                (Term::Nil, AtomicLiteral::Nil) => true,
                (Term::Atom(v1), AtomicLiteral::Atom(v2)) => *v1 == *v2,
                (Term::Integer(t_int), AtomicLiteral::Integer(p_int)) => *t_int == *p_int,
                _ => false,
            }
        },
    }
}

/// Match the first patterns-many terms against the patterns, pairwise in
/// order.
fn match_elems(
    terms: &Vec<Term>,
    pats: &Vec<PatternNode>,
    binds: &mut AssocMap<Term>,
    binds_ref: &Vec<(usize, usize)>,
) -> (r: bool)
    requires
        old(binds).wf(),
        terms@.len() >= pats@.len(),
        binds_ok_elems(pats@, binds_ref@),
        match_defined_elems(crate::term::terms_view(terms@).take(pats@.len() as int), pats@),
    ensures
        final(binds).wf(),
        r == pat_match_elems(crate::term::terms_view(terms@).take(pats@.len() as int), pats@),
        r ==> binds_view(final(binds)) == pat_binds_elems(
            crate::term::terms_view(terms@).take(pats@.len() as int),
            pats@,
            binds_ref@,
            binds_view(old(binds)),
        ),
    decreases *pats,
{
    let n = pats.len();
    proof {
        lemma_terms_facts(terms@);
    }
    let mut i: usize = 0;
    while i < n
        invariant
            i <= n,
            n == pats@.len(),
            terms@.len() >= n,
            binds.wf(),
            binds_ok_elems(pats@, binds_ref@),
            match_defined_elems(crate::term::terms_view(terms@).take(n as int), pats@),
            pat_match_elems(
                crate::term::terms_view(terms@).take(n as int).take(i as int),
                pats@.take(i as int),
            ),
            binds_view(binds) == pat_binds_elems(
                crate::term::terms_view(terms@).take(n as int).take(i as int),
                pats@.take(i as int),
                binds_ref@,
                binds_view(old(binds)),
            ),
        decreases n - i,
    {
        let ghost tsn = crate::term::terms_view(terms@).take(n as int);
        proof {
            lemma_terms_facts(terms@);
            lemma_elems_defined_at(tsn, pats@, i as int);
            lemma_elems_ok_at(pats@, binds_ref@, i as int);
            assert(tsn[i as int] == term_view(terms@[i as int]));
        }
        let r = match_node(&terms[i], &pats[i], binds, binds_ref);
        if !r {
            proof {
                lemma_elems_prefix_fail(tsn, pats@, i as int);
            }
            return false;
        }
        proof {
            lemma_elems_step(tsn, pats@, i as int, binds_ref@, binds_view(old(binds)));
            assert(tsn.take(i as int + 1).drop_last() =~= tsn.take(i as int));
            assert(pats@.take(i as int + 1).drop_last() =~= pats@.take(i as int));
        }
        i += 1;
    }
    proof {
        let tsn = crate::term::terms_view(terms@).take(n as int);
        assert(tsn.take(n as int) =~= tsn);
        assert(pats@.take(n as int) =~= pats@);
    }
    true
}

// ----------------------------------------------------------------------
// Lemmas connecting the elementwise fold to its prefixes.
// ----------------------------------------------------------------------

/// Length and index facts about a term sequence's model.
pub proof fn lemma_terms_facts(s: Seq<Term>)
    ensures
        crate::term::terms_view(s).len() == s.len(),
        forall|i: int|
            0 <= i < s.len() ==> #[trigger] crate::term::terms_view(s)[i] == term_view(s[i]),
{
    crate::term::lemma_terms_view_len(s);
    assert forall|i: int|
        0 <= i < s.len() implies #[trigger] crate::term::terms_view(s)[i] == term_view(s[i]) by {
        crate::term::lemma_terms_view_index(s, i);
    }
}

/// The fold over a prefix extended by one element.
proof fn lemma_elems_step(
    ts: Seq<TermV>,
    ps: Seq<PatternNode>,
    i: int,
    br: Seq<(usize, usize)>,
    m0: Map<usize, TermV>,
)
    requires
        ts.len() == ps.len(),
        0 <= i < ps.len(),
    ensures
        pat_match_elems(ts.take(i + 1), ps.take(i + 1)) == (pat_match_elems(
            ts.take(i),
            ps.take(i),
        ) && pat_match(ts[i], ps[i])),
        pat_binds_elems(ts.take(i + 1), ps.take(i + 1), br, m0) == pat_binds(
            ts[i],
            ps[i],
            br,
            pat_binds_elems(ts.take(i), ps.take(i), br, m0),
        ),
{
    assert(ts.take(i + 1).drop_last() =~= ts.take(i));
    assert(ps.take(i + 1).drop_last() =~= ps.take(i));
    assert(ts.take(i + 1).last() == ts[i]);
    assert(ps.take(i + 1).last() == ps[i]);
}

/// If all pairs up to `i` matched but pair `i` does not, the whole lists do
/// not match pairwise.
proof fn lemma_elems_prefix_fail(ts: Seq<TermV>, ps: Seq<PatternNode>, i: int)
    requires
        ts.len() == ps.len(),
        0 <= i < ps.len(),
        !pat_match(ts[i], ps[i]),
    ensures
        !pat_match_elems(ts, ps),
    decreases ps.len(),
{
    if i == ps.len() - 1 {
    } else {
        assert(ts.drop_last()[i] == ts[i]);
        assert(ps.drop_last()[i] == ps[i]);
        lemma_elems_prefix_fail(ts.drop_last(), ps.drop_last(), i);
    }
}

/// Elementwise definedness restricted to one pair.
proof fn lemma_elems_defined_at(ts: Seq<TermV>, ps: Seq<PatternNode>, i: int)
    requires
        ts.len() == ps.len(),
        0 <= i < ps.len(),
        match_defined_elems(ts, ps),
    ensures
        match_defined(ts[i], ps[i]),
    decreases ps.len(),
{
    if i == ps.len() - 1 {
    } else {
        assert(ts.drop_last()[i] == ts[i]);
        assert(ps.drop_last()[i] == ps[i]);
        lemma_elems_defined_at(ts.drop_last(), ps.drop_last(), i);
    }
}

/// Elementwise bind-table coverage restricted to one pattern.
proof fn lemma_elems_ok_at(ps: Seq<PatternNode>, br: Seq<(usize, usize)>, i: int)
    requires
        0 <= i < ps.len(),
        binds_ok_elems(ps, br),
    ensures
        binds_ok(ps[i], br),
    decreases ps.len(),
{
    if i == ps.len() - 1 {
    } else {
        assert(ps.drop_last()[i] == ps[i]);
        lemma_elems_ok_at(ps.drop_last(), br, i);
    }
}


// ----------------------------------------------------------------------
// The match/guard/body state machine of a case construct.
// ----------------------------------------------------------------------

/// Where a case construct stands: trying a clause's patterns, waiting for
/// its guard, or finished.
#[derive(Clone, Copy, PartialEq, Eq, Structural, Debug)]
pub enum MatchState {
    MatchClause(usize),
    GuardWait(usize),
    Finished,
}

impl MatchState {
    /// The clause currently being tried or guarded.
    pub fn clause_num(&self) -> (r: usize)
        requires
            !(self is Finished),
        ensures
            self matches MatchState::MatchClause(n) ==> r == n,
            self matches MatchState::GuardWait(n) ==> r == n,
    {
        match self {
            MatchState::MatchClause(num) => *num,
            MatchState::GuardWait(num) => *num,
            MatchState::Finished => {
                proof {
                    assert(false);
                }
                0
            },
        }
    }

    /// Mutable access to the clause counter while a clause is being tried.
    pub fn clause_num_mut(&mut self) -> (r: &mut usize)
        requires
            *old(self) is MatchClause,
        ensures
            *r == (*old(self))->MatchClause_0,
            *final(self) == MatchState::MatchClause(*final(r)),
    {
        match self {
            MatchState::MatchClause(num) => num,
            _ => {
                proof {
                    assert(false);
                }
                vstd::pervasive::unreached()
            },
        }
    }

    /// A clause's patterns all matched: wait for its guard.
    pub fn into_guard(&mut self)
        requires
            *old(self) is MatchClause,
        ensures
            *final(self) == MatchState::GuardWait((*old(self))->MatchClause_0),
    {
        match *self {
            MatchState::MatchClause(num) => {
                *self = MatchState::GuardWait(num);
            },
            _ => {
                proof {
                    assert(false);
                }
            },
        }
    }

    /// The guard failed: move on to the next clause.
    pub fn into_body(&mut self)
        requires
            *old(self) is GuardWait,
            (*old(self))->GuardWait_0 < usize::MAX,
        ensures
            *final(self) == MatchState::MatchClause(((*old(self))->GuardWait_0 + 1) as usize),
    {
        match *self {
            MatchState::GuardWait(num) => {
                *self = MatchState::MatchClause(num + 1);
            },
            _ => {
                proof {
                    assert(false);
                }
            },
        }
    }

    /// The guard passed: the case construct is decided.
    pub fn into_finished(&mut self)
        ensures
            *final(self) == MatchState::Finished,
    {
        *self = MatchState::Finished;
    }
}

/// Whether one clause's patterns all match the case's values.
pub open spec fn clause_matches(c: Clause, vars: Seq<Term>) -> bool {
    &&& c.patterns@.len() == vars.len()
    &&& forall|i: int|
        0 <= i < vars.len() ==> pat_match(term_view(vars[i]), (#[trigger] c.patterns@[i]).node)
}

/// The bindings collected by matching the first `i` patterns of a clause,
/// each pattern resolving its variables through its own bind table.
pub open spec fn clause_binds_upto(c: Clause, vars: Seq<Term>, i: int) -> Map<usize, TermV>
    decreases i,
{
    if i <= 0 {
        Map::empty()
    } else {
        pat_binds(
            term_view(vars[i - 1]),
            c.patterns@[i - 1].node,
            c.patterns@[i - 1].binds@,
            clause_binds_upto(c, vars, i - 1),
        )
    }
}

/// One case construct in flight: the values being matched, the clauses, the
/// match state and the bindings of the last clause that matched.
#[derive(Debug)]
pub struct CaseContext {
    pub state: MatchState,
    pub vars: Vec<Term>,
    pub clauses: Vec<Clause>,
    pub last_binds: Option<AssocMap<Term>>,
}

impl CaseContext {
    /// Every clause has one pattern per value, each pattern's bind table
    /// covers its variables, and matching is everywhere defined.
    pub open spec fn cc_ok(&self) -> bool {
        forall|ci: int|
            0 <= ci < self.clauses@.len() ==> {
                let c = #[trigger] self.clauses@[ci];
                &&& c.patterns@.len() == self.vars@.len()
                &&& (forall|pi: int|
                    0 <= pi < c.patterns@.len() ==> {
                        let p = #[trigger] c.patterns@[pi];
                        &&& binds_ok(p.node, p.binds@)
                        &&& match_defined(term_view(self.vars@[pi]), p.node)
                    })
            }
    }

    /// A fresh case construct, about to try the first clause.
    pub fn new(vars: Vec<Term>, clauses: Vec<Clause>) -> (r: CaseContext)
        ensures
            r.state == MatchState::MatchClause(0usize),
            r.vars == vars,
            r.clauses == clauses,
            r.last_binds is None,
    {
        CaseContext { state: MatchState::MatchClause(0), vars, clauses, last_binds: None }
    }

    /// Try clauses from the current one on: the first clause whose patterns
    /// all match is selected, its bindings are recorded and its guard is
    /// awaited; the result is that clause's number plus one, or zero when no
    /// clause matches.
    pub fn do_body(&mut self) -> (r: usize)
        requires
            old(self).cc_ok(),
            old(self).state matches MatchState::MatchClause(num0) && num0 < old(
                self,
            ).clauses@.len(),
        ensures
            final(self).vars == old(self).vars,
            final(self).clauses == old(self).clauses,
            r == 0 ==> {
                &&& final(self).state == MatchState::MatchClause(old(self).clauses@.len() as usize)
                &&& final(self).last_binds == old(self).last_binds
                &&& forall|ci: int|
                    old(self).state->MatchClause_0 <= ci < old(self).clauses@.len()
                        ==> !clause_matches(#[trigger] old(self).clauses@[ci], old(self).vars@)
            },
            r != 0 ==> {
                &&& old(self).state->MatchClause_0 < r <= old(self).clauses@.len()
                &&& clause_matches(old(self).clauses@[r - 1], old(self).vars@)
                &&& (forall|ci: int|
                    old(self).state->MatchClause_0 <= ci < r - 1 ==> !clause_matches(
                        #[trigger] old(self).clauses@[ci],
                        old(self).vars@,
                    ))
                &&& final(self).state == MatchState::GuardWait((r - 1) as usize)
                &&& (final(self).last_binds matches Some(b) && b.wf() && binds_view(&b)
                    == clause_binds_upto(
                    old(self).clauses@[r - 1],
                    old(self).vars@,
                    old(self).vars@.len() as int,
                ))
            },
    {
        let ghost num0 = self.state->MatchClause_0;
        let mut num = self.state.clause_num();
        let nclauses = self.clauses.len();
        let nvars = self.vars.len();
        while num < nclauses
            invariant
                self.vars == old(self).vars,
                self.clauses == old(self).clauses,
                self.state == old(self).state,
                self.last_binds == old(self).last_binds,
                self.cc_ok(),
                nclauses == self.clauses@.len(),
                nvars == self.vars@.len(),
                num0 <= num <= nclauses,
                num0 == old(self).state->MatchClause_0,
                forall|ci: int|
                    num0 <= ci < num ==> !clause_matches(
                        #[trigger] self.clauses@[ci],
                        self.vars@,
                    ),
            decreases nclauses - num,
        {
            let mut values: AssocMap<Term> = AssocMap::new();
            let mut matched = true;
            let mut pi: usize = 0;
            while matched && pi < nvars
                invariant
                    pi <= nvars,
                    self.vars == old(self).vars,
                    self.clauses == old(self).clauses,
                    self.state == old(self).state,
                    self.last_binds == old(self).last_binds,
                    self.cc_ok(),
                    nclauses == self.clauses@.len(),
                    nvars == self.vars@.len(),
                    num < nclauses,
                    values.wf(),
                    matched ==> forall|pj: int|
                        0 <= pj < pi ==> pat_match(
                            term_view(self.vars@[pj]),
                            (#[trigger] self.clauses@[num as int].patterns@[pj]).node,
                        ),
                    matched ==> binds_view(&values) == clause_binds_upto(
                        self.clauses@[num as int],
                        self.vars@,
                        pi as int,
                    ),
                    !matched ==> exists|pj: int|
                        0 <= pj < nvars && !pat_match(
                            term_view(self.vars@[pj]),
                            (#[trigger] self.clauses@[num as int].patterns@[pj]).node,
                        ),
                decreases nvars - pi,
            {
                let r = match_node(
                    &self.vars[pi],
                    &self.clauses[num].patterns[pi].node,
                    &mut values,
                    &self.clauses[num].patterns[pi].binds,
                );
                if !r {
                    proof {
                        assert(!pat_match(
                            term_view(self.vars@[pi as int]),
                            self.clauses@[num as int].patterns@[pi as int].node,
                        ));
                    }
                    matched = false;
                    pi = nvars;
                } else {
                    pi += 1;
                }
            }
            if matched {
                proof {
                    assert(clause_matches(self.clauses@[num as int], self.vars@));
                }
                let clause_num = num;
                self.state = MatchState::MatchClause(num);
                self.state.into_guard();
                self.last_binds = Some(values);
                return clause_num + 1;
            } else {
                proof {
                    assert(!clause_matches(self.clauses@[num as int], self.vars@));
                }
                num += 1;
            }
        }
        self.state = MatchState::MatchClause(num);
        0
    }

    /// The bindings of the clause that matched, as a fresh table.
    pub fn case_values(&self) -> (r: AssocMap<Term>)
        requires
            self.last_binds matches Some(b) && b.wf(),
        ensures
            r.wf(),
            binds_view(&r) == binds_view(&self.last_binds->Some_0),
    {
        match &self.last_binds {
            Some(b) => clone_binds(b),
            None => {
                proof {
                    assert(false);
                }
                AssocMap::new()
            },
        }
    }

    /// The guard of the selected clause passed.
    pub fn guard_ok(&mut self)
        ensures
            final(self).state == MatchState::Finished,
            final(self).vars == old(self).vars,
            final(self).clauses == old(self).clauses,
            final(self).last_binds == old(self).last_binds,
    {
        self.state.into_finished();
    }

    /// The guard of the selected clause failed: move on to the next clause.
    pub fn guard_fail(&mut self, clause_num: usize)
        requires
            old(self).state == MatchState::GuardWait(clause_num),
            clause_num < usize::MAX,
        ensures
            final(self).state == MatchState::MatchClause((clause_num + 1) as usize),
            final(self).vars == old(self).vars,
            final(self).clauses == old(self).clauses,
            final(self).last_binds == old(self).last_binds,
    {
        self.state.into_body();
    }
}

/// A fresh copy of a variable table, with the same model.
pub fn clone_binds(m: &AssocMap<Term>) -> (r: AssocMap<Term>)
    requires
        m.wf(),
    ensures
        r.wf(),
        binds_view(&r) == binds_view(m),
{
    let n = m.entries.len();
    let mut out: Vec<(usize, Term)> = Vec::new();
    let mut i: usize = 0;
    while i < n
        invariant
            i <= n,
            m.wf(),
            n == m.entries@.len(),
            out@.len() == i,
            forall|k: int|
                0 <= k < i ==> (#[trigger] out@[k]).0 == m.entries@[k].0 && term_view(out@[k].1)
                    == term_view(m.entries@[k].1),
        decreases n - i,
    {
        let key = m.entries[i].0;
        let val = clone_term(&m.entries[i].1);
        out.push((key, val));
        i += 1;
    }
    let r = AssocMap { entries: out };
    proof {
        assert forall|i2: int, j2: int|
            0 <= i2 < j2 < r.entries@.len() implies (#[trigger] r.entries@[i2]).0 != (
        #[trigger] r.entries@[j2]).0 by {
            assert(m.entries@[i2].0 != m.entries@[j2].0);
        }
        lemma_clone_binds_view(r.entries@, m.entries@);
        assert(binds_view(&r) =~= binds_view(m));
    }
    r
}

/// Two entry lists with equal keys and model-equal values denote
/// model-equal tables.
proof fn lemma_clone_binds_view(s2: Seq<(usize, Term)>, s1: Seq<(usize, Term)>)
    requires
        s2.len() == s1.len(),
        forall|k: int|
            0 <= k < s1.len() ==> (#[trigger] s2[k]).0 == s1[k].0 && term_view(s2[k].1)
                == term_view(s1[k].1),
    ensures
        binds_view_of(crate::assoc::assoc_view(s2)) == binds_view_of(
            crate::assoc::assoc_view(s1),
        ),
    decreases s1.len(),
{
    if s1.len() > 0 {
        let s2d = s2.drop_last();
        let s1d = s1.drop_last();
        assert(forall|k: int| 0 <= k < s1d.len() ==> #[trigger] s1d[k] == s1[k]);
        assert(forall|k: int| 0 <= k < s2d.len() ==> #[trigger] s2d[k] == s2[k]);
        lemma_clone_binds_view(s2d, s1d);
        lemma_binds_view_insert(crate::assoc::assoc_view(s2d), s2.last().0, s2.last().1);
        lemma_binds_view_insert(crate::assoc::assoc_view(s1d), s1.last().0, s1.last().1);
        assert(s2.last().0 == s1.last().0);
        assert(term_view(s2.last().1) == term_view(s1.last().1));
        assert(binds_view_of(crate::assoc::assoc_view(s2)) =~= binds_view_of(
            crate::assoc::assoc_view(s1),
        ));
    } else {
        assert(binds_view_of(crate::assoc::assoc_view(s2)) =~= binds_view_of(
            crate::assoc::assoc_view(s1),
        ));
    }
}

} // verus!
