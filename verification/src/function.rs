//! The entity-arena function graph: blocks, values and primops held in dense,
//! append-only storage, with per-block predecessor/successor adjacency derived
//! from which of a block's read values are block references.
//!
//! Handles are issued once, strictly increasing per kind, and never reused
//! within one function's lifetime; a handle's meaning never changes once
//! issued.

use vstd::prelude::*;

verus! {

/// A dense, arena-issued handle naming one basic block of a function graph.
#[derive(Clone, Copy, PartialEq, Eq, Structural, Debug)]
pub struct Block(pub usize);

/// A handle naming one block argument.
#[derive(Clone, Copy, PartialEq, Eq, Structural, Debug)]
pub struct Argument(pub usize);

/// A handle naming a reference to another function.
#[derive(Clone, Copy, PartialEq, Eq, Structural, Debug)]
pub struct FunRef(pub usize);

/// A handle naming one deduplicated pure operation.
#[derive(Clone, Copy, PartialEq, Eq, Structural, Debug)]
pub struct PrimOp(pub usize);

/// A handle naming anything an operation can read.
#[derive(Clone, Copy, PartialEq, Eq, Structural, Debug)]
pub struct Value(pub usize);

/// A handle naming one interned compile-time constant.
#[derive(Clone, Copy, PartialEq, Eq, Structural, Debug)]
pub struct Const(pub usize);

/// What a value is: every value has exactly one producing kind, and no two
/// values share a kind.
#[derive(Clone, Copy, PartialEq, Eq, Structural, Debug)]
pub enum ValueKind {
    /// A reference to a block; reading it in an operation is a control
    /// transfer to that block.
    Block(Block),
    /// The argument of a block at the given position.
    Argument(Block, usize),
    /// An interned compile-time constant.
    Const(Const),
    /// The result of a deduplicated pure operation.
    PrimOp(PrimOp),
}

/// Binary operators usable in a pure operation.
#[derive(Clone, Copy, PartialEq, Eq, Structural, Debug)]
pub enum BinOp {
    Equal,
    NotEqual,
    LessThan,
    LessEqual,
    Plus,
    Minus,
}

/// The operator of a pure, deduplicated computed sub-expression.
#[derive(Clone, Copy, PartialEq, Eq, Structural, Debug)]
pub enum PrimOpKind {
    Tuple,
    ListCell,
    ValueList,
    BinOp(BinOp),
    CaptureFunction,
}

/// The operation of a block. The graph model only cares which of the
/// operation's reads are block references; the variant tags what the
/// operation does for consumers of the graph.
#[derive(Clone, Copy, PartialEq, Eq, Structural, Debug)]
pub enum OpKind {
    Call,
    IfBool,
    UnpackValueList,
    Match,
    Unreachable,
}

/// The IR dialects a function can be in.
#[derive(Clone, Copy, PartialEq, Eq, Structural, Debug)]
pub enum Dialect {
    /// Allows all operations, including the high level pattern matching
    /// construct.
    High,
    /// High minus the pattern matching construct.
    Normal,
    /// Continuation passing style: normal minus returning calls, only tail
    /// calls allowed.
    CPS,
}

/// Keys of function attributes.
#[derive(Clone, Copy, PartialEq, Eq, Structural, Debug)]
pub enum AttributeKey {
    Continuation,
}

/// Values of function attributes.
#[derive(Clone, Copy, PartialEq, Eq, Structural, Debug)]
pub enum AttributeValue {
    Empty,
}

/// The lambda environment index and bind position of a closure's identity.
#[derive(Clone, Copy, PartialEq, Eq, Structural, Debug)]
pub struct LambdaEnvIdx {
    pub env: usize,
    pub bind: usize,
}

/// Identity of the function a graph belongs to. Names are interned atom
/// identifiers; the lambda field carries the environment index and bind
/// position for closures.
#[derive(Clone, Copy, PartialEq, Eq, Structural, Debug)]
pub struct FunctionIdent {
    pub name: usize,
    pub arity: usize,
    pub lambda: Option<LambdaEnvIdx>,
}

/// An interned compile-time constant literal.
#[derive(Clone, Copy, PartialEq, Eq, Structural, Debug)]
pub enum ConstLiteral {
    Integer(i128),
    Atom(usize),
    Nil,
}

/// The interning store of constant literals: one handle per distinct literal.
#[derive(Debug)]
pub struct ConstantContainer {
    pub(crate) literals: Vec<ConstLiteral>,
}

impl ConstantContainer {
    /// The interned literals, by constant handle.
    pub open(crate) spec fn lits(&self) -> Seq<ConstLiteral> {
        self.literals@
    }

    /// How many distinct literals have been interned.
    pub fn len(&self) -> (r: usize)
        ensures
            r == self.lits().len(),
    {
        self.literals.len()
    }

    /// The literal a constant handle names.
    pub fn get(&self, c: Const) -> (r: ConstLiteral)
        requires
            c.0 < self.lits().len(),
        ensures
            r == self.lits()[c.0 as int],
    {
        self.literals[c.0]
    }
}

/// A phi node: owned by one block, producing one value, with one entry per
/// incoming control-flow edge. An entry is tagged by the predecessor block
/// the edge comes from.
#[derive(Debug)]
pub struct Phi {
    pub value: Value,
    pub entries: Vec<(Block, Value)>,
}

/// Per-block storage: ordered argument list, at most one operation with its
/// ordered read list, the block's phi nodes, and stored adjacency.
#[derive(Debug)]
pub struct BlockData {
    pub(crate) arguments: Vec<Value>,
    pub(crate) op: Option<OpKind>,
    pub(crate) reads: Vec<Value>,
    pub(crate) phis: Vec<Phi>,
    pub(crate) predecessors: Vec<Block>,
    pub(crate) successors: Vec<Block>,
}

/// A control transfer from one block to another, identified by its two
/// endpoints. A block's block-valued reads are pairwise distinct, so the
/// pair determines the read position as well.
#[derive(Clone, Copy, PartialEq, Eq, Structural, Debug)]
pub struct Edge {
    pub from: Block,
    pub to: Block,
}

/// The successor sequence a read list induces: the targets of the
/// block-valued reads, in read order.
pub open spec fn targets_in(values: Seq<ValueKind>, reads: Seq<Value>) -> Seq<Block>
    decreases reads.len(),
{
    if reads.len() == 0 {
        Seq::empty()
    } else {
        let rest = targets_in(values, reads.drop_last());
        if reads.last().0 < values.len() {
            match values[reads.last().0 as int] {
                ValueKind::Block(b) => rest.push(b),
                _ => rest,
            }
        } else {
            rest
        }
    }
}

/// The tags of a sequence of phi entries, in entry order.
pub open spec fn entry_tags(entries: Seq<(Block, Value)>) -> Seq<Block> {
    entries.map_values(|e: (Block, Value)| e.0)
}

/// The tags of a phi node's entries, in entry order.
pub open spec fn phi_tags(phi: Phi) -> Seq<Block> {
    entry_tags(phi.entries@)
}

/// `s2` is `s1` with the element at one index `k` removed, and `s1[k] == x`.
pub open spec fn seq_removed<T>(s1: Seq<T>, s2: Seq<T>, x: T) -> bool {
    exists|k: int| 0 <= k < s1.len() && s1[k] == x && s2 == s1.remove(k)
}

/// Splitting a read list at one block-valued read splits its target sequence
/// around that target; removing the read removes exactly that target.
pub proof fn lemma_targets_split(values: Seq<ValueKind>, reads: Seq<Value>, ri: int, t: Block)
    requires
        0 <= ri < reads.len(),
        reads[ri].0 < values.len(),
        values[reads[ri].0 as int] == ValueKind::Block(t),
    ensures
        targets_in(values, reads) == targets_in(values, reads.take(ri)) + seq![t] + targets_in(
            values,
            reads.skip(ri + 1),
        ),
        targets_in(values, reads.remove(ri)) == targets_in(values, reads.take(ri)) + targets_in(
            values,
            reads.skip(ri + 1),
        ),
{
    let a = reads.take(ri);
    let m = seq![reads[ri]];
    let b = reads.skip(ri + 1);
    assert(reads =~= a + m + b);
    lemma_targets_concat(values, a + m, b);
    lemma_targets_concat(values, a, m);
    assert(targets_in(values, m) =~= seq![t]) by {
        assert(m.drop_last() =~= Seq::<Value>::empty());
        assert(targets_in(values, Seq::<Value>::empty()) == Seq::<Block>::empty());
        assert(targets_in(values, m.drop_last()) == Seq::<Block>::empty());
        assert(m.last() == reads[ri]);
        assert(targets_in(values, m) == Seq::<Block>::empty().push(t));
        assert(Seq::<Block>::empty().push(t) =~= seq![t]);
    }
    assert(targets_in(values, reads) == targets_in(values, a) + seq![t] + targets_in(values, b));
    assert(reads.remove(ri) =~= a + b);
    lemma_targets_concat(values, a, b);
}

/// Taking one more element extends a prefix by exactly that element.
pub proof fn lemma_take_push<T>(s: Seq<T>, k: int)
    requires
        0 <= k < s.len(),
    ensures
        s.take(k + 1) == s.take(k).push(s[k]),
        forall|x: T| #[trigger] s.take(k + 1).contains(x) <==> (s.take(k).contains(x) || x == s[k]),
{
    assert(s.take(k + 1) =~= s.take(k).push(s[k]));
    assert forall|x: T| #[trigger] s.take(k + 1).contains(x) <==> (s.take(k).contains(x) || x
        == s[k]) by {
        if s.take(k + 1).contains(x) {
            let i = choose|i: int| 0 <= i < k + 1 && #[trigger] s.take(k + 1)[i] == x;
            if i < k {
                assert(s.take(k)[i] == x);
            }
        }
        if s.take(k).contains(x) {
            let i = choose|i: int| 0 <= i < k && s.take(k)[i] == x;
            assert(s.take(k + 1)[i] == x);
        }
        if x == s[k] {
            assert(s.take(k + 1)[k] == x);
        }
    }
}

/// Removing one position from a duplicate-free sequence keeps it duplicate
/// free, and removes exactly that element from the membership.
pub proof fn lemma_seq_remove_dedup<T>(s: Seq<T>, k: int)
    requires
        0 <= k < s.len(),
        s.no_duplicates(),
    ensures
        s.remove(k).no_duplicates(),
        forall|x: T| #[trigger] s.remove(k).contains(x) <==> (s.contains(x) && x != s[k]),
{
    s.remove_ensures(k);
    let r = s.remove(k);
    assert forall|i: int, j: int| 0 <= i < j < r.len() implies r[i] != r[j] by {
        if j < k {
            assert(r[i] == s[i] && r[j] == s[j]);
        } else if i < k {
            assert(r[i] == s[i] && r[j] == s[j + 1]);
        } else {
            assert(r[i] == s[i + 1] && r[j] == s[j + 1]);
        }
    }
    assert forall|x: T| #[trigger] r.contains(x) <==> (s.contains(x) && x != s[k]) by {
        if r.contains(x) {
            let i = choose|i: int| 0 <= i < r.len() && r[i] == x;
            if i < k {
                assert(s[i] == x);
                assert(s[i] != s[k]);
            } else {
                assert(s[i + 1] == x);
                assert(s[i + 1] != s[k]);
            }
        }
        if s.contains(x) && x != s[k] {
            let i = choose|i: int| 0 <= i < s.len() && s[i] == x;
            if i < k {
                assert(r[i] == x);
            } else {
                assert(i > k);
                assert(r[i - 1] == x);
            }
        }
    }
}

/// Tag extraction commutes with removing one entry.
pub proof fn lemma_entry_tags_remove(entries: Seq<(Block, Value)>, j: int)
    requires
        0 <= j < entries.len(),
    ensures
        entry_tags(entries.remove(j)) == entry_tags(entries).remove(j),
{
    entries.remove_ensures(j);
    entry_tags(entries).remove_ensures(j);
    assert(entry_tags(entries.remove(j)) =~= entry_tags(entries).remove(j));
}

/// One function's IR graph: the entity arenas, the value space, the primop
/// pool and the block graph, mutated only through the builder methods, which
/// each leave the whole structure well formed.
#[derive(Debug)]
pub struct Function {
    pub(crate) ident: FunctionIdent,
    pub(crate) entry_block: Option<Block>,
    pub(crate) blocks: Vec<BlockData>,
    pub(crate) values: Vec<ValueKind>,
    pub(crate) primops: Vec<PrimOpData>,
    pub(crate) constant_container: ConstantContainer,
    /// The value of each interned constant, indexed by constant handle.
    pub(crate) constant_values: Vec<Value>,
}

/// A pure computed sub-expression: operator kind and ordered operand values.
/// Two primops are the same entity iff these agree.
#[derive(Debug)]
pub struct PrimOpData {
    pub(crate) op: PrimOpKind,
    pub(crate) reads: Vec<Value>,
}

impl Function {
    // ------------------------------------------------------------------
    // The mathematical model.
    // ------------------------------------------------------------------

    pub open(crate) spec fn num_blocks(&self) -> nat {
        self.blocks@.len()
    }

    pub open(crate) spec fn num_values(&self) -> nat {
        self.values@.len()
    }

    pub open(crate) spec fn num_primops(&self) -> nat {
        self.primops@.len()
    }

    pub open(crate) spec fn num_consts(&self) -> nat {
        self.constant_container.literals@.len()
    }

    pub open(crate) spec fn valid_block(&self, b: Block) -> bool {
        b.0 < self.num_blocks()
    }

    pub open(crate) spec fn valid_value(&self, v: Value) -> bool {
        v.0 < self.num_values()
    }

    pub open(crate) spec fn valid_primop(&self, p: PrimOp) -> bool {
        p.0 < self.num_primops()
    }

    pub open(crate) spec fn valid_const(&self, c: Const) -> bool {
        c.0 < self.num_consts()
    }

    /// The producing kind of a value.
    pub open(crate) spec fn kind_of(&self, v: Value) -> ValueKind {
        self.values@[v.0 as int]
    }

    pub open(crate) spec fn block_data(&self, b: Block) -> BlockData {
        self.blocks@[b.0 as int]
    }

    pub open(crate) spec fn args_of(&self, b: Block) -> Seq<Value> {
        self.block_data(b).arguments@
    }

    pub open(crate) spec fn op_of(&self, b: Block) -> Option<OpKind> {
        self.block_data(b).op
    }

    pub open(crate) spec fn reads_of(&self, b: Block) -> Seq<Value> {
        self.block_data(b).reads@
    }

    pub open(crate) spec fn phis_of(&self, b: Block) -> Seq<Phi> {
        self.block_data(b).phis@
    }

    pub open(crate) spec fn successors_of(&self, b: Block) -> Seq<Block> {
        self.block_data(b).successors@
    }

    pub open(crate) spec fn predecessors_of(&self, b: Block) -> Seq<Block> {
        self.block_data(b).predecessors@
    }

    /// The successor sequence induced by a read list under this function's
    /// value space.
    pub open(crate) spec fn branch_targets(&self, reads: Seq<Value>) -> Seq<Block> {
        targets_in(self.values@, reads)
    }

    pub open(crate) spec fn entry_spec(&self) -> Option<Block> {
        self.entry_block
    }

    pub open(crate) spec fn ident_spec(&self) -> FunctionIdent {
        self.ident
    }

    /// Primop `pi` has exactly this operator and operand sequence.
    pub open(crate) spec fn primop_matches(&self, pi: int, op: PrimOpKind, reads: Seq<Value>) -> bool {
        &&& self.primops@[pi].op == op
        &&& self.primops@[pi].reads@ == reads
    }

    // ------------------------------------------------------------------
    // Well-formedness: the invariants every completed mutation preserves.
    // ------------------------------------------------------------------

    /// A value kind names only issued entities, and an argument kind names a
    /// live argument position.
    pub open(crate) spec fn wf_kind(&self, k: ValueKind) -> bool {
        match k {
            ValueKind::Block(b) => self.valid_block(b),
            ValueKind::Argument(b, n) => self.valid_block(b) && n < self.args_of(b).len(),
            ValueKind::Const(c) => self.valid_const(c),
            ValueKind::PrimOp(p) => self.valid_primop(p),
        }
    }

    /// Every value has a well-formed kind, and no two values share a kind.
    pub open(crate) spec fn wf_values(&self) -> bool {
        &&& forall|i: int|
            0 <= i < self.values@.len() ==> self.wf_kind(#[trigger] self.values@[i])
        &&& forall|i: int, j: int|
            0 <= i < j < self.values@.len() ==> self.values@[i] != self.values@[j]
    }

    /// A primop reads only issued values, and a primop-valued operand names a
    /// primop issued strictly earlier, so operand chains are acyclic.
    pub open(crate) spec fn wf_primop_at(&self, pi: int) -> bool {
        let pd = self.primops@[pi];
        forall|j: int|
            0 <= j < pd.reads@.len() ==> {
                &&& self.valid_value(#[trigger] pd.reads@[j])
                &&& (self.kind_of(pd.reads@[j]) matches ValueKind::PrimOp(q) ==> q.0 < pi)
            }
    }

    /// Every primop is well formed, and no two primops are structurally
    /// identical: structurally identical operations share one identity.
    pub open(crate) spec fn wf_primops(&self) -> bool {
        &&& forall|pi: int| 0 <= pi < self.primops@.len() ==> #[trigger] self.wf_primop_at(pi)
        &&& forall|pi: int, pj: int|
            0 <= pi < pj < self.primops@.len() ==> !(#[trigger] self.primops@[pi].op
                == #[trigger] self.primops@[pj].op && self.primops@[pi].reads@
                == self.primops@[pj].reads@)
    }

    /// A phi node of block `b`: its entry tags are exactly `b`'s current
    /// predecessors, with no duplicate and no stale entry.
    pub open(crate) spec fn wf_phi(&self, b: Block, phi: Phi) -> bool {
        &&& self.valid_value(phi.value)
        &&& phi_tags(phi).no_duplicates()
        &&& forall|p: Block|
            #![trigger phi_tags(phi).contains(p)]
            #![trigger self.predecessors_of(b).contains(p)]
            phi_tags(phi).contains(p) <==> self.predecessors_of(b).contains(p)
        &&& forall|j: int|
            0 <= j < phi.entries@.len() ==> self.valid_value((#[trigger] phi.entries@[j]).1)
    }

    /// One block's local invariants: argument values name their own
    /// positions, reads are issued values, the stored successor list is
    /// exactly the branch-target sequence of the read list (so its size is
    /// the number of block-valued reads), adjacency lists are duplicate-free,
    /// and every phi node corresponds to the predecessor set.
    pub open(crate) spec fn wf_block_at(&self, b: Block) -> bool {
        let bd = self.block_data(b);
        &&& forall|i: int|
            0 <= i < bd.arguments@.len() ==> self.valid_value(#[trigger] bd.arguments@[i]) && (
            self.kind_of(bd.arguments@[i]) matches ValueKind::Argument(ab, ak) && ab == b && ak
                == i)
        &&& forall|i: int| 0 <= i < bd.reads@.len() ==> self.valid_value(#[trigger] bd.reads@[i])
        &&& (bd.op is None ==> bd.reads@.len() == 0)
        &&& bd.successors@ == self.branch_targets(bd.reads@)
        &&& bd.successors@.no_duplicates()
        &&& forall|i: int|
            0 <= i < bd.successors@.len() ==> self.valid_block(#[trigger] bd.successors@[i])
        &&& bd.predecessors@.no_duplicates()
        &&& forall|i: int|
            0 <= i < bd.predecessors@.len() ==> self.valid_block(#[trigger] bd.predecessors@[i])
        &&& forall|k: int| 0 <= k < bd.phis@.len() ==> self.wf_phi(b, #[trigger] bd.phis@[k])
    }

    /// Adjacency is symmetric: an edge is stored at both of its endpoints.
    pub open(crate) spec fn wf_adjacent(&self) -> bool {
        forall|a: Block, b: Block|
            #![trigger self.successors_of(a).contains(b)]
            #![trigger self.predecessors_of(b).contains(a)]
            self.valid_block(a) && self.valid_block(b) ==> (self.successors_of(a).contains(b)
                <==> self.predecessors_of(b).contains(a))
    }

    /// The entry block, once set, has no predecessors.
    pub open(crate) spec fn wf_entry(&self) -> bool {
        self.entry_block matches Some(e) ==> self.valid_block(e) && self.predecessors_of(e).len()
            == 0
    }

    /// Constants are interned: literals are pairwise distinct, and each
    /// constant handle has exactly one value carrying it, recorded at its
    /// handle's index.
    pub open(crate) spec fn wf_constants(&self) -> bool {
        &&& self.constant_values@.len() == self.num_consts()
        &&& forall|c: int|
            0 <= c < self.constant_values@.len() ==> self.valid_value(
                #[trigger] self.constant_values@[c],
            ) && (self.kind_of(self.constant_values@[c]) matches ValueKind::Const(cc) && cc.0 == c)
        &&& forall|i: int, j: int|
            0 <= i < j < self.constant_container.literals@.len()
                ==> self.constant_container.literals@[i] != self.constant_container.literals@[j]
    }

    /// The block arena, by block handle.
    pub open(crate) spec fn blocks_seq(&self) -> Seq<BlockData> {
        self.blocks@
    }

    /// The value space: each value's kind, by value handle.
    pub open(crate) spec fn value_kinds(&self) -> Seq<ValueKind> {
        self.values@
    }

    /// The primop pool, by primop handle.
    pub open(crate) spec fn primops_seq(&self) -> Seq<PrimOpData> {
        self.primops@
    }

    /// The operand sequence of a primop.
    pub open(crate) spec fn primop_reads_spec(&self, p: PrimOp) -> Seq<Value> {
        self.primops@[p.0 as int].reads@
    }

    /// The operator of a primop.
    pub open(crate) spec fn primop_op_spec(&self, p: PrimOp) -> PrimOpKind {
        self.primops@[p.0 as int].op
    }

    /// The value of each interned constant, by constant handle.
    pub open(crate) spec fn const_values(&self) -> Seq<Value> {
        self.constant_values@
    }

    /// The interned constant literals, by constant handle.
    pub open(crate) spec fn const_lits(&self) -> Seq<ConstLiteral> {
        self.constant_container.literals@
    }

    /// The whole-graph invariant.
    pub open(crate) spec fn wf(&self) -> bool {
        &&& self.wf_values()
        &&& self.wf_primops()
        &&& forall|b: Block| self.valid_block(b) ==> #[trigger] self.wf_block_at(b)
        &&& self.wf_adjacent()
        &&& self.wf_entry()
        &&& self.wf_constants()
    }
}

// ----------------------------------------------------------------------
// Lemmas about branch-target sequences.
// ----------------------------------------------------------------------

/// Branch targets only look up the reads' own indices: two value spaces that
/// agree there give the same target sequence.
pub proof fn lemma_targets_same_lookups(
    v1: Seq<ValueKind>,
    v2: Seq<ValueKind>,
    reads: Seq<Value>,
)
    requires
        forall|i: int|
            0 <= i < reads.len() ==> (#[trigger] reads[i]).0 < v1.len() && reads[i].0 < v2.len()
                && v1[reads[i].0 as int] == v2[reads[i].0 as int],
    ensures
        targets_in(v1, reads) == targets_in(v2, reads),
    decreases reads.len(),
{
    if reads.len() > 0 {
        assert(forall|i: int|
            0 <= i < reads.drop_last().len() ==> #[trigger] reads.drop_last()[i] == reads[i]);
        lemma_targets_same_lookups(v1, v2, reads.drop_last());
        assert(reads.last() == reads[reads.len() - 1]);
    }
}

/// Branch targets distribute over concatenation of read lists.
pub proof fn lemma_targets_concat(values: Seq<ValueKind>, a: Seq<Value>, b: Seq<Value>)
    ensures
        targets_in(values, a + b) == targets_in(values, a) + targets_in(values, b),
    decreases b.len(),
{
    if b.len() == 0 {
        assert(a + b =~= a);
        assert(targets_in(values, b) =~= Seq::<Block>::empty());
        assert(targets_in(values, a) + targets_in(values, b) =~= targets_in(values, a));
    } else {
        lemma_targets_concat(values, a, b.drop_last());
        assert((a + b).drop_last() =~= a + b.drop_last());
        assert((a + b).last() == b.last());
    }
}

/// Every branch target is the target of some block-valued read.
pub proof fn lemma_targets_membership(values: Seq<ValueKind>, reads: Seq<Value>, t: Block)
    ensures
        targets_in(values, reads).contains(t) <==> exists|i: int|
            0 <= i < reads.len() && (#[trigger] reads[i]).0 < values.len() && values[reads[i].0 as int]
                == ValueKind::Block(t),
    decreases reads.len(),
{
    if reads.len() > 0 {
        lemma_targets_membership(values, reads.drop_last(), t);
        assert(forall|i: int|
            0 <= i < reads.drop_last().len() ==> #[trigger] reads.drop_last()[i] == reads[i]);
        let rest = targets_in(values, reads.drop_last());
        if reads.last().0 < values.len() && values[reads.last().0 as int] == ValueKind::Block(t) {
            assert(targets_in(values, reads).contains(t)) by {
                assert(targets_in(values, reads).last() == t);
            }
        }
        if targets_in(values, reads).contains(t) {
            if !rest.contains(t) {
                let s = targets_in(values, reads);
                let k = choose|k: int| 0 <= k < s.len() && s[k] == t;
                if reads.last().0 < values.len() {
                    match values[reads.last().0 as int] {
                        ValueKind::Block(bl) => {
                            if k < rest.len() {
                                assert(rest[k] == t);
                            }
                        },
                        _ => {
                            assert(s == rest);
                        },
                    }
                } else {
                    assert(s == rest);
                }
            }
        }
        if exists|i: int|
            0 <= i < reads.len() && (#[trigger] reads[i]).0 < values.len() && values[reads[i].0 as int]
                == ValueKind::Block(t) {
            let i = choose|i: int|
                0 <= i < reads.len() && (#[trigger] reads[i]).0 < values.len()
                    && values[reads[i].0 as int] == ValueKind::Block(t);
            if i < reads.len() - 1 {
                assert(0 <= i < reads.drop_last().len() && (#[trigger] reads.drop_last()[i]).0
                    < values.len() && values[reads.drop_last()[i].0 as int] == ValueKind::Block(t));
                assert(rest.contains(t));
                if reads.last().0 < values.len() {
                    match values[reads.last().0 as int] {
                        ValueKind::Block(bl) => {
                            let k = choose|k: int| 0 <= k < rest.len() && rest[k] == t;
                            assert(targets_in(values, reads)[k] == t);
                        },
                        _ => {},
                    }
                }
            }
        }
    }
}

// ----------------------------------------------------------------------
// Construction and entity allocation.
// ----------------------------------------------------------------------

impl Function {
    /// A fresh, empty function graph with the given identity.
    pub fn new(ident: FunctionIdent) -> (r: Function)
        ensures
            r.wf(),
            r.ident_spec() == ident,
            r.entry_spec() is None,
            r.num_blocks() == 0,
            r.num_values() == 0,
            r.num_primops() == 0,
            r.num_consts() == 0,
    {
        Function {
            ident,
            entry_block: None,
            blocks: Vec::new(),
            values: Vec::new(),
            primops: Vec::new(),
            constant_container: ConstantContainer { literals: Vec::new() },
            constant_values: Vec::new(),
        }
    }

    /// Allocate a new, empty block, together with the value that names it.
    /// The handle is fresh and all previously issued entities are unchanged.
    pub fn block_insert(&mut self) -> (b: Block)
        requires
            old(self).wf(),
        ensures
            final(self).wf(),
            b.0 == old(self).num_blocks(),
            final(self).valid_block(b),
            final(self).num_blocks() == old(self).num_blocks() + 1,
            final(self).value_kinds() == old(self).value_kinds().push(ValueKind::Block(b)),
            final(self).args_of(b).len() == 0,
            final(self).op_of(b) is None,
            final(self).reads_of(b).len() == 0,
            final(self).phis_of(b).len() == 0,
            final(self).successors_of(b).len() == 0,
            final(self).predecessors_of(b).len() == 0,
            forall|b2: Block|
                old(self).valid_block(b2) ==> final(self).block_data(b2) == old(self).block_data(
                    b2,
                ),
            final(self).primops_seq() == old(self).primops_seq(),
            final(self).const_values() == old(self).const_values(),
            final(self).const_lits() == old(self).const_lits(),
            final(self).entry_spec() == old(self).entry_spec(),
            final(self).ident_spec() == old(self).ident_spec(),
    {
        let idx = self.blocks.len();
        let b = Block(idx);
        self.blocks.push(
            BlockData {
                arguments: Vec::new(),
                op: None,
                reads: Vec::new(),
                phis: Vec::new(),
                predecessors: Vec::new(),
                successors: Vec::new(),
            },
        );
        self.values.push(ValueKind::Block(b));
        proof {
            self.lemma_wf_after_block_insert(*old(self), b);
        }
        b
    }

    /// The whole-graph invariant holds again after `block_insert`.
    proof fn lemma_wf_after_block_insert(&self, pre: Function, b: Block)
        requires
            pre.wf(),
            b.0 == pre.num_blocks(),
            self.blocks@.len() == pre.blocks@.len() + 1,
            forall|i: int| 0 <= i < pre.blocks@.len() ==> self.blocks@[i] == pre.blocks@[i],
            self.block_data(b).arguments@.len() == 0,
            self.block_data(b).op is None,
            self.block_data(b).reads@.len() == 0,
            self.block_data(b).phis@.len() == 0,
            self.block_data(b).predecessors@.len() == 0,
            self.block_data(b).successors@.len() == 0,
            self.values@ == pre.values@.push(ValueKind::Block(b)),
            self.primops@ == pre.primops@,
            self.constant_values@ == pre.constant_values@,
            self.constant_container.literals@ == pre.constant_container.literals@,
            self.entry_block == pre.entry_block,
        ensures
            self.wf(),
    {
        assert forall|i: int| 0 <= i < self.values@.len() implies self.wf_kind(
            #[trigger] self.values@[i],
        ) by {
            if i < pre.values@.len() {
                assert(pre.wf_kind(pre.values@[i]));
                match pre.values@[i] {
                    ValueKind::Argument(b2, n) => {
                        assert(self.block_data(b2) == pre.block_data(b2));
                    },
                    _ => {},
                }
            }
        }
        assert forall|i: int, j: int|
            0 <= i < j < self.values@.len() implies self.values@[i] != self.values@[j] by {
            if j == pre.values@.len() as int {
                assert(pre.wf_kind(pre.values@[i]));
            }
        }
        assert forall|pi: int| 0 <= pi < self.primops@.len() implies #[trigger] self.wf_primop_at(
            pi,
        ) by {
            assert(pre.wf_primop_at(pi));
            let pd = self.primops@[pi];
            assert forall|j: int| 0 <= j < pd.reads@.len() implies {
                &&& self.valid_value(#[trigger] pd.reads@[j])
                &&& (self.kind_of(pd.reads@[j]) matches ValueKind::PrimOp(q) ==> q.0 < pi)
            } by {
                assert(pre.valid_value(pd.reads@[j]));
                assert(self.kind_of(pd.reads@[j]) == pre.kind_of(pd.reads@[j]));
            }
        }
        assert forall|b2: Block| self.valid_block(b2) implies #[trigger] self.wf_block_at(b2) by {
            if b2.0 < pre.num_blocks() {
                assert(pre.wf_block_at(b2));
                let bd = self.block_data(b2);
                assert(bd == pre.block_data(b2));
                assert forall|i: int|
                    0 <= i < bd.reads@.len() implies (#[trigger] bd.reads@[i]).0
                    < pre.values@.len() && self.values@[bd.reads@[i].0 as int]
                    == pre.values@[bd.reads@[i].0 as int] by {
                    assert(pre.valid_value(bd.reads@[i]));
                }
                lemma_targets_same_lookups(pre.values@, self.values@, bd.reads@);
                assert(self.branch_targets(bd.reads@) == pre.branch_targets(bd.reads@));
                assert forall|k: int| 0 <= k < bd.phis@.len() implies self.wf_phi(
                    b2,
                    #[trigger] bd.phis@[k],
                ) by {
                    assert(pre.wf_phi(b2, bd.phis@[k]));
                    assert(self.predecessors_of(b2) == pre.predecessors_of(b2));
                }
            } else {
                assert(b2 == b);
                assert(self.reads_of(b) =~= Seq::<Value>::empty());
                assert(self.branch_targets(self.reads_of(b)) =~= Seq::<Block>::empty());
                assert(self.successors_of(b) =~= self.branch_targets(self.reads_of(b)));
            }
        }
        assert forall|a: Block, b2: Block|
            self.valid_block(a) && self.valid_block(b2) implies (self.successors_of(a).contains(b2)
            <==> self.predecessors_of(b2).contains(a)) by {
            if a.0 < pre.num_blocks() && b2.0 < pre.num_blocks() {
                assert(self.successors_of(a) == pre.successors_of(a));
                assert(self.predecessors_of(b2) == pre.predecessors_of(b2));
                assert(pre.successors_of(a).contains(b2) <==> pre.predecessors_of(b2).contains(a));
            } else if a.0 == pre.num_blocks() {
                assert(self.successors_of(a).len() == 0);
                if b2.0 < pre.num_blocks() {
                    assert(self.predecessors_of(b2) == pre.predecessors_of(b2));
                    if pre.predecessors_of(b2).contains(a) {
                        let k = choose|k: int|
                            0 <= k < pre.predecessors_of(b2).len() && pre.predecessors_of(b2)[k]
                                == a;
                        assert(pre.wf_block_at(b2));
                        assert(pre.valid_block(pre.predecessors_of(b2)[k]));
                        assert(false);
                    }
                } else {
                    assert(self.predecessors_of(b2).len() == 0);
                }
            } else {
                assert(self.predecessors_of(b2).len() == 0);
                assert(self.successors_of(a) == pre.successors_of(a));
                if pre.successors_of(a).contains(b2) {
                    let k = choose|k: int|
                        0 <= k < pre.successors_of(a).len() && pre.successors_of(a)[k] == b2;
                    assert(pre.wf_block_at(a));
                    assert(pre.valid_block(pre.successors_of(a)[k]));
                    assert(false);
                }
            }
        }
        assert(self.wf_entry()) by {
            match self.entry_block {
                Some(e) => {
                    assert(self.predecessors_of(e) == pre.predecessors_of(e));
                },
                None => {},
            }
        }
        assert forall|c: int| 0 <= c < self.constant_values@.len() implies self.valid_value(
            #[trigger] self.constant_values@[c],
        ) && (self.kind_of(self.constant_values@[c]) matches ValueKind::Const(cc) && cc.0 == c) by {
            assert(pre.valid_value(pre.constant_values@[c]));
            assert(pre.kind_of(pre.constant_values@[c]) matches ValueKind::Const(cc) && cc.0 == c);
        }
    }

    /// Append a fresh argument to a block, together with the value naming it.
    pub fn block_arg_insert(&mut self, block: Block) -> (v: Value)
        requires
            old(self).wf(),
            old(self).valid_block(block),
        ensures
            final(self).wf(),
            v.0 == old(self).num_values(),
            final(self).valid_value(v),
            final(self).num_values() == old(self).num_values() + 1,
            forall|v2: Value|
                old(self).valid_value(v2) ==> final(self).kind_of(v2) == old(self).kind_of(v2),
            (final(self).kind_of(v) matches ValueKind::Argument(ab, ak) && ab == block && ak == old(
                self,
            ).args_of(block).len()),
            final(self).args_of(block) == old(self).args_of(block).push(v),
            final(self).num_blocks() == old(self).num_blocks(),
            final(self).op_of(block) == old(self).op_of(block),
            final(self).reads_of(block) == old(self).reads_of(block),
            final(self).phis_of(block) == old(self).phis_of(block),
            final(self).successors_of(block) == old(self).successors_of(block),
            final(self).predecessors_of(block) == old(self).predecessors_of(block),
            forall|b2: Block|
                old(self).valid_block(b2) && b2 != block ==> final(self).block_data(b2) == old(
                    self,
                ).block_data(b2),
            final(self).primops_seq() == old(self).primops_seq(),
            final(self).const_values() == old(self).const_values(),
            final(self).const_lits() == old(self).const_lits(),
            final(self).entry_spec() == old(self).entry_spec(),
            final(self).ident_spec() == old(self).ident_spec(),
    {
        let arg_num = self.blocks[block.0].arguments.len();
        let v = Value(self.values.len());
        self.values.push(ValueKind::Argument(block, arg_num));
        self.blocks[block.0].arguments.push(v);
        proof {
            self.lemma_wf_after_block_arg_insert(*old(self), block, v);
        }
        v
    }

    /// The whole-graph invariant holds again after `block_arg_insert`.
    proof fn lemma_wf_after_block_arg_insert(&self, pre: Function, block: Block, v: Value)
        requires
            pre.wf(),
            pre.valid_block(block),
            v.0 == pre.num_values(),
            self.values@.len() == pre.values@.len() + 1,
            forall|i: int| 0 <= i < pre.values@.len() ==> self.values@[i] == pre.values@[i],
            (self.values@[pre.values@.len() as int] matches ValueKind::Argument(ab, ak) && ab
                == block && ak == pre.args_of(block).len()),
            self.blocks@.len() == pre.blocks@.len(),
            forall|i: int|
                0 <= i < pre.blocks@.len() && i != block.0 as int ==> self.blocks@[i]
                    == pre.blocks@[i],
            self.block_data(block).arguments@ == pre.block_data(block).arguments@.push(v),
            self.block_data(block).op == pre.block_data(block).op,
            self.block_data(block).reads@ == pre.block_data(block).reads@,
            self.block_data(block).phis@ == pre.block_data(block).phis@,
            self.block_data(block).predecessors@ == pre.block_data(block).predecessors@,
            self.block_data(block).successors@ == pre.block_data(block).successors@,
            self.primops@ == pre.primops@,
            self.constant_values@ == pre.constant_values@,
            self.constant_container.literals@ == pre.constant_container.literals@,
            self.entry_block == pre.entry_block,
        ensures
            self.wf(),
    {
        let n = pre.args_of(block).len();
        assert forall|i: int| 0 <= i < self.values@.len() implies self.wf_kind(
            #[trigger] self.values@[i],
        ) by {
            if i < pre.values@.len() {
                assert(pre.wf_kind(pre.values@[i]));
                match pre.values@[i] {
                    ValueKind::Argument(b2, k) => {
                        if b2 == block {
                            assert(self.args_of(b2).len() == pre.args_of(b2).len() + 1);
                        } else {
                            assert(self.block_data(b2) == pre.block_data(b2));
                        }
                    },
                    _ => {},
                }
            } else {
                assert(self.args_of(block).len() == n + 1);
            }
        }
        assert forall|i: int, j: int|
            0 <= i < j < self.values@.len() implies self.values@[i] != self.values@[j] by {
            if j == pre.values@.len() as int {
                assert(pre.wf_kind(pre.values@[i]));
            }
        }
        assert forall|pi: int| 0 <= pi < self.primops@.len() implies #[trigger] self.wf_primop_at(
            pi,
        ) by {
            assert(pre.wf_primop_at(pi));
            let pd = self.primops@[pi];
            assert forall|j: int| 0 <= j < pd.reads@.len() implies {
                &&& self.valid_value(#[trigger] pd.reads@[j])
                &&& (self.kind_of(pd.reads@[j]) matches ValueKind::PrimOp(q) ==> q.0 < pi)
            } by {
                assert(pre.valid_value(pd.reads@[j]));
                assert(self.kind_of(pd.reads@[j]) == pre.kind_of(pd.reads@[j]));
            }
        }
        assert forall|b2: Block| self.valid_block(b2) implies #[trigger] self.wf_block_at(b2) by {
            assert(pre.wf_block_at(b2));
            let bd = self.block_data(b2);
            let bdp = pre.block_data(b2);
            assert(bd.reads@ == bdp.reads@);
            assert(bd.op == bdp.op);
            assert(bd.successors@ == bdp.successors@);
            assert(bd.predecessors@ == bdp.predecessors@);
            assert(bd.phis@ == bdp.phis@);
            assert forall|i: int|
                0 <= i < bd.reads@.len() implies (#[trigger] bd.reads@[i]).0 < pre.values@.len()
                && self.values@[bd.reads@[i].0 as int] == pre.values@[bd.reads@[i].0 as int] by {
                assert(pre.valid_value(bd.reads@[i]));
            }
            lemma_targets_same_lookups(pre.values@, self.values@, bd.reads@);
            assert forall|i: int|
                0 <= i < bd.arguments@.len() implies self.valid_value(#[trigger] bd.arguments@[i])
                && (self.kind_of(bd.arguments@[i]) matches ValueKind::Argument(ab, ak) && ab == b2
                && ak == i) by {
                if b2 == block && i == bdp.arguments@.len() as int {
                    assert(bd.arguments@[i] == v);
                } else {
                    assert(bd.arguments@[i] == bdp.arguments@[i]);
                    assert(pre.valid_value(bdp.arguments@[i]));
                    assert(self.kind_of(bd.arguments@[i]) == pre.kind_of(bdp.arguments@[i]));
                }
            }
            assert forall|k: int| 0 <= k < bd.phis@.len() implies self.wf_phi(
                b2,
                #[trigger] bd.phis@[k],
            ) by {
                assert(pre.wf_phi(b2, bd.phis@[k]));
                assert(self.predecessors_of(b2) == pre.predecessors_of(b2));
            }
        }
        assert forall|a: Block, b2: Block|
            self.valid_block(a) && self.valid_block(b2) implies (self.successors_of(a).contains(b2)
            <==> self.predecessors_of(b2).contains(a)) by {
            assert(self.successors_of(a) == pre.successors_of(a));
            assert(self.predecessors_of(b2) == pre.predecessors_of(b2));
            assert(pre.successors_of(a).contains(b2) <==> pre.predecessors_of(b2).contains(a));
        }
        assert(self.wf_entry()) by {
            match self.entry_block {
                Some(e) => {
                    assert(self.predecessors_of(e) == pre.predecessors_of(e));
                },
                None => {},
            }
        }
        assert forall|c: int| 0 <= c < self.constant_values@.len() implies self.valid_value(
            #[trigger] self.constant_values@[c],
        ) && (self.kind_of(self.constant_values@[c]) matches ValueKind::Const(cc) && cc.0 == c) by {
            assert(pre.valid_value(pre.constant_values@[c]));
            assert(pre.kind_of(pre.constant_values@[c]) matches ValueKind::Const(cc) && cc.0 == c);
        }
    }

    /// A change that touches no block, value, primop or constant keeps the
    /// whole-graph invariant, provided the entry choice stays well formed.
    proof fn lemma_wf_frame(&self, pre: Function)
        requires
            pre.wf(),
            self.blocks@ == pre.blocks@,
            self.values@ == pre.values@,
            self.primops@ == pre.primops@,
            self.constant_values@ == pre.constant_values@,
            self.constant_container.literals@ == pre.constant_container.literals@,
            self.wf_entry(),
        ensures
            self.wf(),
    {
        assert forall|i: int| 0 <= i < self.values@.len() implies self.wf_kind(
            #[trigger] self.values@[i],
        ) by {
            assert(pre.wf_kind(pre.values@[i]));
        }
        assert forall|pi: int| 0 <= pi < self.primops@.len() implies #[trigger] self.wf_primop_at(
            pi,
        ) by {
            assert(pre.wf_primop_at(pi));
            let pd = self.primops@[pi];
            assert forall|j: int| 0 <= j < pd.reads@.len() implies {
                &&& self.valid_value(#[trigger] pd.reads@[j])
                &&& (self.kind_of(pd.reads@[j]) matches ValueKind::PrimOp(q) ==> q.0 < pi)
            } by {
                assert(pre.valid_value(pd.reads@[j]));
            }
        }
        assert forall|b2: Block| self.valid_block(b2) implies #[trigger] self.wf_block_at(b2) by {
            assert(pre.wf_block_at(b2));
            let bd = self.block_data(b2);
            assert(bd == pre.block_data(b2));
            assert forall|k: int| 0 <= k < bd.phis@.len() implies self.wf_phi(
                b2,
                #[trigger] bd.phis@[k],
            ) by {
                assert(pre.wf_phi(b2, bd.phis@[k]));
            }
        }
        assert forall|a: Block, b2: Block|
            self.valid_block(a) && self.valid_block(b2) implies (self.successors_of(a).contains(b2)
            <==> self.predecessors_of(b2).contains(a)) by {
            assert(pre.successors_of(a).contains(b2) <==> pre.predecessors_of(b2).contains(a));
        }
        assert forall|c: int| 0 <= c < self.constant_values@.len() implies self.valid_value(
            #[trigger] self.constant_values@[c],
        ) && (self.kind_of(self.constant_values@[c]) matches ValueKind::Const(cc) && cc.0 == c) by {
            assert(pre.valid_value(pre.constant_values@[c]));
            assert(pre.kind_of(pre.constant_values@[c]) matches ValueKind::Const(cc) && cc.0 == c);
        }
    }


    /// Set the entry block. The entry block has no predecessors and is never
    /// removable; it can be chosen once.
    pub fn set_entry(&mut self, block: Block)
        requires
            old(self).wf(),
            old(self).valid_block(block),
            old(self).entry_spec() is None,
            old(self).predecessors_of(block).len() == 0,
        ensures
            final(self).wf(),
            final(self).entry_spec() == Some(block),
            final(self).blocks_seq() == old(self).blocks_seq(),
            final(self).value_kinds() == old(self).value_kinds(),
            final(self).primops_seq() == old(self).primops_seq(),
            final(self).const_values() == old(self).const_values(),
            final(self).const_lits() == old(self).const_lits(),
            final(self).ident_spec() == old(self).ident_spec(),
    {
        self.entry_block = Some(block);
        proof {
            self.lemma_wf_frame(*old(self));
        }
    }

    /// The entry block of the function.
    pub fn block_entry(&self) -> (b: Block)
        requires
            self.entry_spec() is Some,
        ensures
            Some(b) == self.entry_spec(),
    {
        self.entry_block.unwrap()
    }

    /// The identity of the function.
    pub fn ident(&self) -> (r: &FunctionIdent)
        ensures
            r == self.ident_spec(),
    {
        &self.ident
    }

    /// The number of arguments of the entry block.
    pub fn entry_arg_num(&self) -> (r: usize)
        requires
            self.wf(),
            self.entry_spec() is Some,
        ensures
            r == self.args_of(self.entry_spec()->Some_0).len(),
    {
        let entry = self.block_entry();
        self.blocks[entry.0].arguments.len()
    }

    /// The constant store of the function.
    pub fn cons(&self) -> (r: &ConstantContainer)
        ensures
            r.lits() == self.const_lits(),
    {
        &self.constant_container
    }
}

// ----------------------------------------------------------------------
// The value space, read-only.
// ----------------------------------------------------------------------

impl Function {
    /// The producing kind of a value.
    pub fn value_kind(&self, value: Value) -> (r: ValueKind)
        requires
            self.valid_value(value),
        ensures
            r == self.kind_of(value),
    {
        self.values[value.0]
    }

    /// If the value is a block argument, its defining block and position.
    pub fn value_argument(&self, value: Value) -> (r: Option<(Block, usize)>)
        requires
            self.valid_value(value),
        ensures
            r == (match self.kind_of(value) {
                ValueKind::Argument(b, n) => Some((b, n)),
                _ => None::<(Block, usize)>,
            }),
    {
        if let ValueKind::Argument(block, arg) = self.values[value.0] {
            Some((block, arg))
        } else {
            None
        }
    }

    /// If the value is a block reference, the block it names.
    pub fn value_block(&self, value: Value) -> (r: Option<Block>)
        requires
            self.valid_value(value),
        ensures
            r == (match self.kind_of(value) {
                ValueKind::Block(b) => Some(b),
                _ => None::<Block>,
            }),
    {
        if let ValueKind::Block(block) = self.values[value.0] {
            Some(block)
        } else {
            None
        }
    }

    /// If the value is a constant, its constant handle.
    pub fn value_const(&self, value: Value) -> (r: Option<Const>)
        requires
            self.valid_value(value),
        ensures
            r == (match self.kind_of(value) {
                ValueKind::Const(c) => Some(c),
                _ => None::<Const>,
            }),
    {
        if let ValueKind::Const(con) = self.values[value.0] {
            Some(con)
        } else {
            None
        }
    }

    /// If the value is a primop result, the primop it results from.
    pub fn value_primop(&self, value: Value) -> (r: Option<PrimOp>)
        requires
            self.valid_value(value),
        ensures
            r == (match self.kind_of(value) {
                ValueKind::PrimOp(p) => Some(p),
                _ => None::<PrimOp>,
            }),
    {
        if let ValueKind::PrimOp(prim) = self.values[value.0] {
            Some(prim)
        } else {
            None
        }
    }

    /// Whether the value is an interned constant.
    pub fn value_is_constant(&self, value: Value) -> (r: bool)
        requires
            self.wf(),
            self.valid_value(value),
        ensures
            r <==> self.kind_of(value) is Const,
            r <==> self.const_values().contains(value),
    {
        proof {
            self.lemma_const_value_membership(value);
        }
        match self.values[value.0] {
            ValueKind::Const(_) => true,
            _ => false,
        }
    }

    /// A value's kind is constant exactly when the value is recorded in the
    /// constant-value table.
    proof fn lemma_const_value_membership(&self, value: Value)
        requires
            self.wf(),
            self.valid_value(value),
        ensures
            self.kind_of(value) is Const <==> self.const_values().contains(value),
    {
        match self.kind_of(value) {
            ValueKind::Const(c) => {
                assert(self.wf_kind(self.values@[value.0 as int]));
                assert(self.valid_const(c));
                let w = self.constant_values@[c.0 as int];
                assert(self.kind_of(w) matches ValueKind::Const(cc) && cc.0 == c.0);
                assert(w == value) by {
                    if w != value {
                        assert(self.values@[w.0 as int] == self.values@[value.0 as int]);
                        if w.0 < value.0 {
                            assert(self.values@[w.0 as int] != self.values@[value.0 as int]);
                        } else {
                            assert(self.values@[value.0 as int] != self.values@[w.0 as int]);
                        }
                    }
                }
                assert(self.const_values().contains(value));
            },
            _ => {
                if self.const_values().contains(value) {
                    let k = choose|k: int|
                        0 <= k < self.const_values().len() && self.const_values()[k] == value;
                    assert(self.kind_of(self.constant_values@[k]) is Const);
                }
            },
        }
    }

    /// The value naming a block, if one has been issued. Every block made
    /// by `block_insert` has one.
    pub fn block_value(&self, block: Block) -> (r: Option<Value>)
        requires
            self.wf(),
        ensures
            r matches Some(v) ==> self.valid_value(v) && self.kind_of(v) == ValueKind::Block(
                block,
            ),
            r is None ==> forall|v: Value|
                self.valid_value(v) ==> self.kind_of(v) != ValueKind::Block(block),
    {
        let n = self.values.len();
        let mut vi: usize = 0;
        while vi < n
            invariant
                vi <= n,
                n == self.value_kinds().len(),
                forall|k: int|
                    0 <= k < vi ==> self.value_kinds()[k] != ValueKind::Block(block),
            decreases n - vi,
        {
            let hit = match self.values[vi] {
                ValueKind::Block(b) => b.0 == block.0,
                _ => false,
            };
            if hit {
                return Some(Value(vi));
            }
            vi += 1;
        }
        proof {
            assert forall|v: Value| self.valid_value(v) implies self.kind_of(v)
                != ValueKind::Block(block) by {
                assert(self.value_kinds()[v.0 as int] != ValueKind::Block(block));
            }
        }
        None
    }

    /// The values of all interned constants.
    pub fn iter_constants(&self) -> (r: &Vec<Value>)
        ensures
            r@ == self.const_values(),
    {
        &self.constant_values
    }

    /// Intern a constant literal: the same literal always resolves to the
    /// same constant handle and the same value. A new literal allocates a
    /// fresh handle and a fresh value; an already-interned literal changes
    /// nothing.
    pub fn intern_constant(&mut self, lit: ConstLiteral) -> (v: Value)
        requires
            old(self).wf(),
        ensures
            final(self).wf(),
            final(self).valid_value(v),
            (final(self).kind_of(v) matches ValueKind::Const(c) && c.0 < final(self).const_lits().len()
                && final(self).const_lits()[c.0 as int] == lit),
            old(self).const_lits().contains(lit) ==> {
                &&& final(self).value_kinds() == old(self).value_kinds()
                &&& final(self).const_lits() == old(self).const_lits()
                &&& final(self).const_values() == old(self).const_values()
            },
            !old(self).const_lits().contains(lit) ==> {
                &&& v.0 == old(self).num_values()
                &&& final(self).const_lits() == old(self).const_lits().push(lit)
                &&& final(self).const_values() == old(self).const_values().push(v)
                &&& final(self).value_kinds().len() == old(self).value_kinds().len() + 1
            },
            forall|v2: Value|
                old(self).valid_value(v2) ==> final(self).kind_of(v2) == old(self).kind_of(v2),
            final(self).blocks_seq() == old(self).blocks_seq(),
            final(self).primops_seq() == old(self).primops_seq(),
            final(self).entry_spec() == old(self).entry_spec(),
            final(self).ident_spec() == old(self).ident_spec(),
    {
        let n = self.constant_container.literals.len();
        let mut i: usize = 0;
        while i < n
            invariant
                *self == *old(self),
                n == self.const_lits().len(),
                i <= n,
                self.wf(),
                forall|k: int| 0 <= k < i ==> self.const_lits()[k] != lit,
            decreases n - i,
        {
            if self.constant_container.literals[i] == lit {
                let v = self.constant_values[i];
                proof {
                    assert(self.const_lits().contains(lit));
                }
                return v;
            }
            i += 1;
        }
        proof {
            assert(!self.const_lits().contains(lit)) by {
                if self.const_lits().contains(lit) {
                    let k = choose|k: int|
                        0 <= k < self.const_lits().len() && self.const_lits()[k] == lit;
                    assert(self.const_lits()[k] != lit);
                }
            }
        }
        let c = Const(n);
        let v = Value(self.values.len());
        self.constant_container.literals.push(lit);
        self.values.push(ValueKind::Const(c));
        self.constant_values.push(v);
        proof {
            assert forall|i2: int|
                0 <= i2 < old(self).values@.len() implies old(self).values@[i2] != ValueKind::Const(
                c,
            ) by {
                assert(old(self).wf_kind(old(self).values@[i2]));
            }
            self.lemma_wf_after_value_push(*old(self), ValueKind::Const(c));
        }
        v
    }
}

// ----------------------------------------------------------------------
// The primop pool.
// ----------------------------------------------------------------------

/// Whether two value vectors hold the same handles in the same order.
fn values_eq(a: &Vec<Value>, b: &Vec<Value>) -> (r: bool)
    ensures
        r <==> a@ == b@,
{
    if a.len() != b.len() {
        return false;
    }
    let mut i: usize = 0;
    while i < a.len()
        invariant
            i <= a@.len(),
            a@.len() == b@.len(),
            forall|k: int| 0 <= k < i ==> a@[k] == b@[k],
        decreases a@.len() - i,
    {
        if a[i].0 != b[i].0 {
            return false;
        }
        i += 1;
    }
    proof {
        assert(a@ =~= b@);
    }
    true
}

impl Function {
    /// The operator of a primop.
    pub fn primop_kind(&self, primop: PrimOp) -> (r: &PrimOpKind)
        requires
            self.valid_primop(primop),
        ensures
            r == self.primop_op_spec(primop),
    {
        &self.primops[primop.0].op
    }

    /// The ordered operand values of a primop.
    pub fn primop_reads(&self, primop: PrimOp) -> (r: &Vec<Value>)
        requires
            self.valid_primop(primop),
        ensures
            r@ == self.primop_reads_spec(primop),
    {
        &self.primops[primop.0].reads
    }

    /// Insert an operation into the deduplicating pool: a structurally
    /// identical operation (same operator, same ordered operand identities)
    /// resolves to the existing identity and changes nothing; otherwise a
    /// fresh identity is allocated. Structurally identical operations are
    /// unrepresentable as two identities.
    pub fn primop_insert(&mut self, op: PrimOpKind, reads: Vec<Value>) -> (p: PrimOp)
        requires
            old(self).wf(),
            forall|i: int| 0 <= i < reads@.len() ==> old(self).valid_value(#[trigger] reads@[i]),
        ensures
            final(self).wf(),
            final(self).valid_primop(p),
            final(self).primop_matches(p.0 as int, op, reads@),
            (exists|pi: int|
                0 <= pi < old(self).primops_seq().len() && old(self).primop_matches(
                    pi,
                    op,
                    reads@,
                )) ==> final(self).primops_seq() == old(self).primops_seq(),
            !(exists|pi: int|
                0 <= pi < old(self).primops_seq().len() && old(self).primop_matches(
                    pi,
                    op,
                    reads@,
                )) ==> {
                &&& p.0 == old(self).primops_seq().len()
                &&& final(self).primops_seq().len() == old(self).primops_seq().len() + 1
            },
            forall|pi: int|
                0 <= pi < old(self).primops_seq().len() ==> final(self).primops_seq()[pi] == old(
                    self,
                ).primops_seq()[pi],
            final(self).blocks_seq() == old(self).blocks_seq(),
            final(self).value_kinds() == old(self).value_kinds(),
            final(self).const_values() == old(self).const_values(),
            final(self).const_lits() == old(self).const_lits(),
            final(self).entry_spec() == old(self).entry_spec(),
            final(self).ident_spec() == old(self).ident_spec(),
    {
        let n = self.primops.len();
        let mut pi: usize = 0;
        while pi < n
            invariant
                *self == *old(self),
                n == self.primops_seq().len(),
                pi <= n,
                self.wf(),
                forall|k: int| 0 <= k < pi ==> !self.primop_matches(k, op, reads@),
            decreases n - pi,
        {
            if self.primops[pi].op == op && values_eq(&self.primops[pi].reads, &reads) {
                proof {
                    assert(old(self).primop_matches(pi as int, op, reads@));
                }
                return PrimOp(pi);
            }
            pi += 1;
        }
        let p = PrimOp(n);
        self.primops.push(PrimOpData { op, reads });
        proof {
            self.lemma_wf_after_primop_push(*old(self), p);
        }
        p
    }

    /// The whole-graph invariant holds again after pushing a fresh,
    /// structurally new primop whose operands are issued values.
    proof fn lemma_wf_after_primop_push(&self, pre: Function, p: PrimOp)
        requires
            pre.wf(),
            p.0 == pre.primops@.len(),
            self.primops@.len() == pre.primops@.len() + 1,
            forall|i: int| 0 <= i < pre.primops@.len() ==> self.primops@[i] == pre.primops@[i],
            forall|j: int|
                0 <= j < self.primops@[p.0 as int].reads@.len() ==> pre.valid_value(
                    #[trigger] self.primops@[p.0 as int].reads@[j],
                ),
            forall|pi: int|
                0 <= pi < pre.primops@.len() ==> !pre.primop_matches(
                    pi,
                    self.primops@[p.0 as int].op,
                    self.primops@[p.0 as int].reads@,
                ),
            self.blocks@ == pre.blocks@,
            self.values@ == pre.values@,
            self.constant_values@ == pre.constant_values@,
            self.constant_container.literals@ == pre.constant_container.literals@,
            self.entry_block == pre.entry_block,
        ensures
            self.wf(),
    {
        assert forall|i: int| 0 <= i < self.values@.len() implies self.wf_kind(
            #[trigger] self.values@[i],
        ) by {
            assert(pre.wf_kind(pre.values@[i]));
        }
        assert forall|pi: int| 0 <= pi < self.primops@.len() implies #[trigger] self.wf_primop_at(
            pi,
        ) by {
            let pd = self.primops@[pi];
            if pi < pre.primops@.len() {
                assert(pre.wf_primop_at(pi));
                assert forall|j: int| 0 <= j < pd.reads@.len() implies {
                    &&& self.valid_value(#[trigger] pd.reads@[j])
                    &&& (self.kind_of(pd.reads@[j]) matches ValueKind::PrimOp(q) ==> q.0 < pi)
                } by {
                    assert(pre.valid_value(pd.reads@[j]));
                }
            } else {
                assert forall|j: int| 0 <= j < pd.reads@.len() implies {
                    &&& self.valid_value(#[trigger] pd.reads@[j])
                    &&& (self.kind_of(pd.reads@[j]) matches ValueKind::PrimOp(q) ==> q.0 < pi)
                } by {
                    assert(pre.valid_value(pd.reads@[j]));
                    assert(pre.wf_kind(pre.values@[pd.reads@[j].0 as int]));
                }
            }
        }
        assert forall|pi: int, pj: int|
            0 <= pi < pj < self.primops@.len() implies !(#[trigger] self.primops@[pi].op
            == #[trigger] self.primops@[pj].op && self.primops@[pi].reads@
            == self.primops@[pj].reads@) by {
            if pj < pre.primops@.len() {
                assert(pre.primops@[pi].op == self.primops@[pi].op);
            } else {
                assert(!pre.primop_matches(pi, self.primops@[pj].op, self.primops@[pj].reads@));
            }
        }
        assert forall|b2: Block| self.valid_block(b2) implies #[trigger] self.wf_block_at(b2) by {
            assert(pre.wf_block_at(b2));
            let bd = self.block_data(b2);
            assert(bd == pre.block_data(b2));
            assert forall|k: int| 0 <= k < bd.phis@.len() implies self.wf_phi(
                b2,
                #[trigger] bd.phis@[k],
            ) by {
                assert(pre.wf_phi(b2, bd.phis@[k]));
            }
        }
        assert forall|a: Block, b2: Block|
            self.valid_block(a) && self.valid_block(b2) implies (self.successors_of(a).contains(b2)
            <==> self.predecessors_of(b2).contains(a)) by {
            assert(pre.successors_of(a).contains(b2) <==> pre.predecessors_of(b2).contains(a));
        }
        assert forall|c: int| 0 <= c < self.constant_values@.len() implies self.valid_value(
            #[trigger] self.constant_values@[c],
        ) && (self.kind_of(self.constant_values@[c]) matches ValueKind::Const(cc) && cc.0 == c) by {
            assert(pre.valid_value(pre.constant_values@[c]));
            assert(pre.kind_of(pre.constant_values@[c]) matches ValueKind::Const(cc) && cc.0 == c);
        }
    }

    /// The value naming a primop's result: the same primop always resolves to
    /// the same value. A primop not yet recorded gets a fresh value; one
    /// already recorded changes nothing.
    pub fn record_primop_value(&mut self, primop: PrimOp) -> (v: Value)
        requires
            old(self).wf(),
            old(self).valid_primop(primop),
        ensures
            final(self).wf(),
            final(self).valid_value(v),
            final(self).kind_of(v) == ValueKind::PrimOp(primop),
            (exists|v2: Value|
                old(self).valid_value(v2) && old(self).kind_of(v2) == ValueKind::PrimOp(primop))
                ==> final(self).value_kinds() == old(self).value_kinds(),
            !(exists|v2: Value|
                old(self).valid_value(v2) && old(self).kind_of(v2) == ValueKind::PrimOp(primop))
                ==> {
                &&& v.0 == old(self).num_values()
                &&& final(self).value_kinds() == old(self).value_kinds().push(
                    ValueKind::PrimOp(primop),
                )
            },
            forall|v2: Value|
                old(self).valid_value(v2) ==> final(self).kind_of(v2) == old(self).kind_of(v2),
            final(self).blocks_seq() == old(self).blocks_seq(),
            final(self).primops_seq() == old(self).primops_seq(),
            final(self).const_values() == old(self).const_values(),
            final(self).const_lits() == old(self).const_lits(),
            final(self).entry_spec() == old(self).entry_spec(),
            final(self).ident_spec() == old(self).ident_spec(),
    {
        let n = self.values.len();
        let mut vi: usize = 0;
        while vi < n
            invariant
                *self == *old(self),
                n == self.value_kinds().len(),
                vi <= n,
                self.wf(),
                old(self).valid_primop(primop),
                forall|k: int|
                    0 <= k < vi ==> self.value_kinds()[k] != ValueKind::PrimOp(primop),
            decreases n - vi,
        {
            let hit = match self.values[vi] {
                ValueKind::PrimOp(q) => q.0 == primop.0,
                _ => false,
            };
            if hit {
                return Value(vi);
            }
            vi += 1;
        }
        let v = Value(n);
        self.values.push(ValueKind::PrimOp(primop));
        proof {
            assert forall|v2: Value|
                old(self).valid_value(v2) implies old(self).kind_of(v2) != ValueKind::PrimOp(
                primop,
            ) by {
                assert(old(self).value_kinds()[v2.0 as int] != ValueKind::PrimOp(primop));
            }
            assert forall|i2: int|
                0 <= i2 < old(self).values@.len() implies old(self).values@[i2]
                != ValueKind::PrimOp(primop) by {
                assert(old(self).valid_value(Value(i2 as usize)));
                assert(old(self).kind_of(Value(i2 as usize)) != ValueKind::PrimOp(primop));
            }
            self.lemma_wf_after_value_push(*old(self), ValueKind::PrimOp(primop));
        }
        v
    }

    /// The whole-graph invariant holds again after pushing one fresh value
    /// whose kind names no new block and no new argument position: a constant
    /// kind extends the constant tables in step, any other kind leaves them
    /// unchanged.
    proof fn lemma_wf_after_value_push(&self, pre: Function, k: ValueKind)
        requires
            pre.wf(),
            self.blocks@ == pre.blocks@,
            self.values@ == pre.values@.push(k),
            self.wf_kind(k),
            !(k is Block),
            !(k is Argument),
            forall|i: int| 0 <= i < pre.values@.len() ==> pre.values@[i] != k,
            self.primops@ == pre.primops@,
            self.entry_block == pre.entry_block,
            (k matches ValueKind::Const(c) ==> {
                &&& c.0 == pre.constant_container.literals@.len()
                &&& self.constant_container.literals@.len() == pre.constant_container.literals@.len()
                    + 1
                &&& forall|i: int|
                    0 <= i < pre.constant_container.literals@.len()
                        ==> self.constant_container.literals@[i]
                        == pre.constant_container.literals@[i]
                &&& forall|i: int|
                    0 <= i < pre.constant_container.literals@.len()
                        ==> #[trigger] self.constant_container.literals@[i]
                        != self.constant_container.literals@[c.0 as int]
                &&& self.constant_values@.len() == pre.constant_values@.len() + 1
                &&& forall|i: int|
                    0 <= i < pre.constant_values@.len() ==> #[trigger] self.constant_values@[i]
                        == pre.constant_values@[i]
                &&& self.constant_values@.last().0 == pre.values@.len()
            }),
            (!(k is Const) ==> self.constant_values@ == pre.constant_values@
                && self.constant_container.literals@ == pre.constant_container.literals@),
        ensures
            self.wf(),
    {
        assert forall|i: int| 0 <= i < self.values@.len() implies self.wf_kind(
            #[trigger] self.values@[i],
        ) by {
            if i < pre.values@.len() {
                assert(pre.wf_kind(pre.values@[i]));
            }
        }
        assert forall|i: int, j: int|
            0 <= i < j < self.values@.len() implies self.values@[i] != self.values@[j] by {
            if j == pre.values@.len() as int {
                assert(pre.values@[i] != k);
            }
        }
        assert forall|pi: int| 0 <= pi < self.primops@.len() implies #[trigger] self.wf_primop_at(
            pi,
        ) by {
            assert(pre.wf_primop_at(pi));
            let pd = self.primops@[pi];
            assert forall|j: int| 0 <= j < pd.reads@.len() implies {
                &&& self.valid_value(#[trigger] pd.reads@[j])
                &&& (self.kind_of(pd.reads@[j]) matches ValueKind::PrimOp(q) ==> q.0 < pi)
            } by {
                assert(pre.valid_value(pd.reads@[j]));
                assert(self.kind_of(pd.reads@[j]) == pre.kind_of(pd.reads@[j]));
            }
        }
        assert forall|b2: Block| self.valid_block(b2) implies #[trigger] self.wf_block_at(b2) by {
            assert(pre.wf_block_at(b2));
            let bd = self.block_data(b2);
            assert(bd == pre.block_data(b2));
            assert forall|i: int|
                0 <= i < bd.reads@.len() implies (#[trigger] bd.reads@[i]).0 < pre.values@.len()
                && self.values@[bd.reads@[i].0 as int] == pre.values@[bd.reads@[i].0 as int] by {
                assert(pre.valid_value(bd.reads@[i]));
            }
            lemma_targets_same_lookups(pre.values@, self.values@, bd.reads@);
            assert forall|i: int|
                0 <= i < bd.arguments@.len() implies self.valid_value(#[trigger] bd.arguments@[i])
                && (self.kind_of(bd.arguments@[i]) matches ValueKind::Argument(ab, ak) && ab == b2
                && ak == i) by {
                assert(pre.valid_value(bd.arguments@[i]));
                assert(self.kind_of(bd.arguments@[i]) == pre.kind_of(bd.arguments@[i]));
            }
            assert forall|kk: int| 0 <= kk < bd.phis@.len() implies self.wf_phi(
                b2,
                #[trigger] bd.phis@[kk],
            ) by {
                assert(pre.wf_phi(b2, bd.phis@[kk]));
            }
        }
        assert forall|a: Block, b2: Block|
            self.valid_block(a) && self.valid_block(b2) implies (self.successors_of(a).contains(b2)
            <==> self.predecessors_of(b2).contains(a)) by {
            assert(pre.successors_of(a).contains(b2) <==> pre.predecessors_of(b2).contains(a));
        }
        assert(self.wf_entry()) by {
            match self.entry_block {
                Some(e) => {
                    assert(self.predecessors_of(e) == pre.predecessors_of(e));
                },
                None => {},
            }
        }
        assert forall|c: int| 0 <= c < self.constant_values@.len() implies self.valid_value(
            #[trigger] self.constant_values@[c],
        ) && (self.kind_of(self.constant_values@[c]) matches ValueKind::Const(cc) && cc.0 == c) by {
            if c < pre.constant_values@.len() {
                assert(pre.valid_value(pre.constant_values@[c]));
                assert(pre.kind_of(pre.constant_values@[c]) matches ValueKind::Const(cc) && cc.0
                    == c);
            }
        }
        assert forall|i: int, j: int|
            0 <= i < j < self.constant_container.literals@.len()
            implies self.constant_container.literals@[i] != self.constant_container.literals@[j] by {
            if j < pre.constant_container.literals@.len() {
                assert(pre.constant_container.literals@[i] != pre.constant_container.literals@[j]);
            }
        }
    }
}

// ----------------------------------------------------------------------
// Blocks, read-only.
// ----------------------------------------------------------------------

/// The first index of a block handle in a vector that contains it.
fn find_block(v: &Vec<Block>, x: Block) -> (r: usize)
    requires
        v@.contains(x),
    ensures
        r < v@.len(),
        v@[r as int] == x,
        forall|k: int| 0 <= k < r ==> v@[k] != x,
{
    let n = v.len();
    let mut i: usize = 0;
    while i < n
        invariant
            i <= n,
            n == v@.len(),
            v@.contains(x),
            forall|k: int| 0 <= k < i ==> v@[k] != x,
        decreases n - i,
    {
        if v[i].0 == x.0 {
            return i;
        }
        i += 1;
    }
    proof {
        let k = choose|k: int| 0 <= k < v@.len() && v@[k] == x;
        assert(false);
    }
    0
}

/// The first index of a phi entry carrying the given tag.
fn find_phi_entry(entries: &Vec<(Block, Value)>, tag: Block) -> (r: usize)
    requires
        exists|j: int| 0 <= j < entries@.len() && (#[trigger] entries@[j]).0 == tag,
    ensures
        r < entries@.len(),
        entries@[r as int].0 == tag,
        forall|k: int| 0 <= k < r ==> (#[trigger] entries@[k]).0 != tag,
{
    let n = entries.len();
    let mut i: usize = 0;
    while i < n
        invariant
            i <= n,
            n == entries@.len(),
            exists|j: int| 0 <= j < entries@.len() && (#[trigger] entries@[j]).0 == tag,
            forall|k: int| 0 <= k < i ==> (#[trigger] entries@[k]).0 != tag,
        decreases n - i,
    {
        if entries[i].0.0 == tag.0 {
            return i;
        }
        i += 1;
    }
    proof {
        let j = choose|j: int| 0 <= j < entries@.len() && (#[trigger] entries@[j]).0 == tag;
        assert(false);
    }
    0
}

impl Function {
    /// The ordered argument values of a block.
    pub fn block_args(&self, block: Block) -> (r: &Vec<Value>)
        requires
            self.valid_block(block),
        ensures
            r@ == self.args_of(block),
    {
        &self.blocks[block.0].arguments
    }

    /// The ordered read values of a block's operation.
    pub fn block_reads(&self, block: Block) -> (r: &Vec<Value>)
        requires
            self.valid_block(block),
        ensures
            r@ == self.reads_of(block),
    {
        &self.blocks[block.0].reads
    }

    /// The operation of a block, if one has been set.
    pub fn block_kind(&self, block: Block) -> (r: Option<OpKind>)
        requires
            self.valid_block(block),
        ensures
            r == self.op_of(block),
    {
        self.blocks[block.0].op
    }

    /// The argument value of a block at a position, if the position is live.
    pub fn block_arg_n(&self, block: Block, num: usize) -> (r: Option<Value>)
        requires
            self.valid_block(block),
        ensures
            r == (if num < self.args_of(block).len() {
                Some(self.args_of(block)[num as int])
            } else {
                None::<Value>
            }),
    {
        if num < self.blocks[block.0].arguments.len() {
            Some(self.blocks[block.0].arguments[num])
        } else {
            None
        }
    }

    /// The phi nodes of a block.
    pub fn block_phis(&self, block: Block) -> (r: &Vec<Phi>)
        requires
            self.valid_block(block),
        ensures
            r@ == self.phis_of(block),
    {
        &self.blocks[block.0].phis
    }

    /// The stored predecessors of a block.
    pub fn block_predecessors(&self, block: Block) -> (r: &Vec<Block>)
        requires
            self.valid_block(block),
        ensures
            r@ == self.predecessors_of(block),
    {
        &self.blocks[block.0].predecessors
    }

    /// The block's successors, in the exact order their block-valued reads
    /// appear in the operation's read list. Consumers choose a control
    /// transfer by position in this sequence.
    pub fn branch_slots(&self, block: Block) -> (r: Vec<Block>)
        requires
            self.wf(),
            self.valid_block(block),
        ensures
            r@ == self.successors_of(block),
            r@ == self.branch_targets(self.reads_of(block)),
    {
        proof {
            assert(self.wf_block_at(block));
        }
        let n = self.blocks[block.0].successors.len();
        let mut out: Vec<Block> = Vec::new();
        let mut i: usize = 0;
        while i < n
            invariant
                i <= n,
                self.valid_block(block),
                n == self.successors_of(block).len(),
                out@ == self.successors_of(block).take(i as int),
            decreases n - i,
        {
            out.push(self.blocks[block.0].successors[i]);
            proof {
                assert(out@ =~= self.successors_of(block).take(i + 1));
            }
            i += 1;
        }
        proof {
            assert(out@ =~= self.successors_of(block));
        }
        out
    }
}

// ----------------------------------------------------------------------
// Graph surgery.
// ----------------------------------------------------------------------

impl Function {
    /// Remove `from` from `to`'s stored predecessor list and drop the phi
    /// entry tagged with it from every phi node of `to`; nothing else in the
    /// graph is touched. Callers re-establish the whole-graph invariant.
    #[verifier::rlimit(100)]
    #[verifier::spinoff_prover]
    fn detach_pred(&mut self, from: Block, to: Block)
        requires
            old(self).valid_block(to),
            old(self).predecessors_of(to).no_duplicates(),
            old(self).predecessors_of(to).contains(from),
            forall|k: int|
                0 <= k < old(self).phis_of(to).len() ==> {
                    &&& phi_tags(#[trigger] old(self).phis_of(to)[k]).no_duplicates()
                    &&& forall|p: Block|
                        #![trigger phi_tags(old(self).phis_of(to)[k]).contains(p)]
                        #![trigger old(self).predecessors_of(to).contains(p)]
                        phi_tags(old(self).phis_of(to)[k]).contains(p) <==> old(
                            self,
                        ).predecessors_of(to).contains(p)
                },
        ensures
            final(self).blocks_seq().len() == old(self).blocks_seq().len(),
            forall|b2: Block|
                old(self).valid_block(b2) && b2 != to ==> final(self).block_data(b2) == old(
                    self,
                ).block_data(b2),
            final(self).args_of(to) == old(self).args_of(to),
            final(self).op_of(to) == old(self).op_of(to),
            final(self).reads_of(to) == old(self).reads_of(to),
            final(self).successors_of(to) == old(self).successors_of(to),
            seq_removed(old(self).predecessors_of(to), final(self).predecessors_of(to), from),
            final(self).predecessors_of(to).no_duplicates(),
            forall|p: Block|
                #![trigger final(self).predecessors_of(to).contains(p)]
                final(self).predecessors_of(to).contains(p) <==> (old(self).predecessors_of(
                    to,
                ).contains(p) && p != from),
            final(self).phis_of(to).len() == old(self).phis_of(to).len(),
            forall|k: int|
                0 <= k < final(self).phis_of(to).len() ==> {
                    &&& (#[trigger] final(self).phis_of(to)[k]).value == old(self).phis_of(
                        to,
                    )[k].value
                    &&& exists|j: int|
                        0 <= j < old(self).phis_of(to)[k].entries@.len() && (#[trigger] old(
                            self,
                        ).phis_of(to)[k].entries@[j]).0 == from && final(self).phis_of(
                            to,
                        )[k].entries@ == old(self).phis_of(to)[k].entries@.remove(j)
                    &&& phi_tags(final(self).phis_of(to)[k]).no_duplicates()
                    &&& forall|p: Block|
                        #![trigger phi_tags(final(self).phis_of(to)[k]).contains(p)]
                        phi_tags(final(self).phis_of(to)[k]).contains(p) <==> (phi_tags(
                            old(self).phis_of(to)[k],
                        ).contains(p) && p != from)
                },
            final(self).value_kinds() == old(self).value_kinds(),
            final(self).primops_seq() == old(self).primops_seq(),
            final(self).const_values() == old(self).const_values(),
            final(self).const_lits() == old(self).const_lits(),
            final(self).entry_spec() == old(self).entry_spec(),
            final(self).ident_spec() == old(self).ident_spec(),
    {
        let pred_idx = find_block(&self.blocks[to.0].predecessors, from);
        self.blocks[to.0].predecessors.remove(pred_idx);
        proof {
            lemma_seq_remove_dedup(old(self).predecessors_of(to), pred_idx as int);
            assert(seq_removed(
                old(self).predecessors_of(to),
                self.predecessors_of(to),
                from,
            )) by {
                assert(old(self).predecessors_of(to)[pred_idx as int] == from);
            }
        }
        let num_phis = self.blocks[to.0].phis.len();
        let mut k: usize = 0;
        while k < num_phis
            invariant
                k <= num_phis,
                self.valid_block(to),
                self.blocks@.len() == old(self).blocks@.len(),
                forall|b2: Block|
                    old(self).valid_block(b2) && b2 != to ==> self.block_data(b2) == old(
                        self,
                    ).block_data(b2),
                self.args_of(to) == old(self).args_of(to),
                self.op_of(to) == old(self).op_of(to),
                self.reads_of(to) == old(self).reads_of(to),
                self.successors_of(to) == old(self).successors_of(to),
                seq_removed(old(self).predecessors_of(to), self.predecessors_of(to), from),
                self.predecessors_of(to).no_duplicates(),
                forall|p: Block|
                    #![trigger self.predecessors_of(to).contains(p)]
                    self.predecessors_of(to).contains(p) <==> (old(self).predecessors_of(
                        to,
                    ).contains(p) && p != from),
                num_phis == old(self).phis_of(to).len(),
                self.phis_of(to).len() == old(self).phis_of(to).len(),
                forall|kk: int|
                    #![trigger self.phis_of(to)[kk]]
                    k <= kk < num_phis ==> self.phis_of(to)[kk].value == old(self).phis_of(
                        to,
                    )[kk].value && self.phis_of(to)[kk].entries@ == old(self).phis_of(
                        to,
                    )[kk].entries@,
                forall|kk: int|
                    #![trigger self.phis_of(to)[kk]]
                    0 <= kk < k ==> {
                        &&& self.phis_of(to)[kk].value == old(self).phis_of(to)[kk].value
                        &&& exists|j: int|
                            0 <= j < old(self).phis_of(to)[kk].entries@.len() && (#[trigger] old(
                                self,
                            ).phis_of(to)[kk].entries@[j]).0 == from && self.phis_of(
                                to,
                            )[kk].entries@ == old(self).phis_of(to)[kk].entries@.remove(j)
                        &&& phi_tags(self.phis_of(to)[kk]).no_duplicates()
                        &&& forall|p: Block|
                            #![trigger phi_tags(self.phis_of(to)[kk]).contains(p)]
                            phi_tags(self.phis_of(to)[kk]).contains(p) <==> (phi_tags(
                                old(self).phis_of(to)[kk],
                            ).contains(p) && p != from)
                    },
                forall|kk: int|
                    0 <= kk < num_phis ==> {
                        &&& phi_tags(#[trigger] old(self).phis_of(to)[kk]).no_duplicates()
                        &&& forall|p: Block|
                            #![trigger phi_tags(old(self).phis_of(to)[kk]).contains(p)]
                            phi_tags(old(self).phis_of(to)[kk]).contains(p) <==> old(
                                self,
                            ).predecessors_of(to).contains(p)
                    },
                self.values@ == old(self).values@,
                self.primops@ == old(self).primops@,
                self.constant_values@ == old(self).constant_values@,
                self.constant_container.literals@ == old(self).constant_container.literals@,
                self.entry_block == old(self).entry_block,
                self.ident == old(self).ident,
            decreases num_phis - k,
        {
            let ghost prev = *self;
            proof {
                let tags = phi_tags(old(self).phis_of(to)[k as int]);
                let old_entries = old(self).phis_of(to)[k as int].entries@;
                assert(tags.len() == old_entries.len());
                assert(tags.contains(from));
                let j0 = choose|j0: int| 0 <= j0 < tags.len() && tags[j0] == from;
                assert(tags[j0] == old_entries[j0].0);
                assert(self.phis_of(to)[k as int].entries@ == old_entries);
                assert((self.phis_of(to)[k as int].entries@[j0]).0 == from);
            }
            let j = find_phi_entry(&self.blocks[to.0].phis[k].entries, from);
            self.blocks[to.0].phis[k].entries.remove(j);
            proof {
                let old_entries = old(self).phis_of(to)[k as int].entries@;
                assert(self.phis_of(to).len() == prev.phis_of(to).len());
                assert forall|kk: int| 0 <= kk < num_phis && kk != k as int implies self.phis_of(
                    to,
                )[kk] == prev.phis_of(to)[kk] by {}
                assert(self.phis_of(to)[k as int].value == prev.phis_of(to)[k as int].value);
                assert(self.phis_of(to)[k as int].entries@ == old_entries.remove(j as int));
                assert(old_entries[j as int].0 == from);
                lemma_entry_tags_remove(old_entries, j as int);
                assert(entry_tags(old_entries)[j as int] == from);
                lemma_seq_remove_dedup(entry_tags(old_entries), j as int);
                assert(phi_tags(self.phis_of(to)[k as int]) == phi_tags(
                    old(self).phis_of(to)[k as int],
                ).remove(j as int));
                assert forall|p: Block|
                    phi_tags(self.phis_of(to)[k as int]).contains(p) <==> (phi_tags(
                    old(self).phis_of(to)[k as int],
                ).contains(p) && p != from) by {
                    assert(phi_tags(old(self).phis_of(to)[k as int])[j as int] == from);
                }
            }
            k += 1;
        }
    }
}



// ----------------------------------------------------------------------
// Edge removal.
// ----------------------------------------------------------------------

impl Function {
    /// The first read of a block whose value is a reference to `target`.
    fn find_block_read(&self, block: Block, target: Block) -> (r: usize)
        requires
            self.valid_block(block),
            forall|i: int|
                0 <= i < self.reads_of(block).len() ==> self.valid_value(
                    #[trigger] self.reads_of(block)[i],
                ),
            exists|i: int|
                0 <= i < self.reads_of(block).len() && self.kind_of(
                    #[trigger] self.reads_of(block)[i],
                ) == ValueKind::Block(target),
        ensures
            r < self.reads_of(block).len(),
            self.kind_of(self.reads_of(block)[r as int]) == ValueKind::Block(target),
            forall|k: int|
                0 <= k < r ==> self.kind_of(#[trigger] self.reads_of(block)[k])
                    != ValueKind::Block(target),
    {
        let n = self.blocks[block.0].reads.len();
        let mut i: usize = 0;
        while i < n
            invariant
                i <= n,
                self.valid_block(block),
                n == self.reads_of(block).len(),
                forall|k: int|
                    0 <= k < n ==> self.valid_value(#[trigger] self.reads_of(block)[k]),
                exists|k: int|
                    0 <= k < n && self.kind_of(#[trigger] self.reads_of(block)[k])
                        == ValueKind::Block(target),
                forall|k: int|
                    0 <= k < i ==> self.kind_of(#[trigger] self.reads_of(block)[k])
                        != ValueKind::Block(target),
            decreases n - i,
        {
            let rv = self.blocks[block.0].reads[i];
            let hit = match self.values[rv.0] {
                ValueKind::Block(t) => t.0 == target.0,
                _ => false,
            };
            if hit {
                return i;
            }
            i += 1;
        }
        proof {
            let k = choose|k: int|
                0 <= k < n && self.kind_of(#[trigger] self.reads_of(block)[k]) == ValueKind::Block(
                    target,
                );
            assert(false);
        }
        0
    }

    /// Remove one control-flow edge. The block-valued read producing the
    /// edge disappears from the source's read list, so the source's branch
    /// slots shift down; the edge leaves both adjacency sets, and the
    /// destination's phi nodes each drop the entry tagged with it.
    pub fn remove_edge(&mut self, edge: Edge)
        requires
            old(self).wf(),
            old(self).valid_block(edge.from),
            old(self).valid_block(edge.to),
            old(self).successors_of(edge.from).contains(edge.to),
        ensures
            final(self).wf(),
            exists|ri: int|
                0 <= ri < old(self).reads_of(edge.from).len() && old(self).kind_of(
                    #[trigger] old(self).reads_of(edge.from)[ri],
                ) == ValueKind::Block(edge.to) && final(self).reads_of(edge.from) == old(
                    self,
                ).reads_of(edge.from).remove(ri),
            seq_removed(
                old(self).successors_of(edge.from),
                final(self).successors_of(edge.from),
                edge.to,
            ),
            !final(self).successors_of(edge.from).contains(edge.to),
            forall|c: Block|
                #![trigger final(self).successors_of(edge.from).contains(c)]
                final(self).successors_of(edge.from).contains(c) <==> (old(self).successors_of(
                    edge.from,
                ).contains(c) && c != edge.to),
            seq_removed(
                old(self).predecessors_of(edge.to),
                final(self).predecessors_of(edge.to),
                edge.from,
            ),
            forall|p: Block|
                #![trigger final(self).predecessors_of(edge.to).contains(p)]
                final(self).predecessors_of(edge.to).contains(p) <==> (old(self).predecessors_of(
                    edge.to,
                ).contains(p) && p != edge.from),
            final(self).phis_of(edge.to).len() == old(self).phis_of(edge.to).len(),
            forall|k: int|
                0 <= k < final(self).phis_of(edge.to).len() ==> {
                    &&& (#[trigger] final(self).phis_of(edge.to)[k]).value == old(self).phis_of(
                        edge.to,
                    )[k].value
                    &&& !phi_tags(final(self).phis_of(edge.to)[k]).contains(edge.from)
                    &&& exists|j: int|
                        0 <= j < old(self).phis_of(edge.to)[k].entries@.len() && (#[trigger] old(
                            self,
                        ).phis_of(edge.to)[k].entries@[j]).0 == edge.from && final(self).phis_of(
                            edge.to,
                        )[k].entries@ == old(self).phis_of(edge.to)[k].entries@.remove(j)
                },
            forall|b2: Block|
                old(self).valid_block(b2) && b2 != edge.from && b2 != edge.to ==> final(self).block_data(b2)
                    == old(self).block_data(b2),
            final(self).args_of(edge.from) == old(self).args_of(edge.from),
            final(self).op_of(edge.from) == old(self).op_of(edge.from),
            edge.from != edge.to ==> final(self).phis_of(edge.from) == old(self).phis_of(edge.from)
                && final(self).predecessors_of(edge.from) == old(self).predecessors_of(edge.from),
            edge.from != edge.to ==> final(self).args_of(edge.to) == old(self).args_of(edge.to)
                && final(self).op_of(edge.to) == old(self).op_of(edge.to) && final(self).reads_of(
                edge.to,
            ) == old(self).reads_of(edge.to) && final(self).successors_of(edge.to) == old(
                self,
            ).successors_of(edge.to),
            final(self).num_blocks() == old(self).num_blocks(),
            final(self).value_kinds() == old(self).value_kinds(),
            final(self).primops_seq() == old(self).primops_seq(),
            final(self).const_values() == old(self).const_values(),
            final(self).const_lits() == old(self).const_lits(),
            final(self).entry_spec() == old(self).entry_spec(),
            final(self).ident_spec() == old(self).ident_spec(),
    {
        proof {
            assert(old(self).wf_block_at(edge.from));
            assert(old(self).wf_block_at(edge.to));
            lemma_targets_membership(self.values@, self.reads_of(edge.from), edge.to);
        }
        let ri = self.find_block_read(edge.from, edge.to);
        let ghost reads_pre = self.reads_of(edge.from);
        self.blocks[edge.from.0].reads.remove(ri);
        proof {
            lemma_targets_split(self.values@, reads_pre, ri as int, edge.to);
        }
        let si = find_block(&self.blocks[edge.from.0].successors, edge.to);
        self.blocks[edge.from.0].successors.remove(si);
        proof {
            let vs = self.values@;
            let succs_pre = old(self).successors_of(edge.from);
            let ta = targets_in(vs, reads_pre.take(ri as int));
            let tb = targets_in(vs, reads_pre.skip(ri as int + 1));
            assert(succs_pre == ta + seq![edge.to] + tb);
            // the found slot is the unique occurrence of the target
            assert(succs_pre[ta.len() as int] == edge.to);
            assert(si as int == ta.len() as int) by {
                assert(succs_pre[si as int] == edge.to);
                assert(succs_pre.no_duplicates());
            }
            assert(self.successors_of(edge.from) =~= ta + tb) by {
                succs_pre.remove_ensures(si as int);
            }
            assert(self.successors_of(edge.from) == targets_in(vs, self.reads_of(edge.from)));
            lemma_seq_remove_dedup(succs_pre, si as int);
        }
        proof {
            // what detach_pred needs about the destination, unchanged so far
            assert(self.predecessors_of(edge.to) == old(self).predecessors_of(edge.to));
            assert(self.phis_of(edge.to) == old(self).phis_of(edge.to));
            assert(old(self).predecessors_of(edge.to).contains(edge.from));
            assert forall|k: int| 0 <= k < self.phis_of(edge.to).len() implies {
                &&& phi_tags(#[trigger] self.phis_of(edge.to)[k]).no_duplicates()
                &&& forall|p: Block|
                    #![trigger phi_tags(self.phis_of(edge.to)[k]).contains(p)]
                    #![trigger self.predecessors_of(edge.to).contains(p)]
                    phi_tags(self.phis_of(edge.to)[k]).contains(p) <==> self.predecessors_of(
                        edge.to,
                    ).contains(p)
            } by {
                assert(old(self).wf_phi(edge.to, old(self).phis_of(edge.to)[k]));
            }
        }
        let ghost mid = *self;
        self.detach_pred(edge.from, edge.to);
        proof {
            assert(mid.phis_of(edge.to) == old(self).phis_of(edge.to));
            assert forall|k: int| 0 <= k < self.phis_of(edge.to).len() implies {
                &&& (#[trigger] self.phis_of(edge.to)[k]).value == old(self).phis_of(
                    edge.to,
                )[k].value
                &&& !phi_tags(self.phis_of(edge.to)[k]).contains(edge.from)
                &&& exists|j: int|
                    0 <= j < old(self).phis_of(edge.to)[k].entries@.len() && (#[trigger] old(
                        self,
                    ).phis_of(edge.to)[k].entries@[j]).0 == edge.from && self.phis_of(
                        edge.to,
                    )[k].entries@ == old(self).phis_of(edge.to)[k].entries@.remove(j)
            } by {
                assert(mid.phis_of(edge.to)[k] == old(self).phis_of(edge.to)[k]);
                assert(!(phi_tags(self.phis_of(edge.to)[k]).contains(edge.from)));
                let j = choose|j: int|
                    0 <= j < mid.phis_of(edge.to)[k].entries@.len() && (#[trigger] mid.phis_of(
                        edge.to,
                    )[k].entries@[j]).0 == edge.from && self.phis_of(edge.to)[k].entries@
                        == mid.phis_of(edge.to)[k].entries@.remove(j);
                assert((old(self).phis_of(edge.to)[k].entries@[j]).0 == edge.from);
            }
            self.lemma_wf_after_remove_edge(*old(self), mid, edge);
        }
    }

    /// The whole-graph invariant holds again after `remove_edge`: `mid` is
    /// the state after the source's read and successor were removed, `self`
    /// the state after the destination was detached.
    proof fn lemma_wf_after_remove_edge(&self, pre: Function, mid: Function, edge: Edge)
        requires
            pre.wf(),
            pre.valid_block(edge.from),
            pre.valid_block(edge.to),
            pre.successors_of(edge.from).contains(edge.to),
            // mid: source block rewritten
            mid.blocks@.len() == pre.blocks@.len(),
            forall|b2: Block|
                pre.valid_block(b2) && b2 != edge.from ==> mid.block_data(b2) == pre.block_data(
                    b2,
                ),
            mid.args_of(edge.from) == pre.args_of(edge.from),
            mid.op_of(edge.from) == pre.op_of(edge.from),
            mid.phis_of(edge.from) == pre.phis_of(edge.from),
            mid.predecessors_of(edge.from) == pre.predecessors_of(edge.from),
            exists|ri: int|
                0 <= ri < pre.reads_of(edge.from).len() && pre.kind_of(
                    #[trigger] pre.reads_of(edge.from)[ri],
                ) == ValueKind::Block(edge.to) && mid.reads_of(edge.from) == pre.reads_of(
                    edge.from,
                ).remove(ri),
            mid.successors_of(edge.from) == targets_in(mid.values@, mid.reads_of(edge.from)),
            mid.successors_of(edge.from).no_duplicates(),
            forall|c: Block|
                #![trigger mid.successors_of(edge.from).contains(c)]
                mid.successors_of(edge.from).contains(c) <==> (pre.successors_of(
                    edge.from,
                ).contains(c) && c != edge.to),
            mid.values@ == pre.values@,
            mid.primops@ == pre.primops@,
            mid.constant_values@ == pre.constant_values@,
            mid.constant_container.literals@ == pre.constant_container.literals@,
            mid.entry_block == pre.entry_block,
            // self: destination detached from mid
            self.blocks@.len() == mid.blocks@.len(),
            forall|b2: Block|
                mid.valid_block(b2) && b2 != edge.to ==> self.block_data(b2) == mid.block_data(b2),
            self.args_of(edge.to) == mid.args_of(edge.to),
            self.op_of(edge.to) == mid.op_of(edge.to),
            self.reads_of(edge.to) == mid.reads_of(edge.to),
            self.successors_of(edge.to) == mid.successors_of(edge.to),
            self.predecessors_of(edge.to).no_duplicates(),
            forall|p: Block|
                #![trigger self.predecessors_of(edge.to).contains(p)]
                self.predecessors_of(edge.to).contains(p) <==> (mid.predecessors_of(
                    edge.to,
                ).contains(p) && p != edge.from),
            self.phis_of(edge.to).len() == mid.phis_of(edge.to).len(),
            forall|k: int|
                0 <= k < self.phis_of(edge.to).len() ==> {
                    &&& (#[trigger] self.phis_of(edge.to)[k]).value == mid.phis_of(
                        edge.to,
                    )[k].value
                    &&& exists|j: int|
                        0 <= j < mid.phis_of(edge.to)[k].entries@.len() && (#[trigger] mid.phis_of(
                            edge.to,
                        )[k].entries@[j]).0 == edge.from && self.phis_of(edge.to)[k].entries@
                            == mid.phis_of(edge.to)[k].entries@.remove(j)
                    &&& phi_tags(self.phis_of(edge.to)[k]).no_duplicates()
                    &&& forall|p: Block|
                        #![trigger phi_tags(self.phis_of(edge.to)[k]).contains(p)]
                        phi_tags(self.phis_of(edge.to)[k]).contains(p) <==> (phi_tags(
                            mid.phis_of(edge.to)[k],
                        ).contains(p) && p != edge.from)
                },
            self.values@ == mid.values@,
            self.primops@ == mid.primops@,
            self.constant_values@ == mid.constant_values@,
            self.constant_container.literals@ == mid.constant_container.literals@,
            self.entry_block == mid.entry_block,
        ensures
            self.wf(),
    {
        assert forall|i: int| 0 <= i < self.values@.len() implies self.wf_kind(
            #[trigger] self.values@[i],
        ) by {
            assert(pre.wf_kind(pre.values@[i]));
            match pre.values@[i] {
                ValueKind::Argument(b2, n) => {
                    assert(self.args_of(b2) == pre.args_of(b2));
                },
                _ => {},
            }
        }
        assert forall|pi: int| 0 <= pi < self.primops@.len() implies #[trigger] self.wf_primop_at(
            pi,
        ) by {
            assert(pre.wf_primop_at(pi));
            let pd = self.primops@[pi];
            assert forall|j: int| 0 <= j < pd.reads@.len() implies {
                &&& self.valid_value(#[trigger] pd.reads@[j])
                &&& (self.kind_of(pd.reads@[j]) matches ValueKind::PrimOp(q) ==> q.0 < pi)
            } by {
                assert(pre.valid_value(pd.reads@[j]));
            }
        }
        assert forall|b2: Block| self.valid_block(b2) implies #[trigger] self.wf_block_at(b2) by {
            assert(pre.wf_block_at(b2));
            if b2 != edge.from && b2 != edge.to {
                assert(self.block_data(b2) == pre.block_data(b2));
                assert forall|k: int| 0 <= k < self.phis_of(b2).len() implies self.wf_phi(
                    b2,
                    #[trigger] self.phis_of(b2)[k],
                ) by {
                    assert(pre.wf_phi(b2, pre.phis_of(b2)[k]));
                    assert(self.predecessors_of(b2) == pre.predecessors_of(b2));
                }
            } else {
                let bd = self.block_data(b2);
                // arguments unchanged everywhere
                assert(bd.arguments@ == pre.block_data(b2).arguments@);
                assert forall|i: int|
                    0 <= i < bd.arguments@.len() implies self.valid_value(
                    #[trigger] bd.arguments@[i],
                ) && (self.kind_of(bd.arguments@[i]) matches ValueKind::Argument(ab, ak) && ab == b2
                    && ak == i) by {
                    assert(pre.valid_value(pre.block_data(b2).arguments@[i]));
                }
                // reads: either removed-at-index (source) or unchanged
                if b2 == edge.from {
                    let ri = choose|ri: int|
                        0 <= ri < pre.reads_of(edge.from).len() && pre.kind_of(
                            #[trigger] pre.reads_of(edge.from)[ri],
                        ) == ValueKind::Block(edge.to) && mid.reads_of(edge.from) == pre.reads_of(
                            edge.from,
                        ).remove(ri);
                    pre.reads_of(edge.from).remove_ensures(ri);
                    assert forall|i: int| 0 <= i < bd.reads@.len() implies self.valid_value(
                        #[trigger] bd.reads@[i],
                    ) by {
                        if i < ri {
                            assert(bd.reads@[i] == pre.reads_of(edge.from)[i]);
                            assert(pre.valid_value(pre.reads_of(edge.from)[i]));
                        } else {
                            assert(bd.reads@[i] == pre.reads_of(edge.from)[i + 1]);
                            assert(pre.valid_value(pre.reads_of(edge.from)[i + 1]));
                        }
                    }
                    assert(bd.op is None ==> bd.reads@.len() == 0) by {
                        if bd.op is None {
                            assert(pre.reads_of(edge.from).len() == 0);
                            assert(pre.successors_of(edge.from).len() == 0);
                            assert(!pre.successors_of(edge.from).contains(edge.to));
                        }
                    }
                } else {
                    assert(bd.reads@ == pre.block_data(b2).reads@);
                    assert forall|i: int| 0 <= i < bd.reads@.len() implies self.valid_value(
                        #[trigger] bd.reads@[i],
                    ) by {
                        assert(pre.valid_value(pre.block_data(b2).reads@[i]));
                    }
                }
                // successors
                if b2 == edge.from {
                    assert(bd.successors@ == targets_in(mid.values@, mid.reads_of(edge.from)));
                    assert(bd.successors@ == self.branch_targets(bd.reads@));
                    assert(bd.successors@.no_duplicates());
                } else {
                    assert(bd.successors@ == pre.block_data(b2).successors@);
                    assert(bd.reads@ == pre.block_data(b2).reads@);
                    assert(bd.successors@ == self.branch_targets(bd.reads@));
                }
                assert forall|i: int| 0 <= i < bd.successors@.len() implies self.valid_block(
                    #[trigger] bd.successors@[i],
                ) by {
                    if b2 == edge.from {
                        assert(mid.successors_of(edge.from).contains(bd.successors@[i]));
                        assert(pre.successors_of(edge.from).contains(bd.successors@[i]));
                        let k = choose|k: int|
                            0 <= k < pre.successors_of(edge.from).len() && pre.successors_of(
                                edge.from,
                            )[k] == bd.successors@[i];
                        assert(pre.valid_block(pre.successors_of(edge.from)[k]));
                    } else {
                        assert(pre.valid_block(pre.block_data(b2).successors@[i]));
                    }
                }
                // predecessors
                if b2 == edge.to {
                    assert(bd.predecessors@.no_duplicates());
                    assert forall|i: int| 0 <= i < bd.predecessors@.len() implies self.valid_block(
                        #[trigger] bd.predecessors@[i],
                    ) by {
                        assert(bd.predecessors@.contains(bd.predecessors@[i]));
                        assert(self.predecessors_of(edge.to).contains(bd.predecessors@[i]));
                        assert(pre.predecessors_of(edge.to).contains(bd.predecessors@[i]));
                        let k = choose|k: int|
                            0 <= k < pre.predecessors_of(edge.to).len() && pre.predecessors_of(
                                edge.to,
                            )[k] == bd.predecessors@[i];
                        assert(pre.valid_block(pre.predecessors_of(edge.to)[k]));
                    }
                } else {
                    assert(bd.predecessors@ == pre.block_data(b2).predecessors@);
                    assert forall|i: int| 0 <= i < bd.predecessors@.len() implies self.valid_block(
                        #[trigger] bd.predecessors@[i],
                    ) by {
                        assert(pre.valid_block(pre.block_data(b2).predecessors@[i]));
                    }
                }
                // phi nodes
                assert forall|k: int| 0 <= k < bd.phis@.len() implies self.wf_phi(
                    b2,
                    #[trigger] bd.phis@[k],
                ) by {
                    if b2 == edge.to {
                        assert(pre.wf_phi(edge.to, pre.phis_of(edge.to)[k]));
                        assert(mid.phis_of(edge.to) == pre.phis_of(edge.to));
                        assert(self.valid_value(bd.phis@[k].value)) by {
                            assert(bd.phis@[k].value == pre.phis_of(edge.to)[k].value);
                        }
                        assert forall|j: int| 0 <= j < bd.phis@[k].entries@.len() implies
                            self.valid_value((#[trigger] bd.phis@[k].entries@[j]).1) by {
                            let oe = pre.phis_of(edge.to)[k].entries@;
                            let jj = choose|jj: int|
                                0 <= jj < oe.len() && (#[trigger] oe[jj]).0 == edge.from
                                    && self.phis_of(edge.to)[k].entries@ == oe.remove(jj);
                            oe.remove_ensures(jj);
                            if j < jj {
                                assert(bd.phis@[k].entries@[j] == oe[j]);
                                assert(pre.valid_value(oe[j].1));
                            } else {
                                assert(bd.phis@[k].entries@[j] == oe[j + 1]);
                                assert(pre.valid_value(oe[j + 1].1));
                            }
                        }
                        assert forall|p: Block|
                            #![trigger phi_tags(bd.phis@[k]).contains(p)]
                            #![trigger self.predecessors_of(b2).contains(p)]
                            phi_tags(bd.phis@[k]).contains(p) <==> self.predecessors_of(
                            b2,
                        ).contains(p) by {
                            assert(phi_tags(bd.phis@[k]).contains(p) <==> (phi_tags(
                                pre.phis_of(edge.to)[k],
                            ).contains(p) && p != edge.from));
                            assert(phi_tags(pre.phis_of(edge.to)[k]).contains(p)
                                <==> pre.predecessors_of(edge.to).contains(p));
                        }
                    } else {
                        // b2 == edge.from, from != to
                        assert(bd.phis@ == pre.phis_of(b2));
                        assert(pre.wf_phi(b2, pre.phis_of(b2)[k]));
                        assert(self.predecessors_of(b2) == pre.predecessors_of(b2));
                    }
                }
            }
        }
        assert forall|a: Block, b2: Block|
            self.valid_block(a) && self.valid_block(b2) implies (self.successors_of(a).contains(b2)
            <==> self.predecessors_of(b2).contains(a)) by {
            let lhs_pre = pre.successors_of(a).contains(b2);
            let rhs_pre = pre.predecessors_of(b2).contains(a);
            assert(lhs_pre <==> rhs_pre);
            if a == edge.from && b2 == edge.to {
                assert(!self.successors_of(a).contains(b2));
                assert(!self.predecessors_of(b2).contains(a));
            } else if a == edge.from {
                assert(self.successors_of(a).contains(b2) <==> lhs_pre);
                assert(self.predecessors_of(b2) == pre.predecessors_of(b2));
            } else if b2 == edge.to {
                assert(self.successors_of(a) == pre.successors_of(a));
                assert(self.predecessors_of(b2).contains(a) <==> rhs_pre);
            } else {
                assert(self.successors_of(a) == pre.successors_of(a));
                assert(self.predecessors_of(b2) == pre.predecessors_of(b2));
            }
        }
        assert(self.wf_entry()) by {
            match self.entry_block {
                Some(e) => {
                    assert(pre.predecessors_of(e).len() == 0);
                    if e == edge.to {
                        assert(pre.predecessors_of(edge.to).contains(edge.from)) by {
                            assert(pre.successors_of(edge.from).contains(edge.to));
                        }
                        assert(false);
                    } else {
                        assert(self.predecessors_of(e) == pre.predecessors_of(e));
                    }
                },
                None => {},
            }
        }
        assert forall|c: int| 0 <= c < self.constant_values@.len() implies self.valid_value(
            #[trigger] self.constant_values@[c],
        ) && (self.kind_of(self.constant_values@[c]) matches ValueKind::Const(cc) && cc.0 == c) by {
            assert(pre.valid_value(pre.constant_values@[c]));
            assert(pre.kind_of(pre.constant_values@[c]) matches ValueKind::Const(cc) && cc.0 == c);
        }
    }
}


// ----------------------------------------------------------------------
// Block removal.
// ----------------------------------------------------------------------

impl Function {
    /// Remove a block from the graph. The block must not be the entry block
    /// and must have no incoming edges: callers must already have proven it
    /// dead. Its outgoing edges are removed, stripping the corresponding phi
    /// entry in each successor first; its own operation, reads and phi nodes
    /// are deleted. The handle stays issued and is never reused; the block's
    /// argument values keep their meaning.
    #[verifier::rlimit(100)]
    #[verifier::spinoff_prover]
    pub fn remove_block(&mut self, block: Block)
        requires
            old(self).wf(),
            old(self).valid_block(block),
            old(self).entry_spec() != Some(block),
            old(self).predecessors_of(block).len() == 0,
        ensures
            final(self).wf(),
            final(self).num_blocks() == old(self).num_blocks(),
            final(self).op_of(block) is None,
            final(self).reads_of(block).len() == 0,
            final(self).successors_of(block).len() == 0,
            final(self).phis_of(block).len() == 0,
            final(self).predecessors_of(block).len() == 0,
            final(self).args_of(block) == old(self).args_of(block),
            forall|b2: Block|
                old(self).valid_block(b2) && b2 != block && !old(self).successors_of(
                    block,
                ).contains(b2) ==> final(self).block_data(b2) == old(self).block_data(b2),
            forall|b2: Block|
                #![trigger final(self).block_data(b2)]
                old(self).valid_block(b2) && b2 != block ==> {
                    &&& final(self).args_of(b2) == old(self).args_of(b2)
                    &&& final(self).op_of(b2) == old(self).op_of(b2)
                    &&& final(self).reads_of(b2) == old(self).reads_of(b2)
                    &&& final(self).successors_of(b2) == old(self).successors_of(b2)
                    &&& !final(self).successors_of(b2).contains(block)
                    &&& !final(self).predecessors_of(b2).contains(block)
                    &&& final(self).phis_of(b2).len() == old(self).phis_of(b2).len()
                },
            forall|b2: Block, k: int|
                old(self).valid_block(b2) && b2 != block && 0 <= k < final(self).phis_of(
                    b2,
                ).len() ==> !phi_tags(#[trigger] final(self).phis_of(b2)[k]).contains(block)
                    && final(self).phis_of(b2)[k].value == old(self).phis_of(b2)[k].value,
            forall|b2: Block, p: Block|
                #![trigger final(self).predecessors_of(b2).contains(p)]
                old(self).valid_block(b2) && b2 != block ==> (final(self).predecessors_of(
                    b2,
                ).contains(p) <==> (old(self).predecessors_of(b2).contains(p) && p != block)),
            final(self).value_kinds() == old(self).value_kinds(),
            final(self).primops_seq() == old(self).primops_seq(),
            final(self).const_values() == old(self).const_values(),
            final(self).const_lits() == old(self).const_lits(),
            final(self).entry_spec() == old(self).entry_spec(),
            final(self).ident_spec() == old(self).ident_spec(),
    {
        proof {
            assert(old(self).wf_block_at(block));
            // no self-loop: the block is not its own successor
            assert(!old(self).successors_of(block).contains(block)) by {
                if old(self).successors_of(block).contains(block) {
                    assert(old(self).predecessors_of(block).contains(block));
                }
            }
        }
        // snapshot the outgoing successors
        let outgoing = self.branch_slots(block);
        let n = outgoing.len();
        let mut k: usize = 0;
        while k < n
            invariant
                k <= n,
                old(self).wf(),
                old(self).valid_block(block),
                old(self).predecessors_of(block).len() == 0,
                outgoing@ == old(self).successors_of(block),
                n == outgoing@.len(),
                outgoing@.no_duplicates(),
                !outgoing@.contains(block),
                forall|i: int| 0 <= i < n ==> old(self).valid_block(#[trigger] outgoing@[i]),
                self.blocks@.len() == old(self).blocks@.len(),
                forall|b2: Block|
                    old(self).valid_block(b2) && !outgoing@.take(k as int).contains(b2)
                        ==> self.block_data(b2) == old(self).block_data(b2),
                forall|i: int|
                    #![trigger outgoing@[i]]
                    0 <= i < k ==> {
                        let s = outgoing@[i];
                        &&& self.args_of(s) == old(self).args_of(s)
                        &&& self.op_of(s) == old(self).op_of(s)
                        &&& self.reads_of(s) == old(self).reads_of(s)
                        &&& self.successors_of(s) == old(self).successors_of(s)
                        &&& self.predecessors_of(s).no_duplicates()
                        &&& (forall|p: Block|
                            #![trigger self.predecessors_of(s).contains(p)]
                            self.predecessors_of(s).contains(p) <==> (old(self).predecessors_of(
                                s,
                            ).contains(p) && p != block))
                        &&& self.phis_of(s).len() == old(self).phis_of(s).len()
                        &&& (forall|kk: int|
                            #![trigger self.phis_of(s)[kk]]
                            0 <= kk < self.phis_of(s).len() ==> {
                                &&& self.phis_of(s)[kk].value == old(self).phis_of(s)[kk].value
                                &&& !phi_tags(self.phis_of(s)[kk]).contains(block)
                                &&& phi_tags(self.phis_of(s)[kk]).no_duplicates()
                                &&& (forall|p: Block|
                                    #![trigger phi_tags(self.phis_of(s)[kk]).contains(p)]
                                    phi_tags(self.phis_of(s)[kk]).contains(p) <==> (phi_tags(
                                        old(self).phis_of(s)[kk],
                                    ).contains(p) && p != block))
                                &&& (exists|j: int|
                                    0 <= j < old(self).phis_of(s)[kk].entries@.len() && (
                                    #[trigger] old(self).phis_of(s)[kk].entries@[j]).0 == block
                                        && self.phis_of(s)[kk].entries@ == old(self).phis_of(
                                        s,
                                    )[kk].entries@.remove(j))
                            })
                    },
                self.values@ == old(self).values@,
                self.primops@ == old(self).primops@,
                self.constant_values@ == old(self).constant_values@,
                self.constant_container.literals@ == old(self).constant_container.literals@,
                self.entry_block == old(self).entry_block,
                self.ident == old(self).ident,
            decreases n - k,
        {
            let s = outgoing[k];
            proof {
                assert(s == outgoing@[k as int]);
                assert(!outgoing@.take(k as int).contains(s)) by {
                    if outgoing@.take(k as int).contains(s) {
                        let i = choose|i: int|
                            0 <= i < k && outgoing@.take(k as int)[i] == s;
                        assert(outgoing@[i] == outgoing@[k as int]);
                    }
                }
                assert(self.block_data(s) == old(self).block_data(s));
                assert(old(self).wf_block_at(s));
                assert(old(self).predecessors_of(s).contains(block)) by {
                    assert(old(self).successors_of(block).contains(s));
                }
                assert forall|kk: int| 0 <= kk < self.phis_of(s).len() implies {
                    &&& phi_tags(#[trigger] self.phis_of(s)[kk]).no_duplicates()
                    &&& (forall|p: Block|
                        #![trigger phi_tags(self.phis_of(s)[kk]).contains(p)]
                        #![trigger self.predecessors_of(s).contains(p)]
                        phi_tags(self.phis_of(s)[kk]).contains(p) <==> self.predecessors_of(
                            s,
                        ).contains(p))
                } by {
                    assert(old(self).wf_phi(s, old(self).phis_of(s)[kk]));
                }
            }
            let ghost before = *self;
            self.detach_pred(block, s);
            proof {
                assert(outgoing@.take(k as int + 1) =~= outgoing@.take(k as int).push(s));
                assert forall|b2: Block|
                    old(self).valid_block(b2) && !outgoing@.take(k as int + 1).contains(b2)
                    implies self.block_data(b2) == old(self).block_data(b2) by {
                    assert(!outgoing@.take(k as int).contains(b2));
                    assert(outgoing@.take(k as int + 1)[k as int] == s);
                    assert(outgoing@.take(k as int + 1).contains(s));
                    assert(b2 != s);
                    assert(self.block_data(b2) == before.block_data(b2));
                }
                assert forall|i: int| #![trigger outgoing@[i]] 0 <= i < k + 1 implies {
                    let s2 = outgoing@[i];
                    &&& self.args_of(s2) == old(self).args_of(s2)
                    &&& self.op_of(s2) == old(self).op_of(s2)
                    &&& self.reads_of(s2) == old(self).reads_of(s2)
                    &&& self.successors_of(s2) == old(self).successors_of(s2)
                    &&& self.predecessors_of(s2).no_duplicates()
                    &&& (forall|p: Block|
                        #![trigger self.predecessors_of(s2).contains(p)]
                        self.predecessors_of(s2).contains(p) <==> (old(self).predecessors_of(
                            s2,
                        ).contains(p) && p != block))
                    &&& self.phis_of(s2).len() == old(self).phis_of(s2).len()
                    &&& (forall|kk: int|
                        #![trigger self.phis_of(s2)[kk]]
                        0 <= kk < self.phis_of(s2).len() ==> {
                            &&& self.phis_of(s2)[kk].value == old(self).phis_of(s2)[kk].value
                            &&& !phi_tags(self.phis_of(s2)[kk]).contains(block)
                            &&& phi_tags(self.phis_of(s2)[kk]).no_duplicates()
                            &&& (forall|p: Block|
                                #![trigger phi_tags(self.phis_of(s2)[kk]).contains(p)]
                                phi_tags(self.phis_of(s2)[kk]).contains(p) <==> (phi_tags(
                                    old(self).phis_of(s2)[kk],
                                ).contains(p) && p != block))
                            &&& (exists|j: int|
                                0 <= j < old(self).phis_of(s2)[kk].entries@.len() && (
                                #[trigger] old(self).phis_of(s2)[kk].entries@[j]).0 == block
                                    && self.phis_of(s2)[kk].entries@ == old(self).phis_of(
                                    s2,
                                )[kk].entries@.remove(j))
                        })
                } by {
                    let s2 = outgoing@[i];
                    if i < k {
                        assert(s2 != s) by {
                            assert(outgoing@[i] != outgoing@[k as int]);
                        }
                        assert(self.block_data(s2) == before.block_data(s2));
                        assert(outgoing@.take(k as int)[i] == s2);
                    } else {
                        assert(s2 == s);
                        assert(before.phis_of(s) == old(self).phis_of(s));
                        assert(before.predecessors_of(s) == old(self).predecessors_of(s));
                        assert forall|kk: int|
                            0 <= kk < self.phis_of(s).len() implies !phi_tags(
                            #[trigger] self.phis_of(s)[kk],
                        ).contains(block) by {
                            assert(phi_tags(self.phis_of(s)[kk]).contains(block) <==> (phi_tags(
                                before.phis_of(s)[kk],
                            ).contains(block) && block != block));
                        }
                    }
                }
            }
            k += 1;
        }
        let ghost mid = *self;
        proof {
            assert(outgoing@.take(n as int) =~= outgoing@);
        }
        self.blocks[block.0].op = None;
        self.blocks[block.0].reads.clear();
        self.blocks[block.0].successors.clear();
        self.blocks[block.0].phis.clear();
        proof {
            assert(mid.block_data(block) == old(self).block_data(block)) by {
                assert(!outgoing@.take(n as int).contains(block));
            }
            self.lemma_wf_after_remove_block(*old(self), mid, block, outgoing@);
            assert forall|b2: Block|
                #![trigger self.block_data(b2)]
                old(self).valid_block(b2) && b2 != block implies {
                &&& self.args_of(b2) == old(self).args_of(b2)
                &&& self.op_of(b2) == old(self).op_of(b2)
                &&& self.reads_of(b2) == old(self).reads_of(b2)
                &&& self.successors_of(b2) == old(self).successors_of(b2)
                &&& !self.successors_of(b2).contains(block)
                &&& !self.predecessors_of(b2).contains(block)
                &&& self.phis_of(b2).len() == old(self).phis_of(b2).len()
                &&& (forall|p: Block|
                    #![trigger self.predecessors_of(b2).contains(p)]
                    self.predecessors_of(b2).contains(p) <==> (old(self).predecessors_of(
                        b2,
                    ).contains(p) && p != block))
                &&& (forall|k2: int|
                    #![trigger self.phis_of(b2)[k2]]
                    0 <= k2 < self.phis_of(b2).len() ==> !phi_tags(
                        self.phis_of(b2)[k2],
                    ).contains(block) && self.phis_of(b2)[k2].value == old(self).phis_of(
                        b2,
                    )[k2].value)
            } by {
                assert(self.block_data(b2) == mid.block_data(b2));
                if outgoing@.contains(b2) {
                    let i2 = choose|i2: int| 0 <= i2 < outgoing@.len() && outgoing@[i2] == b2;
                    assert(outgoing@[i2] == b2);
                } else {
                    assert(mid.block_data(b2) == old(self).block_data(b2));
                    assert(old(self).wf_block_at(b2));
                    assert(!old(self).predecessors_of(b2).contains(block)) by {
                        assert(old(self).successors_of(block).contains(b2) <==> old(
                            self,
                        ).predecessors_of(b2).contains(block));
                    }
                    assert(!old(self).successors_of(b2).contains(block)) by {
                        assert(old(self).successors_of(b2).contains(block) <==> old(
                            self,
                        ).predecessors_of(block).contains(b2));
                    }
                    assert forall|k2: int|
                        0 <= k2 < self.phis_of(b2).len() implies !phi_tags(
                        #[trigger] self.phis_of(b2)[k2],
                    ).contains(block) by {
                        assert(old(self).wf_phi(b2, old(self).phis_of(b2)[k2]));
                        assert(phi_tags(old(self).phis_of(b2)[k2]).contains(block) <==> old(
                            self,
                        ).predecessors_of(b2).contains(block));
                    }
                }
            }
        }
    }

    /// The whole-graph invariant holds again after `remove_block`: `mid` is
    /// the state after every successor was detached, `self` the state after
    /// the block's operation, reads, successors and phi nodes were cleared.
    #[verifier::rlimit(60)]
    proof fn lemma_wf_after_remove_block(
        &self,
        pre: Function,
        mid: Function,
        block: Block,
        outgoing: Seq<Block>,
    )
        requires
            pre.wf(),
            pre.valid_block(block),
            pre.entry_spec() != Some(block),
            pre.predecessors_of(block).len() == 0,
            outgoing == pre.successors_of(block),
            !outgoing.contains(block),
            // mid: every successor detached, block itself untouched
            mid.blocks@.len() == pre.blocks@.len(),
            mid.block_data(block) == pre.block_data(block),
            forall|b2: Block|
                pre.valid_block(b2) && !outgoing.contains(b2) ==> mid.block_data(b2)
                    == pre.block_data(b2),
            forall|i: int|
                #![trigger outgoing[i]]
                0 <= i < outgoing.len() ==> {
                    let s = outgoing[i];
                    &&& mid.args_of(s) == pre.args_of(s)
                    &&& mid.op_of(s) == pre.op_of(s)
                    &&& mid.reads_of(s) == pre.reads_of(s)
                    &&& mid.successors_of(s) == pre.successors_of(s)
                    &&& mid.predecessors_of(s).no_duplicates()
                    &&& (forall|p: Block|
                        #![trigger mid.predecessors_of(s).contains(p)]
                        mid.predecessors_of(s).contains(p) <==> (pre.predecessors_of(s).contains(p)
                            && p != block))
                    &&& mid.phis_of(s).len() == pre.phis_of(s).len()
                    &&& (forall|kk: int|
                        #![trigger mid.phis_of(s)[kk]]
                        0 <= kk < mid.phis_of(s).len() ==> {
                            &&& mid.phis_of(s)[kk].value == pre.phis_of(s)[kk].value
                            &&& !phi_tags(mid.phis_of(s)[kk]).contains(block)
                            &&& phi_tags(mid.phis_of(s)[kk]).no_duplicates()
                            &&& (forall|p: Block|
                                #![trigger phi_tags(mid.phis_of(s)[kk]).contains(p)]
                                phi_tags(mid.phis_of(s)[kk]).contains(p) <==> (phi_tags(
                                    pre.phis_of(s)[kk],
                                ).contains(p) && p != block))
                            &&& (exists|j: int|
                                0 <= j < pre.phis_of(s)[kk].entries@.len() && (
                                #[trigger] pre.phis_of(s)[kk].entries@[j]).0 == block
                                    && mid.phis_of(s)[kk].entries@ == pre.phis_of(
                                    s,
                                )[kk].entries@.remove(j))
                        })
                },
            mid.values@ == pre.values@,
            mid.primops@ == pre.primops@,
            mid.constant_values@ == pre.constant_values@,
            mid.constant_container.literals@ == pre.constant_container.literals@,
            mid.entry_block == pre.entry_block,
            // self: the block cleared
            self.blocks@.len() == mid.blocks@.len(),
            forall|b2: Block|
                mid.valid_block(b2) && b2 != block ==> self.block_data(b2) == mid.block_data(b2),
            self.args_of(block) == mid.args_of(block),
            self.op_of(block) is None,
            self.reads_of(block).len() == 0,
            self.successors_of(block).len() == 0,
            self.phis_of(block).len() == 0,
            self.predecessors_of(block) == mid.predecessors_of(block),
            self.values@ == mid.values@,
            self.primops@ == mid.primops@,
            self.constant_values@ == mid.constant_values@,
            self.constant_container.literals@ == mid.constant_container.literals@,
            self.entry_block == mid.entry_block,
        ensures
            self.wf(),
    {
        assert forall|i: int| 0 <= i < self.values@.len() implies self.wf_kind(
            #[trigger] self.values@[i],
        ) by {
            assert(pre.wf_kind(pre.values@[i]));
            match pre.values@[i] {
                ValueKind::Argument(b2, nn) => {
                    if b2 == block {
                        assert(self.args_of(b2) == pre.args_of(b2));
                    } else if outgoing.contains(b2) {
                        let i2 = choose|i2: int|
                            0 <= i2 < outgoing.len() && outgoing[i2] == b2;
                        assert(mid.args_of(b2) == pre.args_of(b2));
                        assert(self.args_of(b2) == pre.args_of(b2));
                    } else {
                        assert(self.block_data(b2) == pre.block_data(b2));
                    }
                },
                _ => {},
            }
        }
        assert forall|pi: int| 0 <= pi < self.primops@.len() implies #[trigger] self.wf_primop_at(
            pi,
        ) by {
            assert(pre.wf_primop_at(pi));
            let pd = self.primops@[pi];
            assert forall|j: int| 0 <= j < pd.reads@.len() implies {
                &&& self.valid_value(#[trigger] pd.reads@[j])
                &&& (self.kind_of(pd.reads@[j]) matches ValueKind::PrimOp(q) ==> q.0 < pi)
            } by {
                assert(pre.valid_value(pd.reads@[j]));
            }
        }
        assert forall|b2: Block| self.valid_block(b2) implies #[trigger] self.wf_block_at(b2) by {
            assert(pre.wf_block_at(b2));
            if b2 == block {
                assert(self.reads_of(b2) =~= Seq::<Value>::empty());
                assert(self.branch_targets(self.reads_of(b2)) =~= Seq::<Block>::empty());
                assert(self.successors_of(b2) =~= self.branch_targets(self.reads_of(b2)));
                assert(self.args_of(b2) == pre.args_of(b2));
                assert forall|i: int|
                    0 <= i < self.args_of(b2).len() implies self.valid_value(
                    #[trigger] self.args_of(b2)[i],
                ) && (self.kind_of(self.args_of(b2)[i]) matches ValueKind::Argument(ab, ak) && ab
                    == b2 && ak == i) by {
                    assert(pre.valid_value(pre.args_of(b2)[i]));
                }
                assert(self.predecessors_of(b2) == pre.predecessors_of(b2));
            } else if outgoing.contains(b2) {
                let i2 = choose|i2: int| 0 <= i2 < outgoing.len() && outgoing[i2] == b2;
                assert(outgoing[i2] == b2);
                assert(self.block_data(b2) == mid.block_data(b2));
                assert(self.args_of(b2) == pre.args_of(b2));
                assert(self.op_of(b2) == pre.op_of(b2));
                assert(self.reads_of(b2) == pre.reads_of(b2));
                assert(self.successors_of(b2) == pre.successors_of(b2));
                assert forall|i: int|
                    0 <= i < self.args_of(b2).len() implies self.valid_value(
                    #[trigger] self.args_of(b2)[i],
                ) && (self.kind_of(self.args_of(b2)[i]) matches ValueKind::Argument(ab, ak) && ab
                    == b2 && ak == i) by {
                    assert(pre.valid_value(pre.args_of(b2)[i]));
                }
                assert forall|i: int| 0 <= i < self.reads_of(b2).len() implies self.valid_value(
                    #[trigger] self.reads_of(b2)[i],
                ) by {
                    assert(pre.valid_value(pre.reads_of(b2)[i]));
                }
                assert(self.successors_of(b2) == self.branch_targets(self.reads_of(b2)));
                assert(self.op_of(b2) is None ==> self.reads_of(b2).len() == 0);
                assert(self.successors_of(b2).no_duplicates());
                assert(self.predecessors_of(b2).no_duplicates());
                assert forall|i: int|
                    0 <= i < self.successors_of(b2).len() implies self.valid_block(
                    #[trigger] self.successors_of(b2)[i],
                ) by {
                    assert(pre.valid_block(pre.successors_of(b2)[i]));
                }
                assert forall|i: int|
                    0 <= i < self.predecessors_of(b2).len() implies self.valid_block(
                    #[trigger] self.predecessors_of(b2)[i],
                ) by {
                    let p = self.predecessors_of(b2)[i];
                    assert(self.predecessors_of(b2).contains(p));
                    assert(mid.predecessors_of(b2).contains(p));
                    assert(pre.predecessors_of(b2).contains(p));
                    let k2 = choose|k2: int|
                        0 <= k2 < pre.predecessors_of(b2).len() && pre.predecessors_of(b2)[k2]
                            == p;
                    assert(pre.valid_block(pre.predecessors_of(b2)[k2]));
                }
                assert forall|kk: int| 0 <= kk < self.phis_of(b2).len() implies self.wf_phi(
                    b2,
                    #[trigger] self.phis_of(b2)[kk],
                ) by {
                    assert(mid.phis_of(b2)[kk] == self.phis_of(b2)[kk]);
                    assert(pre.wf_phi(b2, pre.phis_of(b2)[kk]));
                    assert(phi_tags(self.phis_of(b2)[kk]).no_duplicates());
                    assert(self.valid_value(self.phis_of(b2)[kk].value)) by {
                        assert(self.phis_of(b2)[kk].value == pre.phis_of(b2)[kk].value);
                    }
                    assert forall|j: int|
                        0 <= j < self.phis_of(b2)[kk].entries@.len() implies self.valid_value(
                        (#[trigger] self.phis_of(b2)[kk].entries@[j]).1,
                    ) by {
                        let oe = pre.phis_of(b2)[kk].entries@;
                        let jj = choose|jj: int|
                            0 <= jj < oe.len() && (#[trigger] oe[jj]).0 == block && mid.phis_of(
                                b2,
                            )[kk].entries@ == oe.remove(jj);
                        oe.remove_ensures(jj);
                        if j < jj {
                            assert(self.phis_of(b2)[kk].entries@[j] == oe[j]);
                            assert(pre.valid_value(oe[j].1));
                        } else {
                            assert(self.phis_of(b2)[kk].entries@[j] == oe[j + 1]);
                            assert(pre.valid_value(oe[j + 1].1));
                        }
                    }
                    assert forall|p: Block|
                        #![trigger phi_tags(self.phis_of(b2)[kk]).contains(p)]
                        #![trigger self.predecessors_of(b2).contains(p)]
                        phi_tags(self.phis_of(b2)[kk]).contains(p) <==> self.predecessors_of(
                        b2,
                    ).contains(p) by {
                        assert(phi_tags(mid.phis_of(b2)[kk]).contains(p) <==> (phi_tags(
                            pre.phis_of(b2)[kk],
                        ).contains(p) && p != block));
                        assert(phi_tags(pre.phis_of(b2)[kk]).contains(p)
                            <==> pre.predecessors_of(b2).contains(p));
                        assert(mid.predecessors_of(b2).contains(p) <==> (pre.predecessors_of(
                            b2,
                        ).contains(p) && p != block));
                    }
                }
            } else {
                assert(self.block_data(b2) == pre.block_data(b2));
                assert forall|kk: int| 0 <= kk < self.phis_of(b2).len() implies self.wf_phi(
                    b2,
                    #[trigger] self.phis_of(b2)[kk],
                ) by {
                    assert(pre.wf_phi(b2, pre.phis_of(b2)[kk]));
                    assert(self.predecessors_of(b2) == pre.predecessors_of(b2));
                }
            }
        }
        assert forall|a: Block, b2: Block|
            self.valid_block(a) && self.valid_block(b2) implies (self.successors_of(a).contains(b2)
            <==> self.predecessors_of(b2).contains(a)) by {
            assert(pre.successors_of(a).contains(b2) <==> pre.predecessors_of(b2).contains(a));
            // successor sets of blocks other than the removed one are unchanged
            if a != block {
                assert(self.successors_of(a) == pre.successors_of(a));
            }
            if b2 == block {
                assert(self.predecessors_of(block) == pre.predecessors_of(block));
                assert(pre.predecessors_of(block).len() == 0);
                if a != block {
                    assert(!pre.successors_of(a).contains(block)) by {
                        assert(pre.successors_of(a).contains(block)
                            <==> pre.predecessors_of(block).contains(a));
                    }
                }
            } else if outgoing.contains(b2) {
                let i2 = choose|i2: int| 0 <= i2 < outgoing.len() && outgoing[i2] == b2;
                assert(outgoing[i2] == b2);
                assert(self.predecessors_of(b2).contains(a) <==> (pre.predecessors_of(
                    b2,
                ).contains(a) && a != block));
                if a == block {
                    assert(self.successors_of(a).len() == 0);
                }
            } else {
                assert(self.block_data(b2) == pre.block_data(b2));
                if a == block {
                    assert(self.successors_of(a).len() == 0);
                    assert(!pre.successors_of(block).contains(b2));
                    assert(!pre.predecessors_of(b2).contains(block));
                }
            }
        }
        assert(self.wf_entry()) by {
            match self.entry_block {
                Some(e) => {
                    assert(pre.predecessors_of(e).len() == 0);
                    assert(e != block);
                    if outgoing.contains(e) {
                        let i2 = choose|i2: int| 0 <= i2 < outgoing.len() && outgoing[i2] == e;
                        assert(outgoing[i2] == e);
                        assert(pre.successors_of(block).contains(e));
                        assert(pre.predecessors_of(e).contains(block));
                        assert(false);
                    } else {
                        assert(self.block_data(e) == pre.block_data(e));
                    }
                },
                None => {},
            }
        }
        assert forall|c: int| 0 <= c < self.constant_values@.len() implies self.valid_value(
            #[trigger] self.constant_values@[c],
        ) && (self.kind_of(self.constant_values@[c]) matches ValueKind::Const(cc) && cc.0 == c) by {
            assert(pre.valid_value(pre.constant_values@[c]));
            assert(pre.kind_of(pre.constant_values@[c]) matches ValueKind::Const(cc) && cc.0 == c);
        }
    }
}


// ----------------------------------------------------------------------
// Setting a block's operation: the only path by which edges are created.
// ----------------------------------------------------------------------

/// Whether a block vector holds the given handle.
fn vec_contains_block(v: &Vec<Block>, x: Block) -> (r: bool)
    ensures
        r <==> v@.contains(x),
{
    let n = v.len();
    let mut i: usize = 0;
    while i < n
        invariant
            i <= n,
            n == v@.len(),
            forall|k: int| 0 <= k < i ==> v@[k] != x,
        decreases n - i,
    {
        if v[i].0 == x.0 {
            proof {
                assert(v@[i as int] == x);
            }
            return true;
        }
        i += 1;
    }
    proof {
        if v@.contains(x) {
            let k = choose|k: int| 0 <= k < v@.len() && v@[k] == x;
            assert(false);
        }
    }
    false
}

/// Pushing a fresh element keeps a sequence duplicate free and adds exactly
/// that element to the membership.
pub proof fn lemma_seq_push_dedup<T>(s: Seq<T>, x: T)
    requires
        s.no_duplicates(),
        !s.contains(x),
    ensures
        s.push(x).no_duplicates(),
        forall|y: T| #[trigger] s.push(x).contains(y) <==> (s.contains(y) || y == x),
{
    let r = s.push(x);
    assert forall|i: int, j: int| 0 <= i < j < r.len() implies r[i] != r[j] by {
        if j == s.len() as int {
            assert(r[i] == s[i]);
            assert(s.contains(s[i]));
        }
    }
    assert forall|y: T| #[trigger] r.contains(y) <==> (s.contains(y) || y == x) by {
        if r.contains(y) {
            let i = choose|i: int| 0 <= i < r.len() && r[i] == y;
            if i < s.len() {
                assert(s[i] == y);
            }
        }
        if s.contains(y) {
            let i = choose|i: int| 0 <= i < s.len() && s[i] == y;
            assert(r[i] == y);
        }
        if y == x {
            assert(r[s.len() as int] == y);
        }
    }
}

impl Function {
    /// Replace a block's operation and read list in one step. Which of the
    /// reads are block references determines the block's new outgoing edges;
    /// both endpoints' adjacency sets are updated, and a dropped edge strips
    /// the phi entry tagged with it in its destination, exactly as
    /// `remove_edge` would. A target acquiring a new edge must not be the
    /// entry block, and must hold no phi nodes yet: entries for the new edge
    /// are the builder's responsibility and are added by `phi_insert`
    /// afterwards.
    #[verifier::rlimit(100)]
    pub fn set_op_and_reads(&mut self, block: Block, op: OpKind, reads: Vec<Value>)
        requires
            old(self).wf(),
            old(self).valid_block(block),
            forall|i: int| 0 <= i < reads@.len() ==> old(self).valid_value(#[trigger] reads@[i]),
            old(self).branch_targets(reads@).no_duplicates(),
            forall|t: Block|
                #![trigger old(self).branch_targets(reads@).contains(t)]
                old(self).branch_targets(reads@).contains(t) ==> old(self).entry_spec() != Some(t),
            forall|t: Block|
                #![trigger old(self).branch_targets(reads@).contains(t)]
                old(self).branch_targets(reads@).contains(t) && !old(self).successors_of(
                    block,
                ).contains(t) ==> old(self).phis_of(t).len() == 0,
        ensures
            final(self).wf(),
            final(self).op_of(block) == Some(op),
            final(self).reads_of(block) == reads@,
            final(self).successors_of(block) == old(self).branch_targets(reads@),
            final(self).args_of(block) == old(self).args_of(block),
            forall|b2: Block|
                #![trigger final(self).predecessors_of(b2)]
                old(self).valid_block(b2) ==> (final(self).predecessors_of(b2).contains(block)
                    <==> old(self).branch_targets(reads@).contains(b2)),
            forall|b2: Block, p: Block|
                #![trigger final(self).predecessors_of(b2).contains(p)]
                old(self).valid_block(b2) && p != block ==> (final(self).predecessors_of(
                    b2,
                ).contains(p) <==> old(self).predecessors_of(b2).contains(p)),
            forall|b2: Block|
                #![trigger final(self).block_data(b2)]
                old(self).valid_block(b2) && b2 != block ==> final(self).args_of(b2) == old(
                    self,
                ).args_of(b2) && final(self).op_of(b2) == old(self).op_of(b2) && final(self).reads_of(b2) == old(self).reads_of(b2) && final(self).successors_of(b2) == old(
                    self,
                ).successors_of(b2),
            forall|b2: Block|
                old(self).valid_block(b2) && old(self).successors_of(block).contains(b2) && !old(
                    self,
                ).branch_targets(reads@).contains(b2) ==> {
                    &&& final(self).phis_of(b2).len() == old(self).phis_of(b2).len()
                    &&& (forall|k: int|
                        #![trigger final(self).phis_of(b2)[k]]
                        0 <= k < final(self).phis_of(b2).len() ==> final(self).phis_of(
                            b2,
                        )[k].value == old(self).phis_of(b2)[k].value && !phi_tags(
                            final(self).phis_of(b2)[k],
                        ).contains(block))
                },
            forall|b2: Block|
                #![trigger final(self).phis_of(b2)]
                old(self).valid_block(b2) && !(old(self).successors_of(block).contains(b2) && !old(
                    self,
                ).branch_targets(reads@).contains(b2)) ==> final(self).phis_of(b2) == old(
                    self,
                ).phis_of(b2),
            final(self).num_blocks() == old(self).num_blocks(),
            final(self).value_kinds() == old(self).value_kinds(),
            final(self).primops_seq() == old(self).primops_seq(),
            final(self).const_values() == old(self).const_values(),
            final(self).const_lits() == old(self).const_lits(),
            final(self).entry_spec() == old(self).entry_spec(),
            final(self).ident_spec() == old(self).ident_spec(),
    {
        let ghost tgt = old(self).branch_targets(reads@);
        // compute the new target sequence from the read list
        let nreads = reads.len();
        let mut targets: Vec<Block> = Vec::new();
        let mut i: usize = 0;
        while i < nreads
            invariant
                i <= nreads,
                *self == *old(self),
                self.wf(),
                nreads == reads@.len(),
                forall|k: int| 0 <= k < reads@.len() ==> self.valid_value(#[trigger] reads@[k]),
                targets@ == targets_in(self.values@, reads@.take(i as int)),
                forall|k: int| 0 <= k < targets@.len() ==> self.valid_block(#[trigger] targets@[k]),
            decreases nreads - i,
        {
            let rv = reads[i];
            proof {
                assert(self.wf_kind(self.values@[rv.0 as int]));
                assert(reads@.take(i as int + 1).drop_last() =~= reads@.take(i as int));
                assert(reads@.take(i as int + 1).last() == reads@[i as int]);
            }
            match self.values[rv.0] {
                ValueKind::Block(t) => {
                    targets.push(t);
                },
                _ => {},
            }
            i += 1;
        }
        proof {
            assert(reads@.take(nreads as int) =~= reads@);
            assert(targets@ == tgt);
        }
        // snapshot the old successors
        let old_succs = self.branch_slots(block);
        let ghost osq = old(self).successors_of(block);
        proof {
            assert(old(self).wf_block_at(block));
        }
        // drop the edges whose target is no longer read
        let m = old_succs.len();
        let mut k: usize = 0;
        while k < m
            invariant
                k <= m,
                old(self).wf(),
                old(self).valid_block(block),
                m == osq.len(),
                old_succs@ == osq,
                osq == old(self).successors_of(block),
                targets@ == tgt,
                tgt.no_duplicates(),
                osq.no_duplicates(),
                forall|i2: int| 0 <= i2 < m ==> old(self).valid_block(#[trigger] osq[i2]),
                forall|t: Block|
                    #![trigger tgt.contains(t)]
                    tgt.contains(t) && !osq.contains(t) ==> old(self).phis_of(t).len() == 0,
                self.blocks@.len() == old(self).blocks@.len(),
                forall|b2: Block|
                    #![trigger old(self).block_data(b2)]
                    old(self).valid_block(b2) && !(osq.take(k as int).contains(b2) && !tgt.contains(
                        b2,
                    )) ==> self.block_data(b2) == old(self).block_data(b2),
                forall|i2: int|
                    #![trigger osq[i2]]
                    0 <= i2 < k && !tgt.contains(osq[i2]) ==> {
                        let s = osq[i2];
                        &&& self.args_of(s) == old(self).args_of(s)
                        &&& self.op_of(s) == old(self).op_of(s)
                        &&& self.reads_of(s) == old(self).reads_of(s)
                        &&& self.successors_of(s) == old(self).successors_of(s)
                        &&& self.predecessors_of(s).no_duplicates()
                        &&& (forall|p: Block|
                            #![trigger self.predecessors_of(s).contains(p)]
                            self.predecessors_of(s).contains(p) <==> (old(self).predecessors_of(
                                s,
                            ).contains(p) && p != block))
                        &&& self.phis_of(s).len() == old(self).phis_of(s).len()
                        &&& (forall|kk: int|
                            #![trigger self.phis_of(s)[kk]]
                            0 <= kk < self.phis_of(s).len() ==> {
                                &&& self.phis_of(s)[kk].value == old(self).phis_of(s)[kk].value
                                &&& !phi_tags(self.phis_of(s)[kk]).contains(block)
                                &&& phi_tags(self.phis_of(s)[kk]).no_duplicates()
                                &&& (forall|j2: int|
                                    0 <= j2 < self.phis_of(s)[kk].entries@.len() ==> old(
                                        self,
                                    ).valid_value(
                                        (#[trigger] self.phis_of(s)[kk].entries@[j2]).1,
                                    ))
                                &&& (forall|p: Block|
                                    #![trigger phi_tags(self.phis_of(s)[kk]).contains(p)]
                                    phi_tags(self.phis_of(s)[kk]).contains(p) <==> (phi_tags(
                                        old(self).phis_of(s)[kk],
                                    ).contains(p) && p != block))
                            })
                    },
                self.values@ == old(self).values@,
                self.primops@ == old(self).primops@,
                self.constant_values@ == old(self).constant_values@,
                self.constant_container.literals@ == old(self).constant_container.literals@,
                self.entry_block == old(self).entry_block,
                self.ident == old(self).ident,
            decreases m - k,
        {
            let s = old_succs[k];
            let keep = vec_contains_block(&targets, s);
            if !keep {
                proof {
                    assert(s == osq[k as int]);
                    assert(old(self).valid_block(s));
                    assert(!osq.take(k as int).contains(s)) by {
                        if osq.take(k as int).contains(s) {
                            let i2 = choose|i2: int| 0 <= i2 < k && osq.take(k as int)[i2] == s;
                            assert(osq[i2] == osq[k as int]);
                        }
                    }
                    assert(self.block_data(s) == old(self).block_data(s));
                    assert(old(self).wf_block_at(s));
                    assert(old(self).predecessors_of(s).contains(block)) by {
                        assert(old(self).successors_of(block)[k as int] == s);
                        assert(old(self).successors_of(block).contains(s));
                    }
                    assert forall|kk: int| 0 <= kk < self.phis_of(s).len() implies {
                        &&& phi_tags(#[trigger] self.phis_of(s)[kk]).no_duplicates()
                        &&& (forall|p: Block|
                            #![trigger phi_tags(self.phis_of(s)[kk]).contains(p)]
                            #![trigger self.predecessors_of(s).contains(p)]
                            phi_tags(self.phis_of(s)[kk]).contains(p) <==> self.predecessors_of(
                                s,
                            ).contains(p))
                    } by {
                        assert(old(self).wf_phi(s, old(self).phis_of(s)[kk]));
                    }
                }
                let ghost before = *self;
                self.detach_pred(block, s);
                proof {
                    lemma_take_push(osq, k as int);
                    assert forall|b2: Block|
                        old(self).valid_block(b2) && !(osq.take(k as int + 1).contains(b2)
                            && !tgt.contains(b2)) implies self.block_data(b2) == old(
                        self,
                    ).block_data(b2) by {
                        if b2 != s {
                            assert(!(osq.take(k as int).contains(b2) && !tgt.contains(b2)));
                            assert(before.blocks@.len() == old(self).blocks@.len());
                            assert(before.valid_block(b2));
                            assert(before.block_data(b2) == old(self).block_data(b2));
                            assert(self.block_data(b2) == before.block_data(b2));
                        } else {
                            assert(osq.take(k as int + 1).contains(s));
                            assert(tgt.contains(s));
                            assert(false);
                        }
                    }
                    assert forall|kk: int|
                        0 <= kk < self.phis_of(s).len() implies !phi_tags(
                        #[trigger] self.phis_of(s)[kk],
                    ).contains(block) by {
                        assert(phi_tags(self.phis_of(s)[kk]).contains(block) <==> (phi_tags(
                            before.phis_of(s)[kk],
                        ).contains(block) && block != block));
                    }
                    assert forall|kk: int|
                        0 <= kk < self.phis_of(s).len() implies (forall|j2: int|
                        0 <= j2 < (#[trigger] self.phis_of(s)[kk]).entries@.len() ==> old(
                            self,
                        ).valid_value((self.phis_of(s)[kk].entries@[j2]).1)) by {
                        let oe = before.phis_of(s)[kk].entries@;
                        assert(before.phis_of(s)[kk] == old(self).phis_of(s)[kk]);
                        let jj = choose|jj: int|
                            0 <= jj < oe.len() && (#[trigger] oe[jj]).0 == block && self.phis_of(
                                s,
                            )[kk].entries@ == oe.remove(jj);
                        oe.remove_ensures(jj);
                        assert(old(self).wf_phi(s, old(self).phis_of(s)[kk]));
                        assert forall|j2: int|
                            0 <= j2 < self.phis_of(s)[kk].entries@.len() implies old(
                            self,
                        ).valid_value((#[trigger] self.phis_of(s)[kk].entries@[j2]).1) by {
                            if j2 < jj {
                                assert(self.phis_of(s)[kk].entries@[j2] == oe[j2]);
                                assert(old(self).valid_value(oe[j2].1));
                            } else {
                                assert(self.phis_of(s)[kk].entries@[j2] == oe[j2 + 1]);
                                assert(old(self).valid_value(oe[j2 + 1].1));
                            }
                        }
                    }
                }
            } else {
                proof {
                    lemma_take_push(osq, k as int);
                }
            }
            k += 1;
        }
        proof {
            assert(osq.take(m as int) =~= osq);
        }
        // install the new operation, reads and successor list
        let ghost mid_drop = *self;
        self.blocks[block.0].op = Some(op);
        self.blocks[block.0].reads = reads;
        self.blocks[block.0].successors = targets;
        let ghost mid_inst = *self;
        // record the new edges at their destinations
        let ntgt = self.blocks[block.0].successors.len();
        let mut j: usize = 0;
        while j < ntgt
            invariant
                j <= ntgt,
                old(self).wf(),
                old(self).valid_block(block),
                ntgt == tgt.len(),
                tgt.no_duplicates(),
                osq.no_duplicates(),
                osq == old(self).successors_of(block),
                old_succs@ == osq,
                forall|kk: int| 0 <= kk < tgt.len() ==> old(self).valid_block(#[trigger] tgt[kk]),
                mid_inst.blocks@.len() == old(self).blocks@.len(),
                self.blocks@.len() == old(self).blocks@.len(),
                self.valid_block(block),
                self.successors_of(block) == tgt,
                self.op_of(block) == Some(op),
                self.reads_of(block) == reads@,
                forall|b2: Block|
                    #![trigger mid_inst.block_data(b2)]
                    old(self).valid_block(b2) && !(tgt.take(j as int).contains(b2) && !osq.contains(
                        b2,
                    )) ==> self.block_data(b2) == mid_inst.block_data(b2),
                forall|i2: int|
                    #![trigger tgt[i2]]
                    0 <= i2 < j && !osq.contains(tgt[i2]) ==> {
                        let t = tgt[i2];
                        &&& self.args_of(t) == mid_inst.args_of(t)
                        &&& self.op_of(t) == mid_inst.op_of(t)
                        &&& self.reads_of(t) == mid_inst.reads_of(t)
                        &&& self.successors_of(t) == mid_inst.successors_of(t)
                        &&& self.phis_of(t) == mid_inst.phis_of(t)
                        &&& self.predecessors_of(t) == mid_inst.predecessors_of(t).push(block)
                    },
                self.values@ == old(self).values@,
                self.primops@ == old(self).primops@,
                self.constant_values@ == old(self).constant_values@,
                self.constant_container.literals@ == old(self).constant_container.literals@,
                self.entry_block == old(self).entry_block,
                self.ident == old(self).ident,
            decreases ntgt - j,
        {
            let t = self.blocks[block.0].successors[j];
            let fresh = !vec_contains_block(&old_succs, t);
            let ghost before = *self;
            if fresh {
                self.blocks[t.0].predecessors.push(block);
            }
            proof {
                assert(t == tgt[j as int]);
                lemma_take_push(tgt, j as int);
                if fresh {
                    assert(!tgt.take(j as int).contains(t)) by {
                        if tgt.take(j as int).contains(t) {
                            let i2 = choose|i2: int| 0 <= i2 < j && tgt.take(j as int)[i2] == t;
                            assert(tgt[i2] == tgt[j as int]);
                        }
                    }
                    assert(before.block_data(t) == mid_inst.block_data(t));
                    assert(tgt.take(j as int + 1).contains(t));
                    assert forall|b2: Block|
                        old(self).valid_block(b2) && !(tgt.take(j as int + 1).contains(b2)
                            && !osq.contains(b2)) implies self.block_data(b2) == mid_inst.block_data(
                        b2,
                    ) by {
                        assert(b2 != t);
                        assert(self.block_data(b2) == before.block_data(b2));
                        assert(!(tgt.take(j as int).contains(b2) && !osq.contains(b2)));
                    }
                }
            }
            j += 1;
        }
        proof {
            assert(tgt.take(ntgt as int) =~= tgt);
            assert(old(self).wf_block_at(block));
            assert forall|b2: Block|
                old(self).valid_block(b2) && b2 != block implies mid_inst.block_data(b2)
                == mid_drop.block_data(b2) by {}
            assert(mid_inst.args_of(block) == mid_drop.args_of(block));
            assert(mid_inst.predecessors_of(block) == mid_drop.predecessors_of(block));
            assert(mid_inst.phis_of(block) == mid_drop.phis_of(block));
            if osq.contains(block) && !tgt.contains(block) {
                let i2 = choose|i2: int| 0 <= i2 < osq.len() && osq[i2] == block;
                assert(osq[i2] == block);
            } else {
                assert(mid_drop.block_data(block) == old(self).block_data(block));
            }
            self.lemma_wf_after_set_op(*old(self), mid_inst, block, op, reads@, tgt, osq);
        }
    }

    /// The whole-graph invariant holds again after `set_op_and_reads`:
    /// `mid` is the state after the dropped destinations were detached and
    /// the block's operation, reads and successors were installed; `self`
    /// additionally records the block in each freshly gained destination.
    #[verifier::rlimit(100)]
    proof fn lemma_wf_after_set_op(
        &self,
        pre: Function,
        mid: Function,
        block: Block,
        op: OpKind,
        rds: Seq<Value>,
        tgt: Seq<Block>,
        osq: Seq<Block>,
    )
        requires
            pre.wf(),
            pre.valid_block(block),
            forall|i: int| 0 <= i < rds.len() ==> pre.valid_value(#[trigger] rds[i]),
            tgt == targets_in(pre.values@, rds),
            tgt.no_duplicates(),
            osq == pre.successors_of(block),
            forall|t: Block|
                #![trigger tgt.contains(t)]
                tgt.contains(t) ==> pre.entry_spec() != Some(t),
            forall|t: Block|
                #![trigger tgt.contains(t)]
                tgt.contains(t) && !osq.contains(t) ==> pre.phis_of(t).len() == 0,
            // mid: dropped destinations detached, block's fields installed
            mid.blocks@.len() == pre.blocks@.len(),
            forall|b2: Block|
                pre.valid_block(b2) && b2 != block && !(osq.contains(b2) && !tgt.contains(b2))
                    ==> mid.block_data(b2) == pre.block_data(b2),
            forall|i2: int|
                #![trigger osq[i2]]
                0 <= i2 < osq.len() && !tgt.contains(osq[i2]) && osq[i2] != block ==> {
                    let s = osq[i2];
                    &&& mid.args_of(s) == pre.args_of(s)
                    &&& mid.op_of(s) == pre.op_of(s)
                    &&& mid.reads_of(s) == pre.reads_of(s)
                    &&& mid.successors_of(s) == pre.successors_of(s)
                    &&& mid.predecessors_of(s).no_duplicates()
                    &&& (forall|p: Block|
                        #![trigger mid.predecessors_of(s).contains(p)]
                        mid.predecessors_of(s).contains(p) <==> (pre.predecessors_of(s).contains(p)
                            && p != block))
                    &&& mid.phis_of(s).len() == pre.phis_of(s).len()
                    &&& (forall|kk: int|
                        #![trigger mid.phis_of(s)[kk]]
                        0 <= kk < mid.phis_of(s).len() ==> {
                            &&& mid.phis_of(s)[kk].value == pre.phis_of(s)[kk].value
                            &&& !phi_tags(mid.phis_of(s)[kk]).contains(block)
                            &&& phi_tags(mid.phis_of(s)[kk]).no_duplicates()
                            &&& (forall|j2: int|
                                0 <= j2 < mid.phis_of(s)[kk].entries@.len() ==> pre.valid_value(
                                    (#[trigger] mid.phis_of(s)[kk].entries@[j2]).1,
                                ))
                            &&& (forall|p: Block|
                                #![trigger phi_tags(mid.phis_of(s)[kk]).contains(p)]
                                phi_tags(mid.phis_of(s)[kk]).contains(p) <==> (phi_tags(
                                    pre.phis_of(s)[kk],
                                ).contains(p) && p != block))
                        })
                },
            mid.args_of(block) == pre.args_of(block),
            mid.op_of(block) == Some(op),
            mid.reads_of(block) == rds,
            mid.successors_of(block) == tgt,
            mid.predecessors_of(block).no_duplicates(),
            (osq.contains(block) && !tgt.contains(block)) ==> (forall|p: Block|
                #![trigger mid.predecessors_of(block).contains(p)]
                mid.predecessors_of(block).contains(p) <==> (pre.predecessors_of(block).contains(p)
                    && p != block)),
            !(osq.contains(block) && !tgt.contains(block)) ==> mid.predecessors_of(block)
                == pre.predecessors_of(block),
            (osq.contains(block) && !tgt.contains(block)) ==> (mid.phis_of(block).len()
                == pre.phis_of(block).len() && (forall|kk: int|
                #![trigger mid.phis_of(block)[kk]]
                0 <= kk < mid.phis_of(block).len() ==> {
                    &&& mid.phis_of(block)[kk].value == pre.phis_of(block)[kk].value
                    &&& !phi_tags(mid.phis_of(block)[kk]).contains(block)
                    &&& phi_tags(mid.phis_of(block)[kk]).no_duplicates()
                    &&& (forall|j2: int|
                        0 <= j2 < mid.phis_of(block)[kk].entries@.len() ==> pre.valid_value(
                            (#[trigger] mid.phis_of(block)[kk].entries@[j2]).1,
                        ))
                    &&& (forall|p: Block|
                        #![trigger phi_tags(mid.phis_of(block)[kk]).contains(p)]
                        phi_tags(mid.phis_of(block)[kk]).contains(p) <==> (phi_tags(
                            pre.phis_of(block)[kk],
                        ).contains(p) && p != block))
                })),
            !(osq.contains(block) && !tgt.contains(block)) ==> mid.phis_of(block) == pre.phis_of(
                block,
            ),
            mid.values@ == pre.values@,
            mid.primops@ == pre.primops@,
            mid.constant_values@ == pre.constant_values@,
            mid.constant_container.literals@ == pre.constant_container.literals@,
            mid.entry_block == pre.entry_block,
            // self: the gained destinations each record the new predecessor
            self.blocks@.len() == mid.blocks@.len(),
            forall|b2: Block|
                pre.valid_block(b2) && !(tgt.contains(b2) && !osq.contains(b2))
                    ==> self.block_data(b2) == mid.block_data(b2),
            forall|i2: int|
                #![trigger tgt[i2]]
                0 <= i2 < tgt.len() && !osq.contains(tgt[i2]) ==> {
                    let t = tgt[i2];
                    &&& self.args_of(t) == mid.args_of(t)
                    &&& self.op_of(t) == mid.op_of(t)
                    &&& self.reads_of(t) == mid.reads_of(t)
                    &&& self.successors_of(t) == mid.successors_of(t)
                    &&& self.phis_of(t) == mid.phis_of(t)
                    &&& self.predecessors_of(t) == mid.predecessors_of(t).push(block)
                },
            self.values@ == mid.values@,
            self.primops@ == mid.primops@,
            self.constant_values@ == mid.constant_values@,
            self.constant_container.literals@ == mid.constant_container.literals@,
            self.entry_block == mid.entry_block,
        ensures
            self.wf(),
            self.args_of(block) == pre.args_of(block),
            self.op_of(block) == Some(op),
            self.reads_of(block) == rds,
            self.successors_of(block) == tgt,
            forall|b2: Block|
                #![trigger self.predecessors_of(b2)]
                pre.valid_block(b2) ==> (self.predecessors_of(b2).contains(block) <==> tgt.contains(
                    b2,
                )),
            forall|b2: Block, p: Block|
                #![trigger self.predecessors_of(b2).contains(p)]
                pre.valid_block(b2) && p != block ==> (self.predecessors_of(b2).contains(p)
                    <==> pre.predecessors_of(b2).contains(p)),
            forall|b2: Block|
                #![trigger self.block_data(b2)]
                pre.valid_block(b2) && b2 != block ==> self.args_of(b2) == pre.args_of(b2)
                    && self.op_of(b2) == pre.op_of(b2) && self.reads_of(b2) == pre.reads_of(b2)
                    && self.successors_of(b2) == pre.successors_of(b2),
            forall|b2: Block|
                pre.valid_block(b2) && osq.contains(b2) && !tgt.contains(b2) ==> {
                    &&& self.phis_of(b2).len() == pre.phis_of(b2).len()
                    &&& (forall|k: int|
                        #![trigger self.phis_of(b2)[k]]
                        0 <= k < self.phis_of(b2).len() ==> self.phis_of(b2)[k].value
                            == pre.phis_of(b2)[k].value && !phi_tags(self.phis_of(b2)[k]).contains(
                            block,
                        ))
                },
            forall|b2: Block|
                #![trigger self.phis_of(b2)]
                pre.valid_block(b2) && !(osq.contains(b2) && !tgt.contains(b2)) ==> self.phis_of(b2)
                    == pre.phis_of(b2),
    {
        let dropped = |b2: Block| osq.contains(b2) && !tgt.contains(b2);
        let gained = |b2: Block| tgt.contains(b2) && !osq.contains(b2);
        // membership of targets implies validity
        assert forall|t: Block| #[trigger] tgt.contains(t) implies pre.valid_block(t) by {
            lemma_targets_membership(pre.values@, rds, t);
            let i = choose|i: int|
                0 <= i < rds.len() && (#[trigger] rds[i]).0 < pre.values@.len()
                    && pre.values@[rds[i].0 as int] == ValueKind::Block(t);
            assert(pre.wf_kind(pre.values@[rds[i].0 as int]));
        }
        assert forall|s: Block| #[trigger] osq.contains(s) implies pre.valid_block(s) by {
            assert(pre.wf_block_at(block));
            let i = choose|i: int| 0 <= i < osq.len() && osq[i] == s;
            assert(pre.valid_block(pre.successors_of(block)[i]));
        }
        // predecessors of every block, after the change
        assert forall|b2: Block, p: Block|
            #![trigger self.predecessors_of(b2).contains(p)]
            pre.valid_block(b2) implies (self.predecessors_of(b2).contains(p) <==> ((
        pre.predecessors_of(b2).contains(p) && (p != block || (osq.contains(b2) && tgt.contains(
            b2,
        )))) || (p == block && tgt.contains(b2)))) by {
            if gained(b2) {
                let i2 = choose|i2: int| 0 <= i2 < tgt.len() && tgt[i2] == b2;
                assert(tgt[i2] == b2);
                assert(self.predecessors_of(b2) == mid.predecessors_of(b2).push(block));
                assert(mid.predecessors_of(b2) == pre.predecessors_of(b2));
                assert(!pre.predecessors_of(b2).contains(block)) by {
                    assert(pre.successors_of(block).contains(b2) <==> pre.predecessors_of(
                        b2,
                    ).contains(block));
                }
                assert(pre.predecessors_of(b2).no_duplicates()) by {
                    assert(pre.wf_block_at(b2));
                }
                lemma_seq_push_dedup(pre.predecessors_of(b2), block);
            } else if dropped(b2) {
                assert(self.block_data(b2) == mid.block_data(b2));
                if b2 == block {
                    assert(mid.predecessors_of(b2).contains(p) <==> (pre.predecessors_of(
                        b2,
                    ).contains(p) && p != block));
                } else {
                    let i2 = choose|i2: int| 0 <= i2 < osq.len() && osq[i2] == b2;
                    assert(osq[i2] == b2);
                    assert(mid.predecessors_of(b2).contains(p) <==> (pre.predecessors_of(
                        b2,
                    ).contains(p) && p != block));
                }
            } else {
                assert(self.block_data(b2) == mid.block_data(b2));
                if b2 == block {
                    assert(mid.predecessors_of(b2) == pre.predecessors_of(b2));
                } else {
                    assert(mid.block_data(b2) == pre.block_data(b2));
                }
                // in the unchanged case, membership of `block` agrees with both sides
                if osq.contains(b2) && tgt.contains(b2) {
                    assert(pre.predecessors_of(b2).contains(block)) by {
                        assert(pre.successors_of(block).contains(b2) <==> pre.predecessors_of(
                            b2,
                        ).contains(block));
                    }
                } else {
                    assert(!osq.contains(b2) && !tgt.contains(b2));
                    assert(!pre.predecessors_of(b2).contains(block)) by {
                        assert(pre.successors_of(block).contains(b2) <==> pre.predecessors_of(
                            b2,
                        ).contains(block));
                    }
                }
            }
        }
        assert forall|i: int| 0 <= i < self.values@.len() implies self.wf_kind(
            #[trigger] self.values@[i],
        ) by {
            assert(pre.wf_kind(pre.values@[i]));
            match pre.values@[i] {
                ValueKind::Argument(b2, nn) => {
                    assert(self.args_of(b2) == pre.args_of(b2)) by {
                        if gained(b2) {
                            let i2 = choose|i2: int| 0 <= i2 < tgt.len() && tgt[i2] == b2;
                            assert(tgt[i2] == b2);
                        } else if dropped(b2) && b2 != block {
                            let i2 = choose|i2: int| 0 <= i2 < osq.len() && osq[i2] == b2;
                            assert(osq[i2] == b2);
                        }
                    }
                },
                _ => {},
            }
        }
        assert forall|pi: int| 0 <= pi < self.primops@.len() implies #[trigger] self.wf_primop_at(
            pi,
        ) by {
            assert(pre.wf_primop_at(pi));
            let pd = self.primops@[pi];
            assert forall|j: int| 0 <= j < pd.reads@.len() implies {
                &&& self.valid_value(#[trigger] pd.reads@[j])
                &&& (self.kind_of(pd.reads@[j]) matches ValueKind::PrimOp(q) ==> q.0 < pi)
            } by {
                assert(pre.valid_value(pd.reads@[j]));
            }
        }
        assert forall|b2: Block| self.valid_block(b2) implies #[trigger] self.wf_block_at(b2) by {
            assert(pre.wf_block_at(b2));
            // arguments are unchanged everywhere
            assert(self.args_of(b2) == pre.args_of(b2)) by {
                if gained(b2) {
                    let i2 = choose|i2: int| 0 <= i2 < tgt.len() && tgt[i2] == b2;
                    assert(tgt[i2] == b2);
                } else if dropped(b2) && b2 != block {
                    let i2 = choose|i2: int| 0 <= i2 < osq.len() && osq[i2] == b2;
                    assert(osq[i2] == b2);
                }
            }
            assert forall|i: int|
                0 <= i < self.args_of(b2).len() implies self.valid_value(
                #[trigger] self.args_of(b2)[i],
            ) && (self.kind_of(self.args_of(b2)[i]) matches ValueKind::Argument(ab, ak) && ab == b2
                && ak == i) by {
                assert(pre.valid_value(pre.args_of(b2)[i]));
            }
            // operation, reads and successors
            if b2 == block {
                assert(self.op_of(b2) == Some(op));
                assert(self.reads_of(b2) == rds);
                assert(self.successors_of(b2) == tgt) by {
                    if gained(block) {
                        let i2 = choose|i2: int| 0 <= i2 < tgt.len() && tgt[i2] == block;
                        assert(tgt[i2] == block);
                    }
                }
                assert forall|i: int| 0 <= i < self.reads_of(b2).len() implies self.valid_value(
                    #[trigger] self.reads_of(b2)[i],
                ) by {
                    assert(pre.valid_value(rds[i]));
                }
                assert(self.branch_targets(self.reads_of(b2)) == targets_in(pre.values@, rds));
                assert forall|i: int|
                    0 <= i < self.successors_of(b2).len() implies self.valid_block(
                    #[trigger] self.successors_of(b2)[i],
                ) by {
                    assert(tgt.contains(tgt[i]));
                }
            } else {
                assert(self.op_of(b2) == pre.op_of(b2) && self.reads_of(b2) == pre.reads_of(b2)
                    && self.successors_of(b2) == pre.successors_of(b2)) by {
                    if gained(b2) {
                        let i2 = choose|i2: int| 0 <= i2 < tgt.len() && tgt[i2] == b2;
                        assert(tgt[i2] == b2);
                    } else if dropped(b2) {
                        let i2 = choose|i2: int| 0 <= i2 < osq.len() && osq[i2] == b2;
                        assert(osq[i2] == b2);
                    }
                }
                assert forall|i: int| 0 <= i < self.reads_of(b2).len() implies self.valid_value(
                    #[trigger] self.reads_of(b2)[i],
                ) by {
                    assert(pre.valid_value(pre.reads_of(b2)[i]));
                }
                assert(self.branch_targets(self.reads_of(b2)) == pre.branch_targets(
                    pre.reads_of(b2),
                ));
                assert forall|i: int|
                    0 <= i < self.successors_of(b2).len() implies self.valid_block(
                    #[trigger] self.successors_of(b2)[i],
                ) by {
                    assert(pre.valid_block(pre.successors_of(b2)[i]));
                }
            }
            // predecessors: duplicate freedom and validity
            assert(self.predecessors_of(b2).no_duplicates()) by {
                if gained(b2) {
                    let i2 = choose|i2: int| 0 <= i2 < tgt.len() && tgt[i2] == b2;
                    assert(tgt[i2] == b2);
                    assert(mid.predecessors_of(b2) == pre.predecessors_of(b2));
                    assert(!pre.predecessors_of(b2).contains(block)) by {
                        assert(pre.successors_of(block).contains(b2) <==> pre.predecessors_of(
                            b2,
                        ).contains(block));
                    }
                    lemma_seq_push_dedup(pre.predecessors_of(b2), block);
                } else if dropped(b2) {
                    if b2 == block {
                        assert(self.predecessors_of(b2) == mid.predecessors_of(b2));
                    } else {
                        let i2 = choose|i2: int| 0 <= i2 < osq.len() && osq[i2] == b2;
                        assert(osq[i2] == b2);
                        assert(self.predecessors_of(b2) == mid.predecessors_of(b2));
                    }
                } else {
                    if b2 == block {
                        assert(self.predecessors_of(b2) == pre.predecessors_of(b2));
                    } else {
                        assert(self.block_data(b2) == pre.block_data(b2));
                    }
                }
            }
            assert forall|i: int|
                0 <= i < self.predecessors_of(b2).len() implies self.valid_block(
                #[trigger] self.predecessors_of(b2)[i],
            ) by {
                let p = self.predecessors_of(b2)[i];
                assert(self.predecessors_of(b2).contains(p));
                if p == block {
                    assert(pre.valid_block(block));
                } else {
                    assert(pre.predecessors_of(b2).contains(p));
                    let k2 = choose|k2: int|
                        0 <= k2 < pre.predecessors_of(b2).len() && pre.predecessors_of(b2)[k2]
                            == p;
                    assert(pre.valid_block(pre.predecessors_of(b2)[k2]));
                }
            }
            // phi nodes
            assert forall|kk: int| 0 <= kk < self.phis_of(b2).len() implies self.wf_phi(
                b2,
                #[trigger] self.phis_of(b2)[kk],
            ) by {
                if gained(b2) {
                    let i2 = choose|i2: int| 0 <= i2 < tgt.len() && tgt[i2] == b2;
                    assert(tgt[i2] == b2);
                    assert(pre.phis_of(b2).len() == 0);
                    assert(self.phis_of(b2) == mid.phis_of(b2));
                    assert(mid.phis_of(b2) == pre.phis_of(b2));
                    assert(false);
                } else if dropped(b2) {
                    if b2 != block {
                        let i2 = choose|i2: int| 0 <= i2 < osq.len() && osq[i2] == b2;
                        assert(osq[i2] == b2);
                    }
                    assert(pre.wf_phi(b2, pre.phis_of(b2)[kk]));
                    assert(self.phis_of(b2)[kk] == mid.phis_of(b2)[kk]);
                    assert(self.valid_value(self.phis_of(b2)[kk].value)) by {
                        assert(self.phis_of(b2)[kk].value == pre.phis_of(b2)[kk].value);
                    }
                    assert(phi_tags(self.phis_of(b2)[kk]).no_duplicates());
                    assert forall|p: Block|
                        #![trigger phi_tags(self.phis_of(b2)[kk]).contains(p)]
                        #![trigger self.predecessors_of(b2).contains(p)]
                        phi_tags(self.phis_of(b2)[kk]).contains(p) <==> self.predecessors_of(
                        b2,
                    ).contains(p) by {
                        assert(phi_tags(mid.phis_of(b2)[kk]).contains(p) <==> (phi_tags(
                            pre.phis_of(b2)[kk],
                        ).contains(p) && p != block));
                        assert(phi_tags(pre.phis_of(b2)[kk]).contains(p)
                            <==> pre.predecessors_of(b2).contains(p));
                    }
                } else {
                    assert(self.phis_of(b2) == pre.phis_of(b2)) by {
                        if b2 == block {
                            assert(mid.phis_of(b2) == pre.phis_of(b2));
                        } else {
                            assert(self.block_data(b2) == pre.block_data(b2));
                        }
                    }
                    assert(pre.wf_phi(b2, pre.phis_of(b2)[kk]));
                    assert(self.predecessors_of(b2) == pre.predecessors_of(b2)) by {
                        if b2 == block {
                            if dropped(block) {
                                assert(false);
                            }
                        } else {
                            assert(self.block_data(b2) == pre.block_data(b2));
                        }
                    }
                }
            }
        }
        assert forall|a: Block, b2: Block|
            self.valid_block(a) && self.valid_block(b2) implies (self.successors_of(a).contains(b2)
            <==> self.predecessors_of(b2).contains(a)) by {
            assert(pre.successors_of(a).contains(b2) <==> pre.predecessors_of(b2).contains(a));
            if a == block {
                assert(self.successors_of(a) == tgt) by {
                    if gained(block) {
                        let i2 = choose|i2: int| 0 <= i2 < tgt.len() && tgt[i2] == block;
                        assert(tgt[i2] == block);
                    }
                }
                assert(self.predecessors_of(b2).contains(block) <==> tgt.contains(b2));
            } else {
                assert(self.successors_of(a) == pre.successors_of(a)) by {
                    if gained(a) {
                        let i2 = choose|i2: int| 0 <= i2 < tgt.len() && tgt[i2] == a;
                        assert(tgt[i2] == a);
                    } else if dropped(a) {
                        let i2 = choose|i2: int| 0 <= i2 < osq.len() && osq[i2] == a;
                        assert(osq[i2] == a);
                    }
                }
                assert(self.predecessors_of(b2).contains(a) <==> pre.predecessors_of(b2).contains(
                    a,
                ));
            }
        }
        assert(self.wf_entry()) by {
            match self.entry_block {
                Some(e) => {
                    assert(pre.predecessors_of(e).len() == 0);
                    assert(!tgt.contains(e));
                    assert(!osq.contains(e)) by {
                        if osq.contains(e) {
                            assert(pre.successors_of(block).contains(e));
                            assert(pre.predecessors_of(e).contains(block));
                        }
                    }
                    assert(e != block || !dropped(block));
                    assert(self.predecessors_of(e) == pre.predecessors_of(e)) by {
                        if e == block {
                            assert(mid.predecessors_of(e) == pre.predecessors_of(e));
                        } else {
                            assert(self.block_data(e) == pre.block_data(e));
                        }
                    }
                },
                None => {},
            }
        }
        assert forall|c: int| 0 <= c < self.constant_values@.len() implies self.valid_value(
            #[trigger] self.constant_values@[c],
        ) && (self.kind_of(self.constant_values@[c]) matches ValueKind::Const(cc) && cc.0 == c) by {
            assert(pre.valid_value(pre.constant_values@[c]));
            assert(pre.kind_of(pre.constant_values@[c]) matches ValueKind::Const(cc) && cc.0 == c);
        }
        // the remaining conclusions, for the caller's contract
        assert(self.args_of(block) == pre.args_of(block) && self.op_of(block) == Some(op)
            && self.reads_of(block) == rds && self.successors_of(block) == tgt) by {
            if tgt.contains(block) && !osq.contains(block) {
                let i2 = choose|i2: int| 0 <= i2 < tgt.len() && tgt[i2] == block;
                assert(tgt[i2] == block);
            } else {
                assert(self.block_data(block) == mid.block_data(block));
            }
        }
        assert forall|b2: Block| pre.valid_block(b2) implies (#[trigger] self.predecessors_of(
            b2,
        ).contains(block) <==> tgt.contains(b2)) by {
            assert(pre.successors_of(block).contains(b2) <==> pre.predecessors_of(b2).contains(
                block,
            ));
            assert(self.predecessors_of(b2).contains(block) <==> ((pre.predecessors_of(
                b2,
            ).contains(block) && (block != block || (osq.contains(b2) && tgt.contains(b2)))) || (
            block == block && tgt.contains(b2))));
        }
        assert forall|b2: Block, p: Block|
            pre.valid_block(b2) && p != block implies (#[trigger] self.predecessors_of(
            b2,
        ).contains(p) <==> pre.predecessors_of(b2).contains(p)) by {
            assert(self.predecessors_of(b2).contains(p) <==> ((pre.predecessors_of(b2).contains(p)
                && (p != block || (osq.contains(b2) && tgt.contains(b2)))) || (p == block
                && tgt.contains(b2))));
        }
        assert forall|b2: Block|
            pre.valid_block(b2) && b2 != block implies #[trigger] self.args_of(b2) == pre.args_of(
            b2,
        ) && self.op_of(b2) == pre.op_of(b2) && self.reads_of(b2) == pre.reads_of(b2)
            && self.successors_of(b2) == pre.successors_of(b2) by {
            if gained(b2) {
                let i2 = choose|i2: int| 0 <= i2 < tgt.len() && tgt[i2] == b2;
                assert(tgt[i2] == b2);
                assert(mid.block_data(b2) == pre.block_data(b2));
            } else if dropped(b2) {
                assert(self.block_data(b2) == mid.block_data(b2));
                let i2 = choose|i2: int| 0 <= i2 < osq.len() && osq[i2] == b2;
                assert(osq[i2] == b2);
            } else {
                assert(self.block_data(b2) == mid.block_data(b2));
                assert(mid.block_data(b2) == pre.block_data(b2));
            }
        }
        assert forall|b2: Block|
            pre.valid_block(b2) && osq.contains(b2) && !tgt.contains(b2) implies
            #[trigger] self.phis_of(b2).len() == pre.phis_of(b2).len() && (forall|k: int|
            #![trigger self.phis_of(b2)[k]]
            0 <= k < self.phis_of(b2).len() ==> self.phis_of(b2)[k].value == pre.phis_of(
                b2,
            )[k].value && !phi_tags(self.phis_of(b2)[k]).contains(block)) by {
            assert(self.block_data(b2) == mid.block_data(b2));
            if b2 != block {
                let i2 = choose|i2: int| 0 <= i2 < osq.len() && osq[i2] == b2;
                assert(osq[i2] == b2);
            }
        }
        assert forall|b2: Block|
            pre.valid_block(b2) && !(osq.contains(b2) && !tgt.contains(b2)) implies
            #[trigger] self.phis_of(b2) == pre.phis_of(b2) by {
            if gained(b2) {
                let i2 = choose|i2: int| 0 <= i2 < tgt.len() && tgt[i2] == b2;
                assert(tgt[i2] == b2);
                assert(self.phis_of(b2) == mid.phis_of(b2));
                if b2 == block {
                    assert(mid.phis_of(b2) == pre.phis_of(b2));
                } else {
                    assert(mid.block_data(b2) == pre.block_data(b2));
                }
            } else {
                assert(self.block_data(b2) == mid.block_data(b2));
                if b2 == block {
                    assert(mid.phis_of(b2) == pre.phis_of(b2));
                } else {
                    assert(mid.block_data(b2) == pre.block_data(b2));
                }
            }
        }
    }
}


// ----------------------------------------------------------------------
// Phi nodes.
// ----------------------------------------------------------------------

impl Function {
    /// Add a phi node to a block. The entries must carry exactly one value
    /// per current predecessor edge, tagged by the predecessor block; the
    /// phi's produced value is a fresh argument of the owning block.
    pub fn phi_insert(&mut self, block: Block, entries: Vec<(Block, Value)>) -> (v: Value)
        requires
            old(self).wf(),
            old(self).valid_block(block),
            entry_tags(entries@).no_duplicates(),
            forall|p: Block|
                #![trigger entry_tags(entries@).contains(p)]
                #![trigger old(self).predecessors_of(block).contains(p)]
                entry_tags(entries@).contains(p) <==> old(self).predecessors_of(block).contains(p),
            forall|j: int|
                0 <= j < entries@.len() ==> old(self).valid_value((#[trigger] entries@[j]).1),
        ensures
            final(self).wf(),
            v.0 == old(self).num_values(),
            final(self).valid_value(v),
            (final(self).kind_of(v) matches ValueKind::Argument(ab, ak) && ab == block && ak == old(self).args_of(block).len()),
            final(self).args_of(block) == old(self).args_of(block).push(v),
            final(self).phis_of(block).len() == old(self).phis_of(block).len() + 1,
            forall|k: int|
                0 <= k < old(self).phis_of(block).len() ==> final(self).phis_of(block)[k] == old(
                    self,
                ).phis_of(block)[k],
            final(self).phis_of(block).last().value == v,
            final(self).phis_of(block).last().entries@ == entries@,
            final(self).num_values() == old(self).num_values() + 1,
            forall|v2: Value|
                old(self).valid_value(v2) ==> final(self).kind_of(v2) == old(self).kind_of(v2),
            final(self).op_of(block) == old(self).op_of(block),
            final(self).reads_of(block) == old(self).reads_of(block),
            final(self).successors_of(block) == old(self).successors_of(block),
            final(self).predecessors_of(block) == old(self).predecessors_of(block),
            forall|b2: Block|
                old(self).valid_block(b2) && b2 != block ==> final(self).block_data(b2) == old(
                    self,
                ).block_data(b2),
            final(self).num_blocks() == old(self).num_blocks(),
            final(self).primops_seq() == old(self).primops_seq(),
            final(self).const_values() == old(self).const_values(),
            final(self).const_lits() == old(self).const_lits(),
            final(self).entry_spec() == old(self).entry_spec(),
            final(self).ident_spec() == old(self).ident_spec(),
    {
        let v = self.block_arg_insert(block);
        let ghost mid = *self;
        self.blocks[block.0].phis.push(Phi { value: v, entries });
        proof {
            assert(self.phis_of(block).last().value == v);
            assert(self.phis_of(block).last().entries@ == entries@);
            self.lemma_wf_after_phi_push(*old(self), mid, block);
        }
        v
    }

    /// The whole-graph invariant holds again after pushing one well-formed
    /// phi node onto a block.
    proof fn lemma_wf_after_phi_push(&self, pre: Function, mid: Function, block: Block)
        requires
            pre.wf(),
            pre.valid_block(block),
            mid.wf(),
            mid.blocks@.len() == pre.blocks@.len(),
            mid.valid_block(block),
            mid.predecessors_of(block) == pre.predecessors_of(block),
            self.blocks@.len() == mid.blocks@.len(),
            forall|b2: Block|
                mid.valid_block(b2) && b2 != block ==> self.block_data(b2) == mid.block_data(b2),
            self.block_data(block).arguments@ == mid.block_data(block).arguments@,
            self.block_data(block).op == mid.block_data(block).op,
            self.block_data(block).reads@ == mid.block_data(block).reads@,
            self.block_data(block).predecessors@ == mid.block_data(block).predecessors@,
            self.block_data(block).successors@ == mid.block_data(block).successors@,
            self.phis_of(block).len() == mid.phis_of(block).len() + 1,
            forall|k: int|
                0 <= k < mid.phis_of(block).len() ==> self.phis_of(block)[k] == mid.phis_of(
                    block,
                )[k],
            mid.valid_value(self.phis_of(block).last().value),
            entry_tags(self.phis_of(block).last().entries@).no_duplicates(),
            forall|p: Block|
                #![trigger entry_tags(self.phis_of(block).last().entries@).contains(p)]
                #![trigger pre.predecessors_of(block).contains(p)]
                entry_tags(self.phis_of(block).last().entries@).contains(p)
                    <==> pre.predecessors_of(block).contains(p),
            forall|j: int|
                0 <= j < self.phis_of(block).last().entries@.len() ==> mid.valid_value(
                    (#[trigger] self.phis_of(block).last().entries@[j]).1,
                ),
            self.values@ == mid.values@,
            self.primops@ == mid.primops@,
            self.constant_values@ == mid.constant_values@,
            self.constant_container.literals@ == mid.constant_container.literals@,
            self.entry_block == mid.entry_block,
        ensures
            self.wf(),
    {
        assert forall|i: int| 0 <= i < self.values@.len() implies self.wf_kind(
            #[trigger] self.values@[i],
        ) by {
            assert(mid.wf_kind(mid.values@[i]));
            match mid.values@[i] {
                ValueKind::Argument(b2, nn) => {
                    assert(self.args_of(b2) == mid.args_of(b2));
                },
                _ => {},
            }
        }
        assert forall|pi: int| 0 <= pi < self.primops@.len() implies #[trigger] self.wf_primop_at(
            pi,
        ) by {
            assert(mid.wf_primop_at(pi));
            let pd = self.primops@[pi];
            assert forall|j: int| 0 <= j < pd.reads@.len() implies {
                &&& self.valid_value(#[trigger] pd.reads@[j])
                &&& (self.kind_of(pd.reads@[j]) matches ValueKind::PrimOp(q) ==> q.0 < pi)
            } by {
                assert(mid.valid_value(pd.reads@[j]));
            }
        }
        assert forall|b2: Block| self.valid_block(b2) implies #[trigger] self.wf_block_at(b2) by {
            assert(mid.wf_block_at(b2));
            let bd = self.block_data(b2);
            let bdm = mid.block_data(b2);
            assert(bd.arguments@ == bdm.arguments@);
            assert(bd.op == bdm.op);
            assert(bd.reads@ == bdm.reads@);
            assert(bd.successors@ == bdm.successors@);
            assert(bd.predecessors@ == bdm.predecessors@);
            assert(bd.successors@ == self.branch_targets(bd.reads@)) by {
                assert(bdm.successors@ == targets_in(mid.values@, bdm.reads@));
            }
            assert forall|k: int| 0 <= k < bd.phis@.len() implies self.wf_phi(
                b2,
                #[trigger] bd.phis@[k],
            ) by {
                if b2 == block && k == bdm.phis@.len() as int {
                    assert(bd.phis@[k] == self.phis_of(block).last());
                    assert(self.predecessors_of(block) == pre.predecessors_of(block));
                } else {
                    assert(bd.phis@[k] == bdm.phis@[k]);
                    assert(mid.wf_phi(b2, bdm.phis@[k]));
                }
            }
        }
        assert forall|a: Block, b2: Block|
            self.valid_block(a) && self.valid_block(b2) implies (self.successors_of(a).contains(b2)
            <==> self.predecessors_of(b2).contains(a)) by {
            assert(self.successors_of(a) == mid.successors_of(a));
            assert(self.predecessors_of(b2) == mid.predecessors_of(b2));
            assert(mid.successors_of(a).contains(b2) <==> mid.predecessors_of(b2).contains(a));
        }
        assert(self.wf_entry()) by {
            match self.entry_block {
                Some(e) => {
                    assert(self.predecessors_of(e) == mid.predecessors_of(e));
                },
                None => {},
            }
        }
        assert forall|c: int| 0 <= c < self.constant_values@.len() implies self.valid_value(
            #[trigger] self.constant_values@[c],
        ) && (self.kind_of(self.constant_values@[c]) matches ValueKind::Const(cc) && cc.0 == c) by {
            assert(mid.valid_value(mid.constant_values@[c]));
            assert(mid.kind_of(mid.constant_values@[c]) matches ValueKind::Const(cc) && cc.0 == c);
        }
    }
}

// ----------------------------------------------------------------------
// The validator: recompute adjacency from the read lists and compare with
// stored adjacency. A debug and test tool, not a hot path.
// ----------------------------------------------------------------------

impl Function {
    /// Recompute the block's successor count and both endpoints' adjacency
    /// membership from the operation's read list, and compare with stored
    /// state. On a well-formed graph this always returns true: verification
    /// shows the assertion can never fire.
    pub fn graph_validate_block(&self, block: Block) -> (r: bool)
        requires
            self.wf(),
            self.valid_block(block),
        ensures
            r,
    {
        proof {
            assert(self.wf_block_at(block));
        }
        let reads_len = self.blocks[block.0].reads.len();
        let mut num_successors: usize = 0;
        let mut ok = true;
        let mut i: usize = 0;
        while i < reads_len
            invariant
                i <= reads_len,
                self.wf(),
                self.valid_block(block),
                reads_len == self.reads_of(block).len(),
                num_successors as int == targets_in(self.values@, self.reads_of(block).take(i as int)).len(),
                num_successors <= i,
                ok,
            decreases reads_len - i,
        {
            proof {
                assert(self.wf_block_at(block));
                assert(self.valid_value(self.reads_of(block)[i as int]));
                assert(self.wf_kind(self.values@[self.reads_of(block)[i as int].0 as int]));
                assert(self.reads_of(block).take(i as int + 1).drop_last() =~= self.reads_of(
                    block,
                ).take(i as int));
                assert(self.reads_of(block).take(i as int + 1).last() == self.reads_of(
                    block,
                )[i as int]);
            }
            let rv = self.blocks[block.0].reads[i];
            match self.values[rv.0] {
                ValueKind::Block(succ_block) => {
                    proof {
                        lemma_targets_membership(self.values@, self.reads_of(block), succ_block);
                        assert(self.successors_of(block).contains(succ_block));
                        assert(self.predecessors_of(succ_block).contains(block));
                        assert(self.wf_block_at(succ_block));
                    }
                    let in_succ = vec_contains_block(&self.blocks[block.0].successors, succ_block);
                    let in_pred = vec_contains_block(
                        &self.blocks[succ_block.0].predecessors,
                        block,
                    );
                    ok = ok && in_succ && in_pred;
                    num_successors += 1;
                },
                _ => {},
            }
            i += 1;
        }
        proof {
            assert(self.reads_of(block).take(reads_len as int) =~= self.reads_of(block));
            assert(self.successors_of(block).len() == num_successors);
        }
        ok && num_successors == self.blocks[block.0].successors.len()
    }

    /// Validate the whole graph; expensive, for tests only. On a well-formed
    /// graph this always returns true.
    pub fn graph_validate_global(&self) -> (r: bool)
        requires
            self.wf(),
        ensures
            r,
    {
        let n = self.blocks.len();
        let mut ok = true;
        let mut i: usize = 0;
        while i < n
            invariant
                i <= n,
                self.wf(),
                n == self.num_blocks(),
                ok,
            decreases n - i,
        {
            ok = ok && self.graph_validate_block(Block(i));
            i += 1;
        }
        ok
    }
}

// ----------------------------------------------------------------------
// Laws of the graph.
// ----------------------------------------------------------------------

/// Adjacency is symmetric: for any two blocks of a well-formed graph, one is
/// stored as a successor of the other exactly when the other is stored as its
/// predecessor.
pub proof fn lemma_adjacency_symmetric(f: &Function, a: Block, b: Block)
    requires
        f.wf(),
        f.valid_block(a),
        f.valid_block(b),
    ensures
        f.successors_of(a).contains(b) <==> f.predecessors_of(b).contains(a),
{
}

/// Primop identity is structural identity: two primops of a well-formed
/// graph are the same entity exactly when they have the same operator kind
/// and the same ordered operand values. Varying one operand yields a
/// distinct identity.
pub proof fn lemma_primop_identity(f: &Function, p1: PrimOp, p2: PrimOp)
    requires
        f.wf(),
        f.valid_primop(p1),
        f.valid_primop(p2),
    ensures
        (p1 == p2) <==> (f.primop_op_spec(p1) == f.primop_op_spec(p2) && f.primop_reads_spec(p1)
            == f.primop_reads_spec(p2)),
{
    if p1 != p2 {
        if p1.0 < p2.0 {
            assert(!(f.primops_seq()[p1.0 as int].op == f.primops_seq()[p2.0 as int].op
                && f.primops_seq()[p1.0 as int].reads@ == f.primops_seq()[p2.0 as int].reads@));
        } else {
            assert(!(f.primops_seq()[p2.0 as int].op == f.primops_seq()[p1.0 as int].op
                && f.primops_seq()[p2.0 as int].reads@ == f.primops_seq()[p1.0 as int].reads@));
        }
    }
}

/// Phi bookkeeping is exact: on a well-formed graph, a phi node's entry
/// tags are the owning block's predecessors, one entry per predecessor
/// edge, with no missing and no stale entry.
pub proof fn lemma_phi_entries_match_predecessors(f: &Function, b: Block, k: int)
    requires
        f.wf(),
        f.valid_block(b),
        0 <= k < f.phis_of(b).len(),
    ensures
        phi_tags(f.phis_of(b)[k]).no_duplicates(),
        forall|p: Block|
            #![trigger phi_tags(f.phis_of(b)[k]).contains(p)]
            #![trigger f.predecessors_of(b).contains(p)]
            phi_tags(f.phis_of(b)[k]).contains(p) <==> f.predecessors_of(b).contains(p),
{
    assert(f.wf_block_at(b));
    assert(f.wf_phi(b, f.phis_of(b)[k]));
}

/// The entry block, once chosen, has no predecessors: no block can branch
/// to it, so it is never removable by `remove_block`'s precondition alone.
pub proof fn lemma_entry_no_predecessors(f: &Function, e: Block)
    requires
        f.wf(),
        f.entry_spec() == Some(e),
    ensures
        f.predecessors_of(e).len() == 0,
        forall|a: Block|
            f.valid_block(a) ==> !(#[trigger] f.successors_of(a).contains(e)),
{
    assert forall|a: Block| f.valid_block(a) implies !(#[trigger] f.successors_of(a).contains(
        e,
    )) by {
        assert(f.successors_of(a).contains(e) <==> f.predecessors_of(e).contains(a));
    }
}

/// Value identity is kind identity: no two values of a well-formed graph
/// share a producing kind, so a value is determined by what produces it.
pub proof fn lemma_value_identity(f: &Function, v1: Value, v2: Value)
    requires
        f.wf(),
        f.valid_value(v1),
        f.valid_value(v2),
    ensures
        (v1 == v2) <==> (f.kind_of(v1) == f.kind_of(v2)),
{
    if v1 != v2 {
        if v1.0 < v2.0 {
            assert(f.value_kinds()[v1.0 as int] != f.value_kinds()[v2.0 as int]);
        } else {
            assert(f.value_kinds()[v2.0 as int] != f.value_kinds()[v1.0 as int]);
        }
    }
}

/// Constant interning: two constants of a well-formed graph carrying the
/// same literal are the same handle, and their values are the same value.
pub proof fn lemma_constant_interned(f: &Function, c1: Const, c2: Const)
    requires
        f.wf(),
        f.valid_const(c1),
        f.valid_const(c2),
        f.const_lits()[c1.0 as int] == f.const_lits()[c2.0 as int],
    ensures
        c1 == c2,
{
    if c1.0 < c2.0 {
        assert(f.const_lits()[c1.0 as int] != f.const_lits()[c2.0 as int]);
    } else if c2.0 < c1.0 {
        assert(f.const_lits()[c2.0 as int] != f.const_lits()[c1.0 as int]);
    }
}

/// How many of the reads are block references.
pub open spec fn count_block_reads(values: Seq<ValueKind>, reads: Seq<Value>) -> nat
    decreases reads.len(),
{
    if reads.len() == 0 {
        0
    } else {
        count_block_reads(values, reads.drop_last()) + (if reads.last().0 < values.len() && (
        values[reads.last().0 as int] is Block) {
            1nat
        } else {
            0nat
        })
    }
}

/// The number of branch slots of a block equals the number of block-valued
/// reads of its operation, and each slot holds the target of the
/// corresponding block-valued read, in read order.
pub proof fn lemma_branch_slots_shape(f: &Function, block: Block)
    requires
        f.wf(),
        f.valid_block(block),
    ensures
        f.successors_of(block) == targets_in(f.value_kinds(), f.reads_of(block)),
        f.successors_of(block).len() == count_block_reads(f.value_kinds(), f.reads_of(block)),
        f.successors_of(block).len() <= f.reads_of(block).len(),
{
    assert(f.wf_block_at(block));
    lemma_targets_len_is_count(f.value_kinds(), f.reads_of(block));
}

/// A read list induces exactly one target per block-valued read, and so
/// never more targets than reads.
pub proof fn lemma_targets_len_is_count(values: Seq<ValueKind>, reads: Seq<Value>)
    ensures
        targets_in(values, reads).len() == count_block_reads(values, reads),
        targets_in(values, reads).len() <= reads.len(),
    decreases reads.len(),
{
    if reads.len() > 0 {
        lemma_targets_len_is_count(values, reads.drop_last());
    }
}


// ----------------------------------------------------------------------
// Walking nested values: a primop result stands for a tree of operand
// values; consumers visit the value and every value nested under it.
// ----------------------------------------------------------------------

impl Function {
    /// An upper bound on the primop-chain depth under a value: operand
    /// chains are acyclic, so any primop's operands name strictly earlier
    /// primops.
    pub open(crate) spec fn value_rank(&self, v: Value) -> nat {
        match self.kind_of(v) {
            ValueKind::PrimOp(p) => p.0 as nat + 1,
            _ => 0,
        }
    }

    /// The walk order of the values nested under a value, to a fuel bound:
    /// the value itself, then, for a primop result, the nested values of
    /// each operand in order.
    pub open(crate) spec fn value_nested(&self, v: Value, fuel: nat) -> Seq<Value>
        decreases fuel, 0nat, 1nat,
    {
        match self.kind_of(v) {
            ValueKind::PrimOp(p) => if fuel > 0 {
                seq![v] + self.primop_nested_upto(
                    p,
                    self.primop_reads_spec(p).len() as int,
                    (fuel - 1) as nat,
                )
            } else {
                seq![v]
            },
            _ => seq![v],
        }
    }

    /// The concatenated walks of a primop's first `n` operands.
    pub open(crate) spec fn primop_nested_upto(&self, p: PrimOp, n: int, fuel: nat) -> Seq<Value>
        decreases fuel, n, 0nat,
    {
        if n <= 0 {
            Seq::empty()
        } else {
            self.primop_nested_upto(p, n - 1, fuel) + self.value_nested(
                self.primop_reads_spec(p)[n - 1],
                fuel,
            )
        }
    }

    /// On a well-formed graph, any fuel at least the value's rank walks the
    /// same sequence.
    pub proof fn lemma_value_nested_stable(&self, v: Value, fuel: nat)
        requires
            self.wf(),
            self.valid_value(v),
            fuel >= self.value_rank(v),
        ensures
            self.value_nested(v, fuel) == self.value_nested(v, self.value_rank(v)),
        decreases fuel, 0nat, 1nat,
    {
        match self.kind_of(v) {
            ValueKind::PrimOp(p) => {
                assert(self.wf_kind(self.values@[v.0 as int]));
                assert(self.valid_primop(p));
                self.lemma_primop_upto_stable(
                    p,
                    self.primop_reads_spec(p).len() as int,
                    (fuel - 1) as nat,
                );
            },
            _ => {},
        }
    }

    /// On a well-formed graph, any fuel at least the primop's own index
    /// walks the same operand sequences.
    pub proof fn lemma_primop_upto_stable(&self, p: PrimOp, n: int, fuel: nat)
        requires
            self.wf(),
            self.valid_primop(p),
            n <= self.primop_reads_spec(p).len(),
            fuel >= p.0 as nat,
        ensures
            self.primop_nested_upto(p, n, fuel) == self.primop_nested_upto(p, n, p.0 as nat),
        decreases fuel, n, 0nat,
    {
        if n > 0 {
            self.lemma_primop_upto_stable(p, n - 1, fuel);
            let rd = self.primop_reads_spec(p)[n - 1];
            assert(self.wf_primop_at(p.0 as int));
            assert(self.valid_value(rd));
            assert(self.value_rank(rd) <= p.0 as nat) by {
                match self.kind_of(rd) {
                    ValueKind::PrimOp(q) => {
                        assert(q.0 < p.0);
                    },
                    _ => {},
                }
            }
            self.lemma_value_nested_stable(rd, fuel);
            self.lemma_value_nested_stable(rd, p.0 as nat);
        }
    }

    /// Walk the value and every value nested under it through primop
    /// operands, in visiting order.
    pub fn value_walk_nested_values(&self, value: Value) -> (r: Vec<Value>)
        requires
            self.wf(),
            self.valid_value(value),
        ensures
            r@ == self.value_nested(value, self.value_rank(value)),
        decreases self.value_rank(value), 0nat,
    {
        let mut out: Vec<Value> = Vec::new();
        out.push(value);
        match self.values[value.0] {
            ValueKind::PrimOp(p) => {
                proof {
                    assert(self.wf_kind(self.values@[value.0 as int]));
                }
                let mut rest = self.primop_walk_nested_values(p);
                out.append(&mut rest);
                proof {
                    assert(out@ =~= seq![value] + self.primop_nested_upto(
                        p,
                        self.primop_reads_spec(p).len() as int,
                        p.0 as nat,
                    ));
                }
            },
            _ => {
                proof {
                    assert(out@ =~= seq![value]);
                }
            },
        }
        out
    }

    /// Walk every value nested under a primop: the nested values of each
    /// operand, in operand order.
    pub fn primop_walk_nested_values(&self, primop: PrimOp) -> (r: Vec<Value>)
        requires
            self.wf(),
            self.valid_primop(primop),
        ensures
            r@ == self.primop_nested_upto(
                primop,
                self.primop_reads_spec(primop).len() as int,
                primop.0 as nat,
            ),
        decreases primop.0 as nat, 1nat,
    {
        let n = self.primops[primop.0].reads.len();
        let mut out: Vec<Value> = Vec::new();
        let mut j: usize = 0;
        while j < n
            invariant
                j <= n,
                self.wf(),
                self.valid_primop(primop),
                n == self.primop_reads_spec(primop).len(),
                out@ == self.primop_nested_upto(primop, j as int, primop.0 as nat),
            decreases n - j,
        {
            let rd = self.primops[primop.0].reads[j];
            proof {
                assert(self.wf_primop_at(primop.0 as int));
                assert(self.valid_value(rd));
                assert(self.value_rank(rd) <= primop.0 as nat) by {
                    match self.kind_of(rd) {
                        ValueKind::PrimOp(q) => {
                            assert(q.0 < primop.0);
                        },
                        _ => {},
                    }
                }
            }
            let mut sub = self.value_walk_nested_values(rd);
            out.append(&mut sub);
            proof {
                self.lemma_value_nested_stable(rd, primop.0 as nat);
                assert(out@ =~= self.primop_nested_upto(primop, j as int + 1, primop.0 as nat));
            }
            j += 1;
        }
        out
    }

    /// Walk every value nested under a block's reads, in read order.
    pub fn block_walk_nested_values(&self, block: Block) -> (r: Vec<Value>)
        requires
            self.wf(),
            self.valid_block(block),
        ensures
            r@ == self.block_nested_upto(block, self.reads_of(block).len() as int),
    {
        proof {
            assert(self.wf_block_at(block));
        }
        let n = self.blocks[block.0].reads.len();
        let mut out: Vec<Value> = Vec::new();
        let mut j: usize = 0;
        while j < n
            invariant
                j <= n,
                self.wf(),
                self.valid_block(block),
                n == self.reads_of(block).len(),
                out@ == self.block_nested_upto(block, j as int),
            decreases n - j,
        {
            proof {
                assert(self.wf_block_at(block));
                assert(self.valid_value(self.reads_of(block)[j as int]));
            }
            let rd = self.blocks[block.0].reads[j];
            let mut sub = self.value_walk_nested_values(rd);
            out.append(&mut sub);
            proof {
                assert(out@ =~= self.block_nested_upto(block, j as int + 1));
            }
            j += 1;
        }
        out
    }

    /// The concatenated walks of a block's first `n` reads.
    pub open(crate) spec fn block_nested_upto(&self, block: Block, n: int) -> Seq<Value>
        decreases n,
    {
        if n <= 0 {
            Seq::empty()
        } else {
            self.block_nested_upto(block, n - 1) + self.value_nested(
                self.reads_of(block)[n - 1],
                self.value_rank(self.reads_of(block)[n - 1]),
            )
        }
    }
}

} // verus!
