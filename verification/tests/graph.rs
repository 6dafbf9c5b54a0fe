//! Tests of the function graph: entity allocation, adjacency, branch slots,
//! edge and block removal, the primop pool and the validator.

use eir_ir::function::{
    BinOp, Block, ConstLiteral, Edge, Function, FunctionIdent, OpKind, PrimOpKind, ValueKind,
};

fn ident() -> FunctionIdent {
    FunctionIdent { name: 7, arity: 1, lambda: None }
}

#[test]
fn fresh_function_is_empty() {
    let f = Function::new(ident());
    assert_eq!(f.ident().name, 7);
    assert_eq!(f.iter_constants().len(), 0);
    assert!(f.graph_validate_global());
}

#[test]
fn block_handles_are_dense_and_fresh() {
    let mut f = Function::new(ident());
    let a = f.block_insert();
    let b = f.block_insert();
    let c = f.block_insert();
    assert_eq!(a, Block(0));
    assert_eq!(b, Block(1));
    assert_eq!(c, Block(2));
    assert!(f.block_kind(a).is_none());
    assert_eq!(f.block_args(a).len(), 0);
    assert!(f.graph_validate_global());
}

#[test]
fn block_values_name_their_blocks() {
    let mut f = Function::new(ident());
    let a = f.block_insert();
    let b = f.block_insert();
    let va = f.block_value(a).unwrap();
    let vb = f.block_value(b).unwrap();
    assert_ne!(va, vb);
    assert_eq!(f.value_block(va), Some(a));
    assert_eq!(f.value_block(vb), Some(b));
    assert_eq!(f.value_argument(va), None);
    assert_eq!(f.value_const(va), None);
    assert_eq!(f.value_primop(va), None);
}

#[test]
fn arguments_know_their_positions() {
    let mut f = Function::new(ident());
    let a = f.block_insert();
    let x = f.block_arg_insert(a);
    let y = f.block_arg_insert(a);
    assert_eq!(f.value_argument(x), Some((a, 0)));
    assert_eq!(f.value_argument(y), Some((a, 1)));
    assert_eq!(f.block_args(a), &vec![x, y]);
    assert_eq!(f.block_arg_n(a, 0), Some(x));
    assert_eq!(f.block_arg_n(a, 1), Some(y));
    assert_eq!(f.block_arg_n(a, 2), None);
}

#[test]
fn entry_block_round_trip() {
    let mut f = Function::new(ident());
    let a = f.block_insert();
    f.block_arg_insert(a);
    f.set_entry(a);
    assert_eq!(f.block_entry(), a);
    assert_eq!(f.entry_arg_num(), 1);
}

#[test]
fn set_op_and_reads_connects_both_endpoints() {
    let mut f = Function::new(ident());
    let a = f.block_insert();
    let b = f.block_insert();
    let c = f.block_insert();
    let cond = f.block_arg_insert(a);
    let vb = f.block_value(b).unwrap();
    let vc = f.block_value(c).unwrap();
    f.set_op_and_reads(a, OpKind::IfBool, vec![cond, vb, vc]);
    // successors in read order
    assert_eq!(f.branch_slots(a), vec![b, c]);
    // adjacency is symmetric
    assert_eq!(f.block_predecessors(b), &vec![a]);
    assert_eq!(f.block_predecessors(c), &vec![a]);
    assert_eq!(f.block_predecessors(a).len(), 0);
    assert!(f.graph_validate_block(a));
    assert!(f.graph_validate_global());
}

#[test]
fn branch_slots_skip_non_block_reads() {
    let mut f = Function::new(ident());
    let a = f.block_insert();
    let b = f.block_insert();
    let x = f.block_arg_insert(a);
    let y = f.block_arg_insert(a);
    let vb = f.block_value(b).unwrap();
    f.set_op_and_reads(a, OpKind::Call, vec![x, vb, y]);
    assert_eq!(f.branch_slots(a), vec![b]);
    assert_eq!(f.block_reads(a), &vec![x, vb, y]);
}

#[test]
fn branch_slots_unaffected_by_unrelated_mutation() {
    let mut f = Function::new(ident());
    let a = f.block_insert();
    let b = f.block_insert();
    let c = f.block_insert();
    let d = f.block_insert();
    let vb = f.block_value(b).unwrap();
    let vd = f.block_value(d).unwrap();
    f.set_op_and_reads(a, OpKind::Call, vec![vb]);
    let before = f.branch_slots(a);
    // mutate an unrelated block
    f.set_op_and_reads(c, OpKind::Call, vec![vd]);
    f.block_arg_insert(d);
    assert_eq!(f.branch_slots(a), before);
}

#[test]
fn two_way_conditional_edge_removal() {
    // Block A holds a two-way conditional with reads [V, B, C]: condition V,
    // successor B at slot 0, successor C at slot 1.
    let mut f = Function::new(ident());
    let a = f.block_insert();
    let b = f.block_insert();
    let c = f.block_insert();
    let v = f.block_arg_insert(a);
    let vb = f.block_value(b).unwrap();
    let vc = f.block_value(c).unwrap();
    f.set_op_and_reads(a, OpKind::IfBool, vec![v, vb, vc]);
    assert_eq!(f.branch_slots(a), vec![b, c]);
    // a phi in C tagged with the edge from A
    let flowing = f.block_arg_insert(a);
    let phi_val = f.phi_insert(c, vec![(a, flowing)]);
    assert_eq!(f.value_argument(phi_val), Some((c, 0)));
    assert_eq!(f.block_phis(c).len(), 1);
    assert_eq!(f.block_phis(c)[0].entries.len(), 1);

    f.remove_edge(Edge { from: a, to: c });

    // the slot list shifted down, and the phi entry tagged with the edge is
    // gone while the phi itself survives
    assert_eq!(f.branch_slots(a), vec![b]);
    assert_eq!(f.block_reads(a), &vec![v, vb]);
    assert_eq!(f.block_predecessors(c).len(), 0);
    assert_eq!(f.block_phis(c).len(), 1);
    assert_eq!(f.block_phis(c)[0].entries.len(), 0);
    assert_eq!(f.block_phis(c)[0].value, phi_val);
    assert!(f.graph_validate_global());
}

#[test]
fn remove_block_strips_phis_and_adjacency() {
    let mut f = Function::new(ident());
    let entry = f.block_insert();
    let x = f.block_insert();
    let s = f.block_insert();
    f.set_entry(entry);
    let vx = f.block_value(x).unwrap();
    let vs = f.block_value(s).unwrap();
    // entry -> x -> s
    f.set_op_and_reads(entry, OpKind::Call, vec![vx]);
    f.set_op_and_reads(x, OpKind::Call, vec![vs]);
    let flowing = f.block_arg_insert(x);
    f.phi_insert(s, vec![(x, flowing)]);
    assert_eq!(f.block_phis(s)[0].entries.len(), 1);

    // x still has an incoming edge; detach it first, then remove x
    f.remove_edge(Edge { from: entry, to: x });
    assert_eq!(f.block_predecessors(x).len(), 0);
    f.remove_block(x);

    // x is absent from every adjacency set and no surviving phi names it
    assert_eq!(f.branch_slots(x).len(), 0);
    assert!(f.block_kind(x).is_none());
    assert_eq!(f.block_phis(x).len(), 0);
    assert_eq!(f.block_predecessors(s).len(), 0);
    assert_eq!(f.block_phis(s)[0].entries.len(), 0);
    assert!(f.graph_validate_global());
}

#[test]
fn primop_pool_deduplicates() {
    // inserting add(x, y) twice yields one id; add(x, z) yields another
    let mut f = Function::new(ident());
    let a = f.block_insert();
    let x = f.block_arg_insert(a);
    let y = f.block_arg_insert(a);
    let z = f.block_arg_insert(a);
    let p1 = f.primop_insert(PrimOpKind::BinOp(BinOp::Plus), vec![x, y]);
    let p2 = f.primop_insert(PrimOpKind::BinOp(BinOp::Plus), vec![x, y]);
    let p3 = f.primop_insert(PrimOpKind::BinOp(BinOp::Plus), vec![x, z]);
    assert_eq!(p1, p2);
    assert_ne!(p1, p3);
    assert_eq!(*f.primop_kind(p1), PrimOpKind::BinOp(BinOp::Plus));
    assert_eq!(f.primop_reads(p1), &vec![x, y]);
    assert_eq!(f.primop_reads(p3), &vec![x, z]);
}

#[test]
fn primop_dedup_is_transitive_through_values() {
    // a primop built from an already-shared sub-primop is itself shared
    let mut f = Function::new(ident());
    let a = f.block_insert();
    let x = f.block_arg_insert(a);
    let y = f.block_arg_insert(a);
    let inner1 = f.primop_insert(PrimOpKind::BinOp(BinOp::Plus), vec![x, y]);
    let v1 = f.record_primop_value(inner1);
    let inner2 = f.primop_insert(PrimOpKind::BinOp(BinOp::Plus), vec![x, y]);
    let v2 = f.record_primop_value(inner2);
    assert_eq!(v1, v2);
    let outer1 = f.primop_insert(PrimOpKind::Tuple, vec![v1, x]);
    let outer2 = f.primop_insert(PrimOpKind::Tuple, vec![v2, x]);
    assert_eq!(outer1, outer2);
    assert_eq!(f.value_primop(v1), Some(inner1));
}

#[test]
fn distinct_operators_get_distinct_primops() {
    let mut f = Function::new(ident());
    let a = f.block_insert();
    let x = f.block_arg_insert(a);
    let y = f.block_arg_insert(a);
    let p1 = f.primop_insert(PrimOpKind::BinOp(BinOp::Plus), vec![x, y]);
    let p2 = f.primop_insert(PrimOpKind::BinOp(BinOp::Minus), vec![x, y]);
    let p3 = f.primop_insert(PrimOpKind::Tuple, vec![x, y]);
    assert_ne!(p1, p2);
    assert_ne!(p2, p3);
    assert_ne!(p1, p3);
}

#[test]
fn constants_are_interned() {
    let mut f = Function::new(ident());
    let v1 = f.intern_constant(ConstLiteral::Integer(42));
    let v2 = f.intern_constant(ConstLiteral::Integer(42));
    let v3 = f.intern_constant(ConstLiteral::Atom(5));
    let v4 = f.intern_constant(ConstLiteral::Nil);
    assert_eq!(v1, v2);
    assert_ne!(v1, v3);
    assert_ne!(v3, v4);
    assert!(f.value_is_constant(v1));
    assert!(f.iter_constants().contains(&v1));
    let c1 = f.value_const(v1).unwrap();
    assert_eq!(f.cons().get(c1), ConstLiteral::Integer(42));
    assert_eq!(f.cons().len(), 3);
    let a = f.block_insert();
    let x = f.block_arg_insert(a);
    assert!(!f.value_is_constant(x));
}

#[test]
fn value_kinds_are_exclusive() {
    let mut f = Function::new(ident());
    let a = f.block_insert();
    let va = f.block_value(a).unwrap();
    let arg = f.block_arg_insert(a);
    let cv = f.intern_constant(ConstLiteral::Nil);
    assert!(matches!(f.value_kind(va), ValueKind::Block(_)));
    assert!(matches!(f.value_kind(arg), ValueKind::Argument(_, _)));
    assert!(matches!(f.value_kind(cv), ValueKind::Const(_)));
}

#[test]
fn replacing_reads_drops_old_edges() {
    let mut f = Function::new(ident());
    let a = f.block_insert();
    let b = f.block_insert();
    let c = f.block_insert();
    let vb = f.block_value(b).unwrap();
    let vc = f.block_value(c).unwrap();
    f.set_op_and_reads(a, OpKind::Call, vec![vb]);
    assert_eq!(f.branch_slots(a), vec![b]);
    f.set_op_and_reads(a, OpKind::Call, vec![vc]);
    assert_eq!(f.branch_slots(a), vec![c]);
    assert_eq!(f.block_predecessors(b).len(), 0);
    assert_eq!(f.block_predecessors(c), &vec![a]);
    assert!(f.graph_validate_global());
}

#[test]
fn self_loop_is_symmetric() {
    let mut f = Function::new(ident());
    let a = f.block_insert();
    let va = f.block_value(a).unwrap();
    f.set_op_and_reads(a, OpKind::Call, vec![va]);
    assert_eq!(f.branch_slots(a), vec![a]);
    assert_eq!(f.block_predecessors(a), &vec![a]);
    assert!(f.graph_validate_global());
    f.remove_edge(Edge { from: a, to: a });
    assert_eq!(f.branch_slots(a).len(), 0);
    assert_eq!(f.block_predecessors(a).len(), 0);
}

#[test]
fn walking_nested_values_follows_primop_operands() {
    let mut f = Function::new(ident());
    let a = f.block_insert();
    let x = f.block_arg_insert(a);
    let y = f.block_arg_insert(a);
    let inner = f.primop_insert(PrimOpKind::BinOp(BinOp::Plus), vec![x, y]);
    let vi = f.record_primop_value(inner);
    let outer = f.primop_insert(PrimOpKind::Tuple, vec![vi, y]);
    let vo = f.record_primop_value(outer);
    // x is not a primop result: the walk is just the value itself
    assert_eq!(f.value_walk_nested_values(x), vec![x]);
    // the outer tuple's walk visits it, then each operand's nested values
    assert_eq!(f.value_walk_nested_values(vo), vec![vo, vi, x, y, y]);
    assert_eq!(f.primop_walk_nested_values(outer), vec![vi, x, y, y]);
}

#[test]
fn walking_a_block_covers_each_read() {
    let mut f = Function::new(ident());
    let a = f.block_insert();
    let b = f.block_insert();
    let x = f.block_arg_insert(a);
    let y = f.block_arg_insert(a);
    let p = f.primop_insert(PrimOpKind::BinOp(BinOp::Plus), vec![x, y]);
    let vp = f.record_primop_value(p);
    let vb = f.block_value(b).unwrap();
    f.set_op_and_reads(a, OpKind::Call, vec![vp, vb]);
    assert_eq!(f.block_walk_nested_values(a), vec![vp, x, y, vb]);
    assert_eq!(f.block_walk_nested_values(b), Vec::<eir_ir::function::Value>::new());
}
