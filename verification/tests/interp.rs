//! Tests of the interpreter-facing parts: pattern matching, the case state
//! machine, stack frames and the reduction decision core, and the trace
//! collector.

use eir_ir::assoc::AssocMap;
use eir_ir::function::{Block, FunctionIdent};
use eir_ir::pattern::{
    match_node, AtomicLiteral, CaseContext, Clause, MatchState, Pattern, PatternNode,
};
use eir_ir::process::{
    apply_block_result, apply_call_return, make_call_stackframe, BlockResult, CallOutcomes,
    CallReturn, FunResolution, ProcessContext, ReductionAction, Source, StackFrame,
    StackFrameState, StackFrameType,
};
use eir_ir::term::{Pid, Term};
use eir_ir::trace;
use eir_ir::trace::{TraceCollector, VmIdState};

fn ident0() -> FunctionIdent {
    FunctionIdent { name: 3, arity: 0, lambda: None }
}

// ------------------------------------------------------------------
// match_node
// ------------------------------------------------------------------

#[test]
fn wildcard_matches_anything() {
    let mut binds: AssocMap<Term> = AssocMap::new();
    let br: Vec<(usize, usize)> = Vec::new();
    assert!(match_node(&Term::Atom(9), &PatternNode::Wildcard, &mut binds, &br));
    assert_eq!(binds.len(), 0);
}

#[test]
fn bind_var_records_the_term() {
    let mut binds: AssocMap<Term> = AssocMap::new();
    let br: Vec<(usize, usize)> = vec![(10, 100)];
    let pat = PatternNode::BindVar(10, Box::new(PatternNode::Wildcard));
    assert!(match_node(&Term::Integer(5), &pat, &mut binds, &br));
    assert!(matches!(binds.get(100), Some(Term::Integer(5))));
}

#[test]
fn atomic_literals_match_exactly() {
    let mut binds: AssocMap<Term> = AssocMap::new();
    let br: Vec<(usize, usize)> = Vec::new();
    assert!(match_node(&Term::Nil, &PatternNode::Atomic(AtomicLiteral::Nil), &mut binds, &br));
    assert!(match_node(
        &Term::Atom(4),
        &PatternNode::Atomic(AtomicLiteral::Atom(4)),
        &mut binds,
        &br
    ));
    assert!(!match_node(
        &Term::Atom(4),
        &PatternNode::Atomic(AtomicLiteral::Atom(5)),
        &mut binds,
        &br
    ));
    assert!(match_node(
        &Term::Integer(-3),
        &PatternNode::Atomic(AtomicLiteral::Integer(-3)),
        &mut binds,
        &br
    ));
    assert!(!match_node(
        &Term::Integer(-3),
        &PatternNode::Atomic(AtomicLiteral::Integer(3)),
        &mut binds,
        &br
    ));
    assert!(!match_node(&Term::Nil, &PatternNode::Atomic(AtomicLiteral::Atom(4)), &mut binds, &br));
}

#[test]
fn tuple_patterns_need_matching_arity() {
    let mut binds: AssocMap<Term> = AssocMap::new();
    let br: Vec<(usize, usize)> = vec![(1, 11), (2, 22)];
    let term = Term::Tuple(vec![Term::Atom(1), Term::Integer(2)]);
    let pat = PatternNode::Tuple(vec![
        PatternNode::BindVar(1, Box::new(PatternNode::Wildcard)),
        PatternNode::Atomic(AtomicLiteral::Integer(2)),
    ]);
    assert!(match_node(&term, &pat, &mut binds, &br));
    assert!(matches!(binds.get(11), Some(Term::Atom(1))));

    let mut binds2: AssocMap<Term> = AssocMap::new();
    let short = PatternNode::Tuple(vec![PatternNode::Wildcard]);
    assert!(!match_node(&term, &short, &mut binds2, &br));
}

#[test]
fn list_pattern_splits_head_and_tail() {
    let mut binds: AssocMap<Term> = AssocMap::new();
    let br: Vec<(usize, usize)> = vec![(1, 11), (2, 22)];
    // [1, 2, 3 | nil] against [x | rest]
    let term = Term::List(
        vec![Term::Integer(1), Term::Integer(2), Term::Integer(3)],
        Box::new(Term::Nil),
    );
    let pat = PatternNode::List(
        vec![PatternNode::BindVar(1, Box::new(PatternNode::Wildcard))],
        Box::new(PatternNode::BindVar(2, Box::new(PatternNode::Wildcard))),
    );
    assert!(match_node(&term, &pat, &mut binds, &br));
    assert!(matches!(binds.get(11), Some(Term::Integer(1))));
    // the rest is the list [2, 3 | nil]
    match binds.get(22) {
        Some(Term::List(head, tail)) => {
            assert_eq!(head.len(), 2);
            assert!(matches!(head[0], Term::Integer(2)));
            assert!(matches!(head[1], Term::Integer(3)));
            assert!(matches!(**tail, Term::Nil));
        }
        other => panic!("unexpected rest binding: {:?}", other),
    }
}

#[test]
fn list_pattern_with_equal_lengths_matches_tail_term() {
    let mut binds: AssocMap<Term> = AssocMap::new();
    let br: Vec<(usize, usize)> = Vec::new();
    let term = Term::List(vec![Term::Atom(1)], Box::new(Term::Nil));
    let pat = PatternNode::List(
        vec![PatternNode::Atomic(AtomicLiteral::Atom(1))],
        Box::new(PatternNode::Atomic(AtomicLiteral::Nil)),
    );
    assert!(match_node(&term, &pat, &mut binds, &br));
    let bad = PatternNode::List(
        vec![PatternNode::Atomic(AtomicLiteral::Atom(2))],
        Box::new(PatternNode::Atomic(AtomicLiteral::Nil)),
    );
    assert!(!match_node(&term, &bad, &mut binds, &br));
}

#[test]
fn empty_list_pattern_defers_to_tail() {
    let mut binds: AssocMap<Term> = AssocMap::new();
    let br: Vec<(usize, usize)> = Vec::new();
    // a non-list term against ([] ++ tail-pattern) falls through to the tail
    let pat = PatternNode::List(Vec::new(), Box::new(PatternNode::Atomic(AtomicLiteral::Atom(8))));
    assert!(match_node(&Term::Atom(8), &pat, &mut binds, &br));
    assert!(!match_node(&Term::Atom(9), &pat, &mut binds, &br));
}

// ------------------------------------------------------------------
// MatchState and CaseContext
// ------------------------------------------------------------------

#[test]
fn match_state_transitions() {
    let mut st = MatchState::MatchClause(2);
    assert_eq!(st.clause_num(), 2);
    st.into_guard();
    assert_eq!(st, MatchState::GuardWait(2));
    assert_eq!(st.clause_num(), 2);
    st.into_body();
    assert_eq!(st, MatchState::MatchClause(3));
    let counter = st.clause_num_mut();
    *counter += 1;
    assert_eq!(st, MatchState::MatchClause(4));
    st.into_finished();
    assert_eq!(st, MatchState::Finished);
}

#[test]
fn do_body_selects_first_matching_clause() {
    // first clause wants the atom 1, second binds anything
    let clause1 = Clause {
        patterns: vec![Pattern {
            binds: Vec::new(),
            node: PatternNode::Atomic(AtomicLiteral::Atom(1)),
        }],
    };
    let clause2 = Clause {
        patterns: vec![Pattern {
            binds: vec![(5, 55)],
            node: PatternNode::BindVar(5, Box::new(PatternNode::Wildcard)),
        }],
    };
    let mut ctx = CaseContext::new(vec![Term::Atom(2)], vec![clause1, clause2]);
    let r = ctx.do_body();
    assert_eq!(r, 2);
    assert_eq!(ctx.state, MatchState::GuardWait(1));
    let values = ctx.case_values();
    assert!(matches!(values.get(55), Some(Term::Atom(2))));
    // the guard fails: the next do_body finds nothing further
    ctx.guard_fail(1);
    assert_eq!(ctx.state, MatchState::MatchClause(2));
}

#[test]
fn do_body_returns_zero_when_nothing_matches() {
    let clause = Clause {
        patterns: vec![Pattern {
            binds: Vec::new(),
            node: PatternNode::Atomic(AtomicLiteral::Atom(1)),
        }],
    };
    let mut ctx = CaseContext::new(vec![Term::Atom(2)], vec![clause]);
    let r = ctx.do_body();
    assert_eq!(r, 0);
    assert_eq!(ctx.state, MatchState::MatchClause(1));
    assert!(ctx.last_binds.is_none());
}

#[test]
fn guard_ok_finishes_the_case() {
    let clause = Clause {
        patterns: vec![Pattern { binds: Vec::new(), node: PatternNode::Wildcard }],
    };
    let mut ctx = CaseContext::new(vec![Term::Nil], vec![clause]);
    let r = ctx.do_body();
    assert_eq!(r, 1);
    ctx.guard_ok();
    assert_eq!(ctx.state, MatchState::Finished);
}

// ------------------------------------------------------------------
// Stack frames and the reduction decision core
// ------------------------------------------------------------------

#[test]
fn frame_write_read_tombstone() {
    let mut frame = StackFrame::new(1, ident0(), Block(0));
    frame.write(40, Term::Integer(17));
    let read = frame.read(&Source::Variable(40));
    assert!(matches!(read, Term::Integer(17)));
    let konst = frame.read(&Source::Constant(AtomicLiteral::Atom(6)));
    assert!(matches!(konst, Term::Atom(6)));
    let nil = frame.read(&Source::Constant(AtomicLiteral::Nil));
    assert!(matches!(nil, Term::Nil));
    let int = frame.read(&Source::Constant(AtomicLiteral::Integer(-8)));
    assert!(matches!(int, Term::Integer(-8)));
    frame.tombstone(40);
    assert!(!frame.variables.contains_key(40));
}

#[test]
fn unwrap_return_hands_back_the_term() {
    let ret = CallReturn::Return { term: Term::Atom(12) };
    assert!(matches!(ret.unwrap_return(), Term::Atom(12)));
}

#[test]
fn branch_moves_the_frame_along_the_slot() {
    let mut frame = StackFrame::new(1, ident0(), Block(4));
    let slots = vec![Block(7), Block(9)];
    let action = apply_block_result(&mut frame, BlockResult::Branch { slot: 1 }, &slots);
    assert!(matches!(action, ReductionAction::Continue));
    assert_eq!(frame.basic_block, Block(9));
    assert_eq!(frame.prev_basic_block, Some(Block(4)));
}

#[test]
fn call_parks_the_frame_and_pushes() {
    let mut frame = StackFrame::new(1, ident0(), Block(4));
    let slots = vec![Block(7), Block(9)];
    let outcomes = CallOutcomes {
        ret_ok_ssa: 50,
        ret_ok_slot: 0,
        ret_ok_label: None,
        ret_throw_ssa: 51,
        ret_throw_slot: 1,
        ret_throw_label: None,
    };
    let result = BlockResult::Call {
        module: 2,
        fun: 30,
        args: vec![Term::Integer(1)],
        lambda: None,
        outcomes,
    };
    let action = apply_block_result(&mut frame, result, &slots);
    match action {
        ReductionAction::PushFrame { module, ident, args } => {
            assert_eq!(module, 2);
            assert_eq!(ident.name, 30);
            assert_eq!(ident.arity, 1);
            assert_eq!(args.len(), 1);
        }
        other => panic!("unexpected action: {:?}", other),
    }
    match frame.state {
        StackFrameState::InCall(o) => {
            assert_eq!(o.ret_ok_label, Some(Block(7)));
            assert_eq!(o.ret_throw_label, Some(Block(9)));
        }
        other => panic!("unexpected state: {:?}", other),
    }

    // the call returns: the frame resumes at the ok continuation
    apply_call_return(&mut frame, CallReturn::Return { term: Term::Atom(3) });
    assert_eq!(frame.basic_block, Block(7));
    assert_eq!(frame.state, StackFrameState::Normal);
    assert!(matches!(frame.read(&Source::Variable(50)), Term::Atom(3)));
}

#[test]
fn throw_resumes_at_the_throw_continuation() {
    let mut frame = StackFrame::new(1, ident0(), Block(4));
    let slots = vec![Block(7), Block(9)];
    let outcomes = CallOutcomes {
        ret_ok_ssa: 50,
        ret_ok_slot: 0,
        ret_ok_label: None,
        ret_throw_ssa: 51,
        ret_throw_slot: 1,
        ret_throw_label: None,
    };
    let result =
        BlockResult::Call { module: 2, fun: 30, args: Vec::new(), lambda: None, outcomes };
    apply_block_result(&mut frame, result, &slots);
    apply_call_return(&mut frame, CallReturn::Throw);
    assert_eq!(frame.basic_block, Block(9));
    match frame.read(&Source::Variable(51)) {
        Term::ValueList(entries) => assert_eq!(entries.len(), 2),
        other => panic!("unexpected replacement: {:?}", other),
    }
}

#[test]
fn return_and_suspend_actions() {
    let mut frame = StackFrame::new(1, ident0(), Block(4));
    let slots: Vec<Block> = Vec::new();
    let action = apply_block_result(
        &mut frame,
        BlockResult::Return { ret: CallReturn::Throw },
        &slots,
    );
    assert!(matches!(action, ReductionAction::PopFrame { ret: CallReturn::Throw }));
    let action2 = apply_block_result(&mut frame, BlockResult::Suspend, &slots);
    assert!(matches!(action2, ReductionAction::Suspend));
}

#[test]
fn call_stackframe_writes_arguments() {
    let fid = FunctionIdent { name: 30, arity: 2, lambda: None };
    let resolution = FunResolution::Erlang { entry: Block(0), arg_ssas: vec![70, 71] };
    let frame = make_call_stackframe(
        2,
        fid,
        vec![Term::Atom(1), Term::Integer(2)],
        &resolution,
    );
    match frame {
        StackFrameType::Erlang(f) => {
            assert_eq!(f.basic_block, Block(0));
            assert!(matches!(f.read(&Source::Variable(70)), Term::Atom(1)));
            assert!(matches!(f.read(&Source::Variable(71)), Term::Integer(2)));
        }
        other => panic!("unexpected frame: {:?}", other),
    }
}

#[test]
fn native_resolution_builds_a_native_frame() {
    let fid = FunctionIdent { name: 31, arity: 1, lambda: None };
    let frame = make_call_stackframe(2, fid, vec![Term::Nil], &FunResolution::Native);
    match frame {
        StackFrameType::Native(nf) => {
            assert_eq!(nf.module, 2);
            assert_eq!(nf.fun_ident.name, 31);
            assert_eq!(nf.args.len(), 1);
        }
        other => panic!("unexpected frame: {:?}", other),
    }
}

#[test]
fn process_context_starts_empty() {
    let p = ProcessContext::new(Pid(4));
    assert_eq!(p.stack.len(), 0);
    assert!(p.return_val.is_none());
    assert_eq!(p.pid, Pid(4));
}

// ------------------------------------------------------------------
// The trace collector
// ------------------------------------------------------------------

#[test]
fn collector_records_events_in_order() {
    let mut c = TraceCollector::new();
    trace::set_pid(&mut c, Pid(3));
    assert_eq!(trace::get_pid(&c), Pid(3));
    trace::enter_function(&mut c, 1, ident0(), vec![Term::Atom(2)]);
    trace::start_basic_block(&mut c, 1, ident0(), Block(0));
    trace::end_basic_block(&mut c);
    trace::exit_function(&mut c, 1, ident0(), Some(CallReturn::Throw));
    assert_eq!(c.events.len(), 4);

    let entries = trace::trace_entries(&c);
    assert_eq!(entries.len(), 4);
    assert!(entries[0].begin);
    assert_eq!(entries[0].tid, 0);
    assert_eq!(entries[0].pid, 3);
    assert_eq!(entries[0].timestamp, 0);
    assert!(entries[1].begin);
    assert_eq!(entries[1].tid, 1);
    assert!(!entries[2].begin);
    assert_eq!(entries[2].tid, 1);
    assert_eq!(entries[2].timestamp, 2);
    assert!(!entries[3].begin);
    assert_eq!(entries[3].tid, 0);
}

#[test]
fn per_process_stacks_are_separate() {
    let mut c = TraceCollector::new();
    trace::set_pid(&mut c, Pid(1));
    trace::enter_function(&mut c, 1, ident0(), Vec::new());
    trace::set_pid(&mut c, Pid(2));
    trace::enter_function(&mut c, 1, ident0(), Vec::new());
    trace::enter_function(&mut c, 1, ident0(), Vec::new());
    assert_eq!(c.pid_stacks.get(1).unwrap().len(), 1);
    assert_eq!(c.pid_stacks.get(2).unwrap().len(), 2);
    trace::exit_function(&mut c, 1, ident0(), None);
    assert_eq!(c.pid_stacks.get(2).unwrap().len(), 1);
    assert_eq!(c.pid_stacks.get(1).unwrap().len(), 1);
}

#[test]
fn vm_identity_is_assigned_from_the_counter() {
    let mut st = VmIdState { counter: 12, id: None };
    trace::gen_vm_id(&mut st);
    assert_eq!(trace::vm_id(&st), 12);
    assert_eq!(st.counter, 12);
}
