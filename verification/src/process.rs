//! Per-process interpreter state: stack frames with their SSA variable
//! tables, call outcomes, and the decision core of a reduction step. The
//! scheduling loop that drives reductions, and the module tables it reads,
//! live with the interpreter around this library; the decisions themselves
//! are functions from frame state and block result to the next frame state
//! and an action.

use vstd::prelude::*;

use crate::assoc::AssocMap;
use crate::function::{Block, FunctionIdent, LambdaEnvIdx};
use crate::pattern::AtomicLiteral;
use crate::term::{clone_term, term_view, Pid, Term, TermV};

verus! {

/// What a call produced: a value, or a thrown error.
#[derive(Debug)]
pub enum CallReturn {
    Return { term: Term },
    Throw,
}

impl CallReturn {
    /// The returned term of a normal return.
    pub fn unwrap_return(&self) -> (r: &Term)
        requires
            self is Return,
        ensures
            term_view(*r) == term_view(self->Return_term),
    {
        match self {
            CallReturn::Return { term } => term,
            _ => {
                proof {
                    assert(false);
                }
                vstd::pervasive::unreached()
            },
        }
    }
}

/// Where a call's two continuations live: the SSA variables receiving the
/// result, the branch slots naming the continuation blocks, and the blocks
/// once resolved.
#[derive(Clone, Copy, PartialEq, Eq, Structural, Debug)]
pub struct CallOutcomes {
    pub ret_ok_ssa: usize,
    pub ret_ok_slot: usize,
    pub ret_ok_label: Option<Block>,
    pub ret_throw_ssa: usize,
    pub ret_throw_slot: usize,
    pub ret_throw_label: Option<Block>,
}

/// What executing a block decided.
#[derive(Debug)]
pub enum BlockResult {
    /// Transfer control through the numbered branch slot.
    Branch { slot: usize },
    /// Return from the current frame.
    Return { ret: CallReturn },
    /// Call another function; the outcomes say where its result goes.
    Call {
        module: usize,
        fun: usize,
        args: Vec<Term>,
        lambda: Option<LambdaEnvIdx>,
        outcomes: CallOutcomes,
    },
    /// Yield the scheduler.
    Suspend,
}

/// Whether a frame runs straight-line code or waits for a call's result.
#[derive(Clone, Copy, PartialEq, Eq, Structural, Debug)]
pub enum StackFrameState {
    Normal,
    InCall(CallOutcomes),
}

/// A source an operation reads: a frame variable or an atomic constant.
#[derive(Clone, Copy, PartialEq, Eq, Structural, Debug)]
pub enum Source {
    Variable(usize),
    Constant(AtomicLiteral),
}

/// The term an atomic literal denotes.
pub open spec fn literal_term(lit: AtomicLiteral) -> TermV {
    match lit {
        AtomicLiteral::Atom(a) => TermV::Atom(a as int),
        AtomicLiteral::Integer(v) => TermV::Integer(v as int),
        AtomicLiteral::Nil => TermV::Nil,
    }
}

/// One interpreter stack frame over a function graph.
#[derive(Debug)]
pub struct StackFrame {
    pub variables: AssocMap<Term>,
    pub state: StackFrameState,
    pub module: usize,
    pub function: FunctionIdent,
    pub basic_block: Block,
    pub prev_basic_block: Option<Block>,
}

impl StackFrame {
    /// The model of the frame's variable table.
    pub open(crate) spec fn vars_view(&self) -> Map<usize, TermV> {
        crate::pattern::binds_view(&self.variables)
    }

    pub open(crate) spec fn vars_wf(&self) -> bool {
        self.variables.wf()
    }

    /// A fresh frame positioned at a function's block, with no variables.
    pub fn new(module: usize, function: FunctionIdent, label: Block) -> (r: StackFrame)
        ensures
            r.vars_wf(),
            r.vars_view() == Map::<usize, TermV>::empty(),
            r.state == StackFrameState::Normal,
            r.module == module,
            r.function == function,
            r.basic_block == label,
            r.prev_basic_block is None,
    {
        let r = StackFrame {
            variables: AssocMap::new(),
            state: StackFrameState::Normal,
            function,
            basic_block: label,
            module,
            prev_basic_block: None,
        };
        proof {
            assert(r.vars_view() =~= Map::<usize, TermV>::empty());
        }
        r
    }

    /// Bind an SSA variable to a term.
    pub fn write(&mut self, ssa: usize, term: Term)
        requires
            old(self).vars_wf(),
        ensures
            final(self).vars_wf(),
            final(self).vars_view() == old(self).vars_view().insert(ssa, term_view(term)),
            final(self).state == old(self).state,
            final(self).module == old(self).module,
            final(self).function == old(self).function,
            final(self).basic_block == old(self).basic_block,
            final(self).prev_basic_block == old(self).prev_basic_block,
    {
        let ghost pre_view = self.variables.view_spec();
        let ghost term_g = term;
        self.variables.insert(ssa, term);
        proof {
            crate::pattern::lemma_binds_view_insert(pre_view, ssa, term_g);
        }
    }

    /// The term a source denotes: a bound variable's value, or the constant
    /// itself. Reading an unbound variable is a caller error.
    pub fn read(&self, src: &Source) -> (r: Term)
        requires
            self.vars_wf(),
            src matches Source::Variable(v) ==> self.vars_view().dom().contains(*v),
        ensures
            (match *src {
                Source::Variable(v) => term_view(r) == self.vars_view()[v],
                Source::Constant(lit) => term_view(r) == literal_term(lit),
            }),
    {
        match *src {
            Source::Variable(var) => {
                match self.variables.get(var) {
                    Some(term) => clone_term(term),
                    None => {
                        proof {
                            assert(false);
                        }
                        Term::Nil
                    },
                }
            },
            Source::Constant(literal) => {
                match literal {
                    AtomicLiteral::Atom(atom) => Term::Atom(atom),
                    AtomicLiteral::Integer(inner) => Term::Integer(inner),
                    AtomicLiteral::Nil => Term::Nil,
                }
            },
        }
    }

    /// Unbind an SSA variable.
    pub fn tombstone(&mut self, ssa: usize)
        requires
            old(self).vars_wf(),
        ensures
            final(self).vars_wf(),
            final(self).vars_view() == old(self).vars_view().remove(ssa),
            final(self).state == old(self).state,
            final(self).basic_block == old(self).basic_block,
    {
        self.variables.remove(ssa);
        proof {
            assert(final(self).vars_view() =~= old(self).vars_view().remove(ssa));
        }
    }
}

/// A frame for a natively implemented function.
#[derive(Debug)]
pub struct NativeStackFrame {
    pub module: usize,
    pub fun_ident: FunctionIdent,
    pub args: Vec<Term>,
}

/// Either an interpreted frame or a native one.
#[derive(Debug)]
pub enum StackFrameType {
    Erlang(StackFrame),
    Native(NativeStackFrame),
}

/// How the surrounding interpreter resolved a function name: natively
/// implemented, or an interpreted function with its entry block and the SSA
/// variables of its arguments.
#[derive(Debug)]
pub enum FunResolution {
    Native,
    Erlang { entry: Block, arg_ssas: Vec<usize> },
}

/// The variable table after binding each argument SSA to its term in order.
pub open spec fn args_written(
    ssas: Seq<usize>,
    args: Seq<Term>,
    m: Map<usize, TermV>,
) -> Map<usize, TermV>
    decreases ssas.len(),
{
    if ssas.len() == 0 || args.len() != ssas.len() {
        m
    } else {
        args_written(ssas.drop_last(), args.drop_last(), m).insert(
            ssas.last(),
            term_view(args.last()),
        )
    }
}

/// Build the stack frame for a call the interpreter has resolved: a native
/// frame for a native function, else a fresh interpreted frame at the
/// function's entry block with the arguments written to their SSA
/// variables.
pub fn make_call_stackframe(
    module: usize,
    fun_ident: FunctionIdent,
    args: Vec<Term>,
    resolution: &FunResolution,
) -> (r: StackFrameType)
    requires
        fun_ident.arity == args@.len(),
        resolution matches FunResolution::Erlang { entry, arg_ssas } ==> arg_ssas@.len()
            == args@.len(),
    ensures
        (match *resolution {
            FunResolution::Native => (r matches StackFrameType::Native(nf) && nf.module == module
                && nf.fun_ident == fun_ident && crate::term::terms_view(nf.args@)
                == crate::term::terms_view(args@)),
            FunResolution::Erlang { entry, arg_ssas } => (r matches StackFrameType::Erlang(f) && {
                &&& f.vars_wf()
                &&& f.module == module
                &&& f.function == fun_ident
                &&& f.basic_block == entry
                &&& f.prev_basic_block is None
                &&& f.state == StackFrameState::Normal
                &&& f.vars_view() == args_written(
                    arg_ssas@,
                    args@,
                    Map::<usize, TermV>::empty(),
                )
            }),
        }),
{
    match resolution {
        FunResolution::Native => {
            StackFrameType::Native(NativeStackFrame { module, fun_ident, args })
        },
        FunResolution::Erlang { entry, arg_ssas } => {
            let mut call_frame = StackFrame::new(module, fun_ident, *entry);
            let n = args.len();
            let mut i: usize = 0;
            while i < n
                invariant
                    i <= n,
                    n == args@.len(),
                    arg_ssas@.len() == n,
                    call_frame.vars_wf(),
                    call_frame.module == module,
                    call_frame.function == fun_ident,
                    call_frame.basic_block == *entry,
                    call_frame.prev_basic_block is None,
                    call_frame.state == StackFrameState::Normal,
                    call_frame.vars_view() == args_written(
                        arg_ssas@.take(i as int),
                        args@.take(i as int),
                        Map::<usize, TermV>::empty(),
                    ),
                decreases n - i,
            {
                let term = clone_term(&args[i]);
                call_frame.write(arg_ssas[i], term);
                proof {
                    assert(arg_ssas@.take(i as int + 1).drop_last() =~= arg_ssas@.take(i as int));
                    assert(args@.take(i as int + 1).drop_last() =~= args@.take(i as int));
                    assert(arg_ssas@.take(i as int + 1).last() == arg_ssas@[i as int]);
                    assert(args@.take(i as int + 1).last() == args@[i as int]);
                }
                i += 1;
            }
            proof {
                assert(arg_ssas@.take(n as int) =~= arg_ssas@);
                assert(args@.take(n as int) =~= args@);
            }
            StackFrameType::Erlang(call_frame)
        },
    }
}

/// What the scheduler must do after a reduction step.
#[derive(Debug)]
pub enum ReductionAction {
    /// Keep running the same frame.
    Continue,
    /// Push a frame for this call.
    PushFrame { module: usize, ident: FunctionIdent, args: Vec<Term> },
    /// Pop the current frame and hand the result to the caller.
    PopFrame { ret: CallReturn },
    /// Yield the scheduler.
    Suspend,
}

/// Resume a frame that was waiting for a call's result: bind the result to
/// the receiving SSA variable and transfer control to the matching
/// continuation block. A thrown error is replaced by an empty value list
/// until error values carry data.
pub fn apply_call_return(frame: &mut StackFrame, ret: CallReturn)
    requires
        old(frame).vars_wf(),
        old(frame).state matches StackFrameState::InCall(outcomes) && outcomes.ret_ok_label
            is Some && outcomes.ret_throw_label is Some,
    ensures
        final(frame).vars_wf(),
        final(frame).state == StackFrameState::Normal,
        final(frame).prev_basic_block == Some(old(frame).basic_block),
        final(frame).module == old(frame).module,
        final(frame).function == old(frame).function,
        (match ret {
            CallReturn::Return { term } => {
                let outcomes = old(frame).state->InCall_0;
                &&& final(frame).basic_block == outcomes.ret_ok_label->Some_0
                &&& final(frame).vars_view() == old(frame).vars_view().insert(
                    outcomes.ret_ok_ssa,
                    term_view(term),
                )
            },
            CallReturn::Throw => {
                let outcomes = old(frame).state->InCall_0;
                &&& final(frame).basic_block == outcomes.ret_throw_label->Some_0
                &&& final(frame).vars_view() == old(frame).vars_view().insert(
                    outcomes.ret_throw_ssa,
                    TermV::ValueList(seq![TermV::Nil, TermV::Nil]),
                )
            },
        }),
{
    let outcomes = match frame.state {
        StackFrameState::InCall(o) => o,
        _ => {
            proof {
                assert(false);
            }
            vstd::pervasive::unreached()
        },
    };
    match ret {
        CallReturn::Return { term } => {
            frame.prev_basic_block = Some(frame.basic_block);
            frame.basic_block = match outcomes.ret_ok_label {
                Some(l) => l,
                None => {
                    proof {
                        assert(false);
                    }
                    vstd::pervasive::unreached()
                },
            };
            frame.write(outcomes.ret_ok_ssa, term);
        },
        CallReturn::Throw => {
            frame.prev_basic_block = Some(frame.basic_block);
            frame.basic_block = match outcomes.ret_throw_label {
                Some(l) => l,
                None => {
                    proof {
                        assert(false);
                    }
                    vstd::pervasive::unreached()
                },
            };
            let mut entries: Vec<Term> = Vec::new();
            entries.push(Term::Nil);
            entries.push(Term::Nil);
            let replacement_term = Term::ValueList(entries);
            proof {
                crate::pattern::lemma_terms_facts(entries@);
                assert(crate::term::terms_view(entries@) =~= seq![TermV::Nil, TermV::Nil]);
                assert(term_view(replacement_term) == TermV::ValueList(
                    seq![TermV::Nil, TermV::Nil],
                ));
            }
            frame.write(outcomes.ret_throw_ssa, replacement_term);
        },
    }
    frame.state = StackFrameState::Normal;
}

/// Decide what one block's result means for the frame and the scheduler: a
/// branch moves the frame along the numbered slot, a call resolves its
/// continuation slots and parks the frame, a return pops it, a suspension
/// yields.
pub fn apply_block_result(frame: &mut StackFrame, result: BlockResult, slots: &Vec<Block>) -> (r:
    ReductionAction)
    requires
        old(frame).vars_wf(),
        old(frame).state == StackFrameState::Normal,
        result matches BlockResult::Branch { slot } ==> slot < slots@.len(),
        result matches BlockResult::Call { outcomes, .. } ==> outcomes.ret_ok_slot < slots@.len()
            && outcomes.ret_throw_slot < slots@.len(),
    ensures
        final(frame).vars_wf(),
        final(frame).vars_view() == old(frame).vars_view(),
        final(frame).module == old(frame).module,
        final(frame).function == old(frame).function,
        (match result {
            BlockResult::Branch { slot } => {
                &&& r is Continue
                &&& final(frame).basic_block == slots@[slot as int]
                &&& final(frame).prev_basic_block == Some(old(frame).basic_block)
                &&& final(frame).state == StackFrameState::Normal
            },
            BlockResult::Call { module, fun, args, lambda, outcomes } => {
                &&& (r matches ReductionAction::PushFrame { module: m2, ident, args: args2 } && m2
                    == module && ident == (FunctionIdent {
                    name: fun,
                    arity: args@.len() as usize,
                    lambda,
                }) && crate::term::terms_view(args2@) == crate::term::terms_view(args@))
                &&& final(frame).state == StackFrameState::InCall(
                    CallOutcomes {
                        ret_ok_label: Some(slots@[outcomes.ret_ok_slot as int]),
                        ret_throw_label: Some(slots@[outcomes.ret_throw_slot as int]),
                        ..outcomes
                    },
                )
                &&& final(frame).basic_block == old(frame).basic_block
            },
            BlockResult::Return { ret } => {
                &&& (r matches ReductionAction::PopFrame { ret: ret2 } && ret2 == ret)
                &&& final(frame).state == StackFrameState::Normal
                &&& final(frame).basic_block == old(frame).basic_block
            },
            BlockResult::Suspend => {
                &&& r is Suspend
                &&& final(frame).state == StackFrameState::Normal
                &&& final(frame).basic_block == old(frame).basic_block
            },
        }),
{
    match result {
        BlockResult::Branch { slot } => {
            frame.prev_basic_block = Some(frame.basic_block);
            frame.basic_block = slots[slot];
            ReductionAction::Continue
        },
        BlockResult::Call { module, fun, args, lambda, outcomes } => {
            let arity = args.len();
            let resolved = CallOutcomes {
                ret_ok_ssa: outcomes.ret_ok_ssa,
                ret_ok_slot: outcomes.ret_ok_slot,
                ret_ok_label: Some(slots[outcomes.ret_ok_slot]),
                ret_throw_ssa: outcomes.ret_throw_ssa,
                ret_throw_slot: outcomes.ret_throw_slot,
                ret_throw_label: Some(slots[outcomes.ret_throw_slot]),
            };
            frame.state = StackFrameState::InCall(resolved);
            let ident = FunctionIdent { name: fun, arity, lambda };
            ReductionAction::PushFrame { module, ident, args }
        },
        BlockResult::Return { ret } => ReductionAction::PopFrame { ret },
        BlockResult::Suspend => ReductionAction::Suspend,
    }
}

/// One process as the scheduler sees it: its frame stack, the value flowing
/// back from the last returned call, and its identifier.
#[derive(Debug)]
pub struct ProcessContext {
    pub stack: Vec<StackFrameType>,
    pub return_val: Option<CallReturn>,
    pub pid: Pid,
}

impl ProcessContext {
    /// A fresh process with an empty stack.
    pub fn new(pid: Pid) -> (r: ProcessContext)
        ensures
            r.stack@.len() == 0,
            r.return_val is None,
            r.pid == pid,
    {
        ProcessContext { stack: Vec::new(), return_val: None, pid }
    }
}

} // verus!
