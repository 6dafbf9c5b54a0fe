//! Execution tracing for consumers of the graph: an explicit collector
//! object records function entries and exits and basic-block spans per
//! process, and the recorded events can be laid out as duration entries for
//! a trace dump. The collector is passed into each operation rather than
//! living in ambient global state, so the core and its consumers stay
//! independently testable.

use vstd::prelude::*;

use crate::assoc::AssocMap;
use crate::function::{Block, FunctionIdent};
use crate::process::CallReturn;
use crate::term::{clone_terms, terms_view, Pid, Term};

verus! {

/// One entry of a process's call stack, as recorded by the collector.
#[derive(Debug)]
pub struct StackEntry {
    pub pid: Pid,
    pub module: usize,
    pub ident: FunctionIdent,
    pub args: Vec<Term>,
}

/// What happened.
#[derive(Debug)]
pub enum TraceEventType {
    FunctionEnter { module: usize, ident: FunctionIdent, args: Vec<Term> },
    FunctionExit { ret: Option<CallReturn> },
    BasicBlockStart { module: usize, ident: FunctionIdent, block: Block },
    BasicBlockEnd,
}

/// One recorded event, tagged with the process it happened in.
#[derive(Debug)]
pub struct TraceEvent {
    pub pid: Pid,
    pub typ: TraceEventType,
}

/// The collector: the process currently running, one call stack per
/// process, and the recorded events in order.
#[derive(Debug)]
pub struct TraceCollector {
    pub current_pid: Pid,
    pub pid_stacks: AssocMap<Vec<StackEntry>>,
    pub events: Vec<TraceEvent>,
}

impl TraceCollector {
    /// The recorded call stack of a process; empty when none was recorded.
    pub open(crate) spec fn stack_of(&self, pid: usize) -> Seq<StackEntry> {
        if self.pid_stacks.view_spec().dom().contains(pid) {
            self.pid_stacks.view_spec()[pid]@
        } else {
            Seq::empty()
        }
    }

    pub open(crate) spec fn stacks_wf(&self) -> bool {
        self.pid_stacks.wf()
    }

    /// A fresh collector with no events.
    pub fn new() -> (r: TraceCollector)
        ensures
            r.stacks_wf(),
            r.current_pid == (Pid(0usize)),
            r.events@.len() == 0,
            forall|p: usize| r.stack_of(p).len() == 0,
    {
        TraceCollector { current_pid: Pid(0), pid_stacks: AssocMap::new(), events: Vec::new() }
    }
}

/// Record which process runs next.
pub fn set_pid(c: &mut TraceCollector, pid: Pid)
    ensures
        final(c).current_pid == pid,
        final(c).pid_stacks == old(c).pid_stacks,
        final(c).events == old(c).events,
{
    c.current_pid = pid;
}

/// The process currently recorded as running.
pub fn get_pid(c: &TraceCollector) -> (r: Pid)
    ensures
        r == c.current_pid,
{
    c.current_pid
}

/// Record entering a function in the current process: the call stack of the
/// process gains an entry, and a function-enter event is appended.
pub fn enter_function(c: &mut TraceCollector, module: usize, ident: FunctionIdent, args: Vec<Term>)
    requires
        old(c).stacks_wf(),
    ensures
        final(c).stacks_wf(),
        final(c).current_pid == old(c).current_pid,
        final(c).stack_of(old(c).current_pid.0).len() == old(c).stack_of(
            old(c).current_pid.0,
        ).len() + 1,
        forall|k: int|
            0 <= k < old(c).stack_of(old(c).current_pid.0).len() ==> final(c).stack_of(
                old(c).current_pid.0,
            )[k] == old(c).stack_of(old(c).current_pid.0)[k],
        (final(c).stack_of(old(c).current_pid.0).last().pid == old(c).current_pid && final(c).stack_of(old(c).current_pid.0).last().module == module && final(c).stack_of(
            old(c).current_pid.0,
        ).last().ident == ident && terms_view(
            final(c).stack_of(old(c).current_pid.0).last().args@,
        ) == terms_view(args@)),
        forall|p: usize|
            p != old(c).current_pid.0 ==> final(c).stack_of(p) == old(c).stack_of(p),
        final(c).events@.len() == old(c).events@.len() + 1,
        forall|k: int| 0 <= k < old(c).events@.len() ==> final(c).events@[k] == old(c).events@[k],
        ({
            &&& final(c).events@.last().pid == old(c).current_pid
            &&& final(c).events@.last().typ matches TraceEventType::FunctionEnter {
                module: m2,
                ident: id2,
                args: a2,
            } && m2 == module && id2 == ident && terms_view(a2@) == terms_view(args@)
        }),
{
    let pid = c.current_pid;
    let mut stack = match c.pid_stacks.take(pid.0) {
        Some(s) => s,
        None => Vec::new(),
    };
    let entry_args = clone_terms(&args);
    stack.push(StackEntry { pid, module, ident, args: entry_args });
    c.pid_stacks.insert(pid.0, stack);
    c.events.push(
        TraceEvent { pid, typ: TraceEventType::FunctionEnter { module, ident, args } },
    );
}

/// Record leaving a function in the current process: the entry the call
/// must match is popped, and a function-exit event is appended.
pub fn exit_function(c: &mut TraceCollector, module: usize, ident: FunctionIdent, ret: Option<
    CallReturn,
>)
    requires
        old(c).stacks_wf(),
        old(c).stack_of(old(c).current_pid.0).len() > 0,
        old(c).stack_of(old(c).current_pid.0).last().module == module,
        old(c).stack_of(old(c).current_pid.0).last().ident == ident,
    ensures
        final(c).stacks_wf(),
        final(c).current_pid == old(c).current_pid,
        final(c).stack_of(old(c).current_pid.0) == old(c).stack_of(
            old(c).current_pid.0,
        ).drop_last(),
        forall|p: usize|
            p != old(c).current_pid.0 ==> final(c).stack_of(p) == old(c).stack_of(p),
        final(c).events@.len() == old(c).events@.len() + 1,
        forall|k: int| 0 <= k < old(c).events@.len() ==> final(c).events@[k] == old(c).events@[k],
        ({
            &&& final(c).events@.last().pid == old(c).current_pid
            &&& final(c).events@.last().typ matches TraceEventType::FunctionExit { ret: r2 } && r2
                == ret
        }),
{
    let pid = c.current_pid;
    let mut stack = match c.pid_stacks.take(pid.0) {
        Some(s) => s,
        None => {
            proof {
                assert(false);
            }
            Vec::new()
        },
    };
    let removed = stack.pop();
    proof {
        assert(removed matches Some(e) && e.module == module && e.ident == ident);
    }
    c.pid_stacks.insert(pid.0, stack);
    c.events.push(TraceEvent { pid, typ: TraceEventType::FunctionExit { ret } });
}

/// Record entering a basic block in the current process.
pub fn start_basic_block(c: &mut TraceCollector, module: usize, ident: FunctionIdent, block: Block)
    ensures
        final(c).current_pid == old(c).current_pid,
        final(c).pid_stacks == old(c).pid_stacks,
        final(c).events@.len() == old(c).events@.len() + 1,
        forall|k: int| 0 <= k < old(c).events@.len() ==> final(c).events@[k] == old(c).events@[k],
        ({
            &&& final(c).events@.last().pid == old(c).current_pid
            &&& final(c).events@.last().typ matches TraceEventType::BasicBlockStart {
                module: m2,
                ident: id2,
                block: b2,
            } && m2 == module && id2 == ident && b2 == block
        }),
{
    let pid = c.current_pid;
    c.events.push(
        TraceEvent { pid, typ: TraceEventType::BasicBlockStart { module, ident, block } },
    );
}

/// Record leaving the current basic block in the current process.
pub fn end_basic_block(c: &mut TraceCollector)
    ensures
        final(c).current_pid == old(c).current_pid,
        final(c).pid_stacks == old(c).pid_stacks,
        final(c).events@.len() == old(c).events@.len() + 1,
        forall|k: int| 0 <= k < old(c).events@.len() ==> final(c).events@[k] == old(c).events@[k],
        ({
            &&& final(c).events@.last().pid == old(c).current_pid
            &&& final(c).events@.last().typ is BasicBlockEnd
        }),
{
    let pid = c.current_pid;
    c.events.push(TraceEvent { pid, typ: TraceEventType::BasicBlockEnd });
}

/// The shape of one dumped duration entry: whether it begins or ends a
/// span, its timestamp, and the process and thread lanes it is drawn in.
#[derive(Clone, Copy, PartialEq, Eq, Structural, Debug)]
pub struct TraceEntryMeta {
    pub begin: bool,
    pub timestamp: usize,
    pub pid: usize,
    pub tid: usize,
}

/// Whether an event begins a duration span.
pub open spec fn event_begins(t: TraceEventType) -> bool {
    match t {
        TraceEventType::FunctionEnter { .. } => true,
        TraceEventType::FunctionExit { .. } => false,
        TraceEventType::BasicBlockStart { .. } => true,
        TraceEventType::BasicBlockEnd => false,
    }
}

/// The thread lane an event is drawn in: function spans in lane zero,
/// basic-block spans in lane one.
pub open spec fn event_lane(t: TraceEventType) -> usize {
    match t {
        TraceEventType::FunctionEnter { .. } => 0usize,
        TraceEventType::FunctionExit { .. } => 0usize,
        TraceEventType::BasicBlockStart { .. } => 1usize,
        TraceEventType::BasicBlockEnd => 1usize,
    }
}

/// Lay the recorded events out as duration entries: one entry per event, in
/// order, with the event's index as its timestamp. Serialization of the
/// entries is the caller's concern.
pub fn trace_entries(c: &TraceCollector) -> (r: Vec<TraceEntryMeta>)
    ensures
        r@.len() == c.events@.len(),
        forall|i: int|
            0 <= i < c.events@.len() ==> (#[trigger] r@[i]) == (TraceEntryMeta {
                begin: event_begins(c.events@[i].typ),
                timestamp: i as usize,
                pid: c.events@[i].pid.0,
                tid: event_lane(c.events@[i].typ),
            }),
{
    let n = c.events.len();
    let mut out: Vec<TraceEntryMeta> = Vec::new();
    let mut i: usize = 0;
    while i < n
        invariant
            i <= n,
            n == c.events@.len(),
            out@.len() == i,
            forall|k: int|
                0 <= k < i ==> (#[trigger] out@[k]) == (TraceEntryMeta {
                    begin: event_begins(c.events@[k].typ),
                    timestamp: k as usize,
                    pid: c.events@[k].pid.0,
                    tid: event_lane(c.events@[k].typ),
                }),
        decreases n - i,
    {
        let ev = &c.events[i];
        let begin = match ev.typ {
            TraceEventType::FunctionEnter { .. } => true,
            TraceEventType::BasicBlockStart { .. } => true,
            _ => false,
        };
        let tid: usize = match ev.typ {
            TraceEventType::FunctionEnter { .. } => 0,
            TraceEventType::FunctionExit { .. } => 0,
            _ => 1,
        };
        out.push(TraceEntryMeta { begin, timestamp: i, pid: ev.pid.0, tid });
        i += 1;
    }
    out
}

/// The ambient virtual-machine identity, modeled as explicit state: the
/// counter the next identity comes from, and the identity assigned to the
/// running machine, if one has been assigned.
#[derive(Clone, Copy, PartialEq, Eq, Structural, Debug)]
pub struct VmIdState {
    pub counter: usize,
    pub id: Option<usize>,
}

/// Assign the current counter value as the running machine's identity.
pub fn gen_vm_id(st: &mut VmIdState)
    ensures
        final(st).id == Some(old(st).counter),
        final(st).counter == old(st).counter,
{
    st.id = Some(st.counter);
}

/// The running machine's identity; asking before one was assigned is a
/// caller error.
pub fn vm_id(st: &VmIdState) -> (r: usize)
    requires
        st.id is Some,
    ensures
        Some(r) == st.id,
{
    st.id.unwrap()
}

} // verus!
