//! The guest machine: what one instruction does, and what a run yields.

use vstd::prelude::*;
use crate::module::{Instr, ModuleView};

verus! {

/// Greatest number of words that the operand stack of an instance holds.
pub const STACK_LIMIT: usize = 64;

/// Why a run was cut short.
#[derive(Clone, Copy, Debug, PartialEq, Eq, Structural)]
pub enum TrapReason {
    /// The guest touched memory that is not committed to its region.
    OutOfBounds,
    /// The guest ran an instruction that cannot be carried out, or ran past its code.
    IllegalInstruction,
    /// The operand stack was full when a word had to be pushed.
    StackOverflow,
    /// The operand stack held fewer words than the instruction takes.
    StackUnderflow,
    /// The host reported that it could not serve a call.
    HostCallFailure,
}

/// What the host hands back for a call that it was asked to serve.
#[derive(Clone, Copy, Debug, PartialEq, Eq, Structural)]
pub enum HostReply {
    /// The call was served; the word is its result.
    Value(u64),
    /// The call could not be served.
    Failure,
}

/// A request of the guest for a service of the host.
#[derive(Clone, Debug, PartialEq, Eq)]
pub struct CallDescriptor {
    /// Which import is called.
    pub index: u32,
    /// The words that the guest passes, the first pushed first.
    pub args: Vec<u64>,
}

/// A host call as plain values.
pub struct CallView {
    /// Which import is called.
    pub index: u32,
    /// The words that the guest passes, the first pushed first.
    pub args: Seq<u64>,
}

impl View for CallDescriptor {
    type V = CallView;

    open spec fn view(&self) -> CallView {
        CallView { index: self.index, args: self.args@ }
    }
}

/// How a run of an instance ended or paused.
#[derive(Clone, Debug, PartialEq, Eq)]
pub enum RunOutcome {
    /// The guest returned the word.
    Returned(u64),
    /// The guest trapped.
    Trapped(TrapReason),
    /// The guest waits for the host to serve the call.
    YieldedToHost(CallDescriptor),
}

/// An outcome as plain values.
pub enum OutcomeView {
    /// The guest returned the word.
    Returned(u64),
    /// The guest trapped.
    Trapped(TrapReason),
    /// The guest waits for the host to serve the call.
    YieldedToHost(CallView),
}

impl View for RunOutcome {
    type V = OutcomeView;

    open spec fn view(&self) -> OutcomeView {
        match self {
            RunOutcome::Returned(value) => OutcomeView::Returned(*value),
            RunOutcome::Trapped(reason) => OutcomeView::Trapped(*reason),
            RunOutcome::YieldedToHost(call) => OutcomeView::YieldedToHost(call@),
        }
    }
}

impl OutcomeView {
    /// Whether the outcome ends the run: the guest returned or trapped.
    pub open spec fn is_terminal(self) -> bool {
        !(self is YieldedToHost)
    }
}

impl RunOutcome {
    /// Whether the outcome ends the run: the guest returned or trapped.
    pub fn is_terminal(&self) -> (terminal: bool)
        ensures
            terminal == self@.is_terminal(),
    {
        match self {
            RunOutcome::YieldedToHost(_) => false,
            _ => true,
        }
    }
}

/// What the guest machine holds at one moment of a run.
pub struct MachineState {
    /// Index of the instruction that runs next.
    pub pc: nat,
    /// The operand stack, its top last.
    pub stack: Seq<u64>,
    /// The committed bytes of the region.
    pub memory: Seq<u8>,
}

/// What one instruction leads to.
pub enum Step {
    /// The run goes on from the state.
    Continue(MachineState),
    /// The run stops with the outcome and leaves the state.
    Stop(OutcomeView, MachineState),
}

/// A trap at the instruction that is about to run: the state stays as it is.
pub open spec fn trap(reason: TrapReason, s: MachineState) -> Step {
    Step::Stop(OutcomeView::Trapped(reason), s)
}

/// The low byte of a word.
pub open spec fn low_byte(word: u64) -> u8 {
    (word % 256) as u8
}

/// What the instruction at the program counter does to the state.
///
/// Every access to memory is checked against the committed bytes: an address at or past
/// their end traps and changes nothing.
pub open spec fn step(m: ModuleView, s: MachineState) -> Step {
    let n = s.stack.len() as int;
    let next = s.pc + 1;
    if s.pc >= m.code.len() {
        trap(TrapReason::IllegalInstruction, s)
    } else {
        match m.code[s.pc as int] {
            Instr::Const(word) => {
                if n >= STACK_LIMIT {
                    trap(TrapReason::StackOverflow, s)
                } else {
                    Step::Continue(MachineState { pc: next, stack: s.stack.push(word), ..s })
                }
            },
            Instr::Add => {
                if n < 2 {
                    trap(TrapReason::StackUnderflow, s)
                } else {
                    let sum = s.stack[n - 2].wrapping_add(s.stack[n - 1]);
                    Step::Continue(
                        MachineState { pc: next, stack: s.stack.subrange(0, n - 2).push(sum), ..s },
                    )
                }
            },
            Instr::Drop => {
                if n < 1 {
                    trap(TrapReason::StackUnderflow, s)
                } else {
                    Step::Continue(MachineState { pc: next, stack: s.stack.subrange(0, n - 1), ..s })
                }
            },
            Instr::Load { offset } => {
                if n < 1 {
                    trap(TrapReason::StackUnderflow, s)
                } else {
                    let addr = s.stack[n - 1] + offset;
                    if addr >= s.memory.len() {
                        trap(TrapReason::OutOfBounds, s)
                    } else {
                        Step::Continue(
                            MachineState {
                                pc: next,
                                stack: s.stack.subrange(0, n - 1).push(s.memory[addr] as u64),
                                ..s
                            },
                        )
                    }
                }
            },
            Instr::Store { offset } => {
                if n < 2 {
                    trap(TrapReason::StackUnderflow, s)
                } else {
                    let addr = s.stack[n - 2] + offset;
                    if addr >= s.memory.len() {
                        trap(TrapReason::OutOfBounds, s)
                    } else {
                        Step::Continue(
                            MachineState {
                                pc: next,
                                stack: s.stack.subrange(0, n - 2),
                                memory: s.memory.update(addr, low_byte(s.stack[n - 1])),
                            },
                        )
                    }
                }
            },
            Instr::HostCall { index } => {
                if index >= m.imports.len() {
                    trap(TrapReason::IllegalInstruction, s)
                } else if n < m.imports[index as int] {
                    trap(TrapReason::StackUnderflow, s)
                } else {
                    let arity = m.imports[index as int] as int;
                    Step::Stop(
                        OutcomeView::YieldedToHost(
                            CallView { index, args: s.stack.subrange(n - arity, n) },
                        ),
                        MachineState { pc: next, stack: s.stack.subrange(0, n - arity), ..s },
                    )
                }
            },
            Instr::Return => {
                Step::Stop(OutcomeView::Returned(if n == 0 { 0 } else { s.stack[n - 1] }), s)
            },
            Instr::Unreachable => trap(TrapReason::IllegalInstruction, s),
        }
    }
}

/// What a run from the state yields: the first outcome that stops it, and the state it
/// leaves.
pub open spec fn exec(m: ModuleView, s: MachineState) -> (OutcomeView, MachineState)
    decreases m.code.len() - s.pc,
{
    match step(m, s) {
        Step::Continue(t) => exec(m, t),
        Step::Stop(outcome, t) => (outcome, t),
    }
}

/// What a run yields that goes on after the host has answered the pending call.
///
/// A failure of the host traps. A result is pushed, which traps on a full stack, and the
/// run goes on from there.
pub open spec fn exec_resume(m: ModuleView, s: MachineState, reply: HostReply) -> (
    OutcomeView,
    MachineState,
) {
    match reply {
        HostReply::Failure => (OutcomeView::Trapped(TrapReason::HostCallFailure), s),
        HostReply::Value(word) => {
            if s.stack.len() >= STACK_LIMIT {
                (OutcomeView::Trapped(TrapReason::StackOverflow), s)
            } else {
                exec(m, MachineState { stack: s.stack.push(word), ..s })
            }
        },
    }
}

/// A run goes forward: the program counter never falls back, it stays within the code, and
/// a run that yields has passed the instruction that asked for the host.
pub proof fn lemma_exec_advances(m: ModuleView, s: MachineState)
    requires
        s.pc <= m.code.len(),
    ensures
        s.pc <= exec(m, s).1.pc <= m.code.len(),
        exec(m, s).0 is YieldedToHost ==> s.pc < exec(m, s).1.pc,
    decreases m.code.len() - s.pc,
{
    match step(m, s) {
        Step::Continue(t) => {
            lemma_exec_advances(m, t);
        },
        Step::Stop(_, _) => {},
    }
}

/// The place of memory that the instruction at the program counter touches, where it is a
/// load or a store with its operands on the stack.
pub open spec fn touched(m: ModuleView, s: MachineState) -> Option<int> {
    let n = s.stack.len() as int;
    if s.pc >= m.code.len() {
        None
    } else {
        match m.code[s.pc as int] {
            Instr::Load { offset } => if n >= 1 {
                Some(s.stack[n - 1] + offset)
            } else {
                None
            },
            Instr::Store { offset } => if n >= 2 {
                Some(s.stack[n - 2] + offset)
            } else {
                None
            },
            _ => None,
        }
    }
}

/// An access at or past the end of memory always traps, however far past it is, and
/// changes nothing: not the stack, not the program counter, not one byte.
pub proof fn lemma_access_past_memory_traps(m: ModuleView, s: MachineState)
    requires
        touched(m, s) matches Some(place) && place >= s.memory.len(),
    ensures
        exec(m, s) == (OutcomeView::Trapped(TrapReason::OutOfBounds), s),
{
}

/// An access within memory never traps for being out of bounds.
pub proof fn lemma_access_within_memory_goes_on(m: ModuleView, s: MachineState)
    requires
        touched(m, s) matches Some(place) && place < s.memory.len(),
    ensures
        step(m, s) is Continue,
{
}

} // verus!
