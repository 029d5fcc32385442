//! Instances: one runnable execution context each, bound to a module and a region.

use vstd::prelude::*;
use std::sync::Arc;
use crate::error::Error;
use crate::machine::{
    exec, exec_resume, lemma_access_past_memory_traps, step, touched, CallDescriptor, HostReply,
    MachineState,
    OutcomeView, RunOutcome, Step, TrapReason, STACK_LIMIT,
};
use crate::module::{Instr, Module, ModuleView};
use crate::region::{image_memory, Region, RegionView};

verus! {

/// Where an instance stands in its life.
#[derive(Clone, Copy, Debug, PartialEq, Eq, Structural)]
pub enum InstanceState {
    /// Ready to run from the entry point.
    Idle,
    /// Guest code is running.
    Running,
    /// The last run returned.
    Returned,
    /// The last run trapped.
    Trapped,
    /// The run waits for the host to serve a call.
    YieldedToHost,
}

/// The state that an outcome leaves an instance in.
pub open spec fn state_after(outcome: OutcomeView) -> InstanceState {
    match outcome {
        OutcomeView::Returned(_) => InstanceState::Returned,
        OutcomeView::Trapped(_) => InstanceState::Trapped,
        OutcomeView::YieldedToHost(_) => InstanceState::YieldedToHost,
    }
}

/// An instance as plain values.
pub struct InstanceView {
    /// The module that the instance runs.
    pub module: ModuleView,
    /// The region that the instance owns.
    pub region: RegionView,
    /// The saved program counter.
    pub pc: nat,
    /// The saved operand stack, its top last.
    pub stack: Seq<u64>,
    /// Where the instance stands in its life.
    pub state: InstanceState,
}

impl InstanceView {
    /// The invariant of every instance: module and region are well formed, the region is
    /// large enough for the module's initial memory, and the saved context is within its
    /// limits.
    pub open spec fn wf(self) -> bool {
        &&& self.module.wf()
        &&& self.region.wf()
        &&& self.module.initial_memory_size <= self.region.size
        &&& self.stack.len() <= STACK_LIMIT
        &&& self.pc <= self.module.code.len()
    }

    /// What the guest machine holds: the saved context and the bytes of the region.
    pub open spec fn machine(self) -> MachineState {
        MachineState { pc: self.pc, stack: self.stack, memory: self.region.memory }
    }

    /// The instance after a run stopped with `outcome` and left the machine in `left`.
    pub open spec fn settle(self, outcome: OutcomeView, left: MachineState) -> InstanceView {
        InstanceView {
            region: self.region.with_memory(left.memory),
            pc: left.pc,
            stack: left.stack,
            state: state_after(outcome),
            ..self
        }
    }

    /// What a run of the instance yields, and the instance after it.
    pub open spec fn run(self) -> (OutcomeView, InstanceView) {
        let (outcome, left) = exec(self.module, self.machine());
        (outcome, self.settle(outcome, left))
    }

    /// What the instance yields when it goes on after the host has answered, and the
    /// instance after it.
    pub open spec fn resume(self, reply: HostReply) -> (OutcomeView, InstanceView) {
        let (outcome, left) = exec_resume(self.module, self.machine(), reply);
        (outcome, self.settle(outcome, left))
    }

    /// The instance with the module's initial memory, the context at the entry point, and
    /// idle.
    pub open spec fn reset(self) -> InstanceView {
        created(self.module, self.region)
    }
}

/// The instance that binding `region` to `module` makes: the region holds the module's
/// initial memory, the context stands at the entry point with an empty stack, and the
/// instance is idle.
pub open spec fn created(module: ModuleView, region: RegionView) -> InstanceView {
    InstanceView {
        module,
        region: region.with_memory(image_memory(module.image, region.size)),
        pc: module.entry,
        stack: Seq::empty(),
        state: InstanceState::Idle,
    }
}

/// The saved execution context of one instance.
#[derive(Debug)]
struct Context {
    pc: usize,
    stack: Vec<u64>,
}

/// One runnable execution context, bound to a module and owning a region.
///
/// Whoever runs an instance holds it exclusively, so no two runs of one instance overlap.
#[derive(Debug)]
pub struct Instance {
    module: Arc<Module>,
    region: Region,
    context: Context,
    state: InstanceState,
}

impl View for Instance {
    type V = InstanceView;

    closed spec fn view(&self) -> InstanceView {
        InstanceView {
            module: (*self.module)@,
            region: self.region@,
            pc: self.context.pc as nat,
            stack: self.context.stack@,
            state: self.state,
        }
    }
}

impl Instance {
    /// The invariant of every instance; see [`InstanceView::wf`].
    pub open spec fn wf(&self) -> bool {
        self@.wf()
    }

    /// Binds `region` to `module`: writes the module's initial memory into the region and
    /// sets the context to the entry point.
    pub fn create(module: Arc<Module>, region: Region) -> (instance: Instance)
        requires
            module.wf(),
            region.wf(),
            (*module)@.initial_memory_size <= region@.size,
        ensures
            instance.wf(),
            instance@ == created((*module)@, region@),
    {
        let mut region = region;
        region.load_image(module.image());
        let entry = module.entry();
        Instance {
            module,
            region,
            context: Context { pc: entry, stack: Vec::new() },
            state: InstanceState::Idle,
        }
    }

    /// Where the instance stands in its life.
    pub fn state(&self) -> (state: InstanceState)
        ensures
            state == self@.state,
    {
        self.state
    }

    /// The module that the instance runs.
    pub fn module(&self) -> (module: &Arc<Module>)
        ensures
            (**module)@ == self@.module,
    {
        &self.module
    }

    /// The region that the instance owns.
    pub fn region(&self) -> (region: &Region)
        ensures
            region@ == self@.region,
    {
        &self.region
    }

    /// The committed bytes of the region.
    pub fn memory(&self) -> (memory: &Vec<u8>)
        ensures
            memory@ == self@.region.memory,
    {
        self.region.memory()
    }

    /// Ends the instance and hands its region back, with the bytes that the guest left.
    pub fn into_region(self) -> (region: Region)
        requires
            self.wf(),
        ensures
            region.wf(),
            region@ == self@.region,
    {
        self.region
    }

    /// Carries out the instruction at the program counter.
    fn step(&mut self) -> (stop: Option<RunOutcome>)
        requires
            old(self).wf(),
        ensures
            final(self).wf(),
            final(self)@.module == old(self)@.module,
            final(self)@.state == old(self)@.state,
            final(self)@.region == old(self)@.region.with_memory(final(self)@.region.memory),
            match step(old(self)@.module, old(self)@.machine()) {
                Step::Continue(t) => stop is None && final(self)@.machine() == t && final(self)@.pc
                    == old(self)@.pc + 1,
                Step::Stop(outcome, t) => {
                    &&& stop matches Some(o)
                    &&& o@ == outcome
                    &&& final(self)@.machine() == t
                },
            },
    {
        let code = self.module.code();
        let pc = self.context.pc;
        if pc >= code.len() {
            return Some(RunOutcome::Trapped(TrapReason::IllegalInstruction));
        }
        let n = self.context.stack.len();
        match code[pc] {
            Instr::Const(word) => {
                if n >= STACK_LIMIT {
                    return Some(RunOutcome::Trapped(TrapReason::StackOverflow));
                }
                self.context.stack.push(word);
            },
            Instr::Add => {
                if n < 2 {
                    return Some(RunOutcome::Trapped(TrapReason::StackUnderflow));
                }
                let b = self.context.stack[n - 1];
                let a = self.context.stack[n - 2];
                self.context.stack.truncate(n - 2);
                self.context.stack.push(a.wrapping_add(b));
            },
            Instr::Drop => {
                if n < 1 {
                    return Some(RunOutcome::Trapped(TrapReason::StackUnderflow));
                }
                self.context.stack.truncate(n - 1);
            },
            Instr::Load { offset } => {
                if n < 1 {
                    return Some(RunOutcome::Trapped(TrapReason::StackUnderflow));
                }
                let base = self.context.stack[n - 1];
                let byte = match base.checked_add(offset) {
                    Some(addr) => self.region.read(addr),
                    None => None,
                };
                match byte {
                    Some(byte) => {
                        self.context.stack.truncate(n - 1);
                        self.context.stack.push(byte as u64);
                    },
                    None => {
                        return Some(RunOutcome::Trapped(TrapReason::OutOfBounds));
                    },
                }
            },
            Instr::Store { offset } => {
                if n < 2 {
                    return Some(RunOutcome::Trapped(TrapReason::StackUnderflow));
                }
                let word = self.context.stack[n - 1];
                let base = self.context.stack[n - 2];
                let written = match base.checked_add(offset) {
                    Some(addr) => self.region.write(addr, (word % 256) as u8),
                    None => false,
                };
                if !written {
                    return Some(RunOutcome::Trapped(TrapReason::OutOfBounds));
                }
                self.context.stack.truncate(n - 2);
            },
            Instr::HostCall { index } => {
                let arity = match self.module.arity(index) {
                    Some(arity) => arity,
                    None => {
                        return Some(RunOutcome::Trapped(TrapReason::IllegalInstruction));
                    },
                };
                if n < arity {
                    return Some(RunOutcome::Trapped(TrapReason::StackUnderflow));
                }
                let args = self.context.stack.split_off(n - arity);
                self.context.pc = pc + 1;
                return Some(RunOutcome::YieldedToHost(CallDescriptor { index, args }));
            },
            Instr::Return => {
                let word = if n == 0 { 0 } else { self.context.stack[n - 1] };
                return Some(RunOutcome::Returned(word));
            },
            Instr::Unreachable => {
                return Some(RunOutcome::Trapped(TrapReason::IllegalInstruction));
            },
        }
        self.context.pc = pc + 1;
        None
    }

    /// Runs guest code from the saved context until it returns, traps or asks for the host.
    fn execute(&mut self) -> (outcome: RunOutcome)
        requires
            old(self).wf(),
        ensures
            final(self).wf(),
            outcome@ == exec(old(self)@.module, old(self)@.machine()).0,
            final(self)@.machine() == exec(old(self)@.module, old(self)@.machine()).1,
            final(self)@.module == old(self)@.module,
            final(self)@.state == old(self)@.state,
            final(self)@.region == old(self)@.region.with_memory(final(self)@.region.memory),
    {
        let ghost start = self@;
        loop
            invariant
                start == old(self)@,
                self.wf(),
                self@.module == start.module,
                self@.state == start.state,
                self@.region == start.region.with_memory(self@.region.memory),
                exec(self@.module, self@.machine()) == exec(start.module, start.machine()),
            decreases self@.module.code.len() - self@.pc,
        {
            match self.step() {
                Some(outcome) => {
                    return outcome;
                },
                None => {},
            }
        }
    }

    /// The state that `outcome` leaves an instance in.
    fn state_of(outcome: &RunOutcome) -> (state: InstanceState)
        ensures
            state == state_after(outcome@),
    {
        match outcome {
            RunOutcome::Returned(_) => InstanceState::Returned,
            RunOutcome::Trapped(_) => InstanceState::Trapped,
            RunOutcome::YieldedToHost(_) => InstanceState::YieldedToHost,
        }
    }

    /// Transfers control into guest code at the entry point and comes back when the guest
    /// returns, traps, or asks the host to serve a call.
    ///
    /// A trap ends only this run: the instance stays well formed and can be reset.
    pub fn run(&mut self) -> (outcome: RunOutcome)
        requires
            old(self).wf(),
            old(self)@.state == InstanceState::Idle,
        ensures
            final(self).wf(),
            outcome@ == old(self)@.run().0,
            final(self)@ == old(self)@.run().1,
    {
        self.state = InstanceState::Running;
        let outcome = self.execute();
        self.state = Self::state_of(&outcome);
        outcome
    }

    /// Goes on with the run after the host has answered the pending call.
    ///
    /// An instance that does not wait for the host refuses and stays as it is.
    pub fn resume(&mut self, reply: HostReply) -> (result: Result<RunOutcome, Error>)
        requires
            old(self).wf(),
        ensures
            final(self).wf(),
            old(self)@.state != InstanceState::YieldedToHost ==> {
                &&& result matches Err(e)
                &&& e == Error::InvalidResume
                &&& final(self)@ == old(self)@
            },
            old(self)@.state == InstanceState::YieldedToHost ==> {
                &&& result matches Ok(outcome)
                &&& outcome@ == old(self)@.resume(reply).0
                &&& final(self)@ == old(self)@.resume(reply).1
            },
    {
        match self.state {
            InstanceState::YieldedToHost => Ok(self.resume_pending(reply)),
            _ => Err(Error::InvalidResume),
        }
    }

    /// Goes on with the run of an instance that waits for the host.
    pub(crate) fn resume_pending(&mut self, reply: HostReply) -> (outcome: RunOutcome)
        requires
            old(self).wf(),
            old(self)@.state == InstanceState::YieldedToHost,
        ensures
            final(self).wf(),
            outcome@ == old(self)@.resume(reply).0,
            final(self)@ == old(self)@.resume(reply).1,
    {
        let outcome = match reply {
            HostReply::Failure => RunOutcome::Trapped(TrapReason::HostCallFailure),
            HostReply::Value(word) => {
                if self.context.stack.len() >= STACK_LIMIT {
                    RunOutcome::Trapped(TrapReason::StackOverflow)
                } else {
                    self.context.stack.push(word);
                    self.state = InstanceState::Running;
                    self.execute()
                }
            },
        };
        self.state = Self::state_of(&outcome);
        outcome
    }

    /// Restores the module's initial memory and the entry point, so that the instance can
    /// run again as if it had just been created.
    pub fn reset(&mut self)
        requires
            old(self).wf(),
        ensures
            final(self).wf(),
            final(self)@ == old(self)@.reset(),
    {
        self.region.load_image(self.module.image());
        self.context.pc = self.module.entry();
        self.context.stack.clear();
        self.state = InstanceState::Idle;
    }
}

/// A module whose entry point returns at once: the run of a fresh instance yields
/// `Returned`, and the region holds exactly the module's initial memory when the guest is
/// entered and when it has returned.
pub proof fn lemma_immediate_return(module: ModuleView, region: RegionView)
    requires
        module.wf(),
        region.wf(),
        module.initial_memory_size <= region.size,
        module.code[module.entry as int] == Instr::Return,
    ensures
        created(module, region).wf(),
        created(module, region).region.memory == image_memory(module.image, region.size),
        created(module, region).run().0 == OutcomeView::Returned(0),
        created(module, region).run().1.region.memory == image_memory(module.image, region.size),
        created(module, region).run().1.state == InstanceState::Returned,
{
    let v = created(module, region);
    assert(step(v.module, v.machine()) == Step::Stop(OutcomeView::Returned(0), v.machine()));
}

/// A guest access to a place that is not a committed byte of the instance's region, be it
/// in the guard area or at any distance past it, ends the run with a trap. The region
/// keeps every byte, and the context stays where the access was tried.
pub proof fn lemma_access_outside_region_traps(v: InstanceView)
    requires
        v.wf(),
        touched(v.module, v.machine()) matches Some(place) && !v.region.in_committed(
            v.region.base + place,
        ),
    ensures
        v.run().0 == OutcomeView::Trapped(TrapReason::OutOfBounds),
        v.run().1 == (InstanceView { state: InstanceState::Trapped, ..v }),
{
    lemma_access_past_memory_traps(v.module, v.machine());
    assert(v.region.with_memory(v.region.memory) == v.region);
}

/// Creation writes every committed byte: what a region held when it was issued, fresh or
/// out of the pool, does not show in the instance.
pub proof fn lemma_creation_overwrites_stale_bytes(
    module: ModuleView,
    region: RegionView,
    stale: Seq<u8>,
)
    ensures
        created(module, region.with_memory(stale)) == created(module, region),
{
}

/// Running and resuming never touch what identifies the instance: its module, and the
/// place, size and generation of its region.
pub proof fn lemma_run_keeps_identity(v: InstanceView, reply: HostReply)
    ensures
        v.run().1.module == v.module,
        v.run().1.region == v.region.with_memory(v.run().1.region.memory),
        v.resume(reply).1.module == v.module,
        v.resume(reply).1.region == v.region.with_memory(v.resume(reply).1.region.memory),
{
}

/// Reset undoes every run: whatever an instance of `module` on `region` has gone through,
/// after a reset it is the instance that creation made, so a run after the reset, and every
/// resume that follows it, yields what it yielded after creation.
pub proof fn lemma_reset_repeats_creation(module: ModuleView, region: RegionView, v: InstanceView)
    requires
        v.module == module,
        v.region == region.with_memory(v.region.memory),
    ensures
        v.reset() == created(module, region),
        v.reset().run() == created(module, region).run(),
        forall|reply: HostReply| #[trigger]
            v.reset().run().1.resume(reply) == created(module, region).run().1.resume(reply),
{
}

/// Resetting twice is resetting once.
pub proof fn lemma_reset_is_idempotent(v: InstanceView)
    ensures
        v.reset().reset() == v.reset(),
{
}

/// The states follow the life of an instance: a run or a resume ends in `Returned`,
/// `Trapped` or `YieldedToHost`, never in `Idle` or `Running`; a reset ends in `Idle`; and
/// a well-formed instance stays well formed through all three.
pub proof fn lemma_states_follow_the_life(v: InstanceView, reply: HostReply)
    requires
        v.wf(),
    ensures
        v.run().1.state == state_after(v.run().0),
        v.resume(reply).1.state == state_after(v.resume(reply).0),
        v.run().1.state != InstanceState::Idle && v.run().1.state != InstanceState::Running,
        v.resume(reply).1.state != InstanceState::Idle && v.resume(reply).1.state
            != InstanceState::Running,
        v.reset().state == InstanceState::Idle,
        v.reset().wf(),
{
}

} // verus!
