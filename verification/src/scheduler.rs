//! The execution scheduler: it drives instances to a terminal outcome, one after the other,
//! serving their host calls through the dispatch function that the host supplies.

use vstd::prelude::*;
use crate::instance::{created, Instance, InstanceState, InstanceView};
use crate::machine::{
    exec, lemma_exec_advances, CallDescriptor, HostReply, MachineState, OutcomeView, RunOutcome,
};
use crate::module::{Instr, ModuleView};
use crate::region::RegionView;

verus! {

/// Whether an instance that stands at `v` after `outcome` can end with `result` in the
/// state `end` when each of its host calls is answered as `dispatch` may answer it, within
/// `fuel` host calls.
pub open spec fn drives<F: Fn(&CallDescriptor, &Instance) -> HostReply>(
    v: InstanceView,
    outcome: OutcomeView,
    dispatch: F,
    result: OutcomeView,
    end: InstanceView,
    fuel: nat,
) -> bool
    decreases fuel,
{
    match outcome {
        OutcomeView::YieldedToHost(call) => fuel > 0 && exists|
            d: CallDescriptor,
            requester: Instance,
            reply: HostReply,
        |
            {
                &&& d@ == call
                &&& requester@ == v
                &&& #[trigger] dispatch.ensures((&d, &requester), reply)
                &&& drives(
                    v.resume(reply).1,
                    v.resume(reply).0,
                    dispatch,
                    result,
                    end,
                    (fuel - 1) as nat,
                )
            },
        _ => result == outcome && end == v,
    }
}

/// Whether running the idle instance `v` to completion can end with `result` in the state
/// `end`: the instance runs, each call it yields is answered with a reply that `dispatch`
/// may give for that call of that instance, and it resumes with that reply, until it
/// returns or traps.
pub open spec fn completes<F: Fn(&CallDescriptor, &Instance) -> HostReply>(
    v: InstanceView,
    dispatch: F,
    result: OutcomeView,
    end: InstanceView,
) -> bool {
    exists|fuel: nat| #[trigger] drives(v.run().1, v.run().0, dispatch, result, end, fuel)
}

/// What it takes to get past a host call: a reply that `dispatch` may give for the call,
/// and the rest of the way from where the instance resumes with it.
pub proof fn lemma_yield_needs_reply<F: Fn(&CallDescriptor, &Instance) -> HostReply>(
    v: InstanceView,
    outcome: OutcomeView,
    dispatch: F,
    result: OutcomeView,
    end: InstanceView,
    fuel: nat,
)
    requires
        drives(v, outcome, dispatch, result, end, fuel),
        outcome is YieldedToHost,
    ensures
        fuel > 0,
        exists|d: CallDescriptor, requester: Instance, reply: HostReply|
            {
                &&& d@ == outcome->YieldedToHost_0
                &&& requester@ == v
                &&& #[trigger] dispatch.ensures((&d, &requester), reply)
                &&& drives(
                    v.resume(reply).1,
                    v.resume(reply).0,
                    dispatch,
                    result,
                    end,
                    (fuel - 1) as nat,
                )
            },
{
}

/// A run that has returned or trapped is at its end.
pub proof fn lemma_terminal_is_the_end<F: Fn(&CallDescriptor, &Instance) -> HostReply>(
    v: InstanceView,
    outcome: OutcomeView,
    dispatch: F,
    result: OutcomeView,
    end: InstanceView,
    fuel: nat,
)
    requires
        drives(v, outcome, dispatch, result, end, fuel),
        outcome.is_terminal(),
    ensures
        result == outcome,
        end == v,
{
}

/// Runs the idle instance to completion: every host call that it yields is handed to
/// `dispatch`, together with the instance that asks, which the host may read and cannot
/// change or keep; the instance resumes with the reply, until it returns or traps.
pub fn complete<F: Fn(&CallDescriptor, &Instance) -> HostReply>(
    instance: &mut Instance,
    dispatch: &F,
) -> (outcome: RunOutcome)
    requires
        old(instance).wf(),
        old(instance)@.state == InstanceState::Idle,
        forall|d: &CallDescriptor, i: &Instance| dispatch.requires((d, i)),
    ensures
        final(instance).wf(),
        outcome@.is_terminal(),
        completes(old(instance)@, *dispatch, outcome@, final(instance)@),
{
    let ghost start = instance@;
    let ghost mut calls: nat = 0;
    let mut outcome = instance.run();
    loop
        invariant
            start == old(instance)@,
            instance.wf(),
            instance@.state == crate::instance::state_after(outcome@),
            forall|d: &CallDescriptor, i: &Instance| dispatch.requires((d, i)),
            forall|result: OutcomeView, end: InstanceView, fuel: nat| #[trigger]
                drives(instance@, outcome@, *dispatch, result, end, fuel) ==> drives(
                    start.run().1,
                    start.run().0,
                    *dispatch,
                    result,
                    end,
                    fuel + calls,
                ),
        decreases
                instance@.module.code.len() - instance@.pc,
                (if outcome@ is YieldedToHost { 1nat } else { 0nat }),
    {
        let ghost before = instance@;
        let ghost yielded = outcome@;
        match outcome {
            RunOutcome::YieldedToHost(call) => {
                let ghost requester = *instance;
                let reply = dispatch(&call, &*instance);
                outcome = instance.resume_pending(reply);
                proof {
                    lemma_exec_advances(
                        before.module,
                        MachineState {
                            stack: before.stack.push(reply->Value_0),
                            ..before.machine()
                        },
                    );
                    assert forall|result: OutcomeView, end: InstanceView, fuel: nat| #[trigger]
                        drives(instance@, outcome@, *dispatch, result, end, fuel) implies drives(
                        start.run().1,
                        start.run().0,
                        *dispatch,
                        result,
                        end,
                        fuel + calls + 1,
                    ) by {
                        assert(dispatch.ensures((&call, &requester), reply));
                        assert(drives(before, yielded, *dispatch, result, end, fuel + 1));
                    }
                    calls = calls + 1;
                }
            },
            terminal => {
                proof {
                    assert(drives(instance@, terminal@, *dispatch, terminal@, instance@, 0));
                    assert(drives(
                        start.run().1,
                        start.run().0,
                        *dispatch,
                        terminal@,
                        instance@,
                        calls,
                    ));
                }
                return terminal;
            },
        }
    }
}

/// Whether every instance of the list is well formed and idle, as a batch must be before
/// it runs.
pub open spec fn batch_ready(instances: Seq<Instance>) -> bool {
    forall|i: int|
        0 <= i < instances.len() ==> (#[trigger] instances[i]).wf() && instances[i]@.state
            == InstanceState::Idle
}

/// Whether `outcomes` and `after` are what running each instance of `before` to completion
/// can give, position by position: the outcome at a position is terminal and belongs to
/// the instance at that position.
pub open spec fn batch_completed<F: Fn(&CallDescriptor, &Instance) -> HostReply>(
    before: Seq<Instance>,
    dispatch: F,
    outcomes: Seq<RunOutcome>,
    after: Seq<Instance>,
) -> bool {
    &&& outcomes.len() == before.len()
    &&& after.len() == before.len()
    &&& forall|i: int|
        0 <= i < before.len() ==> {
            &&& (#[trigger] after[i]).wf()
            &&& outcomes[i]@.is_terminal()
            &&& completes(before[i]@, dispatch, outcomes[i]@, after[i]@)
        }
}

/// Runs every instance of the list to completion, strictly one at a time and in the order
/// of the list. The outcomes come in the order of the instances. A trap ends only the run
/// of its own instance.
pub fn run_sequential<F: Fn(&CallDescriptor, &Instance) -> HostReply>(
    instances: &mut Vec<Instance>,
    dispatch: &F,
) -> (outcomes: Vec<RunOutcome>)
    requires
        batch_ready(old(instances)@),
        forall|d: &CallDescriptor, i: &Instance| dispatch.requires((d, i)),
    ensures
        batch_completed(old(instances)@, *dispatch, outcomes@, final(instances)@),
{
    let mut outcomes: Vec<RunOutcome> = Vec::new();
    let mut k: usize = 0;
    while k < instances.len()
        invariant
            k <= instances@.len(),
            instances@.len() == old(instances)@.len(),
            outcomes@.len() == k,
            batch_ready(old(instances)@),
            forall|d: &CallDescriptor, i: &Instance| dispatch.requires((d, i)),
            forall|i: int| k <= i < instances@.len() ==> instances@[i] == old(instances)@[i],
            forall|i: int|
                0 <= i < k ==> {
                    &&& (#[trigger] instances@[i]).wf()
                    &&& outcomes@[i]@.is_terminal()
                    &&& completes(old(instances)@[i]@, *dispatch, outcomes@[i]@, instances@[i]@)
                },
        decreases instances@.len() - k,
    {
        let ghost list = instances@;
        let ghost done = outcomes@;
        assert(old(instances)@[k as int].wf());
        let outcome = complete(&mut instances[k], dispatch);
        outcomes.push(outcome);
        proof {
            assert forall|i: int| 0 <= i < k + 1 implies (#[trigger] instances@[i]).wf()
                && outcomes@[i]@.is_terminal() && completes(
                old(instances)@[i]@,
                *dispatch,
                outcomes@[i]@,
                instances@[i]@,
            ) by {
                if i < k {
                    assert(list[i].wf());
                    assert(instances@[i] == list[i]);
                    assert(outcomes@[i] == done[i]);
                }
            }
        }
        k = k + 1;
    }
    outcomes
}

/// Whether `dispatch` can give one reply only for a call of an instance.
pub open spec fn single_valued<F: Fn(&CallDescriptor, &Instance) -> HostReply>(
    dispatch: F,
) -> bool {
    forall|
        d1: CallDescriptor,
        i1: Instance,
        r1: HostReply,
        d2: CallDescriptor,
        i2: Instance,
        r2: HostReply,
    |
        d1@ == d2@ && i1@ == i2@ && #[trigger] dispatch.ensures((&d1, &i1), r1)
            && #[trigger] dispatch.ensures((&d2, &i2), r2) ==> r1 == r2
}

proof fn lemma_drives_to_one_end<F: Fn(&CallDescriptor, &Instance) -> HostReply>(
    v: InstanceView,
    outcome: OutcomeView,
    dispatch: F,
    first: (OutcomeView, InstanceView, nat),
    second: (OutcomeView, InstanceView, nat),
)
    requires
        single_valued(dispatch),
        drives(v, outcome, dispatch, first.0, first.1, first.2),
        drives(v, outcome, dispatch, second.0, second.1, second.2),
    ensures
        first.0 == second.0,
        first.1 == second.1,
    decreases first.2,
{
    if outcome is YieldedToHost {
        let call = outcome->YieldedToHost_0;
        let (d1, i1, r1) = choose|d: CallDescriptor, requester: Instance, reply: HostReply|
            {
                &&& d@ == call
                &&& requester@ == v
                &&& #[trigger] dispatch.ensures((&d, &requester), reply)
                &&& drives(
                    v.resume(reply).1,
                    v.resume(reply).0,
                    dispatch,
                    first.0,
                    first.1,
                    (first.2 - 1) as nat,
                )
            };
        let (d2, i2, r2) = choose|d: CallDescriptor, requester: Instance, reply: HostReply|
            {
                &&& d@ == call
                &&& requester@ == v
                &&& #[trigger] dispatch.ensures((&d, &requester), reply)
                &&& drives(
                    v.resume(reply).1,
                    v.resume(reply).0,
                    dispatch,
                    second.0,
                    second.1,
                    (second.2 - 1) as nat,
                )
            };
        assert(r1 == r2);
        lemma_drives_to_one_end(
            v.resume(r1).1,
            v.resume(r1).0,
            dispatch,
            (first.0, first.1, (first.2 - 1) as nat),
            (second.0, second.1, (second.2 - 1) as nat),
        );
    }
}

/// With a host that gives one reply only for a call, running an instance to completion
/// has one result only.
pub proof fn lemma_single_valued_host_fixes_result<F: Fn(&CallDescriptor, &Instance) -> HostReply>(
    v: InstanceView,
    dispatch: F,
    first: (OutcomeView, InstanceView),
    second: (OutcomeView, InstanceView),
)
    requires
        single_valued(dispatch),
        completes(v, dispatch, first.0, first.1),
        completes(v, dispatch, second.0, second.1),
    ensures
        first == second,
{
    let f1 = choose|fuel: nat| #[trigger]
        drives(v.run().1, v.run().0, dispatch, first.0, first.1, fuel);
    let f2 = choose|fuel: nat| #[trigger]
        drives(v.run().1, v.run().0, dispatch, second.0, second.1, fuel);
    lemma_drives_to_one_end(
        v.run().1,
        v.run().0,
        dispatch,
        (first.0, first.1, f1),
        (second.0, second.1, f2),
    );
}

/// An instance that never asks for the host ends as its run ends, whatever the host is.
pub proof fn lemma_no_host_call_needs_no_host<F: Fn(&CallDescriptor, &Instance) -> HostReply>(
    v: InstanceView,
    dispatch: F,
    result: OutcomeView,
    end: InstanceView,
)
    requires
        v.run().0.is_terminal(),
    ensures
        completes(v, dispatch, result, end) <==> (result, end) == v.run(),
{
    if (result, end) == v.run() {
        assert(drives(v.run().1, v.run().0, dispatch, result, end, 0));
    }
}

/// With a host that gives one reply only for a call, two runs of one batch give the same
/// outcomes and leave the same instances, position by position: the parallel scheduler
/// agrees with the sequential one, whatever the degree.
pub proof fn lemma_schedulers_agree<F: Fn(&CallDescriptor, &Instance) -> HostReply>(
    before: Seq<Instance>,
    dispatch: F,
    first: (Seq<RunOutcome>, Seq<Instance>),
    second: (Seq<RunOutcome>, Seq<Instance>),
)
    requires
        single_valued(dispatch),
        batch_completed(before, dispatch, first.0, first.1),
        batch_completed(before, dispatch, second.0, second.1),
    ensures
        first.0.len() == second.0.len(),
        forall|i: int|
            0 <= i < before.len() ==> (#[trigger] first.0[i])@ == second.0[i]@ && first.1[i]@
                == second.1[i]@,
{
    assert forall|i: int| 0 <= i < before.len() implies (#[trigger] first.0[i])@ == second.0[i]@
        && first.1[i]@ == second.1[i]@ by {
        assert(first.1[i].wf());
        assert(second.1[i].wf());
        lemma_single_valued_host_fixes_result(
            before[i]@,
            dispatch,
            (first.0[i]@, first.1[i]@),
            (second.0[i]@, second.1[i]@),
        );
    }
}

/// Whether `dispatch` answers every call that passes at least one word with the first word
/// passed.
pub open spec fn echoes<F: Fn(&CallDescriptor, &Instance) -> HostReply>(dispatch: F) -> bool {
    forall|d: CallDescriptor, requester: Instance, reply: HostReply|
        d.args@.len() > 0 && #[trigger] dispatch.ensures((&d, &requester), reply) ==> reply
            == HostReply::Value(d.args@[0])
}

/// A guest that passes one word to the host and returns what comes back, run to completion
/// with a host that echoes, returns that word.
pub proof fn lemma_echoed_word_returns<F: Fn(&CallDescriptor, &Instance) -> HostReply>(
    module: ModuleView,
    region: RegionView,
    dispatch: F,
    word: u64,
    index: u32,
    result: OutcomeView,
    end: InstanceView,
)
    requires
        module.wf(),
        module.entry + 2 < module.code.len(),
        module.code[module.entry as int] == Instr::Const(word),
        module.code[module.entry as int + 1] == (Instr::HostCall { index }),
        module.code[module.entry as int + 2] == Instr::Return,
        index < module.imports.len(),
        module.imports[index as int] == 1,
        echoes(dispatch),
        completes(created(module, region), dispatch, result, end),
    ensures
        result == OutcomeView::Returned(word),
{
    let v = created(module, region);
    reveal_with_fuel(exec, 3);
    let fuel = choose|fuel: nat| #[trigger]
        drives(v.run().1, v.run().0, dispatch, result, end, fuel);
    let call = v.run().0->YieldedToHost_0;
    assert(call.args =~= seq![word]);
    let (d, requester, reply) = choose|d: CallDescriptor, requester: Instance, reply: HostReply|
        {
            &&& d@ == call
            &&& requester@ == v.run().1
            &&& #[trigger] dispatch.ensures((&d, &requester), reply)
            &&& drives(
                v.run().1.resume(reply).1,
                v.run().1.resume(reply).0,
                dispatch,
                result,
                end,
                (fuel - 1) as nat,
            )
        };
    assert(reply == HostReply::Value(word));
    assert(v.run().1.stack =~= Seq::<u64>::empty());
    assert(v.run().1.resume(reply).0 == OutcomeView::Returned(word));
}

} // verus!
