//! Setting a batch of instances up and tearing it down: each instance claims a region from
//! the allocator, and a batch that cannot be set up in full claims none.

use vstd::prelude::*;
use std::sync::Arc;
use crate::allocator::{
    lemma_acquire_keeps_regions_apart, lemma_release_keeps_invariant, AllocatorView,
    RegionAllocator,
};
use crate::error::Error;
use crate::instance::{created, Instance, InstanceState, InstanceView};
use crate::module::{Module, ModuleView};
use crate::region::spans_disjoint;
use crate::parallel::assigned_worker;
use crate::scheduler::batch_ready;

verus! {

/// What instantiating `module` yields: the instance on the region that the allocator
/// issues for the module's initial memory, and the allocator after it, or nothing where
/// the allocator cannot issue one.
pub open spec fn instantiated(a: AllocatorView, module: ModuleView) -> Option<
    (InstanceView, AllocatorView),
> {
    match a.acquire(module.initial_memory_size) {
        Some((region, after)) => Some((created(module, region), after)),
        None => None,
    }
}

/// Creates an instance of `module` on a region that it claims from the allocator for the
/// module's initial memory. Where no region can be had, nothing is claimed.
pub fn instantiate(allocator: &mut RegionAllocator, module: Arc<Module>) -> (result: Result<
    Instance,
    Error,
>)
    requires
        old(allocator).wf(),
        module.wf(),
    ensures
        final(allocator).wf(),
        match instantiated(old(allocator)@, (*module)@) {
            Some((instance, after)) => {
                &&& result matches Ok(made)
                &&& made@ == instance
                &&& made.wf()
                &&& final(allocator)@ == after
                &&& after.owns(instance.region)
            },
            None => {
                &&& result matches Err(e)
                &&& e == Error::OutOfMemory
                &&& final(allocator)@ == old(allocator)@
            },
        },
{
    proof {
        lemma_acquire_keeps_regions_apart(allocator@, (*module)@.initial_memory_size);
        crate::layout::lemma_round_up_is_least_aligned((*module)@.initial_memory_size);
    }
    match allocator.acquire(module.initial_memory_size()) {
        Ok(region) => Ok(Instance::create(module, region)),
        Err(e) => Err(e),
    }
}

/// Ends `instance` and gives its region back to the allocator that issued it.
pub fn retire(allocator: &mut RegionAllocator, instance: Instance)
    requires
        old(allocator).wf(),
        instance.wf(),
        old(allocator)@.owns(instance@.region),
    ensures
        final(allocator).wf(),
        final(allocator)@ == old(allocator)@.release(instance@.region),
{
    allocator.release(instance.into_region());
}

/// The modules of a list as plain values.
pub open spec fn module_views(modules: Seq<Arc<Module>>) -> Seq<ModuleView> {
    modules.map_values(|m: Arc<Module>| (*m)@)
}

/// The instances of a list as plain values.
pub open spec fn instance_views(instances: Seq<Instance>) -> Seq<InstanceView> {
    instances.map_values(|i: Instance| i@)
}

/// The allocator after the regions of `instances` have come back, the region of the last
/// instance first.
pub open spec fn release_all(a: AllocatorView, instances: Seq<InstanceView>) -> AllocatorView
    decreases instances.len(),
{
    if instances.len() == 0 {
        a
    } else {
        release_all(a.release(instances.last().region), instances.drop_last())
    }
}

/// What setting a batch up yields: one instance for each module, in the order of the
/// modules, each on a region of its own, and the allocator after it. Where the allocator
/// cannot issue a region for one of the modules there is no batch, and the regions of the
/// instances made until then have gone back to the allocator.
pub open spec fn set_up(a: AllocatorView, modules: Seq<ModuleView>) -> (
    Option<Seq<InstanceView>>,
    AllocatorView,
)
    decreases modules.len(),
{
    if modules.len() == 0 {
        (Some(Seq::empty()), a)
    } else {
        let (made, mid) = set_up(a, modules.drop_last());
        match made {
            None => (None, mid),
            Some(instances) => match instantiated(mid, modules.last()) {
                Some((instance, after)) => (Some(instances.push(instance)), after),
                None => (None, release_all(mid, instances)),
            },
        }
    }
}

/// Whether the allocator `a` has issued, since it stood at `start`, exactly the regions of
/// `instances`, each of them to one instance, and every instance is ready to run.
pub open spec fn claimed(
    start: AllocatorView,
    a: AllocatorView,
    instances: Seq<InstanceView>,
) -> bool {
    &&& a.wf()
    &&& a.capacity == start.capacity
    &&& forall|i: int|
        0 <= i < instances.len() ==> {
            &&& (#[trigger] instances[i]).wf()
            &&& instances[i].state == InstanceState::Idle
            &&& a.owns(instances[i].region)
            &&& !start.live.contains_key(instances[i].region.base)
        }
    &&& forall|i: int, j: int|
        0 <= i < j < instances.len() ==> (#[trigger] instances[i]).region.base != (
        #[trigger] instances[j]).region.base
    &&& forall|b: nat| #[trigger]
        start.live.contains_key(b) ==> a.live.contains_key(b) && a.live[b] == start.live[b]
    &&& forall|b: nat| #[trigger]
        a.live.contains_key(b) ==> start.live.contains_key(b) || exists|i: int|
            0 <= i < instances.len() && (#[trigger] instances[i]).region.base == b
}

/// Giving back the regions of everything claimed leaves the allocator with exactly the
/// regions live that were live at the start.
pub proof fn lemma_release_all_unclaims(
    start: AllocatorView,
    a: AllocatorView,
    instances: Seq<InstanceView>,
)
    requires
        claimed(start, a, instances),
    ensures
        release_all(a, instances).wf(),
        release_all(a, instances).live == start.live,
        release_all(a, instances).capacity == start.capacity,
    decreases instances.len(),
{
    if instances.len() == 0 {
        assert forall|b: nat| a.live.contains_key(b) implies start.live.contains_key(b) by {}
        assert(a.live =~= start.live);
    } else {
        let last = instances.last();
        let rest = instances.drop_last();
        let next = a.release(last.region);
        assert(instances[instances.len() - 1].wf());
        lemma_release_keeps_invariant(a, last.region);
        assert forall|i: int| 0 <= i < rest.len() implies {
            &&& (#[trigger] rest[i]).wf()
            &&& rest[i].state == InstanceState::Idle
            &&& next.owns(rest[i].region)
            &&& !start.live.contains_key(rest[i].region.base)
        } by {
            assert(rest[i] == instances[i]);
            assert(instances[i].region.base != instances[instances.len() - 1].region.base);
        }
        assert forall|i: int, j: int| 0 <= i < j < rest.len() implies (#[trigger] rest[i]).region.base
            != (#[trigger] rest[j]).region.base by {
            assert(rest[i] == instances[i]);
            assert(rest[j] == instances[j]);
        }
        assert forall|b: nat| #[trigger] next.live.contains_key(b) implies start.live.contains_key(b)
            || exists|i: int| 0 <= i < rest.len() && (#[trigger] rest[i]).region.base == b by {
            assert(a.live.contains_key(b));
            if !start.live.contains_key(b) {
                let i = choose|i: int|
                    0 <= i < instances.len() && (#[trigger] instances[i]).region.base == b;
                assert(i < rest.len());
                assert(rest[i] == instances[i]);
            }
        }
        lemma_release_all_unclaims(start, next, rest);
    }
}

/// Setting a batch up claims one region for each instance and no other, or none at all:
/// a batch that is made has its instances ready to run, each owning a region that no
/// other instance and no earlier holder has; a batch that cannot be made leaves exactly
/// the regions live that were live before.
pub proof fn lemma_set_up_claims_all_or_nothing(start: AllocatorView, modules: Seq<ModuleView>)
    requires
        start.wf(),
        forall|i: int| 0 <= i < modules.len() ==> (#[trigger] modules[i]).wf(),
    ensures
        match set_up(start, modules) {
            (Some(instances), a) => {
                &&& claimed(start, a, instances)
                &&& instances.len() == modules.len()
                &&& forall|i: int|
                    0 <= i < instances.len() ==> (#[trigger] instances[i]).module == modules[i]
            },
            (None, a) => a.wf() && a.live == start.live && a.capacity == start.capacity,
        },
    decreases modules.len(),
{
    if modules.len() == 0 {
    } else {
        let front = modules.drop_last();
        assert forall|i: int| 0 <= i < front.len() implies (#[trigger] front[i]).wf() by {
            assert(front[i] == modules[i]);
        }
        lemma_set_up_claims_all_or_nothing(start, front);
        let (made, mid) = set_up(start, front);
        match made {
            None => {},
            Some(instances) => {
                let module = modules.last();
                assert(modules[modules.len() - 1].wf());
                match instantiated(mid, module) {
                    Some((instance, after)) => {
                        lemma_claim_one_more(start, mid, instances, module);
                        assert forall|i: int| 0 <= i < instances.len() + 1 implies (
                        #[trigger] instances.push(instance)[i]).module == modules[i] by {
                            if i < instances.len() {
                                assert(instances.push(instance)[i] == instances[i]);
                                assert(front[i] == modules[i]);
                            }
                        }
                    },
                    None => {
                        lemma_release_all_unclaims(start, mid, instances);
                    },
                }
            },
        }
    }
}

/// One more instance on a region of its own keeps the claims in order.
proof fn lemma_claim_one_more(
    start: AllocatorView,
    mid: AllocatorView,
    instances: Seq<InstanceView>,
    module: ModuleView,
)
    requires
        claimed(start, mid, instances),
        module.wf(),
        instantiated(mid, module) is Some,
    ensures
        claimed(
            start,
            instantiated(mid, module)->Some_0.1,
            instances.push(instantiated(mid, module)->Some_0.0),
        ),
{
    let (instance, after) = instantiated(mid, module)->Some_0;
    let all = instances.push(instance);
    lemma_acquire_keeps_regions_apart(mid, module.initial_memory_size);
    crate::layout::lemma_round_up_is_least_aligned(module.initial_memory_size);
    let region = mid.acquire(module.initial_memory_size)->Some_0.0;
    assert(instance.region.base == region.base && instance.region.size == region.size);
    assert(instance.wf());
    assert(!start.live.contains_key(region.base)) by {
        if start.live.contains_key(region.base) {
            assert(mid.live.contains_key(region.base));
        }
    }
    assert forall|i: int| 0 <= i < all.len() implies {
        &&& (#[trigger] all[i]).wf()
        &&& all[i].state == InstanceState::Idle
        &&& after.owns(all[i].region)
        &&& !start.live.contains_key(all[i].region.base)
    } by {
        if i < instances.len() {
            assert(all[i] == instances[i]);
            assert(mid.owns(instances[i].region));
        }
    }
    assert forall|i: int, j: int| 0 <= i < j < all.len() implies (#[trigger] all[i]).region.base != (
    #[trigger] all[j]).region.base by {
        assert(all[i] == instances[i]);
        assert(mid.owns(instances[i].region));
        if j < instances.len() {
            assert(all[j] == instances[j]);
        }
    }
    assert forall|b: nat| #[trigger] start.live.contains_key(b) implies after.live.contains_key(b)
        && after.live[b] == start.live[b] by {
        assert(mid.live.contains_key(b));
    }
    assert forall|b: nat| #[trigger] after.live.contains_key(b) implies start.live.contains_key(b)
        || exists|i: int| 0 <= i < all.len() && (#[trigger] all[i]).region.base == b by {
        if b == region.base {
            assert(all[instances.len() as int].region.base == b);
        } else {
            assert(mid.live.contains_key(b));
            if !start.live.contains_key(b) {
                let i = choose|i: int|
                    0 <= i < instances.len() && (#[trigger] instances[i]).region.base == b;
                assert(all[i] == instances[i]);
            }
        }
    }
}

/// In a batch that was set up, two instances hold regions that share no address, guard
/// areas included. So instances that fall to different workers never give two workers a
/// way to the same region.
pub proof fn lemma_workers_never_share_a_region(
    start: AllocatorView,
    a: AllocatorView,
    instances: Seq<InstanceView>,
    workers: nat,
    i: int,
    j: int,
)
    requires
        claimed(start, a, instances),
        workers > 0,
        0 <= i < instances.len(),
        0 <= j < instances.len(),
        assigned_worker(i as nat, workers) != assigned_worker(j as nat, workers),
    ensures
        spans_disjoint(instances[i].region, instances[j].region),
{
    assert(a.owns(instances[i].region) && a.owns(instances[j].region));
    if i < j {
        assert(instances[i].region.base != instances[j].region.base);
    } else {
        assert(instances[j].region.base != instances[i].region.base);
    }
    crate::allocator::lemma_live_regions_are_apart(
        a,
        instances[i].region.base,
        instances[j].region.base,
    );
}

/// Once setting up has failed for the first `k` modules it has failed for all of them, and
/// the allocator stands as the failure left it.
proof fn lemma_failure_is_final(a: AllocatorView, modules: Seq<ModuleView>, k: int)
    requires
        0 <= k <= modules.len(),
        set_up(a, modules.take(k)).0 is None,
    ensures
        set_up(a, modules) == set_up(a, modules.take(k)),
    decreases modules.len() - k,
{
    if k < modules.len() {
        assert(modules.take(k + 1).drop_last() =~= modules.take(k));
        lemma_failure_is_final(a, modules, k + 1);
    } else {
        assert(modules.take(k) =~= modules);
    }
}

/// Ends every instance of the list and gives its region back to the allocator that issued
/// it, the region of the last instance first.
pub fn retire_batch(allocator: &mut RegionAllocator, instances: Vec<Instance>)
    requires
        old(allocator).wf(),
        forall|i: int|
            0 <= i < instances@.len() ==> (#[trigger] instances@[i]).wf() && old(allocator)@.owns(
                instances@[i]@.region,
            ),
        forall|i: int, j: int|
            0 <= i < j < instances@.len() ==> (#[trigger] instances@[i])@.region.base != (
            #[trigger] instances@[j])@.region.base,
    ensures
        final(allocator).wf(),
        final(allocator)@ == release_all(old(allocator)@, instance_views(instances@)),
{
    let mut rest = instances;
    let ghost all = instance_views(instances@);
    while rest.len() > 0
        invariant
            allocator.wf(),
            forall|i: int|
                0 <= i < rest@.len() ==> (#[trigger] rest@[i]).wf() && allocator@.owns(
                    rest@[i]@.region,
                ),
            forall|i: int, j: int|
                0 <= i < j < rest@.len() ==> (#[trigger] rest@[i])@.region.base != (
                #[trigger] rest@[j])@.region.base,
            release_all(allocator@, instance_views(rest@)) == release_all(old(allocator)@, all),
        decreases rest@.len(),
    {
        let ghost before = rest@;
        let ghost views = instance_views(rest@);
        let instance = rest.pop().unwrap();
        assert(instance == before[before.len() - 1]);
        assert(before[before.len() - 1].wf());
        assert(views.last() == instance@);
        assert(instance_views(rest@) =~= views.drop_last());
        retire(allocator, instance);
        proof {
            assert forall|i: int| 0 <= i < rest@.len() implies (#[trigger] rest@[i]).wf()
                && allocator@.owns(rest@[i]@.region) by {
                assert(rest@[i] == before[i]);
                assert(before[i]@.region.base != before[before.len() - 1]@.region.base);
            }
            assert forall|i: int, j: int| 0 <= i < j < rest@.len() implies (#[trigger] rest@[i])@.region.base
                != (#[trigger] rest@[j])@.region.base by {
                assert(rest@[i] == before[i]);
                assert(rest@[j] == before[j]);
            }
        }
    }
    assert(instance_views(rest@) =~= Seq::empty());
}

/// Sets a batch up: one instance for each module of the list, in the order of the list,
/// each on a region that it claims from the allocator. Where a region cannot be had the
/// batch fails as a whole: the instances made until then are retired, so that nothing
/// stays claimed.
pub fn instantiate_batch(allocator: &mut RegionAllocator, modules: Vec<Arc<Module>>) -> (result:
    Result<Vec<Instance>, Error>)
    requires
        old(allocator).wf(),
        forall|i: int| 0 <= i < modules@.len() ==> (#[trigger] modules@[i]).wf(),
    ensures
        final(allocator).wf(),
        match set_up(old(allocator)@, module_views(modules@)) {
            (Some(views), after) => {
                &&& result matches Ok(instances)
                &&& instance_views(instances@) == views
                &&& batch_ready(instances@)
                &&& claimed(old(allocator)@, after, views)
                &&& final(allocator)@ == after
            },
            (None, after) => {
                &&& result matches Err(e)
                &&& e == Error::OutOfMemory
                &&& final(allocator)@ == after
                &&& after.live == old(allocator)@.live
            },
        },
{
    let ghost start = allocator@;
    let ghost all = modules@;
    let ghost plan = module_views(modules@);
    let mut instances: Vec<Instance> = Vec::new();
    proof {
        assert(plan.take(0) =~= Seq::empty());
        assert(instance_views(instances@) =~= Seq::empty());
        assert forall|i: int| 0 <= i < plan.len() implies (#[trigger] plan[i]).wf() by {
            assert(all[i].wf());
        }
        lemma_set_up_claims_all_or_nothing(start, plan);
    }
    for module in it: modules
        invariant
            it.seq() == all,
            plan == module_views(all),
            start == old(allocator)@,
            start.wf(),
            forall|i: int| 0 <= i < plan.len() ==> (#[trigger] plan[i]).wf(),
            allocator.wf(),
            instances@.len() == it.index(),
            set_up(start, plan.take(it.index() as int)) == (
                Some(instance_views(instances@)),
                allocator@,
            ),
            claimed(start, allocator@, instance_views(instances@)),
    {
        let ghost k = instances@.len() as int;
        let ghost mid = allocator@;
        let ghost made = instance_views(instances@);
        proof {
            assert(plan[k] == (*module)@);
            assert(plan[k].wf());
            assert(plan.take(k + 1).drop_last() =~= plan.take(k));
            assert(plan.take(k + 1).last() == plan[k]);
            if instantiated(mid, plan[k]) is Some {
                lemma_claim_one_more(start, mid, made, plan[k]);
            }
        }
        match instantiate(allocator, module) {
            Ok(instance) => {
                instances.push(instance);
                assert(instance_views(instances@) =~= made.push(instance@));
            },
            Err(e) => {
                proof {
                    lemma_failure_is_final(start, plan, k + 1);
                    lemma_release_all_unclaims(start, mid, made);
                    assert forall|i: int| 0 <= i < instances@.len() implies (
                    #[trigger] instances@[i]).wf() && allocator@.owns(instances@[i]@.region) by {
                        assert(made[i].wf());
                    }
                    assert forall|i: int, j: int| 0 <= i < j < instances@.len() implies (
                    #[trigger] instances@[i])@.region.base != (#[trigger] instances@[j])@.region.base by {
                        assert(made[i].region.base != made[j].region.base);
                    }
                }
                retire_batch(allocator, instances);
                return Err(e);
            },
        }
    }
    proof {
        assert(plan.take(plan.len() as int) =~= plan);
        assert forall|i: int| 0 <= i < instances@.len() implies (#[trigger] instances@[i]).wf()
            && instances@[i]@.state == InstanceState::Idle by {
            assert(instance_views(instances@)[i].wf());
        }
    }
    Ok(instances)
}

} // verus!
