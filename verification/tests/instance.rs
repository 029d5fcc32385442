use sandbox_core::{
    CallDescriptor, Error, HostReply, Instance, InstanceState, Instr, Module, RegionAllocator,
    RunOutcome, TrapReason, STACK_LIMIT,
};
use std::sync::Arc;

fn module_of(code: Vec<Instr>, image: Vec<u8>, imports: Vec<usize>) -> Arc<Module> {
    Arc::new(Module::new(code, image, 4096, 8192, 0, imports).unwrap())
}

fn instance_of(code: Vec<Instr>) -> Instance {
    let mut allocator = RegionAllocator::new(1 << 20);
    let region = allocator.acquire(4096).unwrap();
    Instance::create(module_of(code, vec![], vec![]), region)
}

#[test]
fn module_parts_are_validated() {
    let code = vec![Instr::Return];
    assert!(Module::new(code.clone(), vec![0; 10], 10, 10, 0, vec![]).is_some());
    assert!(Module::new(code.clone(), vec![0; 11], 10, 10, 0, vec![]).is_none());
    assert!(Module::new(code.clone(), vec![], 11, 10, 0, vec![]).is_none());
    assert!(Module::new(code.clone(), vec![], 0, 0, 1, vec![]).is_none());
    assert!(Module::new(vec![], vec![], 0, 0, 0, vec![]).is_none());
    let module = Module::new(code, vec![5, 6], 100, 200, 0, vec![2, 0]).unwrap();
    assert_eq!(module.code().len(), 1);
    assert_eq!(module.image(), &vec![5u8, 6]);
    assert_eq!(module.initial_memory_size(), 100);
    assert_eq!(module.max_memory_size(), 200);
    assert_eq!(module.entry(), 0);
    assert_eq!(module.arity(0), Some(2));
    assert_eq!(module.arity(1), Some(0));
    assert_eq!(module.arity(2), None);
}

#[test]
fn immediate_return_yields_returned_over_the_initial_image() {
    let mut allocator = RegionAllocator::new(1 << 20);
    // Dirty the region first, so that the image has something to overwrite.
    let mut region = allocator.acquire(8192).unwrap();
    for offset in 0..8192u64 {
        assert!(region.write(offset, 0xEE));
    }
    allocator.release(region);
    let region = allocator.acquire(8192).unwrap();
    assert_eq!(region.read(100), Some(0xEE));
    let module = module_of(vec![Instr::Return], vec![9, 8, 7], vec![]);
    let mut instance = Instance::create(module, region);
    assert_eq!(instance.state(), InstanceState::Idle);
    let mut expected = vec![0u8; 8192];
    expected[0] = 9;
    expected[1] = 8;
    expected[2] = 7;
    assert_eq!(instance.memory(), &expected);
    assert_eq!(instance.run(), RunOutcome::Returned(0));
    assert_eq!(instance.state(), InstanceState::Returned);
    assert_eq!(instance.memory(), &expected);
    assert_eq!(instance.region().generation(), 1);
}

#[test]
fn entry_point_is_where_the_run_starts() {
    let code = vec![Instr::Unreachable, Instr::Const(5), Instr::Return];
    let module = Arc::new(Module::new(code, vec![], 0, 0, 1, vec![]).unwrap());
    let mut allocator = RegionAllocator::new(1 << 20);
    let region = allocator.acquire(0).unwrap();
    let mut instance = Instance::create(module, region);
    assert_eq!(instance.run(), RunOutcome::Returned(5));
}

#[test]
fn addition_wraps_at_64_bits() {
    let mut instance =
        instance_of(vec![Instr::Const(u64::MAX), Instr::Const(3), Instr::Add, Instr::Return]);
    assert_eq!(instance.run(), RunOutcome::Returned(2));
    let mut instance = instance_of(vec![
        Instr::Const(1),
        Instr::Const(20),
        Instr::Const(300),
        Instr::Add,
        Instr::Add,
        Instr::Return,
    ]);
    assert_eq!(instance.run(), RunOutcome::Returned(321));
}

#[test]
fn drop_pops_one_word() {
    let mut instance =
        instance_of(vec![Instr::Const(1), Instr::Const(2), Instr::Drop, Instr::Return]);
    assert_eq!(instance.run(), RunOutcome::Returned(1));
}

#[test]
fn store_then_load_round_trips_the_low_byte() {
    let mut instance = instance_of(vec![
        Instr::Const(10),
        Instr::Const(0x1234),
        Instr::Store { offset: 5 },
        Instr::Const(15),
        Instr::Load { offset: 0 },
        Instr::Return,
    ]);
    assert_eq!(instance.run(), RunOutcome::Returned(0x34));
    assert_eq!(instance.memory()[15], 0x34);
    assert_eq!(instance.memory().iter().filter(|byte| **byte != 0).count(), 1);
}

#[test]
fn last_committed_byte_is_in_bounds() {
    let mut instance = instance_of(vec![
        Instr::Const(4000),
        Instr::Const(0xFF),
        Instr::Store { offset: 95 },
        Instr::Const(4095),
        Instr::Load { offset: 0 },
        Instr::Return,
    ]);
    assert_eq!(instance.run(), RunOutcome::Returned(0xFF));
}

#[test]
fn access_past_the_boundary_traps_at_every_distance() {
    let distances: [u64; 9] =
        [0, 1, 4095, 4096, 4097, 8192, 1 << 20, 1 << 40, u64::MAX - 4096];
    for distance in distances {
        let mut load =
            instance_of(vec![Instr::Const(4096), Instr::Load { offset: distance }, Instr::Return]);
        assert_eq!(load.run(), RunOutcome::Trapped(TrapReason::OutOfBounds));
        assert_eq!(load.state(), InstanceState::Trapped);
        let mut store = instance_of(vec![
            Instr::Const(4096 + distance),
            Instr::Const(0xFF),
            Instr::Store { offset: 0 },
            Instr::Return,
        ]);
        assert_eq!(store.run(), RunOutcome::Trapped(TrapReason::OutOfBounds));
        assert!(store.memory().iter().all(|byte| *byte == 0));
    }
}

#[test]
fn address_that_overflows_traps() {
    let mut instance =
        instance_of(vec![Instr::Const(u64::MAX), Instr::Load { offset: 2 }, Instr::Return]);
    assert_eq!(instance.run(), RunOutcome::Trapped(TrapReason::OutOfBounds));
    let mut instance = instance_of(vec![
        Instr::Const(1),
        Instr::Const(7),
        Instr::Store { offset: u64::MAX },
        Instr::Return,
    ]);
    assert_eq!(instance.run(), RunOutcome::Trapped(TrapReason::OutOfBounds));
    assert!(instance.memory().iter().all(|byte| *byte == 0));
}

#[test]
fn out_of_bounds_access_leaves_the_neighbour_alone() {
    let mut allocator = RegionAllocator::new(1 << 20);
    let module = module_of(
        vec![Instr::Const(4096 + 4096 + 4096), Instr::Const(1), Instr::Store { offset: 0 }, Instr::Return],
        vec![],
        vec![],
    );
    let first = allocator.acquire(4096).unwrap();
    let second = allocator.acquire(4096).unwrap();
    // The place that the guest aims at is the first byte of the neighbour.
    assert_eq!(first.base() + 4096 + 4096 + 4096, second.base());
    let mut guest = Instance::create(module.clone(), first);
    let neighbour = Instance::create(module, second);
    assert_eq!(guest.run(), RunOutcome::Trapped(TrapReason::OutOfBounds));
    assert!(neighbour.memory().iter().all(|byte| *byte == 0));
    assert!(guest.memory().iter().all(|byte| *byte == 0));
}

#[test]
fn illegal_instructions_trap() {
    let mut instance = instance_of(vec![Instr::Unreachable]);
    assert_eq!(instance.run(), RunOutcome::Trapped(TrapReason::IllegalInstruction));
    // Running past the end of the code.
    let mut instance = instance_of(vec![Instr::Const(1)]);
    assert_eq!(instance.run(), RunOutcome::Trapped(TrapReason::IllegalInstruction));
    // A host call that the module does not import.
    let mut instance = instance_of(vec![Instr::HostCall { index: 0 }, Instr::Return]);
    assert_eq!(instance.run(), RunOutcome::Trapped(TrapReason::IllegalInstruction));
}

#[test]
fn stack_overflow_traps() {
    let mut code = vec![Instr::Const(1); STACK_LIMIT];
    code.push(Instr::Return);
    let mut instance = instance_of(code);
    assert_eq!(instance.run(), RunOutcome::Returned(1));
    let mut code = vec![Instr::Const(1); STACK_LIMIT + 1];
    code.push(Instr::Return);
    let mut instance = instance_of(code);
    assert_eq!(instance.run(), RunOutcome::Trapped(TrapReason::StackOverflow));
}

#[test]
fn stack_underflow_traps() {
    for code in [
        vec![Instr::Add],
        vec![Instr::Const(1), Instr::Add],
        vec![Instr::Drop],
        vec![Instr::Load { offset: 0 }],
        vec![Instr::Const(1), Instr::Store { offset: 0 }],
    ] {
        let mut instance = instance_of(code);
        assert_eq!(instance.run(), RunOutcome::Trapped(TrapReason::StackUnderflow));
    }
    let mut allocator = RegionAllocator::new(1 << 20);
    let region = allocator.acquire(4096).unwrap();
    let module = module_of(vec![Instr::Const(1), Instr::HostCall { index: 0 }], vec![], vec![2]);
    let mut instance = Instance::create(module, region);
    assert_eq!(instance.run(), RunOutcome::Trapped(TrapReason::StackUnderflow));
}

fn calling_instance() -> Instance {
    let mut allocator = RegionAllocator::new(1 << 20);
    let region = allocator.acquire(4096).unwrap();
    let module = module_of(
        vec![
            Instr::Const(100),
            Instr::Const(11),
            Instr::Const(22),
            Instr::HostCall { index: 1 },
            Instr::Add,
            Instr::Return,
        ],
        vec![],
        vec![0, 2],
    );
    Instance::create(module, region)
}

#[test]
fn host_call_yields_then_resumes_with_the_reply() {
    let mut instance = calling_instance();
    let outcome = instance.run();
    assert_eq!(
        outcome,
        RunOutcome::YieldedToHost(CallDescriptor { index: 1, args: vec![11, 22] })
    );
    assert!(!outcome.is_terminal());
    assert_eq!(instance.state(), InstanceState::YieldedToHost);
    let outcome = instance.resume(HostReply::Value(5)).unwrap();
    assert_eq!(outcome, RunOutcome::Returned(105));
    assert!(outcome.is_terminal());
    assert_eq!(instance.state(), InstanceState::Returned);
}

#[test]
fn host_failure_becomes_a_trap() {
    let mut instance = calling_instance();
    instance.run();
    let outcome = instance.resume(HostReply::Failure).unwrap();
    assert_eq!(outcome, RunOutcome::Trapped(TrapReason::HostCallFailure));
    assert_eq!(instance.state(), InstanceState::Trapped);
    assert_eq!(instance.resume(HostReply::Value(1)), Err(Error::InvalidResume));
}

#[test]
fn reply_on_a_full_stack_overflows() {
    let mut code = vec![Instr::Const(1); STACK_LIMIT];
    code.push(Instr::HostCall { index: 0 });
    code.push(Instr::Return);
    let mut allocator = RegionAllocator::new(1 << 20);
    let region = allocator.acquire(4096).unwrap();
    let mut instance = Instance::create(module_of(code, vec![], vec![0]), region);
    assert_eq!(
        instance.run(),
        RunOutcome::YieldedToHost(CallDescriptor { index: 0, args: vec![] })
    );
    assert_eq!(
        instance.resume(HostReply::Value(9)),
        Ok(RunOutcome::Trapped(TrapReason::StackOverflow))
    );
}

#[test]
fn resume_is_refused_unless_the_instance_waits_for_the_host() {
    let mut instance = instance_of(vec![Instr::Const(4), Instr::Return]);
    assert_eq!(instance.resume(HostReply::Value(1)), Err(Error::InvalidResume));
    assert_eq!(instance.state(), InstanceState::Idle);
    assert_eq!(instance.run(), RunOutcome::Returned(4));
    assert_eq!(instance.resume(HostReply::Value(1)), Err(Error::InvalidResume));
    assert_eq!(instance.resume(HostReply::Failure), Err(Error::InvalidResume));
    assert_eq!(instance.state(), InstanceState::Returned);
    let mut trapped = instance_of(vec![Instr::Unreachable]);
    trapped.run();
    assert_eq!(trapped.resume(HostReply::Value(1)), Err(Error::InvalidResume));
    assert_eq!(trapped.state(), InstanceState::Trapped);
}

#[test]
fn reset_then_run_repeats_the_outcomes() {
    let mut allocator = RegionAllocator::new(1 << 20);
    let region = allocator.acquire(4096).unwrap();
    let module = module_of(
        vec![
            Instr::Const(0),
            Instr::Load { offset: 0 },
            Instr::Const(0),
            Instr::Const(77),
            Instr::Store { offset: 0 },
            Instr::HostCall { index: 0 },
            Instr::Add,
            Instr::Return,
        ],
        vec![3],
        vec![0],
    );
    let mut instance = Instance::create(module, region);
    let initial = instance.memory().clone();
    let mut seen: Vec<Vec<RunOutcome>> = Vec::new();
    for _ in 0..3 {
        assert_eq!(instance.state(), InstanceState::Idle);
        assert_eq!(instance.memory(), &initial);
        let first = instance.run();
        let second = instance.resume(HostReply::Value(10)).unwrap();
        assert_eq!(instance.memory()[0], 77);
        seen.push(vec![first, second]);
        instance.reset();
    }
    assert_eq!(
        seen[0],
        vec![
            RunOutcome::YieldedToHost(CallDescriptor { index: 0, args: vec![] }),
            RunOutcome::Returned(13),
        ]
    );
    assert_eq!(seen[1], seen[0]);
    assert_eq!(seen[2], seen[0]);
}

#[test]
fn trap_ends_only_the_run() {
    let mut instance = instance_of(vec![
        Instr::Const(3),
        Instr::Const(1),
        Instr::Store { offset: 0 },
        Instr::Const(4096),
        Instr::Load { offset: 0 },
        Instr::Return,
    ]);
    for _ in 0..2 {
        assert_eq!(instance.run(), RunOutcome::Trapped(TrapReason::OutOfBounds));
        assert_eq!(instance.state(), InstanceState::Trapped);
        assert_eq!(instance.memory()[3], 1);
        instance.reset();
        assert_eq!(instance.state(), InstanceState::Idle);
        assert!(instance.memory().iter().all(|byte| *byte == 0));
    }
}

#[test]
fn reset_in_the_middle_of_a_host_call_makes_the_instance_idle() {
    let mut instance = calling_instance();
    instance.run();
    instance.reset();
    assert_eq!(instance.state(), InstanceState::Idle);
    assert_eq!(instance.resume(HostReply::Value(1)), Err(Error::InvalidResume));
    assert_eq!(
        instance.run(),
        RunOutcome::YieldedToHost(CallDescriptor { index: 1, args: vec![11, 22] })
    );
}

#[test]
fn instance_hands_its_region_back() {
    let mut allocator = RegionAllocator::new(1 << 20);
    let region = allocator.acquire(4096).unwrap();
    let base = region.base();
    let module = module_of(
        vec![Instr::Const(0), Instr::Const(5), Instr::Store { offset: 0 }, Instr::Return],
        vec![],
        vec![],
    );
    let mut instance = Instance::create(module.clone(), region);
    assert!(Arc::ptr_eq(instance.module(), &module));
    instance.run();
    let region = instance.into_region();
    assert_eq!(region.base(), base);
    assert_eq!(region.read(0), Some(5));
    allocator.release(region);
    assert_eq!(allocator.pooled(), 1);
}
