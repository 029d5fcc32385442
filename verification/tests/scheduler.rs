use sandbox_core::{
    complete, ensure_linked, instantiate, instantiate_batch, retire, retire_batch, run_parallel,
    run_sequential, worker_count, worker_of, CallDescriptor, Error, HostReply, Instance,
    InstanceState, Instr, Module, OutcomeBoard, RegionAllocator, RunOutcome, TrapReason,
};
use std::sync::Arc;

fn adder(a: u64, b: u64) -> Arc<Module> {
    let code = vec![Instr::Const(a), Instr::Const(b), Instr::Add, Instr::Return];
    Arc::new(Module::new(code, vec![], 4096, 4096, 0, vec![]).unwrap())
}

fn caller(word: u64) -> Arc<Module> {
    let code = vec![Instr::Const(word), Instr::HostCall { index: 0 }, Instr::Return];
    Arc::new(Module::new(code, vec![], 4096, 4096, 0, vec![1]).unwrap())
}

fn trapper() -> Arc<Module> {
    let code = vec![Instr::Const(1 << 30), Instr::Load { offset: 0 }, Instr::Return];
    Arc::new(Module::new(code, vec![], 4096, 4096, 0, vec![]).unwrap())
}

fn no_host(_call: &CallDescriptor, _requester: &Instance) -> HostReply {
    HostReply::Failure
}

fn echo(call: &CallDescriptor, _requester: &Instance) -> HostReply {
    match call.args.first() {
        Some(word) => HostReply::Value(*word),
        None => HostReply::Failure,
    }
}

fn batch_of(modules: Vec<Arc<Module>>) -> (RegionAllocator, Vec<Instance>) {
    let mut allocator = RegionAllocator::new(1 << 30);
    let instances = instantiate_batch(&mut allocator, modules).unwrap();
    (allocator, instances)
}

#[test]
fn thousand_adders_return_their_sums_in_order() {
    let modules: Vec<Arc<Module>> = vec![adder(19, 23); 1000];
    let expected = vec![RunOutcome::Returned(42); 1000];
    let (_, mut instances) = batch_of(modules.clone());
    assert_eq!(run_sequential(&mut instances, &no_host), expected);
    let (_, mut instances) = batch_of(modules);
    assert_eq!(run_parallel(&mut instances, 8, &no_host), expected);
    assert!(instances.iter().all(|i| i.state() == InstanceState::Returned));
}

#[test]
fn outcomes_come_in_the_order_of_the_instances() {
    let modules: Vec<Arc<Module>> = (0..1000u64).map(|i| adder(i, 1_000_000)).collect();
    let expected: Vec<RunOutcome> =
        (0..1000u64).map(|i| RunOutcome::Returned(i + 1_000_000)).collect();
    let (_, mut instances) = batch_of(modules.clone());
    assert_eq!(run_sequential(&mut instances, &no_host), expected);
    for degree in [0usize, 1, 2, 3, 7, 8, 64, 999, 1000, 1001, usize::MAX] {
        let (_, mut instances) = batch_of(modules.clone());
        assert_eq!(run_parallel(&mut instances, degree, &no_host), expected);
    }
}

#[test]
fn empty_batch_gives_no_outcomes() {
    let mut instances: Vec<Instance> = Vec::new();
    assert_eq!(run_sequential(&mut instances, &no_host), vec![]);
    assert_eq!(run_parallel(&mut instances, 4, &no_host), vec![]);
    assert_eq!(run_parallel(&mut instances, 0, &no_host), vec![]);
}

#[test]
fn echoing_host_gives_the_argument_back() {
    let (_, mut instances) = batch_of(vec![caller(0xC0FFEE)]);
    assert_eq!(run_sequential(&mut instances, &echo), vec![RunOutcome::Returned(0xC0FFEE)]);
    let (_, mut instances) = batch_of(vec![caller(7), caller(8), caller(9)]);
    assert_eq!(
        run_parallel(&mut instances, 2, &echo),
        vec![RunOutcome::Returned(7), RunOutcome::Returned(8), RunOutcome::Returned(9)]
    );
    let mut allocator = RegionAllocator::new(1 << 20);
    let mut instance = instantiate(&mut allocator, caller(31)).unwrap();
    assert_eq!(complete(&mut instance, &echo), RunOutcome::Returned(31));
}

#[test]
fn trap_does_not_abort_the_batch() {
    let modules = vec![adder(1, 2), trapper(), caller(5), adder(3, 4)];
    let expected = vec![
        RunOutcome::Returned(3),
        RunOutcome::Trapped(TrapReason::OutOfBounds),
        RunOutcome::Trapped(TrapReason::HostCallFailure),
        RunOutcome::Returned(7),
    ];
    let (_, mut instances) = batch_of(modules.clone());
    assert_eq!(run_sequential(&mut instances, &no_host), expected);
    assert_eq!(instances[1].state(), InstanceState::Trapped);
    assert_eq!(instances[3].state(), InstanceState::Returned);
    let (_, mut instances) = batch_of(modules);
    assert_eq!(run_parallel(&mut instances, 3, &no_host), expected);
}

#[test]
fn every_host_call_of_a_run_is_served() {
    let code = vec![
        Instr::Const(1),
        Instr::HostCall { index: 0 },
        Instr::HostCall { index: 0 },
        Instr::Const(5),
        Instr::Const(6),
        Instr::HostCall { index: 1 },
        Instr::Add,
        Instr::Return,
    ];
    let module = Arc::new(Module::new(code, vec![], 0, 0, 0, vec![1, 2]).unwrap());
    let host = |call: &CallDescriptor, _requester: &Instance| match call.index {
        0 => HostReply::Value(call.args[0] * 10),
        1 => HostReply::Value(call.args[0] + call.args[1]),
        _ => HostReply::Failure,
    };
    let (_, mut instances) = batch_of(vec![module.clone(), module]);
    assert_eq!(
        run_sequential(&mut instances, &host),
        vec![RunOutcome::Returned(111), RunOutcome::Returned(111)]
    );
}

#[test]
fn host_sees_the_instance_that_asks() {
    // The guest stores a byte, then passes its address; the host reads the byte from the
    // memory of the instance that asks.
    let code = vec![
        Instr::Const(40),
        Instr::Const(0x5A),
        Instr::Store { offset: 2 },
        Instr::Const(42),
        Instr::HostCall { index: 0 },
        Instr::Return,
    ];
    let module = Arc::new(Module::new(code, vec![], 4096, 4096, 0, vec![1]).unwrap());
    let peek = |call: &CallDescriptor, requester: &Instance| {
        assert_eq!(requester.state(), InstanceState::YieldedToHost);
        match requester.memory().get(call.args[0] as usize) {
            Some(byte) => HostReply::Value(*byte as u64),
            None => HostReply::Failure,
        }
    };
    let (_, mut instances) = batch_of(vec![module.clone(), adder(1, 1), module]);
    let expected =
        vec![RunOutcome::Returned(0x5A), RunOutcome::Returned(2), RunOutcome::Returned(0x5A)];
    assert_eq!(run_sequential(&mut instances, &peek), expected);
    for instance in instances.iter_mut() {
        instance.reset();
    }
    assert_eq!(run_parallel(&mut instances, 2, &peek), expected);
}

#[test]
fn instances_are_dealt_out_in_turn() {
    assert_eq!(worker_count(1000, 8), 8);
    assert_eq!(worker_count(3, 8), 3);
    assert_eq!(worker_count(8, 8), 8);
    assert_eq!(worker_count(0, 8), 1);
    assert_eq!(worker_count(5, 0), 1);
    assert_eq!(worker_count(5, 1), 1);
    assert_eq!(worker_of(0, 8), 0);
    assert_eq!(worker_of(7, 8), 7);
    assert_eq!(worker_of(8, 8), 0);
    assert_eq!(worker_of(1003, 8), 3);
    let mut shares = vec![0usize; 8];
    for index in 0..1000 {
        shares[worker_of(index, 8)] += 1;
    }
    assert_eq!(shares, vec![125; 8]);
}

#[test]
fn board_orders_outcomes_whatever_the_order_of_posting() {
    let orders: [[usize; 5]; 4] =
        [[0, 1, 2, 3, 4], [4, 3, 2, 1, 0], [2, 0, 4, 1, 3], [3, 4, 0, 2, 1]];
    for order in orders {
        let mut board = OutcomeBoard::new(5);
        assert_eq!(board.len(), 5);
        for (posted, index) in order.iter().enumerate() {
            assert!(!board.is_complete());
            assert!(board.record(*index, RunOutcome::Returned(*index as u64 * 10)));
            assert_eq!(posted + 1 == 5, board.is_complete());
        }
        let expected: Vec<RunOutcome> = (0..5u64).map(|i| RunOutcome::Returned(i * 10)).collect();
        assert_eq!(board.into_outcomes(), expected);
    }
}

#[test]
fn board_refuses_a_second_post_and_a_post_out_of_range() {
    let mut board = OutcomeBoard::new(2);
    assert!(board.record(1, RunOutcome::Returned(1)));
    assert!(!board.record(1, RunOutcome::Returned(2)));
    assert!(!board.record(2, RunOutcome::Returned(3)));
    assert!(!board.record(usize::MAX, RunOutcome::Returned(3)));
    assert!(!board.is_complete());
    assert!(board.record(0, RunOutcome::Trapped(TrapReason::StackOverflow)));
    assert!(board.is_complete());
    assert_eq!(
        board.into_outcomes(),
        vec![RunOutcome::Trapped(TrapReason::StackOverflow), RunOutcome::Returned(1)]
    );
    assert!(OutcomeBoard::new(0).is_complete());
    assert_eq!(OutcomeBoard::new(0).into_outcomes(), vec![]);
}

#[test]
fn batch_set_up_gives_each_instance_a_region_of_its_own() {
    let mut allocator = RegionAllocator::new(1 << 20);
    let big = Arc::new(Module::new(vec![Instr::Return], vec![1; 5000], 5000, 9000, 0, vec![]).unwrap());
    let instances = instantiate_batch(&mut allocator, vec![adder(1, 1), big, adder(2, 2)]).unwrap();
    assert_eq!(instances.len(), 3);
    assert_eq!(instances[0].region().size(), 4096);
    assert_eq!(instances[1].region().size(), 8192);
    assert_eq!(instances[1].memory()[4999], 1);
    assert_eq!(instances[1].memory()[5000], 0);
    assert!(instances[0].region().base() + 4096 + 4096 <= instances[1].region().base() - 4096);
    assert!(instances[1].region().base() + 8192 + 4096 <= instances[2].region().base() - 4096);
    assert!(instances.iter().all(|i| i.state() == InstanceState::Idle));
    retire_batch(&mut allocator, instances);
    assert_eq!(allocator.pooled(), 3);
}

#[test]
fn out_of_memory_during_set_up_fails_the_batch_and_claims_nothing() {
    // Room for two one-page regions with their guard areas, not for three.
    let mut allocator = RegionAllocator::new(2 * 3 * 4096);
    let result = instantiate_batch(&mut allocator, vec![adder(1, 1); 3]);
    assert!(matches!(result, Err(Error::OutOfMemory)));
    assert_eq!(allocator.pooled(), 2);
    assert_eq!(allocator.mapped(), 2 * 3 * 4096);
    // What was claimed on the way is free again: a batch of two fits.
    let mut instances = instantiate_batch(&mut allocator, vec![adder(1, 1); 2]).unwrap();
    assert_eq!(allocator.pooled(), 0);
    assert_eq!(
        run_sequential(&mut instances, &no_host),
        vec![RunOutcome::Returned(2), RunOutcome::Returned(2)]
    );
    assert!(matches!(instantiate(&mut allocator, adder(1, 1)), Err(Error::OutOfMemory)));
    let last = instances.pop().unwrap();
    retire(&mut allocator, last);
    assert!(instantiate(&mut allocator, adder(1, 1)).is_ok());
}

#[test]
fn instance_churn_maps_nothing_new() {
    let mut allocator = RegionAllocator::new(1 << 20);
    let module = adder(20, 22);
    let first = instantiate(&mut allocator, module.clone()).unwrap();
    let mapped = allocator.mapped();
    retire(&mut allocator, first);
    for round in 1..=100u64 {
        let mut instance = instantiate(&mut allocator, module.clone()).unwrap();
        assert_eq!(instance.region().generation(), round);
        assert_eq!(complete(&mut instance, &no_host), RunOutcome::Returned(42));
        retire(&mut allocator, instance);
    }
    assert_eq!(allocator.mapped(), mapped);
    assert_eq!(allocator.pooled(), 1);
}

#[test]
fn linking_step_can_be_taken_any_number_of_times() {
    ensure_linked();
    ensure_linked();
}
