//! The parallel path of the scheduler: instances are dealt out to workers, each instance to
//! one worker, and the outcomes are put back in the order of the instances.

use vstd::prelude::*;
use crate::board::{all_posted, OutcomeBoard, Slots};
use crate::instance::Instance;
use crate::machine::{CallDescriptor, HostReply, RunOutcome};
use crate::scheduler::{batch_completed, batch_ready, complete, completes};

verus! {

/// Number of workers that a batch of `n` instances is spread over when up to `degree`
/// workers may be active: never more than there are instances, and one where `degree` is
/// zero or the batch is empty.
pub open spec fn worker_total(n: nat, degree: nat) -> nat {
    if degree == 0 || n == 0 {
        1
    } else if degree < n {
        degree
    } else {
        n
    }
}

/// The worker that runs the instance at `index` when there are `workers` of them: the
/// instances are dealt out in turn.
pub open spec fn assigned_worker(index: nat, workers: nat) -> nat {
    index % workers
}

/// Whether the instance at `index` is in the share of `worker`.
pub open spec fn in_share(worker: nat, index: nat, workers: nat) -> bool {
    worker < workers && assigned_worker(index, workers) == worker
}

/// Every instance is in the share of a worker, and of one only: no instance, and so no
/// region, is ever in the hands of two workers.
pub proof fn lemma_one_worker_per_instance(index: nat, workers: nat)
    requires
        workers > 0,
    ensures
        in_share(assigned_worker(index, workers), index, workers),
        forall|a: nat, b: nat|
            #[trigger] in_share(a, index, workers) && #[trigger] in_share(b, index, workers) ==> a
                == b,
{
    vstd::arithmetic::div_mod::lemma_mod_bound(index as int, workers as int);
}

/// Computes [`worker_total`].
pub fn worker_count(n: usize, degree: usize) -> (workers: usize)
    ensures
        workers == worker_total(n as nat, degree as nat),
        1 <= workers,
        n > 0 ==> workers <= n,
        degree > 0 ==> workers <= degree,
{
    if degree == 0 || n == 0 {
        1
    } else if degree < n {
        degree
    } else {
        n
    }
}

/// Computes [`assigned_worker`].
pub fn worker_of(index: usize, workers: usize) -> (worker: usize)
    requires
        workers > 0,
    ensures
        worker == assigned_worker(index as nat, workers as nat),
        worker < workers,
{
    index % workers
}

/// Whether the instance at `j` has been run to completion and its outcome stands on the
/// board.
pub open spec fn served<F: Fn(&CallDescriptor, &Instance) -> HostReply>(
    before: Seq<Instance>,
    dispatch: F,
    board: Slots,
    after: Seq<Instance>,
    j: int,
) -> bool {
    &&& after[j].wf()
    &&& board[j] matches Some(outcome)
    &&& outcome.is_terminal()
    &&& completes(before[j]@, dispatch, outcome, after[j]@)
}

/// Whether the instance at `j` has not been run yet and has nothing on the board.
pub open spec fn waiting(
    before: Seq<Instance>,
    board: Slots,
    after: Seq<Instance>,
    j: int,
) -> bool {
    after[j] == before[j] && board[j] is None
}

/// Two different indices that fall to the same worker are at least a full round apart.
proof fn lemma_same_worker_next_turn(i: int, j: int, workers: int)
    requires
        workers > 0,
        0 <= i < j,
        i % workers == j % workers,
    ensures
        j >= i + workers,
{
    vstd::arithmetic::div_mod::lemma_fundamental_div_mod(i, workers);
    vstd::arithmetic::div_mod::lemma_fundamental_div_mod(j, workers);
    let a = i / workers;
    let b = j / workers;
    assert(b > a) by (nonlinear_arith)
        requires
            workers * b + i % workers > workers * a + i % workers,
            workers > 0,
    ;
    assert(workers * b - workers * a >= workers) by (nonlinear_arith)
        requires
            b >= a + 1,
            workers > 0,
    ;
}

/// Runs every instance of the list to completion with up to `degree` workers, and gives
/// the outcomes in the order of the instances whatever the order in which the runs end.
///
/// The instances are dealt out to the workers in turn, each instance to one worker. This
/// function carries the plan out on the calling thread, one worker's share after the
/// other, so the instances do not run in the order of the list; a host with threads gives
/// each worker's share to a thread of its own and posts to the same board.
pub fn run_parallel<F: Fn(&CallDescriptor, &Instance) -> HostReply>(
    instances: &mut Vec<Instance>,
    degree: usize,
    dispatch: &F,
) -> (outcomes: Vec<RunOutcome>)
    requires
        batch_ready(old(instances)@),
        forall|d: &CallDescriptor, i: &Instance| dispatch.requires((d, i)),
    ensures
        batch_completed(old(instances)@, *dispatch, outcomes@, final(instances)@),
{
    let n = instances.len();
    let workers = worker_count(n, degree);
    let mut board = OutcomeBoard::new(n);
    let mut w: usize = 0;
    while w < workers
        invariant
            n == instances@.len(),
            n == old(instances)@.len(),
            n == board@.len(),
            1 <= workers,
            n > 0 ==> workers <= n,
            w <= workers,
            batch_ready(old(instances)@),
            forall|d: &CallDescriptor, i: &Instance| dispatch.requires((d, i)),
            forall|j: int|
                0 <= j < n && j % (workers as int) < w ==> #[trigger] served(
                    old(instances)@,
                    *dispatch,
                    board@,
                    instances@,
                    j,
                ),
            forall|j: int|
                0 <= j < n && j % (workers as int) >= w ==> #[trigger] waiting(
                    old(instances)@,
                    board@,
                    instances@,
                    j,
                ),
        decreases workers - w,
    {
        if w < n {
            let mut i: usize = w;
            proof {
                vstd::arithmetic::div_mod::lemma_small_mod(w as nat, workers as nat);
                assert forall|j: int|
                    0 <= j < n && (j % (workers as int) < w || (j % (workers as int) == w && j
                        < w)) implies #[trigger] served(
                    old(instances)@,
                    *dispatch,
                    board@,
                    instances@,
                    j,
                ) by {
                    if j < w {
                        vstd::arithmetic::div_mod::lemma_small_mod(j as nat, workers as nat);
                    }
                }
            }
            loop
                invariant_except_break
                    i < n,
                    i % workers == w,
                    forall|j: int|
                        0 <= j < n && (j % (workers as int) < w || (j % (workers as int) == w && j
                            < i)) ==> #[trigger] served(
                            old(instances)@,
                            *dispatch,
                            board@,
                            instances@,
                            j,
                        ),
                    forall|j: int|
                        0 <= j < n && (j % (workers as int) > w || (j % (workers as int) == w && j
                            >= i)) ==> #[trigger] waiting(old(instances)@, board@, instances@, j),
                invariant
                    n == instances@.len(),
                    n == old(instances)@.len(),
                    n == board@.len(),
                    1 <= workers,
                    w < workers,
                    batch_ready(old(instances)@),
                    forall|d: &CallDescriptor, i: &Instance| dispatch.requires((d, i)),
                ensures
                    forall|j: int|
                        0 <= j < n && j % (workers as int) < w + 1 ==> #[trigger] served(
                            old(instances)@,
                            *dispatch,
                            board@,
                            instances@,
                            j,
                        ),
                    forall|j: int|
                        0 <= j < n && j % (workers as int) >= w + 1 ==> #[trigger] waiting(
                            old(instances)@,
                            board@,
                            instances@,
                            j,
                        ),
                decreases n - i,
            {
                let ghost list = instances@;
                let ghost posted = board@;
                assert(waiting(old(instances)@, posted, list, i as int));
                assert(old(instances)@[i as int].wf());
                let outcome = complete(&mut instances[i], dispatch);
                let ghost result = outcome@;
                let taken = board.record(i, outcome);
                proof {
                    assert(taken);
                    assert(served(old(instances)@, *dispatch, board@, instances@, i as int));
                    assert forall|j: int| 0 <= j < n && j != i implies (served(
                        old(instances)@,
                        *dispatch,
                        posted,
                        list,
                        j,
                    ) ==> served(old(instances)@, *dispatch, board@, instances@, j)) && (waiting(
                        old(instances)@,
                        posted,
                        list,
                        j,
                    ) ==> waiting(old(instances)@, board@, instances@, j)) by {
                        assert(instances@[j] == list[j]);
                        assert(board@[j] == posted[j]);
                    }
                    assert forall|j: int|
                        0 <= j < n && (j % (workers as int) < w || (j % (workers as int) == w && j
                            <= i)) implies #[trigger] served(
                        old(instances)@,
                        *dispatch,
                        board@,
                        instances@,
                        j,
                    ) by {
                        if j != i {
                            assert(served(old(instances)@, *dispatch, posted, list, j));
                        }
                    }
                    assert forall|j: int|
                        0 <= j < n && (j % (workers as int) > w || (j % (workers as int) == w && j
                            > i)) implies #[trigger] waiting(old(instances)@, board@, instances@, j) by {
                        assert(waiting(old(instances)@, posted, list, j));
                    }
                }
                if n - i <= workers {
                    proof {
                        assert forall|j: int|
                            0 <= j < n && j % (workers as int) < w + 1 implies #[trigger] served(
                            old(instances)@,
                            *dispatch,
                            board@,
                            instances@,
                            j,
                        ) by {
                            if j % (workers as int) == w && j > i {
                                lemma_same_worker_next_turn(i as int, j, workers as int);
                            }
                        }
                    }
                    break ;
                }
                proof {
                    vstd::arithmetic::div_mod::lemma_mod_add_multiples_vanish(i as int, workers as int);
                    assert forall|j: int|
                        0 <= j < n && (j % (workers as int) < w || (j % (workers as int) == w && j
                            < i + workers)) implies #[trigger] served(
                        old(instances)@,
                        *dispatch,
                        board@,
                        instances@,
                        j,
                    ) by {
                        if j % (workers as int) == w && j > i {
                            lemma_same_worker_next_turn(i as int, j, workers as int);
                        }
                    }
                }
                i = i + workers;
            }
        } else {
            assert(n == 0);
        }
        w = w + 1;
    }
    proof {
        assert forall|j: int| 0 <= j < n implies served(
            old(instances)@,
            *dispatch,
            board@,
            instances@,
            j,
        ) by {
            vstd::arithmetic::div_mod::lemma_mod_bound(j, workers as int);
        }
        assert(all_posted(board@)) by {
            assert forall|j: int| 0 <= j < board@.len() implies (#[trigger] board@[j]) is Some by {
                assert(served(old(instances)@, *dispatch, board@, instances@, j));
            }
        }
    }
    let ghost posted = board@;
    let outcomes = board.into_outcomes();
    proof {
        assert forall|j: int| 0 <= j < n implies (#[trigger] instances@[j]).wf()
            && outcomes@[j]@.is_terminal() && completes(
            old(instances)@[j]@,
            *dispatch,
            outcomes@[j]@,
            instances@[j]@,
        ) by {
            assert(served(old(instances)@, *dispatch, posted, instances@, j));
            assert(Some(outcomes@[j]@) == posted[j]);
        }
    }
    outcomes
}

} // verus!
