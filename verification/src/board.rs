//! The board on which workers post outcomes as they finish, in any order, and from which
//! the outcomes are read in the order of the instances.

use vstd::prelude::*;
use crate::machine::{OutcomeView, RunOutcome};

verus! {

/// The slots of a board: one per instance, empty until its outcome is posted.
pub type Slots = Seq<Option<OutcomeView>>;

/// A board of `n` empty slots.
pub open spec fn empty_slots(n: nat) -> Slots {
    Seq::new(n, |i: int| None::<OutcomeView>)
}

/// Whether the board takes an outcome for `index`: the slot exists and is empty.
pub open spec fn accepts(slots: Slots, index: nat) -> bool {
    index < slots.len() && slots[index as int] is None
}

/// The board after `outcome` was posted for `index`. A post that the board does not take
/// leaves it as it is.
pub open spec fn post(slots: Slots, index: nat, outcome: OutcomeView) -> Slots {
    if accepts(slots, index) {
        slots.update(index as int, Some(outcome))
    } else {
        slots
    }
}

/// The board after the posts of `events` were made one after the other.
pub open spec fn post_all(slots: Slots, events: Seq<(nat, OutcomeView)>) -> Slots
    decreases events.len(),
{
    if events.len() == 0 {
        slots
    } else {
        post(post_all(slots, events.drop_last()), events.last().0, events.last().1)
    }
}

/// Whether every slot holds an outcome.
pub open spec fn all_posted(slots: Slots) -> bool {
    forall|i: int| 0 <= i < slots.len() ==> (#[trigger] slots[i]) is Some
}

/// Whether `events` holds a post for the instance at `index`.
pub open spec fn has_post(events: Seq<(nat, OutcomeView)>, index: nat) -> bool {
    exists|k: int| 0 <= k < events.len() && (#[trigger] events[k]).0 == index
}

/// Whether `events` holds exactly one post for each of `n` instances, in whatever order.
pub open spec fn one_post_each(events: Seq<(nat, OutcomeView)>, n: nat) -> bool {
    &&& forall|k: int| 0 <= k < events.len() ==> (#[trigger] events[k]).0 < n
    &&& forall|k: int, l: int|
        0 <= k < l < events.len() ==> (#[trigger] events[k]).0 != (#[trigger] events[l]).0
    &&& forall|i: nat| i < n ==> #[trigger] has_post(events, i)
}

/// After the first `k` posts of `events` on an empty board, a slot holds the outcome of
/// the one post among them that names it, and is empty where none does.
proof fn lemma_posts_land(events: Seq<(nat, OutcomeView)>, n: nat, k: int)
    requires
        0 <= k <= events.len(),
        forall|a: int| 0 <= a < events.len() ==> (#[trigger] events[a]).0 < n,
        forall|a: int, b: int|
            0 <= a < b < events.len() ==> (#[trigger] events[a]).0 != (#[trigger] events[b]).0,
    ensures
        post_all(empty_slots(n), events.take(k)).len() == n,
        forall|a: int|
            0 <= a < k ==> post_all(empty_slots(n), events.take(k))[(#[trigger] events[a]).0 as int]
                == Some(events[a].1),
        forall|i: int|
            0 <= i < n && (forall|a: int| 0 <= a < k ==> (#[trigger] events[a]).0 != i) ==> (
            #[trigger] post_all(empty_slots(n), events.take(k))[i]) is None,
    decreases k,
{
    if k > 0 {
        lemma_posts_land(events, n, k - 1);
        let prefix = events.take(k);
        assert(prefix.drop_last() =~= events.take(k - 1));
        assert(prefix.last() == events[k - 1]);
        let before = post_all(empty_slots(n), events.take(k - 1));
        let index = events[k - 1].0;
        assert(before[index as int] is None) by {
            assert forall|a: int| 0 <= a < k - 1 implies (#[trigger] events[a]).0 != index by {
                assert(events[a].0 != events[k - 1].0);
            }
        }
        assert forall|a: int| 0 <= a < k implies post_all(empty_slots(n), prefix)[(
        #[trigger] events[a]).0 as int] == Some(events[a].1) by {
            if a < k - 1 {
                assert(events[a].0 != events[k - 1].0);
            }
        }
    } else {
        assert(events.take(0) =~= Seq::empty());
    }
}

/// Outcomes come out in the order of the instances whatever the order in which they were
/// posted: when `events` holds one post for each instance, the board ends with the outcome
/// of instance `i` in slot `i`.
pub proof fn lemma_posting_order_is_irrelevant(events: Seq<(nat, OutcomeView)>, n: nat)
    requires
        one_post_each(events, n),
    ensures
        post_all(empty_slots(n), events).len() == n,
        all_posted(post_all(empty_slots(n), events)),
        forall|k: int|
            0 <= k < events.len() ==> post_all(empty_slots(n), events)[(#[trigger] events[k]).0 as int]
                == Some(events[k].1),
{
    lemma_posts_land(events, n, events.len() as int);
    assert(events.take(events.len() as int) =~= events);
    let board = post_all(empty_slots(n), events);
    assert forall|i: int| 0 <= i < board.len() implies (#[trigger] board[i]) is Some by {
        assert(has_post(events, i as nat));
        let k = choose|k: int| 0 <= k < events.len() && (#[trigger] events[k]).0 == i as nat;
        assert(board[events[k].0 as int] == Some(events[k].1));
    }
}

/// Two orders of the same posts leave the same board.
pub proof fn lemma_same_posts_same_board(
    first: Seq<(nat, OutcomeView)>,
    second: Seq<(nat, OutcomeView)>,
    n: nat,
)
    requires
        one_post_each(first, n),
        one_post_each(second, n),
        forall|k: int| 0 <= k < first.len() ==> second.contains(#[trigger] first[k]),
    ensures
        post_all(empty_slots(n), first) == post_all(empty_slots(n), second),
{
    lemma_posting_order_is_irrelevant(first, n);
    lemma_posting_order_is_irrelevant(second, n);
    let a = post_all(empty_slots(n), first);
    let b = post_all(empty_slots(n), second);
    assert forall|i: int| 0 <= i < n implies a[i] == b[i] by {
        assert(has_post(first, i as nat));
        let k = choose|k: int| 0 <= k < first.len() && (#[trigger] first[k]).0 == i as nat;
        assert(second.contains(first[k]));
        let l = choose|l: int| 0 <= l < second.len() && second[l] == first[k];
        assert(a[first[k].0 as int] == Some(first[k].1));
        assert(b[second[l].0 as int] == Some(second[l].1));
    }
    assert(a =~= b);
}

/// The board of one batch.
pub struct OutcomeBoard {
    slots: Vec<Option<RunOutcome>>,
}

/// A slot as plain values.
pub open spec fn slot_view(slot: Option<RunOutcome>) -> Option<OutcomeView> {
    match slot {
        Some(outcome) => Some(outcome@),
        None => None,
    }
}

impl View for OutcomeBoard {
    type V = Slots;

    closed spec fn view(&self) -> Slots {
        self.slots@.map_values(|slot: Option<RunOutcome>| slot_view(slot))
    }
}

impl OutcomeBoard {
    /// A board for a batch of `n` instances, with nothing posted.
    pub fn new(n: usize) -> (board: OutcomeBoard)
        ensures
            board@ == empty_slots(n as nat),
    {
        let mut slots: Vec<Option<RunOutcome>> = Vec::new();
        let mut i: usize = 0;
        while i < n
            invariant
                i <= n,
                slots@.len() == i,
                forall|j: int| 0 <= j < i ==> slots@[j] is None,
            decreases n - i,
        {
            slots.push(None);
            i = i + 1;
        }
        let board = OutcomeBoard { slots };
        assert(board@ =~= empty_slots(n as nat));
        board
    }

    /// Number of slots, which is the number of instances of the batch.
    pub fn len(&self) -> (n: usize)
        ensures
            n == self@.len(),
    {
        self.slots.len()
    }

    /// Posts the outcome of the instance at `index`. A post for a slot that does not exist
    /// or is taken is refused and leaves the board as it is.
    pub fn record(&mut self, index: usize, outcome: RunOutcome) -> (taken: bool)
        ensures
            taken == accepts(old(self)@, index as nat),
            final(self)@ == post(old(self)@, index as nat, outcome@),
    {
        if index >= self.slots.len() {
            return false;
        }
        if self.slots[index].is_some() {
            return false;
        }
        let ghost before = self@;
        self.slots.set(index, Some(outcome));
        assert(self@ =~= before.update(index as int, Some(outcome@)));
        true
    }

    /// Whether every instance of the batch has its outcome posted.
    pub fn is_complete(&self) -> (complete: bool)
        ensures
            complete == all_posted(self@),
    {
        let mut i: usize = 0;
        while i < self.slots.len()
            invariant
                i <= self.slots@.len(),
                forall|j: int| 0 <= j < i ==> (#[trigger] self@[j]) is Some,
            decreases self.slots@.len() - i,
        {
            if self.slots[i].is_none() {
                assert(self@[i as int] is None);
                return false;
            }
            assert(self@[i as int] is Some);
            i = i + 1;
        }
        true
    }

    /// The outcomes in the order of the instances, whatever the order in which they were
    /// posted.
    pub fn into_outcomes(self) -> (outcomes: Vec<RunOutcome>)
        requires
            all_posted(self@),
        ensures
            outcomes@.len() == self@.len(),
            forall|i: int| 0 <= i < outcomes@.len() ==> Some((#[trigger] outcomes@[i])@) == self@[i],
    {
        let mut slots = self.slots;
        let ghost posted = self@;
        let mut outcomes: Vec<RunOutcome> = Vec::new();
        let mut i: usize = 0;
        while i < slots.len()
            invariant
                i <= slots@.len(),
                slots@.len() == posted.len(),
                outcomes@.len() == i,
                all_posted(posted),
                forall|j: int| i <= j < slots@.len() ==> slot_view(#[trigger] slots@[j]) == posted[j],
                forall|j: int| 0 <= j < i ==> Some((#[trigger] outcomes@[j])@) == posted[j],
            decreases slots@.len() - i,
        {
            assert(posted[i as int] is Some);
            assert(slot_view(slots@[i as int]) == posted[i as int]);
            match slots[i].take() {
                Some(outcome) => {
                    outcomes.push(outcome);
                },
                None => {},
            }
            i = i + 1;
        }
        outcomes
    }
}

} // verus!
