//! No operation is applied twice: over the final state and the candidate
//! state that follows it, every operation that was applied was applied once.

use crate::blockclique::Chain;
use crate::controller::was_executed;
use crate::execution::{executed_in, fresh_run, settled, stepped, Backdrop, OutputView, RunView};
use crate::ledger::Accounts;
use crate::models::{BlockId, OperationId, Slot};
use crate::operation::{OperationView, VmReplyView};
use crate::worker::{
    advanced, backdrop_at_work, block_at_work, blocks_left, initial_state, lemma_agreement, lemma_open_from,
    notified, open_from, phase_rank, resumed, rolls_supplied, steps_left_in_slot, stop_asked, worker_step,
    Phase, Rolls, StateView,
};
use vstd::prelude::*;

verus! {

/// The operations that the results applied, result by result, oldest first.
pub open spec fn history_executed(history: Seq<OutputView>) -> Seq<OperationId>
    decreases history.len(),
{
    if history.len() == 0 {
        Seq::empty()
    } else {
        history_executed(history.drop_last()) + history.last().executed_ops
    }
}

/// Every operation that was applied, in the final state and then in the
/// candidate state, in the order of application.
pub open spec fn all_applied(s: StateView) -> Seq<OperationId> {
    s.final_executed_ops + history_executed(s.history)
}

/// The execution of a slot has applied no operation twice, and none that was
/// applied on the way to the state it is executed on; nor is the call that it
/// waits for that of such an operation.
pub open spec fn run_applies_once(state: Backdrop, operations: Seq<OperationView>, run: RunView) -> bool {
    &&& run.executed_ops.no_duplicates()
    &&& forall|k: int| 0 <= k < run.executed_ops.len() ==> !state.spent(#[trigger] run.executed_ops[k])
    &&& run.awaiting && run.next < operations.len() ==> !state.spent(operations[run.next as int].id)
        && !run.executed_ops.contains(operations[run.next as int].id)
}

/// No operation was applied twice, and the slot at work is about to apply none twice.
pub open spec fn applied_once(s: StateView) -> bool {
    &&& all_applied(s).no_duplicates()
    &&& block_at_work(s) matches Some(block) ==> run_applies_once(backdrop_at_work(s), block.operations, s.run->0)
}

/// An operation is among those that the results applied exactly if one of the
/// results applied it.
pub proof fn lemma_history_executed_holds(history: Seq<OutputView>, id: OperationId)
    ensures
        history_executed(history).contains(id) <==> executed_in(history, id),
    decreases history.len(),
{
    if history.len() > 0 {
        let earlier = history.drop_last();
        lemma_history_executed_holds(earlier, id);
        let before = history_executed(earlier);
        let all = history_executed(history);
        if all.contains(id) {
            let k = choose|k: int| 0 <= k < all.len() && all[k] == id;
            if k < before.len() {
                assert(before[k] == id);
                let i = choose|i: int| 0 <= i < earlier.len() && (#[trigger] earlier[i]).executed_ops.contains(id);
                assert(history[i].executed_ops.contains(id));
            } else {
                assert(history.last().executed_ops[k - before.len()] == id);
                assert(history[history.len() - 1].executed_ops.contains(id));
            }
        }
        if executed_in(history, id) {
            let i = choose|i: int| 0 <= i < history.len() && (#[trigger] history[i]).executed_ops.contains(id);
            if i < earlier.len() {
                assert(earlier[i].executed_ops.contains(id));
                let k = choose|k: int| 0 <= k < before.len() && before[k] == id;
                assert(all[k] == id);
            } else {
                let k = choose|k: int|
                    0 <= k < history.last().executed_ops.len() && history.last().executed_ops[k] == id;
                assert(all[before.len() + k] == id);
            }
        }
    }
}

/// The operations that count as executed are those that were applied, in the
/// final state or in the candidate state.
pub proof fn lemma_executed_means_applied(s: StateView, id: OperationId)
    ensures
        was_executed(s, id) <==> all_applied(s).contains(id),
{
    lemma_history_executed_holds(s.history, id);
    lemma_joined_holds(s.final_executed_ops, history_executed(s.history), id);
}

/// The operations that the results applied, seen from the oldest result on.
pub proof fn lemma_history_executed_from_first(history: Seq<OutputView>)
    requires
        history.len() > 0,
    ensures
        history_executed(history) == history[0].executed_ops + history_executed(history.drop_first()),
    decreases history.len(),
{
    if history.len() == 1 {
        assert(history.drop_last().len() == 0);
        assert(history.drop_first().len() == 0);
        assert(history_executed(history.drop_last()) =~= Seq::empty());
        assert(history_executed(history.drop_first()) =~= Seq::empty());
        assert(history.last() == history[0]);
        assert(history_executed(history) =~= history[0].executed_ops);
        assert(history[0].executed_ops + Seq::<OperationId>::empty() =~= history[0].executed_ops);
    } else {
        let earlier = history.drop_last();
        lemma_history_executed_from_first(earlier);
        assert(earlier.drop_first() =~= history.drop_first().drop_last());
        assert(history.drop_first().last() == history.last());
        assert(history_executed(history) =~= history[0].executed_ops + history_executed(history.drop_first()));
    }
}

/// The operations that the first results applied come first among those that
/// all results applied.
pub proof fn lemma_history_executed_of_prefix(history: Seq<OutputView>, n: int)
    requires
        0 <= n <= history.len(),
    ensures
        history_executed(history.take(n)).is_prefix_of(history_executed(history)),
    decreases history.len(),
{
    if n == history.len() {
        assert(history.take(n) =~= history);
    } else {
        lemma_history_executed_of_prefix(history.drop_last(), n);
        assert(history.drop_last().take(n) =~= history.take(n));
    }
}

/// A list without repeats, followed by one without repeats that holds nothing
/// of the first, is without repeats.
pub proof fn lemma_joined_without_repeats(a: Seq<OperationId>, b: Seq<OperationId>)
    requires
        a.no_duplicates(),
        b.no_duplicates(),
        forall|k: int| 0 <= k < b.len() ==> !a.contains(#[trigger] b[k]),
    ensures
        (a + b).no_duplicates(),
{
    let all = a + b;
    assert forall|i: int, j: int| 0 <= i < all.len() && 0 <= j < all.len() && i != j implies all[i] != all[j] by {
        if i < a.len() && j >= a.len() {
            assert(!a.contains(b[j - a.len()]));
        } else if j < a.len() && i >= a.len() {
            assert(!a.contains(b[i - a.len()]));
        }
    }
}

/// The first part of a list without repeats is without repeats.
pub proof fn lemma_prefix_without_repeats(a: Seq<OperationId>, b: Seq<OperationId>)
    requires
        a.is_prefix_of(b),
        b.no_duplicates(),
    ensures
        a.no_duplicates(),
{
    assert forall|i: int, j: int| 0 <= i < a.len() && 0 <= j < a.len() && i != j implies a[i] != a[j] by {
        assert(a[i] == b[i] && a[j] == b[j]);
    }
}

/// Neither a step of a slot's execution nor the answer to its call applies an
/// operation twice, and an execution that starts has applied none.
pub proof fn lemma_slot_applies_once(
    state: Backdrop,
    slot: Slot,
    block_id: Option<BlockId>,
    operations: Seq<OperationView>,
    run: RunView,
    reply: VmReplyView,
)
    requires
        run_applies_once(state, operations, run),
    ensures
        run_applies_once(state, operations, stepped(state, operations, run).0),
        run_applies_once(state, operations, settled(slot, block_id, operations, run, reply)),
        run_applies_once(state, operations, fresh_run()),
{
    let stepped_run = stepped(state, operations, run).0;
    if stepped_run.executed_ops != run.executed_ops {
        lemma_pushed_without_repeats(state, run.executed_ops, operations[run.next as int].id);
    }
    let settled_run = settled(slot, block_id, operations, run, reply);
    if settled_run.executed_ops != run.executed_ops {
        lemma_pushed_without_repeats(state, run.executed_ops, operations[run.next as int].id);
    }
}

/// A list without repeats and with nothing applied before stays so with one
/// more operation that it does not hold and that was not applied before.
proof fn lemma_pushed_without_repeats(state: Backdrop, ids: Seq<OperationId>, id: OperationId)
    requires
        ids.no_duplicates(),
        forall|k: int| 0 <= k < ids.len() ==> !state.spent(#[trigger] ids[k]),
        !ids.contains(id),
        !state.spent(id),
    ensures
        ids.push(id).no_duplicates(),
        forall|k: int| 0 <= k < ids.push(id).len() ==> !state.spent(#[trigger] ids.push(id)[k]),
{
    let after = ids.push(id);
    assert forall|i: int, j: int| 0 <= i < after.len() && 0 <= j < after.len() && i != j implies after[i]
        != after[j] by {
        if i == ids.len() {
            assert(ids[j] != id);
        } else if j == ids.len() {
            assert(ids[i] != id);
        }
    }
}

/// A worker starts with nothing applied.
pub proof fn lemma_initial_state_applied_once(genesis: Accounts)
    ensures
        applied_once(initial_state(genesis)),
{
    assert(all_applied(initial_state(genesis)) =~= Seq::empty());
}

/// A step of the worker applies no operation twice.
pub proof fn lemma_step_applies_once(s: StateView)
    requires
        applied_once(s),
    ensures
        applied_once(worker_step(s).0),
{
    let after = worker_step(s).0;
    let all = all_applied(s);
    let in_history = history_executed(s.history);
    assert(s.final_executed_ops.is_prefix_of(all));
    lemma_prefix_without_repeats(s.final_executed_ops, all);
    match block_at_work(s) {
        Some(block) => {
            let run = s.run->0;
            let state = backdrop_at_work(s);
            lemma_slot_applies_once(state, block.slot, Some(block.block_id), block.operations, run, VmReplyView::Trap);
            if s.phase == Phase::Finalizing && after.final_log.len() != s.final_log.len() {
                // the slot has finished and its result is final
                assert(after.final_executed_ops == s.final_executed_ops + run.executed_ops);
                if after.history.len() == 0 {
                    assert(history_executed(after.history) =~= Seq::empty());
                    assert(all_applied(after) =~= s.final_executed_ops + run.executed_ops);
                    lemma_joined_without_repeats(s.final_executed_ops, run.executed_ops);
                } else {
                    assert(s.history[0].executed_ops == run.executed_ops);
                    assert(after.history == s.history.drop_first());
                    lemma_history_executed_from_first(s.history);
                    assert(all_applied(after) =~= all);
                }
            } else if s.phase == Phase::Executing && after.history.len() == s.history.len() + 1 {
                // the slot has finished and its result joins the candidate state
                assert(after.history.drop_last() =~= s.history);
                assert(all_applied(after) =~= all + run.executed_ops);
                assert forall|k: int| 0 <= k < run.executed_ops.len() implies !all.contains(
                    #[trigger] run.executed_ops[k],
                ) by {
                    let id = run.executed_ops[k];
                    lemma_history_executed_holds(s.history, id);
                    lemma_joined_holds(s.final_executed_ops, in_history, id);
                }
                lemma_joined_without_repeats(all, run.executed_ops);
            } else {
                assert(after.final_log == s.final_log);
                assert(after.history == s.history);
                lemma_kept_results_applied_once(s);
            }
        },
        None => {
            assert(after.final_log == s.final_log);
            if s.phase == Phase::Reconciling && !s.stop_requested {
                let start = open_from(s.final_log, s.blockclique, 0);
                lemma_open_from(s.final_log, s.blockclique, 0);
                lemma_agreement(s.history, s.blockclique, start, 0);
            } else {
                assert(after.history == s.history);
            }
            lemma_kept_results_applied_once(s);
        },
    }
}

/// An operation is in two lists in a row exactly if it is in one of them.
proof fn lemma_joined_holds(a: Seq<OperationId>, b: Seq<OperationId>, id: OperationId)
    ensures
        (a + b).contains(id) <==> a.contains(id) || b.contains(id),
{
    let all = a + b;
    if all.contains(id) {
        let k = choose|k: int| 0 <= k < all.len() && all[k] == id;
        if k < a.len() {
            assert(a[k] == id);
        } else {
            assert(b[k - a.len()] == id);
        }
    }
    if a.contains(id) {
        let k = choose|k: int| 0 <= k < a.len() && a[k] == id;
        assert(all[k] == id);
    }
    if b.contains(id) {
        let k = choose|k: int| 0 <= k < b.len() && b[k] == id;
        assert(all[a.len() + k] == id);
    }
}

/// A step that neither finalizes a slot nor adds one to the candidate state
/// leaves the applied operations as they are, or drops the newest of them.
proof fn lemma_kept_results_applied_once(s: StateView)
    requires
        all_applied(s).no_duplicates(),
        worker_step(s).0.final_log == s.final_log,
        worker_step(s).0.history.len() <= s.history.len(),
    ensures
        all_applied(worker_step(s).0).no_duplicates(),
{
    let after = worker_step(s).0;
    if s.phase == Phase::Reconciling && !s.stop_requested {
        let start = open_from(s.final_log, s.blockclique, 0);
        lemma_open_from(s.final_log, s.blockclique, 0);
        lemma_agreement(s.history, s.blockclique, start, 0);
    }
    assert(after.history == s.history.take(after.history.len() as int)) by {
        assert(s.history.take(s.history.len() as int) =~= s.history);
    }
    lemma_history_executed_of_prefix(s.history, after.history.len() as int);
    assert(all_applied(after).is_prefix_of(all_applied(s)));
    lemma_prefix_without_repeats(all_applied(after), all_applied(s));
}

/// Brought to rest, the worker has applied no operation twice.
pub proof fn lemma_advance_applies_once(s: StateView)
    requires
        applied_once(s),
    ensures
        applied_once(advanced(s).0),
    decreases s.queue.len(), phase_rank(s.phase), blocks_left(s), steps_left_in_slot(s),
{
    lemma_step_applies_once(s);
    if worker_step(s).1 is Continue {
        lemma_advance_applies_once(worker_step(s).0);
    }
}

/// What comes in from outside applies no operation twice.
pub proof fn lemma_inputs_apply_once(
    s: StateView,
    reply: VmReplyView,
    finalized: Chain,
    blockclique: Chain,
    cycle: u64,
    rolls: Rolls,
)
    requires
        applied_once(s),
    ensures
        applied_once(resumed(s, reply)),
        applied_once(notified(s, finalized, blockclique)),
        applied_once(stop_asked(s)),
        applied_once(rolls_supplied(s, cycle, rolls)),
{
    match block_at_work(s) {
        Some(block) => {
            lemma_slot_applies_once(
                backdrop_at_work(s),
                block.slot,
                Some(block.block_id),
                block.operations,
                s.run->0,
                reply,
            );
        },
        None => {},
    }
}

} // verus!
