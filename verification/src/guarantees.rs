//! What holds of the worker whatever it is asked to do: the final state only
//! grows, finalizing again changes nothing, reconciliation cuts the candidate
//! state where the new blockclique leaves it, a stop waits for the end of the
//! slot, and an operation is applied in full or not at all.

use crate::blockclique::Chain;
use crate::controller::{state_entry, Finality};
use crate::execution::{layers_of, roll_trade_applied, stepped, transfer_applied, visible, Backdrop, RunView};
use crate::ledger::{
    empty_entry, entry_of, lemma_fold_oldest_layer, lemma_overlaid_lookup, lemma_with_entry_lookup, with_entry,
    Accounts, LedgerEntryView,
};
use crate::models::{Address, Amount, BlockId, Slot, ROLL_PRICE};
use crate::operation::{OperationView, VmReplyView};
use crate::order::{lemma_step_keeps_order, well_ordered};
use crate::worker::{
    advanced, agreement_from, block_at_work, blocks_left, committed_final, halted, is_final, lemma_agreement,
    lemma_open_from, lemma_rolls_after_push, notified, open_from, phase_rank, reconciled, resumed,
    rolls_of_cycle, rolls_supplied, same_block, steps_left_in_slot, stop_asked, worker_step, ActionView,
    Phase, Rolls, StateView,
};
use vstd::prelude::*;

verus! {

/// Every slot of the log comes strictly after the one before it.
pub open spec fn log_in_order(final_log: Seq<(Slot, BlockId)>) -> bool {
    forall|i: int, j: int| 0 <= i < j < final_log.len() ==> (#[trigger] final_log[i]).0.lt((#[trigger] final_log[j]).0)
}

/// The final state of `after` is that of `before`, grown or the same: what was
/// logged, recorded and applied stays, in its place; nothing is logged for a
/// slot at or before one that was logged; and where the log did not grow,
/// nothing of the final state has changed.
pub open spec fn final_grows(before: StateView, after: StateView) -> bool {
    &&& before.final_log.is_prefix_of(after.final_log)
    &&& before.final_events.is_prefix_of(after.final_events)
    &&& before.final_executed_ops.is_prefix_of(after.final_executed_ops)
    &&& forall|i: int|
        before.final_log.len() <= i < after.final_log.len() ==> !is_final(
            before.final_log,
            (#[trigger] after.final_log[i]).0,
        )
    &&& after.final_log.len() == before.final_log.len() ==> {
        &&& after.final_ledger == before.final_ledger
        &&& after.final_events == before.final_events
        &&& after.final_executed_ops == before.final_executed_ops
    }
}

/// Finality is monotonic: no step of the worker removes or alters what is
/// final. A step adds one slot to the final state at most, and that slot comes
/// after every final one.
pub proof fn lemma_step_keeps_final(s: StateView)
    ensures
        final_grows(s, worker_step(s).0),
        worker_step(s).0.final_log.len() <= s.final_log.len() + 1,
        log_in_order(s.final_log) ==> log_in_order(worker_step(s).0.final_log),
{
    let after = worker_step(s).0;
    if after.final_log.len() != s.final_log.len() {
        assert(s.phase == Phase::Finalizing);
        let block = s.finalized[s.cursor as int];
        assert(after.final_log == s.final_log.push((block.slot, block.block_id)));
        assert(!is_final(s.final_log, block.slot));
        if log_in_order(s.final_log) {
            assert forall|i: int, j: int| 0 <= i < j < after.final_log.len() implies (#[trigger] after.final_log[i]).0.lt(
                (#[trigger] after.final_log[j]).0,
            ) by {
                if j == s.final_log.len() {
                    if i < j - 1 {
                        assert(s.final_log[i].0.lt(s.final_log[j - 1].0));
                    }
                } else {
                    assert(s.final_log[i].0.lt(s.final_log[j].0));
                }
            }
        }
    }
}

/// No answer of the virtual machine, no notification, no request to stop and
/// no supply of roll counts touches the final state.
pub proof fn lemma_inputs_keep_final(
    s: StateView,
    reply: VmReplyView,
    finalized: Chain,
    blockclique: Chain,
    cycle: u64,
    rolls: Rolls,
)
    ensures
        final_grows(s, resumed(s, reply)),
        resumed(s, reply).final_log == s.final_log,
        final_grows(s, notified(s, finalized, blockclique)),
        notified(s, finalized, blockclique).final_log == s.final_log,
        final_grows(s, stop_asked(s)),
        stop_asked(s).final_log == s.final_log,
        final_grows(s, rolls_supplied(s, cycle, rolls)),
        rolls_supplied(s, cycle, rolls).final_log == s.final_log,
{
}

/// Growth of the final state carries over any number of steps.
pub proof fn lemma_final_grows_transitive(a: StateView, b: StateView, c: StateView)
    requires
        final_grows(a, b),
        final_grows(b, c),
        log_in_order(c.final_log),
    ensures
        final_grows(a, c),
{
    assert forall|i: int| a.final_log.len() <= i < c.final_log.len() implies !is_final(
        a.final_log,
        (#[trigger] c.final_log[i]).0,
    ) by {
        if a.final_log.len() > 0 {
            let last = a.final_log.len() - 1;
            assert(c.final_log[last] == a.final_log[last]);
            assert(c.final_log[last].0.lt(c.final_log[i].0));
        }
    }
}

/// Every block of `finalized` from index `i` on sits in a slot that is final.
pub open spec fn all_final_from(final_log: Seq<(Slot, BlockId)>, finalized: Chain, i: nat) -> bool {
    forall|k: int| i <= k < finalized.len() ==> is_final(final_log, (#[trigger] finalized[k]).slot)
}

/// Finalization passes over blocks whose slots are final: from any block on,
/// if the rest is final, the worker reaches reconciliation with nothing changed.
pub proof fn lemma_final_blocks_are_passed_over(s: StateView)
    requires
        s.phase == Phase::Finalizing,
        s.run is None,
        !s.stop_requested,
        s.cursor <= s.finalized.len(),
        all_final_from(s.final_log, s.finalized, s.cursor),
    ensures
        advanced(s) == advanced(StateView { phase: Phase::Reconciling, cursor: 0, ..s }),
    decreases s.finalized.len() - s.cursor,
{
    if s.cursor < s.finalized.len() {
        assert(is_final(s.final_log, s.finalized[s.cursor as int].slot));
        let next = StateView { cursor: s.cursor + 1, ..s };
        assert(worker_step(s) == (next, ActionView::Continue));
        lemma_final_blocks_are_passed_over(next);
    } else {
        assert(worker_step(s) == (StateView { phase: Phase::Reconciling, cursor: 0, ..s }, ActionView::Continue));
    }
}

/// The state of a worker that has taken up its oldest notification and worked
/// it off without anything to finalize or to execute.
pub open spec fn worked_off_unchanged(s: StateView) -> StateView {
    StateView {
        queue: s.queue.drop_first(),
        finalized: s.queue[0].0,
        blockclique: s.queue[0].1,
        cursor: s.queue[0].1.len(),
        run: None,
        ..s
    }
}

/// Finalizing again is a no-op: a notification whose finalized blocks all sit
/// in final slots, and whose blockclique is the one that the candidate state
/// follows, leaves the final state and the candidate state as they are. The
/// worker takes the notification up, passes over every finalized block,
/// confirms every candidate result, and is idle again, ready for what waits
/// behind that notification; if nothing does, it rests there.
pub proof fn lemma_finalizing_again_is_no_op(s: StateView)
    requires
        s.phase == Phase::Idle,
        !s.stop_requested,
        s.queue.len() > 0,
        all_final_from(s.final_log, s.queue[0].0, 0),
        agreement_from(s.history, s.queue[0].1, open_from(s.final_log, s.queue[0].1, 0), 0) == s.history.len(),
        open_from(s.final_log, s.queue[0].1, 0) + s.history.len() == s.queue[0].1.len(),
    ensures
        advanced(s) == advanced(worked_off_unchanged(s)),
        s.queue.len() == 1 ==> advanced(s) == (worked_off_unchanged(s), ActionView::Wait),
{
    let finalized = s.queue[0].0;
    let blockclique = s.queue[0].1;
    let taken = StateView {
        queue: s.queue.drop_first(),
        finalized,
        blockclique,
        cursor: 0,
        run: None,
        phase: Phase::Finalizing,
        ..s
    };
    assert(worker_step(s) == (taken, ActionView::Continue));
    lemma_final_blocks_are_passed_over(taken);
    let passed = StateView { phase: Phase::Reconciling, cursor: 0, ..taken };
    let kept = worker_step(passed).0;
    assert(worker_step(passed).1 is Continue);
    assert(kept.history =~= s.history);
    assert(worker_step(kept) == (worked_off_unchanged(s), ActionView::Continue));
    assert(advanced(passed) == advanced(kept));
    assert(advanced(kept) == advanced(worked_off_unchanged(s)));
    if s.queue.len() == 1 {
        assert(worker_step(worked_off_unchanged(s)) == (worked_off_unchanged(s), ActionView::Wait));
    }
}

/// Finality is monotonic over any run of the worker: brought to rest, it has
/// removed or altered nothing that was final, and it is in order as it was.
pub proof fn lemma_advance_keeps_final(s: StateView)
    requires
        well_ordered(s),
    ensures
        final_grows(s, advanced(s).0),
        well_ordered(advanced(s).0),
    decreases s.queue.len(), phase_rank(s.phase), blocks_left(s), steps_left_in_slot(s),
{
    let next = worker_step(s);
    lemma_step_keeps_final(s);
    lemma_step_keeps_order(s);
    if next.1 is Continue {
        lemma_advance_keeps_final(next.0);
        lemma_final_grows_transitive(s, next.0, advanced(s).0);
    }
}

/// Reconciliation cuts the candidate state at the point where the new
/// blockclique leaves it. Counted from the first block of the blockclique
/// whose slot is not final, the results up to that point are those of the
/// blocks at their places, slot and block alike, and they are kept as they
/// are; the result at that point, if there is one, has no block at its place
/// or another one, and it is dropped with all behind it. The final state is
/// not touched, and execution goes on at that point.
pub proof fn lemma_reconciliation_cuts_at_divergence(s: StateView)
    ensures
        ({
            let start = open_from(s.final_log, s.blockclique, 0);
            let keep = agreement_from(s.history, s.blockclique, start, 0);
            let after = reconciled(s);
            &&& start <= s.blockclique.len()
            &&& keep <= s.history.len()
            &&& start + keep <= s.blockclique.len()
            &&& after.history == s.history.take(keep as int)
            &&& after.history.is_prefix_of(s.history)
            &&& forall|i: int| 0 <= i < keep ==> same_block(#[trigger] s.history[i], s.blockclique[start + i])
            &&& keep < s.history.len() ==> start + keep == s.blockclique.len() || !same_block(
                s.history[keep as int],
                s.blockclique[(start + keep) as int],
            )
            &&& after.cursor == start + keep
            &&& after.phase == Phase::Executing
            &&& final_grows(s, after)
            &&& after.final_log == s.final_log
        }),
{
    let start = open_from(s.final_log, s.blockclique, 0);
    lemma_open_from(s.final_log, s.blockclique, 0);
    lemma_agreement(s.history, s.blockclique, start, 0);
}

/// Roll counts are frozen once they are there: a supply of counts changes
/// what a cycle shows only if it is for that cycle and the cycle had none.
pub proof fn lemma_supplied_rolls_are_frozen(s: StateView, cycle: u64, rolls: Rolls, asked: u64)
    ensures
        rolls_of_cycle(rolls_supplied(s, cycle, rolls).roll_snapshots, asked) == match rolls_of_cycle(
            s.roll_snapshots,
            asked,
        ) {
            Some(counts) => Some(counts),
            None => if asked == cycle {
                Some(rolls)
            } else {
                None
            },
        },
{
    lemma_rolls_after_push(s.roll_snapshots, (cycle, rolls), asked);
}

/// A stop never cuts a slot in two. A worker that was asked to stop while it
/// executes a slot goes on with that slot exactly as it would have; and once
/// it stands between two slots it halts, with the final state and the
/// candidate state as the last slot left them, and what waited is dropped.
pub proof fn lemma_stop_waits_for_end_of_slot(s: StateView)
    requires
        s.stop_requested,
        s.phase != Phase::Stopped,
        s.phase != Phase::Faulted,
    ensures
        block_at_work(s) is Some ==> worker_step(s) == (
            StateView { stop_requested: true, ..worker_step(StateView { stop_requested: false, ..s }).0 },
            worker_step(StateView { stop_requested: false, ..s }).1,
        ),
        s.run is None ==> worker_step(s) == (halted(s), ActionView::Halt),
        s.run is None ==> halted(s).history == s.history && halted(s).final_ledger == s.final_ledger && halted(
            s,
        ).final_log == s.final_log && halted(s).queue.len() == 0,
{
}

/// Finalizing a slot as the candidate state holds it changes nothing that can
/// be seen of the candidate state: the first candidate result moves into the
/// final state, the others stay, and every address shows the entry it showed.
/// In the final state an address then shows the entry that this result wrote
/// for it, or the one it had.
pub proof fn lemma_finalizing_keeps_candidate_view(s: StateView, address: Address)
    requires
        s.history.len() > 0,
        s.history[0].block_id is Some,
    ensures
        ({
            let first = s.history[0];
            let after = committed_final(s, first.slot, first.block_id->0, first);
            &&& after.phase == s.phase
            &&& after.history == s.history.drop_first()
            &&& after.final_log == s.final_log.push((first.slot, first.block_id->0))
            &&& state_entry(after, address, Finality::Candidate) == state_entry(s, address, Finality::Candidate)
            &&& state_entry(after, address, Finality::Final) == match entry_of(first.changes, address) {
                Some(entry) => Some(entry),
                None => state_entry(s, address, Finality::Final),
            }
        }),
{
    let first = s.history[0];
    let after = committed_final(s, first.slot, first.block_id->0, first);
    let layers = layers_of(s.history);
    assert(layers_of(after.history) =~= layers.drop_first());
    assert(layers[0] == first.changes);
    lemma_fold_oldest_layer(s.final_ledger, layers, address);
    lemma_overlaid_lookup(s.final_ledger, first.changes, address);
}

/// The parallel balance of `address` as the running slot sees it; zero for an
/// address without entry.
pub open spec fn seen_balance(base: Accounts, layers: Seq<Accounts>, changes: Accounts, address: Address) -> nat {
    match visible(base, layers, changes, address) {
        Some(entry) => entry.parallel_balance.value(),
        None => 0,
    }
}

/// A transfer is applied in full or not at all, and no balance goes below
/// zero. A transfer that is refused writes nothing. One that is applied was
/// covered by what the sender owned; it takes the amount from the sender,
/// gives it to the recipient, and leaves every other address, and everything
/// but the parallel balance of these two, as it was.
pub proof fn lemma_transfer_all_or_nothing(
    base: Accounts,
    layers: Seq<Accounts>,
    changes: Accounts,
    sender: Address,
    recipient: Address,
    amount: Amount,
    other: Address,
)
    ensures
        match transfer_applied(base, layers, changes, sender, recipient, amount) {
            Err(_) => true,
            Ok(after) => {
                &&& visible(base, layers, changes, sender) is Some
                &&& amount.value() <= seen_balance(base, layers, changes, sender)
                &&& sender != recipient ==> {
                    &&& seen_balance(base, layers, after, sender) == seen_balance(base, layers, changes, sender)
                        - amount.value()
                    &&& seen_balance(base, layers, after, recipient) == seen_balance(
                        base,
                        layers,
                        changes,
                        recipient,
                    ) + amount.value()
                    &&& visible(base, layers, after, sender) == Some(
                        LedgerEntryView {
                            parallel_balance: visible(base, layers, after, sender)->0.parallel_balance,
                            ..visible(base, layers, changes, sender)->0
                        },
                    )
                    &&& visible(base, layers, after, recipient) == Some(
                        LedgerEntryView {
                            parallel_balance: visible(base, layers, after, recipient)->0.parallel_balance,
                            ..match visible(base, layers, changes, recipient) {
                                Some(entry) => entry,
                                None => empty_entry(),
                            }
                        },
                    )
                }
                &&& sender == recipient ==> after == changes
                &&& other != sender && other != recipient ==> visible(base, layers, after, other) == visible(
                    base,
                    layers,
                    changes,
                    other,
                )
            },
        },
{
    match transfer_applied(base, layers, changes, sender, recipient, amount) {
        Err(_) => {},
        Ok(after) => {
            if sender != recipient {
                let from = visible(base, layers, changes, sender)->0;
                let to = match visible(base, layers, changes, recipient) {
                    Some(entry) => entry,
                    None => empty_entry(),
                };
                let debited = LedgerEntryView {
                    parallel_balance: Amount((from.parallel_balance.0 - amount.0) as u64),
                    ..from
                };
                let credited = LedgerEntryView {
                    parallel_balance: Amount((to.parallel_balance.0 + amount.0) as u64),
                    ..to
                };
                let middle = with_entry(changes, sender, debited);
                lemma_with_entry_lookup(changes, sender, debited, sender);
                lemma_with_entry_lookup(changes, sender, debited, recipient);
                lemma_with_entry_lookup(changes, sender, debited, other);
                lemma_with_entry_lookup(middle, recipient, credited, sender);
                lemma_with_entry_lookup(middle, recipient, credited, recipient);
                lemma_with_entry_lookup(middle, recipient, credited, other);
            }
        },
    }
}

/// A purchase or a sale of rolls is applied in full or not at all, and takes
/// neither the balance nor the rolls below zero. One that is refused writes
/// nothing. One that is applied moves the price of the rolls between the
/// sequential balance and the rolls of the sender, and leaves every other
/// address, and everything else of the sender, as it was.
pub proof fn lemma_roll_trade_all_or_nothing(
    base: Accounts,
    layers: Seq<Accounts>,
    changes: Accounts,
    sender: Address,
    roll_count: u64,
    buying: bool,
    other: Address,
)
    ensures
        match roll_trade_applied(base, layers, changes, sender, roll_count, buying) {
            Err(_) => true,
            Ok(after) => {
                &&& visible(base, layers, changes, sender) matches Some(owned)
                &&& visible(base, layers, after, sender) matches Some(now)
                &&& buying ==> now.sequential_balance.value() + roll_count * ROLL_PRICE
                    == owned.sequential_balance.value() && now.roll_count == owned.roll_count + roll_count
                &&& !buying ==> now.sequential_balance.value() == owned.sequential_balance.value() + roll_count
                    * ROLL_PRICE && now.roll_count + roll_count == owned.roll_count
                &&& now == (LedgerEntryView {
                    sequential_balance: now.sequential_balance,
                    roll_count: now.roll_count,
                    ..owned
                })
                &&& other != sender ==> visible(base, layers, after, other) == visible(base, layers, changes, other)
            },
        },
{
    match roll_trade_applied(base, layers, changes, sender, roll_count, buying) {
        Err(_) => {},
        Ok(after) => {
            let owned = visible(base, layers, changes, sender)->0;
            let price = roll_count * ROLL_PRICE;
            let now = if buying {
                LedgerEntryView {
                    sequential_balance: Amount((owned.sequential_balance.0 - price) as u64),
                    roll_count: (owned.roll_count + roll_count) as u64,
                    ..owned
                }
            } else {
                LedgerEntryView {
                    sequential_balance: Amount((owned.sequential_balance.0 + price) as u64),
                    roll_count: (owned.roll_count - roll_count) as u64,
                    ..owned
                }
            };
            lemma_with_entry_lookup(changes, sender, now, sender);
            lemma_with_entry_lookup(changes, sender, now, other);
        },
    }
}

/// An operation that is skipped writes nothing and emits nothing: the step
/// only notes the operation with the reason.
pub proof fn lemma_skipped_operation_writes_nothing(state: Backdrop, operations: Seq<OperationView>, run: RunView)
    requires
        stepped(state, operations, run).1 is Rejected,
    ensures
        stepped(state, operations, run).0.changes == run.changes,
        stepped(state, operations, run).0.events == run.events,
        stepped(state, operations, run).0.executed_ops == run.executed_ops,
        stepped(state, operations, run).0.gas_used == run.gas_used,
        stepped(state, operations, run).0.rejected_ops == run.rejected_ops.push(
            (operations[run.next as int].id, stepped(state, operations, run).1->Rejected_0),
        ),
{
}

/// A step applies an operation only if it was applied neither on the way to
/// the state that the slot is executed on nor earlier in the slot.
pub proof fn lemma_applied_operation_is_new(state: Backdrop, operations: Seq<OperationView>, run: RunView)
    requires
        stepped(state, operations, run).1 is Applied,
    ensures
        !state.spent(operations[run.next as int].id),
        !run.executed_ops.contains(operations[run.next as int].id),
        stepped(state, operations, run).0.executed_ops == run.executed_ops.push(operations[run.next as int].id),
{
}

} // verus!
