//! The order that the worker keeps: final slots in chain order, candidate slots
//! behind them in chain order, and every event in the slot of the result that
//! holds it. It is what puts the events of a query in order.

use crate::blockclique::{in_chain_order, slot_of, Chain};
use crate::controller::{all_events, history_events};
use crate::event::{in_slot_order, lemma_selected_keeps_slot_order, placed, selected, EventFilter, EventView};
use crate::execution::OutputView;
use crate::guarantees::{lemma_step_keeps_final, log_in_order};
use crate::ledger::Accounts;
use crate::models::{BlockId, Slot};
use crate::operation::VmReplyView;
use crate::worker::{
    block_at_work, initial_state, is_final, lemma_agreement, lemma_open_from, notified, open_from, resumed,
    rolls_supplied, stop_asked, worker_step, Phase, Rolls, StateView,
};
use vstd::prelude::*;

verus! {

/// Every event of the list was emitted in `slot`.
pub open spec fn all_in_slot(events: Seq<EventView>, slot: Slot) -> bool {
    forall|k: int| 0 <= k < events.len() ==> (#[trigger] events[k]).slot == slot
}

/// The candidate results stand in chain order behind the final slots, each
/// with its own events only.
pub open spec fn history_in_order(final_log: Seq<(Slot, BlockId)>, history: Seq<OutputView>) -> bool {
    &&& forall|i: int, j: int| 0 <= i < j < history.len() ==> (#[trigger] history[i]).slot.lt((#[trigger] history[j]).slot)
    &&& forall|i: int| 0 <= i < history.len() ==> !is_final(final_log, (#[trigger] history[i]).slot)
    &&& forall|i: int| 0 <= i < history.len() ==> all_in_slot((#[trigger] history[i]).events, history[i].slot)
}

/// The order of the worker's state.
pub open spec fn well_ordered(s: StateView) -> bool {
    &&& log_in_order(s.final_log)
    &&& in_slot_order(s.final_events)
    &&& forall|k: int| 0 <= k < s.final_events.len() ==> is_final(s.final_log, (#[trigger] s.final_events[k]).slot)
    &&& history_in_order(s.final_log, s.history)
    &&& in_chain_order(s.finalized)
    &&& in_chain_order(s.blockclique)
    &&& forall|q: int|
        0 <= q < s.queue.len() ==> in_chain_order((#[trigger] s.queue[q]).0) && in_chain_order(s.queue[q].1)
    &&& s.phase == Phase::Executing ==> {
        &&& open_from(s.final_log, s.blockclique, 0) + s.history.len() == s.cursor
        &&& s.cursor <= s.blockclique.len()
        &&& forall|i: int|
            0 <= i < s.history.len() ==> (#[trigger] s.history[i]).slot == s.blockclique[s.cursor - s.history.len()
                + i].slot
    }
    &&& block_at_work(s) matches Some(block) ==> all_in_slot(s.run->0.events, block.slot)
}

/// A worker starts in order.
pub proof fn lemma_initial_state_is_ordered(genesis: Accounts)
    ensures
        well_ordered(initial_state(genesis)),
{
}

/// In chain order, no block from the first open index on sits in a final slot.
pub proof fn lemma_open_blocks_are_not_final(final_log: Seq<(Slot, BlockId)>, blockclique: Chain, i: int)
    requires
        in_chain_order(blockclique),
        open_from(final_log, blockclique, 0) <= i < blockclique.len(),
    ensures
        !is_final(final_log, blockclique[i].slot),
{
    lemma_first_open(final_log, blockclique, 0);
    let first = open_from(final_log, blockclique, 0) as int;
    if first < i {
        assert(slot_of(blockclique, first).lt(slot_of(blockclique, i)));
    }
}

/// The first open index, where it lies within the blockclique, holds a block
/// whose slot is not final.
proof fn lemma_first_open(final_log: Seq<(Slot, BlockId)>, blockclique: Chain, i: nat)
    requires
        i <= blockclique.len(),
    ensures
        open_from(final_log, blockclique, i) < blockclique.len() ==> !is_final(
            final_log,
            blockclique[open_from(final_log, blockclique, i) as int].slot,
        ),
    decreases blockclique.len() - i,
{
    if i < blockclique.len() && is_final(final_log, blockclique[i as int].slot) {
        lemma_first_open(final_log, blockclique, i + 1);
    }
}

/// A step keeps the order.
pub proof fn lemma_step_keeps_order(s: StateView)
    requires
        well_ordered(s),
    ensures
        well_ordered(worker_step(s).0),
{
    let after = worker_step(s).0;
    lemma_step_keeps_final(s);
    match s.phase {
        Phase::Idle => {},
        Phase::Stopped => {},
        Phase::Faulted => {},
        Phase::Reconciling => {
            if !s.stop_requested {
                let start = open_from(s.final_log, s.blockclique, 0);
                lemma_open_from(s.final_log, s.blockclique, 0);
                lemma_agreement(s.history, s.blockclique, start, 0);
            }
        },
        Phase::Finalizing => {
            if after.final_log.len() != s.final_log.len() {
                let block = s.finalized[s.cursor as int];
                let run = s.run->0;
                assert(after.final_log == s.final_log.push((block.slot, block.block_id)));
                assert(!is_final(s.final_log, block.slot));
                let added = placed(run.events, block.slot, Some(block.block_id));
                assert(after.final_events == s.final_events + added) by {
                    if s.final_events.len() > 0 {
                        assert(is_final(s.final_log, s.final_events.last().slot));
                    }
                }
                assert forall|a: int, b: int| 0 <= a < b < after.final_events.len() implies (
                #[trigger] after.final_events[a]).slot.le((#[trigger] after.final_events[b]).slot) by {
                    if b < s.final_events.len() {
                        assert(s.final_events[a].slot.le(s.final_events[b].slot));
                    } else if a < s.final_events.len() {
                        assert(is_final(s.final_log, s.final_events[a].slot));
                    }
                }
                assert forall|k: int| 0 <= k < after.final_events.len() implies is_final(
                    after.final_log,
                    (#[trigger] after.final_events[k]).slot,
                ) by {
                    if k < s.final_events.len() {
                        assert(is_final(s.final_log, s.final_events[k].slot));
                    }
                }
                assert forall|i: int| 0 <= i < after.history.len() implies !is_final(
                    after.final_log,
                    (#[trigger] after.history[i]).slot,
                ) by {
                    assert(after.history[i] == s.history[i + 1]);
                    assert(s.history[0].slot.lt(s.history[i + 1].slot));
                }
                assert forall|i: int, j: int| 0 <= i < j < after.history.len() implies (#[trigger] after.history[i]).slot.lt(
                    (#[trigger] after.history[j]).slot,
                ) by {
                    assert(s.history[i + 1].slot.lt(s.history[j + 1].slot));
                }
                assert forall|i: int| 0 <= i < after.history.len() implies all_in_slot(
                    (#[trigger] after.history[i]).events,
                    after.history[i].slot,
                ) by {
                    assert(all_in_slot(s.history[i + 1].events, s.history[i + 1].slot));
                }
            }
        },
        Phase::Executing => {
            if after.history.len() != s.history.len() {
                let block = s.blockclique[s.cursor as int];
                lemma_open_blocks_are_not_final(s.final_log, s.blockclique, s.cursor as int);
                assert forall|i: int, j: int| 0 <= i < j < after.history.len() implies (#[trigger] after.history[i]).slot.lt(
                    (#[trigger] after.history[j]).slot,
                ) by {
                    if j == s.history.len() {
                        let at = s.cursor - s.history.len() + i;
                        assert(s.history[i].slot == s.blockclique[at].slot);
                        assert(slot_of(s.blockclique, at).lt(
                            slot_of(s.blockclique, s.cursor as int),
                        ));
                    } else {
                        assert(s.history[i].slot.lt(s.history[j].slot));
                    }
                }
                assert forall|i: int| 0 <= i < after.history.len() implies (#[trigger] after.history[i]).slot
                    == after.blockclique[after.cursor - after.history.len() + i].slot by {
                    if i < s.history.len() {
                        assert(s.history[i].slot == s.blockclique[s.cursor - s.history.len() + i].slot);
                    }
                }
            }
        },
    }
}

/// What comes in from outside keeps the order, as long as the blocks of a
/// notification come in chain order.
pub proof fn lemma_inputs_keep_order(
    s: StateView,
    reply: VmReplyView,
    finalized: Chain,
    blockclique: Chain,
    cycle: u64,
    rolls: Rolls,
)
    requires
        well_ordered(s),
    ensures
        well_ordered(resumed(s, reply)),
        in_chain_order(finalized) && in_chain_order(blockclique) ==> well_ordered(
            notified(s, finalized, blockclique),
        ),
        well_ordered(stop_asked(s)),
        well_ordered(rolls_supplied(s, cycle, rolls)),
{
}

/// The events of candidate results in order are in slot order, each in the
/// slot of one of the results.
pub proof fn lemma_history_events_in_order(final_log: Seq<(Slot, BlockId)>, history: Seq<OutputView>)
    requires
        history_in_order(final_log, history),
    ensures
        in_slot_order(history_events(history)),
        forall|k: int|
            0 <= k < history_events(history).len() ==> !is_final(final_log, (#[trigger] history_events(history)[k]).slot),
        forall|k: int|
            0 <= k < history_events(history).len() && history.len() > 0 ==> (#[trigger] history_events(history)[k]).slot.le(
                history.last().slot,
            ),
    decreases history.len(),
{
    if history.len() > 0 {
        let earlier = history.drop_last();
        assert(history_in_order(final_log, earlier)) by {
            assert forall|i: int, j: int| 0 <= i < j < earlier.len() implies (#[trigger] earlier[i]).slot.lt(
                (#[trigger] earlier[j]).slot,
            ) by {
                assert(history[i].slot.lt(history[j].slot));
            }
            assert forall|i: int| 0 <= i < earlier.len() implies !is_final(final_log, (#[trigger] earlier[i]).slot) by {
                assert(!is_final(final_log, history[i].slot));
            }
            assert forall|i: int| 0 <= i < earlier.len() implies all_in_slot(
                (#[trigger] earlier[i]).events,
                earlier[i].slot,
            ) by {
                assert(all_in_slot(history[i].events, history[i].slot));
            }
        }
        lemma_history_events_in_order(final_log, earlier);
        let before = history_events(earlier);
        let last = history.last();
        let all = history_events(history);
        assert(all == before + last.events);
        assert(all_in_slot(last.events, last.slot));
        assert(!is_final(final_log, last.slot));
        if earlier.len() > 0 {
            assert(earlier.last() == history[history.len() - 2]);
            assert(history[history.len() - 2].slot.lt(last.slot));
        }
        assert forall|a: int, b: int| 0 <= a < b < all.len() implies (#[trigger] all[a]).slot.le((#[trigger] all[b]).slot) by {
            if b < before.len() {
                assert(before[a].slot.le(before[b].slot));
            } else if a < before.len() {
                assert(all[b] == last.events[b - before.len()]);
                assert(before[a].slot.le(earlier.last().slot));
            } else {
                assert(all[a] == last.events[a - before.len()]);
                assert(all[b] == last.events[b - before.len()]);
            }
        }
        assert forall|k: int| 0 <= k < all.len() implies !is_final(final_log, (#[trigger] all[k]).slot) && all[k].slot.le(
            last.slot,
        ) by {
            if k < before.len() {
                assert(!is_final(final_log, before[k].slot));
                assert(before[k].slot.le(earlier.last().slot));
            } else {
                assert(all[k] == last.events[k - before.len()]);
            }
        }
    }
}

/// The events of a worker in order are in slot order, those of the final
/// state before those of the candidate state; so is every selection of them.
pub proof fn lemma_events_in_slot_order(s: StateView, filter: EventFilter)
    requires
        well_ordered(s),
    ensures
        in_slot_order(all_events(s)),
        in_slot_order(selected(all_events(s), filter)),
{
    lemma_history_events_in_order(s.final_log, s.history);
    let all = all_events(s);
    let behind = history_events(s.history);
    assert forall|a: int, b: int| 0 <= a < b < all.len() implies (#[trigger] all[a]).slot.le((#[trigger] all[b]).slot) by {
        if b < s.final_events.len() {
            assert(s.final_events[a].slot.le(s.final_events[b].slot));
        } else if a < s.final_events.len() {
            assert(is_final(s.final_log, s.final_events[a].slot));
            assert(all[b] == behind[b - s.final_events.len()]);
            assert(!is_final(s.final_log, behind[b - s.final_events.len()].slot));
        } else {
            assert(all[a] == behind[a - s.final_events.len()]);
            assert(all[b] == behind[b - s.final_events.len()]);
        }
    }
    lemma_selected_keeps_slot_order(all, filter);
}

} // verus!
