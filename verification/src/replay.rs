//! The worker held against a virtual machine that is a function: whatever it
//! is asked to run, its answer depends on the call and on what the call can see
//! of the state, and on nothing else. Against such a machine the execution of
//! a slot has one result, and the candidate state is the replay of the
//! blockclique over the final state.

use crate::blockclique::{BlockView, Chain};
use crate::execution::{
    fresh_run, output_of, pending_call, settled, stepped, visible, Backdrop, OutputView, RunView, StepView,
};
use crate::ledger::{lemma_fold_oldest_layer, overlaid, Accounts, LedgerEntryView};
use crate::models::{Address, BlockId, OperationId, Slot};
use crate::operation::{OperationView, VmReplyView, VmRequestView};
use crate::worker::{
    advanced, agreement_from, backdrop_at_work, block_at_work, blocks_left, candidate_backdrop, final_backdrop,
    initial_state, is_final, lemma_agreement, lemma_open_from, notified, open_from, phase_rank, resumed,
    rolls_supplied, same_block, steps_left_in_slot, stop_asked, worker_step, Phase, Rolls, StateView,
};
use vstd::prelude::*;

verus! {

/// What a call can see of the state: the entry of each address.
pub type Sight = spec_fn(Address) -> Option<LedgerEntryView>;

/// A virtual machine that is a function of the call and of what the call sees.
pub type Machine = spec_fn(VmRequestView, Sight) -> VmReplyView;

/// What the running slot sees.
pub open spec fn sight(state: Backdrop, changes: Accounts) -> Sight {
    |address: Address| visible(state.ledger, state.layers(), changes, address)
}

/// The execution brought to its end, with `vm` answering every call.
pub open spec fn completed(
    vm: Machine,
    state: Backdrop,
    slot: Slot,
    block_id: Option<BlockId>,
    operations: Seq<OperationView>,
    run: RunView,
) -> RunView
    decreases operations.len() - run.next, (if run.awaiting {
            0nat
        } else {
            1nat
        }),
{
    if run.next >= operations.len() {
        run
    } else if run.awaiting {
        match pending_call(state, operations, run) {
            Some(request) => completed(
                vm,
                state,
                slot,
                block_id,
                operations,
                settled(slot, block_id, operations, run, vm(request, sight(state, run.changes))),
            ),
            None => run,
        }
    } else {
        completed(vm, state, slot, block_id, operations, stepped(state, operations, run).0)
    }
}

/// The result of executing `block` on `state`, with `vm` answering every call.
pub open spec fn slot_result(vm: Machine, state: Backdrop, block: BlockView) -> OutputView {
    output_of(
        block.slot,
        Some(block.block_id),
        completed(vm, state, block.slot, Some(block.block_id), block.operations, fresh_run()),
    )
}

/// The execution is on its way to the one result of the slot.
pub open spec fn on_course(vm: Machine, state: Backdrop, block: BlockView, run: RunView) -> bool {
    completed(vm, state, block.slot, Some(block.block_id), block.operations, run) == completed(
        vm,
        state,
        block.slot,
        Some(block.block_id),
        block.operations,
        fresh_run(),
    )
}

/// Execution is deterministic: the state, the slot and its operations decide
/// the result. Every execution that starts afresh is on course; a step keeps it
/// on course, and so does the answer of the machine to the call it waits for;
/// and an execution on course that has finished holds the one result of the
/// slot. So two executions of one slot on one state end with the same entries
/// written, the same events, and the same operations applied and skipped.
pub proof fn lemma_execution_is_deterministic(vm: Machine, state: Backdrop, block: BlockView, run: RunView)
    ensures
        on_course(vm, state, block, fresh_run()),
        on_course(vm, state, block, run) ==> on_course(vm, state, block, stepped(state, block.operations, run).0),
        stepped(state, block.operations, run).1 matches StepView::NeedsVm(request) ==> pending_call(
            state,
            block.operations,
            stepped(state, block.operations, run).0,
        ) == Some(request),
        on_course(vm, state, block, run) ==> (pending_call(state, block.operations, run) matches Some(request)
            ==> on_course(
            vm,
            state,
            block,
            settled(block.slot, Some(block.block_id), block.operations, run, vm(request, sight(state, run.changes))),
        )),
        on_course(vm, state, block, run) && stepped(state, block.operations, run).1 is Finished ==> output_of(
            block.slot,
            Some(block.block_id),
            run,
        ) == slot_result(vm, state, block),
{
}

/// Two states are alike: they show the same entry for every address, and the
/// same operations were applied on the way to them.
pub open spec fn alike(state: Backdrop, other: Backdrop) -> bool {
    &&& forall|address: Address| state.entry(address) == other.entry(address)
    &&& forall|id: OperationId| state.spent(id) == other.spent(id)
}

/// What a slot comes to depends on the state only through what can be seen of
/// it and through the operations that were applied on the way to it: two
/// states that are alike give the same result.
pub proof fn lemma_sight_decides(
    vm: Machine,
    state: Backdrop,
    other: Backdrop,
    slot: Slot,
    block_id: Option<BlockId>,
    operations: Seq<OperationView>,
    run: RunView,
)
    requires
        alike(state, other),
    ensures
        completed(vm, state, slot, block_id, operations, run) == completed(
            vm,
            other,
            slot,
            block_id,
            operations,
            run,
        ),
    decreases operations.len() - run.next, (if run.awaiting {
            0nat
        } else {
            1nat
        }),
{
    assert forall|address: Address, changes: Accounts|
        visible(state.ledger, state.layers(), changes, address) == visible(
            other.ledger,
            other.layers(),
            changes,
            address,
        ) by {
        assert(state.entry(address) == other.entry(address));
    }
    if run.next >= operations.len() {
    } else if run.awaiting {
        assert(sight(state, run.changes) =~= sight(other, run.changes));
        match pending_call(state, operations, run) {
            Some(request) => {
                let next = settled(slot, block_id, operations, run, vm(request, sight(state, run.changes)));
                lemma_sight_decides(vm, state, other, slot, block_id, operations, next);
            },
            None => {},
        }
    } else {
        let op = operations[run.next as int];
        assert(state.spent(op.id) == other.spent(op.id));
        let next = stepped(state, operations, run).0;
        assert(next == stepped(other, operations, run).0);
        lemma_sight_decides(vm, state, other, slot, block_id, operations, next);
    }
}

/// The results of executing the blocks of `chain` one after the other, the
/// first on the state given by `ledger` and the operations in `executed` that
/// led to it, each of the others on what the ones before it left.
pub open spec fn replayed(vm: Machine, ledger: Accounts, executed: Seq<OperationId>, chain: Chain) -> Seq<
    OutputView,
>
    decreases chain.len(),
{
    if chain.len() == 0 {
        Seq::empty()
    } else {
        let earlier = replayed(vm, ledger, executed, chain.drop_last());
        earlier.push(slot_result(vm, Backdrop { ledger, executed_ops: executed, outputs: earlier }, chain.last()))
    }
}

/// A replay has one result for each block, in the slot and under the
/// identifier of the block, and the replay of a part of the chain is that part
/// of the replay.
pub proof fn lemma_replayed_prefix(vm: Machine, ledger: Accounts, executed: Seq<OperationId>, chain: Chain, n: int)
    requires
        0 <= n <= chain.len(),
    ensures
        replayed(vm, ledger, executed, chain).len() == chain.len(),
        replayed(vm, ledger, executed, chain.take(n)) == replayed(vm, ledger, executed, chain).take(n),
        forall|i: int|
            0 <= i < chain.len() ==> same_block(#[trigger] replayed(vm, ledger, executed, chain)[i], chain[i]),
    decreases chain.len(),
{
    if chain.len() > 0 {
        let shorter = chain.drop_last();
        if n == chain.len() {
            assert(chain.take(n) =~= chain);
            lemma_replayed_prefix(vm, ledger, executed, shorter, 0);
            assert(replayed(vm, ledger, executed, chain).take(n) =~= replayed(vm, ledger, executed, chain));
        } else {
            lemma_replayed_prefix(vm, ledger, executed, shorter, n);
            assert(chain.take(n) =~= shorter.take(n));
            assert(replayed(vm, ledger, executed, chain).take(n) =~= replayed(vm, ledger, executed, shorter).take(
                n,
            ));
        }
    } else {
        assert(chain.take(n) =~= chain);
        assert(replayed(vm, ledger, executed, chain).take(n) =~= replayed(vm, ledger, executed, chain));
    }
}

/// A state with its oldest result folded into the ledger, and into the
/// operations that led to it, is like the state before.
pub proof fn lemma_folded_state_is_alike(state: Backdrop)
    requires
        state.outputs.len() > 0,
    ensures
        alike(
            Backdrop {
                ledger: overlaid(state.ledger, state.outputs[0].changes),
                executed_ops: state.executed_ops + state.outputs[0].executed_ops,
                outputs: state.outputs.drop_first(),
            },
            state,
        ),
{
    let first = state.outputs[0];
    let rest = state.outputs.drop_first();
    let folded = Backdrop {
        ledger: overlaid(state.ledger, first.changes),
        executed_ops: state.executed_ops + first.executed_ops,
        outputs: rest,
    };
    assert(folded.layers() =~= state.layers().drop_first());
    assert(state.layers()[0] == first.changes);
    assert forall|address: Address| folded.entry(address) == state.entry(address) by {
        lemma_fold_oldest_layer(state.ledger, state.layers(), address);
    }
    assert forall|id: OperationId| folded.spent(id) == state.spent(id) by {
        if folded.spent(id) {
            if folded.executed_ops.contains(id) {
                let k = choose|k: int| 0 <= k < folded.executed_ops.len() && folded.executed_ops[k] == id;
                if k < state.executed_ops.len() {
                    assert(state.executed_ops[k] == id);
                } else {
                    assert(first.executed_ops[k - state.executed_ops.len()] == id);
                    assert(state.outputs[0].executed_ops.contains(id));
                }
            } else {
                let i = choose|i: int| 0 <= i < rest.len() && (#[trigger] rest[i]).executed_ops.contains(id);
                assert(state.outputs[i + 1].executed_ops.contains(id));
            }
        }
        if state.spent(id) {
            if state.executed_ops.contains(id) {
                let k = choose|k: int| 0 <= k < state.executed_ops.len() && state.executed_ops[k] == id;
                assert(folded.executed_ops[k] == id);
            } else {
                let i = choose|i: int| 0 <= i < state.outputs.len() && (#[trigger] state.outputs[i]).executed_ops.contains(
                    id,
                );
                if i == 0 {
                    let k = choose|k: int| 0 <= k < first.executed_ops.len() && first.executed_ops[k] == id;
                    assert(folded.executed_ops[state.executed_ops.len() + k] == id);
                } else {
                    assert(rest[i - 1].executed_ops.contains(id));
                }
            }
        }
    }
}

/// Once the first result of a replay is folded into the state it started
/// from, the replay of the rest over the new state is the rest of the replay.
pub proof fn lemma_replay_over_folded_base(vm: Machine, ledger: Accounts, executed: Seq<OperationId>, chain: Chain)
    requires
        chain.len() > 0,
    ensures
        replayed(
            vm,
            overlaid(ledger, replayed(vm, ledger, executed, chain)[0].changes),
            executed + replayed(vm, ledger, executed, chain)[0].executed_ops,
            chain.drop_first(),
        ) == replayed(vm, ledger, executed, chain).drop_first(),
    decreases chain.len(),
{
    let all = replayed(vm, ledger, executed, chain);
    lemma_replayed_prefix(vm, ledger, executed, chain, 1);
    let folded = overlaid(ledger, all[0].changes);
    let spent = executed + all[0].executed_ops;
    if chain.len() == 1 {
        assert(chain.drop_first().len() == 0);
        assert(all.drop_first() =~= Seq::empty());
    } else {
        let shorter = chain.drop_last();
        let earlier = replayed(vm, ledger, executed, shorter);
        lemma_replayed_prefix(vm, ledger, executed, shorter, 1);
        lemma_replayed_prefix(vm, ledger, executed, chain, chain.len() - 1);
        assert(chain.take(chain.len() - 1) =~= shorter);
        assert(earlier[0] == all[0]);
        lemma_replay_over_folded_base(vm, ledger, executed, shorter);
        assert(chain.drop_first().drop_last() =~= shorter.drop_first());
        assert(chain.drop_first().last() == chain.last());
        let rest = replayed(vm, folded, spent, shorter.drop_first());
        assert(rest == earlier.drop_first());
        // the last block is executed on a state that is like the one before
        let before = Backdrop { ledger, executed_ops: executed, outputs: earlier };
        let after = Backdrop { ledger: folded, executed_ops: spent, outputs: rest };
        lemma_folded_state_is_alike(before);
        lemma_sight_decides(
            vm,
            after,
            before,
            chain.last().slot,
            Some(chain.last().block_id),
            chain.last().operations,
            fresh_run(),
        );
        assert(all.drop_first() =~= earlier.drop_first().push(all.last()));
    }
}

/// Blocks are named by their content: in the two chains, blocks with one
/// identifier hold the same operations.
pub open spec fn named_by_content(a: Chain, b: Chain) -> bool {
    forall|i: int, j: int|
        0 <= i < a.len() && 0 <= j < b.len() && (#[trigger] a[i]).block_id == (#[trigger] b[j]).block_id
            ==> a[i].operations == b[j].operations
}

/// The worker follows `vm`: its candidate state is the replay of `chain` over
/// its final state, the slot it is executing is on course, it has not faulted,
/// and while it executes the blockclique, `chain` is the part of the
/// blockclique between its first slot that is not final and the block at work.
pub open spec fn follows(vm: Machine, s: StateView, chain: Chain) -> bool {
    &&& s.phase != Phase::Faulted
    &&& s.history == replayed(vm, s.final_ledger, s.final_executed_ops, chain)
    &&& s.phase == Phase::Executing ==> {
        &&& s.cursor == open_from(s.final_log, s.blockclique, 0) + chain.len()
        &&& s.cursor <= s.blockclique.len()
        &&& chain == s.blockclique.subrange(s.cursor - chain.len(), s.cursor as int)
    }
    &&& block_at_work(s) matches Some(block) ==> on_course(vm, backdrop_at_work(s), block, s.run->0)
}

/// The blocks that the candidate state stands for after a step of a worker
/// whose candidate state stood for `chain`.
pub open spec fn chain_after_step(s: StateView, chain: Chain) -> Chain {
    let after = worker_step(s).0;
    if after.history.len() == chain.len() + 1 && s.phase == Phase::Executing {
        chain.push(s.blockclique[s.cursor as int])
    } else if after.history.len() + 1 == chain.len() && s.phase == Phase::Finalizing {
        chain.drop_first()
    } else {
        chain.take(after.history.len() as int)
    }
}

/// A step keeps the worker on the side of the machine, and never faults it.
pub proof fn lemma_step_follows(vm: Machine, s: StateView, chain: Chain)
    requires
        follows(vm, s, chain),
        named_by_content(chain, s.finalized),
        named_by_content(chain, s.blockclique),
    ensures
        follows(vm, worker_step(s).0, chain_after_step(s, chain)),
{
    let after = worker_step(s).0;
    let next_chain = chain_after_step(s, chain);
    lemma_replayed_prefix(vm, s.final_ledger, s.final_executed_ops, chain, 0);
    match s.phase {
        Phase::Idle => {
            assert(next_chain =~= chain);
        },
        Phase::Stopped => {
            assert(next_chain =~= chain);
        },
        Phase::Faulted => {},
        Phase::Reconciling => {
            if s.stop_requested {
                assert(next_chain =~= chain);
            } else {
                let start = open_from(s.final_log, s.blockclique, 0);
                let keep = agreement_from(s.history, s.blockclique, start, 0);
                lemma_open_from(s.final_log, s.blockclique, 0);
                lemma_agreement(s.history, s.blockclique, start, 0);
                lemma_replayed_prefix(vm, s.final_ledger, s.final_executed_ops, chain, keep as int);
                assert(next_chain == chain.take(keep as int));
                assert(chain.take(keep as int) =~= s.blockclique.subrange(start as int, (start + keep) as int)) by {
                    assert forall|i: int| 0 <= i < keep implies chain[i] == s.blockclique[start + i] by {
                        assert(same_block(s.history[i], chain[i]));
                        assert(same_block(s.history[i], s.blockclique[start + i]));
                    }
                }
            }
        },
        Phase::Finalizing => {
            match s.run {
                Some(run) => {
                    if s.cursor >= s.finalized.len() || is_final(s.final_log, s.finalized[s.cursor as int].slot) {
                        assert(next_chain =~= chain);
                    } else {
                        let block = s.finalized[s.cursor as int];
                        lemma_execution_is_deterministic(vm, final_backdrop(s), block, run);
                        let outcome = stepped(final_backdrop(s), block.operations, run).1;
                        if outcome is Finished {
                            let output = output_of(block.slot, Some(block.block_id), run);
                            assert(output == slot_result(vm, final_backdrop(s), block));
                            let repeated = s.history.len() > 0 && s.history[0].slot == block.slot
                                && s.history[0].block_id == Some(block.block_id);
                            if repeated {
                                assert(same_block(s.history[0], chain[0]));
                                assert(chain[0] == block);
                                lemma_replayed_prefix(vm, s.final_ledger, s.final_executed_ops, chain, 1);
                                let first = chain.take(1);
                                assert(first.drop_last().len() == 0);
                                assert(first.last() == chain[0]);
                                let none = replayed(vm, s.final_ledger, s.final_executed_ops, first.drop_last());
                                assert(none =~= Seq::empty());
                                assert(replayed(vm, s.final_ledger, s.final_executed_ops, first) == none.push(
                                    slot_result(vm, final_backdrop(s), first.last()),
                                ));
                                assert(s.history[0] == replayed(vm, s.final_ledger, s.final_executed_ops, first)[0]);
                                assert(s.history[0] == output);
                                lemma_replay_over_folded_base(vm, s.final_ledger, s.final_executed_ops, chain);
                                assert(next_chain == chain.drop_first());
                            } else {
                                assert(next_chain =~= Chain::empty());
                            }
                        } else {
                            assert(next_chain =~= chain);
                        }
                    }
                },
                None => {
                    assert(next_chain =~= chain);
                    if !s.stop_requested && s.cursor < s.finalized.len() && !is_final(
                        s.final_log,
                        s.finalized[s.cursor as int].slot,
                    ) {
                        lemma_execution_is_deterministic(
                            vm,
                            final_backdrop(s),
                            s.finalized[s.cursor as int],
                            fresh_run(),
                        );
                    }
                },
            }
        },
        Phase::Executing => {
            match s.run {
                Some(run) => {
                    if s.cursor >= s.blockclique.len() {
                        assert(next_chain =~= chain);
                    } else {
                        let block = s.blockclique[s.cursor as int];
                        lemma_execution_is_deterministic(vm, candidate_backdrop(s), block, run);
                        let outcome = stepped(candidate_backdrop(s), block.operations, run).1;
                        if outcome is Finished {
                            assert(next_chain == chain.push(block));
                            assert(next_chain.drop_last() =~= chain);
                            assert(next_chain =~= s.blockclique.subrange(s.cursor - chain.len(), (s.cursor + 1) as int));
                        } else {
                            assert(next_chain =~= chain);
                        }
                    }
                },
                None => {
                    assert(next_chain =~= chain);
                    if !s.stop_requested && s.cursor < s.blockclique.len() {
                        lemma_execution_is_deterministic(
                            vm,
                            candidate_backdrop(s),
                            s.blockclique[s.cursor as int],
                            fresh_run(),
                        );
                    }
                },
            }
        },
    }
}

/// The worker holds `block`: among the blocks that its candidate state stands
/// for, in the notification at work, or in one that waits.
pub open spec fn holds_block(s: StateView, chain: Chain, block: BlockView) -> bool {
    ||| chain.contains(block)
    ||| s.finalized.contains(block)
    ||| s.blockclique.contains(block)
    ||| exists|q: int| 0 <= q < s.queue.len() && (#[trigger] s.queue[q]).0.contains(block)
    ||| exists|q: int| 0 <= q < s.queue.len() && (#[trigger] s.queue[q]).1.contains(block)
}

/// Every block that the worker holds is named by its content: two of them
/// with one identifier hold the same operations.
pub open spec fn content_named(s: StateView, chain: Chain) -> bool {
    forall|x: BlockView, y: BlockView|
        #![trigger holds_block(s, chain, x), holds_block(s, chain, y)]
        holds_block(s, chain, x) && holds_block(s, chain, y) && x.block_id == y.block_id ==> x.operations
            == y.operations
}

/// A step brings no block to the worker that it did not hold.
pub proof fn lemma_step_holds_no_new_block(s: StateView, chain: Chain, block: BlockView)
    requires
        holds_block(worker_step(s).0, chain_after_step(s, chain), block),
        chain.len() == s.history.len(),
        s.phase == Phase::Executing ==> s.cursor <= s.blockclique.len(),
    ensures
        holds_block(s, chain, block),
{
    let after = worker_step(s).0;
    let next_chain = chain_after_step(s, chain);
    if next_chain.contains(block) {
        let i = choose|i: int| 0 <= i < next_chain.len() && next_chain[i] == block;
        if after.history.len() == chain.len() + 1 && s.phase == Phase::Executing {
            if i < chain.len() {
                assert(chain[i] == block);
            } else {
                assert(s.blockclique[s.cursor as int] == block);
            }
        } else if after.history.len() + 1 == chain.len() && s.phase == Phase::Finalizing {
            assert(chain[i + 1] == block);
        } else {
            if s.phase == Phase::Reconciling && !s.stop_requested {
                let start = open_from(s.final_log, s.blockclique, 0);
                lemma_open_from(s.final_log, s.blockclique, 0);
                lemma_agreement(s.history, s.blockclique, start, 0);
            }
            assert(after.history.len() <= s.history.len());
            assert(next_chain == chain.take(after.history.len() as int));
            assert(chain[i] == block);
        }
    } else if after.finalized.contains(block) {
        if after.finalized != s.finalized {
            assert(s.queue[0].0.contains(block));
        }
    } else if after.blockclique.contains(block) {
        if after.blockclique != s.blockclique {
            assert(s.queue[0].1.contains(block));
        }
    } else {
        if after.queue != s.queue {
            if exists|q: int| 0 <= q < after.queue.len() && (#[trigger] after.queue[q]).0.contains(block) {
                let q = choose|q: int| 0 <= q < after.queue.len() && (#[trigger] after.queue[q]).0.contains(block);
                assert(s.queue[q + 1].0.contains(block));
            } else {
                let q = choose|q: int| 0 <= q < after.queue.len() && (#[trigger] after.queue[q]).1.contains(block);
                assert(s.queue[q + 1].1.contains(block));
            }
        }
    }
}

/// The blocks that the candidate state stands for once the worker has come to
/// rest, if it stood for `chain`.
pub open spec fn chain_at_rest(s: StateView, chain: Chain) -> Chain
    decreases s.queue.len(), phase_rank(s.phase), blocks_left(s), steps_left_in_slot(s),
{
    let next = worker_step(s);
    if next.1 is Continue {
        chain_at_rest(next.0, chain_after_step(s, chain))
    } else {
        chain_after_step(s, chain)
    }
}

/// Brought to rest, a worker that follows the machine still follows it, as
/// long as the blocks it holds are named by their content.
pub proof fn lemma_advance_follows(vm: Machine, s: StateView, chain: Chain)
    requires
        follows(vm, s, chain),
        content_named(s, chain),
    ensures
        follows(vm, advanced(s).0, chain_at_rest(s, chain)),
        content_named(advanced(s).0, chain_at_rest(s, chain)),
    decreases s.queue.len(), phase_rank(s.phase), blocks_left(s), steps_left_in_slot(s),
{
    let next = worker_step(s);
    let next_chain = chain_after_step(s, chain);
    lemma_replayed_prefix(vm, s.final_ledger, s.final_executed_ops, chain, 0);
    assert(named_by_content(chain, s.finalized)) by {
        assert forall|i: int, j: int|
            0 <= i < chain.len() && 0 <= j < s.finalized.len() && (#[trigger] chain[i]).block_id == (
            #[trigger] s.finalized[j]).block_id implies chain[i].operations == s.finalized[j].operations by {
            assert(holds_block(s, chain, chain[i]));
            assert(holds_block(s, chain, s.finalized[j]));
        }
    }
    assert(named_by_content(chain, s.blockclique)) by {
        assert forall|i: int, j: int|
            0 <= i < chain.len() && 0 <= j < s.blockclique.len() && (#[trigger] chain[i]).block_id == (
            #[trigger] s.blockclique[j]).block_id implies chain[i].operations == s.blockclique[j].operations by {
            assert(holds_block(s, chain, chain[i]));
            assert(holds_block(s, chain, s.blockclique[j]));
        }
    }
    lemma_step_follows(vm, s, chain);
    assert(content_named(next.0, next_chain)) by {
        assert forall|x: BlockView, y: BlockView|
            #![trigger holds_block(next.0, next_chain, x), holds_block(next.0, next_chain, y)]
            holds_block(next.0, next_chain, x) && holds_block(next.0, next_chain, y) && x.block_id
                == y.block_id implies x.operations == y.operations by {
            lemma_step_holds_no_new_block(s, chain, x);
            lemma_step_holds_no_new_block(s, chain, y);
        }
    }
    if next.1 is Continue {
        lemma_advance_follows(vm, next.0, next_chain);
    }
}

/// The answer of the machine to the call that the worker waits for keeps the
/// worker on the side of the machine.
pub proof fn lemma_answer_follows(vm: Machine, s: StateView, chain: Chain, reply: VmReplyView)
    requires
        follows(vm, s, chain),
        block_at_work(s) matches Some(block) ==> (pending_call(backdrop_at_work(s), block.operations, s.run->0) matches Some(
            request,
        ) && reply == vm(request, sight(backdrop_at_work(s), s.run->0.changes))),
    ensures
        follows(vm, resumed(s, reply), chain),
{
    match block_at_work(s) {
        Some(block) => {
            lemma_execution_is_deterministic(vm, backdrop_at_work(s), block, s.run->0);
        },
        None => {},
    }
}

/// A worker starts on the side of every machine, and what comes in from
/// outside besides answers leaves it there: a notification, a request to stop,
/// roll counts. An answer that the worker does not wait for is dropped.
pub proof fn lemma_inputs_follow(
    vm: Machine,
    s: StateView,
    chain: Chain,
    genesis: Accounts,
    finalized: Chain,
    blockclique: Chain,
    cycle: u64,
    rolls: Rolls,
    reply: VmReplyView,
)
    ensures
        follows(vm, initial_state(genesis), Chain::empty()),
        follows(vm, s, chain) ==> follows(vm, notified(s, finalized, blockclique), chain),
        follows(vm, s, chain) ==> follows(vm, stop_asked(s), chain),
        follows(vm, s, chain) ==> follows(vm, rolls_supplied(s, cycle, rolls), chain),
        s.run matches Some(run) && !run.awaiting ==> resumed(s, reply) == s,
        s.run is None ==> resumed(s, reply) == s,
        content_named(initial_state(genesis), Chain::empty()),
        content_named(s, chain) ==> content_named(resumed(s, reply), chain),
        content_named(s, chain) ==> content_named(stop_asked(s), chain),
        content_named(s, chain) ==> content_named(rolls_supplied(s, cycle, rolls), chain),
{
    assert(replayed(vm, genesis, Seq::empty(), Chain::empty()) =~= Seq::empty());
    if content_named(s, chain) {
        let stopped = stop_asked(s);
        assert forall|x: BlockView, y: BlockView|
            #![trigger holds_block(stopped, chain, x), holds_block(stopped, chain, y)]
            holds_block(stopped, chain, x) && holds_block(stopped, chain, y) && x.block_id
                == y.block_id implies x.operations == y.operations by {
            assert(holds_block(s, chain, x));
            assert(holds_block(s, chain, y));
        }
        let answered = resumed(s, reply);
        assert forall|x: BlockView, y: BlockView|
            #![trigger holds_block(answered, chain, x), holds_block(answered, chain, y)]
            holds_block(answered, chain, x) && holds_block(answered, chain, y) && x.block_id
                == y.block_id implies x.operations == y.operations by {
            assert(holds_block(s, chain, x));
            assert(holds_block(s, chain, y));
        }
        let supplied = rolls_supplied(s, cycle, rolls);
        assert forall|x: BlockView, y: BlockView|
            #![trigger holds_block(supplied, chain, x), holds_block(supplied, chain, y)]
            holds_block(supplied, chain, x) && holds_block(supplied, chain, y) && x.block_id
                == y.block_id implies x.operations == y.operations by {
            assert(holds_block(s, chain, x));
            assert(holds_block(s, chain, y));
        }
    }
}

/// Reconciliation is correct. When a worker that follows the machine has
/// worked a notification off, its candidate state is what comes of starting
/// from the final state and executing, in chain order, the blocks of the new
/// blockclique whose slots are not final.
pub proof fn lemma_candidate_is_replay_of_blockclique(vm: Machine, s: StateView, chain: Chain)
    requires
        follows(vm, s, chain),
        s.phase == Phase::Executing,
        s.run is None,
        s.cursor >= s.blockclique.len(),
    ensures
        worker_step(s).0.phase == Phase::Idle || worker_step(s).0.phase == Phase::Stopped,
        worker_step(s).0.history == replayed(
            vm,
            s.final_ledger,
            s.final_executed_ops,
            s.blockclique.skip(open_from(s.final_log, s.blockclique, 0) as int),
        ),
        worker_step(s).0.final_ledger == s.final_ledger,
{
    assert(chain =~= s.blockclique.skip(open_from(s.final_log, s.blockclique, 0) as int));
}

} // verus!
