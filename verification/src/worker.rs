//! The execution worker: the one place that owns the final state and the
//! candidate state. It takes notifications of finalized blocks and of the
//! blockclique in the order in which they come, and works through each of them
//! in small steps: finalize, reconcile, execute. The virtual machine is not
//! part of it: where a step needs a contract to run, the step hands out the
//! call, and the answer is handed back in.

use crate::blockclique::{BlockView, Chain, SlotBlocks};
use crate::event::{recorded, EventStore, EventView};
use crate::execution::{
    fresh_run, lookup_layered, output_of, output_views, settled, stepped, visible, Backdrop, ExecutionOutput,
    OutputView, RunView, SlotRun, StepOutcome, StepView,
};
use crate::ledger::{entry_of, overlaid, Accounts, Ledger, LedgerEntry, LedgerEntryView};
use crate::models::{Address, BlockId, OperationId, Slot};
use crate::operation::{VmReply, VmReplyView, VmRequest, VmRequestView};
use crate::once::{
    applied_once, lemma_initial_state_applied_once, lemma_inputs_apply_once, lemma_step_applies_once,
};
use crate::order::{lemma_initial_state_is_ordered, lemma_inputs_keep_order, lemma_step_keeps_order, well_ordered};
use vstd::prelude::*;

verus! {

/// What the worker is doing.
#[derive(Clone, Copy, PartialEq, Eq, Structural, Debug)]
pub enum Phase {
    /// Between two notifications.
    Idle,
    /// Applying the finalized blocks of a notification to the final state.
    Finalizing,
    /// Cutting the candidate state back to where the new blockclique leaves the old one.
    Reconciling,
    /// Executing the slots of the new blockclique that the candidate state lacks.
    Executing,
    /// Stopped for good, on request.
    Stopped,
    /// Stopped for good, because an execution did not repeat itself.
    Faulted,
}

/// What the worker asks of whoever drives it.
#[derive(Debug)]
pub enum WorkerAction {
    /// Step again.
    Continue,
    /// Nothing to do until the next notification.
    Wait,
    /// Run this call on the virtual machine and hand the answer back.
    RunVm(VmRequest),
    /// The answer to the last call is still missing.
    AwaitingVm,
    /// The worker has stopped.
    Halt,
}

/// A request of the worker as plain values.
pub enum ActionView {
    Continue,
    Wait,
    RunVm(VmRequestView),
    AwaitingVm,
    Halt,
}

impl View for WorkerAction {
    type V = ActionView;

    open spec fn view(&self) -> ActionView {
        match *self {
            WorkerAction::Continue => ActionView::Continue,
            WorkerAction::Wait => ActionView::Wait,
            WorkerAction::RunVm(request) => ActionView::RunVm(request@),
            WorkerAction::AwaitingVm => ActionView::AwaitingVm,
            WorkerAction::Halt => ActionView::Halt,
        }
    }
}

/// The state of the worker as plain values.
pub struct StateView {
    /// Ledger of the final state.
    pub final_ledger: Accounts,
    /// Slots applied to the final state with their blocks, in the order of application.
    pub final_log: Seq<(Slot, BlockId)>,
    /// Events of the final state.
    pub final_events: Seq<EventView>,
    /// Operations applied in the final state.
    pub final_executed_ops: Seq<OperationId>,
    /// The candidate state: results of the slots executed beyond the final state, oldest first.
    pub history: Seq<OutputView>,
    /// Roll counts by cycle, as they were supplied.
    pub roll_snapshots: Seq<(u64, Seq<(Address, u64)>)>,
    /// Notifications that wait: finalized blocks and blockclique of each.
    pub queue: Seq<(Chain, Chain)>,
    pub phase: Phase,
    /// Finalized blocks of the notification at work.
    pub finalized: Chain,
    /// Blockclique of the notification at work.
    pub blockclique: Chain,
    /// Index of the block at work: in `finalized` while finalizing, in `blockclique` while executing.
    pub cursor: nat,
    /// Execution of the slot at work.
    pub run: Option<RunView>,
    /// Whether the worker was asked to stop.
    pub stop_requested: bool,
}

/// The state before anything happened, over the ledger `genesis`.
pub open spec fn initial_state(genesis: Accounts) -> StateView {
    StateView {
        final_ledger: genesis,
        final_log: Seq::empty(),
        final_events: Seq::empty(),
        final_executed_ops: Seq::empty(),
        history: Seq::empty(),
        roll_snapshots: Seq::empty(),
        queue: Seq::empty(),
        phase: Phase::Idle,
        finalized: Seq::empty(),
        blockclique: Seq::empty(),
        cursor: 0,
        run: None,
        stop_requested: false,
    }
}

/// Whether `slot` is final: at or before the last slot applied to the final state.
pub open spec fn is_final(final_log: Seq<(Slot, BlockId)>, slot: Slot) -> bool {
    final_log.len() > 0 && slot.le(final_log.last().0)
}

/// Whether `output` is the result of the slot and block of `block`.
pub open spec fn same_block(output: OutputView, block: BlockView) -> bool {
    output.slot == block.slot && output.block_id == Some(block.block_id)
}

/// The first index from `i` on whose block sits in a slot that is not final.
pub open spec fn open_from(final_log: Seq<(Slot, BlockId)>, blockclique: Chain, i: nat) -> nat
    decreases blockclique.len() - i,
{
    if i < blockclique.len() && is_final(final_log, blockclique[i as int].slot) {
        open_from(final_log, blockclique, i + 1)
    } else {
        i
    }
}

/// How many results of `history`, counted from result `k` on and added to `k`,
/// are those of the blocks that `blockclique` holds from index `start + k` on.
pub open spec fn agreement_from(history: Seq<OutputView>, blockclique: Chain, start: nat, k: nat) -> nat
    decreases history.len() - k,
{
    if k < history.len() && start + k < blockclique.len() && same_block(
        history[k as int],
        blockclique[(start + k) as int],
    ) {
        agreement_from(history, blockclique, start, k + 1)
    } else {
        k
    }
}

/// The first open index lies within the blockclique, or right behind it.
pub proof fn lemma_open_from(final_log: Seq<(Slot, BlockId)>, blockclique: Chain, i: nat)
    requires
        i <= blockclique.len(),
    ensures
        i <= open_from(final_log, blockclique, i) <= blockclique.len(),
    decreases blockclique.len() - i,
{
    if i < blockclique.len() && is_final(final_log, blockclique[i as int].slot) {
        lemma_open_from(final_log, blockclique, i + 1);
    }
}

/// What the count of confirmed results says: every result before it is that
/// of its block, it is no more than there are results and blocks, and the
/// result at it, if there is one, is not that of the block at its place.
pub proof fn lemma_agreement(history: Seq<OutputView>, blockclique: Chain, start: nat, k: nat)
    requires
        k <= history.len(),
        start + k <= blockclique.len(),
        forall|i: int| 0 <= i < k ==> same_block(#[trigger] history[i], blockclique[start + i]),
    ensures
        k <= agreement_from(history, blockclique, start, k) <= history.len(),
        start + agreement_from(history, blockclique, start, k) <= blockclique.len(),
        forall|i: int|
            0 <= i < agreement_from(history, blockclique, start, k) ==> same_block(
                #[trigger] history[i],
                blockclique[start + i],
            ),
        agreement_from(history, blockclique, start, k) < history.len() && start + agreement_from(
            history,
            blockclique,
            start,
            k,
        ) < blockclique.len() ==> !same_block(
            history[agreement_from(history, blockclique, start, k) as int],
            blockclique[(start + agreement_from(history, blockclique, start, k)) as int],
        ),
    decreases history.len() - k,
{
    if k < history.len() && start + k < blockclique.len() && same_block(
        history[k as int],
        blockclique[(start + k) as int],
    ) {
        lemma_agreement(history, blockclique, start, k + 1);
    }
}

/// The final state as a state to execute a slot on.
pub open spec fn final_backdrop(s: StateView) -> Backdrop {
    Backdrop { ledger: s.final_ledger, executed_ops: s.final_executed_ops, outputs: Seq::empty() }
}

/// The candidate state as a state to execute a slot on.
pub open spec fn candidate_backdrop(s: StateView) -> Backdrop {
    Backdrop { ledger: s.final_ledger, executed_ops: s.final_executed_ops, outputs: s.history }
}

/// The state with a notification added to those that wait. A worker that has
/// stopped takes none.
pub open spec fn notified(s: StateView, finalized: Chain, blockclique: Chain) -> StateView {
    if s.phase == Phase::Stopped || s.phase == Phase::Faulted {
        s
    } else {
        StateView { queue: s.queue.push((finalized, blockclique)), ..s }
    }
}

/// The state of a worker that stopped on request: what waits is dropped.
pub open spec fn halted(s: StateView) -> StateView {
    StateView { phase: Phase::Stopped, queue: Seq::empty(), run: None, ..s }
}

/// The state once `output`, the result of executing the block `block_id` of
/// `slot` on the final state, is applied to the final state.
///
/// Where the candidate state starts with a result for the same slot and block,
/// that result was computed from the same state, and the two must be the same
/// in every part: if they are not, the worker faults and the final state stays
/// as it is. If they are, the result leaves the candidate state, which goes on
/// from the new final state. Where the candidate state starts otherwise, it no
/// longer follows the final state and is dropped.
pub open spec fn committed_final(s: StateView, slot: Slot, block_id: BlockId, output: OutputView) -> StateView {
    let repeated = s.history.len() > 0 && s.history[0].slot == slot && s.history[0].block_id == Some(block_id);
    if repeated && s.history[0] != output {
        StateView { phase: Phase::Faulted, run: None, ..s }
    } else {
        StateView {
            final_ledger: overlaid(s.final_ledger, output.changes),
            final_log: s.final_log.push((slot, block_id)),
            final_events: recorded(s.final_events, slot, Some(block_id), output.events),
            final_executed_ops: s.final_executed_ops + output.executed_ops,
            history: if repeated {
                s.history.drop_first()
            } else {
                Seq::empty()
            },
            cursor: s.cursor + 1,
            run: None,
            ..s
        }
    }
}

/// The state after reconciliation: the candidate state keeps the results that
/// the new blockclique confirms, slot by slot from its first slot that is not
/// final, and loses those from the first disagreement on. Execution goes on
/// behind the results that were kept.
pub open spec fn reconciled(s: StateView) -> StateView {
    let start = open_from(s.final_log, s.blockclique, 0);
    let keep = agreement_from(s.history, s.blockclique, start, 0);
    StateView { history: s.history.take(keep as int), cursor: start + keep, phase: Phase::Executing, run: None, ..s }
}

/// One step of an idle worker: stop if asked to, else take up the oldest
/// notification that waits.
pub open spec fn idle_step(s: StateView) -> (StateView, ActionView) {
    if s.stop_requested {
        (halted(s), ActionView::Halt)
    } else if s.queue.len() == 0 {
        (s, ActionView::Wait)
    } else {
        (
            StateView {
                queue: s.queue.drop_first(),
                finalized: s.queue[0].0,
                blockclique: s.queue[0].1,
                cursor: 0,
                run: None,
                phase: Phase::Finalizing,
                ..s
            },
            ActionView::Continue,
        )
    }
}

/// One step of finalization. Between slots: stop if asked to; go on to
/// reconciliation when no finalized block is left; pass over a block whose slot
/// is final already; else start to execute the block on the final state.
/// Within a slot: one step of its execution, and once it has finished, the
/// result is applied to the final state. An execution without a block that is
/// still to be finalized is dropped, and the worker goes on behind it.
pub open spec fn finalizing_step(s: StateView) -> (StateView, ActionView) {
    match s.run {
        Some(run) => {
            if s.cursor >= s.finalized.len() {
                (StateView { run: None, phase: Phase::Reconciling, cursor: 0, ..s }, ActionView::Continue)
            } else if is_final(s.final_log, s.finalized[s.cursor as int].slot) {
                (StateView { run: None, cursor: s.cursor + 1, ..s }, ActionView::Continue)
            } else {
                let block = s.finalized[s.cursor as int];
                let (next_run, outcome) = stepped(final_backdrop(s), block.operations, run);
                match outcome {
                    StepView::Finished => {
                        let after = committed_final(
                            s,
                            block.slot,
                            block.block_id,
                            output_of(block.slot, Some(block.block_id), run),
                        );
                        (
                            after,
                            if after.phase == Phase::Faulted {
                                ActionView::Halt
                            } else {
                                ActionView::Continue
                            },
                        )
                    },
                    StepView::NeedsVm(request) => (
                        StateView { run: Some(next_run), ..s },
                        ActionView::RunVm(request),
                    ),
                    StepView::Awaiting => (StateView { run: Some(next_run), ..s }, ActionView::AwaitingVm),
                    _ => (StateView { run: Some(next_run), ..s }, ActionView::Continue),
                }
            }
        },
        None => {
            if s.stop_requested {
                (halted(s), ActionView::Halt)
            } else if s.cursor >= s.finalized.len() {
                (StateView { phase: Phase::Reconciling, cursor: 0, ..s }, ActionView::Continue)
            } else if is_final(s.final_log, s.finalized[s.cursor as int].slot) {
                (StateView { cursor: s.cursor + 1, ..s }, ActionView::Continue)
            } else {
                (StateView { run: Some(fresh_run()), ..s }, ActionView::Continue)
            }
        },
    }
}

/// One step of execution. Between slots: stop if asked to; become idle when no
/// block of the blockclique is left; else start to execute the next block on
/// the candidate state. Within a slot: one step of its execution, and once it
/// has finished, the result joins the candidate state. An execution without a
/// block is dropped.
pub open spec fn executing_step(s: StateView) -> (StateView, ActionView) {
    match s.run {
        Some(run) => {
            if s.cursor >= s.blockclique.len() {
                (StateView { run: None, phase: Phase::Idle, ..s }, ActionView::Continue)
            } else {
                let block = s.blockclique[s.cursor as int];
                let (next_run, outcome) = stepped(candidate_backdrop(s), block.operations, run);
                match outcome {
                    StepView::Finished => (
                        StateView {
                            history: s.history.push(output_of(block.slot, Some(block.block_id), run)),
                            cursor: s.cursor + 1,
                            run: None,
                            ..s
                        },
                        ActionView::Continue,
                    ),
                    StepView::NeedsVm(request) => (
                        StateView { run: Some(next_run), ..s },
                        ActionView::RunVm(request),
                    ),
                    StepView::Awaiting => (StateView { run: Some(next_run), ..s }, ActionView::AwaitingVm),
                    _ => (StateView { run: Some(next_run), ..s }, ActionView::Continue),
                }
            }
        },
        None => {
            if s.stop_requested {
                (halted(s), ActionView::Halt)
            } else if s.cursor >= s.blockclique.len() {
                (StateView { phase: Phase::Idle, ..s }, ActionView::Continue)
            } else {
                (StateView { run: Some(fresh_run()), ..s }, ActionView::Continue)
            }
        },
    }
}

/// One step of the worker.
pub open spec fn worker_step(s: StateView) -> (StateView, ActionView) {
    match s.phase {
        Phase::Idle => idle_step(s),
        Phase::Finalizing => finalizing_step(s),
        Phase::Reconciling => if s.stop_requested {
            (halted(s), ActionView::Halt)
        } else {
            (reconciled(s), ActionView::Continue)
        },
        Phase::Executing => executing_step(s),
        Phase::Stopped => (s, ActionView::Halt),
        Phase::Faulted => (s, ActionView::Halt),
    }
}

/// How far a phase is from the end of the work on a notification.
pub open spec fn phase_rank(phase: Phase) -> nat {
    match phase {
        Phase::Finalizing => 3,
        Phase::Reconciling => 2,
        Phase::Executing => 1,
        _ => 0,
    }
}

/// The blocks that the phase at work has before it, the one at work included.
pub open spec fn blocks_left(s: StateView) -> nat {
    if s.phase == Phase::Finalizing && s.cursor <= s.finalized.len() {
        (s.finalized.len() - s.cursor) as nat
    } else if s.phase == Phase::Executing && s.cursor <= s.blockclique.len() {
        (s.blockclique.len() - s.cursor) as nat
    } else {
        0
    }
}

/// The steps that the slot at work needs at most before it ends or waits:
/// one for each operation left, and one more before the slot has started.
pub open spec fn steps_left_in_slot(s: StateView) -> nat {
    let operations = if s.phase == Phase::Finalizing && s.cursor < s.finalized.len() {
        s.finalized[s.cursor as int].operations.len()
    } else if s.phase == Phase::Executing && s.cursor < s.blockclique.len() {
        s.blockclique[s.cursor as int].operations.len()
    } else {
        0
    };
    match s.run {
        Some(run) => if run.next <= operations {
            (operations - run.next) as nat
        } else {
            0
        },
        None => operations + 1,
    }
}

/// The worker stepped until it comes to rest: until it has nothing to do, or
/// needs the virtual machine, or has stopped. It always comes to rest: every
/// step that asks for another one takes up a notification, moves on to the
/// next phase or the next block, or deals with an operation.
pub open spec fn advanced(s: StateView) -> (StateView, ActionView)
    decreases s.queue.len(), phase_rank(s.phase), blocks_left(s), steps_left_in_slot(s),
{
    let next = worker_step(s);
    if next.1 is Continue {
        advanced(next.0)
    } else {
        next
    }
}

/// A worker at rest asks for no further step.
pub proof fn lemma_advanced_is_at_rest(s: StateView)
    ensures
        !(advanced(s).1 is Continue),
    decreases s.queue.len(), phase_rank(s.phase), blocks_left(s), steps_left_in_slot(s),
{
    let next = worker_step(s);
    if next.1 is Continue {
        lemma_advanced_is_at_rest(next.0);
    }
}

/// The block whose slot is being executed, if one is.
pub open spec fn block_at_work(s: StateView) -> Option<BlockView> {
    if s.run is None {
        None
    } else if s.phase == Phase::Finalizing && s.cursor < s.finalized.len() {
        Some(s.finalized[s.cursor as int])
    } else if s.phase == Phase::Executing && s.cursor < s.blockclique.len() {
        Some(s.blockclique[s.cursor as int])
    } else {
        None
    }
}

/// The state that the slot at work is executed on: the candidate state while
/// the blockclique is executed, the final state else.
pub open spec fn backdrop_at_work(s: StateView) -> Backdrop {
    if s.phase == Phase::Executing {
        candidate_backdrop(s)
    } else {
        final_backdrop(s)
    }
}

/// The entry of `address` as the slot at work sees it: what the slot wrote
/// comes first, then the state that the slot is executed on. Between slots it
/// is the entry in that state.
pub open spec fn entry_at_work(s: StateView, address: Address) -> Option<LedgerEntryView> {
    visible(
        s.final_ledger,
        backdrop_at_work(s).layers(),
        match s.run {
            Some(run) => run.changes,
            None => Seq::empty(),
        },
        address,
    )
}

/// The state once the virtual machine has answered. The answer goes to the
/// slot that is being executed; where none is, it is dropped.
pub open spec fn resumed(s: StateView, reply: VmReplyView) -> StateView {
    match block_at_work(s) {
        Some(block) => StateView {
            run: Some(settled(block.slot, Some(block.block_id), block.operations, s.run->0, reply)),
            ..s
        },
        None => s,
    }
}

/// The state once the worker was asked to stop. A slot that is being executed
/// is brought to its end first; between slots the worker stops at once.
pub open spec fn stop_asked(s: StateView) -> StateView {
    if s.phase == Phase::Stopped || s.phase == Phase::Faulted {
        s
    } else if s.run is Some {
        StateView { stop_requested: true, ..s }
    } else {
        StateView { stop_requested: true, ..halted(s) }
    }
}

/// Roll counts of one cycle: each staker with the number of its rolls.
pub type Rolls = Seq<(Address, u64)>;

/// The roll counts supplied for `cycle`, if any were.
pub open spec fn rolls_of_cycle(snapshots: Seq<(u64, Rolls)>, cycle: u64) -> Option<Rolls>
    decreases snapshots.len(),
{
    if snapshots.len() == 0 {
        None
    } else if snapshots[0].0 == cycle {
        Some(snapshots[0].1)
    } else {
        rolls_of_cycle(snapshots.drop_first(), cycle)
    }
}

/// The stakers that count for the draws of `cycle`: the roll counts of the
/// cycle before it, and nobody where those are not there.
pub open spec fn cycle_rolls(snapshots: Seq<(u64, Rolls)>, cycle: u64) -> Rolls {
    if cycle == 0 {
        Seq::empty()
    } else {
        match rolls_of_cycle(snapshots, (cycle - 1) as u64) {
            Some(rolls) => rolls,
            None => Seq::empty(),
        }
    }
}

/// The state once roll counts were supplied for `cycle`. The counts of a cycle
/// are frozen: what comes for a cycle that has its counts is dropped.
pub open spec fn rolls_supplied(s: StateView, cycle: u64, rolls: Rolls) -> StateView {
    if rolls_of_cycle(s.roll_snapshots, cycle) is Some {
        s
    } else {
        StateView { roll_snapshots: s.roll_snapshots.push((cycle, rolls)), ..s }
    }
}

/// Looking up a cycle behind one more snapshot.
pub proof fn lemma_rolls_after_push(snapshots: Seq<(u64, Rolls)>, added: (u64, Rolls), cycle: u64)
    ensures
        rolls_of_cycle(snapshots.push(added), cycle) == match rolls_of_cycle(snapshots, cycle) {
            Some(rolls) => Some(rolls),
            None => if added.0 == cycle {
                Some(added.1)
            } else {
                None
            },
        },
    decreases snapshots.len(),
{
    let after = snapshots.push(added);
    if snapshots.len() == 0 {
        assert(after.drop_first() =~= snapshots);
    } else {
        assert(after.drop_first() =~= snapshots.drop_first().push(added));
        lemma_rolls_after_push(snapshots.drop_first(), added, cycle);
    }
}

/// A notification that waits.
#[derive(Debug)]
struct Notification {
    finalized: SlotBlocks,
    blockclique: SlotBlocks,
}

/// The worker's state and the steps on it, without the promise of order.
#[derive(Debug)]
struct Core {
    final_ledger: Ledger,
    final_log: Vec<(Slot, BlockId)>,
    final_events: EventStore,
    final_executed_ops: Vec<OperationId>,
    history: Vec<ExecutionOutput>,
    roll_snapshots: Vec<(u64, Vec<(Address, u64)>)>,
    queue: Vec<Notification>,
    phase: Phase,
    finalized: SlotBlocks,
    blockclique: SlotBlocks,
    cursor: usize,
    run: Option<SlotRun>,
    stop_requested: bool,
}

impl View for Core {
    type V = StateView;

    closed spec fn view(&self) -> StateView {
        StateView {
            final_ledger: self.final_ledger@,
            final_log: self.final_log@,
            final_events: self.final_events@,
            final_executed_ops: self.final_executed_ops@,
            history: output_views(self.history@),
            roll_snapshots: self.roll_snapshots@.map_values(|c: (u64, Vec<(Address, u64)>)| (c.0, c.1@)),
            queue: self.queue@.map_values(|n: Notification| (n.finalized@, n.blockclique@)),
            phase: self.phase,
            finalized: self.finalized@,
            blockclique: self.blockclique@,
            cursor: self.cursor as nat,
            run: match self.run {
                Some(run) => Some(run@),
                None => None,
            },
            stop_requested: self.stop_requested,
        }
    }
}

impl Core {
    /// A worker over the ledger `genesis`, with nothing final beyond it and
    /// nothing to do.
    fn new(genesis: Ledger) -> (worker: Core)
        ensures
            worker@ == initial_state(genesis@),
            well_ordered(worker@),
            applied_once(worker@),
    {
        proof {
            lemma_initial_state_is_ordered(genesis@);
            lemma_initial_state_applied_once(genesis@);
        }
        let worker = Core {
            final_ledger: genesis,
            final_log: Vec::new(),
            final_events: EventStore::new(),
            final_executed_ops: Vec::new(),
            history: Vec::new(),
            roll_snapshots: Vec::new(),
            queue: Vec::new(),
            phase: Phase::Idle,
            finalized: SlotBlocks::new(),
            blockclique: SlotBlocks::new(),
            cursor: 0,
            run: None,
            stop_requested: false,
        };
        assert(worker@.history =~= Seq::empty());
        assert(worker@.roll_snapshots =~= Seq::empty());
        assert(worker@.queue =~= Seq::empty());
        worker
    }

    /// The entry of `address` as the slot at work sees it. This is the state
    /// that a call handed out by `step` runs on.
    fn entry_at_work(&self, address: Address) -> (entry: Option<&LedgerEntry>)
        ensures
            entry is Some <==> self::entry_at_work(self@, address) is Some,
            entry is Some ==> self::entry_at_work(self@, address) == Some(entry->0@),
    {
        match &self.run {
            Some(run) => {
                let written = run.changes().get(address);
                if written.is_some() {
                    return written;
                }
            },
            None => {
                assert(entry_of(Seq::empty(), address) is None);
            },
        }
        if self.phase == Phase::Executing {
            lookup_layered(&self.final_ledger, &self.history, address)
        } else {
            self.final_ledger.get(address)
        }
    }

    /// Takes the roll counts of `cycle`, unless the cycle has its counts
    /// already; says whether they were taken.
    fn supply_cycle_rolls(&mut self, cycle: u64, rolls: Vec<(Address, u64)>) -> (accepted: bool)
        ensures
            accepted == rolls_of_cycle(old(self)@.roll_snapshots, cycle) is None,
            final(self)@ == rolls_supplied(old(self)@, cycle, rolls@),
            well_ordered(old(self)@) ==> well_ordered(final(self)@),
            applied_once(old(self)@) ==> applied_once(final(self)@),
    {
        proof {
            if well_ordered(self@) {
                lemma_inputs_keep_order(self@, VmReplyView::Trap, Seq::empty(), Seq::empty(), cycle, rolls@);
            }
            if applied_once(self@) {
                lemma_inputs_apply_once(self@, VmReplyView::Trap, Seq::empty(), Seq::empty(), cycle, rolls@);
            }
        }
        if self.find_rolls(cycle).is_some() {
            return false;
        }
        let ghost before = self@;
        self.roll_snapshots.push((cycle, rolls));
        assert(self@.roll_snapshots =~= before.roll_snapshots.push((cycle, rolls@)));
        true
    }

    fn find_rolls(&self, cycle: u64) -> (found: Option<&Vec<(Address, u64)>>)
        ensures
            found is Some <==> rolls_of_cycle(self@.roll_snapshots, cycle) is Some,
            found is Some ==> rolls_of_cycle(self@.roll_snapshots, cycle) == Some(found->0@),
    {
        let ghost all = self@.roll_snapshots;
        let mut i: usize = 0;
        assert(all.skip(0) =~= all);
        while i < self.roll_snapshots.len()
            invariant
                i <= self.roll_snapshots.len(),
                all == self@.roll_snapshots,
                all.len() == self.roll_snapshots.len(),
                rolls_of_cycle(all, cycle) == rolls_of_cycle(all.skip(i as int), cycle),
            decreases self.roll_snapshots.len() - i,
        {
            assert(all.skip(i as int)[0] == all[i as int]);
            assert(all.skip(i as int).drop_first() =~= all.skip(i + 1));
            if self.roll_snapshots[i].0 == cycle {
                return Some(&self.roll_snapshots[i].1);
            }
            i += 1;
        }
        None
    }

    /// The stakers that count for the draws of `cycle`, with their rolls: the
    /// counts of the cycle before. Empty where those were not supplied.
    fn rolls_for_cycle(&self, cycle: u64) -> (rolls: Vec<(Address, u64)>)
        ensures
            rolls@ == cycle_rolls(self@.roll_snapshots, cycle),
    {
        let mut rolls: Vec<(Address, u64)> = Vec::new();
        if cycle == 0 {
            return rolls;
        }
        match self.find_rolls(cycle - 1) {
            Some(found) => {
                let mut i: usize = 0;
                while i < found.len()
                    invariant
                        i <= found.len(),
                        rolls@ == found@.take(i as int),
                    decreases found.len() - i,
                {
                    rolls.push((found[i].0, found[i].1));
                    assert(found@.take(i + 1) =~= found@.take(i as int).push(found@[i as int]));
                    i += 1;
                }
                assert(found@.take(found.len() as int) =~= found@);
                rolls
            },
            None => rolls,
        }
    }

    /// Adds a notification to those that wait.
    fn notify(&mut self, finalized_blocks: SlotBlocks, blockclique: SlotBlocks)
        ensures
            final(self)@ == notified(old(self)@, finalized_blocks@, blockclique@),
            well_ordered(old(self)@) ==> well_ordered(final(self)@),
            applied_once(old(self)@) ==> applied_once(final(self)@),
    {
        finalized_blocks.recall_chain_order();
        blockclique.recall_chain_order();
        proof {
            if well_ordered(self@) {
                lemma_inputs_keep_order(self@, VmReplyView::Trap, finalized_blocks@, blockclique@, 0, Seq::empty());
            }
            if applied_once(self@) {
                lemma_inputs_apply_once(self@, VmReplyView::Trap, finalized_blocks@, blockclique@, 0, Seq::empty());
            }
        }
        if self.phase == Phase::Stopped || self.phase == Phase::Faulted {
            return ;
        }
        let ghost before = self@;
        self.queue.push(Notification { finalized: finalized_blocks, blockclique });
        assert(self@.queue =~= before.queue.push((finalized_blocks@, blockclique@)));
    }

    fn halt(&mut self)
        ensures
            final(self)@ == halted(old(self)@),
    {
        self.phase = Phase::Stopped;
        self.queue = Vec::new();
        self.run = None;
        assert(self@.queue =~= Seq::empty());
    }

    /// Asks the worker to stop.
    fn request_stop(&mut self)
        ensures
            final(self)@ == stop_asked(old(self)@),
            well_ordered(old(self)@) ==> well_ordered(final(self)@),
            applied_once(old(self)@) ==> applied_once(final(self)@),
    {
        proof {
            if well_ordered(self@) {
                lemma_inputs_keep_order(self@, VmReplyView::Trap, Seq::empty(), Seq::empty(), 0, Seq::empty());
            }
            if applied_once(self@) {
                lemma_inputs_apply_once(self@, VmReplyView::Trap, Seq::empty(), Seq::empty(), 0, Seq::empty());
            }
        }
        if self.phase == Phase::Stopped || self.phase == Phase::Faulted {
            return ;
        }
        if self.run.is_none() {
            self.halt();
        }
        self.stop_requested = true;
    }

    fn slot_is_final(&self, slot: Slot) -> (r: bool)
        ensures
            r == is_final(self@.final_log, slot),
    {
        let n = self.final_log.len();
        n > 0 && slot.is_at_or_before(&self.final_log[n - 1].0)
    }

    fn idle(&mut self) -> (action: WorkerAction)
        ensures
            (final(self)@, action@) == idle_step(old(self)@),
    {
        if self.stop_requested {
            self.halt();
            WorkerAction::Halt
        } else if self.queue.len() == 0 {
            WorkerAction::Wait
        } else {
            let ghost before = self@;
            let notification = self.queue.remove(0);
            self.finalized = notification.finalized;
            self.blockclique = notification.blockclique;
            self.cursor = 0;
            self.run = None;
            self.phase = Phase::Finalizing;
            assert(self@.queue =~= before.queue.drop_first());
            WorkerAction::Continue
        }
    }

    fn commit_final(&mut self, slot: Slot, block_id: BlockId, output: ExecutionOutput) -> (action: WorkerAction)
        requires
            old(self).cursor < usize::MAX,
            old(self).run is None,
            old(self).phase == Phase::Finalizing,
        ensures
            final(self)@ == committed_final(old(self)@, slot, block_id, output@),
            action@ == if final(self)@.phase == Phase::Faulted {
                ActionView::Halt
            } else {
                ActionView::Continue
            },
    {
        let ghost before = self@;
        let repeated = self.history.len() > 0 && self.history[0].slot == slot && match self.history[0].block_id {
            Some(id) => id == block_id,
            None => false,
        };
        if repeated && !self.history[0].same_as(&output) {
            self.phase = Phase::Faulted;
            return WorkerAction::Halt;
        }
        self.final_ledger.apply(&output.changes);
        self.final_log.push((slot, block_id));
        let mut executed = output.executed_ops;
        self.final_executed_ops.append(&mut executed);
        self.final_events.record(slot, Some(block_id), output.events);
        if repeated {
            self.history.remove(0);
            assert(output_views(self.history@) =~= before.history.drop_first());
        } else {
            self.history = Vec::new();
            assert(output_views(self.history@) =~= Seq::empty());
        }
        self.cursor = self.cursor + 1;
        WorkerAction::Continue
    }

    fn finalizing(&mut self) -> (action: WorkerAction)
        requires
            old(self)@.phase == Phase::Finalizing,
        ensures
            (final(self)@, action@) == finalizing_step(old(self)@),
    {
        let mut taken: Option<SlotRun> = None;
        std::mem::swap(&mut taken, &mut self.run);
        match taken {
            Some(mut run) => {
                if self.cursor >= self.finalized.len() {
                    self.phase = Phase::Reconciling;
                    self.cursor = 0;
                    return WorkerAction::Continue;
                }
                if self.slot_is_final(self.finalized.block(self.cursor).slot) {
                    self.cursor = self.cursor + 1;
                    return WorkerAction::Continue;
                }
                let block = self.finalized.block(self.cursor);
                let slot = block.slot;
                let block_id = block.block_id;
                let none: Vec<ExecutionOutput> = Vec::new();
                assert(output_views(none@) =~= Seq::empty());
                let outcome = run.step(&self.final_ledger, &self.final_executed_ops, &none, block.storage.operations());
                match outcome {
                    StepOutcome::Finished => {
                        let output = run.finish(slot, Some(block_id));
                        self.commit_final(slot, block_id, output)
                    },
                    StepOutcome::NeedsVm(request) => {
                        self.run = Some(run);
                        WorkerAction::RunVm(request)
                    },
                    StepOutcome::Awaiting => {
                        self.run = Some(run);
                        WorkerAction::AwaitingVm
                    },
                    _ => {
                        self.run = Some(run);
                        WorkerAction::Continue
                    },
                }
            },
            None => {
                if self.stop_requested {
                    self.halt();
                    WorkerAction::Halt
                } else if self.cursor >= self.finalized.len() {
                    self.phase = Phase::Reconciling;
                    self.cursor = 0;
                    WorkerAction::Continue
                } else if self.slot_is_final(self.finalized.block(self.cursor).slot) {
                    self.cursor = self.cursor + 1;
                    WorkerAction::Continue
                } else {
                    self.run = Some(SlotRun::begin());
                    WorkerAction::Continue
                }
            },
        }
    }

    /// Whether result `k` of the candidate state is that of block `i` of the blockclique.
    fn confirms(&self, k: usize, i: usize) -> (r: bool)
        requires
            k < self@.history.len(),
            i < self@.blockclique.len(),
        ensures
            r == same_block(self@.history[k as int], self@.blockclique[i as int]),
    {
        let block = self.blockclique.block(i);
        assert(self@.history[k as int] == self.history@[k as int]@);
        self.history[k].slot == block.slot && match self.history[k].block_id {
            Some(id) => id == block.block_id,
            None => false,
        }
    }

    fn reconcile(&mut self) -> (action: WorkerAction)
        ensures
            final(self)@ == reconciled(old(self)@),
            action@ == ActionView::Continue,
    {
        let ghost before = self@;
        let n = self.blockclique.len();
        let mut start: usize = 0;
        while start < n && self.slot_is_final(self.blockclique.block(start).slot)
            invariant
                start <= n,
                n == self@.blockclique.len(),
                self@ == before,
                open_from(before.final_log, before.blockclique, 0) == open_from(
                    before.final_log,
                    before.blockclique,
                    start as nat,
                ),
            decreases n - start,
        {
            start += 1;
        }
        let mut keep: usize = 0;
        while keep < self.history.len() && keep < n - start && self.confirms(keep, start + keep)
            invariant
                start <= n,
                keep <= self.history.len(),
                keep <= n - start,
                n == self@.blockclique.len(),
                self@ == before,
                agreement_from(before.history, before.blockclique, start as nat, 0) == agreement_from(
                    before.history,
                    before.blockclique,
                    start as nat,
                    keep as nat,
                ),
            decreases self.history.len() - keep,
        {
            keep += 1;
        }
        self.history.truncate(keep);
        assert(output_views(self.history@) =~= before.history.take(keep as int));
        self.cursor = start + keep;
        self.phase = Phase::Executing;
        self.run = None;
        WorkerAction::Continue
    }

    fn executing(&mut self) -> (action: WorkerAction)
        requires
            old(self)@.phase == Phase::Executing,
        ensures
            (final(self)@, action@) == executing_step(old(self)@),
    {
        let ghost before = self@;
        let mut taken: Option<SlotRun> = None;
        std::mem::swap(&mut taken, &mut self.run);
        match taken {
            Some(mut run) => {
                if self.cursor >= self.blockclique.len() {
                    self.phase = Phase::Idle;
                    return WorkerAction::Continue;
                }
                let block = self.blockclique.block(self.cursor);
                let slot = block.slot;
                let block_id = block.block_id;
                let outcome = run.step(
                    &self.final_ledger,
                    &self.final_executed_ops,
                    &self.history,
                    block.storage.operations(),
                );
                match outcome {
                    StepOutcome::Finished => {
                        let output = run.finish(slot, Some(block_id));
                        self.history.push(output);
                        assert(output_views(self.history@) =~= before.history.push(output@));
                        self.cursor = self.cursor + 1;
                        WorkerAction::Continue
                    },
                    StepOutcome::NeedsVm(request) => {
                        self.run = Some(run);
                        WorkerAction::RunVm(request)
                    },
                    StepOutcome::Awaiting => {
                        self.run = Some(run);
                        WorkerAction::AwaitingVm
                    },
                    _ => {
                        self.run = Some(run);
                        WorkerAction::Continue
                    },
                }
            },
            None => {
                if self.stop_requested {
                    self.halt();
                    WorkerAction::Halt
                } else if self.cursor >= self.blockclique.len() {
                    self.phase = Phase::Idle;
                    WorkerAction::Continue
                } else {
                    self.run = Some(SlotRun::begin());
                    WorkerAction::Continue
                }
            },
        }
    }

    /// One step of the worker. The answer says what the driver has to do next.
    fn step(&mut self) -> (action: WorkerAction)
        ensures
            (final(self)@, action@) == worker_step(old(self)@),
            well_ordered(old(self)@) ==> well_ordered(final(self)@),
            applied_once(old(self)@) ==> applied_once(final(self)@),
    {
        proof {
            if well_ordered(self@) {
                lemma_step_keeps_order(self@);
            }
            if applied_once(self@) {
                lemma_step_applies_once(self@);
            }
        }
        match self.phase {
            Phase::Idle => self.idle(),
            Phase::Finalizing => self.finalizing(),
            Phase::Reconciling => {
                if self.stop_requested {
                    self.halt();
                    WorkerAction::Halt
                } else {
                    self.reconcile()
                }
            },
            Phase::Executing => self.executing(),
            Phase::Stopped => WorkerAction::Halt,
            Phase::Faulted => WorkerAction::Halt,
        }
    }

    /// Steps the worker until it comes to rest. The answer says why it rests:
    /// it has nothing to do, it needs the virtual machine, or it has stopped.
    fn advance(&mut self) -> (action: WorkerAction)
        ensures
            (final(self)@, action@) == advanced(old(self)@),
            !(action@ is Continue),
            well_ordered(old(self)@) ==> well_ordered(final(self)@),
            applied_once(old(self)@) ==> applied_once(final(self)@),
    {
        let ghost start = self@;
        loop
            invariant
                start == old(self)@,
                advanced(self@) == advanced(start),
                well_ordered(start) ==> well_ordered(self@),
                applied_once(start) ==> applied_once(self@),
            decreases self@.queue.len(), phase_rank(self@.phase), blocks_left(self@), steps_left_in_slot(self@),
        {
            match self.step() {
                WorkerAction::Continue => {},
                action => {
                    return action;
                },
            }
        }
    }

    /// Hands the answer of the virtual machine to the slot that is being executed.
    fn resume(&mut self, reply: VmReply)
        ensures
            final(self)@ == resumed(old(self)@, reply@),
            well_ordered(old(self)@) ==> well_ordered(final(self)@),
            applied_once(old(self)@) ==> applied_once(final(self)@),
    {
        proof {
            if well_ordered(self@) {
                lemma_inputs_keep_order(self@, reply@, Seq::empty(), Seq::empty(), 0, Seq::empty());
            }
            if applied_once(self@) {
                lemma_inputs_apply_once(self@, reply@, Seq::empty(), Seq::empty(), 0, Seq::empty());
            }
        }
        let mut taken: Option<SlotRun> = None;
        std::mem::swap(&mut taken, &mut self.run);
        match taken {
            Some(mut run) => {
                if self.phase == Phase::Finalizing && self.cursor < self.finalized.len() {
                    let block = self.finalized.block(self.cursor);
                    run.settle(block.slot, Some(block.block_id), block.storage.operations(), &reply);
                } else if self.phase == Phase::Executing && self.cursor < self.blockclique.len() {
                    let block = self.blockclique.block(self.cursor);
                    run.settle(block.slot, Some(block.block_id), block.storage.operations(), &reply);
                }
                self.run = Some(run);
            },
            None => {},
        }
    }
}

/// The execution worker. A worker is in order from the start and stays so:
/// its final slots and its candidate slots stand in chain order, its events
/// in slot order, and it has applied no operation twice.
#[derive(Debug)]
pub struct ExecutionWorker {
    core: Core,
}

impl View for ExecutionWorker {
    type V = StateView;

    closed spec fn view(&self) -> StateView {
        self.core@
    }
}

impl ExecutionWorker {
    #[verifier::type_invariant]
    spec fn in_order(self) -> bool {
        well_ordered(self@) && applied_once(self@)
    }

    /// A worker over the ledger `genesis`, with nothing final beyond it and
    /// nothing to do.
    pub fn new(genesis: Ledger) -> (worker: ExecutionWorker)
        ensures
            worker@ == initial_state(genesis@),
            well_ordered(worker@),
            applied_once(worker@),
    {
        ExecutionWorker { core: Core::new(genesis) }
    }

    /// Recalls that the worker is in order. Does nothing when it runs.
    pub fn recall_order(&self)
        ensures
            well_ordered(self@),
            applied_once(self@),
    {
        proof {
            use_type_invariant(self);
        }
    }

    /// What the worker is doing.
    pub fn phase(&self) -> (phase: Phase)
        ensures
            phase == self@.phase,
    {
        self.core.phase
    }

    /// The ledger of the final state.
    pub fn final_ledger(&self) -> (ledger: &Ledger)
        ensures
            ledger@ == self@.final_ledger,
    {
        &self.core.final_ledger
    }

    /// The events of the final state.
    pub fn final_events(&self) -> (events: &EventStore)
        ensures
            events@ == self@.final_events,
    {
        &self.core.final_events
    }

    /// The operations applied in the final state.
    pub fn final_executed_ops(&self) -> (ids: &Vec<OperationId>)
        ensures
            ids@ == self@.final_executed_ops,
    {
        &self.core.final_executed_ops
    }

    /// The slots applied to the final state, with their blocks.
    pub fn final_log(&self) -> (log: &Vec<(Slot, BlockId)>)
        ensures
            log@ == self@.final_log,
    {
        &self.core.final_log
    }

    /// The results that make up the candidate state, oldest first.
    pub fn history(&self) -> (outputs: &Vec<ExecutionOutput>)
        ensures
            output_views(outputs@) == self@.history,
    {
        &self.core.history
    }

    /// The entries written so far by the slot that is being executed.
    pub fn changes_at_work(&self) -> (changes: Option<&Ledger>)
        ensures
            changes is Some <==> self@.run is Some,
            changes is Some ==> changes->0@ == self@.run->0.changes,
    {
        match &self.core.run {
            Some(run) => Some(run.changes()),
            None => None,
        }
    }

    /// The entry of `address` as the slot at work sees it. This is the state
    /// that a call handed out by the worker runs on.
    pub fn entry_at_work(&self, address: Address) -> (entry: Option<&LedgerEntry>)
        ensures
            entry is Some <==> self::entry_at_work(self@, address) is Some,
            entry is Some ==> self::entry_at_work(self@, address) == Some(entry->0@),
    {
        self.core.entry_at_work(address)
    }

    /// The stakers that count for the draws of `cycle`, with their rolls: the
    /// counts of the cycle before. Empty where those were not supplied.
    pub fn rolls_for_cycle(&self, cycle: u64) -> (rolls: Vec<(Address, u64)>)
        ensures
            rolls@ == cycle_rolls(self@.roll_snapshots, cycle),
    {
        self.core.rolls_for_cycle(cycle)
    }

    /// Takes the core out for a change; an idle core over an empty ledger
    /// stands in for it meanwhile.
    fn take_core(&mut self) -> (core: Core)
        ensures
            core@ == old(self)@,
            well_ordered(core@),
            applied_once(core@),
    {
        proof {
            use_type_invariant(&*self);
        }
        let mut core = Core::new(Ledger::new());
        std::mem::swap(&mut core, &mut self.core);
        core
    }

    /// Takes the roll counts of `cycle`, unless the cycle has its counts
    /// already; says whether they were taken.
    pub fn supply_cycle_rolls(&mut self, cycle: u64, rolls: Vec<(Address, u64)>) -> (accepted: bool)
        ensures
            accepted == rolls_of_cycle(old(self)@.roll_snapshots, cycle) is None,
            final(self)@ == rolls_supplied(old(self)@, cycle, rolls@),            well_ordered(final(self)@),
            applied_once(final(self)@),
    {
        let mut core = self.take_core();
        let accepted = core.supply_cycle_rolls(cycle, rolls);
        self.core = core;
        accepted
    }

    /// Adds a notification to those that wait.
    pub fn notify(&mut self, finalized_blocks: SlotBlocks, blockclique: SlotBlocks)
        ensures
            final(self)@ == notified(old(self)@, finalized_blocks@, blockclique@),            well_ordered(final(self)@),
            applied_once(final(self)@),
    {
        let mut core = self.take_core();
        core.notify(finalized_blocks, blockclique);
        self.core = core;
    }

    /// Asks the worker to stop.
    pub fn request_stop(&mut self)
        ensures
            final(self)@ == stop_asked(old(self)@),            well_ordered(final(self)@),
            applied_once(final(self)@),
    {
        let mut core = self.take_core();
        core.request_stop();
        self.core = core;
    }

    /// One step of the worker. The answer says what the driver has to do next.
    pub fn step(&mut self) -> (action: WorkerAction)
        ensures
            (final(self)@, action@) == worker_step(old(self)@),            well_ordered(final(self)@),
            applied_once(final(self)@),
    {
        let mut core = self.take_core();
        let action = core.step();
        self.core = core;
        action
    }

    /// Steps the worker until it comes to rest. The answer says why it rests:
    /// it has nothing to do, it needs the virtual machine, or it has stopped.
    pub fn advance(&mut self) -> (action: WorkerAction)
        ensures
            (final(self)@, action@) == advanced(old(self)@),
            !(action@ is Continue),            well_ordered(final(self)@),
            applied_once(final(self)@),
    {
        let mut core = self.take_core();
        let action = core.advance();
        self.core = core;
        action
    }

    /// Hands the answer of the virtual machine to the slot that is being executed.
    pub fn resume(&mut self, reply: VmReply)
        ensures
            final(self)@ == resumed(old(self)@, reply@),            well_ordered(final(self)@),
            applied_once(final(self)@),
    {
        let mut core = self.take_core();
        core.resume(reply);
        self.core = core;
    }
}

} // verus!
