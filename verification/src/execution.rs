//! Execution of one slot: the operations of its block applied in block order
//! to the state that the slot starts from, one operation at a time, with the
//! virtual machine asked wherever a contract is called.

use crate::bytes::copy_bytes;
use crate::event::{copy_events, event_views, same_events, EventView, SCOutputEvent};
use crate::ledger::{
    empty_entry, entry_of, layered_entry, overlaid, with_entry, Accounts, Ledger, LedgerEntry,
    LedgerEntryView,
};
use crate::models::{Address, Amount, BlockId, OperationId, Slot, ROLL_PRICE};
use crate::operation::{
    operation_views, vm_event_views, Operation, OperationPayload, OperationView, PayloadView, VmEvent,
    VmEventView, VmReply, VmReplyView, VmRequest, VmRequestView,
};
use vstd::prelude::*;

verus! {

/// Why the call of a contract failed.
#[derive(Clone, Copy, PartialEq, Eq, Structural, Debug)]
pub enum ExecutionError {
    /// No contract lives at the target address.
    TargetNotFound,
    /// The call used more than its budget.
    ResourceExhausted,
    /// The call trapped.
    RuntimeTrap,
}

/// Why an operation was skipped. A skipped operation changes nothing.
#[derive(Clone, Copy, PartialEq, Eq, Structural, Debug)]
pub enum Rejection {
    /// The operation was applied before; it is not applied twice.
    AlreadyExecuted,
    /// The sender has no entry.
    UnknownSender,
    /// The sender owns less than it wants to spend.
    InsufficientBalance,
    /// The sender owns fewer rolls than it wants to sell.
    InsufficientRolls,
    /// A balance or a roll count would no longer fit.
    BalanceOverflow,
    /// The call that the operation asks for failed.
    CallFailed(ExecutionError),
}

/// The result of executing one slot.
#[derive(Debug)]
pub struct ExecutionOutput {
    pub slot: Slot,
    /// Block that was executed; `None` for a read-only execution.
    pub block_id: Option<BlockId>,
    /// Entries that the execution wrote.
    pub changes: Ledger,
    /// Events that the execution emitted, in order of emission.
    pub events: Vec<SCOutputEvent>,
    /// Operations that were applied, in block order.
    pub executed_ops: Vec<OperationId>,
    /// Operations that were skipped, each with the reason, in block order.
    pub rejected_ops: Vec<(OperationId, Rejection)>,
    /// What the calls used, all together; stays at the maximum once reached.
    pub gas_used: u64,
}

/// The result of executing one slot as plain values.
pub struct OutputView {
    pub slot: Slot,
    pub block_id: Option<BlockId>,
    pub changes: Accounts,
    pub events: Seq<EventView>,
    pub executed_ops: Seq<OperationId>,
    pub rejected_ops: Seq<(OperationId, Rejection)>,
    pub gas_used: u64,
}

impl View for ExecutionOutput {
    type V = OutputView;

    open spec fn view(&self) -> OutputView {
        OutputView {
            slot: self.slot,
            block_id: self.block_id,
            changes: self.changes@,
            events: event_views(self.events@),
            executed_ops: self.executed_ops@,
            rejected_ops: self.rejected_ops@,
            gas_used: self.gas_used,
        }
    }
}

/// Whether two lists hold the same identifiers in the same order.
pub fn same_ids(a: &Vec<OperationId>, b: &Vec<OperationId>) -> (same: bool)
    ensures
        same == (a@ == b@),
{
    if a.len() != b.len() {
        return false;
    }
    let mut i: usize = 0;
    while i < a.len()
        invariant
            i <= a.len(),
            a.len() == b.len(),
            forall|j: int| 0 <= j < i ==> a@[j] == b@[j],
        decreases a.len() - i,
    {
        if a[i] != b[i] {
            return false;
        }
        i += 1;
    }
    assert(a@ =~= b@);
    true
}

/// Whether two lists hold the same rejections in the same order.
pub fn same_rejections(a: &Vec<(OperationId, Rejection)>, b: &Vec<(OperationId, Rejection)>) -> (same: bool)
    ensures
        same == (a@ == b@),
{
    if a.len() != b.len() {
        return false;
    }
    let mut i: usize = 0;
    while i < a.len()
        invariant
            i <= a.len(),
            a.len() == b.len(),
            forall|j: int| 0 <= j < i ==> a@[j] == b@[j],
        decreases a.len() - i,
    {
        if a[i].0 != b[i].0 || a[i].1 != b[i].1 {
            return false;
        }
        i += 1;
    }
    assert(a@ =~= b@);
    true
}

/// A copy of a list of identifiers.
pub fn copy_ids(ids: &Vec<OperationId>) -> (copy: Vec<OperationId>)
    ensures
        copy@ == ids@,
{
    let mut copy: Vec<OperationId> = Vec::new();
    let mut i: usize = 0;
    while i < ids.len()
        invariant
            i <= ids.len(),
            copy@ == ids@.take(i as int),
        decreases ids.len() - i,
    {
        copy.push(ids[i]);
        assert(ids@.take(i + 1) =~= ids@.take(i as int).push(ids@[i as int]));
        i += 1;
    }
    assert(ids@.take(ids.len() as int) =~= ids@);
    copy
}

impl ExecutionOutput {
    /// Whether two results are the same in every part: slot, block, entries
    /// written, events, operations applied and skipped, and gas.
    pub fn same_as(&self, other: &ExecutionOutput) -> (same: bool)
        ensures
            same == (self@ == other@),
    {
        self.slot == other.slot && self.block_id == other.block_id && self.gas_used == other.gas_used
            && self.changes.same_as(&other.changes) && same_events(&self.events, &other.events)
            && same_ids(&self.executed_ops, &other.executed_ops) && same_rejections(
            &self.rejected_ops,
            &other.rejected_ops,
        )
    }
}

/// The results of a list as plain values.
pub open spec fn output_views(outputs: Seq<ExecutionOutput>) -> Seq<OutputView> {
    outputs.map_values(|o: ExecutionOutput| o@)
}

/// The entries written by each result of a list, oldest first.
pub open spec fn layers_of(outputs: Seq<OutputView>) -> Seq<Accounts> {
    outputs.map_values(|o: OutputView| o.changes)
}

/// Whether one of the results applied `id`.
pub open spec fn executed_in(outputs: Seq<OutputView>, id: OperationId) -> bool {
    exists|i: int| 0 <= i < outputs.len() && (#[trigger] outputs[i]).executed_ops.contains(id)
}

/// The state that a slot is executed on: a ledger with the operations that led
/// to it, and over it the results of the slots executed since, oldest first.
pub struct Backdrop {
    pub ledger: Accounts,
    pub executed_ops: Seq<OperationId>,
    pub outputs: Seq<OutputView>,
}

impl Backdrop {
    /// The entries written by the results, oldest first.
    pub open spec fn layers(self) -> Seq<Accounts> {
        layers_of(self.outputs)
    }

    /// Whether `id` was applied on the way to this state.
    pub open spec fn spent(self, id: OperationId) -> bool {
        self.executed_ops.contains(id) || executed_in(self.outputs, id)
    }

    /// The entry of `address` in this state.
    pub open spec fn entry(self, address: Address) -> Option<LedgerEntryView> {
        layered_entry(self.ledger, self.layers(), address)
    }
}

/// Whether `ids` holds `id`.
pub fn holds_id(ids: &Vec<OperationId>, id: OperationId) -> (found: bool)
    ensures
        found == ids@.contains(id),
{
    let mut i: usize = 0;
    while i < ids.len()
        invariant
            i <= ids.len(),
            forall|j: int| 0 <= j < i ==> ids@[j] != id,
        decreases ids.len() - i,
    {
        if ids[i] == id {
            return true;
        }
        i += 1;
    }
    false
}

/// Whether `id` is among the operations in `executed`, or among those that one
/// of the results in `outputs` applied.
pub fn is_spent(executed: &Vec<OperationId>, outputs: &Vec<ExecutionOutput>, id: OperationId) -> (found: bool)
    ensures
        found == (executed@.contains(id) || executed_in(output_views(outputs@), id)),
{
    if holds_id(executed, id) {
        return true;
    }
    let ghost views = output_views(outputs@);
    let mut i: usize = 0;
    while i < outputs.len()
        invariant
            i <= outputs.len(),
            views == output_views(outputs@),
            forall|j: int| 0 <= j < i ==> !(#[trigger] views[j]).executed_ops.contains(id),
        decreases outputs.len() - i,
    {
        assert(views[i as int] == outputs@[i as int]@);
        if holds_id(&outputs[i].executed_ops, id) {
            return true;
        }
        i += 1;
    }
    false
}

/// The entry of `address` as an execution sees it: what the running slot wrote
/// comes first, then the results it builds on, newest first, then the base.
pub open spec fn visible(base: Accounts, layers: Seq<Accounts>, changes: Accounts, address: Address) -> Option<
    LedgerEntryView,
> {
    match entry_of(changes, address) {
        Some(entry) => Some(entry),
        None => layered_entry(base, layers, address),
    }
}

/// The entry of `address` seen through `outputs` over `ledger`.
pub fn lookup_layered<'a>(ledger: &'a Ledger, outputs: &'a Vec<ExecutionOutput>, address: Address) -> (entry:
    Option<&'a LedgerEntry>)
    ensures
        entry is Some <==> layered_entry(ledger@, layers_of(output_views(outputs@)), address) is Some,
        entry is Some ==> layered_entry(ledger@, layers_of(output_views(outputs@)), address) == Some(entry->0@),
{
    let ghost layers = layers_of(output_views(outputs@));
    let mut i: usize = outputs.len();
    assert(layers.take(i as int) =~= layers);
    while i > 0
        invariant
            i <= outputs.len(),
            layers == layers_of(output_views(outputs@)),
            layered_entry(ledger@, layers, address) == layered_entry(ledger@, layers.take(i as int), address),
        decreases i,
    {
        i -= 1;
        let ghost upper = layers.take(i + 1);
        assert(upper.last() == outputs@[i as int].changes@);
        assert(upper.drop_last() =~= layers.take(i as int));
        let found = outputs[i].changes.get(address);
        if found.is_some() {
            return found;
        }
    }
    assert(layers.take(0).len() == 0);
    ledger.get(address)
}

/// The entry of `address` as the running slot sees it.
pub fn lookup_visible<'a>(
    ledger: &'a Ledger,
    outputs: &'a Vec<ExecutionOutput>,
    changes: &'a Ledger,
    address: Address,
) -> (entry: Option<&'a LedgerEntry>)
    ensures
        entry is Some <==> visible(ledger@, layers_of(output_views(outputs@)), changes@, address) is Some,
        entry is Some ==> visible(ledger@, layers_of(output_views(outputs@)), changes@, address) == Some(
            entry->0@,
        ),
{
    let found = changes.get(address);
    if found.is_some() {
        return found;
    }
    lookup_layered(ledger, outputs, address)
}

/// What a transfer does to the entries that the running slot wrote. A transfer
/// is applied in full or not at all: it is refused when the sender has no
/// entry, owns less than `amount`, or when the recipient's balance would no
/// longer fit. A transfer to oneself that is covered changes nothing.
pub open spec fn transfer_applied(
    base: Accounts,
    layers: Seq<Accounts>,
    changes: Accounts,
    sender: Address,
    recipient: Address,
    amount: Amount,
) -> Result<Accounts, Rejection> {
    match visible(base, layers, changes, sender) {
        None => Err(Rejection::UnknownSender),
        Some(from) => {
            if from.parallel_balance.value() < amount.value() {
                Err(Rejection::InsufficientBalance)
            } else if sender == recipient {
                Ok(changes)
            } else {
                let to = match visible(base, layers, changes, recipient) {
                    Some(entry) => entry,
                    None => empty_entry(),
                };
                if to.parallel_balance.value() + amount.value() > u64::MAX {
                    Err(Rejection::BalanceOverflow)
                } else {
                    Ok(
                        with_entry(
                            with_entry(
                                changes,
                                sender,
                                LedgerEntryView {
                                    parallel_balance: Amount((from.parallel_balance.0 - amount.0) as u64),
                                    ..from
                                },
                            ),
                            recipient,
                            LedgerEntryView {
                                parallel_balance: Amount((to.parallel_balance.0 + amount.0) as u64),
                                ..to
                            },
                        ),
                    )
                }
            }
        },
    }
}

/// What a purchase or a sale of rolls does to the entries that the running
/// slot wrote. It is applied in full or not at all. A purchase takes the price
/// of the rolls from the sequential balance of the sender and adds the rolls;
/// it is refused when the sender has no entry, owns less than the price, or
/// would own more rolls than can be counted. A sale takes the rolls and adds
/// their price; it is refused when the sender has no entry, owns fewer rolls,
/// or when its balance would no longer fit.
pub open spec fn roll_trade_applied(
    base: Accounts,
    layers: Seq<Accounts>,
    changes: Accounts,
    sender: Address,
    roll_count: u64,
    buying: bool,
) -> Result<Accounts, Rejection> {
    match visible(base, layers, changes, sender) {
        None => Err(Rejection::UnknownSender),
        Some(owned) => {
            let price = roll_count * ROLL_PRICE;
            if buying {
                if owned.sequential_balance.value() < price {
                    Err(Rejection::InsufficientBalance)
                } else if owned.roll_count + roll_count > u64::MAX {
                    Err(Rejection::BalanceOverflow)
                } else {
                    Ok(
                        with_entry(
                            changes,
                            sender,
                            LedgerEntryView {
                                sequential_balance: Amount((owned.sequential_balance.0 - price) as u64),
                                roll_count: (owned.roll_count + roll_count) as u64,
                                ..owned
                            },
                        ),
                    )
                }
            } else {
                if owned.roll_count < roll_count {
                    Err(Rejection::InsufficientRolls)
                } else if owned.sequential_balance.value() + price > u64::MAX {
                    Err(Rejection::BalanceOverflow)
                } else {
                    Ok(
                        with_entry(
                            changes,
                            sender,
                            LedgerEntryView {
                                sequential_balance: Amount((owned.sequential_balance.0 + price) as u64),
                                roll_count: (owned.roll_count - roll_count) as u64,
                                ..owned
                            },
                        ),
                    )
                }
            }
        },
    }
}

/// The bytecode of the contract at `target`, where one lives there: the
/// address has an entry, and the entry holds bytecode.
pub open spec fn contract_at(base: Accounts, layers: Seq<Accounts>, changes: Accounts, target: Address) -> Option<
    Seq<u8>,
> {
    match visible(base, layers, changes, target) {
        Some(entry) => if entry.bytecode.len() > 0 {
            Some(entry.bytecode)
        } else {
            None
        },
        None => None,
    }
}

/// The events of a call, each with the place of its emission: slot, block,
/// caller and operation, and ranks that go on from `first_index`.
pub open spec fn stamped(
    emitted: Seq<VmEventView>,
    slot: Slot,
    block_id: Option<BlockId>,
    caller: Address,
    operation_id: Option<OperationId>,
    read_only: bool,
    first_index: nat,
) -> Seq<EventView> {
    Seq::new(
        emitted.len(),
        |k: int|
            EventView {
                slot,
                block_id,
                index_in_slot: (first_index + k) as u64,
                emitter: emitted[k].emitter,
                original_caller: caller,
                operation_id,
                read_only,
                data: emitted[k].data,
            },
    )
}

/// Sum of two amounts of gas that stays at the maximum once reached.
pub open spec fn gas_sum(a: u64, b: u64) -> u64 {
    if a + b > u64::MAX {
        u64::MAX
    } else {
        (a + b) as u64
    }
}

/// Appends to `events` the events of a call, each with the place of its emission.
pub fn stamp_events(
    events: &mut Vec<SCOutputEvent>,
    emitted: &Vec<VmEvent>,
    slot: Slot,
    block_id: Option<BlockId>,
    caller: Address,
    operation_id: Option<OperationId>,
    read_only: bool,
)
    ensures
        event_views(final(events)@) == event_views(old(events)@) + stamped(
            vm_event_views(emitted@),
            slot,
            block_id,
            caller,
            operation_id,
            read_only,
            old(events)@.len(),
        ),
{
    let ghost before = event_views(events@);
    let ghost first = events@.len();
    let ghost target = stamped(vm_event_views(emitted@), slot, block_id, caller, operation_id, read_only, first);
    let mut k: usize = 0;
    assert(before + target.take(0) =~= before);
    while k < emitted.len()
        invariant
            k <= emitted.len(),
            first == before.len(),
            events@.len() == first + k,
            target == stamped(vm_event_views(emitted@), slot, block_id, caller, operation_id, read_only, first),
            event_views(events@) == before + target.take(k as int),
        decreases emitted.len() - k,
    {
        let ghost prev = event_views(events@);
        let event = SCOutputEvent {
            slot,
            block_id,
            index_in_slot: events.len() as u64,
            emitter: emitted[k].emitter,
            original_caller: caller,
            operation_id,
            read_only,
            data: copy_bytes(&emitted[k].data),
        };
        assert(event@ == target[k as int]);
        events.push(event);
        assert(event_views(events@) =~= prev.push(target[k as int]));
        assert(prev.push(target[k as int]) =~= before + target.take(k + 1));
        k += 1;
    }
    assert(target.take(emitted.len() as int) =~= target);
}

/// How far the execution of a slot has come, as plain values.
pub struct RunView {
    /// Number of operations dealt with.
    pub next: nat,
    /// Whether the operation at `next` waits for the virtual machine.
    pub awaiting: bool,
    pub changes: Accounts,
    pub events: Seq<EventView>,
    pub executed_ops: Seq<OperationId>,
    pub rejected_ops: Seq<(OperationId, Rejection)>,
    pub gas_used: u64,
}

/// What one step of a slot's execution came to.
pub enum StepView {
    /// Every operation has been dealt with.
    Finished,
    /// The operation was applied.
    Applied,
    /// The operation was skipped.
    Rejected(Rejection),
    /// The operation calls a contract: the virtual machine must run the call.
    NeedsVm(VmRequestView),
    /// The answer of the virtual machine is still missing.
    Awaiting,
}

/// The execution before the first operation.
pub open spec fn fresh_run() -> RunView {
    RunView {
        next: 0,
        awaiting: false,
        changes: Seq::empty(),
        events: Seq::empty(),
        executed_ops: Seq::empty(),
        rejected_ops: Seq::empty(),
        gas_used: 0,
    }
}

/// The execution with the operation at `next` skipped for `reason`.
pub open spec fn skipped(run: RunView, id: OperationId, reason: Rejection) -> RunView {
    RunView { next: run.next + 1, awaiting: false, rejected_ops: run.rejected_ops.push((id, reason)), ..run }
}

/// One step of the execution of `operations` on `state`: the next operation
/// is applied or skipped, or, where it calls a contract that exists, the
/// execution stops to wait for the virtual machine. An operation that was
/// applied before, on the way to `state` or earlier in this slot, is skipped.
pub open spec fn stepped(state: Backdrop, operations: Seq<OperationView>, run: RunView) -> (RunView, StepView) {
    if run.awaiting {
        (run, StepView::Awaiting)
    } else if run.next >= operations.len() {
        (run, StepView::Finished)
    } else {
        let op = operations[run.next as int];
        if state.spent(op.id) || run.executed_ops.contains(op.id) {
            (skipped(run, op.id, Rejection::AlreadyExecuted), StepView::Rejected(Rejection::AlreadyExecuted))
        } else {
            match op.payload {
                PayloadView::Transfer { recipient, amount } => match transfer_applied(
                    state.ledger,
                    state.layers(),
                    run.changes,
                    op.sender,
                    recipient,
                    amount,
                ) {
                    Ok(changes) => (
                        RunView { next: run.next + 1, changes, executed_ops: run.executed_ops.push(op.id), ..run },
                        StepView::Applied,
                    ),
                    Err(reason) => (skipped(run, op.id, reason), StepView::Rejected(reason)),
                },
                PayloadView::RollBuy { roll_count } => match roll_trade_applied(
                    state.ledger,
                    state.layers(),
                    run.changes,
                    op.sender,
                    roll_count,
                    true,
                ) {
                    Ok(changes) => (
                        RunView { next: run.next + 1, changes, executed_ops: run.executed_ops.push(op.id), ..run },
                        StepView::Applied,
                    ),
                    Err(reason) => (skipped(run, op.id, reason), StepView::Rejected(reason)),
                },
                PayloadView::RollSell { roll_count } => match roll_trade_applied(
                    state.ledger,
                    state.layers(),
                    run.changes,
                    op.sender,
                    roll_count,
                    false,
                ) {
                    Ok(changes) => (
                        RunView { next: run.next + 1, changes, executed_ops: run.executed_ops.push(op.id), ..run },
                        StepView::Applied,
                    ),
                    Err(reason) => (skipped(run, op.id, reason), StepView::Rejected(reason)),
                },
                PayloadView::CallSC { target, function, parameter, max_gas } => match contract_at(
                    state.ledger,
                    state.layers(),
                    run.changes,
                    target,
                ) {
                    Some(bytecode) => (
                        RunView { awaiting: true, ..run },
                        StepView::NeedsVm(
                            VmRequestView { caller: op.sender, target, bytecode, function, parameter, max_gas },
                        ),
                    ),
                    None => (
                        skipped(run, op.id, Rejection::CallFailed(ExecutionError::TargetNotFound)),
                        StepView::Rejected(Rejection::CallFailed(ExecutionError::TargetNotFound)),
                    ),
                },
            }
        }
    }
}

/// The execution once the virtual machine has answered the call it waits for.
/// A call that ran within its budget is applied: its entries are laid over
/// those of the slot, its events follow those of the slot. A call that
/// trapped or used more than its budget is skipped. Where the execution does
/// not wait, the answer is dropped.
pub open spec fn settled(
    slot: Slot,
    block_id: Option<BlockId>,
    operations: Seq<OperationView>,
    run: RunView,
    reply: VmReplyView,
) -> RunView {
    if !run.awaiting || run.next >= operations.len() {
        run
    } else {
        let op = operations[run.next as int];
        match op.payload {
            PayloadView::CallSC { max_gas, .. } => match reply {
                VmReplyView::Done { changes, events, gas_used } => if gas_used > max_gas {
                    skipped(run, op.id, Rejection::CallFailed(ExecutionError::ResourceExhausted))
                } else {
                    RunView {
                        next: run.next + 1,
                        awaiting: false,
                        changes: overlaid(run.changes, changes),
                        events: run.events + stamped(
                            events,
                            slot,
                            block_id,
                            op.sender,
                            Some(op.id),
                            false,
                            run.events.len(),
                        ),
                        executed_ops: run.executed_ops.push(op.id),
                        rejected_ops: run.rejected_ops,
                        gas_used: gas_sum(run.gas_used, gas_used),
                    }
                },
                VmReplyView::Trap => skipped(run, op.id, Rejection::CallFailed(ExecutionError::RuntimeTrap)),
            },
            _ => RunView { awaiting: false, ..run },
        }
    }
}

/// The result of a slot whose execution stands at `run`.
pub open spec fn output_of(slot: Slot, block_id: Option<BlockId>, run: RunView) -> OutputView {
    OutputView {
        slot,
        block_id,
        changes: run.changes,
        events: run.events,
        executed_ops: run.executed_ops,
        rejected_ops: run.rejected_ops,
        gas_used: run.gas_used,
    }
}

/// The call that the execution waits for, if it waits for one.
pub open spec fn pending_call(state: Backdrop, operations: Seq<OperationView>, run: RunView) -> Option<
    VmRequestView,
> {
    if run.awaiting && run.next < operations.len() {
        let op = operations[run.next as int];
        match op.payload {
            PayloadView::CallSC { target, function, parameter, max_gas } => match contract_at(
                state.ledger,
                state.layers(),
                run.changes,
                target,
            ) {
                Some(bytecode) => Some(
                    VmRequestView { caller: op.sender, target, bytecode, function, parameter, max_gas },
                ),
                None => None,
            },
            _ => None,
        }
    } else {
        None
    }
}

/// The execution carried on from `run` with the answers of `replies` from
/// index `used` on, one for each call in turn: the execution at its end, or,
/// where the answers run out first, the call that is left without one.
pub open spec fn carried_on(
    state: Backdrop,
    slot: Slot,
    block_id: Option<BlockId>,
    operations: Seq<OperationView>,
    replies: Seq<VmReplyView>,
    run: RunView,
    used: nat,
) -> Result<RunView, VmRequestView>
    decreases operations.len() - run.next, (if run.awaiting {
            0nat
        } else {
            1nat
        }),
{
    if run.next >= operations.len() {
        Ok(run)
    } else if run.awaiting {
        match pending_call(state, operations, run) {
            Some(request) => if used < replies.len() {
                carried_on(
                    state,
                    slot,
                    block_id,
                    operations,
                    replies,
                    settled(slot, block_id, operations, run, replies[used as int]),
                    used + 1,
                )
            } else {
                Err(request)
            },
            None => Ok(run),
        }
    } else {
        carried_on(state, slot, block_id, operations, replies, stepped(state, operations, run).0, used)
    }
}

/// The answers of a list as plain values.
pub open spec fn reply_views(replies: Seq<VmReply>) -> Seq<VmReplyView> {
    replies.map_values(|r: VmReply| r@)
}

/// What the operations of a slot come to on `state`, with the calls answered
/// by `replies` in turn.
pub open spec fn applied(
    state: Backdrop,
    slot: Slot,
    block_id: Option<BlockId>,
    operations: Seq<OperationView>,
    replies: Seq<VmReplyView>,
) -> Result<OutputView, VmRequestView> {
    match carried_on(state, slot, block_id, operations, replies, fresh_run(), 0) {
        Ok(run) => Ok(output_of(slot, block_id, run)),
        Err(request) => Err(request),
    }
}

/// Applies the operations of a slot, in order, to the state given by `ledger`,
/// the operations in `executed` that led to it, and the results in `outputs`
/// over it, and gives the result of the slot: the entries written, the events,
/// the operations applied and skipped. An operation that cannot be applied is
/// skipped, and the slot goes on. The calls of contracts are answered by
/// `replies`, one for each call that reaches the virtual machine, in turn;
/// answers beyond the last call are left aside. Where a call is left without
/// an answer, nothing is applied and the call comes back, for the virtual
/// machine to run on the state that the operations before it led to.
pub fn apply(
    ledger: &Ledger,
    executed: &Vec<OperationId>,
    outputs: &Vec<ExecutionOutput>,
    slot: Slot,
    block_id: Option<BlockId>,
    operations: &Vec<Operation>,
    replies: &Vec<VmReply>,
) -> (result: Result<ExecutionOutput, VmRequest>)
    ensures
        match applied(
            Backdrop { ledger: ledger@, executed_ops: executed@, outputs: output_views(outputs@) },
            slot,
            block_id,
            operation_views(operations@),
            reply_views(replies@),
        ) {
            Ok(output) => result is Ok && result->Ok_0@ == output,
            Err(request) => result is Err && result->Err_0@ == request,
        },
{
    let ghost state = Backdrop { ledger: ledger@, executed_ops: executed@, outputs: output_views(outputs@) };
    let ghost ops = operation_views(operations@);
    let ghost answers = reply_views(replies@);
    let mut run = SlotRun::begin();
    let mut used: usize = 0;
    let mut asked: Option<VmRequest> = None;
    loop
        invariant_except_break
            asked is None,
            !run@.awaiting,
        invariant
            used <= replies.len(),
            state == (Backdrop { ledger: ledger@, executed_ops: executed@, outputs: output_views(outputs@) }),
            ops == operation_views(operations@),
            answers == reply_views(replies@),
            asked matches Some(request) ==> pending_call(state, ops, run@) == Some(request@),
            carried_on(state, slot, block_id, ops, answers, run@, used as nat) == carried_on(
                state,
                slot,
                block_id,
                ops,
                answers,
                fresh_run(),
                0,
            ),
        ensures
            match asked {
                Some(request) => carried_on(state, slot, block_id, ops, answers, fresh_run(), 0) == Err::<
                    RunView,
                    VmRequestView,
                >(request@),
                None => carried_on(state, slot, block_id, ops, answers, fresh_run(), 0) == Ok::<
                    RunView,
                    VmRequestView,
                >(run@),
            },
        decreases operations.len() - run@.next, (if run@.awaiting {
                0nat
            } else {
                1nat
            }),
    {
        match run.step(ledger, executed, outputs, operations) {
            StepOutcome::Finished => {
                break ;
            },
            StepOutcome::NeedsVm(request) => {
                if used < replies.len() {
                    assert(answers[used as int] == replies@[used as int]@);
                    run.settle(slot, block_id, operations, &replies[used]);
                    used += 1;
                } else {
                    asked = Some(request);
                    break ;
                }
            },
            StepOutcome::Awaiting => {
                break ;
            },
            _ => {},
        }
    }
    match asked {
        Some(request) => Err(request),
        None => Ok(run.finish(slot, block_id)),
    }
}

/// What one step of a slot's execution came to.
#[derive(Debug)]
pub enum StepOutcome {
    /// Every operation has been dealt with.
    Finished,
    /// The operation was applied.
    Applied,
    /// The operation was skipped.
    Rejected(Rejection),
    /// The operation calls a contract: the virtual machine must run the call.
    NeedsVm(VmRequest),
    /// The answer of the virtual machine is still missing.
    Awaiting,
}

impl View for StepOutcome {
    type V = StepView;

    open spec fn view(&self) -> StepView {
        match *self {
            StepOutcome::Finished => StepView::Finished,
            StepOutcome::Applied => StepView::Applied,
            StepOutcome::Rejected(reason) => StepView::Rejected(reason),
            StepOutcome::NeedsVm(request) => StepView::NeedsVm(request@),
            StepOutcome::Awaiting => StepView::Awaiting,
        }
    }
}

/// The execution of one slot, under way.
#[derive(Debug)]
pub struct SlotRun {
    next: usize,
    awaiting: bool,
    changes: Ledger,
    events: Vec<SCOutputEvent>,
    executed_ops: Vec<OperationId>,
    rejected_ops: Vec<(OperationId, Rejection)>,
    gas_used: u64,
}

impl View for SlotRun {
    type V = RunView;

    closed spec fn view(&self) -> RunView {
        RunView {
            next: self.next as nat,
            awaiting: self.awaiting,
            changes: self.changes@,
            events: event_views(self.events@),
            executed_ops: self.executed_ops@,
            rejected_ops: self.rejected_ops@,
            gas_used: self.gas_used,
        }
    }
}

impl SlotRun {
    /// The execution before the first operation.
    pub fn begin() -> (run: SlotRun)
        ensures
            run@ == fresh_run(),
    {
        let run = SlotRun {
            next: 0,
            awaiting: false,
            changes: Ledger::new(),
            events: Vec::new(),
            executed_ops: Vec::new(),
            rejected_ops: Vec::new(),
            gas_used: 0,
        };
        assert(event_views(run.events@) =~= Seq::empty());
        run
    }

    /// Whether the execution waits for the virtual machine.
    pub fn is_awaiting(&self) -> (awaiting: bool)
        ensures
            awaiting == self@.awaiting,
    {
        self.awaiting
    }

    /// The entries that the execution has written so far.
    pub fn changes(&self) -> (changes: &Ledger)
        ensures
            changes@ == self@.changes,
    {
        &self.changes
    }

    fn skip(&mut self, id: OperationId, reason: Rejection)
        requires
            old(self).next < usize::MAX,
        ensures
            final(self)@ == skipped(old(self)@, id, reason),
    {
        self.next = self.next + 1;
        self.awaiting = false;
        self.rejected_ops.push((id, reason));
    }

    /// Applies a transfer, or says why it is refused.
    fn transfer(
        &mut self,
        ledger: &Ledger,
        outputs: &Vec<ExecutionOutput>,
        sender: Address,
        recipient: Address,
        amount: Amount,
    ) -> (refused: Option<Rejection>)
        ensures
            match transfer_applied(
                ledger@,
                layers_of(output_views(outputs@)),
                old(self)@.changes,
                sender,
                recipient,
                amount,
            ) {
                Ok(changes) => refused is None && final(self)@ == (RunView { changes, ..old(self)@ }),
                Err(reason) => refused == Some(reason) && final(self)@ == old(self)@,
            },
    {
        let mut from = match lookup_visible(ledger, outputs, &self.changes, sender) {
            Some(entry) => entry.clone(),
            None => {
                return Some(Rejection::UnknownSender);
            },
        };
        let left = match from.parallel_balance.checked_sub(amount) {
            Some(left) => left,
            None => {
                return Some(Rejection::InsufficientBalance);
            },
        };
        if sender == recipient {
            return None;
        }
        let mut to = match lookup_visible(ledger, outputs, &self.changes, recipient) {
            Some(entry) => entry.clone(),
            None => LedgerEntry::empty(),
        };
        let raised = match to.parallel_balance.checked_add(amount) {
            Some(raised) => raised,
            None => {
                return Some(Rejection::BalanceOverflow);
            },
        };
        from.parallel_balance = left;
        to.parallel_balance = raised;
        self.changes.set(sender, from);
        self.changes.set(recipient, to);
        None
    }

    /// Applies a purchase or a sale of rolls, or says why it is refused.
    fn trade_rolls(
        &mut self,
        ledger: &Ledger,
        outputs: &Vec<ExecutionOutput>,
        sender: Address,
        roll_count: u64,
        buying: bool,
    ) -> (refused: Option<Rejection>)
        ensures
            match roll_trade_applied(
                ledger@,
                layers_of(output_views(outputs@)),
                old(self)@.changes,
                sender,
                roll_count,
                buying,
            ) {
                Ok(changes) => refused is None && final(self)@ == (RunView { changes, ..old(self)@ }),
                Err(reason) => refused == Some(reason) && final(self)@ == old(self)@,
            },
    {
        let mut owned = match lookup_visible(ledger, outputs, &self.changes, sender) {
            Some(entry) => entry.clone(),
            None => {
                return Some(Rejection::UnknownSender);
            },
        };
        let price = roll_count.checked_mul(ROLL_PRICE);
        if buying {
            let left = match price {
                Some(price) => owned.sequential_balance.checked_sub(Amount(price)),
                None => None,
            };
            let left = match left {
                Some(left) => left,
                None => {
                    return Some(Rejection::InsufficientBalance);
                },
            };
            let rolls = match owned.roll_count.checked_add(roll_count) {
                Some(rolls) => rolls,
                None => {
                    return Some(Rejection::BalanceOverflow);
                },
            };
            owned.sequential_balance = left;
            owned.roll_count = rolls;
        } else {
            if owned.roll_count < roll_count {
                return Some(Rejection::InsufficientRolls);
            }
            let raised = match price {
                Some(price) => owned.sequential_balance.checked_add(Amount(price)),
                None => None,
            };
            let raised = match raised {
                Some(raised) => raised,
                None => {
                    return Some(Rejection::BalanceOverflow);
                },
            };
            owned.sequential_balance = raised;
            owned.roll_count = owned.roll_count - roll_count;
        }
        self.changes.set(sender, owned);
        None
    }

    /// Deals with the next operation of `operations`, on the state given by
    /// `ledger`, the operations in `executed` that led to it, and the results
    /// in `outputs` over it.
    pub fn step(
        &mut self,
        ledger: &Ledger,
        executed: &Vec<OperationId>,
        outputs: &Vec<ExecutionOutput>,
        operations: &Vec<Operation>,
    ) -> (outcome: StepOutcome)
        ensures
            (final(self)@, outcome@) == stepped(
                Backdrop { ledger: ledger@, executed_ops: executed@, outputs: output_views(outputs@) },
                operation_views(operations@),
                old(self)@,
            ),
    {
        if self.awaiting {
            return StepOutcome::Awaiting;
        }
        if self.next >= operations.len() {
            return StepOutcome::Finished;
        }
        let op = &operations[self.next];
        assert(operation_views(operations@)[self.next as int] == op@);
        if is_spent(executed, outputs, op.id) || holds_id(&self.executed_ops, op.id) {
            self.skip(op.id, Rejection::AlreadyExecuted);
            return StepOutcome::Rejected(Rejection::AlreadyExecuted);
        }
        match &op.payload {
            OperationPayload::Transfer { recipient, amount } => {
                match self.transfer(ledger, outputs, op.sender, *recipient, *amount) {
                    None => {
                        self.next = self.next + 1;
                        self.executed_ops.push(op.id);
                        StepOutcome::Applied
                    },
                    Some(reason) => {
                        self.skip(op.id, reason);
                        StepOutcome::Rejected(reason)
                    },
                }
            },
            OperationPayload::RollBuy { roll_count } => {
                match self.trade_rolls(ledger, outputs, op.sender, *roll_count, true) {
                    None => {
                        self.next = self.next + 1;
                        self.executed_ops.push(op.id);
                        StepOutcome::Applied
                    },
                    Some(reason) => {
                        self.skip(op.id, reason);
                        StepOutcome::Rejected(reason)
                    },
                }
            },
            OperationPayload::RollSell { roll_count } => {
                match self.trade_rolls(ledger, outputs, op.sender, *roll_count, false) {
                    None => {
                        self.next = self.next + 1;
                        self.executed_ops.push(op.id);
                        StepOutcome::Applied
                    },
                    Some(reason) => {
                        self.skip(op.id, reason);
                        StepOutcome::Rejected(reason)
                    },
                }
            },
            OperationPayload::CallSC { target, function, parameter, max_gas } => {
                let found = lookup_visible(ledger, outputs, &self.changes, *target);
                let request = match found {
                    Some(entry) => if entry.bytecode.len() > 0 {
                        Some(VmRequest::new(op.sender, *target, &entry.bytecode, function, parameter, *max_gas))
                    } else {
                        None
                    },
                    None => None,
                };
                match request {
                    Some(request) => {
                        self.awaiting = true;
                        StepOutcome::NeedsVm(request)
                    },
                    None => {
                        let reason = Rejection::CallFailed(ExecutionError::TargetNotFound);
                        self.skip(op.id, reason);
                        StepOutcome::Rejected(reason)
                    },
                }
            },
        }
    }

    /// Takes the answer of the virtual machine to the call that the execution
    /// waits for.
    pub fn settle(
        &mut self,
        slot: Slot,
        block_id: Option<BlockId>,
        operations: &Vec<Operation>,
        reply: &VmReply,
    )
        ensures
            final(self)@ == settled(slot, block_id, operation_views(operations@), old(self)@, reply@),
    {
        if !self.awaiting || self.next >= operations.len() {
            return ;
        }
        let op = &operations[self.next];
        assert(operation_views(operations@)[self.next as int] == op@);
        match &op.payload {
            OperationPayload::CallSC { max_gas, .. } => {
                match reply {
                    VmReply::Done { changes, events, gas_used } => {
                        if *gas_used > *max_gas {
                            self.skip(op.id, Rejection::CallFailed(ExecutionError::ResourceExhausted));
                        } else {
                            self.changes.apply(changes);
                            stamp_events(&mut self.events, events, slot, block_id, op.sender, Some(op.id), false);
                            self.executed_ops.push(op.id);
                            self.gas_used = if *gas_used <= u64::MAX - self.gas_used {
                                self.gas_used + *gas_used
                            } else {
                                u64::MAX
                            };
                            self.next = self.next + 1;
                            self.awaiting = false;
                        }
                    },
                    VmReply::Trap => {
                        self.skip(op.id, Rejection::CallFailed(ExecutionError::RuntimeTrap));
                    },
                }
            },
            _ => {
                self.awaiting = false;
            },
        }
    }

    /// The result of the slot as the execution stands.
    pub fn finish(self, slot: Slot, block_id: Option<BlockId>) -> (output: ExecutionOutput)
        ensures
            output@ == output_of(slot, block_id, self@),
    {
        ExecutionOutput {
            slot,
            block_id,
            changes: self.changes,
            events: self.events,
            executed_ops: self.executed_ops,
            rejected_ops: self.rejected_ops,
            gas_used: self.gas_used,
        }
    }
}

impl Clone for ExecutionOutput {
    fn clone(&self) -> (copy: ExecutionOutput)
        ensures
            copy@ == self@,
    {
        let mut rejected_ops: Vec<(OperationId, Rejection)> = Vec::new();
        let mut i: usize = 0;
        while i < self.rejected_ops.len()
            invariant
                i <= self.rejected_ops.len(),
                rejected_ops@ == self.rejected_ops@.take(i as int),
            decreases self.rejected_ops.len() - i,
        {
            rejected_ops.push((self.rejected_ops[i].0, self.rejected_ops[i].1));
            assert(self.rejected_ops@.take(i + 1) =~= self.rejected_ops@.take(i as int).push(
                self.rejected_ops@[i as int],
            ));
            i += 1;
        }
        assert(self.rejected_ops@.take(self.rejected_ops.len() as int) =~= self.rejected_ops@);
        ExecutionOutput {
            slot: self.slot,
            block_id: self.block_id,
            changes: self.changes.clone(),
            events: copy_events(&self.events),
            executed_ops: copy_ids(&self.executed_ops),
            rejected_ops,
            gas_used: self.gas_used,
        }
    }
}

} // verus!
