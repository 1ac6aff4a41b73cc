//! The boundary of the execution core: what the rest of the node may ask of it.

use crate::blockclique::SlotBlocks;
use crate::bytes::bytes_lt;
use crate::datastore::value_at;
use crate::event::lemma_selected_concat;
use crate::event::{event_views, in_slot_order, select_into, selected, EventFilter, EventView, SCOutputEvent};
use crate::execution::{
    contract_at, is_spent, layers_of, lookup_layered, output_views, stamp_events, stamped, ExecutionError,
    ExecutionOutput, OutputView,
};
use crate::ledger::{entry_of, layered_entry, LedgerEntry, LedgerEntryView};
use crate::models::{Address, Amount, OperationId, Slot};
use crate::once::applied_once;
use crate::order::{lemma_events_in_slot_order, well_ordered};
use crate::operation::{vm_event_views, VmReply, VmReplyView, VmRequest, VmRequestView};
use crate::worker::{candidate_backdrop, cycle_rolls, notified, stop_asked, ExecutionWorker, StateView};
use vstd::prelude::*;

verus! {

/// Which of the two states a question is about.
#[derive(Clone, Copy, PartialEq, Eq, Structural, Debug)]
pub enum Finality {
    /// The state that finalized blocks have led to.
    Final,
    /// The state that follows the blockclique.
    Candidate,
}

/// Which of the two balances of an address a question is about.
#[derive(Clone, Copy, PartialEq, Eq, Structural, Debug)]
pub enum BalanceKind {
    Parallel,
    Sequential,
}

/// A call to run without any effect on the state.
#[derive(Debug)]
pub struct ReadOnlyExecutionRequest {
    /// What the call may use at most.
    pub max_gas: u64,
    /// Address in whose name the call is made.
    pub caller: Address,
    /// Contract that is called.
    pub target: Address,
    pub function: Vec<u8>,
    pub parameter: Vec<u8>,
}

/// A read-only call as plain values.
pub struct ReadOnlyView {
    pub max_gas: u64,
    pub caller: Address,
    pub target: Address,
    pub function: Seq<u8>,
    pub parameter: Seq<u8>,
}

impl View for ReadOnlyExecutionRequest {
    type V = ReadOnlyView;

    open spec fn view(&self) -> ReadOnlyView {
        ReadOnlyView {
            max_gas: self.max_gas,
            caller: self.caller,
            target: self.target,
            function: self.function@,
            parameter: self.parameter@,
        }
    }
}

/// The entry of `address` in one of the two states.
pub open spec fn state_entry(s: StateView, address: Address, view: Finality) -> Option<LedgerEntryView> {
    match view {
        Finality::Final => entry_of(s.final_ledger, address),
        Finality::Candidate => layered_entry(s.final_ledger, layers_of(s.history), address),
    }
}

/// One balance of an entry; nothing where there is no entry.
pub open spec fn balance_of(entry: Option<LedgerEntryView>, kind: BalanceKind) -> Option<Amount> {
    match entry {
        Some(e) => Some(
            match kind {
                BalanceKind::Parallel => e.parallel_balance,
                BalanceKind::Sequential => e.sequential_balance,
            },
        ),
        None => None,
    }
}

/// The value under `key` in the datastore of an entry; nothing where there is no entry.
pub open spec fn data_of(entry: Option<LedgerEntryView>, key: Seq<u8>) -> Option<Seq<u8>> {
    match entry {
        Some(e) => value_at(e.datastore, key),
        None => None,
    }
}

/// The datastore keys of an entry, in stored order; none where there is no entry.
pub open spec fn keys_of(entry: Option<LedgerEntryView>) -> Seq<Seq<u8>> {
    match entry {
        Some(e) => e.datastore.map_values(|p: (Seq<u8>, Seq<u8>)| p.0),
        None => Seq::empty(),
    }
}

/// An optional byte string as plain values.
pub open spec fn bytes_view(bytes: Option<Vec<u8>>) -> Option<Seq<u8>> {
    match bytes {
        Some(b) => Some(b@),
        None => None,
    }
}

/// Byte strings as plain values.
pub open spec fn key_views(keys: Seq<Vec<u8>>) -> Seq<Seq<u8>> {
    keys.map_values(|k: Vec<u8>| k@)
}

/// The events of the candidate results, oldest result first.
pub open spec fn history_events(history: Seq<OutputView>) -> Seq<EventView>
    decreases history.len(),
{
    if history.len() == 0 {
        Seq::empty()
    } else {
        history_events(history.drop_last()) + history.last().events
    }
}

/// Every event that the worker holds: those of the final state, then those of
/// the candidate results.
pub open spec fn all_events(s: StateView) -> Seq<EventView> {
    s.final_events + history_events(s.history)
}

/// Whether `id` was applied, in the final state or in the candidate state.
pub open spec fn was_executed(s: StateView, id: OperationId) -> bool {
    candidate_backdrop(s).spent(id)
}

/// The operations of `ops` that were not applied, in the order of `ops`.
pub open spec fn unexecuted_among(s: StateView, ops: Seq<OperationId>) -> Seq<OperationId>
    decreases ops.len(),
{
    if ops.len() == 0 {
        Seq::empty()
    } else {
        let earlier = unexecuted_among(s, ops.drop_last());
        if was_executed(s, ops.last()) {
            earlier
        } else {
            earlier.push(ops.last())
        }
    }
}

/// The slot that the candidate state has reached: that of its newest result,
/// else the last final slot, else the first slot there is.
pub open spec fn candidate_slot(s: StateView) -> Slot {
    if s.history.len() > 0 {
        s.history.last().slot
    } else if s.final_log.len() > 0 {
        s.final_log.last().0
    } else {
        Slot { period: 0, thread: 0 }
    }
}

/// The call that a read-only request puts to the virtual machine, on the
/// candidate state. There is none where no contract lives at the target.
pub open spec fn readonly_call(s: StateView, req: ReadOnlyView) -> Result<VmRequestView, ExecutionError> {
    match contract_at(s.final_ledger, layers_of(s.history), Seq::empty(), req.target) {
        Some(bytecode) => Ok(
            VmRequestView {
                caller: req.caller,
                target: req.target,
                bytecode,
                function: req.function,
                parameter: req.parameter,
                max_gas: req.max_gas,
            },
        ),
        None => Err(ExecutionError::TargetNotFound),
    }
}

/// What a read-only request comes to, given the answer of the virtual machine
/// to its call: the result as if the call had been applied, or the reason of
/// its failure. Without a contract at the target the answer plays no part.
pub open spec fn readonly_result(s: StateView, req: ReadOnlyView, reply: VmReplyView) -> Result<
    OutputView,
    ExecutionError,
> {
    if readonly_call(s, req) is Err {
        Err(ExecutionError::TargetNotFound)
    } else {
        match reply {
            VmReplyView::Trap => Err(ExecutionError::RuntimeTrap),
            VmReplyView::Done { changes, events, gas_used } => if gas_used > req.max_gas {
                Err(ExecutionError::ResourceExhausted)
            } else {
                Ok(
                    OutputView {
                        slot: candidate_slot(s),
                        block_id: None,
                        changes,
                        events: stamped(events, candidate_slot(s), None, req.caller, None, true, 0),
                        executed_ops: Seq::empty(),
                        rejected_ops: Seq::empty(),
                        gas_used,
                    },
                )
            },
        }
    }
}

/// What the rest of the node may ask of the execution core.
pub trait ExecutionController: Send + Sync {
    /// The state of the worker behind the controller.
    spec fn worker(&self) -> StateView;

    /// Tells of newly finalized blocks and of the latest blockclique. The
    /// notification joins those that wait for the worker; the worker takes them
    /// up in the order of their coming.
    fn update_blockclique_status(&mut self, finalized_blocks: SlotBlocks, blockclique: SlotBlocks)
        ensures
            final(self).worker() == notified(old(self).worker(), finalized_blocks@, blockclique@),
            well_ordered(old(self).worker()) ==> well_ordered(final(self).worker()),
            applied_once(old(self).worker()) ==> applied_once(final(self).worker()),
    ;

    /// The events that pass `filter`, ordered by slot and, within a slot, by emission.
    fn get_filtered_sc_output_event(&self, filter: EventFilter) -> (found: Vec<SCOutputEvent>)
        ensures
            event_views(found@) == selected(all_events(self.worker()), filter),
            well_ordered(self.worker()) ==> in_slot_order(event_views(found@)),
    ;

    /// For each address its parallel balance in the final and in the candidate state.
    fn get_final_and_active_parallel_balance(&self, addresses: Vec<Address>) -> (balances: Vec<
        (Option<Amount>, Option<Amount>),
    >)
        ensures
            balances@.len() == addresses@.len(),
            forall|i: int|
                0 <= i < addresses@.len() ==> #[trigger] balances@[i] == (
                    balance_of(state_entry(self.worker(), addresses@[i], Finality::Final), BalanceKind::Parallel),
                    balance_of(
                        state_entry(self.worker(), addresses@[i], Finality::Candidate),
                        BalanceKind::Parallel,
                    ),
                ),
    ;

    /// For each address its sequential balance in the final and in the candidate state.
    fn get_final_and_active_sequential_balance(&self, addresses: Vec<Address>) -> (balances: Vec<
        (Option<Amount>, Option<Amount>),
    >)
        ensures
            balances@.len() == addresses@.len(),
            forall|i: int|
                0 <= i < addresses@.len() ==> #[trigger] balances@[i] == (
                    balance_of(state_entry(self.worker(), addresses@[i], Finality::Final), BalanceKind::Sequential),
                    balance_of(
                        state_entry(self.worker(), addresses@[i], Finality::Candidate),
                        BalanceKind::Sequential,
                    ),
                ),
    ;

    /// For each address and key the datastore value in the final and in the candidate state.
    fn get_final_and_active_data_entry(&self, input: Vec<(Address, Vec<u8>)>) -> (values: Vec<
        (Option<Vec<u8>>, Option<Vec<u8>>),
    >)
        ensures
            values@.len() == input@.len(),
            forall|i: int|
                0 <= i < input@.len() ==> bytes_view((#[trigger] values@[i]).0) == data_of(
                    state_entry(self.worker(), input@[i].0, Finality::Final),
                    input@[i].1@,
                ) && bytes_view(values@[i].1) == data_of(
                    state_entry(self.worker(), input@[i].0, Finality::Candidate),
                    input@[i].1@,
                ),
    ;

    /// The datastore keys of an address in the final and in the candidate
    /// state, each in lexicographic order.
    fn get_final_and_active_datastore_keys(&self, addr: &Address) -> (keys: (Vec<Vec<u8>>, Vec<Vec<u8>>))
        ensures
            key_views(keys.0@) == keys_of(state_entry(self.worker(), *addr, Finality::Final)),
            key_views(keys.1@) == keys_of(state_entry(self.worker(), *addr, Finality::Candidate)),
            forall|i: int, j: int| 0 <= i < j < keys.0@.len() ==> bytes_lt(#[trigger] keys.0@[i]@, #[trigger] keys.0@[j]@),
            forall|i: int, j: int| 0 <= i < j < keys.1@.len() ==> bytes_lt(#[trigger] keys.1@[i]@, #[trigger] keys.1@[j]@),
    ;

    /// The stakers that count for the draws of `cycle`, with their rolls: the
    /// roll counts of the cycle before. Empty where those are not there.
    fn get_cycle_rolls(&self, cycle: u64) -> (rolls: Vec<(Address, u64)>)
        ensures
            rolls@ == cycle_rolls(self.worker().roll_snapshots, cycle),
    ;

    /// Concludes a read-only call on the candidate state. `reply` is what the
    /// virtual machine answered to the call of the request; it plays no part
    /// where no contract lives at the target. Nothing of the worker changes.
    fn execute_readonly_request(&self, req: ReadOnlyExecutionRequest, reply: VmReply) -> (result: Result<
        ExecutionOutput,
        ExecutionError,
    >)
        ensures
            result is Ok <==> readonly_result(self.worker(), req@, reply@) is Ok,
            result is Ok ==> readonly_result(self.worker(), req@, reply@) == Ok::<OutputView, ExecutionError>(
                result->Ok_0@,
            ),
            result is Err ==> readonly_result(self.worker(), req@, reply@) == Err::<OutputView, ExecutionError>(
                result->Err_0,
            ),
    ;

    /// The operations of `ops` that were not applied, neither in the final
    /// state nor in the candidate state, in the order of `ops`.
    fn unexecuted_ops_among(&self, ops: &Vec<OperationId>) -> (pending: Vec<OperationId>)
        ensures
            pending@ == unexecuted_among(self.worker(), ops@),
    ;
}

/// What stops the execution worker. Whoever owns the worker, or the thread
/// that drives it, can be its manager.
pub trait ExecutionManager {
    /// Stops the worker.
    fn stop(&mut self);
}

impl ExecutionWorker {
    /// The entry of `address` in one of the two states.
    pub fn get_entry(&self, address: Address, view: Finality) -> (entry: Option<&LedgerEntry>)
        ensures
            entry is Some <==> state_entry(self@, address, view) is Some,
            entry is Some ==> state_entry(self@, address, view) == Some(entry->0@),
    {
        match view {
            Finality::Final => self.final_ledger().get(address),
            Finality::Candidate => lookup_layered(self.final_ledger(), self.history(), address),
        }
    }

    /// One balance of `address` in one of the two states; `None` where that
    /// state does not know the address.
    pub fn get_balance(&self, address: Address, kind: BalanceKind, view: Finality) -> (balance: Option<Amount>)
        ensures
            balance == balance_of(state_entry(self@, address, view), kind),
    {
        match self.get_entry(address, view) {
            Some(entry) => Some(
                match kind {
                    BalanceKind::Parallel => entry.parallel_balance,
                    BalanceKind::Sequential => entry.sequential_balance,
                },
            ),
            None => None,
        }
    }

    /// The datastore value of `address` under `key` in one of the two states;
    /// `None` where that state knows no such address or key.
    pub fn get_datastore_entry(&self, address: Address, key: &Vec<u8>, view: Finality) -> (value: Option<Vec<u8>>)
        ensures
            bytes_view(value) == data_of(state_entry(self@, address, view), key@),
    {
        match self.get_entry(address, view) {
            Some(entry) => entry.datastore.get(key),
            None => None,
        }
    }

    /// The datastore keys of `address` in one of the two states, in
    /// lexicographic order; none where that state does not know the address.
    pub fn list_datastore_keys(&self, address: Address, view: Finality) -> (keys: Vec<Vec<u8>>)
        ensures
            key_views(keys@) == keys_of(state_entry(self@, address, view)),
            forall|i: int, j: int| 0 <= i < j < keys@.len() ==> bytes_lt(#[trigger] keys@[i]@, #[trigger] keys@[j]@),
    {
        match self.get_entry(address, view) {
            Some(entry) => {
                let keys = entry.datastore.keys();
                assert(key_views(keys@) =~= keys_of(Some(entry@)));
                keys
            },
            None => {
                let keys: Vec<Vec<u8>> = Vec::new();
                assert(key_views(keys@) =~= Seq::empty());
                keys
            },
        }
    }

    fn balances(&self, addresses: &Vec<Address>, kind: BalanceKind) -> (balances: Vec<
        (Option<Amount>, Option<Amount>),
    >)
        ensures
            balances@.len() == addresses@.len(),
            forall|i: int|
                0 <= i < addresses@.len() ==> #[trigger] balances@[i] == (
                    balance_of(state_entry(self@, addresses@[i], Finality::Final), kind),
                    balance_of(state_entry(self@, addresses@[i], Finality::Candidate), kind),
                ),
    {
        let mut balances: Vec<(Option<Amount>, Option<Amount>)> = Vec::new();
        let mut i: usize = 0;
        while i < addresses.len()
            invariant
                i <= addresses.len(),
                balances@.len() == i,
                forall|j: int|
                    0 <= j < i ==> #[trigger] balances@[j] == (
                        balance_of(state_entry(self@, addresses@[j], Finality::Final), kind),
                        balance_of(state_entry(self@, addresses@[j], Finality::Candidate), kind),
                    ),
            decreases addresses.len() - i,
        {
            let in_final = self.get_balance(addresses[i], kind, Finality::Final);
            let in_candidate = self.get_balance(addresses[i], kind, Finality::Candidate);
            balances.push((in_final, in_candidate));
            i += 1;
        }
        balances
    }

    /// Whether `id` was applied, in the final state or in the candidate state.
    pub fn is_executed(&self, id: OperationId) -> (executed: bool)
        ensures
            executed == was_executed(self@, id),
    {
        is_spent(self.final_executed_ops(), self.history(), id)
    }

    /// The call that a read-only request puts to the virtual machine; the
    /// error where no contract lives at the target.
    pub fn readonly_vm_request(&self, req: &ReadOnlyExecutionRequest) -> (call: Result<VmRequest, ExecutionError>)
        ensures
            call is Ok <==> readonly_call(self@, req@) is Ok,
            call is Ok ==> readonly_call(self@, req@) == Ok::<VmRequestView, ExecutionError>(call->Ok_0@),
            call is Err ==> call->Err_0 == ExecutionError::TargetNotFound,
    {
        assert(entry_of(Seq::empty(), req.target) is None);
        match lookup_layered(self.final_ledger(), self.history(), req.target) {
            Some(entry) => {
                if entry.bytecode.len() > 0 {
                    Ok(
                        VmRequest::new(
                            req.caller,
                            req.target,
                            &entry.bytecode,
                            &req.function,
                            &req.parameter,
                            req.max_gas,
                        ),
                    )
                } else {
                    Err(ExecutionError::TargetNotFound)
                }
            },
            None => Err(ExecutionError::TargetNotFound),
        }
    }

    /// The slot that the candidate state has reached.
    pub fn latest_slot(&self) -> (slot: Slot)
        ensures
            slot == candidate_slot(self@),
    {
        let history = self.history();
        let log = self.final_log();
        if history.len() > 0 {
            assert(self@.history.last() == history@[history.len() - 1]@);
            history[history.len() - 1].slot
        } else if log.len() > 0 {
            log[log.len() - 1].0
        } else {
            Slot::new(0, 0)
        }
    }
}

impl ExecutionController for ExecutionWorker {
    open spec fn worker(&self) -> StateView {
        self@
    }

    fn update_blockclique_status(&mut self, finalized_blocks: SlotBlocks, blockclique: SlotBlocks)
        ensures
            well_ordered(final(self)@),
            applied_once(final(self)@),
    {
        self.notify(finalized_blocks, blockclique)
    }

    fn get_filtered_sc_output_event(&self, filter: EventFilter) -> (found: Vec<SCOutputEvent>)
        ensures
            in_slot_order(event_views(found@)),
    {
        self.recall_order();
        proof {
            lemma_events_in_slot_order(self@, filter);
        }
        let mut found = self.final_events().query(&filter);
        let history = self.history();
        let ghost views = self@.history;
        let mut i: usize = 0;
        assert(views.take(0) =~= Seq::empty());
        assert(self@.final_events + history_events(views.take(0)) =~= self@.final_events);
        while i < history.len()
            invariant
                i <= history.len(),
                views == self@.history,
                output_views(history@) == views,
                event_views(found@) == selected(self@.final_events + history_events(views.take(i as int)), filter),
            decreases history.len() - i,
        {
            proof {
                let upto = views.take(i + 1);
                assert(upto.drop_last() =~= views.take(i as int));
                assert(upto.last() == history@[i as int]@);
                lemma_selected_concat(
                    self@.final_events + history_events(views.take(i as int)),
                    event_views(history@[i as int].events@),
                    filter,
                );
                assert(self@.final_events + history_events(upto) =~= (self@.final_events + history_events(
                    views.take(i as int),
                )) + event_views(history@[i as int].events@));
            }
            select_into(&history[i].events, &filter, &mut found);
            i += 1;
        }
        assert(views.take(history.len() as int) =~= views);
        found
    }

    fn get_final_and_active_parallel_balance(&self, addresses: Vec<Address>) -> (balances: Vec<
        (Option<Amount>, Option<Amount>),
    >) {
        self.balances(&addresses, BalanceKind::Parallel)
    }

    fn get_final_and_active_sequential_balance(&self, addresses: Vec<Address>) -> (balances: Vec<
        (Option<Amount>, Option<Amount>),
    >) {
        self.balances(&addresses, BalanceKind::Sequential)
    }

    fn get_final_and_active_data_entry(&self, input: Vec<(Address, Vec<u8>)>) -> (values: Vec<
        (Option<Vec<u8>>, Option<Vec<u8>>),
    >) {
        let mut values: Vec<(Option<Vec<u8>>, Option<Vec<u8>>)> = Vec::new();
        let mut i: usize = 0;
        while i < input.len()
            invariant
                i <= input.len(),
                values@.len() == i,
                forall|j: int|
                    0 <= j < i ==> bytes_view((#[trigger] values@[j]).0) == data_of(
                        state_entry(self@, input@[j].0, Finality::Final),
                        input@[j].1@,
                    ) && bytes_view(values@[j].1) == data_of(
                        state_entry(self@, input@[j].0, Finality::Candidate),
                        input@[j].1@,
                    ),
            decreases input.len() - i,
        {
            let in_final = self.get_datastore_entry(input[i].0, &input[i].1, Finality::Final);
            let in_candidate = self.get_datastore_entry(input[i].0, &input[i].1, Finality::Candidate);
            values.push((in_final, in_candidate));
            i += 1;
        }
        values
    }

    fn get_final_and_active_datastore_keys(&self, addr: &Address) -> (keys: (Vec<Vec<u8>>, Vec<Vec<u8>>)) {
        (self.list_datastore_keys(*addr, Finality::Final), self.list_datastore_keys(*addr, Finality::Candidate))
    }

    fn get_cycle_rolls(&self, cycle: u64) -> (rolls: Vec<(Address, u64)>) {
        self.rolls_for_cycle(cycle)
    }

    fn execute_readonly_request(&self, req: ReadOnlyExecutionRequest, reply: VmReply) -> (result: Result<
        ExecutionOutput,
        ExecutionError,
    >) {
        if self.readonly_vm_request(&req).is_err() {
            return Err(ExecutionError::TargetNotFound);
        }
        match reply {
            VmReply::Trap => Err(ExecutionError::RuntimeTrap),
            VmReply::Done { changes, events, gas_used } => {
                if gas_used > req.max_gas {
                    Err(ExecutionError::ResourceExhausted)
                } else {
                    let slot = self.latest_slot();
                    let mut stamped_events: Vec<SCOutputEvent> = Vec::new();
                    assert(event_views(stamped_events@) =~= Seq::empty());
                    stamp_events(&mut stamped_events, &events, slot, None, req.caller, None, true);
                    let output = ExecutionOutput {
                        slot,
                        block_id: None,
                        changes,
                        events: stamped_events,
                        executed_ops: Vec::new(),
                        rejected_ops: Vec::new(),
                        gas_used,
                    };
                    assert(output@.events =~= stamped(
                        vm_event_views(events@),
                        slot,
                        None,
                        req.caller,
                        None,
                        true,
                        0,
                    ));
                    Ok(output)
                }
            },
        }
    }

    fn unexecuted_ops_among(&self, ops: &Vec<OperationId>) -> (pending: Vec<OperationId>) {
        let mut pending: Vec<OperationId> = Vec::new();
        let mut i: usize = 0;
        assert(ops@.take(0) =~= Seq::empty());
        while i < ops.len()
            invariant
                i <= ops.len(),
                pending@ == unexecuted_among(self@, ops@.take(i as int)),
            decreases ops.len() - i,
        {
            assert(ops@.take(i + 1).drop_last() =~= ops@.take(i as int));
            assert(ops@.take(i + 1).last() == ops@[i as int]);
            if !self.is_executed(ops[i]) {
                pending.push(ops[i]);
            }
            i += 1;
        }
        assert(ops@.take(ops.len() as int) =~= ops@);
        pending
    }
}

impl ExecutionManager for ExecutionWorker {
    /// Asks the worker to stop. A slot that is being executed is brought to
    /// its end first; nothing new is started.
    fn stop(&mut self)
        ensures
            final(self)@ == stop_asked(old(self)@),
            well_ordered(final(self)@),
            applied_once(final(self)@),
    {
        self.request_stop()
    }
}

} // verus!
