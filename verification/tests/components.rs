use massa_execution_exports::blockclique::SlotBlocks;
use massa_execution_exports::bytes::{bytes_equal, compare_bytes, copy_bytes, KeyOrder};
use massa_execution_exports::datastore::Datastore;
use massa_execution_exports::event::{EventFilter, EventStore, SCOutputEvent};
use massa_execution_exports::execution::{
    apply, lookup_layered, lookup_visible, ExecutionError, Rejection, SlotRun, StepOutcome,
};
use massa_execution_exports::ledger::{Ledger, LedgerEntry};
use massa_execution_exports::models::{Address, Amount, BlockId, OperationId, Slot};
use massa_execution_exports::operation::{Operation, Storage, VmEvent, VmReply};
use massa_execution_exports::{ExecutionManager, ReadOnlyExecutionRequest};

#[test]
fn slots_are_ordered_by_period_then_thread() {
    assert!(Slot::new(1, 31).is_before(&Slot::new(2, 0)));
    assert!(Slot::new(2, 0).is_before(&Slot::new(2, 1)));
    assert!(!Slot::new(2, 1).is_before(&Slot::new(2, 1)));
    assert!(!Slot::new(3, 0).is_before(&Slot::new(2, 9)));
    assert!(Slot::new(2, 1).is_at_or_before(&Slot::new(2, 1)));
    assert!(Slot::new(0, 0).is_at_or_before(&Slot::new(u64::MAX, u8::MAX)));
    assert!(!Slot::new(2, 2).is_at_or_before(&Slot::new(2, 1)));
}

#[test]
fn amounts_add_and_subtract_checked() {
    assert_eq!(Amount(3).checked_add(Amount(4)), Some(Amount(7)));
    assert_eq!(Amount(u64::MAX).checked_add(Amount(0)), Some(Amount(u64::MAX)));
    assert_eq!(Amount(u64::MAX).checked_add(Amount(1)), None);
    assert_eq!(Amount(3).checked_sub(Amount(3)), Some(Amount(0)));
    assert_eq!(Amount(3).checked_sub(Amount(4)), None);
    assert_eq!(Amount::zero().to_raw(), 0);
    assert_eq!(Amount::from_raw(12).to_raw(), 12);
}

#[test]
fn bytes_compare_lexicographically() {
    let order = |a: &[u8], b: &[u8]| compare_bytes(&a.to_vec(), &b.to_vec());
    assert_eq!(order(b"", b""), KeyOrder::Same);
    assert_eq!(order(b"", b"a"), KeyOrder::Before);
    assert_eq!(order(b"a", b""), KeyOrder::After);
    assert_eq!(order(b"ab", b"abc"), KeyOrder::Before);
    assert_eq!(order(b"abd", b"abc"), KeyOrder::After);
    assert_eq!(order(b"b", b"abc"), KeyOrder::After);
    assert_eq!(order(&[0x7f], &[0x80]), KeyOrder::Before);
    assert_eq!(order(&[0xff], &[0x00, 0x01]), KeyOrder::After);
    assert_eq!(order(b"same", b"same"), KeyOrder::Same);
    assert!(bytes_equal(&b"xy".to_vec(), &b"xy".to_vec()));
    assert!(!bytes_equal(&b"xy".to_vec(), &b"xz".to_vec()));
    assert!(!bytes_equal(&b"xy".to_vec(), &b"xyz".to_vec()));
    assert_eq!(copy_bytes(&vec![1, 2, 3]), vec![1, 2, 3]);
}

#[test]
fn datastore_keeps_keys_in_lexicographic_order() {
    let mut store = Datastore::new();
    assert_eq!(store.len(), 0);
    for key in [&b"pear"[..], b"apple", b"", b"app", b"zoo", b"apple2"] {
        store.set(key.to_vec(), key.iter().rev().cloned().collect());
    }
    assert_eq!(
        store.keys(),
        vec![b"".to_vec(), b"app".to_vec(), b"apple".to_vec(), b"apple2".to_vec(), b"pear".to_vec(), b"zoo".to_vec()]
    );
    assert_eq!(store.get(&b"apple".to_vec()), Some(b"elppa".to_vec()));
    assert_eq!(store.get(&b"appl".to_vec()), None);
    assert!(store.contains_key(&b"".to_vec()));
    // replaced in place
    store.set(b"apple".to_vec(), b"new".to_vec());
    assert_eq!(store.len(), 6);
    assert_eq!(store.get(&b"apple".to_vec()), Some(b"new".to_vec()));
    // removed
    assert!(store.remove(&b"app".to_vec()));
    assert!(!store.remove(&b"app".to_vec()));
    assert_eq!(store.get(&b"app".to_vec()), None);
    assert_eq!(store.len(), 5);
    assert_eq!(store.keys()[1], b"apple".to_vec());
    let copy = store.clone();
    assert!(copy.same_as(&store));
    store.set(b"zoo".to_vec(), vec![]);
    assert!(!copy.same_as(&store));
}

#[test]
fn datastore_finds_every_key_among_many() {
    let mut store = Datastore::new();
    let key = |i: u32| vec![(i / 256) as u8, (i % 256) as u8, 7];
    // 600 keys in scattered order
    let mut i: u32 = 0;
    for _ in 0..600 {
        store.set(key(i), i.to_le_bytes().to_vec());
        i = (i + 427) % 600;
    }
    assert_eq!(store.len(), 600);
    let keys = store.keys();
    for (at, k) in keys.iter().enumerate() {
        assert_eq!(k, &key(at as u32));
    }
    for i in 0..600u32 {
        assert_eq!(store.get(&key(i)), Some(i.to_le_bytes().to_vec()));
        assert!(!store.contains_key(&vec![(i / 256) as u8, (i % 256) as u8]));
        assert!(!store.contains_key(&vec![(i / 256) as u8, (i % 256) as u8, 8]));
    }
    for i in (0..600u32).step_by(2) {
        assert!(store.remove(&key(i)));
    }
    assert_eq!(store.len(), 300);
    for i in 0..600u32 {
        assert_eq!(store.contains_key(&key(i)), i % 2 == 1);
    }
}

#[test]
fn ledger_writes_replace_and_changes_overlay() {
    let mut ledger = Ledger::new();
    ledger.set(Address(1), LedgerEntry::with_balances(Amount(5), Amount(6)));
    ledger.set(Address(2), LedgerEntry::with_balances(Amount(7), Amount(8)));
    ledger.set(Address(1), LedgerEntry::with_balances(Amount(9), Amount(6)));
    assert_eq!(ledger.len(), 2);
    assert_eq!(ledger.entry_at(0).unwrap().0, Address(1));
    assert_eq!(ledger.entry_at(1).unwrap().1.parallel_balance, Amount(7));
    assert!(ledger.entry_at(2).is_none());
    assert_eq!(ledger.get(Address(1)).unwrap().parallel_balance, Amount(9));
    assert!(ledger.get(Address(3)).is_none());

    let mut changes = Ledger::new();
    changes.set(Address(2), LedgerEntry::with_balances(Amount(0), Amount(1)));
    changes.set(Address(3), LedgerEntry::empty());
    let before = ledger.clone();
    ledger.apply(&changes);
    assert_eq!(ledger.len(), 3);
    assert_eq!(ledger.get(Address(1)).unwrap().parallel_balance, Amount(9));
    assert_eq!(ledger.get(Address(2)).unwrap().parallel_balance, Amount(0));
    assert_eq!(ledger.get(Address(2)).unwrap().sequential_balance, Amount(1));
    assert!(ledger.get(Address(3)).unwrap().same_as(&LedgerEntry::empty()));
    assert!(!ledger.same_as(&before));
    assert!(before.same_as(&before.clone()));
}

fn output_with(slot: Slot, address: u64, balance: u64) -> massa_execution_exports::ExecutionOutput {
    let mut changes = Ledger::new();
    changes.set(Address(address), LedgerEntry::with_balances(Amount(balance), Amount(0)));
    massa_execution_exports::ExecutionOutput {
        slot,
        block_id: Some(BlockId(1)),
        changes,
        events: vec![],
        executed_ops: vec![],
        rejected_ops: vec![],
        gas_used: 0,
    }
}

#[test]
fn newest_layer_that_names_an_address_decides() {
    let mut base = Ledger::new();
    base.set(Address(1), LedgerEntry::with_balances(Amount(1), Amount(0)));
    base.set(Address(2), LedgerEntry::with_balances(Amount(2), Amount(0)));
    let outputs = vec![
        output_with(Slot::new(1, 0), 1, 10),
        output_with(Slot::new(1, 1), 3, 30),
        output_with(Slot::new(2, 0), 1, 100),
    ];
    let seen = |a: u64| lookup_layered(&base, &outputs, Address(a)).map(|e| e.parallel_balance.0);
    assert_eq!(seen(1), Some(100));
    assert_eq!(seen(2), Some(2));
    assert_eq!(seen(3), Some(30));
    assert_eq!(seen(4), None);
    let mut current = Ledger::new();
    current.set(Address(3), LedgerEntry::with_balances(Amount(31), Amount(0)));
    let visible = |a: u64| lookup_visible(&base, &outputs, &current, Address(a)).map(|e| e.parallel_balance.0);
    assert_eq!(visible(3), Some(31));
    assert_eq!(visible(1), Some(100));
    assert_eq!(visible(4), None);
}

fn event(slot: Slot, emitter: u64, index: u64) -> SCOutputEvent {
    SCOutputEvent {
        slot,
        block_id: None,
        index_in_slot: index,
        emitter: Address(emitter),
        original_caller: Address(emitter + 100),
        operation_id: Some(OperationId(index)),
        read_only: false,
        data: vec![index as u8],
    }
}

#[test]
fn event_store_is_append_only_in_slot_order() {
    let mut store = EventStore::new();
    assert!(store.record(Slot::new(2, 0), Some(BlockId(7)), vec![event(Slot::new(9, 9), 1, 0), event(Slot::new(9, 9), 2, 1)]));
    // the same slot again is accepted, an older one is not
    assert!(store.record(Slot::new(2, 0), Some(BlockId(7)), vec![event(Slot::new(0, 0), 3, 2)]));
    assert!(!store.record(Slot::new(1, 31), Some(BlockId(6)), vec![event(Slot::new(1, 31), 4, 0)]));
    assert!(store.record(Slot::new(2, 1), None, vec![]));
    assert!(store.record(Slot::new(3, 0), Some(BlockId(8)), vec![event(Slot::new(3, 0), 1, 0)]));
    assert_eq!(store.len(), 4);
    let all = store.query(&EventFilter::all());
    let seen: Vec<(Slot, Option<BlockId>, u64, u64)> =
        all.iter().map(|e| (e.slot, e.block_id, e.emitter.0, e.index_in_slot)).collect();
    assert_eq!(
        seen,
        vec![
            (Slot::new(2, 0), Some(BlockId(7)), 1, 0),
            (Slot::new(2, 0), Some(BlockId(7)), 2, 1),
            (Slot::new(2, 0), Some(BlockId(7)), 3, 2),
            (Slot::new(3, 0), Some(BlockId(8)), 1, 0),
        ]
    );
    let by_emitter = store.query(&EventFilter { emitter_address: Some(Address(1)), ..EventFilter::all() });
    assert_eq!(by_emitter.len(), 2);
    assert_eq!(by_emitter[0].slot, Slot::new(2, 0));
    assert_eq!(by_emitter[1].slot, Slot::new(3, 0));
    assert!(by_emitter[0].same_as(&all[0]));
    assert!(!by_emitter[1].same_as(&all[0]));
    let none = store.query(&EventFilter {
        emitter_address: Some(Address(1)),
        original_caller_address: Some(Address(102)),
        ..EventFilter::all()
    });
    assert!(none.is_empty());
}

#[test]
fn filter_bounds_include_start_and_exclude_end() {
    let filter = EventFilter { start: Some(Slot::new(2, 0)), end: Some(Slot::new(3, 0)), ..EventFilter::all() };
    assert!(!filter.accepts(&event(Slot::new(1, 31), 1, 0)));
    assert!(filter.accepts(&event(Slot::new(2, 0), 1, 0)));
    assert!(filter.accepts(&event(Slot::new(2, 31), 1, 0)));
    assert!(!filter.accepts(&event(Slot::new(3, 0), 1, 0)));
    let by_operation = EventFilter { original_operation_id: Some(OperationId(4)), ..EventFilter::all() };
    assert!(by_operation.accepts(&event(Slot::new(1, 0), 1, 4)));
    assert!(!by_operation.accepts(&event(Slot::new(1, 0), 1, 5)));
    let mut anonymous = event(Slot::new(1, 0), 1, 4);
    anonymous.operation_id = None;
    assert!(!by_operation.accepts(&anonymous));
}

#[test]
fn blocks_are_kept_by_slot_in_chain_order() {
    let mut blocks = SlotBlocks::new();
    blocks.insert(Slot::new(2, 0), BlockId(20), Storage::new(vec![]));
    blocks.insert(Slot::new(1, 1), BlockId(11), Storage::new(vec![]));
    blocks.insert(Slot::new(3, 0), BlockId(30), Storage::new(vec![]));
    blocks.insert(Slot::new(1, 0), BlockId(10), Storage::new(vec![]));
    blocks.insert(
        Slot::new(2, 0),
        BlockId(21),
        Storage::new(vec![Operation::transfer(OperationId(1), Address(1), Address(2), Amount(1))]),
    );
    assert_eq!(blocks.len(), 4);
    let seen: Vec<(Slot, BlockId, usize)> = (0..4)
        .map(|i| blocks.get(i).unwrap())
        .map(|b| (b.slot, b.block_id, b.storage.operations().len()))
        .collect();
    assert!(blocks.get(4).is_none());
    assert_eq!(
        seen,
        vec![
            (Slot::new(1, 0), BlockId(10), 0),
            (Slot::new(1, 1), BlockId(11), 0),
            (Slot::new(2, 0), BlockId(21), 1),
            (Slot::new(3, 0), BlockId(30), 0),
        ]
    );
}

fn contract_ledger() -> Ledger {
    let mut ledger = Ledger::new();
    ledger.set(Address(1), LedgerEntry::with_balances(Amount(10), Amount(0)));
    let mut contract = LedgerEntry::empty();
    contract.bytecode = vec![1];
    ledger.set(Address(50), contract);
    ledger
}

fn done(target: u64, balance: u64, gas_used: u64) -> VmReply {
    let mut changes = Ledger::new();
    let mut entry = LedgerEntry::with_balances(Amount(balance), Amount(0));
    entry.bytecode = vec![1];
    changes.set(Address(target), entry);
    VmReply::Done { changes, events: vec![VmEvent { emitter: Address(target), data: vec![gas_used as u8] }], gas_used }
}

#[test]
fn slot_is_executed_step_by_step() {
    let ledger = contract_ledger();
    let operations = vec![
        Operation::transfer(OperationId(1), Address(1), Address(2), Amount(4)),
        Operation::call(OperationId(2), Address(2), Address(50), vec![b'f'], vec![9], 20),
        Operation::transfer(OperationId(3), Address(2), Address(1), Amount(5)),
    ];
    let slot = Slot::new(1, 0);
    let mut run = SlotRun::begin();
    assert!(!run.is_awaiting());
    assert!(matches!(run.step(&ledger, &vec![], &vec![], &operations), StepOutcome::Applied));
    // an answer that nobody waits for is dropped
    run.settle(slot, Some(BlockId(1)), &operations, &VmReply::Trap);
    assert_eq!(run.changes().len(), 2);
    let request = match run.step(&ledger, &vec![], &vec![], &operations) {
        StepOutcome::NeedsVm(request) => request,
        other => panic!("unexpected {:?}", other),
    };
    assert_eq!(request.caller, Address(2));
    assert_eq!(request.bytecode, vec![1]);
    assert!(run.is_awaiting());
    assert!(matches!(run.step(&ledger, &vec![], &vec![], &operations), StepOutcome::Awaiting));
    run.settle(slot, Some(BlockId(1)), &operations, &done(50, 77, 20));
    assert!(!run.is_awaiting());
    assert!(matches!(
        run.step(&ledger, &vec![], &vec![], &operations),
        StepOutcome::Rejected(Rejection::InsufficientBalance)
    ));
    assert!(matches!(run.step(&ledger, &vec![], &vec![], &operations), StepOutcome::Finished));
    assert!(matches!(run.step(&ledger, &vec![], &vec![], &operations), StepOutcome::Finished));
    let output = run.finish(slot, Some(BlockId(1)));
    assert_eq!(output.slot, slot);
    assert_eq!(output.block_id, Some(BlockId(1)));
    assert_eq!(output.executed_ops, vec![OperationId(1), OperationId(2)]);
    assert_eq!(output.rejected_ops, vec![(OperationId(3), Rejection::InsufficientBalance)]);
    assert_eq!(output.gas_used, 20);
    assert_eq!(output.changes.get(Address(1)).unwrap().parallel_balance, Amount(6));
    assert_eq!(output.changes.get(Address(2)).unwrap().parallel_balance, Amount(4));
    assert_eq!(output.changes.get(Address(50)).unwrap().parallel_balance, Amount(77));
    assert_eq!(output.events.len(), 1);
    assert_eq!(output.events[0].index_in_slot, 0);
    assert_eq!(output.events[0].original_caller, Address(2));
    assert_eq!(output.events[0].data, vec![20]);
}

#[test]
fn apply_runs_a_slot_with_the_answers_at_hand() {
    let ledger = contract_ledger();
    let operations = vec![
        Operation::call(OperationId(1), Address(1), Address(50), vec![b'a'], vec![], 10),
        Operation::transfer(OperationId(2), Address(1), Address(50), Amount(3)),
        Operation::call(OperationId(3), Address(1), Address(50), vec![b'b'], vec![], u64::MAX),
        Operation::call(OperationId(4), Address(1), Address(60), vec![b'c'], vec![], 10),
    ];
    let slot = Slot::new(5, 3);
    // without answers the first call comes back
    let asked = apply(&ledger, &vec![], &vec![], slot, Some(BlockId(2)), &operations, &vec![]).unwrap_err();
    assert_eq!(asked.function, vec![b'a']);
    // with one answer, the second
    let asked = apply(&ledger, &vec![], &vec![], slot, Some(BlockId(2)), &operations, &vec![done(50, 1, 4)]).unwrap_err();
    assert_eq!(asked.function, vec![b'b']);
    // with both the slot comes to its end; a third answer is left aside
    let replies = vec![done(50, 1, 4), done(50, 2, u64::MAX), VmReply::Trap];
    let output = apply(&ledger, &vec![], &vec![], slot, Some(BlockId(2)), &operations, &replies).unwrap();
    assert_eq!(output.executed_ops, vec![OperationId(1), OperationId(2), OperationId(3)]);
    assert_eq!(
        output.rejected_ops,
        vec![(OperationId(4), Rejection::CallFailed(ExecutionError::TargetNotFound))]
    );
    // gas stays at the maximum
    assert_eq!(output.gas_used, u64::MAX);
    assert_eq!(output.changes.get(Address(50)).unwrap().parallel_balance, Amount(2));
    assert_eq!(output.changes.get(Address(1)).unwrap().parallel_balance, Amount(7));
    let ranks: Vec<u64> = output.events.iter().map(|e| e.index_in_slot).collect();
    assert_eq!(ranks, vec![0, 1]);
    assert_eq!(output.events[1].operation_id, Some(OperationId(3)));
    // the same slot on the same state with the same answers: the same result
    let again = apply(&ledger, &vec![], &vec![], slot, Some(BlockId(2)), &operations, &replies).unwrap();
    assert!(output.same_as(&again));
    assert!(output.same_as(&output.clone()));
    let other = apply(&ledger, &vec![], &vec![], slot, Some(BlockId(3)), &operations, &replies).unwrap();
    assert!(!output.same_as(&other));
}

#[test]
fn operation_is_not_applied_twice() {
    let ledger = contract_ledger();
    let transfer = |id: u64| Operation::transfer(OperationId(id), Address(1), Address(2), Amount(1));
    // twice in one slot
    let operations = vec![transfer(1), transfer(2), transfer(1)];
    let output = apply(&ledger, &vec![], &vec![], Slot::new(1, 0), None, &operations, &vec![]).unwrap();
    assert_eq!(output.executed_ops, vec![OperationId(1), OperationId(2)]);
    assert_eq!(output.rejected_ops, vec![(OperationId(1), Rejection::AlreadyExecuted)]);
    assert_eq!(output.changes.get(Address(2)).unwrap().parallel_balance, Amount(2));
    // applied on the way to the ledger, or by a result over it
    let mut earlier = output_with(Slot::new(0, 1), 7, 7);
    earlier.executed_ops = vec![OperationId(3)];
    let operations = vec![transfer(3), transfer(4), transfer(5), transfer(6)];
    let output =
        apply(&ledger, &vec![OperationId(5)], &vec![earlier], Slot::new(1, 0), None, &operations, &vec![]).unwrap();
    assert_eq!(output.executed_ops, vec![OperationId(4), OperationId(6)]);
    assert_eq!(
        output.rejected_ops,
        vec![(OperationId(3), Rejection::AlreadyExecuted), (OperationId(5), Rejection::AlreadyExecuted)]
    );
    // one that was skipped may come again
    let operations = vec![
        Operation::transfer(OperationId(8), Address(2), Address(1), Amount(1)),
        transfer(9),
        Operation::transfer(OperationId(8), Address(2), Address(1), Amount(1)),
    ];
    let output = apply(&ledger, &vec![], &vec![], Slot::new(1, 0), None, &operations, &vec![]).unwrap();
    assert_eq!(output.rejected_ops, vec![(OperationId(8), Rejection::UnknownSender)]);
    assert_eq!(output.executed_ops, vec![OperationId(9), OperationId(8)]);
}

#[test]
fn rolls_are_bought_and_sold_at_their_price() {
    let mut ledger = Ledger::new();
    let mut staker = LedgerEntry::with_balances(Amount(7), Amount(250));
    staker.roll_count = 1;
    ledger.set(Address(1), staker);
    let mut rich = LedgerEntry::with_balances(Amount(0), Amount(u64::MAX - 50));
    rich.roll_count = u64::MAX;
    ledger.set(Address(2), rich);
    let operations = vec![
        Operation::roll_buy(OperationId(1), Address(1), 3),
        Operation::roll_buy(OperationId(2), Address(1), 2),
        Operation::roll_sell(OperationId(3), Address(1), 4),
        Operation::roll_sell(OperationId(4), Address(1), 1),
        Operation::roll_buy(OperationId(5), Address(3), 0),
        Operation::roll_buy(OperationId(6), Address(2), 1),
        Operation::roll_sell(OperationId(7), Address(2), 1),
        Operation::roll_buy(OperationId(8), Address(1), u64::MAX),
        Operation::roll_sell(OperationId(9), Address(2), u64::MAX),
        Operation::roll_buy(OperationId(10), Address(1), 0),
    ];
    let output = apply(&ledger, &vec![], &vec![], Slot::new(1, 0), None, &operations, &vec![]).unwrap();
    assert_eq!(
        output.rejected_ops,
        vec![
            (OperationId(1), Rejection::InsufficientBalance),
            (OperationId(3), Rejection::InsufficientRolls),
            (OperationId(5), Rejection::UnknownSender),
            (OperationId(6), Rejection::BalanceOverflow),
            (OperationId(7), Rejection::BalanceOverflow),
            (OperationId(8), Rejection::InsufficientBalance),
            (OperationId(9), Rejection::BalanceOverflow),
        ]
    );
    assert_eq!(output.executed_ops, vec![OperationId(2), OperationId(4), OperationId(10)]);
    let staker = output.changes.get(Address(1)).unwrap();
    // 250 - 2 * 100 + 1 * 100, and 1 + 2 - 1 rolls
    assert_eq!(staker.sequential_balance, Amount(150));
    assert_eq!(staker.roll_count, 2);
    assert_eq!(staker.parallel_balance, Amount(7));
    assert!(output.changes.get(Address(2)).is_none());
    assert_eq!(massa_execution_exports::models::ROLL_PRICE, 100);
}

#[test]
fn apply_without_calls_needs_no_answer() {
    let ledger = contract_ledger();
    let operations = vec![Operation::transfer(OperationId(1), Address(1), Address(2), Amount(10))];
    let output = apply(&ledger, &vec![], &vec![], Slot::new(1, 0), None, &operations, &vec![]).unwrap();
    assert_eq!(output.changes.get(Address(1)).unwrap().parallel_balance, Amount(0));
    assert_eq!(output.changes.get(Address(2)).unwrap().parallel_balance, Amount(10));
    assert_eq!(output.block_id, None);
    let empty = apply(&ledger, &vec![], &vec![], Slot::new(1, 0), None, &vec![], &vec![]).unwrap();
    assert_eq!(empty.changes.len(), 0);
    assert!(empty.executed_ops.is_empty());
}

#[test]
fn manager_stops_an_idle_worker() {
    let mut worker = massa_execution_exports::worker::ExecutionWorker::new(Ledger::new());
    ExecutionManager::stop(&mut worker);
    assert_eq!(worker.phase(), massa_execution_exports::worker::Phase::Stopped);
    let request =
        ReadOnlyExecutionRequest { max_gas: 1, caller: Address(1), target: Address(2), function: vec![], parameter: vec![] };
    assert!(matches!(worker.readonly_vm_request(&request), Err(ExecutionError::TargetNotFound)));
}
