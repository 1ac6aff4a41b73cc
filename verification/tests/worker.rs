use massa_execution_exports::blockclique::SlotBlocks;
use massa_execution_exports::controller::{
    BalanceKind, ExecutionController, ExecutionManager, Finality, ReadOnlyExecutionRequest,
};
use massa_execution_exports::datastore::Datastore;
use massa_execution_exports::event::EventFilter;
use massa_execution_exports::execution::{ExecutionError, ExecutionOutput, Rejection};
use massa_execution_exports::ledger::{Ledger, LedgerEntry};
use massa_execution_exports::models::{Address, Amount, BlockId, OperationId, Slot};
use massa_execution_exports::operation::{Operation, Storage, VmEvent, VmReply, VmRequest};
use massa_execution_exports::worker::{ExecutionWorker, Phase, WorkerAction};

const A: Address = Address(1);
const B: Address = Address(2);
const FUNDER: Address = Address(9);
const CONTRACT: Address = Address(50);

fn funded_genesis() -> Ledger {
    let mut genesis = Ledger::new();
    genesis.set(FUNDER, LedgerEntry::with_balances(Amount(10), Amount(0)));
    genesis
}

fn genesis_with_contract() -> Ledger {
    let mut genesis = funded_genesis();
    let mut contract = LedgerEntry::empty();
    contract.bytecode = vec![0xc0, 0xde];
    genesis.set(CONTRACT, contract);
    genesis
}

/// A block in which A receives 10 and then sends 10 to B.
fn block_one() -> Storage {
    Storage::new(vec![
        Operation::transfer(OperationId(100), FUNDER, A, Amount(10)),
        Operation::transfer(OperationId(101), A, B, Amount(10)),
    ])
}

fn chain(blocks: Vec<(Slot, BlockId, Storage)>) -> SlotBlocks {
    let mut out = SlotBlocks::new();
    for (slot, id, storage) in blocks {
        out.insert(slot, id, storage);
    }
    out
}

/// Drives the worker until it waits or halts; every call gets the answer of `vm`.
fn drive(worker: &mut ExecutionWorker, vm: &dyn Fn(&VmRequest) -> VmReply) -> WorkerAction {
    for _ in 0..10_000 {
        match worker.advance() {
            WorkerAction::Continue => panic!("a worker at rest asks for no step"),
            WorkerAction::RunVm(request) => worker.resume(vm(&request)),
            WorkerAction::AwaitingVm => panic!("the worker waits for an answer that was given"),
            other => return other,
        }
    }
    panic!("the worker does not come to rest");
}

/// The same, one step at a time.
fn drive_stepwise(worker: &mut ExecutionWorker, vm: &dyn Fn(&VmRequest) -> VmReply) -> WorkerAction {
    for _ in 0..10_000 {
        match worker.step() {
            WorkerAction::Continue => {}
            WorkerAction::RunVm(request) => worker.resume(vm(&request)),
            WorkerAction::AwaitingVm => panic!("the worker waits for an answer that was given"),
            other => return other,
        }
    }
    panic!("the worker does not come to rest");
}

#[test]
fn advancing_is_stepping_until_rest() {
    let run = |stepwise: bool| {
        let mut worker = ExecutionWorker::new(genesis_with_contract());
        worker.update_blockclique_status(
            chain(vec![(Slot::new(1, 0), BlockId(1), call_block(40, 100, b"a"))]),
            chain(vec![
                (Slot::new(1, 1), BlockId(2), block_one()),
                (Slot::new(2, 0), BlockId(3), call_block(41, 100, b"b")),
            ]),
        );
        worker.update_blockclique_status(
            chain(vec![(Slot::new(1, 1), BlockId(2), block_one())]),
            chain(vec![(Slot::new(2, 1), BlockId(4), call_block(42, 100, b"c"))]),
        );
        let rest = if stepwise { drive_stepwise(&mut worker, &counter_vm) } else { drive(&mut worker, &counter_vm) };
        assert!(matches!(rest, WorkerAction::Wait));
        worker
    };
    let stepped = run(true);
    let advanced = run(false);
    assert_eq!(stepped.final_log(), advanced.final_log());
    assert_eq!(stepped.final_log().len(), 2);
    assert_eq!(stepped.history().len(), 1);
    assert_eq!(advanced.history().len(), 1);
    assert!(stepped.history()[0].same_as(&advanced.history()[0]));
    assert!(stepped.final_ledger().same_as(advanced.final_ledger()));
    assert_eq!(stepped.final_executed_ops(), advanced.final_executed_ops());
    assert_eq!(advanced.phase(), Phase::Idle);
    // at rest, advancing again changes nothing
    let mut advanced = advanced;
    assert!(matches!(advanced.advance(), WorkerAction::Wait));
    assert_eq!(advanced.history().len(), 1);
}

fn no_vm(_: &VmRequest) -> VmReply {
    panic!("no contract is called here")
}

fn balances(worker: &ExecutionWorker, addresses: Vec<Address>) -> Vec<(Option<u64>, Option<u64>)> {
    worker
        .get_final_and_active_parallel_balance(addresses)
        .into_iter()
        .map(|(f, c)| (f.map(|a| a.0), c.map(|a| a.0)))
        .collect()
}

#[test]
fn transfer_in_blockclique_changes_candidate_only() {
    let mut worker = ExecutionWorker::new(funded_genesis());
    worker.update_blockclique_status(
        SlotBlocks::new(),
        chain(vec![(Slot::new(1, 0), BlockId(1), block_one())]),
    );
    assert!(matches!(drive(&mut worker, &no_vm), WorkerAction::Wait));
    assert_eq!(balances(&worker, vec![A, B]), vec![(None, Some(0)), (None, Some(10))]);
    assert_eq!(worker.phase(), Phase::Idle);
}

#[test]
fn finalized_slot_reaches_final_state() {
    let mut worker = ExecutionWorker::new(funded_genesis());
    worker.update_blockclique_status(
        SlotBlocks::new(),
        chain(vec![(Slot::new(1, 0), BlockId(1), block_one())]),
    );
    drive(&mut worker, &no_vm);
    worker.update_blockclique_status(
        chain(vec![(Slot::new(1, 0), BlockId(1), block_one())]),
        SlotBlocks::new(),
    );
    assert!(matches!(drive(&mut worker, &no_vm), WorkerAction::Wait));
    assert_eq!(balances(&worker, vec![A, B]), vec![(Some(0), Some(0)), (Some(10), Some(10))]);
    assert_eq!(worker.final_log(), &vec![(Slot::new(1, 0), BlockId(1))]);
    assert_eq!(worker.history().len(), 0);
}

#[test]
fn reorg_makes_operations_of_dropped_block_unexecuted() {
    let mut worker = ExecutionWorker::new(funded_genesis());
    let b2 = || Storage::new(vec![Operation::transfer(OperationId(200), B, A, Amount(3))]);
    let b3 = || Storage::new(vec![Operation::transfer(OperationId(300), B, A, Amount(4))]);
    worker.update_blockclique_status(
        SlotBlocks::new(),
        chain(vec![(Slot::new(1, 0), BlockId(1), block_one()), (Slot::new(1, 1), BlockId(2), b2())]),
    );
    drive(&mut worker, &no_vm);
    assert_eq!(worker.unexecuted_ops_among(&vec![OperationId(200)]), Vec::<OperationId>::new());
    assert_eq!(balances(&worker, vec![A, B]), vec![(None, Some(3)), (None, Some(7))]);

    worker.update_blockclique_status(
        SlotBlocks::new(),
        chain(vec![(Slot::new(1, 0), BlockId(1), block_one()), (Slot::new(1, 1), BlockId(3), b3())]),
    );
    drive(&mut worker, &no_vm);
    assert_eq!(worker.unexecuted_ops_among(&vec![OperationId(200)]), vec![OperationId(200)]);
    assert_eq!(
        worker.unexecuted_ops_among(&vec![OperationId(100), OperationId(200), OperationId(300), OperationId(7)]),
        vec![OperationId(200), OperationId(7)]
    );
    assert_eq!(balances(&worker, vec![A, B]), vec![(None, Some(4)), (None, Some(6))]);
    let slots: Vec<(Slot, Option<BlockId>)> = worker.history().iter().map(|o| (o.slot, o.block_id)).collect();
    assert_eq!(slots, vec![(Slot::new(1, 0), Some(BlockId(1))), (Slot::new(1, 1), Some(BlockId(3)))]);
}

#[test]
fn readonly_call_to_missing_contract_fails_and_changes_nothing() {
    let mut worker = ExecutionWorker::new(funded_genesis());
    worker.update_blockclique_status(
        SlotBlocks::new(),
        chain(vec![(Slot::new(1, 0), BlockId(1), block_one())]),
    );
    drive(&mut worker, &no_vm);
    let request = || ReadOnlyExecutionRequest {
        max_gas: 1000,
        caller: A,
        target: Address(77),
        function: b"get".to_vec(),
        parameter: vec![],
    };
    // an address without bytecode is no contract either
    let plain = ReadOnlyExecutionRequest { target: B, ..request() };
    assert!(matches!(worker.readonly_vm_request(&request()), Err(ExecutionError::TargetNotFound)));
    assert!(matches!(worker.readonly_vm_request(&plain), Err(ExecutionError::TargetNotFound)));
    let before = balances(&worker, vec![A, B, FUNDER, Address(77)]);
    let events_before = worker.get_filtered_sc_output_event(EventFilter::all()).len();
    let mut diff = Ledger::new();
    diff.set(A, LedgerEntry::with_balances(Amount(1_000_000), Amount(0)));
    let reply = VmReply::Done { changes: diff, events: vec![VmEvent { emitter: A, data: vec![1] }], gas_used: 1 };
    let result = worker.execute_readonly_request(request(), reply);
    assert!(matches!(result, Err(ExecutionError::TargetNotFound)));
    assert_eq!(balances(&worker, vec![A, B, FUNDER, Address(77)]), before);
    assert_eq!(worker.get_filtered_sc_output_event(EventFilter::all()).len(), events_before);
    assert_eq!(worker.final_log().len(), 0);
    assert_eq!(worker.history().len(), 1);
}

fn counter_vm(request: &VmRequest) -> VmReply {
    // writes the parameter under the key "last" of the target and says so
    let mut entry = LedgerEntry::empty();
    entry.bytecode = request.bytecode.clone();
    let mut store = Datastore::new();
    store.set(b"last".to_vec(), request.parameter.clone());
    entry.datastore = store;
    let mut changes = Ledger::new();
    changes.set(request.target, entry);
    VmReply::Done {
        changes,
        events: vec![
            VmEvent { emitter: request.target, data: b"called".to_vec() },
            VmEvent { emitter: request.target, data: request.function.clone() },
        ],
        gas_used: 7,
    }
}

fn call_block(id: u64, max_gas: u64, parameter: &[u8]) -> Storage {
    Storage::new(vec![Operation::call(
        OperationId(id),
        A,
        CONTRACT,
        b"store".to_vec(),
        parameter.to_vec(),
        max_gas,
    )])
}

#[test]
fn contract_call_is_applied_with_the_answer_of_the_vm() {
    let mut worker = ExecutionWorker::new(genesis_with_contract());
    worker.update_blockclique_status(
        SlotBlocks::new(),
        chain(vec![(Slot::new(2, 1), BlockId(5), call_block(40, 10, b"xy"))]),
    );
    // the first request that the worker hands out is the call of the block
    let mut seen = None;
    loop {
        match worker.step() {
            WorkerAction::RunVm(request) => {
                seen = Some(request);
                break;
            }
            WorkerAction::Continue => {}
            other => panic!("unexpected {:?}", other),
        }
    }
    let request = seen.unwrap();
    assert_eq!(request.caller, A);
    assert_eq!(request.target, CONTRACT);
    assert_eq!(request.bytecode, vec![0xc0, 0xde]);
    assert_eq!(request.function, b"store".to_vec());
    assert_eq!(request.parameter, b"xy".to_vec());
    assert_eq!(request.max_gas, 10);
    assert!(matches!(worker.step(), WorkerAction::AwaitingVm));
    assert!(worker.changes_at_work().is_some());
    worker.resume(counter_vm(&request));
    assert!(matches!(drive(&mut worker, &no_vm), WorkerAction::Wait));

    let values = worker.get_final_and_active_data_entry(vec![
        (CONTRACT, b"last".to_vec()),
        (CONTRACT, b"none".to_vec()),
        (A, b"last".to_vec()),
    ]);
    assert_eq!(values, vec![(None, Some(b"xy".to_vec())), (None, None), (None, None)]);
    let output = &worker.history()[0];
    assert_eq!(output.executed_ops, vec![OperationId(40)]);
    assert_eq!(output.gas_used, 7);
    assert!(output.rejected_ops.is_empty());
    let events = worker.get_filtered_sc_output_event(EventFilter::all());
    assert_eq!(events.len(), 2);
    assert_eq!(events[0].slot, Slot::new(2, 1));
    assert_eq!(events[0].block_id, Some(BlockId(5)));
    assert_eq!(events[0].index_in_slot, 0);
    assert_eq!(events[1].index_in_slot, 1);
    assert_eq!(events[0].emitter, CONTRACT);
    assert_eq!(events[0].original_caller, A);
    assert_eq!(events[0].operation_id, Some(OperationId(40)));
    assert!(!events[0].read_only);
    assert_eq!(events[0].data, b"called".to_vec());
    assert_eq!(events[1].data, b"store".to_vec());
}

#[test]
fn call_over_budget_or_trapped_is_skipped() {
    let mut worker = ExecutionWorker::new(genesis_with_contract());
    worker.update_blockclique_status(
        SlotBlocks::new(),
        chain(vec![
            (Slot::new(1, 0), BlockId(1), call_block(40, 6, b"a")),
            (Slot::new(1, 1), BlockId(2), call_block(41, 7, b"b")),
            (Slot::new(2, 0), BlockId(3), call_block(42, 100, b"c")),
            (
                Slot::new(2, 1),
                BlockId(4),
                Storage::new(vec![Operation::call(OperationId(43), A, B, vec![], vec![], 5)]),
            ),
        ]),
    );
    let vm = |request: &VmRequest| {
        if request.parameter == b"c".to_vec() {
            VmReply::Trap
        } else {
            counter_vm(request)
        }
    };
    drive(&mut worker, &vm);
    let history = worker.history();
    assert_eq!(history.len(), 4);
    assert_eq!(
        history[0].rejected_ops,
        vec![(OperationId(40), Rejection::CallFailed(ExecutionError::ResourceExhausted))]
    );
    assert_eq!(history[0].changes.len(), 0);
    assert!(history[0].events.is_empty());
    assert_eq!(history[0].gas_used, 0);
    assert_eq!(history[1].executed_ops, vec![OperationId(41)]);
    assert_eq!(history[1].gas_used, 7);
    assert_eq!(
        history[2].rejected_ops,
        vec![(OperationId(42), Rejection::CallFailed(ExecutionError::RuntimeTrap))]
    );
    assert_eq!(
        history[3].rejected_ops,
        vec![(OperationId(43), Rejection::CallFailed(ExecutionError::TargetNotFound))]
    );
    assert_eq!(
        worker.get_final_and_active_data_entry(vec![(CONTRACT, b"last".to_vec())]),
        vec![(None, Some(b"b".to_vec()))]
    );
}

#[test]
fn transfers_are_applied_in_full_or_not_at_all() {
    let mut genesis = Ledger::new();
    genesis.set(A, LedgerEntry::with_balances(Amount(5), Amount(8)));
    genesis.set(B, LedgerEntry::with_balances(Amount(u64::MAX - 2), Amount(0)));
    let mut worker = ExecutionWorker::new(genesis);
    worker.update_blockclique_status(
        SlotBlocks::new(),
        chain(vec![(
            Slot::new(1, 0),
            BlockId(1),
            Storage::new(vec![
                Operation::transfer(OperationId(1), A, B, Amount(6)),
                Operation::transfer(OperationId(2), Address(3), B, Amount(0)),
                Operation::transfer(OperationId(3), A, B, Amount(3)),
                Operation::transfer(OperationId(4), A, A, Amount(5)),
                Operation::transfer(OperationId(5), A, A, Amount(6)),
                Operation::transfer(OperationId(6), A, B, Amount(2)),
                Operation::transfer(OperationId(7), A, Address(4), Amount(0)),
            ]),
        )]),
    );
    drive(&mut worker, &no_vm);
    let output = &worker.history()[0];
    assert_eq!(
        output.rejected_ops,
        vec![
            (OperationId(1), Rejection::InsufficientBalance),
            (OperationId(2), Rejection::UnknownSender),
            (OperationId(3), Rejection::BalanceOverflow),
            (OperationId(5), Rejection::InsufficientBalance),
        ]
    );
    assert_eq!(output.executed_ops, vec![OperationId(4), OperationId(6), OperationId(7)]);
    assert_eq!(
        balances(&worker, vec![A, B, Address(3), Address(4)]),
        vec![
            (Some(5), Some(3)),
            (Some(u64::MAX - 2), Some(u64::MAX)),
            (None, None),
            (None, Some(0))
        ]
    );
    // the other balance is left alone
    let sequential: Vec<(Option<Amount>, Option<Amount>)> =
        worker.get_final_and_active_sequential_balance(vec![A, B, Address(3)]);
    assert_eq!(
        sequential,
        vec![(Some(Amount(8)), Some(Amount(8))), (Some(Amount(0)), Some(Amount(0))), (None, None)]
    );
    assert_eq!(worker.get_balance(A, BalanceKind::Parallel, Finality::Candidate), Some(Amount(3)));
    assert_eq!(worker.get_balance(A, BalanceKind::Sequential, Finality::Final), Some(Amount(8)));
}

fn run_twice_same(first: &ExecutionOutput, second: &ExecutionOutput) -> bool {
    first.same_as(second) && second.same_as(first)
}

#[test]
fn same_slot_on_same_state_gives_same_result() {
    let make = || {
        let mut worker = ExecutionWorker::new(genesis_with_contract());
        let mut genesis_extra = SlotBlocks::new();
        genesis_extra.insert(
            Slot::new(1, 0),
            BlockId(1),
            Storage::new(vec![
                Operation::transfer(OperationId(1), FUNDER, A, Amount(4)),
                Operation::call(OperationId(2), A, CONTRACT, b"f".to_vec(), b"p".to_vec(), 50),
                Operation::transfer(OperationId(3), A, B, Amount(9)),
            ]),
        );
        worker.update_blockclique_status(SlotBlocks::new(), genesis_extra);
        drive(&mut worker, &counter_vm);
        worker
    };
    let one = make();
    let two = make();
    assert!(run_twice_same(&one.history()[0], &two.history()[0]));
    assert_eq!(one.history()[0].executed_ops, vec![OperationId(1), OperationId(2)]);
    assert_eq!(one.history()[0].events.len(), 2);
}

#[test]
fn later_updates_leave_final_slots_alone() {
    let mut worker = ExecutionWorker::new(funded_genesis());
    worker.update_blockclique_status(
        chain(vec![(Slot::new(1, 0), BlockId(1), block_one())]),
        SlotBlocks::new(),
    );
    drive(&mut worker, &no_vm);
    let log = worker.final_log().clone();
    // a different block for the final slot, and an older slot: neither is applied
    worker.update_blockclique_status(
        chain(vec![
            (Slot::new(0, 5), BlockId(8), Storage::new(vec![Operation::transfer(OperationId(7), B, A, Amount(1))])),
            (Slot::new(1, 0), BlockId(9), Storage::new(vec![Operation::transfer(OperationId(8), B, A, Amount(2))])),
        ]),
        chain(vec![
            (Slot::new(1, 0), BlockId(9), Storage::new(vec![Operation::transfer(OperationId(8), B, A, Amount(2))])),
            (Slot::new(1, 1), BlockId(10), Storage::new(vec![Operation::transfer(OperationId(9), B, A, Amount(5))])),
        ]),
    );
    drive(&mut worker, &no_vm);
    assert_eq!(worker.final_log(), &log);
    assert_eq!(balances(&worker, vec![A, B]), vec![(Some(0), Some(5)), (Some(10), Some(5))]);
    assert_eq!(worker.unexecuted_ops_among(&vec![OperationId(7), OperationId(8)]), vec![
        OperationId(7),
        OperationId(8)
    ]);
    assert_eq!(worker.history().len(), 1);
    assert_eq!(worker.history()[0].slot, Slot::new(1, 1));
}

#[test]
fn finalizing_again_is_a_no_op() {
    let mut worker = ExecutionWorker::new(funded_genesis());
    let finalized = || chain(vec![(Slot::new(1, 0), BlockId(1), block_one())]);
    let clique = || {
        chain(vec![(
            Slot::new(1, 1),
            BlockId(2),
            Storage::new(vec![Operation::transfer(OperationId(200), B, A, Amount(3))]),
        )])
    };
    worker.update_blockclique_status(finalized(), clique());
    drive(&mut worker, &no_vm);
    let log = worker.final_log().clone();
    let state = balances(&worker, vec![A, B, FUNDER]);
    let output = worker.history()[0].clone();
    worker.update_blockclique_status(finalized(), clique());
    // pick up, pass over the final block, go on to reconcile, reconcile, find nothing to execute
    for _ in 0..5 {
        assert!(matches!(worker.step(), WorkerAction::Continue));
    }
    assert!(matches!(worker.step(), WorkerAction::Wait));
    assert_eq!(worker.final_log(), &log);
    assert_eq!(balances(&worker, vec![A, B, FUNDER]), state);
    assert_eq!(worker.history().len(), 1);
    assert!(worker.history()[0].same_as(&output));
    assert_eq!(worker.final_executed_ops(), &vec![OperationId(100), OperationId(101)]);
}

#[test]
fn candidate_after_reorg_is_replay_from_final() {
    let b = |id: u64, amount: u64| Storage::new(vec![Operation::transfer(OperationId(id), FUNDER, A, Amount(amount))]);
    let mut moved = ExecutionWorker::new(funded_genesis());
    moved.update_blockclique_status(
        SlotBlocks::new(),
        chain(vec![
            (Slot::new(1, 0), BlockId(1), b(1, 1)),
            (Slot::new(1, 1), BlockId(2), b(2, 2)),
            (Slot::new(2, 0), BlockId(3), b(3, 3)),
        ]),
    );
    drive(&mut moved, &no_vm);
    let new_clique = || {
        chain(vec![
            (Slot::new(1, 0), BlockId(1), b(1, 1)),
            (Slot::new(1, 1), BlockId(20), b(20, 4)),
            (Slot::new(2, 1), BlockId(30), b(30, 5)),
        ])
    };
    moved.update_blockclique_status(SlotBlocks::new(), new_clique());
    drive(&mut moved, &no_vm);

    let mut fresh = ExecutionWorker::new(funded_genesis());
    fresh.update_blockclique_status(SlotBlocks::new(), new_clique());
    drive(&mut fresh, &no_vm);

    assert_eq!(moved.history().len(), 3);
    for (a, b) in moved.history().iter().zip(fresh.history().iter()) {
        assert!(a.same_as(b));
    }
    assert_eq!(balances(&moved, vec![A, FUNDER]), vec![(None, Some(10)), (Some(10), Some(0))]);
}

#[test]
fn execution_that_does_not_repeat_faults_the_worker() {
    let mut worker = ExecutionWorker::new(genesis_with_contract());
    let clique = || chain(vec![(Slot::new(1, 0), BlockId(1), call_block(40, 100, b"a"))]);
    worker.update_blockclique_status(SlotBlocks::new(), clique());
    drive(&mut worker, &counter_vm);
    worker.update_blockclique_status(clique(), SlotBlocks::new());
    let other = |request: &VmRequest| match counter_vm(request) {
        VmReply::Done { changes, events, .. } => VmReply::Done { changes, events, gas_used: 8 },
        VmReply::Trap => VmReply::Trap,
    };
    assert!(matches!(drive(&mut worker, &other), WorkerAction::Halt));
    assert_eq!(worker.phase(), Phase::Faulted);
    assert_eq!(worker.final_log().len(), 0);
    assert_eq!(
        worker.get_final_and_active_data_entry(vec![(CONTRACT, b"last".to_vec())]),
        vec![(None, Some(b"a".to_vec()))]
    );
    // a faulted worker takes no notification and does not move
    worker.update_blockclique_status(SlotBlocks::new(), clique());
    assert!(matches!(worker.step(), WorkerAction::Halt));
    assert_eq!(worker.phase(), Phase::Faulted);
}

#[test]
fn repeated_execution_finalizes_and_keeps_the_rest_of_the_candidate() {
    let mut worker = ExecutionWorker::new(genesis_with_contract());
    let first = || (Slot::new(1, 0), BlockId(1), call_block(40, 100, b"a"));
    let second = || (Slot::new(1, 1), BlockId(2), call_block(41, 100, b"b"));
    worker.update_blockclique_status(SlotBlocks::new(), chain(vec![first(), second()]));
    drive(&mut worker, &counter_vm);
    worker.update_blockclique_status(chain(vec![first()]), chain(vec![second()]));
    let calls = std::cell::Cell::new(0);
    let counting = |request: &VmRequest| {
        calls.set(calls.get() + 1);
        counter_vm(request)
    };
    assert!(matches!(drive(&mut worker, &counting), WorkerAction::Wait));
    // only the finalized slot ran again
    assert_eq!(calls.get(), 1);
    assert_eq!(worker.final_log(), &vec![(Slot::new(1, 0), BlockId(1))]);
    assert_eq!(worker.history().len(), 1);
    assert_eq!(worker.history()[0].slot, Slot::new(1, 1));
    assert_eq!(
        worker.get_final_and_active_data_entry(vec![(CONTRACT, b"last".to_vec())]),
        vec![(Some(b"a".to_vec()), Some(b"b".to_vec()))]
    );
    let keys = worker.get_final_and_active_datastore_keys(&CONTRACT);
    assert_eq!(keys, (vec![b"last".to_vec()], vec![b"last".to_vec()]));
    let events = worker.get_filtered_sc_output_event(EventFilter::all());
    let places: Vec<(Slot, u64)> = events.iter().map(|e| (e.slot, e.index_in_slot)).collect();
    assert_eq!(
        places,
        vec![(Slot::new(1, 0), 0), (Slot::new(1, 0), 1), (Slot::new(1, 1), 0), (Slot::new(1, 1), 1)]
    );
    assert_eq!(worker.final_events().len(), 2);
}

#[test]
fn operation_of_an_earlier_slot_is_not_applied_again() {
    let mut worker = ExecutionWorker::new(funded_genesis());
    let pay = |id: u64| Operation::transfer(OperationId(id), FUNDER, A, Amount(1));
    worker.update_blockclique_status(
        chain(vec![(Slot::new(1, 0), BlockId(1), Storage::new(vec![pay(1)]))]),
        chain(vec![
            (Slot::new(1, 1), BlockId(2), Storage::new(vec![pay(1), pay(2)])),
            (Slot::new(2, 0), BlockId(3), Storage::new(vec![pay(2), pay(1), pay(3)])),
        ]),
    );
    drive(&mut worker, &no_vm);
    assert_eq!(worker.final_executed_ops(), &vec![OperationId(1)]);
    let history = worker.history();
    assert_eq!(history[0].executed_ops, vec![OperationId(2)]);
    assert_eq!(history[0].rejected_ops, vec![(OperationId(1), Rejection::AlreadyExecuted)]);
    assert_eq!(history[1].executed_ops, vec![OperationId(3)]);
    assert_eq!(
        history[1].rejected_ops,
        vec![(OperationId(2), Rejection::AlreadyExecuted), (OperationId(1), Rejection::AlreadyExecuted)]
    );
    assert_eq!(balances(&worker, vec![A, FUNDER]), vec![(Some(1), Some(3)), (Some(9), Some(7))]);
    // once the first candidate slot is final, the second still stands as it was
    let kept = history[1].clone();
    worker.update_blockclique_status(
        chain(vec![(Slot::new(1, 1), BlockId(2), Storage::new(vec![pay(1), pay(2)]))]),
        chain(vec![(Slot::new(2, 0), BlockId(3), Storage::new(vec![pay(2), pay(1), pay(3)]))]),
    );
    assert!(matches!(drive(&mut worker, &no_vm), WorkerAction::Wait));
    assert_eq!(worker.final_executed_ops(), &vec![OperationId(1), OperationId(2)]);
    assert_eq!(worker.history().len(), 1);
    assert!(worker.history()[0].same_as(&kept));
    assert_eq!(balances(&worker, vec![A, FUNDER]), vec![(Some(2), Some(3)), (Some(8), Some(7))]);
}

#[test]
fn datastore_keys_come_in_lexicographic_order_for_both_states() {
    let writes = |keys: &'static [&'static [u8]]| {
        move |request: &VmRequest| {
            let mut entry = LedgerEntry::empty();
            entry.bytecode = request.bytecode.clone();
            for key in keys {
                entry.datastore.set(key.to_vec(), request.parameter.clone());
            }
            let mut changes = Ledger::new();
            changes.set(request.target, entry);
            VmReply::Done { changes, events: vec![], gas_used: 1 }
        }
    };
    let mut worker = ExecutionWorker::new(genesis_with_contract());
    worker.update_blockclique_status(
        chain(vec![(Slot::new(1, 0), BlockId(1), call_block(40, 100, b"f"))]),
        SlotBlocks::new(),
    );
    assert!(matches!(drive(&mut worker, &writes(&[b"pear", b"apple", b"fig"])), WorkerAction::Wait));
    worker.update_blockclique_status(
        SlotBlocks::new(),
        chain(vec![(Slot::new(1, 1), BlockId(2), call_block(41, 100, b"c"))]),
    );
    assert!(matches!(drive(&mut worker, &writes(&[b"zz", b"", b"apple", b"ab"])), WorkerAction::Wait));
    let (in_final, in_candidate) = worker.get_final_and_active_datastore_keys(&CONTRACT);
    assert_eq!(in_final, vec![b"apple".to_vec(), b"fig".to_vec(), b"pear".to_vec()]);
    assert_eq!(in_candidate, vec![b"".to_vec(), b"ab".to_vec(), b"apple".to_vec(), b"zz".to_vec()]);
    assert_eq!(worker.get_final_and_active_datastore_keys(&A), (vec![], vec![]));
    assert_eq!(
        worker.get_final_and_active_data_entry(vec![(CONTRACT, b"apple".to_vec()), (CONTRACT, b"fig".to_vec())]),
        vec![(Some(b"f".to_vec()), Some(b"c".to_vec())), (Some(b"f".to_vec()), None)]
    );
    assert_eq!(worker.list_datastore_keys(CONTRACT, Finality::Final).len(), 3);
    assert_eq!(worker.get_datastore_entry(CONTRACT, &b"zz".to_vec(), Finality::Candidate), Some(b"c".to_vec()));
    assert_eq!(worker.get_datastore_entry(CONTRACT, &b"zz".to_vec(), Finality::Final), None);
}

#[test]
fn stop_lets_the_slot_at_work_end_and_starts_nothing_new() {
    let mut worker = ExecutionWorker::new(genesis_with_contract());
    worker.update_blockclique_status(
        SlotBlocks::new(),
        chain(vec![
            (Slot::new(1, 0), BlockId(1), call_block(40, 100, b"a")),
            (Slot::new(1, 1), BlockId(2), call_block(41, 100, b"b")),
        ]),
    );
    let request = loop {
        match worker.step() {
            WorkerAction::RunVm(request) => break request,
            WorkerAction::Continue => {}
            other => panic!("unexpected {:?}", other),
        }
    };
    worker.stop();
    assert_eq!(worker.phase(), Phase::Executing);
    worker.resume(counter_vm(&request));
    assert!(matches!(drive(&mut worker, &no_vm), WorkerAction::Halt));
    assert_eq!(worker.phase(), Phase::Stopped);
    assert_eq!(worker.history().len(), 1);
    assert_eq!(worker.history()[0].executed_ops, vec![OperationId(40)]);
    assert!(matches!(worker.step(), WorkerAction::Halt));
}

#[test]
fn stop_between_slots_is_immediate() {
    let mut worker = ExecutionWorker::new(funded_genesis());
    worker.update_blockclique_status(
        SlotBlocks::new(),
        chain(vec![(Slot::new(1, 0), BlockId(1), block_one())]),
    );
    worker.stop();
    assert_eq!(worker.phase(), Phase::Stopped);
    assert!(matches!(worker.step(), WorkerAction::Halt));
    assert_eq!(worker.history().len(), 0);
}

#[test]
fn notifications_are_taken_in_order() {
    let mut worker = ExecutionWorker::new(funded_genesis());
    let b = |id: u64, amount: u64| Storage::new(vec![Operation::transfer(OperationId(id), FUNDER, A, Amount(amount))]);
    worker.update_blockclique_status(SlotBlocks::new(), chain(vec![(Slot::new(1, 0), BlockId(1), b(1, 1))]));
    worker.update_blockclique_status(SlotBlocks::new(), chain(vec![(Slot::new(1, 0), BlockId(2), b(2, 2))]));
    assert!(matches!(worker.step(), WorkerAction::Continue));
    assert_eq!(worker.phase(), Phase::Finalizing);
    assert!(matches!(worker.step(), WorkerAction::Continue));
    assert_eq!(worker.phase(), Phase::Reconciling);
    assert!(matches!(worker.step(), WorkerAction::Continue));
    assert_eq!(worker.phase(), Phase::Executing);
    drive(&mut worker, &no_vm);
    assert_eq!(worker.history().len(), 1);
    assert_eq!(worker.history()[0].block_id, Some(BlockId(2)));
    assert_eq!(balances(&worker, vec![A]), vec![(None, Some(2))]);
    assert!(matches!(worker.step(), WorkerAction::Wait));
}

#[test]
fn answer_without_a_call_is_dropped() {
    let mut worker = ExecutionWorker::new(funded_genesis());
    worker.resume(VmReply::Trap);
    assert_eq!(worker.phase(), Phase::Idle);
    assert!(matches!(worker.step(), WorkerAction::Wait));
}

#[test]
fn readonly_call_runs_on_candidate_and_leaves_it_alone() {
    let mut worker = ExecutionWorker::new(genesis_with_contract());
    worker.update_blockclique_status(
        SlotBlocks::new(),
        chain(vec![(Slot::new(3, 2), BlockId(1), call_block(40, 100, b"a"))]),
    );
    drive(&mut worker, &counter_vm);
    let request = || ReadOnlyExecutionRequest {
        max_gas: 7,
        caller: B,
        target: CONTRACT,
        function: b"peek".to_vec(),
        parameter: b"zz".to_vec(),
    };
    let call = worker.readonly_vm_request(&request()).unwrap();
    assert_eq!(call.caller, B);
    assert_eq!(call.target, CONTRACT);
    assert_eq!(call.bytecode, vec![0xc0, 0xde]);
    assert_eq!(call.function, b"peek".to_vec());
    assert_eq!(call.parameter, b"zz".to_vec());
    assert_eq!(call.max_gas, 7);
    let output = worker.execute_readonly_request(request(), counter_vm(&call)).unwrap();
    assert_eq!(output.slot, Slot::new(3, 2));
    assert_eq!(output.block_id, None);
    assert_eq!(output.gas_used, 7);
    assert_eq!(output.changes.len(), 1);
    assert_eq!(output.changes.get(CONTRACT).unwrap().datastore.get(&b"last".to_vec()), Some(b"zz".to_vec()));
    assert_eq!(output.events.len(), 2);
    assert!(output.events[1].read_only);
    assert_eq!(output.events[1].index_in_slot, 1);
    assert_eq!(output.events[1].original_caller, B);
    assert_eq!(output.events[1].operation_id, None);
    assert_eq!(output.events[1].block_id, None);
    assert_eq!(output.events[1].data, b"peek".to_vec());
    assert!(output.executed_ops.is_empty());
    // nothing was written
    assert_eq!(
        worker.get_final_and_active_data_entry(vec![(CONTRACT, b"last".to_vec())]),
        vec![(None, Some(b"a".to_vec()))]
    );
    assert_eq!(worker.get_filtered_sc_output_event(EventFilter::all()).len(), 2);

    let over = ReadOnlyExecutionRequest { max_gas: 6, ..request() };
    assert!(matches!(
        worker.execute_readonly_request(over, counter_vm(&call)),
        Err(ExecutionError::ResourceExhausted)
    ));
    assert!(matches!(
        worker.execute_readonly_request(request(), VmReply::Trap),
        Err(ExecutionError::RuntimeTrap)
    ));
}

#[test]
fn readonly_slot_follows_final_state_without_candidate() {
    let mut worker = ExecutionWorker::new(genesis_with_contract());
    assert_eq!(worker.latest_slot(), Slot::new(0, 0));
    worker.update_blockclique_status(
        chain(vec![(Slot::new(4, 1), BlockId(1), call_block(40, 100, b"a"))]),
        SlotBlocks::new(),
    );
    drive(&mut worker, &counter_vm);
    assert_eq!(worker.latest_slot(), Slot::new(4, 1));
}

#[test]
fn cycle_rolls_are_those_of_the_cycle_before() {
    let mut worker = ExecutionWorker::new(Ledger::new());
    assert_eq!(worker.get_cycle_rolls(0), vec![]);
    assert_eq!(worker.get_cycle_rolls(1), vec![]);
    assert!(worker.supply_cycle_rolls(0, vec![(A, 3), (B, 1)]));
    assert!(worker.supply_cycle_rolls(4, vec![(B, 2)]));
    // frozen once supplied
    assert!(!worker.supply_cycle_rolls(0, vec![(A, 99)]));
    assert_eq!(worker.get_cycle_rolls(0), vec![]);
    assert_eq!(worker.get_cycle_rolls(1), vec![(A, 3), (B, 1)]);
    assert_eq!(worker.get_cycle_rolls(2), vec![]);
    assert_eq!(worker.get_cycle_rolls(5), vec![(B, 2)]);
    assert_eq!(worker.get_cycle_rolls(u64::MAX), vec![]);
}

#[test]
fn events_are_filtered_by_every_field_present() {
    let mut worker = ExecutionWorker::new(genesis_with_contract());
    let caller_b = Storage::new(vec![Operation::call(OperationId(41), B, CONTRACT, b"g".to_vec(), vec![], 100)]);
    worker.update_blockclique_status(
        chain(vec![(Slot::new(1, 0), BlockId(1), call_block(40, 100, b"a"))]),
        chain(vec![(Slot::new(1, 1), BlockId(2), caller_b), (Slot::new(2, 0), BlockId(3), call_block(42, 100, b"c"))]),
    );
    drive(&mut worker, &counter_vm);
    let count = |filter: EventFilter| worker.get_filtered_sc_output_event(filter).len();
    assert_eq!(count(EventFilter::all()), 6);
    assert_eq!(count(EventFilter { start: Some(Slot::new(1, 1)), ..EventFilter::all() }), 4);
    assert_eq!(count(EventFilter { end: Some(Slot::new(1, 1)), ..EventFilter::all() }), 2);
    assert_eq!(
        count(EventFilter { start: Some(Slot::new(1, 1)), end: Some(Slot::new(2, 0)), ..EventFilter::all() }),
        2
    );
    assert_eq!(count(EventFilter { start: Some(Slot::new(2, 1)), ..EventFilter::all() }), 0);
    assert_eq!(count(EventFilter { emitter_address: Some(CONTRACT), ..EventFilter::all() }), 6);
    assert_eq!(count(EventFilter { emitter_address: Some(A), ..EventFilter::all() }), 0);
    assert_eq!(count(EventFilter { original_caller_address: Some(B), ..EventFilter::all() }), 2);
    assert_eq!(count(EventFilter { original_operation_id: Some(OperationId(42)), ..EventFilter::all() }), 2);
    assert_eq!(
        count(EventFilter {
            original_caller_address: Some(B),
            original_operation_id: Some(OperationId(42)),
            ..EventFilter::all()
        }),
        0
    );
    let found = worker.get_filtered_sc_output_event(EventFilter {
        original_caller_address: Some(A),
        ..EventFilter::all()
    });
    let order: Vec<(Slot, u64)> = found.iter().map(|e| (e.slot, e.index_in_slot)).collect();
    assert_eq!(
        order,
        vec![(Slot::new(1, 0), 0), (Slot::new(1, 0), 1), (Slot::new(2, 0), 0), (Slot::new(2, 0), 1)]
    );
}
