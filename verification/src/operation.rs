//! Operations, the content of a block, and what goes to and comes back from
//! the virtual machine that runs contracts.

use crate::bytes::copy_bytes;
use crate::ledger::{Accounts, Ledger};
use crate::models::{Address, Amount, OperationId};
use vstd::prelude::*;

verus! {

/// What an operation asks for.
#[derive(Debug)]
pub enum OperationPayload {
    /// Move `amount` of parallel balance from the sender to `recipient`.
    Transfer { recipient: Address, amount: Amount },
    /// Buy `roll_count` rolls for the sender, paid from its sequential balance.
    RollBuy { roll_count: u64 },
    /// Sell `roll_count` rolls of the sender; the price goes to its sequential balance.
    RollSell { roll_count: u64 },
    /// Call `function` of the contract at `target` with `parameter`, on a
    /// budget of `max_gas`.
    CallSC { target: Address, function: Vec<u8>, parameter: Vec<u8>, max_gas: u64 },
}

/// A payload as plain values.
pub enum PayloadView {
    Transfer { recipient: Address, amount: Amount },
    RollBuy { roll_count: u64 },
    RollSell { roll_count: u64 },
    CallSC { target: Address, function: Seq<u8>, parameter: Seq<u8>, max_gas: u64 },
}

impl View for OperationPayload {
    type V = PayloadView;

    open spec fn view(&self) -> PayloadView {
        match *self {
            OperationPayload::Transfer { recipient, amount } => PayloadView::Transfer { recipient, amount },
            OperationPayload::RollBuy { roll_count } => PayloadView::RollBuy { roll_count },
            OperationPayload::RollSell { roll_count } => PayloadView::RollSell { roll_count },
            OperationPayload::CallSC { target, function, parameter, max_gas } => PayloadView::CallSC {
                target,
                function: function@,
                parameter: parameter@,
                max_gas,
            },
        }
    }
}

/// An operation: its identifier, the address that signed it, and its payload.
#[derive(Debug)]
pub struct Operation {
    pub id: OperationId,
    pub sender: Address,
    pub payload: OperationPayload,
}

/// An operation as plain values.
pub struct OperationView {
    pub id: OperationId,
    pub sender: Address,
    pub payload: PayloadView,
}

impl View for Operation {
    type V = OperationView;

    open spec fn view(&self) -> OperationView {
        OperationView { id: self.id, sender: self.sender, payload: self.payload@ }
    }
}

impl Operation {
    /// A transfer of `amount` from `sender` to `recipient`.
    pub fn transfer(id: OperationId, sender: Address, recipient: Address, amount: Amount) -> (op: Operation)
        ensures
            op@ == (OperationView { id, sender, payload: PayloadView::Transfer { recipient, amount } }),
    {
        Operation { id, sender, payload: OperationPayload::Transfer { recipient, amount } }
    }

    /// A purchase of `roll_count` rolls by `sender`.
    pub fn roll_buy(id: OperationId, sender: Address, roll_count: u64) -> (op: Operation)
        ensures
            op@ == (OperationView { id, sender, payload: PayloadView::RollBuy { roll_count } }),
    {
        Operation { id, sender, payload: OperationPayload::RollBuy { roll_count } }
    }

    /// A sale of `roll_count` rolls by `sender`.
    pub fn roll_sell(id: OperationId, sender: Address, roll_count: u64) -> (op: Operation)
        ensures
            op@ == (OperationView { id, sender, payload: PayloadView::RollSell { roll_count } }),
    {
        Operation { id, sender, payload: OperationPayload::RollSell { roll_count } }
    }

    /// A call by `sender` of `function` at `target`.
    pub fn call(
        id: OperationId,
        sender: Address,
        target: Address,
        function: Vec<u8>,
        parameter: Vec<u8>,
        max_gas: u64,
    ) -> (op: Operation)
        ensures
            op@ == (OperationView {
                id,
                sender,
                payload: PayloadView::CallSC { target, function: function@, parameter: parameter@, max_gas },
            }),
    {
        Operation { id, sender, payload: OperationPayload::CallSC { target, function, parameter, max_gas } }
    }
}

/// The operations of a list as plain values.
pub open spec fn operation_views(operations: Seq<Operation>) -> Seq<OperationView> {
    operations.map_values(|op: Operation| op@)
}

/// Read access to the content of one block: its operations, in block order.
#[derive(Debug)]
pub struct Storage {
    operations: Vec<Operation>,
}

impl View for Storage {
    type V = Seq<OperationView>;

    closed spec fn view(&self) -> Seq<OperationView> {
        operation_views(self.operations@)
    }
}

impl Storage {
    /// The handle to a block that holds `operations`.
    pub fn new(operations: Vec<Operation>) -> (storage: Storage)
        ensures
            storage@ == operation_views(operations@),
    {
        Storage { operations }
    }

    /// The operations of the block.
    pub fn operations(&self) -> (operations: &Vec<Operation>)
        ensures
            operation_views(operations@) == self@,
    {
        &self.operations
    }
}

/// A call for the virtual machine to run.
#[derive(Debug)]
pub struct VmRequest {
    /// Address at the origin of the call.
    pub caller: Address,
    /// Contract that is called.
    pub target: Address,
    /// Bytecode of that contract.
    pub bytecode: Vec<u8>,
    pub function: Vec<u8>,
    pub parameter: Vec<u8>,
    /// What the call may use at most.
    pub max_gas: u64,
}

/// A call for the virtual machine as plain values.
pub struct VmRequestView {
    pub caller: Address,
    pub target: Address,
    pub bytecode: Seq<u8>,
    pub function: Seq<u8>,
    pub parameter: Seq<u8>,
    pub max_gas: u64,
}

impl View for VmRequest {
    type V = VmRequestView;

    open spec fn view(&self) -> VmRequestView {
        VmRequestView {
            caller: self.caller,
            target: self.target,
            bytecode: self.bytecode@,
            function: self.function@,
            parameter: self.parameter@,
            max_gas: self.max_gas,
        }
    }
}

/// An event as the virtual machine hands it over: who emitted it, and what it says.
#[derive(Debug)]
pub struct VmEvent {
    pub emitter: Address,
    pub data: Vec<u8>,
}

/// An event of the virtual machine as plain values.
pub struct VmEventView {
    pub emitter: Address,
    pub data: Seq<u8>,
}

impl View for VmEvent {
    type V = VmEventView;

    open spec fn view(&self) -> VmEventView {
        VmEventView { emitter: self.emitter, data: self.data@ }
    }
}

/// The events of a list as plain values.
pub open spec fn vm_event_views(events: Seq<VmEvent>) -> Seq<VmEventView> {
    events.map_values(|e: VmEvent| e@)
}

/// What the virtual machine answers to a call.
#[derive(Debug)]
pub enum VmReply {
    /// The call ran to its end: the entries it wrote, the events it emitted and
    /// what it used.
    Done { changes: Ledger, events: Vec<VmEvent>, gas_used: u64 },
    /// The call trapped.
    Trap,
}

/// An answer of the virtual machine as plain values.
pub enum VmReplyView {
    Done { changes: Accounts, events: Seq<VmEventView>, gas_used: u64 },
    Trap,
}

impl View for VmReply {
    type V = VmReplyView;

    open spec fn view(&self) -> VmReplyView {
        match *self {
            VmReply::Done { changes, events, gas_used } => VmReplyView::Done {
                changes: changes@,
                events: vm_event_views(events@),
                gas_used,
            },
            VmReply::Trap => VmReplyView::Trap,
        }
    }
}

impl VmRequest {
    /// The call of `function` at `target` for `caller`.
    pub fn new(
        caller: Address,
        target: Address,
        bytecode: &Vec<u8>,
        function: &Vec<u8>,
        parameter: &Vec<u8>,
        max_gas: u64,
    ) -> (request: VmRequest)
        ensures
            request@ == (VmRequestView {
                caller,
                target,
                bytecode: bytecode@,
                function: function@,
                parameter: parameter@,
                max_gas,
            }),
    {
        VmRequest {
            caller,
            target,
            bytecode: copy_bytes(bytecode),
            function: copy_bytes(function),
            parameter: copy_bytes(parameter),
            max_gas,
        }
    }
}

} // verus!
