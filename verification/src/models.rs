//! Identifiers and quantities shared by every part of the execution core.

use vstd::prelude::*;

verus! {

/// Position in the chain: a period, and a thread within it.
///
/// Slots are totally ordered, by period first and thread second.
#[derive(Clone, Copy, PartialEq, Eq, Structural, Debug, Hash)]
pub struct Slot {
    pub period: u64,
    pub thread: u8,
}

impl Slot {
    /// Strict chain order.
    pub open spec fn lt(self, other: Slot) -> bool {
        self.period < other.period || (self.period == other.period && self.thread < other.thread)
    }

    /// Chain order.
    pub open spec fn le(self, other: Slot) -> bool {
        self == other || self.lt(other)
    }

    pub fn new(period: u64, thread: u8) -> (slot: Slot)
        ensures
            slot.period == period,
            slot.thread == thread,
    {
        Slot { period, thread }
    }

    /// Whether `self` comes strictly before `other` in the chain.
    pub fn is_before(&self, other: &Slot) -> (before: bool)
        ensures
            before == self.lt(*other),
    {
        self.period < other.period || (self.period == other.period && self.thread < other.thread)
    }

    /// Whether `self` is `other` or comes before it.
    pub fn is_at_or_before(&self, other: &Slot) -> (r: bool)
        ensures
            r == self.le(*other),
    {
        self.period < other.period || (self.period == other.period && self.thread <= other.thread)
    }
}

/// Identifies an account.
#[derive(Clone, Copy, PartialEq, Eq, Structural, Debug, Hash)]
pub struct Address(pub u64);

/// Content hash of a block.
#[derive(Clone, Copy, PartialEq, Eq, Structural, Debug, Hash)]
pub struct BlockId(pub u64);

/// Identifies an operation.
#[derive(Clone, Copy, PartialEq, Eq, Structural, Debug, Hash)]
pub struct OperationId(pub u64);

/// What one roll costs when bought, and brings when sold, in coins.
pub const ROLL_PRICE: u64 = 100;

/// A quantity of coins. Never negative; arithmetic on it is checked.
#[derive(Clone, Copy, PartialEq, Eq, Structural, Debug, Hash)]
pub struct Amount(pub u64);

impl Amount {
    pub open spec fn value(self) -> nat {
        self.0 as nat
    }

    pub fn zero() -> (a: Amount)
        ensures
            a.value() == 0,
    {
        Amount(0)
    }

    pub fn from_raw(raw: u64) -> (a: Amount)
        ensures
            a.value() == raw,
    {
        Amount(raw)
    }

    pub fn to_raw(&self) -> (raw: u64)
        ensures
            raw == self.value(),
    {
        self.0
    }

    /// Sum, or `None` when it does not fit.
    pub fn checked_add(&self, other: Amount) -> (sum: Option<Amount>)
        ensures
            sum is Some <==> self.value() + other.value() <= u64::MAX,
            sum is Some ==> sum->0.value() == self.value() + other.value(),
    {
        match self.0.checked_add(other.0) {
            Some(v) => Some(Amount(v)),
            None => None,
        }
    }

    /// Difference, or `None` when `other` is the larger.
    pub fn checked_sub(&self, other: Amount) -> (diff: Option<Amount>)
        ensures
            diff is Some <==> other.value() <= self.value(),
            diff is Some ==> diff->0.value() == self.value() - other.value(),
    {
        if other.0 <= self.0 {
            Some(Amount(self.0 - other.0))
        } else {
            None
        }
    }
}

} // verus!
