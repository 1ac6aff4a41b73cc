//! Ledger state: what each address owns, and how a list of changes is laid
//! over a ledger.

use crate::bytes::{bytes_equal, copy_bytes};
use crate::datastore::{Datastore, Pairs};
use crate::models::{Address, Amount};
use vstd::prelude::*;

verus! {

/// What an address owns: two independent balances, its rolls, its bytecode
/// (empty for an address that is no contract) and its datastore.
#[derive(Debug)]
pub struct LedgerEntry {
    pub parallel_balance: Amount,
    pub sequential_balance: Amount,
    pub roll_count: u64,
    pub bytecode: Vec<u8>,
    pub datastore: Datastore,
}

/// A ledger entry as plain values.
pub struct LedgerEntryView {
    pub parallel_balance: Amount,
    pub sequential_balance: Amount,
    pub roll_count: u64,
    pub bytecode: Seq<u8>,
    pub datastore: Pairs,
}

impl View for LedgerEntry {
    type V = LedgerEntryView;

    open spec fn view(&self) -> LedgerEntryView {
        LedgerEntryView {
            parallel_balance: self.parallel_balance,
            sequential_balance: self.sequential_balance,
            roll_count: self.roll_count,
            bytecode: self.bytecode@,
            datastore: self.datastore@,
        }
    }
}

/// The entry of an address that owns nothing.
pub open spec fn empty_entry() -> LedgerEntryView {
    LedgerEntryView {
        parallel_balance: Amount(0),
        sequential_balance: Amount(0),
        roll_count: 0,
        bytecode: Seq::empty(),
        datastore: Seq::empty(),
    }
}

impl LedgerEntry {
    /// An entry with no coins, no rolls, no bytecode and an empty datastore.
    pub fn empty() -> (entry: LedgerEntry)
        ensures
            entry@ == empty_entry(),
    {
        LedgerEntry {
            parallel_balance: Amount(0),
            sequential_balance: Amount(0),
            roll_count: 0,
            bytecode: Vec::new(),
            datastore: Datastore::new(),
        }
    }

    /// An entry that holds the two balances and nothing else.
    pub fn with_balances(parallel_balance: Amount, sequential_balance: Amount) -> (entry: LedgerEntry)
        ensures
            entry@ == (LedgerEntryView { parallel_balance, sequential_balance, ..empty_entry() }),
    {
        LedgerEntry {
            parallel_balance,
            sequential_balance,
            roll_count: 0,
            bytecode: Vec::new(),
            datastore: Datastore::new(),
        }
    }

    /// Whether two entries hold the same balances, rolls, bytecode and datastore.
    pub fn same_as(&self, other: &LedgerEntry) -> (same: bool)
        ensures
            same == (self@ == other@),
    {
        self.parallel_balance == other.parallel_balance && self.sequential_balance
            == other.sequential_balance && self.roll_count == other.roll_count && bytes_equal(
            &self.bytecode,
            &other.bytecode,
        )
            && self.datastore.same_as(&other.datastore)
    }
}

impl Clone for LedgerEntry {
    fn clone(&self) -> (copy: LedgerEntry)
        ensures
            copy@ == self@,
    {
        LedgerEntry {
            parallel_balance: self.parallel_balance,
            sequential_balance: self.sequential_balance,
            roll_count: self.roll_count,
            bytecode: copy_bytes(&self.bytecode),
            datastore: self.datastore.clone(),
        }
    }
}

/// Addresses with their entries as plain values, in storage order. Where an
/// address occurs more than once, its first entry is the one that counts.
pub type Accounts = Seq<(Address, LedgerEntryView)>;

/// The address stored at index `i`.
pub open spec fn address_of(accounts: Accounts, i: int) -> Address {
    accounts[i].0
}

/// Index `i` is the first one that holds `address`.
pub open spec fn first_at(accounts: Accounts, address: Address, i: int) -> bool {
    &&& 0 <= i < accounts.len()
    &&& address_of(accounts, i) == address
    &&& forall|j: int| 0 <= j < i ==> #[trigger] address_of(accounts, j) != address
}

/// The entry of `address`, if the accounts hold one.
pub open spec fn entry_of(accounts: Accounts, address: Address) -> Option<LedgerEntryView> {
    if exists|i: int| first_at(accounts, address, i) {
        Some(accounts[choose|i: int| first_at(accounts, address, i)].1)
    } else {
        None
    }
}

/// The accounts with `entry` written for `address`: in place where the address
/// is present, at the end where it is not.
pub open spec fn with_entry(accounts: Accounts, address: Address, entry: LedgerEntryView) -> Accounts {
    if exists|i: int| first_at(accounts, address, i) {
        accounts.update(choose|i: int| first_at(accounts, address, i), (address, entry))
    } else {
        accounts.push((address, entry))
    }
}

/// `changes` laid over `base`: every address of `changes` gets the entry that
/// `changes` gives it, every other address keeps the one it has in `base`.
pub open spec fn overlaid(base: Accounts, changes: Accounts) -> Accounts
    decreases changes.len(),
{
    if changes.len() == 0 {
        base
    } else {
        with_entry(overlaid(base, changes.drop_first()), changes[0].0, changes[0].1)
    }
}

/// The entry of `address` seen through a stack of change lists over `base`:
/// the newest list that names the address decides, `base` where none does.
pub open spec fn layered_entry(base: Accounts, layers: Seq<Accounts>, address: Address) -> Option<
    LedgerEntryView,
>
    decreases layers.len(),
{
    if layers.len() == 0 {
        entry_of(base, address)
    } else {
        match entry_of(layers.last(), address) {
            Some(entry) => Some(entry),
            None => layered_entry(base, layers.drop_last(), address),
        }
    }
}

/// The first index that holds an address gives its entry.
pub proof fn lemma_entry_at_first(accounts: Accounts, address: Address, i: int)
    requires
        first_at(accounts, address, i),
    ensures
        entry_of(accounts, address) == Some(accounts[i].1),
        (choose|p: int| first_at(accounts, address, p)) == i,
{
    let p = choose|p: int| first_at(accounts, address, p);
    if p < i {
        assert(address_of(accounts, p) != address);
    } else if i < p {
        assert(address_of(accounts, i) != address);
    }
}

/// An address that no index holds has no entry.
pub proof fn lemma_entry_absent(accounts: Accounts, address: Address)
    requires
        forall|j: int| 0 <= j < accounts.len() ==> #[trigger] address_of(accounts, j) != address,
    ensures
        entry_of(accounts, address) is None,
{
    if exists|i: int| first_at(accounts, address, i) {
        let i = choose|i: int| first_at(accounts, address, i);
        assert(address_of(accounts, i) != address);
    }
}

/// An address that some index holds has a first index.
pub proof fn lemma_first_exists(accounts: Accounts, address: Address, i: int) -> (first: int)
    requires
        0 <= i < accounts.len(),
        address_of(accounts, i) == address,
    ensures
        first_at(accounts, address, first),
        first <= i,
    decreases i,
{
    if forall|j: int| 0 <= j < i ==> #[trigger] address_of(accounts, j) != address {
        i
    } else {
        let j = choose|j: int| 0 <= j < i && #[trigger] address_of(accounts, j) == address;
        lemma_first_exists(accounts, address, j)
    }
}

/// Writing an entry changes what that address has, and nothing else.
pub proof fn lemma_with_entry_lookup(accounts: Accounts, address: Address, entry: LedgerEntryView, other: Address)
    ensures
        entry_of(with_entry(accounts, address, entry), other) == if other == address {
            Some(entry)
        } else {
            entry_of(accounts, other)
        },
{
    let after = with_entry(accounts, address, entry);
    if exists|i: int| first_at(accounts, address, i) {
        let i = choose|i: int| first_at(accounts, address, i);
        assert(after == accounts.update(i, (address, entry)));
        if other == address {
            assert(first_at(after, address, i)) by {
                assert forall|j: int| 0 <= j < i implies #[trigger] address_of(after, j) != address by {
                    assert(address_of(accounts, j) != address);
                }
            }
            lemma_entry_at_first(after, address, i);
        } else {
            lemma_same_addresses_lookup(accounts, after, other, i);
        }
    } else {
        assert(after == accounts.push((address, entry)));
        let n = accounts.len() as int;
        if other == address {
            assert(first_at(after, address, n)) by {
                assert forall|j: int| 0 <= j < n implies #[trigger] address_of(after, j) != address by {
                    if address_of(accounts, j) == address {
                        let f = lemma_first_exists(accounts, address, j);
                    }
                }
            }
            lemma_entry_at_first(after, address, n);
        } else {
            if exists|p: int| first_at(accounts, other, p) {
                let p = choose|p: int| first_at(accounts, other, p);
                assert(first_at(after, other, p)) by {
                    assert forall|j: int| 0 <= j < p implies #[trigger] address_of(after, j) != other by {
                        assert(address_of(accounts, j) != other);
                    }
                }
                lemma_entry_at_first(after, other, p);
            } else if exists|p: int| first_at(after, other, p) {
                let p = choose|p: int| first_at(after, other, p);
                assert(p < n);
                assert(first_at(accounts, other, p)) by {
                    assert forall|j: int| 0 <= j < p implies #[trigger] address_of(accounts, j) != other by {
                        assert(address_of(after, j) != other);
                    }
                }
            }
        }
    }
}

/// Two account lists that differ at one index only, which holds another
/// address in both, give `other` the same entry.
proof fn lemma_same_addresses_lookup(before: Accounts, after: Accounts, other: Address, i: int)
    requires
        0 <= i < before.len(),
        after.len() == before.len(),
        forall|j: int| 0 <= j < before.len() && j != i ==> after[j] == before[j],
        address_of(before, i) != other,
        address_of(after, i) != other,
    ensures
        entry_of(after, other) == entry_of(before, other),
{
    if exists|p: int| first_at(before, other, p) {
        let p = choose|p: int| first_at(before, other, p);
        assert(first_at(after, other, p)) by {
            assert forall|j: int| 0 <= j < p implies #[trigger] address_of(after, j) != other by {
                assert(address_of(before, j) != other);
            }
        }
        lemma_entry_at_first(after, other, p);
    } else if exists|p: int| first_at(after, other, p) {
        let p = choose|p: int| first_at(after, other, p);
        assert(first_at(before, other, p)) by {
            assert forall|j: int| 0 <= j < p implies #[trigger] address_of(before, j) != other by {
                assert(address_of(after, j) != other);
            }
        }
    }
}

/// Seen through an overlay, an address has the entry that the changes give it,
/// and the entry of the base where they give none.
pub proof fn lemma_overlaid_lookup(base: Accounts, changes: Accounts, address: Address)
    ensures
        entry_of(overlaid(base, changes), address) == match entry_of(changes, address) {
            Some(entry) => Some(entry),
            None => entry_of(base, address),
        },
    decreases changes.len(),
{
    if changes.len() == 0 {
        lemma_entry_absent(changes, address);
    } else {
        let rest = changes.drop_first();
        lemma_overlaid_lookup(base, rest, address);
        lemma_with_entry_lookup(overlaid(base, rest), changes[0].0, changes[0].1, address);
        if changes[0].0 == address {
            assert(first_at(changes, address, 0));
            lemma_entry_at_first(changes, address, 0);
        } else {
            if exists|p: int| first_at(rest, address, p) {
                let p = choose|p: int| first_at(rest, address, p);
                assert(first_at(changes, address, p + 1)) by {
                    assert forall|j: int| 0 <= j < p + 1 implies #[trigger] address_of(changes, j) != address by {
                        if j > 0 {
                            assert(address_of(rest, j - 1) != address);
                        }
                    }
                }
                lemma_entry_at_first(changes, address, p + 1);
            } else if exists|p: int| first_at(changes, address, p) {
                let p = choose|p: int| first_at(changes, address, p);
                assert(first_at(rest, address, p - 1)) by {
                    assert forall|j: int| 0 <= j < p - 1 implies #[trigger] address_of(rest, j) != address by {
                        assert(address_of(changes, j + 1) != address);
                    }
                }
            }
        }
    }
}

/// Folding the oldest layer into the base changes nothing that can be seen
/// through the stack.
pub proof fn lemma_fold_oldest_layer(base: Accounts, layers: Seq<Accounts>, address: Address)
    requires
        layers.len() > 0,
    ensures
        layered_entry(overlaid(base, layers[0]), layers.drop_first(), address) == layered_entry(
            base,
            layers,
            address,
        ),
    decreases layers.len(),
{
    if layers.len() == 1 {
        assert(layers.drop_first().len() == 0);
        assert(layers.drop_last().len() == 0);
        assert(layers.last() == layers[0]);
        lemma_overlaid_lookup(base, layers[0], address);
    } else {
        let upper = layers.drop_first();
        assert(upper.last() == layers.last());
        assert(upper.drop_last() =~= layers.drop_last().drop_first());
        assert(layers.drop_last()[0] == layers[0]);
        lemma_fold_oldest_layer(base, layers.drop_last(), address);
    }
}

/// A ledger: the entry of every address it knows.
#[derive(Debug)]
pub struct Ledger {
    entries: Vec<(Address, LedgerEntry)>,
}

impl View for Ledger {
    type V = Accounts;

    closed spec fn view(&self) -> Accounts {
        self.entries@.map_values(|e: (Address, LedgerEntry)| (e.0, e.1@))
    }
}

impl Ledger {
    /// The ledger that knows no address.
    pub fn new() -> (ledger: Ledger)
        ensures
            ledger@ == Accounts::empty(),
    {
        let ledger = Ledger { entries: Vec::new() };
        assert(ledger@ =~= Accounts::empty());
        ledger
    }

    /// Number of stored entries.
    pub fn len(&self) -> (n: usize)
        ensures
            n == self@.len(),
    {
        self.entries.len()
    }

    /// The address stored at index `i` with its entry; `None` from the number
    /// of entries on.
    pub fn entry_at(&self, i: usize) -> (stored: Option<(Address, &LedgerEntry)>)
        ensures
            match stored {
                Some((address, entry)) => i < self@.len() && (address, entry@) == self@[i as int],
                None => i >= self@.len(),
            },
    {
        if i < self.entries.len() {
            Some((self.entries[i].0, &self.entries[i].1))
        } else {
            None
        }
    }

    /// The first index that holds `address`.
    fn position(&self, address: Address) -> (found: Option<usize>)
        ensures
            match found {
                Some(i) => first_at(self@, address, i as int),
                None => forall|j: int| 0 <= j < self@.len() ==> #[trigger] address_of(self@, j) != address,
            },
    {
        let mut i: usize = 0;
        while i < self.entries.len()
            invariant
                i <= self.entries.len(),
                self@.len() == self.entries.len(),
                forall|j: int| 0 <= j < i ==> #[trigger] address_of(self@, j) != address,
            decreases self.entries.len() - i,
        {
            if self.entries[i].0 == address {
                return Some(i);
            }
            i += 1;
        }
        None
    }

    /// The entry of `address`; `None` when the ledger does not know it.
    pub fn get(&self, address: Address) -> (entry: Option<&LedgerEntry>)
        ensures
            entry is Some <==> entry_of(self@, address) is Some,
            entry is Some ==> entry_of(self@, address) == Some(entry->0@),
    {
        match self.position(address) {
            Some(i) => {
                proof {
                    lemma_entry_at_first(self@, address, i as int);
                }
                Some(&self.entries[i].1)
            },
            None => {
                proof {
                    lemma_entry_absent(self@, address);
                }
                None
            },
        }
    }

    /// Writes `entry` for `address`, replacing the entry it had.
    pub fn set(&mut self, address: Address, entry: LedgerEntry)
        ensures
            final(self)@ == with_entry(old(self)@, address, entry@),
    {
        let ghost before = self@;
        let ghost e0 = entry@;
        match self.position(address) {
            Some(i) => {
                proof {
                    lemma_entry_at_first(before, address, i as int);
                }
                self.entries.set(i, (address, entry));
                assert(self@ =~= before.update(i as int, (address, e0)));
            },
            None => {
                proof {
                    lemma_entry_absent(before, address);
                }
                self.entries.push((address, entry));
                assert(self@ =~= before.push((address, e0)));
            },
        }
    }

    /// Lays `changes` over this ledger.
    pub fn apply(&mut self, changes: &Ledger)
        ensures
            final(self)@ == overlaid(old(self)@, changes@),
    {
        let ghost before = self@;
        let mut i: usize = changes.entries.len();
        assert(changes@.skip(i as int) =~= Accounts::empty());
        while i > 0
            invariant
                i <= changes.entries.len(),
                changes@.len() == changes.entries.len(),
                self@ == overlaid(before, changes@.skip(i as int)),
            decreases i,
        {
            i -= 1;
            let ghost rest = changes@.skip(i as int);
            assert(rest.drop_first() =~= changes@.skip(i + 1));
            assert(rest[0] == changes@[i as int]);
            self.set(changes.entries[i].0, changes.entries[i].1.clone());
        }
        assert(changes@.skip(0) =~= changes@);
    }

    /// Whether two ledgers store the same entries in the same order.
    pub fn same_as(&self, other: &Ledger) -> (same: bool)
        ensures
            same == (self@ == other@),
    {
        if self.entries.len() != other.entries.len() {
            return false;
        }
        let mut i: usize = 0;
        while i < self.entries.len()
            invariant
                i <= self.entries.len(),
                self.entries.len() == other.entries.len(),
                self@.len() == self.entries.len(),
                other@.len() == other.entries.len(),
                forall|j: int| 0 <= j < i ==> self@[j] == other@[j],
            decreases self.entries.len() - i,
        {
            if self.entries[i].0 != other.entries[i].0 || !self.entries[i].1.same_as(&other.entries[i].1) {
                assert(self@[i as int] != other@[i as int]);
                return false;
            }
            i += 1;
        }
        assert(self@ =~= other@);
        true
    }
}

impl Clone for Ledger {
    fn clone(&self) -> (copy: Ledger)
        ensures
            copy@ == self@,
    {
        let mut entries: Vec<(Address, LedgerEntry)> = Vec::new();
        let mut i: usize = 0;
        while i < self.entries.len()
            invariant
                i <= self.entries.len(),
                self@.len() == self.entries.len(),
                entries@.len() == i,
                forall|j: int| 0 <= j < i ==> (#[trigger] entries@[j]).0 == self@[j].0 && entries@[j].1@ == self@[j].1,
            decreases self.entries.len() - i,
        {
            entries.push((self.entries[i].0, self.entries[i].1.clone()));
            i += 1;
        }
        let copy = Ledger { entries };
        assert(copy@ =~= self@);
        copy
    }
}

} // verus!
