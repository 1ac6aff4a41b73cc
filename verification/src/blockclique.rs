//! Blocks by slot, in chain order: the shape in which finalized blocks and the
//! blockclique reach the execution core.

use crate::models::{BlockId, Slot};
use crate::operation::{OperationView, Storage};
use vstd::prelude::*;

verus! {

/// The block of one slot: its identifier, and the handle to its content.
#[derive(Debug)]
pub struct SlotBlock {
    pub slot: Slot,
    pub block_id: BlockId,
    pub storage: Storage,
}

/// The block of one slot as plain values.
pub struct BlockView {
    pub slot: Slot,
    pub block_id: BlockId,
    pub operations: Seq<OperationView>,
}

impl View for SlotBlock {
    type V = BlockView;

    open spec fn view(&self) -> BlockView {
        BlockView { slot: self.slot, block_id: self.block_id, operations: self.storage@ }
    }
}

/// Blocks as plain values, in storage order.
pub type Chain = Seq<BlockView>;

/// The slot stored at index `i`.
pub open spec fn slot_of(chain: Chain, i: int) -> Slot {
    chain[i].slot
}

/// Every block sits in a slot strictly before those of the blocks behind it.
pub open spec fn in_chain_order(chain: Chain) -> bool {
    forall|i: int, j: int| 0 <= i < j < chain.len() ==> (#[trigger] slot_of(chain, i)).lt(#[trigger] slot_of(chain, j))
}

/// Index `i` holds the block of `slot`.
pub open spec fn slot_at(chain: Chain, slot: Slot, i: int) -> bool {
    0 <= i < chain.len() && slot_of(chain, i) == slot
}

/// The block that occupies `slot`, if any.
pub open spec fn block_at(chain: Chain, slot: Slot) -> Option<BlockView> {
    if exists|i: int| slot_at(chain, slot, i) {
        Some(chain[choose|i: int| slot_at(chain, slot, i)])
    } else {
        None
    }
}

/// How many blocks of a chain sit in slots before `slot`: the index at which
/// the block of `slot` is stored, or would have to be.
pub open spec fn blocks_before(chain: Chain, slot: Slot) -> int
    decreases chain.len(),
{
    if chain.len() == 0 {
        0
    } else if slot_of(chain, chain.len() - 1).lt(slot) {
        chain.len() as int
    } else {
        blocks_before(chain.drop_last(), slot)
    }
}

/// Whether a chain holds a block for `slot`.
pub open spec fn holds_slot(chain: Chain, slot: Slot) -> bool {
    blocks_before(chain, slot) < chain.len() && slot_of(chain, blocks_before(chain, slot)) == slot
}

/// A chain with `block` in its slot: in place of the block that the slot held,
/// or as a new block at the place of the slot.
pub open spec fn with_block(chain: Chain, block: BlockView) -> Chain {
    if holds_slot(chain, block.slot) {
        chain.update(blocks_before(chain, block.slot), block)
    } else {
        chain.insert(blocks_before(chain, block.slot), block)
    }
}

/// The index that parts the slots before `slot` from the others is the number
/// of blocks before `slot`.
pub proof fn lemma_blocks_before(chain: Chain, slot: Slot, i: int)
    requires
        0 <= i <= chain.len(),
        forall|j: int| 0 <= j < i ==> (#[trigger] slot_of(chain, j)).lt(slot),
        forall|j: int| i <= j < chain.len() ==> !(#[trigger] slot_of(chain, j)).lt(slot),
    ensures
        blocks_before(chain, slot) == i,
    decreases chain.len(),
{
    if chain.len() > 0 {
        let last = chain.len() - 1;
        if i <= last {
            assert(!slot_of(chain, last).lt(slot));
            let rest = chain.drop_last();
            assert forall|j: int| 0 <= j < i implies (#[trigger] slot_of(rest, j)).lt(slot) by {
                assert(slot_of(rest, j) == slot_of(chain, j));
            }
            assert forall|j: int| i <= j < rest.len() implies !(#[trigger] slot_of(rest, j)).lt(slot) by {
                assert(slot_of(rest, j) == slot_of(chain, j));
            }
            lemma_blocks_before(rest, slot, i);
        } else {
            assert(slot_of(chain, last).lt(slot));
        }
    }
}

/// In chain order a slot sits at one index only, so that index gives its block.
pub proof fn lemma_block_at_index(chain: Chain, slot: Slot, i: int)
    requires
        in_chain_order(chain),
        slot_at(chain, slot, i),
    ensures
        block_at(chain, slot) == Some(chain[i]),
{
    let p = choose|p: int| slot_at(chain, slot, p);
    if p < i {
        assert(slot_of(chain, p).lt(slot_of(chain, i)));
    } else if i < p {
        assert(slot_of(chain, i).lt(slot_of(chain, p)));
    }
}

/// Blocks keyed by slot and kept in chain order; a slot holds one block at most.
#[derive(Debug)]
pub struct SlotBlocks {
    entries: Vec<SlotBlock>,
}

impl View for SlotBlocks {
    type V = Chain;

    closed spec fn view(&self) -> Chain {
        self.entries@.map_values(|e: SlotBlock| e@)
    }
}

impl SlotBlocks {
    #[verifier::type_invariant]
    spec fn ordered(self) -> bool {
        in_chain_order(self@)
    }

    /// No block at all.
    pub fn new() -> (blocks: SlotBlocks)
        ensures
            blocks@ == Chain::empty(),
    {
        let blocks = SlotBlocks { entries: Vec::new() };
        assert(blocks@ =~= Chain::empty());
        blocks
    }

    /// Number of blocks.
    pub fn len(&self) -> (n: usize)
        ensures
            n == self@.len(),
            in_chain_order(self@),
    {
        proof {
            use_type_invariant(self);
        }
        self.entries.len()
    }

    /// Recalls that the blocks stand in chain order. Does nothing when it runs.
    pub fn recall_chain_order(&self)
        ensures
            in_chain_order(self@),
    {
        proof {
            use_type_invariant(self);
        }
    }

    /// The block at index `i`, counted in chain order; `None` from the number
    /// of blocks on.
    pub fn get(&self, i: usize) -> (block: Option<&SlotBlock>)
        ensures
            block is Some <==> i < self@.len(),
            block is Some ==> block->0@ == self@[i as int],
    {
        if i < self.entries.len() {
            Some(&self.entries[i])
        } else {
            None
        }
    }

    pub(crate) fn block(&self, i: usize) -> (block: &SlotBlock)
        requires
            i < self@.len(),
        ensures
            block@ == self@[i as int],
    {
        &self.entries[i]
    }

    /// Puts `storage` as the block `block_id` of `slot`, in place of the block
    /// that the slot held, if it held one.
    pub fn insert(&mut self, slot: Slot, block_id: BlockId, storage: Storage)
        ensures
            final(self)@ == with_block(old(self)@, BlockView { slot, block_id, operations: storage@ }),
            in_chain_order(final(self)@),
            forall|s: Slot| #[trigger]
                block_at(final(self)@, s) == if s == slot {
                    Some(BlockView { slot, block_id, operations: storage@ })
                } else {
                    block_at(old(self)@, s)
                },
    {
        proof {
            use_type_invariant(&*self);
        }
        let ghost before = self@;
        let ghost entry = BlockView { slot, block_id, operations: storage@ };
        let mut i: usize = 0;
        while i < self.entries.len() && self.entries[i].slot.is_before(&slot)
            invariant
                i <= self.entries.len(),
                self@ == before,
                self@.len() == self.entries.len(),
                forall|j: int| 0 <= j < i ==> (#[trigger] slot_of(before, j)).lt(slot),
            decreases self.entries.len() - i,
        {
            assert(slot_of(before, i as int) == self.entries[i as int].slot);
            i += 1;
        }
        let present = i < self.entries.len() && self.entries[i].slot == slot;
        proof {
            if i < self.entries.len() {
                assert(slot_of(before, i as int) == self.entries[i as int].slot);
                assert forall|j: int| i <= j < before.len() && !(present && j == i) implies slot.lt(
                    #[trigger] slot_of(before, j),
                ) by {
                    if i < j {
                        assert(slot_of(before, i as int).lt(slot_of(before, j)));
                    }
                }
            }
        }
        proof {
            assert forall|j: int| i <= j < before.len() implies !(#[trigger] slot_of(before, j)).lt(slot) by {
                if i < self.entries.len() {
                    if i < j {
                        assert(slot_of(before, i as int).lt(slot_of(before, j)));
                    }
                }
            }
            lemma_blocks_before(before, slot, i as int);
        }
        let mut entries: Vec<SlotBlock> = Vec::new();
        std::mem::swap(&mut entries, &mut self.entries);
        assert(entries@.map_values(|e: SlotBlock| e@) == before);
        if present {
            entries.set(i, SlotBlock { slot, block_id, storage });
        } else {
            entries.insert(i, SlotBlock { slot, block_id, storage });
        }
        let ghost after = entries@.map_values(|e: SlotBlock| e@);
        proof {
            if present {
                assert(after =~= before.update(i as int, entry));
            } else {
                assert(after =~= before.insert(i as int, entry));
            }
            lemma_placed_in_order(before, after, i as int, entry, present);
        }
        self.entries = entries;
        assert(self@ == after);
    }
}

/// A block put at its place, over the block of its slot or between its
/// neighbours, keeps the chain order and changes that slot only.
proof fn lemma_placed_in_order(before: Chain, after: Chain, i: int, entry: BlockView, present: bool)
    requires
        in_chain_order(before),
        0 <= i <= before.len(),
        present ==> slot_at(before, entry.slot, i) && after == before.update(i, entry),
        !present ==> after == before.insert(i, entry),
        forall|j: int| 0 <= j < i ==> (#[trigger] slot_of(before, j)).lt(entry.slot),
        forall|j: int| i <= j < before.len() && !(present && j == i) ==> entry.slot.lt(#[trigger] slot_of(before, j)),
    ensures
        in_chain_order(after),
        forall|s: Slot| #[trigger]
            block_at(after, s) == if s == entry.slot {
                Some(entry)
            } else {
                block_at(before, s)
            },
{
    let shift = |p: int| if present || p < i { p } else { p + 1 };
    let unshift = |q: int| if present || q < i { q } else { q - 1 };
    assert forall|a: int, b: int| 0 <= a < b < after.len() implies (#[trigger] slot_of(after, a)).lt(
        #[trigger] slot_of(after, b),
    ) by {
        if a == i {
            assert(slot_of(after, b) == slot_of(before, unshift(b)));
        } else if b == i {
            assert(slot_of(after, a) == slot_of(before, unshift(a)));
        } else {
            assert(slot_of(after, a) == slot_of(before, unshift(a)));
            assert(slot_of(after, b) == slot_of(before, unshift(b)));
            assert(slot_of(before, unshift(a)).lt(slot_of(before, unshift(b))));
        }
    }
    assert forall|s: Slot| #[trigger]
        block_at(after, s) == if s == entry.slot {
            Some(entry)
        } else {
            block_at(before, s)
        } by {
        if s == entry.slot {
            assert(slot_at(after, s, i));
            lemma_block_at_index(after, s, i);
        } else if exists|p: int| slot_at(before, s, p) {
            let p = choose|p: int| slot_at(before, s, p);
            let q = shift(p);
            assert(slot_of(after, q) == slot_of(before, p));
            assert(slot_at(after, s, q));
            lemma_block_at_index(after, s, q);
            lemma_block_at_index(before, s, p);
        } else if exists|q: int| slot_at(after, s, q) {
            let q = choose|q: int| slot_at(after, s, q);
            let p = unshift(q);
            assert(slot_of(after, q) == slot_of(before, p));
            assert(slot_at(before, s, p));
        }
    }
}

} // verus!
