//! Output events of executed contracts: the events, the filter of a query and
//! the append-only store.

use crate::bytes::copy_bytes;
use crate::models::{Address, BlockId, OperationId, Slot};
use vstd::prelude::*;

verus! {

/// An event that a contract emitted, with the place where it was emitted.
#[derive(Debug)]
pub struct SCOutputEvent {
    /// Slot of the execution.
    pub slot: Slot,
    /// Block of the execution; `None` for a read-only execution.
    pub block_id: Option<BlockId>,
    /// Rank of the event among those of its slot.
    pub index_in_slot: u64,
    /// Address that emitted the event.
    pub emitter: Address,
    /// Address at the origin of the call.
    pub original_caller: Address,
    /// Operation that led to the call; `None` for a read-only execution.
    pub operation_id: Option<OperationId>,
    /// Whether the execution was read-only.
    pub read_only: bool,
    /// What the contract had to say.
    pub data: Vec<u8>,
}

/// An output event as plain values.
pub struct EventView {
    pub slot: Slot,
    pub block_id: Option<BlockId>,
    pub index_in_slot: u64,
    pub emitter: Address,
    pub original_caller: Address,
    pub operation_id: Option<OperationId>,
    pub read_only: bool,
    pub data: Seq<u8>,
}

impl View for SCOutputEvent {
    type V = EventView;

    open spec fn view(&self) -> EventView {
        EventView {
            slot: self.slot,
            block_id: self.block_id,
            index_in_slot: self.index_in_slot,
            emitter: self.emitter,
            original_caller: self.original_caller,
            operation_id: self.operation_id,
            read_only: self.read_only,
            data: self.data@,
        }
    }
}

impl Clone for SCOutputEvent {
    fn clone(&self) -> (copy: SCOutputEvent)
        ensures
            copy@ == self@,
    {
        SCOutputEvent {
            slot: self.slot,
            block_id: self.block_id,
            index_in_slot: self.index_in_slot,
            emitter: self.emitter,
            original_caller: self.original_caller,
            operation_id: self.operation_id,
            read_only: self.read_only,
            data: copy_bytes(&self.data),
        }
    }
}

impl SCOutputEvent {
    /// Whether two events are the same in every field.
    pub fn same_as(&self, other: &SCOutputEvent) -> (same: bool)
        ensures
            same == (self@ == other@),
    {
        self.slot == other.slot && self.block_id == other.block_id && self.index_in_slot
            == other.index_in_slot && self.emitter == other.emitter && self.original_caller
            == other.original_caller && self.operation_id == other.operation_id && self.read_only
            == other.read_only && crate::bytes::bytes_equal(&self.data, &other.data)
    }
}

/// The events of a list as plain values.
pub open spec fn event_views(events: Seq<SCOutputEvent>) -> Seq<EventView> {
    events.map_values(|e: SCOutputEvent| e@)
}

/// Whether two event lists are the same, event by event.
pub fn same_events(a: &Vec<SCOutputEvent>, b: &Vec<SCOutputEvent>) -> (same: bool)
    ensures
        same == (event_views(a@) == event_views(b@)),
{
    if a.len() != b.len() {
        assert(event_views(a@).len() != event_views(b@).len());
        return false;
    }
    let mut i: usize = 0;
    while i < a.len()
        invariant
            i <= a.len(),
            a.len() == b.len(),
            forall|j: int| 0 <= j < i ==> a@[j]@ == b@[j]@,
        decreases a.len() - i,
    {
        if !a[i].same_as(&b[i]) {
            assert(event_views(a@)[i as int] != event_views(b@)[i as int]);
            return false;
        }
        i += 1;
    }
    assert(event_views(a@) =~= event_views(b@));
    true
}

/// A copy of an event list.
pub fn copy_events(events: &Vec<SCOutputEvent>) -> (copy: Vec<SCOutputEvent>)
    ensures
        event_views(copy@) == event_views(events@),
{
    let mut copy: Vec<SCOutputEvent> = Vec::new();
    let mut i: usize = 0;
    while i < events.len()
        invariant
            i <= events.len(),
            copy@.len() == i,
            forall|j: int| 0 <= j < i ==> copy@[j]@ == events@[j]@,
        decreases events.len() - i,
    {
        copy.push(events[i].clone());
        i += 1;
    }
    assert(event_views(copy@) =~= event_views(events@));
    copy
}

/// What a query asks of an event. Every field that is present must hold.
#[derive(Clone, Copy, Debug)]
pub struct EventFilter {
    /// Earliest slot, itself included.
    pub start: Option<Slot>,
    /// First slot that is too late.
    pub end: Option<Slot>,
    /// Address that emitted the event.
    pub emitter_address: Option<Address>,
    /// Address at the origin of the call.
    pub original_caller_address: Option<Address>,
    /// Operation that led to the call.
    pub original_operation_id: Option<OperationId>,
}

impl EventFilter {
    /// The event passes every condition that the filter holds.
    pub open spec fn matches(self, event: EventView) -> bool {
        &&& self.start matches Some(start) ==> start.le(event.slot)
        &&& self.end matches Some(end) ==> event.slot.lt(end)
        &&& self.emitter_address matches Some(emitter) ==> event.emitter == emitter
        &&& self.original_caller_address matches Some(caller) ==> event.original_caller == caller
        &&& self.original_operation_id matches Some(id) ==> event.operation_id == Some(id)
    }

    /// The filter that every event passes.
    pub fn all() -> (filter: EventFilter)
        ensures
            forall|event: EventView| filter.matches(event),
            filter.start is None,
            filter.end is None,
            filter.emitter_address is None,
            filter.original_caller_address is None,
            filter.original_operation_id is None,
    {
        EventFilter {
            start: None,
            end: None,
            emitter_address: None,
            original_caller_address: None,
            original_operation_id: None,
        }
    }

    /// Whether `event` passes the filter.
    pub fn accepts(&self, event: &SCOutputEvent) -> (passes: bool)
        ensures
            passes == self.matches(event@),
    {
        let after_start = match self.start {
            Some(start) => start.is_at_or_before(&event.slot),
            None => true,
        };
        let before_end = match self.end {
            Some(end) => event.slot.is_before(&end),
            None => true,
        };
        let emitter = match self.emitter_address {
            Some(emitter) => event.emitter == emitter,
            None => true,
        };
        let caller = match self.original_caller_address {
            Some(caller) => event.original_caller == caller,
            None => true,
        };
        let operation = match self.original_operation_id {
            Some(id) => match event.operation_id {
                Some(of_event) => of_event == id,
                None => false,
            },
            None => true,
        };
        after_start && before_end && emitter && caller && operation
    }
}

/// The events that pass `filter`, in the order in which `events` holds them.
pub open spec fn selected(events: Seq<EventView>, filter: EventFilter) -> Seq<EventView>
    decreases events.len(),
{
    if events.len() == 0 {
        Seq::empty()
    } else {
        let earlier = selected(events.drop_last(), filter);
        if filter.matches(events.last()) {
            earlier.push(events.last())
        } else {
            earlier
        }
    }
}

/// No event comes before one of an earlier slot.
pub open spec fn in_slot_order(events: Seq<EventView>) -> bool {
    forall|i: int, j: int| 0 <= i < j < events.len() ==> (#[trigger] events[i]).slot.le((#[trigger] events[j]).slot)
}

/// Selecting from two lists in a row is selecting from each.
pub proof fn lemma_selected_concat(a: Seq<EventView>, b: Seq<EventView>, filter: EventFilter)
    ensures
        selected(a + b, filter) == selected(a, filter) + selected(b, filter),
    decreases b.len(),
{
    if b.len() == 0 {
        assert(a + b =~= a);
        assert(selected(a, filter) + selected(b, filter) =~= selected(a, filter));
    } else {
        assert((a + b).drop_last() =~= a + b.drop_last());
        assert((a + b).last() == b.last());
        lemma_selected_concat(a, b.drop_last(), filter);
        if filter.matches(b.last()) {
            assert(selected(a, filter) + selected(b.drop_last(), filter).push(b.last()) =~= (selected(a, filter)
                + selected(b.drop_last(), filter)).push(b.last()));
        }
    }
}

/// A selection holds events of the list only, each one passing the filter, and
/// in the order of the list: it is the list seen at increasing indices.
pub proof fn lemma_selected_is_ordered_part(events: Seq<EventView>, filter: EventFilter) -> (at: Seq<int>)
    ensures
        at.len() == selected(events, filter).len(),
        forall|k: int| 0 <= k < at.len() ==> 0 <= #[trigger] at[k] < events.len(),
        forall|k: int| 0 <= k < at.len() ==> selected(events, filter)[k] == events[#[trigger] at[k]],
        forall|k: int| 0 <= k < at.len() ==> filter.matches(events[#[trigger] at[k]]),
        forall|k: int, l: int| 0 <= k < l < at.len() ==> #[trigger] at[k] < #[trigger] at[l],
    decreases events.len(),
{
    if events.len() == 0 {
        Seq::empty()
    } else {
        let earlier = lemma_selected_is_ordered_part(events.drop_last(), filter);
        if filter.matches(events.last()) {
            earlier.push(events.len() - 1)
        } else {
            earlier
        }
    }
}

/// A selection misses no event that passes the filter.
pub proof fn lemma_selected_is_complete(events: Seq<EventView>, filter: EventFilter, i: int)
    requires
        0 <= i < events.len(),
        filter.matches(events[i]),
    ensures
        selected(events, filter).contains(events[i]),
    decreases events.len(),
{
    let last = events.len() - 1;
    if i == last {
        let earlier = selected(events.drop_last(), filter);
        assert(earlier.push(events.last())[earlier.len() as int] == events[i]);
    } else {
        lemma_selected_is_complete(events.drop_last(), filter, i);
        let earlier = selected(events.drop_last(), filter);
        let k = choose|k: int| 0 <= k < earlier.len() && earlier[k] == events[i];
        if filter.matches(events.last()) {
            assert(earlier.push(events.last())[k] == events[i]);
        }
    }
}

/// A selection from events in slot order is in slot order.
pub proof fn lemma_selected_keeps_slot_order(events: Seq<EventView>, filter: EventFilter)
    requires
        in_slot_order(events),
    ensures
        in_slot_order(selected(events, filter)),
{
    let at = lemma_selected_is_ordered_part(events, filter);
    let chosen = selected(events, filter);
    assert forall|i: int, j: int| 0 <= i < j < chosen.len() implies (#[trigger] chosen[i]).slot.le(
        (#[trigger] chosen[j]).slot,
    ) by {
        assert(at[i] < at[j]);
        assert(events[at[i]].slot.le(events[at[j]].slot));
    }
}

/// The events of `emitted` placed in `slot` and `block_id`.
pub open spec fn placed(emitted: Seq<EventView>, slot: Slot, block_id: Option<BlockId>) -> Seq<EventView> {
    emitted.map_values(|e: EventView| EventView { slot, block_id, ..e })
}

/// The store after the events of `slot` and `block_id` were handed to it: they
/// follow the stored ones, unless the slot is older than the newest stored one.
pub open spec fn recorded(stored: Seq<EventView>, slot: Slot, block_id: Option<BlockId>, emitted: Seq<EventView>) -> Seq<
    EventView,
> {
    if stored.len() == 0 || stored.last().slot.le(slot) {
        stored + placed(emitted, slot, block_id)
    } else {
        stored
    }
}

/// Appends to `out` the events of `events` that pass `filter`.
pub fn select_into(events: &Vec<SCOutputEvent>, filter: &EventFilter, out: &mut Vec<SCOutputEvent>)
    ensures
        event_views(final(out)@) == event_views(old(out)@) + selected(event_views(events@), *filter),
{
    let ghost before = event_views(out@);
    let ghost all = event_views(events@);
    let mut i: usize = 0;
    assert(all.take(0) =~= Seq::empty());
    assert(before + Seq::empty() =~= before);
    while i < events.len()
        invariant
            i <= events.len(),
            all == event_views(events@),
            event_views(out@) == before + selected(all.take(i as int), *filter),
        decreases events.len() - i,
    {
        let ghost prev = event_views(out@);
        assert(all.take(i + 1).drop_last() =~= all.take(i as int));
        assert(all.take(i + 1).last() == events@[i as int]@);
        if filter.accepts(&events[i]) {
            out.push(events[i].clone());
            assert(event_views(out@) =~= prev.push(events@[i as int]@));
            assert(prev.push(events@[i as int]@) =~= before + selected(all.take(i as int), *filter).push(
                events@[i as int]@,
            ));
        }
        i += 1;
    }
    assert(all.take(events.len() as int) =~= all);
}

/// The log of output events: append-only, in slot order, and within a slot in
/// the order of emission.
#[derive(Debug)]
pub struct EventStore {
    events: Vec<SCOutputEvent>,
}

impl View for EventStore {
    type V = Seq<EventView>;

    closed spec fn view(&self) -> Seq<EventView> {
        event_views(self.events@)
    }
}

impl EventStore {
    #[verifier::type_invariant]
    spec fn ordered(self) -> bool {
        in_slot_order(self@)
    }

    /// The empty store.
    pub fn new() -> (store: EventStore)
        ensures
            store@ == Seq::<EventView>::empty(),
    {
        let store = EventStore { events: Vec::new() };
        assert(store@ =~= Seq::<EventView>::empty());
        store
    }

    /// Number of stored events.
    pub fn len(&self) -> (n: usize)
        ensures
            n == self@.len(),
            in_slot_order(self@),
    {
        proof {
            use_type_invariant(self);
        }
        self.events.len()
    }

    /// Appends the events of `slot` and `block_id`, in the order given, each
    /// placed in that slot and block. A slot older than the newest stored one is
    /// refused, and the store stays as it is: the answer says which happened.
    pub fn record(&mut self, slot: Slot, block_id: Option<BlockId>, events: Vec<SCOutputEvent>) -> (accepted: bool)
        ensures
            in_slot_order(final(self)@),
            accepted == (old(self)@.len() == 0 || old(self)@.last().slot.le(slot)),
            final(self)@ == recorded(old(self)@, slot, block_id, event_views(events@)),
    {
        proof {
            use_type_invariant(&*self);
        }
        let n = self.events.len();
        if n > 0 && slot.is_before(&self.events[n - 1].slot) {
            return false;
        }
        let ghost before = self@;
        let ghost target = placed(event_views(events@), slot, block_id);
        let mut stored: Vec<SCOutputEvent> = Vec::new();
        std::mem::swap(&mut stored, &mut self.events);
        let mut events = events;
        let ghost emitted = event_views(events@);
        let mut i: usize = 0;
        assert(target.take(0) =~= Seq::empty());
        assert(before + Seq::empty() =~= before);
        while i < events.len()
            invariant
                i <= events.len(),
                emitted == event_views(events@),
                target == placed(emitted, slot, block_id),
                event_views(stored@) == before + target.take(i as int),
            decreases events.len() - i,
        {
            let ghost prev = event_views(stored@);
            let event = SCOutputEvent {
                slot,
                block_id,
                index_in_slot: events[i].index_in_slot,
                emitter: events[i].emitter,
                original_caller: events[i].original_caller,
                operation_id: events[i].operation_id,
                read_only: events[i].read_only,
                data: copy_bytes(&events[i].data),
            };
            assert(event@ == target[i as int]);
            stored.push(event);
            assert(event_views(stored@) =~= prev.push(target[i as int]));
            assert(target.take(i + 1) =~= target.take(i as int).push(target[i as int]));
            assert(prev.push(target[i as int]) =~= before + target.take(i + 1));
            i += 1;
        }
        assert(target.take(events.len() as int) =~= target);
        proof {
            let after = before + target;
            assert forall|a: int, b: int| 0 <= a < b < after.len() implies (#[trigger] after[a]).slot.le(
                (#[trigger] after[b]).slot,
            ) by {
                if b < before.len() {
                    assert(before[a].slot.le(before[b].slot));
                } else if a < before.len() {
                    assert(before[a].slot.le(before.last().slot) || a == before.len() - 1);
                }
            }
        }
        self.events = stored;
        true
    }

    /// The stored events that pass `filter`, in stored order: by slot, and
    /// within a slot by emission.
    pub fn query(&self, filter: &EventFilter) -> (found: Vec<SCOutputEvent>)
        ensures
            event_views(found@) == selected(self@, *filter),
            in_slot_order(event_views(found@)),
    {
        proof {
            use_type_invariant(self);
            lemma_selected_keeps_slot_order(self@, *filter);
        }
        let mut found: Vec<SCOutputEvent> = Vec::new();
        assert(event_views(found@) =~= Seq::empty());
        select_into(&self.events, filter, &mut found);
        assert(Seq::<EventView>::empty() + selected(self@, *filter) =~= selected(self@, *filter));
        found
    }
}

} // verus!
