use vstd::prelude::*;

use crate::codec::{NodeId, Rumour};

verus! {

/// The number of slots of a fixed-size list.
pub const FIXED_LIST_CAPACITY: usize = 5;

/// What a fixed-size list holds: its count of items and its slots.
pub struct FixedListView<T> {
    pub size: nat,
    pub slots: Seq<Option<T>>,
}

impl<T> FixedListView<T> {
    /// A list is well formed when its count fits the slots and every slot
    /// below the count holds an item.
    pub open spec fn well_formed(self) -> bool {
        &&& self.slots.len() == FIXED_LIST_CAPACITY
        &&& self.size <= FIXED_LIST_CAPACITY
        &&& forall|i: int| 0 <= i < self.size ==> (#[trigger] self.slots[i]) is Some
    }

    /// The items below the count.
    pub open spec fn items(self) -> Seq<T> {
        Seq::new(self.size, |i: int| self.slots[i]->0)
    }
}

/// The items of the leading slots up to the first empty one.
pub open spec fn slots_prefix<T>(slots: Seq<Option<T>>) -> Seq<T>
    decreases slots.len(),
{
    if slots.len() == 0 {
        Seq::empty()
    } else {
        match slots[0] {
            Some(x) => seq![x] + slots_prefix(slots.drop_first()),
            None => Seq::empty(),
        }
    }
}

/// The list that holds exactly `items`, the remaining slots empty.
pub open spec fn list_of<T>(items: Seq<T>) -> FixedListView<T> {
    FixedListView {
        size: items.len(),
        slots: Seq::new(
            FIXED_LIST_CAPACITY as nat,
            |i: int|
                if i < items.len() {
                    Some(items[i])
                } else {
                    None
                },
        ),
    }
}

/// The leading items of `slots`, when the first `n` slots hold `items` and
/// the next one (if any) is empty.
proof fn lemma_slots_prefix_of<T>(slots: Seq<Option<T>>, items: Seq<T>)
    requires
        items.len() <= slots.len(),
        forall|i: int| 0 <= i < items.len() ==> slots[i] == Some(#[trigger] items[i]),
        items.len() < slots.len() ==> slots[items.len() as int] is None,
    ensures
        slots_prefix(slots) == items,
    decreases items.len(),
{
    if items.len() == 0 {
        if slots.len() > 0 {
            assert(slots[0] is None);
        }
    } else {
        assert(slots[0] == Some(items[0]));
        lemma_slots_prefix_of(slots.drop_first(), items.drop_first());
        assert(items =~= seq![items[0]] + items.drop_first());
    }
}

/// Turning a sequence of at most five items into a fixed-size list and
/// back gives the same sequence.
pub proof fn lemma_list_round_trip<T>(items: Seq<T>)
    requires
        items.len() <= FIXED_LIST_CAPACITY,
    ensures
        list_of(items).well_formed(),
        list_of(items).items() == items,
        slots_prefix(list_of(items).slots) == items,
{
    lemma_slots_prefix_of(list_of(items).slots, items);
    assert(list_of(items).items() =~= items);
}

/// A list of at most five rumours, as carried on every control message.
#[derive(Clone, Copy, Debug, PartialEq, Eq)]
pub struct RumourList {
    pub size: usize,
    pub slots: [Option<Rumour>; 5],
}

impl View for RumourList {
    type V = FixedListView<Rumour>;

    open spec fn view(&self) -> FixedListView<Rumour> {
        FixedListView { size: self.size as nat, slots: self.slots@ }
    }
}

impl RumourList {
    /// The list with no items.
    pub fn empty() -> (r: RumourList)
        ensures
            r@ == list_of(Seq::<Rumour>::empty()),
    {
        let r = RumourList { size: 0, slots: [None; 5] };
        assert(r@.slots =~= list_of(Seq::<Rumour>::empty()).slots);
        r
    }

    /// The number of slots.
    pub fn capacity() -> (r: usize)
        ensures
            r == FIXED_LIST_CAPACITY,
    {
        FIXED_LIST_CAPACITY
    }

    /// Appends `item` if a slot is free; returns whether it did.
    pub fn push(&mut self, item: Rumour) -> (r: bool)
        ensures
            r == (old(self)@.size < FIXED_LIST_CAPACITY),
            r ==> final(self)@ == (FixedListView {
                size: old(self)@.size + 1,
                slots: old(self)@.slots.update(old(self)@.size as int, Some(item)),
            }),
            !r ==> final(self)@ == old(self)@,
    {
        if Self::capacity() > self.size {
            self.slots[self.size] = Some(item);
            self.size = self.size + 1;
            true
        } else {
            false
        }
    }

    /// Whether `item` is one of the items below the count.
    pub fn contains(&self, item: &Rumour) -> (r: bool)
        requires
            self@.well_formed(),
        ensures
            r == self@.items().contains(*item),
    {
        let mut i: usize = 0;
        while i < self.size
            invariant
                self@.well_formed(),
                i <= self.size,
                forall|j: int| 0 <= j < i ==> self@.items()[j] != *item,
            decreases self.size - i,
        {
            assert(self.slots@[i as int] is Some);
            if self.slots[i].unwrap() == *item {
                assert(self@.items()[i as int] == *item);
                return true;
            }
            i = i + 1;
        }
        false
    }

    /// Returns the slot just past the last item and lowers the count by
    /// one (when it is not zero already); the slots stay as they were.
    pub fn pop(&mut self) -> (r: Option<Rumour>)
        requires
            old(self)@.size < FIXED_LIST_CAPACITY,
        ensures
            r == old(self)@.slots[old(self)@.size as int],
            final(self)@.slots == old(self)@.slots,
            final(self)@.size == (if old(self)@.size > 0 {
                old(self)@.size - 1
            } else {
                0
            }),
    {
        let result = self.slots[self.size];
        self.size = if self.size > 0 {
            self.size - 1
        } else {
            0
        };
        result
    }

    /// Writes the items, in order, to the front of `to`.
    pub fn copy_to(&self, to: &mut [Rumour])
        requires
            self@.well_formed(),
            self@.size <= old(to)@.len(),
        ensures
            final(to)@.len() == old(to)@.len(),
            forall|i: int| 0 <= i < self@.size ==> final(to)@[i] == self@.items()[i],
            forall|i: int| self@.size <= i < old(to)@.len() ==> final(to)@[i] == old(to)@[i],
    {
        let mut i: usize = 0;
        while i < self.size
            invariant
                self@.well_formed(),
                self@.size <= old(to)@.len(),
                i <= self.size,
                to@.len() == old(to)@.len(),
                forall|j: int| 0 <= j < i ==> to@[j] == self@.items()[j],
                forall|j: int| i <= j < old(to)@.len() ==> to@[j] == old(to)@[j],
            decreases self.size - i,
        {
            assert(self.slots@[i as int] is Some);
            to[i] = self.slots[i].unwrap();
            i = i + 1;
        }
    }

    /// The list holding `rs` in order.
    pub fn from_vec(rs: Vec<Rumour>) -> (r: RumourList)
        requires
            rs@.len() <= FIXED_LIST_CAPACITY,
        ensures
            r@ == list_of(rs@),
    {
        let mut result = RumourList::empty();
        let mut i: usize = 0;
        while i < rs.len()
            invariant
                rs@.len() <= FIXED_LIST_CAPACITY,
                i <= rs@.len(),
                result.size == 0,
                result@.slots.len() == FIXED_LIST_CAPACITY,
                forall|j: int| 0 <= j < i ==> result@.slots[j] == Some(rs@[j]),
                forall|j: int| i <= j < FIXED_LIST_CAPACITY ==> result@.slots[j] is None,
            decreases rs@.len() - i,
        {
            result.slots[i] = Some(rs[i]);
            i = i + 1;
        }
        result.size = rs.len();
        assert(result@.slots =~= list_of(rs@).slots);
        result
    }

    /// The items of the leading slots, up to the first empty slot.
    pub fn into_vec(self) -> (r: Vec<Rumour>)
        ensures
            r@ == slots_prefix(self@.slots),
    {
        let mut result: Vec<Rumour> = Vec::with_capacity(self.size);
        let mut i: usize = 0;
        assert(self@.slots.skip(0) =~= self@.slots);
        assert(result@ + slots_prefix(self@.slots) =~= slots_prefix(self@.slots));
        while i < 5
            invariant
                i <= 5,
                self@.slots.len() == 5,
                slots_prefix(self@.slots) == result@ + slots_prefix(self@.slots.skip(i as int)),
            decreases 5 - i,
        {
            assert(self@.slots.skip(i as int).drop_first() =~= self@.slots.skip(i + 1));
            match self.slots[i] {
                Some(item) => {
                    result.push(item);
                    assert(result@ =~= result@.drop_last() + seq![item]);
                },
                None => {
                    return result;
                },
            }
            i = i + 1;
        }
        assert(self@.slots.skip(5) =~= Seq::<Option<Rumour>>::empty());
        result
    }
}

/// A list of at most five peers, as carried on a join acknowledgement.
#[derive(Clone, Copy, Debug, PartialEq, Eq)]
pub struct KnownPeersList {
    pub size: usize,
    pub slots: [Option<NodeId>; 5],
}

impl View for KnownPeersList {
    type V = FixedListView<NodeId>;

    open spec fn view(&self) -> FixedListView<NodeId> {
        FixedListView { size: self.size as nat, slots: self.slots@ }
    }
}

impl KnownPeersList {
    /// The list with no items.
    pub fn empty() -> (r: KnownPeersList)
        ensures
            r@ == list_of(Seq::<NodeId>::empty()),
    {
        let r = KnownPeersList { size: 0, slots: [None; 5] };
        assert(r@.slots =~= list_of(Seq::<NodeId>::empty()).slots);
        r
    }

    /// The number of slots.
    pub fn capacity() -> (r: usize)
        ensures
            r == FIXED_LIST_CAPACITY,
    {
        FIXED_LIST_CAPACITY
    }

    /// Appends `item` if a slot is free; returns whether it did.
    pub fn push(&mut self, item: NodeId) -> (r: bool)
        ensures
            r == (old(self)@.size < FIXED_LIST_CAPACITY),
            r ==> final(self)@ == (FixedListView {
                size: old(self)@.size + 1,
                slots: old(self)@.slots.update(old(self)@.size as int, Some(item)),
            }),
            !r ==> final(self)@ == old(self)@,
    {
        if Self::capacity() > self.size {
            self.slots[self.size] = Some(item);
            self.size = self.size + 1;
            true
        } else {
            false
        }
    }

    /// Whether `item` is one of the items below the count.
    pub fn contains(&self, item: &NodeId) -> (r: bool)
        requires
            self@.well_formed(),
        ensures
            r == self@.items().contains(*item),
    {
        let mut i: usize = 0;
        while i < self.size
            invariant
                self@.well_formed(),
                i <= self.size,
                forall|j: int| 0 <= j < i ==> self@.items()[j] != *item,
            decreases self.size - i,
        {
            assert(self.slots@[i as int] is Some);
            if self.slots[i].unwrap() == *item {
                assert(self@.items()[i as int] == *item);
                return true;
            }
            i = i + 1;
        }
        false
    }

    /// Returns the slot just past the last item and lowers the count by
    /// one (when it is not zero already); the slots stay as they were.
    pub fn pop(&mut self) -> (r: Option<NodeId>)
        requires
            old(self)@.size < FIXED_LIST_CAPACITY,
        ensures
            r == old(self)@.slots[old(self)@.size as int],
            final(self)@.slots == old(self)@.slots,
            final(self)@.size == (if old(self)@.size > 0 {
                old(self)@.size - 1
            } else {
                0
            }),
    {
        let result = self.slots[self.size];
        self.size = if self.size > 0 {
            self.size - 1
        } else {
            0
        };
        result
    }

    /// Writes the items, in order, to the front of `to`.
    pub fn copy_to(&self, to: &mut [NodeId])
        requires
            self@.well_formed(),
            self@.size <= old(to)@.len(),
        ensures
            final(to)@.len() == old(to)@.len(),
            forall|i: int| 0 <= i < self@.size ==> final(to)@[i] == self@.items()[i],
            forall|i: int| self@.size <= i < old(to)@.len() ==> final(to)@[i] == old(to)@[i],
    {
        let mut i: usize = 0;
        while i < self.size
            invariant
                self@.well_formed(),
                self@.size <= old(to)@.len(),
                i <= self.size,
                to@.len() == old(to)@.len(),
                forall|j: int| 0 <= j < i ==> to@[j] == self@.items()[j],
                forall|j: int| i <= j < old(to)@.len() ==> to@[j] == old(to)@[j],
            decreases self.size - i,
        {
            assert(self.slots@[i as int] is Some);
            to[i] = self.slots[i].unwrap();
            i = i + 1;
        }
    }

    /// The list holding `rs` in order.
    pub fn from_vec(rs: Vec<NodeId>) -> (r: KnownPeersList)
        requires
            rs@.len() <= FIXED_LIST_CAPACITY,
        ensures
            r@ == list_of(rs@),
    {
        let mut result = KnownPeersList::empty();
        let mut i: usize = 0;
        while i < rs.len()
            invariant
                rs@.len() <= FIXED_LIST_CAPACITY,
                i <= rs@.len(),
                result.size == 0,
                result@.slots.len() == FIXED_LIST_CAPACITY,
                forall|j: int| 0 <= j < i ==> result@.slots[j] == Some(rs@[j]),
                forall|j: int| i <= j < FIXED_LIST_CAPACITY ==> result@.slots[j] is None,
            decreases rs@.len() - i,
        {
            result.slots[i] = Some(rs[i]);
            i = i + 1;
        }
        result.size = rs.len();
        assert(result@.slots =~= list_of(rs@).slots);
        result
    }

    /// The items of the leading slots, up to the first empty slot.
    pub fn into_vec(self) -> (r: Vec<NodeId>)
        ensures
            r@ == slots_prefix(self@.slots),
    {
        let mut result: Vec<NodeId> = Vec::with_capacity(self.size);
        let mut i: usize = 0;
        assert(self@.slots.skip(0) =~= self@.slots);
        assert(result@ + slots_prefix(self@.slots) =~= slots_prefix(self@.slots));
        while i < 5
            invariant
                i <= 5,
                self@.slots.len() == 5,
                slots_prefix(self@.slots) == result@ + slots_prefix(self@.slots.skip(i as int)),
            decreases 5 - i,
        {
            assert(self@.slots.skip(i as int).drop_first() =~= self@.slots.skip(i + 1));
            match self.slots[i] {
                Some(item) => {
                    result.push(item);
                    assert(result@ =~= result@.drop_last() + seq![item]);
                },
                None => {
                    return result;
                },
            }
            i = i + 1;
        }
        assert(self@.slots.skip(5) =~= Seq::<Option<NodeId>>::empty());
        result
    }
}

} // verus!
