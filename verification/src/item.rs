//! A single pack entry and the offset-sorted sequences that hold such entries.

use vstd::prelude::*;

verus! {

/// An entry of a pack, identified by the offset of its first byte (`offset`) and the
/// offset of the first byte behind it (`next_offset`), with the `data` of the caller.
pub struct Item<T> {
    /// The offset into the pack at which the entry begins.
    pub offset: u64,
    /// The offset of the entry that follows, or 0 while that is unknown.
    pub next_offset: u64,
    /// What the caller associates with the entry.
    pub data: T,
    /// Indices into the child items of the tree, one for each entry based on this one.
    pub(crate) children: Vec<u32>,
}

/// The mathematical value of an [`Item`].
pub struct ItemView<T> {
    pub offset: u64,
    pub next_offset: u64,
    pub data: T,
    pub children: Seq<u32>,
}

impl<T> View for Item<T> {
    type V = ItemView<T>;

    closed spec fn view(&self) -> ItemView<T> {
        ItemView {
            offset: self.offset,
            next_offset: self.next_offset,
            data: self.data,
            children: self.children@,
        }
    }
}

impl<T> ItemView<T> {
    /// The item with `child` added behind its other children.
    pub open spec fn with_child(self, child: u32) -> ItemView<T> {
        ItemView { children: self.children.push(child), ..self }
    }

    /// The item with its span closed at `next_offset`.
    pub open spec fn with_next_offset(self, next_offset: u64) -> ItemView<T> {
        ItemView { next_offset, ..self }
    }
}

impl<T> Item<T> {
    /// An item at `offset` whose end is unknown and on which nothing is based.
    pub fn new(offset: u64, data: T) -> (item: Item<T>)
        ensures
            item@ == (ItemView { offset, next_offset: 0, data, children: Seq::<u32>::empty() }),
    {
        Item { offset, next_offset: 0, data, children: Vec::new() }
    }

    /// The indices of the child items that are based on this item, in the order in
    /// which they were attached.
    pub fn children(&self) -> (indices: &[u32])
        ensures
            indices@ == self@.children,
    {
        self.children.as_slice()
    }

    /// The fields of the view are the fields of the item.
    pub(crate) proof fn view_fields(&self)
        ensures
            self@.offset == self.offset,
            self@.next_offset == self.next_offset,
            self@.data == self.data,
    {
    }
}

/// Whether the offsets of `items` increase strictly from each item to the next.
pub open spec fn strictly_increasing<T>(items: Seq<ItemView<T>>) -> bool {
    forall|i: int, j: int| 0 <= i < j < items.len() ==> items[i].offset < items[j].offset
}

/// Whether some item of `items` begins at `offset`.
pub open spec fn has_offset<T>(items: Seq<ItemView<T>>, offset: u64) -> bool {
    exists|i: int| 0 <= i < items.len() && items[i].offset == offset
}

/// The position of the item of `items` that begins at `offset`, where there is one.
pub open spec fn position_of<T>(items: Seq<ItemView<T>>, offset: u64) -> int {
    choose|i: int| 0 <= i < items.len() && items[i].offset == offset
}

/// The views of `items`, in order.
pub open spec fn views<T>(items: Seq<Item<T>>) -> Seq<ItemView<T>> {
    Seq::new(items.len(), |i: int| items[i]@)
}

/// In a strictly increasing sequence an offset has at most one position.
pub proof fn position_is_unique<T>(items: Seq<ItemView<T>>, offset: u64, i: int)
    requires
        strictly_increasing(items),
        0 <= i < items.len(),
        items[i].offset == offset,
    ensures
        has_offset(items, offset),
        position_of(items, offset) == i,
{
    let p = position_of(items, offset);
    assert(0 <= p < items.len() && items[p].offset == offset);
    if p < i {
        assert(items[p].offset < items[i].offset);
    } else if i < p {
        assert(items[i].offset < items[p].offset);
    }
}

/// Finds by binary search the item that begins at `offset`.
pub fn find_by_offset<T>(items: &Vec<Item<T>>, offset: u64) -> (found: Option<usize>)
    requires
        strictly_increasing(views(items@)),
    ensures
        found.is_some() == has_offset(views(items@), offset),
        found.is_some() ==> found.unwrap() as int == position_of(views(items@), offset),
{
    let ghost vs = views(items@);
    let mut low: usize = 0;
    let mut high: usize = items.len();
    while low < high
        invariant
            vs == views(items@),
            strictly_increasing(vs),
            low <= high <= items.len(),
            forall|k: int| 0 <= k < low ==> vs[k].offset < offset,
            forall|k: int| high <= k < vs.len() ==> vs[k].offset > offset,
        decreases high - low,
    {
        let mid: usize = low + (high - low) / 2;
        let at: u64 = items[mid].offset;
        proof {
            items@[mid as int].view_fields();
            assert(vs[mid as int].offset == at);
        }
        if at == offset {
            proof {
                position_is_unique(vs, offset, mid as int);
            }
            return Some(mid);
        } else if at < offset {
            low = mid + 1;
        } else {
            high = mid;
        }
    }
    None
}

/// Adds `child` behind the children of the item at `position`.
pub(crate) fn attach_child<T>(items: &mut Vec<Item<T>>, position: usize, child: u32)
    requires
        position < old(items).len(),
    ensures
        views(final(items)@) == views(old(items)@).update(
            position as int,
            views(old(items)@)[position as int].with_child(child),
        ),
{
    items[position].children.push(child);
    assert(views(items@) =~= views(old(items)@).update(
        position as int,
        views(old(items)@)[position as int].with_child(child),
    ));
}

/// Closes the span of the last item at `next_offset`.
pub(crate) fn close_last_span<T>(items: &mut Vec<Item<T>>, next_offset: u64)
    requires
        old(items).len() > 0,
    ensures
        views(final(items)@) == views(old(items)@).update(
            old(items).len() - 1,
            views(old(items)@).last().with_next_offset(next_offset),
        ),
{
    let last: usize = items.len() - 1;
    items[last].next_offset = next_offset;
    assert(views(items@) =~= views(old(items)@).update(
        old(items).len() - 1,
        views(old(items)@).last().with_next_offset(next_offset),
    ));
}

/// The offset at which the last item begins.
pub(crate) fn last_offset<T>(items: &Vec<Item<T>>) -> (offset: u64)
    requires
        items.len() > 0,
    ensures
        offset == views(items@).last().offset,
{
    items[items.len() - 1].offset
}

/// Adds `item` behind the others.
pub(crate) fn push_item<T>(items: &mut Vec<Item<T>>, item: Item<T>)
    ensures
        views(final(items)@) == views(old(items)@).push(item@),
{
    items.push(item);
    assert(views(items@) =~= views(old(items)@).push(item@));
}

} // verus!
