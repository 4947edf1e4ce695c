//! The mathematical model of the tree: its value, its transitions and what holds of it.

use vstd::prelude::*;
use crate::item::{has_offset, position_of, strictly_increasing, ItemView};

verus! {

/// Which kind of item was added last.
#[derive(Clone, Copy, Debug, PartialEq, Eq, Structural)]
pub enum NodeKind {
    /// A full object.
    Root,
    /// A delta against another entry.
    Child,
}

/// A place at which the index of a child item is recorded.
pub enum Slot {
    /// Position `at` in the children of the root item `item`.
    OfRoot { item: int, at: int },
    /// Position `at` in the children of the child item `item`.
    OfChild { item: int, at: int },
    /// Position `at` among the forward references.
    Pending { at: int },
}

/// An entry of a pack as it is handed to the tree.
pub enum Entry<T> {
    /// A full object that begins at `offset`.
    Root { offset: u64, data: T },
    /// A delta that begins at `offset`, against the entry that begins at `base_offset`.
    Child { base_offset: u64, offset: u64, data: T },
}

impl<T> Entry<T> {
    /// The offset at which the entry begins.
    pub open spec fn offset(self) -> u64 {
        match self {
            Entry::Root { offset, .. } => offset,
            Entry::Child { offset, .. } => offset,
        }
    }
}

/// The mathematical value of a tree.
pub struct TreeView<T> {
    /// The full objects, in the order in which they were added.
    pub roots: Seq<ItemView<T>>,
    /// The deltas, in the order in which they were added.
    pub children: Seq<ItemView<T>>,
    /// The kind of the item that was added last.
    pub last_seen: Option<NodeKind>,
    /// The forward references: the offset of a base that was unknown when its
    /// dependent was added, and the index of that dependent among the children.
    pub pending: Seq<(u64, usize)>,
}

impl<T> TreeView<T> {
    /// The tree without items.
    pub open spec fn empty() -> TreeView<T> {
        TreeView {
            roots: Seq::empty(),
            children: Seq::empty(),
            last_seen: None,
            pending: Seq::empty(),
        }
    }

    /// The number of items.
    pub open spec fn num_items(self) -> nat {
        self.roots.len() + self.children.len()
    }

    /// Whether an item of the tree begins at `offset`.
    pub open spec fn knows(self, offset: u64) -> bool {
        has_offset(self.children, offset) || has_offset(self.roots, offset)
    }

    /// The offset of the item that was added last.
    pub open spec fn last_offset(self) -> Option<u64> {
        match self.last_seen {
            None => None,
            Some(NodeKind::Root) => Some(self.roots.last().offset),
            Some(NodeKind::Child) => Some(self.children.last().offset),
        }
    }

    /// Whether an item at `offset` may follow the items of the tree.
    pub open spec fn accepts(self, offset: u64) -> bool {
        match self.last_offset() {
            None => true,
            Some(last) => last < offset,
        }
    }

    /// The tree with the span of its last item closed at `offset`.
    pub open spec fn close_last(self, offset: u64) -> TreeView<T> {
        match self.last_seen {
            None => self,
            Some(NodeKind::Root) => TreeView {
                roots: self.roots.update(
                    self.roots.len() - 1,
                    self.roots.last().with_next_offset(offset),
                ),
                ..self
            },
            Some(NodeKind::Child) => TreeView {
                children: self.children.update(
                    self.children.len() - 1,
                    self.children.last().with_next_offset(offset),
                ),
                ..self
            },
        }
    }

    /// The tree in which the item at `base` has the child `child`; the tree itself
    /// where no item begins at `base`.
    pub open spec fn attach(self, base: u64, child: usize) -> TreeView<T> {
        if has_offset(self.children, base) {
            let at = position_of(self.children, base);
            TreeView {
                children: self.children.update(at, self.children[at].with_child(child as u32)),
                ..self
            }
        } else if has_offset(self.roots, base) {
            let at = position_of(self.roots, base);
            TreeView {
                roots: self.roots.update(at, self.roots[at].with_child(child as u32)),
                ..self
            }
        } else {
            self
        }
    }

    /// The tree in which `child` is recorded as based on `base`: with the item at
    /// `base` where there is one, else among the forward references.
    pub open spec fn link(self, base: u64, child: usize) -> TreeView<T> {
        if self.knows(base) {
            self.attach(base, child)
        } else {
            TreeView { pending: self.pending.push((base, child)), ..self }
        }
    }

    /// The tree after a full object at `offset` was added.
    pub open spec fn add_root(self, offset: u64, data: T) -> TreeView<T> {
        let closed = self.close_last(offset);
        TreeView {
            roots: closed.roots.push(
                ItemView { offset, next_offset: 0, data, children: Seq::empty() },
            ),
            last_seen: Some(NodeKind::Root),
            ..closed
        }
    }

    /// The tree after a delta at `offset` against the entry at `base` was added.
    pub open spec fn add_child(self, base: u64, offset: u64, data: T) -> TreeView<T> {
        let linked = self.close_last(offset).link(base, self.children.len() as usize);
        TreeView {
            children: linked.children.push(
                ItemView { offset, next_offset: 0, data, children: Seq::empty() },
            ),
            last_seen: Some(NodeKind::Child),
            ..linked
        }
    }

    /// The tree after `entry` was handed to it: with the entry where the tree
    /// accepts its offset, else unchanged.
    pub open spec fn after(self, entry: Entry<T>) -> TreeView<T> {
        if self.accepts(entry.offset()) {
            match entry {
                Entry::Root { offset, data } => self.add_root(offset, data),
                Entry::Child { base_offset, offset, data } => self.add_child(
                    base_offset,
                    offset,
                    data,
                ),
            }
        } else {
            self
        }
    }

    /// The tree after `entries` were handed to an empty tree, one after the other.
    pub open spec fn scanned(entries: Seq<Entry<T>>) -> TreeView<T>
        decreases entries.len(),
    {
        if entries.len() == 0 {
            TreeView::empty()
        } else {
            TreeView::scanned(entries.drop_last()).after(entries.last())
        }
    }

    /// The tree after the first `count` forward references were attached, in order.
    pub open spec fn resolve(self, count: nat) -> TreeView<T>
        decreases count,
    {
        if count == 0 {
            self
        } else {
            let entry = self.pending[count - 1];
            self.resolve((count - 1) as nat).attach(entry.0, entry.1)
        }
    }

    /// Whether the bases of the first `count` forward references are in the tree.
    pub open spec fn resolvable(self, count: nat) -> bool {
        forall|i: int| 0 <= i < count ==> self.knows(#[trigger] self.pending[i].0)
    }

    /// The position of the first forward reference whose base is not in the tree.
    pub open spec fn first_unresolvable(self) -> int {
        choose|i: int|
            0 <= i < self.pending.len() && !self.knows(#[trigger] self.pending[i].0)
                && self.resolvable(i as nat)
    }

    /// The tree after the first `count` forward references were attached, with the
    /// others still to come.
    pub open spec fn partly_resolved(self, count: nat) -> TreeView<T> {
        TreeView { pending: self.pending.skip(count as int), ..self.resolve(count) }
    }

    /// The tree without forward references.
    pub open spec fn without_pending(self) -> TreeView<T> {
        TreeView { pending: Seq::empty(), ..self }
    }

    /// The tree after its forward references were attached and its last span was
    /// closed at `pack_entries_end`.
    pub open spec fn sealed(self, pack_entries_end: u64) -> TreeView<T> {
        self.resolve(self.pending.len()).without_pending().close_last(pack_entries_end)
    }

    /// The tree as it is left when a forward reference cannot be attached: those
    /// before it are attached, and none is kept.
    pub open spec fn abandoned(self) -> TreeView<T> {
        self.resolve(self.first_unresolvable() as nat).without_pending()
    }

    /// Whether the tree records something at `slot`.
    pub open spec fn has_slot(self, slot: Slot) -> bool {
        match slot {
            Slot::OfRoot { item, at } => 0 <= item < self.roots.len() && 0 <= at
                < self.roots[item].children.len(),
            Slot::OfChild { item, at } => 0 <= item < self.children.len() && 0 <= at
                < self.children[item].children.len(),
            Slot::Pending { at } => 0 <= at < self.pending.len(),
        }
    }

    /// The index of a child item that the tree records at `slot`.
    pub open spec fn slot_value(self, slot: Slot) -> int {
        match slot {
            Slot::OfRoot { item, at } => self.roots[item].children[at] as int,
            Slot::OfChild { item, at } => self.children[item].children[at] as int,
            Slot::Pending { at } => self.pending[at].1 as int,
        }
    }

    /// Whether the offsets increase in the order in which the items were added.
    pub open spec fn ordered(self) -> bool {
        &&& strictly_increasing(self.roots)
        &&& strictly_increasing(self.children)
        &&& forall|i: int, j: int|
            0 <= i < self.roots.len() && 0 <= j < self.children.len()
                ==> self.roots[i].offset != self.children[j].offset
        &&& match self.last_seen {
            None => self.roots.len() == 0 && self.children.len() == 0,
            Some(NodeKind::Root) => self.roots.len() > 0 && forall|j: int|
                0 <= j < self.children.len() ==> self.children[j].offset
                    < self.roots.last().offset,
            Some(NodeKind::Child) => self.children.len() > 0 && forall|i: int|
                0 <= i < self.roots.len() ==> self.roots[i].offset
                    < self.children.last().offset,
        }
    }

    /// Whether every recorded index is the index of a child item.
    pub open spec fn in_bounds(self) -> bool {
        forall|slot: Slot| #[trigger]
            self.has_slot(slot) ==> 0 <= self.slot_value(slot) < self.children.len()
    }

    /// Whether no index of a child item is recorded twice.
    pub open spec fn exclusive(self) -> bool {
        forall|a: Slot, b: Slot|
            #[trigger] self.has_slot(a) && #[trigger] self.has_slot(b) && self.slot_value(a)
                == self.slot_value(b) ==> a == b
    }

    /// Whether the index `child` is recorded somewhere.
    pub open spec fn records(self, child: int) -> bool {
        exists|slot: Slot| #[trigger] self.has_slot(slot) && self.slot_value(slot) == child
    }

    /// Whether the index `child` stands in the list of children of some item.
    pub open spec fn has_parent(self, child: int) -> bool {
        exists|slot: Slot|
            !(slot is Pending) && #[trigger] self.has_slot(slot) && self.slot_value(slot)
                == child
    }

    /// Whether the index of every child item is recorded.
    pub open spec fn complete(self) -> bool {
        forall|child: int| 0 <= child < self.children.len() ==> #[trigger] self.records(child)
    }

    /// Whether the entry at `next` is the one that follows the entry at `offset`:
    /// the tree holds an item at `next`, behind `offset`, and none between the two.
    pub open spec fn follows(self, offset: u64, next: u64) -> bool {
        &&& offset < next
        &&& self.knows(next)
        &&& forall|between: u64| offset < between < next ==> !#[trigger] self.knows(between)
    }

    /// Whether the span of `item` is as it should be: closed where the next entry
    /// begins, and at `end` where `item` was added last.
    pub open spec fn span_is_set(self, item: ItemView<T>, end: u64) -> bool {
        if self.last_offset() == Some(item.offset) {
            item.next_offset == end
        } else {
            self.follows(item.offset, item.next_offset)
        }
    }

    /// Whether the span of every item but the last is closed where the next entry
    /// begins, and the span of the last at `end`.
    pub open spec fn contiguous_until(self, end: u64) -> bool {
        &&& forall|i: int|
            0 <= i < self.roots.len() ==> self.span_is_set(#[trigger] self.roots[i], end)
        &&& forall|j: int|
            0 <= j < self.children.len() ==> self.span_is_set(#[trigger] self.children[j], end)
    }

    /// Whether the span of every item but the last is closed where the next entry
    /// begins, and the span of the last is open, which 0 stands for.
    pub open spec fn contiguous(self) -> bool {
        self.contiguous_until(0)
    }

    /// Whether the tree is well formed: offsets increase, every recorded index is in
    /// bounds and none is recorded twice, and an index fits in 32 bits.
    pub open spec fn wf(self) -> bool {
        &&& self.ordered()
        &&& self.in_bounds()
        &&& self.exclusive()
        &&& self.children.len() <= 0x1_0000_0000
    }
}

} // verus!
