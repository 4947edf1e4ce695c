//! The tree of pack entries, built in one pass over the pack.

use vstd::prelude::*;
use crate::error::Error;
use crate::invariants::{
    abandoned_preserves, add_child_preserves, add_root_preserves, close_last_keeps,
    first_unresolvable_is, partly_resolved_preserves, resolve_keeps, same_children_slots,
    sealed_preserves,
};
use crate::item::{
    attach_child, close_last_span, find_by_offset, last_offset, push_item, views, Item,
};
use crate::model::{Entry, NodeKind, Slot, TreeView};
use crate::spans::{add_child_keeps_contiguous, add_root_keeps_contiguous, sealed_is_contiguous};

verus! {

/// The entries of a pack, each either a full object or a delta against another
/// entry, with the indices of its dependents recorded at each base.
pub struct Tree<T> {
    /// The full objects.
    root_items: Vec<Item<T>>,
    /// The deltas.
    child_items: Vec<Item<T>>,
    /// The kind of the item that was added last.
    last_seen: Option<NodeKind>,
    /// For each delta whose base was unknown when it was added: the offset of the
    /// base, and the index of the delta among the child items.
    future_child_offsets: Vec<(u64, usize)>,
}

impl<T> View for Tree<T> {
    type V = TreeView<T>;

    closed spec fn view(&self) -> TreeView<T> {
        TreeView {
            roots: views(self.root_items@),
            children: views(self.child_items@),
            last_seen: self.last_seen,
            pending: self.future_child_offsets@,
        }
    }
}

impl<T> Tree<T> {
    /// Whether the tree is well formed.
    pub open spec fn wf(&self) -> bool {
        self@.wf()
    }

    /// An empty tree with room for `num_objects` items, half of them full objects.
    pub fn with_capacity(num_objects: usize) -> (made: Result<Self, Error>)
        ensures
            made is Ok,
            made.unwrap()@ == TreeView::<T>::empty(),
            made.unwrap().wf(),
            made.unwrap()@.complete(),
            made.unwrap()@.contiguous(),
    {
        let tree = Tree {
            root_items: Vec::with_capacity(num_objects / 2),
            child_items: Vec::with_capacity(num_objects / 2),
            last_seen: None,
            future_child_offsets: Vec::new(),
        };
        proof {
            assert(tree@.roots =~= Seq::empty());
            assert(tree@.children =~= Seq::empty());
            assert(tree@.pending =~= Seq::empty());
        }
        Ok(tree)
    }

    /// The number of items in the tree.
    pub fn num_items(&self) -> (count: usize)
        requires
            self@.num_items() <= usize::MAX,
        ensures
            count == self@.num_items(),
    {
        self.root_items.len() + self.child_items.len()
    }

    /// The full objects and the deltas of the tree, as they stood in it.
    pub fn take_root_and_child(self) -> (parts: (Vec<Item<T>>, Vec<Item<T>>))
        ensures
            views(parts.0@) == self@.roots,
            views(parts.1@) == self@.children,
    {
        (self.root_items, self.child_items)
    }

    /// Checks that `offset` lies behind the item that was added last, and closes the
    /// span of that item at `offset`.
    pub fn assert_is_incrementing_and_update_next_offset(&mut self, offset: u64) -> (checked:
        Result<(), Error>)
        requires
            old(self)@.ordered(),
        ensures
            old(self).wf() ==> final(self).wf(),
            old(self)@.complete() ==> final(self)@.complete(),
            checked is Ok <==> old(self)@.accepts(offset),
            checked is Ok ==> final(self)@ == old(self)@.close_last(offset),
            checked is Err ==> final(self)@ == old(self)@ && checked == Err::<(), Error>(
                Error::NonMonotonicOffset {
                    last_pack_offset: old(self)@.last_offset().unwrap(),
                    pack_offset: offset,
                },
            ),
    {
        proof {
            close_last_keeps(self@, offset);
            same_children_slots(self@, self@.close_last(offset));
        }
        match self.last_seen {
            None => Ok(()),
            Some(NodeKind::Root) => {
                let last: u64 = last_offset(&self.root_items);
                if offset <= last {
                    return Err(
                        Error::NonMonotonicOffset { last_pack_offset: last, pack_offset: offset },
                    );
                }
                close_last_span(&mut self.root_items, offset);
                Ok(())
            },
            Some(NodeKind::Child) => {
                let last: u64 = last_offset(&self.child_items);
                if offset <= last {
                    return Err(
                        Error::NonMonotonicOffset { last_pack_offset: last, pack_offset: offset },
                    );
                }
                close_last_span(&mut self.child_items, offset);
                Ok(())
            },
        }
    }

    /// Adds a full object that begins at `offset`, with `data`.
    ///
    /// Fails, and changes nothing, unless `offset` lies behind the item that was
    /// added last.
    pub fn add_root(&mut self, offset: u64, data: T) -> (added: Result<(), Error>)
        requires
            old(self).wf(),
        ensures
            final(self).wf(),
            old(self)@.complete() ==> final(self)@.complete(),
            old(self)@.contiguous() ==> final(self)@.contiguous(),
            added is Ok <==> old(self)@.accepts(offset),
            final(self)@ == old(self)@.after(Entry::Root { offset, data }),
            added is Ok ==> final(self)@ == old(self)@.add_root(offset, data),
            added is Err ==> final(self)@ == old(self)@ && added == Err::<(), Error>(
                Error::NonMonotonicOffset {
                    last_pack_offset: old(self)@.last_offset().unwrap(),
                    pack_offset: offset,
                },
            ),
    {
        match self.assert_is_incrementing_and_update_next_offset(offset) {
            Ok(()) => {},
            Err(e) => {
                return Err(e);
            },
        }
        self.last_seen = Some(NodeKind::Root);
        push_item(&mut self.root_items, Item::new(offset, data));
        proof {
            add_root_preserves(old(self)@, offset, data);
            if old(self)@.contiguous() {
                add_root_keeps_contiguous(old(self)@, offset, data);
            }
        }
        Ok(())
    }

    /// Adds a delta that begins at `offset`, with `data`, against the entry that
    /// begins at `base_offset`.
    ///
    /// The delta is recorded with its base where the tree holds an item at
    /// `base_offset`, else among the forward references. Fails, and changes
    /// nothing, unless `offset` lies behind the item that was added last.
    #[verifier::rlimit(40)]
    pub fn add_child(&mut self, base_offset: u64, offset: u64, data: T) -> (added: Result<
        (),
        Error,
    >)
        requires
            old(self).wf(),
            old(self)@.children.len() < 0x1_0000_0000,
        ensures
            final(self).wf(),
            old(self)@.complete() ==> final(self)@.complete(),
            old(self)@.contiguous() ==> final(self)@.contiguous(),
            added is Ok <==> old(self)@.accepts(offset),
            final(self)@ == old(self)@.after(Entry::Child { base_offset, offset, data }),
            added is Ok ==> final(self)@ == old(self)@.add_child(base_offset, offset, data),
            added is Err ==> final(self)@ == old(self)@ && added == Err::<(), Error>(
                Error::NonMonotonicOffset {
                    last_pack_offset: old(self)@.last_offset().unwrap(),
                    pack_offset: offset,
                },
            ),
    {
        match self.assert_is_incrementing_and_update_next_offset(offset) {
            Ok(()) => {},
            Err(e) => {
                return Err(e);
            },
        }
        proof {
            close_last_keeps(old(self)@, offset);
        }
        let next_child_index: usize = self.child_items.len();
        if let Some(i) = find_by_offset(&self.child_items, base_offset) {
            attach_child(&mut self.child_items, i, next_child_index as u32);
        } else if let Some(i) = find_by_offset(&self.root_items, base_offset) {
            attach_child(&mut self.root_items, i, next_child_index as u32);
        } else {
            self.future_child_offsets.push((base_offset, next_child_index));
        }
        self.last_seen = Some(NodeKind::Child);
        push_item(&mut self.child_items, Item::new(offset, data));
        proof {
            add_child_preserves(old(self)@, base_offset, offset, data);
            if old(self)@.contiguous() {
                add_child_keeps_contiguous(old(self)@, base_offset, offset, data);
            }
        }
        Ok(())
    }

    /// Seals the tree: attaches each forward reference to its base, in the order in
    /// which they were recorded, and closes the span of the last item at
    /// `pack_entries_end`, the offset behind the last entry of the pack.
    ///
    /// Fails at the first forward reference whose base the tree does not hold. The
    /// references before it are then attached, no reference is kept, and the last
    /// span stays open.
    #[verifier::rlimit(40)]
    pub fn set_pack_entries_end_and_resolve_ref_offsets(&mut self, pack_entries_end: u64) -> (sealed:
        Result<(), Error>)
        requires
            old(self).wf(),
            old(self)@.resolvable(old(self)@.pending.len()) ==> old(self)@.accepts(
                pack_entries_end,
            ),
        ensures
            final(self).wf(),
            final(self)@.pending.len() == 0,
            sealed is Ok <==> old(self)@.resolvable(old(self)@.pending.len()),
            sealed is Ok ==> final(self)@ == old(self)@.sealed(pack_entries_end),
            sealed is Ok && old(self)@.complete() ==> final(self)@.complete(),
            sealed is Ok && old(self)@.contiguous() ==> final(self)@.contiguous_until(
                pack_entries_end,
            ),
            sealed is Err ==> final(self)@ == old(self)@.abandoned() && sealed == Err::<(), Error>(
                Error::OutOfPackRefDelta {
                    base_pack_offset: old(self)@.pending[old(self)@.first_unresolvable()].0,
                },
            ),
    {
        let count: usize = self.future_child_offsets.len();
        let mut at: usize = 0;
        while at < count
            invariant
                old(self)@.wf(),
                count == old(self)@.pending.len(),
                at <= count,
                old(self)@.resolvable(at as nat),
                self@ == old(self)@.resolve(at as nat),
                self@.pending == old(self)@.pending,
            decreases count - at,
        {
            let (parent_offset, child_index): (u64, usize) = self.future_child_offsets[at];
            proof {
                resolve_keeps(old(self)@, at as nat);
                partly_resolved_preserves(old(self)@, at as nat);
                let rest = old(self)@.partly_resolved(at as nat);
                let first = Slot::Pending { at: 0 };
                assert(rest.pending[0] == old(self)@.pending[at as int]);
                assert(rest.has_slot(first) && rest.slot_value(first) == child_index);
                assert(old(self)@.knows(parent_offset) == self@.knows(parent_offset));
            }
            if let Some(i) = find_by_offset(&self.child_items, parent_offset) {
                attach_child(&mut self.child_items, i, child_index as u32);
            } else if let Some(i) = find_by_offset(&self.root_items, parent_offset) {
                attach_child(&mut self.root_items, i, child_index as u32);
            } else {
                self.future_child_offsets.clear();
                proof {
                    assert(!old(self)@.knows(old(self)@.pending[at as int].0));
                    first_unresolvable_is(old(self)@, at as int);
                    abandoned_preserves(old(self)@);
                    assert(self@.pending =~= Seq::empty());
                }
                return Err(Error::OutOfPackRefDelta { base_pack_offset: parent_offset });
            }
            proof {
                resolve_keeps(old(self)@, (at + 1) as nat);
            }
            at += 1;
        }
        self.future_child_offsets.clear();
        proof {
            resolve_keeps(old(self)@, count as nat);
            sealed_preserves(old(self)@, pack_entries_end);
            if old(self)@.contiguous() {
                sealed_is_contiguous(old(self)@, pack_entries_end);
            }
            assert(self@.pending =~= Seq::empty());
            assert(self@ == old(self)@.resolve(count as nat).without_pending());
        }
        let closed = self.assert_is_incrementing_and_update_next_offset(pack_entries_end);
        assert(closed is Ok);
        closed
    }
}

} // verus!
