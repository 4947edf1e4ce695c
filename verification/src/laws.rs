//! What holds of every tree, however it was built.

use vstd::prelude::*;
use crate::invariants::{add_child_preserves, add_root_preserves, sealed_preserves};
use crate::model::{Entry, Slot, TreeView};
use crate::spans::{after_keeps_contiguous, sealed_is_contiguous};

verus! {

/// Handing an entry to a well-formed tree keeps it well formed and complete. Where
/// the entry is accepted, it is the last item and the tree knows its offset, and
/// whatever the tree knew or had recorded as a forward reference, it keeps.
pub proof fn after_preserves<T>(v: TreeView<T>, entry: Entry<T>)
    requires
        v.wf(),
        v.children.len() < 0x1_0000_0000,
    ensures
        v.after(entry).wf(),
        v.complete() ==> v.after(entry).complete(),
        v.accepts(entry.offset()) ==> v.after(entry).last_offset() == Some(entry.offset()),
        v.after(entry).children.len() <= v.children.len() + 1,
        forall|known: u64| v.knows(known) ==> #[trigger] v.after(entry).knows(known),
        forall|known: u64| #[trigger]
            v.after(entry).knows(known) ==> v.knows(known) || known == entry.offset(),
        v.pending.is_prefix_of(v.after(entry).pending),
{
    if v.accepts(entry.offset()) {
        match entry {
            Entry::Root { offset, data } => {
                add_root_preserves(v, offset, data);
            },
            Entry::Child { base_offset, offset, data } => {
                add_child_preserves(v, base_offset, offset, data);
            },
        }
    }
}

/// Whatever is handed to an empty tree, one entry after the other, the tree is
/// well formed, complete and contiguous: offsets increase, every recorded index is
/// the index of a child item, the index of every child item is recorded at exactly
/// one place, and the span of every item but the last ends where the next begins.
pub proof fn scanned_is_well_formed<T>(entries: Seq<Entry<T>>)
    requires
        entries.len() <= 0x1_0000_0000,
    ensures
        TreeView::scanned(entries).wf(),
        TreeView::scanned(entries).complete(),
        TreeView::scanned(entries).contiguous(),
        TreeView::scanned(entries).children.len() <= entries.len(),
    decreases entries.len(),
{
    if entries.len() > 0 {
        scanned_is_well_formed(entries.drop_last());
        after_preserves(TreeView::scanned(entries.drop_last()), entries.last());
        after_keeps_contiguous(TreeView::scanned(entries.drop_last()), entries.last());
    }
}

/// After the entries of a pack were handed to an empty tree and the tree was
/// sealed with success, every span is closed: where the next entry begins, and
/// that of the last entry at the end of the entries.
pub proof fn sealed_scan_is_contiguous<T>(entries: Seq<Entry<T>>, pack_entries_end: u64)
    requires
        entries.len() <= 0x1_0000_0000,
        TreeView::scanned(entries).resolvable(TreeView::scanned(entries).pending.len()),
    ensures
        TreeView::scanned(entries).sealed(pack_entries_end).contiguous_until(pack_entries_end),
        TreeView::scanned(entries).sealed(pack_entries_end).wf(),
        TreeView::scanned(entries).sealed(pack_entries_end).complete(),
{
    scanned_is_well_formed(entries);
    sealed_is_contiguous(TreeView::scanned(entries), pack_entries_end);
    sealed_preserves(TreeView::scanned(entries), pack_entries_end);
}

/// Of two calls that follow each other, the second is refused where its offset is
/// not larger than that of the first, and it leaves the tree as the first left it.
pub proof fn non_increasing_offset_is_refused<T>(
    v: TreeView<T>,
    first: Entry<T>,
    second: Entry<T>,
)
    requires
        v.wf(),
        v.children.len() < 0x1_0000_0000,
        second.offset() <= first.offset(),
    ensures
        !v.after(first).accepts(second.offset()),
        v.after(first).after(second) == v.after(first),
        v.after(first).last_offset() is Some,
        v.after(first).last_offset().unwrap() >= first.offset(),
{
    after_preserves(v, first);
}

/// Every index in a list of children is the index of a child item.
pub proof fn children_are_in_bounds<T>(v: TreeView<T>)
    requires
        v.wf(),
    ensures
        forall|item: int, at: int|
            0 <= item < v.roots.len() && 0 <= at < v.roots[item].children.len() ==> (
            #[trigger] v.roots[item].children[at]) < v.children.len(),
        forall|item: int, at: int|
            0 <= item < v.children.len() && 0 <= at < v.children[item].children.len() ==> (
            #[trigger] v.children[item].children[at]) < v.children.len(),
        forall|at: int| 0 <= at < v.pending.len() ==> (#[trigger] v.pending[at]).1 < v.children.len(),
{
    assert forall|item: int, at: int|
        0 <= item < v.roots.len() && 0 <= at < v.roots[item].children.len() implies (
    #[trigger] v.roots[item].children[at]) < v.children.len() by {
        assert(v.has_slot(Slot::OfRoot { item, at }));
    }
    assert forall|item: int, at: int|
        0 <= item < v.children.len() && 0 <= at < v.children[item].children.len() implies (
    #[trigger] v.children[item].children[at]) < v.children.len() by {
        assert(v.has_slot(Slot::OfChild { item, at }));
    }
    assert forall|at: int| 0 <= at < v.pending.len() implies (#[trigger] v.pending[at]).1
        < v.children.len() by {
        assert(v.has_slot(Slot::Pending { at }));
    }
}

/// After a tree was sealed with success, no forward reference is left, and the
/// index of every child item stands in exactly one place of exactly one list of
/// children.
pub proof fn sealed_is_exclusive<T>(v: TreeView<T>, pack_entries_end: u64)
    requires
        v.wf(),
        v.complete(),
        v.resolvable(v.pending.len()),
    ensures
        v.sealed(pack_entries_end).pending.len() == 0,
        forall|child: int|
            0 <= child < v.sealed(pack_entries_end).children.len() ==> #[trigger] v.sealed(
                pack_entries_end,
            ).has_parent(child),
        forall|a: Slot, b: Slot|
            #[trigger] v.sealed(pack_entries_end).has_slot(a) && #[trigger] v.sealed(
                pack_entries_end,
            ).has_slot(b) && v.sealed(pack_entries_end).slot_value(a) == v.sealed(
                pack_entries_end,
            ).slot_value(b) ==> a == b,
{
    let s = v.sealed(pack_entries_end);
    sealed_preserves(v, pack_entries_end);
    assert forall|child: int| 0 <= child < s.children.len() implies #[trigger] s.has_parent(
        child,
    ) by {
        assert(s.records(child));
        let slot = choose|slot: Slot| #[trigger] s.has_slot(slot) && s.slot_value(slot) == child;
        assert(!(slot is Pending) && s.has_slot(slot) && s.slot_value(slot) == child);
    }
}

/// After the entries of a pack were handed to an empty tree and the tree was
/// sealed with success, no forward reference is left, and the index of every
/// child item stands in exactly one place of exactly one list of children.
pub proof fn sealed_scan_is_exclusive<T>(entries: Seq<Entry<T>>, pack_entries_end: u64)
    requires
        entries.len() <= 0x1_0000_0000,
        TreeView::scanned(entries).resolvable(TreeView::scanned(entries).pending.len()),
    ensures
        TreeView::scanned(entries).sealed(pack_entries_end).pending.len() == 0,
        forall|child: int|
            0 <= child < TreeView::scanned(entries).sealed(pack_entries_end).children.len()
                ==> #[trigger] TreeView::scanned(entries).sealed(pack_entries_end).has_parent(
                child,
            ),
        TreeView::scanned(entries).sealed(pack_entries_end).exclusive(),
{
    scanned_is_well_formed(entries);
    sealed_is_exclusive(TreeView::scanned(entries), pack_entries_end);
    sealed_preserves(TreeView::scanned(entries), pack_entries_end);
}

/// A delta that was accepted with a base offset at which the tree holds no item
/// stands among the forward references with that offset.
#[verifier::rlimit(40)]
pub proof fn unknown_base_is_pending<T>(entries: Seq<Entry<T>>, at: int)
    requires
        entries.len() <= 0x1_0000_0000,
        0 <= at < entries.len(),
        entries[at] is Child,
        TreeView::scanned(entries.take(at)).accepts(entries[at].offset()),
        !TreeView::scanned(entries).knows(entries[at]->base_offset),
    ensures
        exists|p: int|
            0 <= p < TreeView::scanned(entries).pending.len() && (#[trigger] TreeView::scanned(
                entries,
            ).pending[p]).0 == entries[at]->base_offset,
    decreases entries.len(),
{
    let base = entries[at]->base_offset;
    let before = TreeView::scanned(entries.drop_last());
    let tree = TreeView::scanned(entries);
    scanned_is_well_formed(entries.drop_last());
    after_preserves(before, entries.last());
    assert(!before.knows(base));
    if at == entries.len() - 1 {
        assert(entries.take(at) =~= entries.drop_last());
        match entries.last() {
            Entry::Child { base_offset, offset, data } => {
                add_child_preserves(before, base_offset, offset, data);
                let p = before.pending.len() as int;
                assert(tree.pending[p].0 == base);
            },
            _ => {},
        }
    } else {
        assert(entries.drop_last().take(at) =~= entries.take(at));
        unknown_base_is_pending(entries.drop_last(), at);
        let p = choose|p: int|
            0 <= p < before.pending.len() && (#[trigger] before.pending[p]).0 == base;
        assert(tree.pending[p] == before.pending[p]);
    }
}

/// A delta that was accepted with a base offset at which no entry was added makes
/// sealing fail: the pack is thin.
pub proof fn thin_pack_is_detected<T>(entries: Seq<Entry<T>>, at: int)
    requires
        entries.len() <= 0x1_0000_0000,
        0 <= at < entries.len(),
        entries[at] is Child,
        TreeView::scanned(entries.take(at)).accepts(entries[at].offset()),
        !TreeView::scanned(entries).knows(entries[at]->base_offset),
    ensures
        !TreeView::scanned(entries).resolvable(TreeView::scanned(entries).pending.len()),
{
    unknown_base_is_pending(entries, at);
    let tree = TreeView::scanned(entries);
    let p = choose|p: int|
        0 <= p < tree.pending.len() && (#[trigger] tree.pending[p]).0 == entries[at]->base_offset;
    assert(!tree.knows(tree.pending[p].0));
}

} // verus!
