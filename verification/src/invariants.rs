//! What the transitions of the model preserve.

use vstd::prelude::*;
use crate::item::{has_offset, position_of, strictly_increasing, ItemView};
use crate::model::{NodeKind, Slot, TreeView};

verus! {

/// Whether two sequences of items have the same offsets at the same positions.
pub open spec fn same_offsets<T>(a: Seq<ItemView<T>>, b: Seq<ItemView<T>>) -> bool {
    &&& a.len() == b.len()
    &&& forall|i: int| 0 <= i < a.len() ==> #[trigger] a[i].offset == b[i].offset
}

/// Whether two sequences of items have the same children at the same positions.
pub open spec fn same_children<T>(a: Seq<ItemView<T>>, b: Seq<ItemView<T>>) -> bool {
    &&& a.len() == b.len()
    &&& forall|i: int| 0 <= i < a.len() ==> #[trigger] a[i].children == b[i].children
}

/// Sequences with the same offsets hold the same offsets.
pub proof fn same_offsets_has_offset<T>(a: Seq<ItemView<T>>, b: Seq<ItemView<T>>, offset: u64)
    requires
        same_offsets(a, b),
    ensures
        has_offset(a, offset) == has_offset(b, offset),
        strictly_increasing(a) == strictly_increasing(b),
{
    if has_offset(a, offset) {
        let i = position_of(a, offset);
        assert(b[i].offset == a[i].offset);
    }
    if has_offset(b, offset) {
        let i = position_of(b, offset);
        assert(a[i].offset == b[i].offset);
    }
    if strictly_increasing(a) {
        assert forall|i: int, j: int| 0 <= i < j < b.len() implies b[i].offset < b[j].offset by {
            assert(a[i].offset == b[i].offset);
            assert(a[j].offset == b[j].offset);
        }
    }
    if strictly_increasing(b) {
        assert forall|i: int, j: int| 0 <= i < j < a.len() implies a[i].offset < a[j].offset by {
            assert(a[i].offset == b[i].offset);
            assert(a[j].offset == b[j].offset);
        }
    }
}

/// Whether two trees have the same items at the same offsets, the same kind of
/// last item and the same order of offsets.
pub open spec fn same_skeleton<T>(a: TreeView<T>, b: TreeView<T>) -> bool {
    &&& same_offsets(a.roots, b.roots)
    &&& same_offsets(a.children, b.children)
    &&& a.last_seen == b.last_seen
}

/// Trees with the same skeleton know the same offsets and are ordered alike.
pub proof fn same_skeleton_ordered<T>(a: TreeView<T>, b: TreeView<T>)
    requires
        same_skeleton(a, b),
        a.ordered(),
    ensures
        b.ordered(),
        a.last_offset() == b.last_offset(),
        forall|offset: u64| a.knows(offset) == #[trigger] b.knows(offset),
        forall|offset: u64| a.accepts(offset) == #[trigger] b.accepts(offset),
{
    same_offsets_has_offset(a.roots, b.roots, 0);
    same_offsets_has_offset(a.children, b.children, 0);
    assert forall|i: int, j: int|
        0 <= i < b.roots.len() && 0 <= j < b.children.len() implies b.roots[i].offset
        != b.children[j].offset by {
        assert(a.roots[i].offset == b.roots[i].offset);
        assert(a.children[j].offset == b.children[j].offset);
    }
    match a.last_seen {
        None => {},
        Some(NodeKind::Root) => {
            let last = a.roots.len() - 1;
            assert(a.roots[last].offset == b.roots[last].offset);
            assert forall|j: int| 0 <= j < b.children.len() implies b.children[j].offset
                < b.roots.last().offset by {
                assert(a.children[j].offset == b.children[j].offset);
            }
        },
        Some(NodeKind::Child) => {
            let last = a.children.len() - 1;
            assert(a.children[last].offset == b.children[last].offset);
            assert forall|i: int| 0 <= i < b.roots.len() implies b.roots[i].offset
                < b.children.last().offset by {
                assert(a.roots[i].offset == b.roots[i].offset);
            }
        },
    }
    assert forall|offset: u64| a.knows(offset) == #[trigger] b.knows(offset) by {
        same_offsets_has_offset(a.roots, b.roots, offset);
        same_offsets_has_offset(a.children, b.children, offset);
    }
}

/// Closing the last span changes neither the skeleton nor what is recorded.
pub proof fn close_last_keeps<T>(v: TreeView<T>, offset: u64)
    requires
        v.ordered(),
    ensures
        same_skeleton(v, v.close_last(offset)),
        same_children(v.roots, v.close_last(offset).roots),
        same_children(v.children, v.close_last(offset).children),
        v.close_last(offset).pending == v.pending,
        v.close_last(offset).ordered(),
{
    let c = v.close_last(offset);
    same_skeleton_ordered(v, c);
}

/// Trees with the same children and forward references record the same.
pub proof fn same_children_slots<T>(a: TreeView<T>, b: TreeView<T>)
    requires
        same_children(a.roots, b.roots),
        same_children(a.children, b.children),
        a.pending == b.pending,
    ensures
        forall|slot: Slot| a.has_slot(slot) == #[trigger] b.has_slot(slot),
        forall|slot: Slot| a.has_slot(slot) ==> a.slot_value(slot) == #[trigger] b.slot_value(slot),
        a.in_bounds() == b.in_bounds(),
        a.exclusive() == b.exclusive(),
        a.complete() == b.complete(),
{
    assert forall|slot: Slot| a.has_slot(slot) == #[trigger] b.has_slot(slot) by {
        match slot {
            Slot::OfRoot { item, at } => {
                if 0 <= item < a.roots.len() {
                    assert(a.roots[item].children == b.roots[item].children);
                }
            },
            Slot::OfChild { item, at } => {
                if 0 <= item < a.children.len() {
                    assert(a.children[item].children == b.children[item].children);
                }
            },
            Slot::Pending { at } => {},
        }
    }
    assert forall|slot: Slot| a.has_slot(slot) implies a.slot_value(slot)
        == #[trigger] b.slot_value(slot) by {
        match slot {
            Slot::OfRoot { item, at } => {
                assert(a.roots[item].children == b.roots[item].children);
            },
            Slot::OfChild { item, at } => {
                assert(a.children[item].children == b.children[item].children);
            },
            Slot::Pending { at } => {},
        }
    }
    slots_decide(a, b);
}

/// Trees that record the same at the same slots, with as many child items, meet
/// the same conditions on what is recorded.
#[verifier::rlimit(40)]
pub proof fn slots_decide<T>(a: TreeView<T>, b: TreeView<T>)
    requires
        a.children.len() == b.children.len(),
        forall|slot: Slot| a.has_slot(slot) == #[trigger] b.has_slot(slot),
        forall|slot: Slot| a.has_slot(slot) ==> a.slot_value(slot) == #[trigger] b.slot_value(slot),
    ensures
        a.in_bounds() == b.in_bounds(),
        a.exclusive() == b.exclusive(),
        a.complete() == b.complete(),
{
    if a.in_bounds() {
        assert forall|slot: Slot| #[trigger] b.has_slot(slot) implies 0 <= b.slot_value(slot)
            < b.children.len() by {
            assert(a.has_slot(slot));
        }
    }
    if b.in_bounds() {
        assert forall|slot: Slot| #[trigger] a.has_slot(slot) implies 0 <= a.slot_value(slot)
            < a.children.len() by {
            assert(b.has_slot(slot));
            assert(a.slot_value(slot) == b.slot_value(slot));
        }
    }
    if a.exclusive() {
        assert forall|x: Slot, y: Slot|
            #[trigger] b.has_slot(x) && #[trigger] b.has_slot(y) && b.slot_value(x)
                == b.slot_value(y) implies x == y by {
            assert(a.has_slot(x) && a.has_slot(y));
            assert(a.slot_value(x) == b.slot_value(x));
            assert(a.slot_value(y) == b.slot_value(y));
        }
    }
    if b.exclusive() {
        assert forall|x: Slot, y: Slot|
            #[trigger] a.has_slot(x) && #[trigger] a.has_slot(y) && a.slot_value(x)
                == a.slot_value(y) implies x == y by {
            assert(b.has_slot(x) && b.has_slot(y));
            assert(a.slot_value(x) == b.slot_value(x));
            assert(a.slot_value(y) == b.slot_value(y));
        }
    }
    if a.complete() {
        assert forall|child: int| 0 <= child < b.children.len() implies #[trigger] b.records(
            child,
        ) by {
            assert(a.records(child));
            let slot = choose|slot: Slot| #[trigger]
                a.has_slot(slot) && a.slot_value(slot) == child;
            assert(b.has_slot(slot) && b.slot_value(slot) == child);
        }
    }
    if b.complete() {
        assert forall|child: int| 0 <= child < a.children.len() implies #[trigger] a.records(
            child,
        ) by {
            assert(b.records(child));
            let slot = choose|slot: Slot| #[trigger]
                b.has_slot(slot) && b.slot_value(slot) == child;
            assert(a.has_slot(slot) && a.slot_value(slot) == child);
        }
    }
}

/// Attaching a child to a known base fills one more slot, in a list of children,
/// with the index of that child, and changes nothing else that is recorded.
#[verifier::rlimit(40)]
pub proof fn attach_fills_one_slot<T>(v: TreeView<T>, base: u64, child: usize) -> (fresh: Slot)
    requires
        v.ordered(),
        v.knows(base),
    ensures
        same_skeleton(v, v.attach(base, child)),
        v.attach(base, child).pending == v.pending,
        !(fresh is Pending),
        !v.has_slot(fresh),
        v.attach(base, child).has_slot(fresh),
        v.attach(base, child).slot_value(fresh) == (child as u32) as int,
        forall|slot: Slot| #[trigger]
            v.attach(base, child).has_slot(slot) <==> (v.has_slot(slot) || slot == fresh),
        forall|slot: Slot|
            v.has_slot(slot) ==> #[trigger] v.attach(base, child).slot_value(slot)
                == v.slot_value(slot),
{
    let t = v.attach(base, child);
    if has_offset(v.children, base) {
        let p = position_of(v.children, base);
        let fresh = Slot::OfChild { item: p, at: v.children[p].children.len() as int };
        assert forall|i: int| 0 <= i < v.children.len() implies #[trigger] v.children[i].offset
            == t.children[i].offset by {}
        assert forall|slot: Slot| #[trigger]
            t.has_slot(slot) <==> (v.has_slot(slot) || slot == fresh) by {
            match slot {
                Slot::OfChild { item, at } => {
                    if 0 <= item < v.children.len() && item != p {
                        assert(t.children[item] == v.children[item]);
                    }
                },
                _ => {},
            }
        }
        assert forall|slot: Slot| v.has_slot(slot) implies #[trigger] t.slot_value(slot)
            == v.slot_value(slot) by {
            match slot {
                Slot::OfChild { item, at } => {
                    if item != p {
                        assert(t.children[item] == v.children[item]);
                    }
                },
                _ => {},
            }
        }
        fresh
    } else {
        let p = position_of(v.roots, base);
        let fresh = Slot::OfRoot { item: p, at: v.roots[p].children.len() as int };
        assert forall|i: int| 0 <= i < v.roots.len() implies #[trigger] v.roots[i].offset
            == t.roots[i].offset by {}
        assert forall|slot: Slot| #[trigger]
            t.has_slot(slot) <==> (v.has_slot(slot) || slot == fresh) by {
            match slot {
                Slot::OfRoot { item, at } => {
                    if 0 <= item < v.roots.len() && item != p {
                        assert(t.roots[item] == v.roots[item]);
                    }
                },
                _ => {},
            }
        }
        assert forall|slot: Slot| v.has_slot(slot) implies #[trigger] t.slot_value(slot)
            == v.slot_value(slot) by {
            match slot {
                Slot::OfRoot { item, at } => {
                    if item != p {
                        assert(t.roots[item] == v.roots[item]);
                    }
                },
                _ => {},
            }
        }
        fresh
    }
}

/// Adding a full object keeps the tree well formed, and complete where it was.
#[verifier::rlimit(40)]
pub proof fn add_root_preserves<T>(v: TreeView<T>, offset: u64, data: T)
    requires
        v.wf(),
        v.accepts(offset),
    ensures
        v.add_root(offset, data).wf(),
        v.complete() ==> v.add_root(offset, data).complete(),
        v.add_root(offset, data).last_offset() == Some(offset),
        v.add_root(offset, data).pending == v.pending,
        forall|known: u64| #[trigger]
            v.add_root(offset, data).knows(known) <==> (v.knows(known) || known == offset),
{
    let c = v.close_last(offset);
    let r = v.add_root(offset, data);
    close_last_keeps(v, offset);
    same_children_slots(v, c);
    assert forall|i: int| 0 <= i < c.roots.len() implies #[trigger] r.roots[i] == c.roots[i] by {}
    assert forall|i: int| 0 <= i < c.roots.len() implies c.roots[i].offset < offset by {
        assert(c.roots[i].offset == v.roots[i].offset);
        match v.last_seen {
            Some(NodeKind::Root) => {
                assert(v.roots[i].offset <= v.roots.last().offset);
            },
            _ => {},
        }
    }
    assert forall|j: int| 0 <= j < c.children.len() implies c.children[j].offset < offset by {
        assert(c.children[j].offset == v.children[j].offset);
        match v.last_seen {
            Some(NodeKind::Child) => {
                assert(v.children[j].offset <= v.children.last().offset);
            },
            _ => {},
        }
    }
    assert(strictly_increasing(r.roots)) by {
        assert forall|i: int, j: int| 0 <= i < j < r.roots.len() implies r.roots[i].offset
            < r.roots[j].offset by {
            if j < c.roots.len() {
                assert(c.roots[i].offset < c.roots[j].offset);
            }
        }
    }
    assert(r.ordered());
    assert forall|slot: Slot| c.has_slot(slot) == #[trigger] r.has_slot(slot) by {
        match slot {
            Slot::OfRoot { item, at } => {
                if 0 <= item < c.roots.len() {
                    assert(r.roots[item] == c.roots[item]);
                }
            },
            _ => {},
        }
    }
    assert forall|slot: Slot| c.has_slot(slot) implies c.slot_value(slot)
        == #[trigger] r.slot_value(slot) by {
        match slot {
            Slot::OfRoot { item, at } => {
                assert(r.roots[item] == c.roots[item]);
            },
            _ => {},
        }
    }
    slots_decide(c, r);
    assert forall|known: u64| #[trigger] r.knows(known) <==> (v.knows(known) || known
        == offset) by {
        same_skeleton_ordered(v, c);
        assert(c.knows(known) == v.knows(known));
        if has_offset(c.roots, known) {
            let i = position_of(c.roots, known);
            assert(r.roots[i].offset == known);
        }
        if has_offset(r.roots, known) {
            let i = position_of(r.roots, known);
            if i < c.roots.len() {
                assert(c.roots[i].offset == known);
            }
        }
        if known == offset {
            assert(r.roots[c.roots.len() as int].offset == offset);
        }
    }
}

/// A tree `r` that has one child item more than `v` and records, beside what `v`
/// records, the index of that item at the slot `fresh`, keeps indices in bounds and
/// recorded once, and is complete where `v` was.
#[verifier::rlimit(40)]
pub proof fn recording_a_new_child_preserves<T>(v: TreeView<T>, r: TreeView<T>, fresh: Slot)
    requires
        v.in_bounds(),
        v.exclusive(),
        r.children.len() == v.children.len() + 1,
        !v.has_slot(fresh),
        r.has_slot(fresh),
        r.slot_value(fresh) == v.children.len(),
        forall|slot: Slot| #[trigger] r.has_slot(slot) <==> (v.has_slot(slot) || slot == fresh),
        forall|slot: Slot| v.has_slot(slot) ==> #[trigger] r.slot_value(slot) == v.slot_value(slot),
    ensures
        r.in_bounds(),
        r.exclusive(),
        v.complete() ==> r.complete(),
{
    assert forall|slot: Slot| #[trigger] r.has_slot(slot) implies 0 <= r.slot_value(slot)
        < r.children.len() by {
        if slot != fresh {
            assert(v.has_slot(slot));
        }
    }
    assert forall|x: Slot, y: Slot|
        #[trigger] r.has_slot(x) && #[trigger] r.has_slot(y) && r.slot_value(x) == r.slot_value(
            y,
        ) implies x == y by {
        if x != fresh {
            assert(v.has_slot(x));
        }
        if y != fresh {
            assert(v.has_slot(y));
        }
    }
    if v.complete() {
        assert forall|child: int| 0 <= child < r.children.len() implies #[trigger] r.records(
            child,
        ) by {
            if child < v.children.len() {
                assert(v.records(child));
                let slot = choose|slot: Slot| #[trigger]
                    v.has_slot(slot) && v.slot_value(slot) == child;
                assert(r.has_slot(slot) && r.slot_value(slot) == child);
            } else {
                assert(r.has_slot(fresh) && r.slot_value(fresh) == child);
            }
        }
    }
}

/// A child item without children, added behind the others, records nothing.
pub proof fn new_child_item_records_nothing<T>(l: TreeView<T>, r: TreeView<T>, item: ItemView<T>)
    requires
        item.children.len() == 0,
        r.children == l.children.push(item),
        r.roots == l.roots,
        r.pending == l.pending,
    ensures
        forall|slot: Slot| l.has_slot(slot) == #[trigger] r.has_slot(slot),
        forall|slot: Slot| l.has_slot(slot) ==> l.slot_value(slot) == #[trigger] r.slot_value(slot),
{
    assert forall|slot: Slot| l.has_slot(slot) == #[trigger] r.has_slot(slot) by {
        match slot {
            Slot::OfChild { item, at } => {
                if 0 <= item < l.children.len() {
                    assert(r.children[item] == l.children[item]);
                }
            },
            _ => {},
        }
    }
    assert forall|slot: Slot| l.has_slot(slot) implies l.slot_value(slot)
        == #[trigger] r.slot_value(slot) by {
        match slot {
            Slot::OfChild { item, at } => {
                assert(r.children[item] == l.children[item]);
            },
            _ => {},
        }
    }
}

/// Every offset of an ordered tree is at most the offset of its last item.
pub proof fn last_offset_is_largest<T>(v: TreeView<T>)
    requires
        v.ordered(),
    ensures
        forall|i: int|
            0 <= i < v.roots.len() ==> (#[trigger] v.roots[i]).offset
                <= v.last_offset().unwrap(),
        forall|j: int|
            0 <= j < v.children.len() ==> (#[trigger] v.children[j]).offset
                <= v.last_offset().unwrap(),
        v.roots.len() + v.children.len() > 0 ==> v.last_offset() is Some,
{
    assert forall|i: int| 0 <= i < v.roots.len() implies (#[trigger] v.roots[i]).offset
        <= v.last_offset().unwrap() by {
        match v.last_seen {
            Some(NodeKind::Root) => {
                assert(v.roots[i].offset <= v.roots.last().offset);
            },
            _ => {},
        }
    }
    assert forall|j: int| 0 <= j < v.children.len() implies (#[trigger] v.children[j]).offset
        <= v.last_offset().unwrap() by {
        match v.last_seen {
            Some(NodeKind::Child) => {
                assert(v.children[j].offset <= v.children.last().offset);
            },
            _ => {},
        }
    }
}

/// A child item whose offset is larger than all others, added behind the child
/// items of an ordered tree, keeps the tree ordered and adds its offset to those
/// that the tree knows.
#[verifier::rlimit(40)]
pub proof fn new_last_child_is_ordered<T>(l: TreeView<T>, r: TreeView<T>, item: ItemView<T>)
    requires
        l.ordered(),
        l.accepts(item.offset),
        r.children == l.children.push(item),
        r.roots == l.roots,
        r.last_seen == Some(NodeKind::Child),
    ensures
        r.ordered(),
        r.last_offset() == Some(item.offset),
        forall|known: u64| #[trigger] r.knows(known) <==> (l.knows(known) || known == item.offset),
{
    last_offset_is_largest(l);
    assert forall|i: int, j: int| 0 <= i < j < r.children.len() implies r.children[i].offset
        < r.children[j].offset by {
        if j < l.children.len() {
            assert(l.children[i].offset < l.children[j].offset);
        } else {
            assert(l.children[i].offset <= l.last_offset().unwrap());
        }
    }
    assert forall|i: int, j: int|
        0 <= i < r.roots.len() && 0 <= j < r.children.len() implies r.roots[i].offset
        != r.children[j].offset by {
        if j < l.children.len() {
            assert(l.roots[i].offset != l.children[j].offset);
        } else {
            assert(l.roots[i].offset <= l.last_offset().unwrap());
        }
    }
    assert forall|i: int| 0 <= i < r.roots.len() implies r.roots[i].offset
        < r.children.last().offset by {
        assert(l.roots[i].offset <= l.last_offset().unwrap());
    }
    assert forall|known: u64| #[trigger] r.knows(known) <==> (l.knows(known) || known
        == item.offset) by {
        if has_offset(l.children, known) {
            let i = position_of(l.children, known);
            assert(r.children[i].offset == known);
        }
        if has_offset(r.children, known) {
            let i = position_of(r.children, known);
            if i < l.children.len() {
                assert(l.children[i].offset == known);
            }
        }
        if known == item.offset {
            assert(r.children[l.children.len() as int].offset == known);
        }
    }
}

/// Recording `index` as based on `base` fills one more slot with `index`, and
/// changes neither the skeleton nor anything else that is recorded.
pub proof fn link_fills_one_slot<T>(c: TreeView<T>, base: u64, index: usize) -> (fresh: Slot)
    requires
        c.ordered(),
    ensures
        same_skeleton(c, c.link(base, index)),
        c.link(base, index).ordered(),
        forall|offset: u64| c.knows(offset) == #[trigger] c.link(base, index).knows(offset),
        forall|offset: u64| c.accepts(offset) == #[trigger] c.link(base, index).accepts(offset),
        c.link(base, index).pending == if c.knows(base) {
            c.pending
        } else {
            c.pending.push((base, index))
        },
        !c.has_slot(fresh),
        c.link(base, index).has_slot(fresh),
        c.link(base, index).slot_value(fresh) == if c.knows(base) {
            (index as u32) as int
        } else {
            index as int
        },
        forall|slot: Slot| #[trigger]
            c.link(base, index).has_slot(slot) <==> (c.has_slot(slot) || slot == fresh),
        forall|slot: Slot|
            c.has_slot(slot) ==> #[trigger] c.link(base, index).slot_value(slot) == c.slot_value(
                slot,
            ),
{
    let l = c.link(base, index);
    let fresh = if c.knows(base) {
        attach_fills_one_slot(c, base, index)
    } else {
        Slot::Pending { at: c.pending.len() as int }
    };
    assert(same_skeleton(c, l));
    same_skeleton_ordered(c, l);
    fresh
}

/// Adding a delta keeps the tree well formed, and complete where it was.
#[verifier::rlimit(40)]
pub proof fn add_child_preserves<T>(v: TreeView<T>, base: u64, offset: u64, data: T)
    requires
        v.wf(),
        v.accepts(offset),
        v.children.len() < 0x1_0000_0000,
    ensures
        v.add_child(base, offset, data).wf(),
        v.complete() ==> v.add_child(base, offset, data).complete(),
        v.add_child(base, offset, data).last_offset() == Some(offset),
        v.add_child(base, offset, data).pending == if v.knows(base) {
            v.pending
        } else {
            v.pending.push((base, v.children.len() as usize))
        },
        forall|known: u64| #[trigger]
            v.add_child(base, offset, data).knows(known) <==> (v.knows(known) || known
                == offset),
{
    let c = v.close_last(offset);
    let index = v.children.len() as usize;
    let l = c.link(base, index);
    let r = v.add_child(base, offset, data);
    let item = ItemView { offset, next_offset: 0, data, children: Seq::<u32>::empty() };
    close_last_keeps(v, offset);
    same_children_slots(v, c);
    same_skeleton_ordered(v, c);
    assert(c.knows(base) == v.knows(base));
    assert(c.accepts(offset));
    assert(index as u32 as int == v.children.len());
    let fresh = link_fills_one_slot(c, base, index);
    assert(l.accepts(offset));
    new_child_item_records_nothing(l, r, item);
    new_last_child_is_ordered(l, r, item);
    assert forall|slot: Slot| #[trigger] r.has_slot(slot) <==> (c.has_slot(slot) || slot
        == fresh) by {
        assert(l.has_slot(slot) == r.has_slot(slot));
    }
    assert forall|slot: Slot| c.has_slot(slot) implies #[trigger] r.slot_value(slot)
        == c.slot_value(slot) by {
        assert(l.has_slot(slot));
        assert(l.slot_value(slot) == c.slot_value(slot));
    }
    assert(r.has_slot(fresh) && r.slot_value(fresh) == c.children.len()) by {
        assert(l.has_slot(fresh));
    }
    recording_a_new_child_preserves(c, r, fresh);
    assert forall|known: u64| #[trigger] r.knows(known) <==> (v.knows(known) || known
        == offset) by {
        assert(c.knows(known) == v.knows(known));
        assert(l.knows(known) == c.knows(known));
    }
}

/// Attaching forward references changes neither the skeleton nor the references.
pub proof fn resolve_keeps<T>(v: TreeView<T>, count: nat)
    requires
        v.ordered(),
        count <= v.pending.len(),
        v.resolvable(count),
    ensures
        same_skeleton(v, v.resolve(count)),
        v.resolve(count).pending == v.pending,
        v.resolve(count).ordered(),
        v.resolve(count).last_offset() == v.last_offset(),
        forall|offset: u64| v.knows(offset) == #[trigger] v.resolve(count).knows(offset),
        forall|offset: u64| v.accepts(offset) == #[trigger] v.resolve(count).accepts(offset),
    decreases count,
{
    if count == 0 {
        same_skeleton_ordered(v, v);
    } else {
        let before = v.resolve((count - 1) as nat);
        let entry = v.pending[count - 1];
        resolve_keeps(v, (count - 1) as nat);
        assert(v.knows(entry.0));
        assert(before.knows(entry.0));
        let fresh = attach_fills_one_slot(before, entry.0, entry.1);
        let after = before.attach(entry.0, entry.1);
        assert(after == v.resolve(count));
        assert(same_skeleton(v, after)) by {
            assert forall|i: int| 0 <= i < v.roots.len() implies #[trigger] v.roots[i].offset
                == after.roots[i].offset by {
                assert(v.roots[i].offset == before.roots[i].offset);
                assert(before.roots[i].offset == after.roots[i].offset);
            }
            assert forall|i: int| 0 <= i < v.children.len() implies #[trigger]
                v.children[i].offset == after.children[i].offset by {
                assert(v.children[i].offset == before.children[i].offset);
                assert(before.children[i].offset == after.children[i].offset);
            }
        }
        same_skeleton_ordered(v, after);
    }
}

/// The slot of the tree before a forward reference was attached that answers to
/// `slot` of the tree after it, where the reference went to `fresh`.
pub open spec fn slot_before(fresh: Slot, slot: Slot) -> Slot {
    if slot == fresh {
        Slot::Pending { at: 0 }
    } else {
        match slot {
            Slot::Pending { at } => Slot::Pending { at: at + 1 },
            _ => slot,
        }
    }
}

/// Moving the first forward reference of `w` to the slot `fresh` of a list of
/// children, which gives `r`, keeps indices in bounds and recorded once.
#[verifier::rlimit(40)]
pub proof fn moving_a_reference_preserves<T>(w: TreeView<T>, r: TreeView<T>, fresh: Slot)
    requires
        w.in_bounds(),
        w.exclusive(),
        w.pending.len() > 0,
        r.children.len() == w.children.len(),
        r.pending == w.pending.skip(1),
        !(fresh is Pending),
        !w.has_slot(fresh),
        r.has_slot(fresh),
        r.slot_value(fresh) == w.pending[0].1,
        forall|slot: Slot|
            !(slot is Pending) ==> (#[trigger] r.has_slot(slot) <==> (w.has_slot(slot) || slot
                == fresh)),
        forall|slot: Slot|
            !(slot is Pending) && w.has_slot(slot) ==> #[trigger] r.slot_value(slot)
                == w.slot_value(slot),
    ensures
        r.in_bounds(),
        r.exclusive(),
        w.complete() ==> r.complete(),
{
    assert forall|slot: Slot| #[trigger] r.has_slot(slot) implies w.has_slot(
        slot_before(fresh, slot),
    ) && w.slot_value(slot_before(fresh, slot)) == r.slot_value(slot) by {
        if slot != fresh {
            match slot {
                Slot::Pending { at } => {
                    assert(r.pending[at] == w.pending[at + 1]);
                },
                _ => {},
            }
        }
    }
    assert forall|slot: Slot| #[trigger] r.has_slot(slot) implies 0 <= r.slot_value(slot)
        < r.children.len() by {
        assert(w.has_slot(slot_before(fresh, slot)));
    }
    assert forall|x: Slot, y: Slot|
        #[trigger] r.has_slot(x) && #[trigger] r.has_slot(y) && r.slot_value(x) == r.slot_value(
            y,
        ) implies x == y by {
        assert(w.has_slot(slot_before(fresh, x)) && w.has_slot(slot_before(fresh, y)));
        assert(slot_before(fresh, x) == slot_before(fresh, y));
    }
    if w.complete() {
        assert forall|child: int| 0 <= child < r.children.len() implies #[trigger] r.records(
            child,
        ) by {
            assert(w.records(child));
            let slot = choose|slot: Slot| #[trigger]
                w.has_slot(slot) && w.slot_value(slot) == child;
            match slot {
                Slot::Pending { at } => {
                    if at == 0 {
                        assert(r.has_slot(fresh) && r.slot_value(fresh) == child);
                    } else {
                        let moved = Slot::Pending { at: at - 1 };
                        assert(r.pending[at - 1] == w.pending[at]);
                        assert(r.has_slot(moved) && r.slot_value(moved) == child);
                    }
                },
                _ => {
                    assert(r.has_slot(slot) && r.slot_value(slot) == child);
                },
            }
        }
    }
}

/// While forward references are attached in order, the tree with those that are
/// still to come stays well formed, and complete where it was.
#[verifier::rlimit(40)]
pub proof fn partly_resolved_preserves<T>(v: TreeView<T>, count: nat)
    requires
        v.wf(),
        count <= v.pending.len(),
        v.resolvable(count),
    ensures
        v.partly_resolved(count).wf(),
        v.complete() ==> v.partly_resolved(count).complete(),
    decreases count,
{
    if count == 0 {
        assert(v.pending.skip(0) =~= v.pending);
        assert(v.partly_resolved(0) == v);
    } else {
        let k = (count - 1) as nat;
        partly_resolved_preserves(v, k);
        resolve_keeps(v, k);
        resolve_keeps(v, count);
        let w = v.partly_resolved(k);
        let r = v.partly_resolved(count);
        let before = v.resolve(k);
        let entry = v.pending[k as int];
        assert(before.knows(entry.0));
        let fresh = attach_fills_one_slot(before, entry.0, entry.1);
        let first = Slot::Pending { at: 0 };
        assert(w.pending[0] == entry);
        assert(w.has_slot(first) && w.slot_value(first) == entry.1);
        assert(0 <= entry.1 < w.children.len());
        assert(entry.1 as u32 as int == entry.1);
        assert(r.pending =~= w.pending.skip(1));
        assert(v.resolve(count) == before.attach(entry.0, entry.1));
        assert forall|slot: Slot| !(slot is Pending) implies (#[trigger] r.has_slot(slot) <==> (
        w.has_slot(slot) || slot == fresh)) by {
            assert(r.has_slot(slot) == v.resolve(count).has_slot(slot));
            assert(w.has_slot(slot) == before.has_slot(slot));
        }
        assert forall|slot: Slot| !(slot is Pending) && w.has_slot(slot) implies #[trigger]
            r.slot_value(slot) == w.slot_value(slot) by {
            assert(before.has_slot(slot));
            assert(r.slot_value(slot) == v.resolve(count).slot_value(slot));
            assert(w.slot_value(slot) == before.slot_value(slot));
        }
        assert(r.has_slot(fresh)) by {
            assert(v.resolve(count).has_slot(fresh));
        }
        assert(r.slot_value(fresh) == v.resolve(count).slot_value(fresh));
        assert(!w.has_slot(fresh)) by {
            assert(w.has_slot(fresh) == before.has_slot(fresh));
        }
        moving_a_reference_preserves(w, r, fresh);
    }
}

/// Forgetting the forward references keeps indices in bounds and recorded once.
pub proof fn without_pending_preserves<T>(w: TreeView<T>)
    requires
        w.wf(),
    ensures
        w.without_pending().wf(),
        w.pending.len() == 0 && w.complete() ==> w.without_pending().complete(),
{
    let r = w.without_pending();
    assert forall|slot: Slot| #[trigger] r.has_slot(slot) implies w.has_slot(slot)
        && w.slot_value(slot) == r.slot_value(slot) by {}
    assert forall|slot: Slot| #[trigger] r.has_slot(slot) implies 0 <= r.slot_value(slot)
        < r.children.len() by {
        assert(w.has_slot(slot));
    }
    assert forall|x: Slot, y: Slot|
        #[trigger] r.has_slot(x) && #[trigger] r.has_slot(y) && r.slot_value(x) == r.slot_value(
            y,
        ) implies x == y by {
        assert(w.has_slot(x) && w.has_slot(y));
    }
    if w.pending.len() == 0 {
        assert(w.pending =~= Seq::empty());
        assert(r == w);
    }
}

/// The first forward reference whose base is unknown is the one before which all
/// bases are known.
pub proof fn first_unresolvable_is<T>(v: TreeView<T>, at: int)
    requires
        0 <= at < v.pending.len(),
        !v.knows(v.pending[at].0),
        v.resolvable(at as nat),
    ensures
        v.first_unresolvable() == at,
        !v.resolvable(v.pending.len()),
{
    let first = v.first_unresolvable();
    assert(0 <= first < v.pending.len() && !v.knows(v.pending[first].0) && v.resolvable(
        first as nat,
    ));
    if first < at {
        assert(v.knows(v.pending[first].0));
    }
    if at < first {
        assert(v.knows(v.pending[at].0));
    }
}

/// Sealing a tree whose forward references all have their base keeps it well
/// formed, leaves no forward reference, and keeps it complete where it was.
pub proof fn sealed_preserves<T>(v: TreeView<T>, pack_entries_end: u64)
    requires
        v.wf(),
        v.resolvable(v.pending.len()),
    ensures
        v.sealed(pack_entries_end).wf(),
        v.sealed(pack_entries_end).pending.len() == 0,
        v.complete() ==> v.sealed(pack_entries_end).complete(),
        same_skeleton(v, v.sealed(pack_entries_end)),
{
    let n = v.pending.len();
    partly_resolved_preserves(v, n);
    resolve_keeps(v, n);
    let w = v.partly_resolved(n);
    without_pending_preserves(w);
    let d = w.without_pending();
    assert(d == v.resolve(n).without_pending());
    let c = d.close_last(pack_entries_end);
    close_last_keeps(d, pack_entries_end);
    same_children_slots(d, c);
    assert(same_skeleton(v, c)) by {
        assert forall|i: int| 0 <= i < v.roots.len() implies #[trigger] v.roots[i].offset
            == c.roots[i].offset by {
            assert(v.roots[i].offset == d.roots[i].offset);
            assert(d.roots[i].offset == c.roots[i].offset);
        }
        assert forall|i: int| 0 <= i < v.children.len() implies #[trigger] v.children[i].offset
            == c.children[i].offset by {
            assert(v.children[i].offset == d.children[i].offset);
            assert(d.children[i].offset == c.children[i].offset);
        }
    }
}

/// Giving up at the first forward reference without a base keeps the tree well
/// formed and leaves no forward reference.
pub proof fn abandoned_preserves<T>(v: TreeView<T>)
    requires
        v.wf(),
        !v.resolvable(v.pending.len()),
    ensures
        0 <= v.first_unresolvable() < v.pending.len(),
        !v.knows(v.pending[v.first_unresolvable()].0),
        v.resolvable(v.first_unresolvable() as nat),
        v.abandoned().wf(),
        v.abandoned().pending.len() == 0,
{
    least_unresolvable(v, v.pending.len());
    let k = v.first_unresolvable();
    partly_resolved_preserves(v, k as nat);
    without_pending_preserves(v.partly_resolved(k as nat));
    assert(v.partly_resolved(k as nat).without_pending() == v.abandoned());
}

/// Where the bases of the first `count` forward references are not all known,
/// one of them is the first whose base is unknown.
pub proof fn least_unresolvable<T>(v: TreeView<T>, count: nat)
    requires
        count <= v.pending.len(),
        !v.resolvable(count),
    ensures
        0 <= v.first_unresolvable() < count,
        !v.knows(v.pending[v.first_unresolvable()].0),
        v.resolvable(v.first_unresolvable() as nat),
    decreases count,
{
    if count > 0 {
        let k = (count - 1) as nat;
        if v.resolvable(k) {
            assert(!v.knows(v.pending[k as int].0));
            first_unresolvable_is(v, k as int);
        } else {
            least_unresolvable(v, k);
        }
    }
}

} // verus!
