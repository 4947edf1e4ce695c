//! The spans of the entries: each ends where the next entry begins.

use vstd::prelude::*;
use crate::invariants::{
    add_child_preserves, add_root_preserves, close_last_keeps, last_offset_is_largest,
    link_fills_one_slot, resolve_keeps, same_skeleton, same_skeleton_ordered,
};
use crate::item::{has_offset, position_of, ItemView};
use crate::model::{Entry, NodeKind, TreeView};

verus! {

/// Whether two sequences of items have the same spans at the same positions.
pub open spec fn same_spans<T>(a: Seq<ItemView<T>>, b: Seq<ItemView<T>>) -> bool {
    &&& a.len() == b.len()
    &&& forall|i: int|
        0 <= i < a.len() ==> (#[trigger] a[i]).offset == b[i].offset && a[i].next_offset
            == b[i].next_offset
}

/// Trees with the same skeleton and the same spans are contiguous alike.
pub proof fn same_spans_contiguous<T>(a: TreeView<T>, b: TreeView<T>, end: u64)
    requires
        a.ordered(),
        same_skeleton(a, b),
        same_spans(a.roots, b.roots),
        same_spans(a.children, b.children),
        a.contiguous_until(end),
    ensures
        b.contiguous_until(end),
{
    same_skeleton_ordered(a, b);
    assert forall|i: int| 0 <= i < b.roots.len() implies b.span_is_set(
        #[trigger] b.roots[i],
        end,
    ) by {
        assert(a.span_is_set(a.roots[i], end));
        spans_agree(a, b, a.roots[i], b.roots[i], end);
    }
    assert forall|j: int| 0 <= j < b.children.len() implies b.span_is_set(
        #[trigger] b.children[j],
        end,
    ) by {
        assert(a.span_is_set(a.children[j], end));
        spans_agree(a, b, a.children[j], b.children[j], end);
    }
}

/// In trees that know the same offsets and have the same last item, items with the
/// same span have their span set alike.
pub proof fn spans_agree<T>(
    a: TreeView<T>,
    b: TreeView<T>,
    x: ItemView<T>,
    y: ItemView<T>,
    end: u64,
)
    requires
        forall|offset: u64| a.knows(offset) == #[trigger] b.knows(offset),
        a.last_offset() == b.last_offset(),
        x.offset == y.offset,
        x.next_offset == y.next_offset,
        a.span_is_set(x, end),
    ensures
        b.span_is_set(y, end),
{
    if a.last_offset() != Some(x.offset) {
        assert(a.follows(x.offset, x.next_offset));
        assert(b.knows(y.next_offset));
        assert forall|between: u64| y.offset < between < y.next_offset implies !#[trigger] b.knows(
            between,
        ) by {
            assert(!a.knows(between));
        }
    }
}

/// Closing the span of the last item at `end` leaves every other span as it was.
#[verifier::rlimit(40)]
pub proof fn close_last_sets_span<T>(v: TreeView<T>, end: u64)
    requires
        v.ordered(),
        v.contiguous(),
    ensures
        v.close_last(end).contiguous_until(end),
{
    let c = v.close_last(end);
    close_last_keeps(v, end);
    same_skeleton_ordered(v, c);
    assert forall|i: int| 0 <= i < c.roots.len() implies c.span_is_set(
        #[trigger] c.roots[i],
        end,
    ) by {
        assert(v.span_is_set(v.roots[i], 0));
        assert(v.roots[i].offset == c.roots[i].offset);
        if v.last_offset() == Some(v.roots[i].offset) {
            match v.last_seen {
                Some(NodeKind::Root) => {
                    if i < v.roots.len() - 1 {
                        assert(v.roots[i].offset < v.roots[v.roots.len() - 1].offset);
                    }
                },
                Some(NodeKind::Child) => {
                    assert(v.roots[i].offset != v.children[v.children.len() - 1].offset);
                },
                None => {},
            }
        } else {
            match v.last_seen {
                Some(NodeKind::Root) => {
                    assert(i != v.roots.len() - 1);
                },
                _ => {},
            }
            spans_agree(v, c, v.roots[i], c.roots[i], 0);
        }
    }
    assert forall|j: int| 0 <= j < c.children.len() implies c.span_is_set(
        #[trigger] c.children[j],
        end,
    ) by {
        assert(v.span_is_set(v.children[j], 0));
        assert(v.children[j].offset == c.children[j].offset);
        if v.last_offset() == Some(v.children[j].offset) {
            match v.last_seen {
                Some(NodeKind::Child) => {
                    if j < v.children.len() - 1 {
                        assert(v.children[j].offset < v.children[v.children.len() - 1].offset);
                    }
                },
                Some(NodeKind::Root) => {
                    assert(v.roots[v.roots.len() - 1].offset != v.children[j].offset);
                },
                None => {},
            }
        } else {
            match v.last_seen {
                Some(NodeKind::Child) => {
                    assert(j != v.children.len() - 1);
                },
                _ => {},
            }
            spans_agree(v, c, v.children[j], c.children[j], 0);
        }
    }
}

/// Attaching a child to its base changes no span.
pub proof fn attach_keeps_spans<T>(v: TreeView<T>, base: u64, child: usize)
    ensures
        same_spans(v.roots, v.attach(base, child).roots),
        same_spans(v.children, v.attach(base, child).children),
{
}

/// Recording a child with its base, or as a forward reference, changes no span.
pub proof fn link_keeps_spans<T>(v: TreeView<T>, base: u64, child: usize)
    ensures
        same_spans(v.roots, v.link(base, child).roots),
        same_spans(v.children, v.link(base, child).children),
{
    attach_keeps_spans(v, base, child);
}

/// Attaching forward references changes no span.
pub proof fn resolve_keeps_spans<T>(v: TreeView<T>, count: nat)
    requires
        count <= v.pending.len(),
    ensures
        same_spans(v.roots, v.resolve(count).roots),
        same_spans(v.children, v.resolve(count).children),
    decreases count,
{
    if count > 0 {
        let before = v.resolve((count - 1) as nat);
        let entry = v.pending[count - 1];
        resolve_keeps_spans(v, (count - 1) as nat);
        attach_keeps_spans(before, entry.0, entry.1);
        let after = before.attach(entry.0, entry.1);
        assert forall|i: int| 0 <= i < v.roots.len() implies (#[trigger] v.roots[i]).offset
            == after.roots[i].offset && v.roots[i].next_offset == after.roots[i].next_offset by {
            assert(before.roots[i].offset == after.roots[i].offset);
        }
        assert forall|i: int| 0 <= i < v.children.len() implies (#[trigger] v.children[i]).offset
            == after.children[i].offset && v.children[i].next_offset
            == after.children[i].next_offset by {
            assert(before.children[i].offset == after.children[i].offset);
        }
    }
}

/// The tree knows no offset behind that of its last item.
pub proof fn known_is_at_most_last<T>(v: TreeView<T>, known: u64)
    requires
        v.ordered(),
        v.knows(known),
    ensures
        v.last_offset() is Some,
        known <= v.last_offset().unwrap(),
{
    last_offset_is_largest(v);
    if has_offset(v.children, known) {
        let j = position_of(v.children, known);
        assert(v.children[j].offset <= v.last_offset().unwrap());
    } else {
        let i = position_of(v.roots, known);
        assert(v.roots[i].offset <= v.last_offset().unwrap());
    }
}

/// An item of a tree whose spans are set up to `next`, seen from a tree that
/// knows one more offset, `next`, which is its last, has its span closed.
pub proof fn span_stays_set<T>(l: TreeView<T>, r: TreeView<T>, x: ItemView<T>, next: u64)
    requires
        l.ordered(),
        l.accepts(next),
        l.knows(x.offset),
        l.span_is_set(x, next),
        r.last_offset() == Some(next),
        forall|known: u64| #[trigger] r.knows(known) <==> (l.knows(known) || known == next),
    ensures
        r.span_is_set(x, 0),
{
    known_is_at_most_last(l, x.offset);
    assert(r.knows(next));
    if l.last_offset() == Some(x.offset) {
        assert forall|between: u64| x.offset < between < x.next_offset implies !#[trigger] r.knows(
            between,
        ) by {
            if l.knows(between) {
                known_is_at_most_last(l, between);
            }
        }
    } else {
        assert(l.follows(x.offset, x.next_offset));
        known_is_at_most_last(l, x.next_offset);
        assert(r.knows(x.next_offset));
        assert forall|between: u64| x.offset < between < x.next_offset implies !#[trigger] r.knows(
            between,
        ) by {
            assert(!l.knows(between));
        }
    }
}

/// An item with an open span, added as the last item behind a tree whose spans
/// are set up to the offset of that item, gives a contiguous tree.
#[verifier::rlimit(40)]
pub proof fn new_last_item_keeps_contiguous<T>(l: TreeView<T>, r: TreeView<T>, item: ItemView<T>)
    requires
        l.ordered(),
        l.accepts(item.offset),
        l.contiguous_until(item.offset),
        item.next_offset == 0,
        (r.roots == l.roots.push(item) && r.children == l.children) || (r.children
            == l.children.push(item) && r.roots == l.roots),
        r.last_offset() == Some(item.offset),
        forall|known: u64| #[trigger] r.knows(known) <==> (l.knows(known) || known == item.offset),
    ensures
        r.contiguous(),
{
    assert forall|i: int| 0 <= i < r.roots.len() implies r.span_is_set(
        #[trigger] r.roots[i],
        0,
    ) by {
        if i < l.roots.len() {
            assert(r.roots[i] == l.roots[i]);
            assert(l.span_is_set(l.roots[i], item.offset));
            assert(l.knows(l.roots[i].offset));
            span_stays_set(l, r, l.roots[i], item.offset);
        }
    }
    assert forall|j: int| 0 <= j < r.children.len() implies r.span_is_set(
        #[trigger] r.children[j],
        0,
    ) by {
        if j < l.children.len() {
            assert(r.children[j] == l.children[j]);
            assert(l.span_is_set(l.children[j], item.offset));
            assert(l.knows(l.children[j].offset));
            span_stays_set(l, r, l.children[j], item.offset);
        }
    }
}

/// Adding a full object keeps the tree contiguous.
#[verifier::rlimit(40)]
pub proof fn add_root_keeps_contiguous<T>(v: TreeView<T>, offset: u64, data: T)
    requires
        v.wf(),
        v.accepts(offset),
        v.contiguous(),
    ensures
        v.add_root(offset, data).contiguous(),
{
    let c = v.close_last(offset);
    let r = v.add_root(offset, data);
    let item = ItemView { offset, next_offset: 0, data, children: Seq::<u32>::empty() };
    close_last_keeps(v, offset);
    close_last_sets_span(v, offset);
    same_skeleton_ordered(v, c);
    add_root_preserves(v, offset, data);
    assert(c.accepts(offset));
    assert forall|known: u64| #[trigger] r.knows(known) <==> (c.knows(known) || known
        == offset) by {
        assert(c.knows(known) == v.knows(known));
    }
    new_last_item_keeps_contiguous(c, r, item);
}

/// Adding a delta keeps the tree contiguous.
#[verifier::rlimit(40)]
pub proof fn add_child_keeps_contiguous<T>(v: TreeView<T>, base: u64, offset: u64, data: T)
    requires
        v.wf(),
        v.accepts(offset),
        v.children.len() < 0x1_0000_0000,
        v.contiguous(),
    ensures
        v.add_child(base, offset, data).contiguous(),
{
    let c = v.close_last(offset);
    let index = v.children.len() as usize;
    let l = c.link(base, index);
    let r = v.add_child(base, offset, data);
    let item = ItemView { offset, next_offset: 0, data, children: Seq::<u32>::empty() };
    close_last_keeps(v, offset);
    close_last_sets_span(v, offset);
    same_skeleton_ordered(v, c);
    let fresh = link_fills_one_slot(c, base, index);
    link_keeps_spans(c, base, index);
    same_spans_contiguous(c, l, offset);
    add_child_preserves(v, base, offset, data);
    assert(c.accepts(offset));
    assert(l.accepts(offset));
    assert forall|known: u64| #[trigger] r.knows(known) <==> (l.knows(known) || known
        == offset) by {
        assert(c.knows(known) == v.knows(known));
        assert(l.knows(known) == c.knows(known));
    }
    new_last_item_keeps_contiguous(l, r, item);
}

/// Sealing a contiguous tree closes the span of its last item at the end of the
/// entries, and keeps every other span.
pub proof fn sealed_is_contiguous<T>(v: TreeView<T>, pack_entries_end: u64)
    requires
        v.wf(),
        v.resolvable(v.pending.len()),
        v.contiguous(),
    ensures
        v.sealed(pack_entries_end).contiguous_until(pack_entries_end),
{
    let n = v.pending.len();
    let resolved = v.resolve(n);
    let d = resolved.without_pending();
    resolve_keeps(v, n);
    resolve_keeps_spans(v, n);
    same_spans_contiguous(v, resolved, 0);
    assert(same_skeleton(resolved, d));
    same_skeleton_ordered(resolved, d);
    assert(same_spans(resolved.roots, d.roots));
    assert(same_spans(resolved.children, d.children));
    same_spans_contiguous(resolved, d, 0);
    close_last_sets_span(d, pack_entries_end);
}

/// Handing an entry to a contiguous tree keeps it contiguous.
pub proof fn after_keeps_contiguous<T>(v: TreeView<T>, entry: Entry<T>)
    requires
        v.wf(),
        v.children.len() < 0x1_0000_0000,
        v.contiguous(),
    ensures
        v.after(entry).contiguous(),
{
    if v.accepts(entry.offset()) {
        match entry {
            Entry::Root { offset, data } => {
                add_root_keeps_contiguous(v, offset, data);
            },
            Entry::Child { base_offset, offset, data } => {
                add_child_keeps_contiguous(v, base_offset, offset, data);
            },
        }
    }
}

} // verus!
