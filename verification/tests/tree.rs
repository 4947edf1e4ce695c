use delta_tree::error::Error;
use delta_tree::item::Item;
use delta_tree::tree::Tree;

fn offsets<T>(items: &[Item<T>]) -> Vec<(u64, u64)> {
    items.iter().map(|item| (item.offset, item.next_offset)).collect()
}

#[test]
fn chain_of_three_entries() {
    let mut tree: Tree<&'static str> = Tree::with_capacity(3).unwrap();
    assert_eq!(tree.add_root(12, "a"), Ok(()));
    assert_eq!(tree.add_child(12, 40, "b"), Ok(()));
    assert_eq!(tree.add_child(40, 90, "c"), Ok(()));
    assert_eq!(tree.num_items(), 3);
    assert_eq!(tree.set_pack_entries_end_and_resolve_ref_offsets(120), Ok(()));

    let (roots, children) = tree.take_root_and_child();
    assert_eq!(offsets(&roots), vec![(12, 40)]);
    assert_eq!(offsets(&children), vec![(40, 90), (90, 120)]);
    assert_eq!(roots[0].children(), &[0]);
    assert_eq!(children[0].children(), &[1]);
    assert_eq!(children[1].children(), &[] as &[u32]);
    assert_eq!(roots[0].data, "a");
    assert_eq!(children[0].data, "b");
    assert_eq!(children[1].data, "c");
}

#[test]
fn empty_tree_seals_to_nothing() {
    let mut tree: Tree<()> = Tree::with_capacity(0).unwrap();
    assert_eq!(tree.num_items(), 0);
    assert_eq!(tree.set_pack_entries_end_and_resolve_ref_offsets(0), Ok(()));
    let (roots, children) = tree.take_root_and_child();
    assert!(roots.is_empty());
    assert!(children.is_empty());
}

#[test]
fn equal_offset_is_refused_and_changes_nothing() {
    let mut tree: Tree<u8> = Tree::with_capacity(4).unwrap();
    assert_eq!(tree.add_root(10, 1), Ok(()));
    assert_eq!(
        tree.add_root(10, 2),
        Err(Error::NonMonotonicOffset { last_pack_offset: 10, pack_offset: 10 })
    );
    assert_eq!(
        tree.add_child(10, 10, 3),
        Err(Error::NonMonotonicOffset { last_pack_offset: 10, pack_offset: 10 })
    );
    assert_eq!(tree.num_items(), 1);
    let (roots, children) = tree.take_root_and_child();
    assert_eq!(offsets(&roots), vec![(10, 0)]);
    assert_eq!(roots[0].children(), &[] as &[u32]);
    assert!(children.is_empty());
}

#[test]
fn smaller_offset_is_refused_after_a_child() {
    let mut tree: Tree<u8> = Tree::with_capacity(4).unwrap();
    assert_eq!(tree.add_root(10, 1), Ok(()));
    assert_eq!(tree.add_child(10, 30, 2), Ok(()));
    assert_eq!(
        tree.add_root(29, 3),
        Err(Error::NonMonotonicOffset { last_pack_offset: 30, pack_offset: 29 })
    );
    assert_eq!(
        tree.add_child(10, 5, 3),
        Err(Error::NonMonotonicOffset { last_pack_offset: 30, pack_offset: 5 })
    );
    assert_eq!(tree.num_items(), 2);
    let (roots, children) = tree.take_root_and_child();
    assert_eq!(offsets(&roots), vec![(10, 30)]);
    assert_eq!(offsets(&children), vec![(30, 0)]);
    assert_eq!(roots[0].children(), &[0]);
}

#[test]
fn first_item_may_begin_at_zero() {
    let mut tree: Tree<()> = Tree::with_capacity(1).unwrap();
    assert_eq!(tree.add_root(0, ()), Ok(()));
    assert_eq!(tree.set_pack_entries_end_and_resolve_ref_offsets(7), Ok(()));
    let (roots, _) = tree.take_root_and_child();
    assert_eq!(offsets(&roots), vec![(0, 7)]);
}

#[test]
fn forward_reference_is_attached_when_sealing() {
    let mut tree: Tree<u8> = Tree::with_capacity(4).unwrap();
    // the delta at 20 names a base at 50, which is added after it
    assert_eq!(tree.add_root(5, 0), Ok(()));
    assert_eq!(tree.add_child(50, 20, 1), Ok(()));
    assert_eq!(tree.add_child(5, 30, 2), Ok(()));
    assert_eq!(tree.add_root(50, 3), Ok(()));
    assert_eq!(tree.set_pack_entries_end_and_resolve_ref_offsets(64), Ok(()));
    let (roots, children) = tree.take_root_and_child();
    assert_eq!(offsets(&roots), vec![(5, 20), (50, 64)]);
    assert_eq!(offsets(&children), vec![(20, 30), (30, 50)]);
    assert_eq!(roots[0].children(), &[1]);
    assert_eq!(roots[1].children(), &[0]);
    assert_eq!(children[0].children(), &[] as &[u32]);
    assert_eq!(children[1].children(), &[] as &[u32]);
}

#[test]
fn forward_references_are_attached_in_the_order_recorded() {
    let mut tree: Tree<()> = Tree::with_capacity(4).unwrap();
    assert_eq!(tree.add_child(40, 10, ()), Ok(()));
    assert_eq!(tree.add_child(40, 20, ()), Ok(()));
    assert_eq!(tree.add_child(40, 30, ()), Ok(()));
    assert_eq!(tree.add_root(40, ()), Ok(()));
    assert_eq!(tree.add_child(40, 45, ()), Ok(()));
    assert_eq!(tree.set_pack_entries_end_and_resolve_ref_offsets(50), Ok(()));
    let (roots, _) = tree.take_root_and_child();
    assert_eq!(roots[0].children(), &[3, 0, 1, 2]);
}

#[test]
fn thin_pack_is_detected() {
    let mut tree: Tree<()> = Tree::with_capacity(2).unwrap();
    assert_eq!(tree.add_root(12, ()), Ok(()));
    assert_eq!(tree.add_child(7, 40, ()), Ok(()));
    assert_eq!(
        tree.set_pack_entries_end_and_resolve_ref_offsets(100),
        Err(Error::OutOfPackRefDelta { base_pack_offset: 7 })
    );
}

#[test]
fn sealing_stops_at_the_first_unknown_base() {
    let mut tree: Tree<()> = Tree::with_capacity(8).unwrap();
    assert_eq!(tree.add_child(100, 10, ()), Ok(()));
    assert_eq!(tree.add_child(77, 20, ()), Ok(()));
    assert_eq!(tree.add_child(88, 30, ()), Ok(()));
    assert_eq!(tree.add_root(100, ()), Ok(()));
    assert_eq!(
        tree.set_pack_entries_end_and_resolve_ref_offsets(200),
        Err(Error::OutOfPackRefDelta { base_pack_offset: 77 })
    );
    let (roots, children) = tree.take_root_and_child();
    // the reference before the unknown one was attached, the last span stays open
    assert_eq!(roots[0].children(), &[0]);
    assert_eq!(offsets(&roots), vec![(100, 0)]);
    assert_eq!(offsets(&children), vec![(10, 20), (20, 30), (30, 100)]);
}

#[test]
fn base_is_found_among_many_items() {
    let mut tree: Tree<u64> = Tree::with_capacity(200).unwrap();
    for i in 0..100u64 {
        assert_eq!(tree.add_root(i * 10, i), Ok(()));
    }
    for i in 0..100u64 {
        // each delta is based on the root with the same number
        assert_eq!(tree.add_child(i * 10, 1000 + i, i), Ok(()));
    }
    // and one on the delta at 1050
    assert_eq!(tree.add_child(1050, 2000, 0), Ok(()));
    assert_eq!(tree.set_pack_entries_end_and_resolve_ref_offsets(3000), Ok(()));
    let (roots, children) = tree.take_root_and_child();
    for i in 0..100usize {
        assert_eq!(roots[i].children(), &[i as u32]);
    }
    assert_eq!(children[50].children(), &[100]);
    assert_eq!(children[100].next_offset, 3000);
    assert_eq!(roots[99].next_offset, 1000);
}

/// A tree of twelve entries in which some deltas come before their base.
fn mixed() -> Tree<u32> {
    let mut tree: Tree<u32> = Tree::with_capacity(12).unwrap();
    let entries: [(Option<u64>, u64); 12] = [
        (None, 10),
        (Some(10), 20),
        (Some(70), 30),
        (None, 40),
        (Some(20), 50),
        (Some(40), 60),
        (None, 70),
        (Some(70), 80),
        (Some(110), 90),
        (Some(30), 100),
        (None, 110),
        (Some(10), 120),
    ];
    for (at, (base, offset)) in entries.iter().enumerate() {
        match base {
            None => tree.add_root(*offset, at as u32).unwrap(),
            Some(base) => tree.add_child(*base, *offset, at as u32).unwrap(),
        }
    }
    tree
}

#[test]
fn every_child_index_is_recorded_exactly_once_after_sealing() {
    let mut tree = mixed();
    assert_eq!(tree.num_items(), 12);
    assert_eq!(tree.set_pack_entries_end_and_resolve_ref_offsets(130), Ok(()));
    let (roots, children) = tree.take_root_and_child();
    assert_eq!(roots.len(), 4);
    assert_eq!(children.len(), 8);
    let mut seen = vec![0usize; children.len()];
    for item in roots.iter().chain(children.iter()) {
        for index in item.children() {
            seen[*index as usize] += 1;
        }
    }
    assert_eq!(seen, vec![1; 8]);
}

#[test]
fn every_recorded_index_is_in_bounds() {
    let mut tree = mixed();
    assert_eq!(tree.set_pack_entries_end_and_resolve_ref_offsets(130), Ok(()));
    let (roots, children) = tree.take_root_and_child();
    for item in roots.iter().chain(children.iter()) {
        for index in item.children() {
            assert!((*index as usize) < children.len());
        }
    }
    // children come in the order in which they were attached: at once, then on sealing
    assert_eq!(roots[0].children(), &[0, 7]);
    assert_eq!(roots[1].children(), &[3]);
    assert_eq!(roots[2].children(), &[4, 1]);
    assert_eq!(roots[3].children(), &[5]);
    assert_eq!(children[0].children(), &[2]);
    assert_eq!(children[1].children(), &[6]);
}

#[test]
fn every_span_ends_where_the_next_entry_begins() {
    let mut tree = mixed();
    assert_eq!(tree.set_pack_entries_end_and_resolve_ref_offsets(130), Ok(()));
    let (roots, children) = tree.take_root_and_child();
    let mut spans: Vec<(u64, u64)> =
        roots.iter().chain(children.iter()).map(|item| (item.offset, item.next_offset)).collect();
    spans.sort();
    let expected: Vec<(u64, u64)> = (1..=12u64).map(|n| (n * 10, n * 10 + 10)).collect();
    assert_eq!(spans, expected);
}

#[test]
fn data_stays_with_its_item() {
    let tree = mixed();
    let (roots, children) = tree.take_root_and_child();
    let data: Vec<u32> = roots.iter().map(|item| item.data).collect();
    assert_eq!(data, vec![0, 3, 6, 10]);
    let data: Vec<u32> = children.iter().map(|item| item.data).collect();
    assert_eq!(data, vec![1, 2, 4, 5, 7, 8, 9, 11]);
    // before sealing the last span is open
    assert_eq!(children[7].next_offset, 0);
    assert_eq!(roots[3].next_offset, 120);
}

#[test]
fn refused_call_after_refused_call_changes_nothing() {
    let mut tree: Tree<u8> = Tree::with_capacity(4).unwrap();
    assert_eq!(tree.add_root(100, 0), Ok(()));
    assert_eq!(
        tree.add_child(100, 50, 1),
        Err(Error::NonMonotonicOffset { last_pack_offset: 100, pack_offset: 50 })
    );
    assert_eq!(
        tree.add_root(50, 2),
        Err(Error::NonMonotonicOffset { last_pack_offset: 100, pack_offset: 50 })
    );
    assert_eq!(
        tree.assert_is_incrementing_and_update_next_offset(100),
        Err(Error::NonMonotonicOffset { last_pack_offset: 100, pack_offset: 100 })
    );
    assert_eq!(tree.num_items(), 1);
    assert_eq!(tree.add_child(100, 101, 3), Ok(()));
    let (roots, children) = tree.take_root_and_child();
    assert_eq!(offsets(&roots), vec![(100, 101)]);
    assert_eq!(offsets(&children), vec![(101, 0)]);
    assert_eq!(roots[0].children(), &[0]);
}
