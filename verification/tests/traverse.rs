use delta_tree::traverse::Traversal;
use delta_tree::traverse_model::{Action, Event, Node};
use delta_tree::tree::Tree;

/// Runs the traversal to its end; entries at an offset in `broken` fail to decode.
fn run(tree: Tree<()>, broken: &[u64]) -> (Vec<(u64, Option<u64>)>, Traversal<()>) {
    let mut traversal = Traversal::new(tree);
    let mut order = Vec::new();
    let mut event = Event::Nothing;
    loop {
        match traversal.advance(event, false) {
            Action::Finish => break,
            Action::Wait => panic!("each entry is reported before the next is asked for"),
            Action::Decode { node, base } => {
                let offset = traversal.get(node).unwrap().offset;
                let base_offset = base.map(|base| traversal.get(base).unwrap().offset);
                order.push((offset, base_offset));
                event = if broken.contains(&offset) {
                    Event::Failed(node)
                } else {
                    Event::Decoded(node)
                };
            }
        }
    }
    (order, traversal)
}

fn chain() -> Tree<()> {
    let mut tree: Tree<()> = Tree::with_capacity(3).unwrap();
    tree.add_root(12, ()).unwrap();
    tree.add_child(12, 40, ()).unwrap();
    tree.add_child(40, 90, ()).unwrap();
    tree.set_pack_entries_end_and_resolve_ref_offsets(120).unwrap();
    tree
}

fn forest() -> Tree<()> {
    // 10 <- 30 <- 50, 10 <- 40, 20 <- 60
    let mut tree: Tree<()> = Tree::with_capacity(6).unwrap();
    tree.add_root(10, ()).unwrap();
    tree.add_root(20, ()).unwrap();
    tree.add_child(10, 30, ()).unwrap();
    tree.add_child(10, 40, ()).unwrap();
    tree.add_child(30, 50, ()).unwrap();
    tree.add_child(20, 60, ()).unwrap();
    tree.set_pack_entries_end_and_resolve_ref_offsets(70).unwrap();
    tree
}

#[test]
fn chain_is_decoded_in_the_order_of_dependency() {
    let (order, traversal) = run(chain(), &[]);
    assert_eq!(order, vec![(12, None), (40, Some(12)), (90, Some(40))]);
    let outcome = traversal.into_outcome();
    assert_eq!(outcome.decoded_roots, 1);
    assert_eq!(outcome.decoded_children, 2);
    assert!(outcome.failures.is_empty());
    assert!(!outcome.interrupted);
}

#[test]
fn every_base_comes_before_its_dependents() {
    let (order, traversal) = run(forest(), &[]);
    assert_eq!(order.len(), 6);
    for (at, (_, base)) in order.iter().enumerate() {
        if let Some(base) = base {
            let before = order.iter().position(|(offset, _)| offset == base).unwrap();
            assert!(before < at);
        }
    }
    let mut offsets: Vec<u64> = order.iter().map(|(offset, _)| *offset).collect();
    offsets.sort();
    assert_eq!(offsets, vec![10, 20, 30, 40, 50, 60]);
    let outcome = traversal.into_outcome();
    assert_eq!(outcome.decoded_roots, 2);
    assert_eq!(outcome.decoded_children, 4);
}

#[test]
fn forest_is_walked_depth_first_last_child_first() {
    let (order, _) = run(forest(), &[]);
    assert_eq!(
        order,
        vec![(10, None), (40, Some(10)), (30, Some(10)), (50, Some(30)), (20, None), (60, Some(20))]
    );
}

#[test]
fn failure_takes_out_the_subtree_only() {
    let (order, traversal) = run(forest(), &[30]);
    let offsets: Vec<u64> = order.iter().map(|(offset, _)| *offset).collect();
    // 50 is based on 30 and is never handed out; the others are
    assert_eq!(offsets, vec![10, 40, 30, 20, 60]);
    let outcome = traversal.into_outcome();
    assert_eq!(outcome.decoded_roots, 2);
    assert_eq!(outcome.decoded_children, 2);
    assert_eq!(outcome.failures, vec![30]);
    assert!(!outcome.interrupted);
}

#[test]
fn failed_root_leaves_the_other_roots() {
    let (order, traversal) = run(forest(), &[10]);
    let offsets: Vec<u64> = order.iter().map(|(offset, _)| *offset).collect();
    assert_eq!(offsets, vec![10, 20, 60]);
    let outcome = traversal.into_outcome();
    assert_eq!(outcome.decoded_roots, 1);
    assert_eq!(outcome.decoded_children, 1);
    assert_eq!(outcome.failures, vec![10]);
}

#[test]
fn interruption_lets_the_entry_in_flight_finish() {
    let mut traversal = Traversal::new(forest());
    assert_eq!(
        traversal.advance(Event::Nothing, false),
        Action::Decode { node: Node::Root(0), base: None }
    );
    assert_eq!(
        traversal.advance(Event::Decoded(Node::Root(0)), false),
        Action::Decode { node: Node::Child(1), base: Some(Node::Root(0)) }
    );
    // the flag is seen while an entry is in flight: its report is waited for
    assert_eq!(traversal.advance(Event::Nothing, true), Action::Wait);
    assert_eq!(traversal.advance(Event::Nothing, false), Action::Wait);
    assert_eq!(traversal.advance(Event::Decoded(Node::Child(1)), false), Action::Finish);
    assert_eq!(traversal.advance(Event::Nothing, false), Action::Finish);
    let outcome = traversal.into_outcome();
    assert_eq!(outcome.decoded_roots, 1);
    assert_eq!(outcome.decoded_children, 1);
    assert!(outcome.failures.is_empty());
    assert!(outcome.interrupted);
}

#[test]
fn interruption_with_the_last_report_finishes_at_once() {
    let mut traversal = Traversal::new(forest());
    assert_eq!(
        traversal.advance(Event::Nothing, false),
        Action::Decode { node: Node::Root(0), base: None }
    );
    assert_eq!(traversal.advance(Event::Failed(Node::Root(0)), true), Action::Finish);
    let outcome = traversal.into_outcome();
    assert_eq!(outcome.decoded_roots, 0);
    assert_eq!(outcome.failures, vec![10]);
    assert!(outcome.interrupted);
}

#[test]
fn several_entries_may_be_in_flight() {
    let mut traversal = Traversal::new(forest());
    assert_eq!(
        traversal.advance(Event::Nothing, false),
        Action::Decode { node: Node::Root(0), base: None }
    );
    assert_eq!(
        traversal.advance(Event::Nothing, false),
        Action::Decode { node: Node::Root(1), base: None }
    );
    // both roots are in flight and no delta is ready
    assert_eq!(traversal.advance(Event::Nothing, false), Action::Wait);
    // the second root is reported first: its dependent becomes ready
    assert_eq!(
        traversal.advance(Event::Decoded(Node::Root(1)), false),
        Action::Decode { node: Node::Child(3), base: Some(Node::Root(1)) }
    );
    assert_eq!(traversal.advance(Event::Nothing, false), Action::Wait);
    assert_eq!(
        traversal.advance(Event::Decoded(Node::Root(0)), false),
        Action::Decode { node: Node::Child(1), base: Some(Node::Root(0)) }
    );
    assert_eq!(
        traversal.advance(Event::Nothing, false),
        Action::Decode { node: Node::Child(0), base: Some(Node::Root(0)) }
    );
    assert_eq!(traversal.advance(Event::Decoded(Node::Child(3)), false), Action::Wait);
    assert_eq!(traversal.advance(Event::Decoded(Node::Child(1)), false), Action::Wait);
    assert_eq!(
        traversal.advance(Event::Decoded(Node::Child(0)), false),
        Action::Decode { node: Node::Child(2), base: Some(Node::Child(0)) }
    );
    assert_eq!(traversal.advance(Event::Decoded(Node::Child(2)), false), Action::Finish);
    let outcome = traversal.into_outcome();
    assert_eq!((outcome.decoded_roots, outcome.decoded_children), (2, 4));
    assert!(!outcome.interrupted);
}

#[test]
fn report_on_an_entry_that_is_not_in_flight_changes_nothing() {
    let mut traversal = Traversal::new(chain());
    // nothing was handed out yet
    assert_eq!(
        traversal.advance(Event::Decoded(Node::Root(0)), false),
        Action::Decode { node: Node::Root(0), base: None }
    );
    // no such entry
    assert_eq!(traversal.advance(Event::Decoded(Node::Child(9)), false), Action::Wait);
    assert_eq!(traversal.advance(Event::Failed(Node::Root(5)), false), Action::Wait);
    assert_eq!(
        traversal.advance(Event::Decoded(Node::Root(0)), false),
        Action::Decode { node: Node::Child(0), base: Some(Node::Root(0)) }
    );
    // reported twice
    assert_eq!(traversal.advance(Event::Decoded(Node::Root(0)), false), Action::Wait);
    assert_eq!(traversal.advance(Event::Failed(Node::Root(0)), false), Action::Wait);
    assert_eq!(traversal.advance(Event::Failed(Node::Child(0)), false), Action::Finish);
    let outcome = traversal.into_outcome();
    assert_eq!((outcome.decoded_roots, outcome.decoded_children), (1, 0));
    assert_eq!(outcome.failures, vec![40]);
}

#[test]
fn empty_tree_finishes_at_once() {
    let tree: Tree<()> = Tree::with_capacity(0).unwrap();
    let (order, traversal) = run(tree, &[]);
    assert!(order.is_empty());
    assert!(traversal.get(Node::Root(0)).is_none());
    assert!(traversal.get(Node::Child(0)).is_none());
    let outcome = traversal.into_outcome();
    assert_eq!(outcome.decoded_roots, 0);
    assert_eq!(outcome.decoded_children, 0);
}

#[test]
fn delta_without_a_root_above_it_is_never_handed_out() {
    // 10 is based on itself, so that nothing leads to it from a root
    let mut tree: Tree<()> = Tree::with_capacity(2).unwrap();
    tree.add_child(10, 10, ()).unwrap();
    tree.add_root(20, ()).unwrap();
    tree.set_pack_entries_end_and_resolve_ref_offsets(30).unwrap();
    let (order, _) = run(tree, &[]);
    assert_eq!(order, vec![(20, None)]);
}

/// Twelve entries whose content is one byte each; a delta adds its byte behind
/// the content of its base.
fn entries() -> Vec<(Option<u64>, u64, u8)> {
    vec![
        (None, 10, b'a'),
        (Some(10), 20, b'b'),
        (Some(70), 30, b'c'),
        (None, 40, b'd'),
        (Some(20), 50, b'e'),
        (Some(40), 60, b'f'),
        (None, 70, b'g'),
        (Some(70), 80, b'h'),
        (Some(110), 90, b'i'),
        (Some(30), 100, b'j'),
        (None, 110, b'k'),
        (Some(10), 120, b'l'),
    ]
}

/// The content of the entry at `offset`, resolved by following its bases.
fn resolve_naively(entries: &[(Option<u64>, u64, u8)], offset: u64) -> Vec<u8> {
    let (base, _, byte) = entries.iter().find(|(_, at, _)| *at == offset).unwrap();
    let mut content = match base {
        Some(base) => resolve_naively(entries, *base),
        None => Vec::new(),
    };
    content.push(*byte);
    content
}

#[test]
fn traversal_reconstructs_what_linear_application_gives() {
    let entries = entries();
    let mut tree: Tree<u8> = Tree::with_capacity(entries.len()).unwrap();
    for (base, offset, byte) in &entries {
        match base {
            None => tree.add_root(*offset, *byte).unwrap(),
            Some(base) => tree.add_child(*base, *offset, *byte).unwrap(),
        }
    }
    tree.set_pack_entries_end_and_resolve_ref_offsets(130).unwrap();

    let mut traversal = Traversal::new(tree);
    let mut decoded: std::collections::HashMap<Node, Vec<u8>> = std::collections::HashMap::new();
    let mut seen: Vec<(u64, Vec<u8>)> = Vec::new();
    let mut event = Event::Nothing;
    loop {
        match traversal.advance(event, false) {
            Action::Finish => break,
            Action::Wait => panic!("each entry is reported before the next is asked for"),
            Action::Decode { node, base } => {
                let item = traversal.get(node).unwrap();
                let mut content = match base {
                    Some(base) => decoded.get(&base).expect("base was decoded before").clone(),
                    None => Vec::new(),
                };
                content.push(item.data);
                seen.push((item.offset, content.clone()));
                decoded.insert(node, content);
                event = Event::Decoded(node);
            }
        }
    }
    assert_eq!(seen.len(), entries.len());
    for (offset, content) in &seen {
        assert_eq!(content, &resolve_naively(&entries, *offset));
    }
    seen.sort();
    let offsets: Vec<u64> = seen.iter().map(|(offset, _)| *offset).collect();
    assert_eq!(offsets, (1..=12u64).map(|n| n * 10).collect::<Vec<u64>>());
    assert_eq!(seen[9].1, b"gcj".to_vec());
    let outcome = traversal.into_outcome();
    assert_eq!((outcome.decoded_roots, outcome.decoded_children), (4, 8));
}
