//! Walking a sealed tree so that each delta is decoded after its base.

use vstd::prelude::*;
use crate::item::{views, Item};
use crate::traverse_model::{Action, Event, Node, TraversalView};
use crate::traverse_proofs::{room_for_one_more, start_is_sound, step_is_sound};
use crate::tree::Tree;

verus! {

/// What a traversal came to.
pub struct Outcome {
    /// The number of full objects that were decoded.
    pub decoded_roots: usize,
    /// The number of deltas that were decoded.
    pub decoded_children: usize,
    /// The offsets of the entries that could not be decoded.
    pub failures: Vec<u64>,
    /// Whether the traversal was stopped before its end.
    pub interrupted: bool,
}

/// The state of a traversal: it hands out entries for decoding, a delta only
/// after its base was decoded, and takes note of how each went. Several entries
/// may be in flight at a time.
pub struct Traversal<T> {
    roots: Vec<Item<T>>,
    children: Vec<Item<T>>,
    next_root: usize,
    ready: Vec<(usize, Node)>,
    in_flight: Vec<Node>,
    decoded_roots: usize,
    decoded_children: usize,
    failures: Vec<u64>,
    interrupted: bool,
    history: Ghost<Seq<Node>>,
    roots_done: Ghost<Set<int>>,
    children_done: Ghost<Set<int>>,
}

impl<T> View for Traversal<T> {
    type V = TraversalView<T>;

    closed spec fn view(&self) -> TraversalView<T> {
        TraversalView {
            roots: views(self.roots@),
            children: views(self.children@),
            next_root: self.next_root as nat,
            ready: self.ready@,
            in_flight: self.in_flight@,
            decoded_roots: self.decoded_roots as nat,
            decoded_children: self.decoded_children as nat,
            failures: self.failures@,
            interrupted: self.interrupted,
            history: self.history@,
            roots_done: self.roots_done@,
            children_done: self.children_done@,
        }
    }
}

/// The position of the first occurrence of `node` in `list`.
fn position_of_node(list: &Vec<Node>, node: Node) -> (found: Option<usize>)
    ensures
        match found {
            Some(at) => at < list@.len() && list@[at as int] == node && list@.index_of_first(node)
                == Some(at as int),
            None => !list@.contains(node),
        },
{
    let mut at: usize = 0;
    while at < list.len()
        invariant
            at <= list.len(),
            forall|before: int| 0 <= before < at ==> list@[before] != node,
        decreases list.len() - at,
    {
        if list[at] == node {
            proof {
                list@.index_of_first_ensures(node);
            }
            return Some(at);
        }
        at += 1;
    }
    None
}

/// Adds the children of `item`, each with `node` as its base, behind `ready`.
fn push_dependents<T>(ready: &mut Vec<(usize, Node)>, item: &Item<T>, node: Node)
    ensures
        final(ready)@ == old(ready)@ + Seq::new(
            item@.children.len(),
            |at: int| (item@.children[at] as usize, node),
        ),
{
    let list = item.children();
    let mut at: usize = 0;
    while at < list.len()
        invariant
            at <= list.len(),
            list@ == item@.children,
            ready@ == old(ready)@ + Seq::new(
                at as nat,
                |k: int| (item@.children[k] as usize, node),
            ),
        decreases list.len() - at,
    {
        ready.push((list[at] as usize, node));
        at += 1;
        assert(ready@ =~= old(ready)@ + Seq::new(
            at as nat,
            |k: int| (item@.children[k] as usize, node),
        ));
    }
    assert(ready@ =~= old(ready)@ + Seq::new(
        item@.children.len(),
        |k: int| (item@.children[k] as usize, node),
    ));
}

impl<T> Traversal<T> {
    /// Whether the state is one that a traversal can reach.
    pub open spec fn wf(&self) -> bool {
        self@.inv()
    }

    /// The traversal of the items of `tree`, before its first step.
    pub fn new(tree: Tree<T>) -> (traversal: Traversal<T>)
        requires
            tree.wf(),
        ensures
            traversal@ == TraversalView::start(tree@),
            traversal.wf(),
    {
        let (roots, children) = tree.take_root_and_child();
        let traversal = Traversal {
            roots,
            children,
            next_root: 0,
            ready: Vec::new(),
            in_flight: Vec::new(),
            decoded_roots: 0,
            decoded_children: 0,
            failures: Vec::new(),
            interrupted: false,
            history: Ghost(Seq::empty()),
            roots_done: Ghost(Set::empty()),
            children_done: Ghost(Set::empty()),
        };
        proof {
            assert(tree@.roots.len() == traversal.roots.len());
            assert(tree@.children.len() == traversal.children.len());
            start_is_sound(tree@);
        }
        traversal
    }

    /// Takes note that `node` was decoded, where it is in flight: counts it and
    /// makes its dependents ready.
    fn note_decoded(&mut self, node: Node)
        requires
            old(self).wf(),
        ensures
            final(self)@ == old(self)@.settled(Event::Decoded(node)),
    {
        if let Some(at) = position_of_node(&self.in_flight, node) {
            proof {
                let flying = self@.in_flight[at as int];
                assert(self@.history.contains(flying));
                let handed = choose|k: int| 0 <= k < self@.history.len() && self@.history[k] == node;
                assert(self@.has_node(self@.history[handed]));
                assert(!self@.succeeded(node));
            }
            self.in_flight.remove(at);
            match node {
                Node::Root(i) => {
                    proof {
                        room_for_one_more(self@.roots_done, i as int, self@.roots.len());
                        self.roots_done@ = self.roots_done@.insert(i as int);
                    }
                    self.decoded_roots += 1;
                    push_dependents(&mut self.ready, &self.roots[i], node);
                },
                Node::Child(i) => {
                    proof {
                        room_for_one_more(self@.children_done, i as int, self@.children.len());
                        self.children_done@ = self.children_done@.insert(i as int);
                    }
                    self.decoded_children += 1;
                    push_dependents(&mut self.ready, &self.children[i], node);
                },
            }
            assert(self@.ready =~= old(self)@.decoded(node).ready);
        }
    }

    /// Takes note that `node` could not be decoded, where it is in flight.
    fn note_failed(&mut self, node: Node)
        requires
            old(self).wf(),
        ensures
            final(self)@ == old(self)@.settled(Event::Failed(node)),
    {
        if let Some(at) = position_of_node(&self.in_flight, node) {
            proof {
                let flying = self@.in_flight[at as int];
                assert(self@.history.contains(flying));
                let handed = choose|k: int| 0 <= k < self@.history.len() && self@.history[k] == node;
                assert(self@.has_node(self@.history[handed]));
            }
            self.in_flight.remove(at);
            let offset: u64 = match node {
                Node::Root(i) => {
                    proof {
                        self.roots@[i as int].view_fields();
                    }
                    self.roots[i].offset
                },
                Node::Child(i) => {
                    proof {
                        self.children@[i as int].view_fields();
                    }
                    self.children[i].offset
                },
            };
            self.failures.push(offset);
        }
    }

    /// Takes note of `event` and of a request to interrupt, and says what to do
    /// next: to decode one more entry, whose base was decoded before; to wait for
    /// a report on an entry in flight; or to finish.
    ///
    /// An event that reports on an entry which is not in flight changes nothing.
    /// An entry that failed takes all that is based on it out of the traversal.
    /// Once `should_interrupt` was set, no entry is handed out any more; reports
    /// on the entries in flight are still taken.
    #[verifier::rlimit(40)]
    pub fn advance(&mut self, event: Event, should_interrupt: bool) -> (action: Action)
        requires
            old(self).wf(),
        ensures
            final(self).wf(),
            final(self)@ == old(self)@.after(event, should_interrupt),
            action == old(self)@.action_on(event, should_interrupt),
    {
        proof {
            step_is_sound(self@, event, should_interrupt);
        }
        match event {
            Event::Decoded(node) => {
                self.note_decoded(node);
            },
            Event::Failed(node) => {
                self.note_failed(node);
            },
            Event::Nothing => {},
        }
        if should_interrupt {
            self.interrupted = true;
        }
        assert(self@ == old(self)@.settled(event).flagged(should_interrupt));
        if !self.interrupted && self.ready.len() > 0 {
            let (child, base): (usize, Node) = self.ready.pop().unwrap();
            let node = Node::Child(child);
            self.in_flight.push(node);
            proof {
                self.history@ = self.history@.push(node);
            }
            Action::Decode { node, base: Some(base) }
        } else if !self.interrupted && self.next_root < self.roots.len() {
            let node = Node::Root(self.next_root);
            self.next_root += 1;
            self.in_flight.push(node);
            proof {
                self.history@ = self.history@.push(node);
            }
            Action::Decode { node, base: None }
        } else if self.in_flight.len() > 0 {
            Action::Wait
        } else {
            Action::Finish
        }
    }

    /// The item `node`, where the tree has it.
    pub fn get(&self, node: Node) -> (item: Option<&Item<T>>)
        ensures
            item is Some <==> self@.has_node(node),
            item is Some ==> item.unwrap()@ == self@.item(node),
    {
        match node {
            Node::Root(i) => if i < self.roots.len() {
                Some(&self.roots[i])
            } else {
                None
            },
            Node::Child(i) => if i < self.children.len() {
                Some(&self.children[i])
            } else {
                None
            },
        }
    }

    /// What the traversal came to so far.
    pub fn into_outcome(self) -> (outcome: Outcome)
        ensures
            outcome.decoded_roots == self@.decoded_roots,
            outcome.decoded_children == self@.decoded_children,
            outcome.failures@ == self@.failures,
            outcome.interrupted == self@.interrupted,
    {
        Outcome {
            decoded_roots: self.decoded_roots,
            decoded_children: self.decoded_children,
            failures: self.failures,
            interrupted: self.interrupted,
        }
    }
}

} // verus!
