//! The mathematical model of a traversal: which entries were handed out for
//! decoding, in which order, and which of them are ready next.

use vstd::prelude::*;
use crate::item::ItemView;
use crate::model::TreeView;

verus! {

/// An item of a tree.
#[derive(Clone, Copy, Debug, PartialEq, Eq, Hash, Structural)]
pub enum Node {
    /// The root item with the given index.
    Root(usize),
    /// The child item with the given index.
    Child(usize),
}

/// What happened outside since the last step.
#[derive(Clone, Copy, Debug, PartialEq, Eq, Structural)]
pub enum Event {
    /// Nothing that is to be reported.
    Nothing,
    /// The entry was decoded.
    Decoded(Node),
    /// The entry could not be decoded.
    Failed(Node),
}

/// What is to be done next.
#[derive(Clone, Copy, Debug, PartialEq, Eq, Structural)]
pub enum Action {
    /// Decode the entry `node`: as it is where `base` is `None`, else by applying
    /// it to the decoded bytes of `base`.
    Decode { node: Node, base: Option<Node> },
    /// Nothing can be handed out before an entry in flight is reported.
    Wait,
    /// Nothing is left to do.
    Finish,
}

/// Whether `node` is one of the items `roots` and `children`.
pub open spec fn is_node_of<T>(
    roots: Seq<ItemView<T>>,
    children: Seq<ItemView<T>>,
    node: Node,
) -> bool {
    match node {
        Node::Root(i) => i < roots.len(),
        Node::Child(i) => i < children.len(),
    }
}

/// The item `node` among `roots` and `children`.
pub open spec fn item_of<T>(
    roots: Seq<ItemView<T>>,
    children: Seq<ItemView<T>>,
    node: Node,
) -> ItemView<T> {
    match node {
        Node::Root(i) => roots[i as int],
        Node::Child(i) => children[i as int],
    }
}

/// Whether the index `child` stands among the children of the item `node`.
pub open spec fn is_based_on<T>(
    roots: Seq<ItemView<T>>,
    children: Seq<ItemView<T>>,
    node: Node,
    child: usize,
) -> bool {
    is_node_of(roots, children, node) && exists|at: int|
        0 <= at < item_of(roots, children, node).children.len() && #[trigger] item_of(
            roots,
            children,
            node,
        ).children[at] as int == child
}

/// The children of the item `node`, each with `node` as its base.
pub open spec fn dependents_of<T>(
    roots: Seq<ItemView<T>>,
    children: Seq<ItemView<T>>,
    node: Node,
) -> Seq<(usize, Node)> {
    Seq::new(
        item_of(roots, children, node).children.len(),
        |at: int| (item_of(roots, children, node).children[at] as usize, node),
    )
}

/// The mathematical value of a traversal.
pub struct TraversalView<T> {
    /// The full objects of the tree.
    pub roots: Seq<ItemView<T>>,
    /// The deltas of the tree.
    pub children: Seq<ItemView<T>>,
    /// The number of full objects that were handed out.
    pub next_root: nat,
    /// The deltas whose base was decoded and that were not handed out yet, each
    /// with its base; the last one is handed out next.
    pub ready: Seq<(usize, Node)>,
    /// The entries that were handed out and are not reported yet.
    pub in_flight: Seq<Node>,
    /// The number of full objects that were decoded.
    pub decoded_roots: nat,
    /// The number of deltas that were decoded.
    pub decoded_children: nat,
    /// The offsets of the entries that could not be decoded, in the order of the
    /// reports.
    pub failures: Seq<u64>,
    /// Whether the traversal was stopped before its end.
    pub interrupted: bool,
    /// The entries that were handed out, in order.
    pub history: Seq<Node>,
    /// The indices of the full objects that were reported as decoded.
    pub roots_done: Set<int>,
    /// The indices of the deltas that were reported as decoded.
    pub children_done: Set<int>,
}

impl<T> TraversalView<T> {
    /// The traversal of `tree` before its first step.
    pub open spec fn start(tree: TreeView<T>) -> TraversalView<T> {
        TraversalView {
            roots: tree.roots,
            children: tree.children,
            next_root: 0,
            ready: Seq::empty(),
            in_flight: Seq::empty(),
            decoded_roots: 0,
            decoded_children: 0,
            failures: Seq::empty(),
            interrupted: false,
            history: Seq::empty(),
            roots_done: Set::empty(),
            children_done: Set::empty(),
        }
    }

    /// The items of the traversal as a tree without forward references.
    pub open spec fn tree(self) -> TreeView<T> {
        TreeView {
            roots: self.roots,
            children: self.children,
            last_seen: None,
            pending: Seq::empty(),
        }
    }

    /// Whether `node` is an item of the tree.
    pub open spec fn has_node(self, node: Node) -> bool {
        is_node_of(self.roots, self.children, node)
    }

    /// The item `node`.
    pub open spec fn item(self, node: Node) -> ItemView<T> {
        item_of(self.roots, self.children, node)
    }

    /// Whether the child item with index `child` is based on `node`: its index
    /// stands among the children of `node`.
    pub open spec fn is_base_of(self, node: Node, child: usize) -> bool {
        is_based_on(self.roots, self.children, node, child)
    }

    /// The deltas that become ready once `node` is decoded: its children, each
    /// with `node` as its base.
    pub open spec fn dependents(self, node: Node) -> Seq<(usize, Node)> {
        dependents_of(self.roots, self.children, node)
    }

    /// Whether `node` was reported as decoded.
    pub open spec fn succeeded(self, node: Node) -> bool {
        match node {
            Node::Root(i) => self.roots_done.contains(i as int),
            Node::Child(i) => self.children_done.contains(i as int),
        }
    }

    /// The traversal after `node`, which was in flight, was reported as decoded.
    pub open spec fn decoded(self, node: Node) -> TraversalView<T> {
        match node {
            Node::Root(i) => TraversalView {
                in_flight: self.in_flight.remove_value(node),
                decoded_roots: self.decoded_roots + 1,
                roots_done: self.roots_done.insert(i as int),
                ready: self.ready + self.dependents(node),
                ..self
            },
            Node::Child(i) => TraversalView {
                in_flight: self.in_flight.remove_value(node),
                decoded_children: self.decoded_children + 1,
                children_done: self.children_done.insert(i as int),
                ready: self.ready + self.dependents(node),
                ..self
            },
        }
    }

    /// The traversal after `node`, which was in flight, was reported as failed.
    pub open spec fn failed(self, node: Node) -> TraversalView<T> {
        TraversalView {
            in_flight: self.in_flight.remove_value(node),
            failures: self.failures.push(self.item(node).offset),
            ..self
        }
    }

    /// The traversal after `event` was taken note of. A report on an entry that
    /// is not in flight changes nothing.
    pub open spec fn settled(self, event: Event) -> TraversalView<T> {
        match event {
            Event::Decoded(node) => if self.in_flight.contains(node) {
                self.decoded(node)
            } else {
                self
            },
            Event::Failed(node) => if self.in_flight.contains(node) {
                self.failed(node)
            } else {
                self
            },
            Event::Nothing => self,
        }
    }

    /// The traversal after the request to interrupt it, if there is one, was taken
    /// note of.
    pub open spec fn flagged(self, should_interrupt: bool) -> TraversalView<T> {
        TraversalView { interrupted: self.interrupted || should_interrupt, ..self }
    }

    /// Whether an entry can be handed out: the traversal goes on, and a delta is
    /// ready or a full object is left.
    pub open spec fn can_hand_out(self) -> bool {
        !self.interrupted && (self.ready.len() > 0 || self.next_root < self.roots.len())
    }

    /// The entry that is handed out next, and its base, where one can be handed out.
    pub open spec fn upcoming(self) -> (Node, Option<Node>) {
        if self.ready.len() > 0 {
            (Node::Child(self.ready.last().0), Some(self.ready.last().1))
        } else {
            (Node::Root(self.next_root as usize), None)
        }
    }

    /// The traversal after the upcoming entry was handed out.
    pub open spec fn handed_out(self) -> TraversalView<T> {
        if self.ready.len() > 0 {
            TraversalView {
                ready: self.ready.drop_last(),
                in_flight: self.in_flight.push(self.upcoming().0),
                history: self.history.push(self.upcoming().0),
                ..self
            }
        } else {
            TraversalView {
                next_root: self.next_root + 1,
                in_flight: self.in_flight.push(self.upcoming().0),
                history: self.history.push(self.upcoming().0),
                ..self
            }
        }
    }

    /// The traversal after a step: `event` and the request to interrupt are taken
    /// note of, and an entry is handed out where one can be.
    pub open spec fn after(self, event: Event, should_interrupt: bool) -> TraversalView<T> {
        let noted = self.settled(event).flagged(should_interrupt);
        if noted.can_hand_out() {
            noted.handed_out()
        } else {
            noted
        }
    }

    /// What a step asks for: to decode the entry that it hands out; else to wait
    /// while entries are in flight; else to finish.
    pub open spec fn action_on(self, event: Event, should_interrupt: bool) -> Action {
        let noted = self.settled(event).flagged(should_interrupt);
        if noted.can_hand_out() {
            Action::Decode { node: noted.upcoming().0, base: noted.upcoming().1 }
        } else if noted.in_flight.len() > 0 {
            Action::Wait
        } else {
            Action::Finish
        }
    }

    /// Whether the entry at position `at` of the history, if it is a delta, has its
    /// base before it in the history, reported as decoded.
    pub open spec fn base_came_before(self, at: int) -> bool {
        self.history[at] is Child ==> exists|before: int|
            0 <= before < at && self.is_base_of(
                #[trigger] self.history[before],
                self.history[at]->Child_0,
            ) && self.succeeded(self.history[before])
    }

    /// Whether the delta at position `at` of those that are ready has its base in
    /// the history, reported as decoded, and was not handed out itself.
    pub open spec fn ready_is_due(self, at: int) -> bool {
        &&& self.is_base_of(self.ready[at].1, self.ready[at].0)
        &&& self.succeeded(self.ready[at].1)
        &&& self.history.contains(self.ready[at].1)
        &&& !self.history.contains(Node::Child(self.ready[at].0))
    }

    /// Whether the delta with index `child` was handed out or is ready for it.
    pub open spec fn is_scheduled(self, child: usize) -> bool {
        self.history.contains(Node::Child(child)) || exists|at: int|
            0 <= at < self.ready.len() && (#[trigger] self.ready[at]).0 == child
    }

    /// What holds of a traversal at every step.
    pub open spec fn inv(self) -> bool {
        &&& self.tree().in_bounds()
        &&& self.tree().exclusive()
        &&& self.roots.len() <= usize::MAX
        &&& self.children.len() <= usize::MAX
        &&& self.next_root <= self.roots.len()
        &&& self.roots_done.finite()
        &&& self.children_done.finite()
        &&& self.decoded_roots == self.roots_done.len()
        &&& self.decoded_children == self.children_done.len()
        &&& forall|i: int| #[trigger] self.roots_done.contains(i) ==> 0 <= i < self.roots.len()
        &&& forall|i: int| #[trigger]
            self.children_done.contains(i) ==> 0 <= i < self.children.len()
        &&& self.history.no_duplicates()
        &&& self.in_flight.no_duplicates()
        &&& forall|at: int| 0 <= at < self.history.len() ==> self.has_node(#[trigger] self.history[at])
        &&& forall|i: usize| #[trigger]
            self.history.contains(Node::Root(i)) <==> i < self.next_root
        &&& forall|at: int| 0 <= at < self.history.len() ==> #[trigger] self.base_came_before(at)
        &&& forall|at: int| 0 <= at < self.ready.len() ==> #[trigger] self.ready_is_due(at)
        &&& forall|a: int, b: int|
            0 <= a < b < self.ready.len() ==> (#[trigger] self.ready[a]).0 != (
            #[trigger] self.ready[b]).0
        &&& forall|node: Node| #[trigger]
            self.succeeded(node) ==> self.history.contains(node) && !self.in_flight.contains(node)
        &&& forall|at: int|
            0 <= at < self.in_flight.len() ==> self.history.contains(#[trigger] self.in_flight[at])
        &&& forall|node: Node, child: usize|
            self.succeeded(node) && #[trigger] self.is_base_of(node, child) ==> self.is_scheduled(
                child,
            )
    }
}

} // verus!
