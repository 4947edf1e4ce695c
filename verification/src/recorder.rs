//! Recording the changes between two trees, each with the path it affects.

use std::collections::VecDeque;
use vstd::prelude::*;
use crate::bytes::{is_last_position, rfind_byte};

verus! {

/// The byte between the elements of a path, `/`.
pub const SEPARATOR: u8 = 47;

/// How the location of a change is tracked.
#[derive(Debug, Clone, Copy, PartialEq, Eq, Structural)]
pub enum Location {
    /// Track the entire path, relative to the repository.
    Path,
    /// Keep only the file name, which is less costly than the entire path.
    FileName,
}

/// How an entry relates to a directory that changed as a whole.
#[derive(Debug, Clone, Copy, PartialEq, Eq, Structural)]
pub enum Relation {
    /// The entry is a child of the parent with the given id.
    ChildOfParent(u32),
    /// The entry is a parent with the given id.
    Parent(u32),
}

/// What the recorder answers to a change.
#[derive(Debug, Clone, Copy, PartialEq, Eq, Structural)]
pub enum Action {
    /// Go on with the next change.
    Continue,
    /// Stop.
    Cancel,
}

/// A change between two trees as it is observed, without its path.
#[derive(Debug, Clone, Copy)]
pub enum Observed {
    Addition { entry_mode: u16, oid: [u8; 20], relation: Option<Relation> },
    Deletion { entry_mode: u16, oid: [u8; 20], relation: Option<Relation> },
    Modification {
        previous_entry_mode: u16,
        previous_oid: [u8; 20],
        entry_mode: u16,
        oid: [u8; 20],
    },
}

/// A change between two trees with the path that it affects.
#[derive(Debug, Clone, PartialEq, Eq)]
pub enum Change {
    Addition { entry_mode: u16, oid: [u8; 20], path: Vec<u8>, relation: Option<Relation> },
    Deletion { entry_mode: u16, oid: [u8; 20], path: Vec<u8>, relation: Option<Relation> },
    Modification {
        previous_entry_mode: u16,
        previous_oid: [u8; 20],
        entry_mode: u16,
        oid: [u8; 20],
        path: Vec<u8>,
    },
}

impl Change {
    /// Whether this is `observed` at `path`.
    pub open spec fn is_observed_at(self, observed: Observed, path: Seq<u8>) -> bool {
        match observed {
            Observed::Addition { entry_mode, oid, relation } => self
                == (Change::Addition { entry_mode, oid, path: self->Addition_path, relation })
                && self->Addition_path@ == path,
            Observed::Deletion { entry_mode, oid, relation } => self
                == (Change::Deletion { entry_mode, oid, path: self->Deletion_path, relation })
                && self->Deletion_path@ == path,
            Observed::Modification { previous_entry_mode, previous_oid, entry_mode, oid } => self
                == (Change::Modification {
                previous_entry_mode,
                previous_oid,
                entry_mode,
                oid,
                path: self->Modification_path,
            }) && self->Modification_path@ == path,
        }
    }
}

/// The path without its last element: what stands before the last `/`, and
/// nothing where there is no `/`.
pub open spec fn parent_path(path: Seq<u8>) -> Seq<u8> {
    if path.contains(SEPARATOR) {
        path.take(choose|at: int| is_last_position(path, SEPARATOR, at))
    } else {
        Seq::empty()
    }
}

/// The path with `name` as one more element; the path itself where `name` is empty.
pub open spec fn child_path(path: Seq<u8>, name: Seq<u8>) -> Seq<u8> {
    if name.len() == 0 {
        path
    } else if path.len() == 0 {
        name
    } else {
        path.push(SEPARATOR) + name
    }
}

/// The last occurrence of a byte has one position.
pub proof fn last_position_is_unique(bytes: Seq<u8>, byte: u8, at: int)
    requires
        is_last_position(bytes, byte, at),
    ensures
        bytes.contains(byte),
        (choose|other: int| is_last_position(bytes, byte, other)) == at,
{
    let other = choose|other: int| is_last_position(bytes, byte, other);
    assert(is_last_position(bytes, byte, other));
    if other < at {
        assert(bytes[at] != byte);
    }
    if at < other {
        assert(bytes[other] != byte);
    }
}

/// The mathematical value of a [`Recorder`].
pub struct RecorderView {
    /// The paths of the directories that are still to be visited.
    pub path_deque: Seq<Seq<u8>>,
    /// The path of the entry that is visited now.
    pub path: Seq<u8>,
    /// How locations are tracked, if at all.
    pub location: Option<Location>,
    /// The changes seen so far.
    pub records: Seq<Change>,
}

/// Records each change that it is shown, with the path of the entry.
pub struct Recorder {
    path_deque: VecDeque<Vec<u8>>,
    path: Vec<u8>,
    location: Option<Location>,
    /// The observed changes.
    pub records: Vec<Change>,
}

impl View for Recorder {
    type V = RecorderView;

    closed spec fn view(&self) -> RecorderView {
        RecorderView {
            path_deque: Seq::new(self.path_deque@.len(), |i: int| self.path_deque@[i]@),
            path: self.path@,
            location: self.location,
            records: self.records@,
        }
    }
}

impl Default for Recorder {
    /// A recorder that tracks entire paths and has seen nothing.
    fn default() -> (recorder: Recorder)
        ensures
            recorder@ == (RecorderView {
                path_deque: Seq::empty(),
                path: Seq::empty(),
                location: Some(Location::Path),
                records: Seq::empty(),
            }),
    {
        let recorder = Recorder {
            path_deque: VecDeque::new(),
            path: Vec::new(),
            location: Some(Location::Path),
            records: Vec::new(),
        };
        assert(recorder@.path_deque =~= Seq::empty());
        recorder
    }
}

impl Recorder {
    /// The recorder with the way to track locations set to `location`; `None`
    /// tracks no location at all.
    pub fn track_location(self, location: Option<Location>) -> (recorder: Recorder)
        ensures
            recorder@ == (RecorderView { location, ..self@ }),
    {
        let mut recorder = self;
        recorder.location = location;
        recorder
    }

    /// A copy of the path that is tracked now.
    pub fn path_clone(&self) -> (path: Vec<u8>)
        ensures
            path@ == self@.path,
    {
        let mut path: Vec<u8> = Vec::new();
        path.extend_from_slice(self.path.as_slice());
        path
    }

    /// The path that is tracked now.
    pub fn path(&self) -> (path: &[u8])
        ensures
            path@ == self@.path,
    {
        self.path.as_slice()
    }

    /// Removes the last element of the path.
    pub fn pop_element(&mut self)
        ensures
            final(self)@ == (RecorderView { path: parent_path(old(self)@.path), ..old(self)@ }),
    {
        match rfind_byte(&self.path, SEPARATOR) {
            Some(at) => {
                proof {
                    last_position_is_unique(self.path@, SEPARATOR, at as int);
                }
                self.path.truncate(at);
            },
            None => {
                self.path.clear();
            },
        }
        assert(self@.path =~= parent_path(old(self)@.path));
    }

    /// Adds `name` to the path as its last element, unless `name` is empty.
    pub fn push_element(&mut self, name: &[u8])
        ensures
            final(self)@ == (RecorderView {
                path: child_path(old(self)@.path, name@),
                ..old(self)@
            }),
    {
        if name.len() == 0 {
            return ;
        }
        if self.path.len() != 0 {
            self.path.push(SEPARATOR);
        }
        self.path.extend_from_slice(name);
        assert(self@.path =~= child_path(old(self)@.path, name@));
    }

    /// Makes the first of the paths that are still to be visited the current one,
    /// where entire paths are tracked.
    pub fn pop_front_tracked_path_and_set_current(&mut self)
        requires
            old(self)@.location == Some(Location::Path) ==> old(self)@.path_deque.len() > 0,
        ensures
            final(self)@ == if old(self)@.location == Some(Location::Path) {
                RecorderView {
                    path: old(self)@.path_deque[0],
                    path_deque: old(self)@.path_deque.skip(1),
                    ..old(self)@
                }
            } else {
                old(self)@
            },
    {
        if let Some(Location::Path) = self.location {
            match self.path_deque.pop_front() {
                Some(path) => {
                    self.path = path;
                },
                None => {},
            }
            assert(self@.path_deque =~= old(self)@.path_deque.skip(1));
        }
    }

    /// Enters `component` into the current path, and keeps the path for a later
    /// visit where entire paths are tracked.
    pub fn push_back_tracked_path_component(&mut self, component: &[u8])
        ensures
            final(self)@ == match old(self)@.location {
                None => old(self)@,
                Some(Location::Path) => RecorderView {
                    path: child_path(old(self)@.path, component@),
                    path_deque: old(self)@.path_deque.push(
                        child_path(old(self)@.path, component@),
                    ),
                    ..old(self)@
                },
                Some(Location::FileName) => RecorderView { path: component@, ..old(self)@ },
            },
    {
        match self.location {
            None => {},
            Some(Location::Path) => {
                self.push_element(component);
                let copy = self.path_clone();
                self.path_deque.push_back(copy);
                assert(self@.path_deque =~= old(self)@.path_deque.push(
                    child_path(old(self)@.path, component@),
                ));
            },
            Some(Location::FileName) => {
                self.path.clear();
                self.path.extend_from_slice(component);
                assert(self@.path =~= component@);
            },
        }
    }

    /// Enters `component` into the current path.
    pub fn push_path_component(&mut self, component: &[u8])
        ensures
            final(self)@ == match old(self)@.location {
                None => old(self)@,
                Some(Location::Path) => RecorderView {
                    path: child_path(old(self)@.path, component@),
                    ..old(self)@
                },
                Some(Location::FileName) => RecorderView { path: component@, ..old(self)@ },
            },
    {
        match self.location {
            None => {},
            Some(Location::Path) => {
                self.push_element(component);
            },
            Some(Location::FileName) => {
                self.path.clear();
                self.path.extend_from_slice(component);
                assert(self@.path =~= component@);
            },
        }
    }

    /// Leaves the last element of the current path, where entire paths are tracked.
    pub fn pop_path_component(&mut self)
        ensures
            final(self)@ == if old(self)@.location == Some(Location::Path) {
                RecorderView { path: parent_path(old(self)@.path), ..old(self)@ }
            } else {
                old(self)@
            },
    {
        if let Some(Location::Path) = self.location {
            self.pop_element();
        }
    }

    /// Records `change` with the current path, and asks for the next change.
    pub fn visit(&mut self, change: Observed) -> (action: Action)
        ensures
            action == Action::Continue,
            final(self)@.records.len() == old(self)@.records.len() + 1,
            final(self)@.records.drop_last() == old(self)@.records,
            final(self)@.records.last().is_observed_at(change, old(self)@.path),
            final(self)@ == (RecorderView { records: final(self)@.records, ..old(self)@ }),
    {
        let path = self.path_clone();
        let record = match change {
            Observed::Deletion { entry_mode, oid, relation } => Change::Deletion {
                entry_mode,
                oid,
                path,
                relation,
            },
            Observed::Addition { entry_mode, oid, relation } => Change::Addition {
                entry_mode,
                oid,
                path,
                relation,
            },
            Observed::Modification {
                previous_entry_mode,
                previous_oid,
                entry_mode,
                oid,
            } => Change::Modification { previous_entry_mode, previous_oid, entry_mode, oid, path },
        };
        self.records.push(record);
        assert(self@.records.drop_last() =~= old(self)@.records);
        Action::Continue
    }
}

} // verus!
