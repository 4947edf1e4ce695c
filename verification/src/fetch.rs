//! What to write for `HEAD` after a clone, from what the remote said of its
//! references.

use vstd::prelude::*;

verus! {

/// A reference as the remote announced it.
#[derive(Clone, Debug, PartialEq, Eq)]
pub enum RemoteRef {
    /// A tag, with the object that the tag points to.
    Peeled { full_ref_name: Vec<u8>, tag: [u8; 20], object: [u8; 20] },
    /// A reference that points to an object.
    Direct { full_ref_name: Vec<u8>, object: [u8; 20] },
    /// A reference that points to another reference, with the object at its end.
    Symbolic { full_ref_name: Vec<u8>, target: Vec<u8>, tag: Option<[u8; 20]>, object: [u8; 20] },
    /// A reference that points to another reference which does not exist yet.
    Unborn { full_ref_name: Vec<u8>, target: Vec<u8> },
}

/// What the remote said of its `HEAD`: the object that it leads to, if any, and
/// the reference that it points to, if any.
#[derive(Clone, Debug, PartialEq, Eq)]
pub struct HeadInfo {
    /// The object at the end of `HEAD`.
    pub peeled_id: Option<[u8; 20]>,
    /// The reference that `HEAD` points to.
    pub referent: Option<Vec<u8>>,
}

/// What to write for `HEAD`.
#[derive(Clone, Debug, PartialEq, Eq)]
pub enum HeadUpdate {
    /// Nothing: the remote said nothing of its `HEAD`.
    Nothing,
    /// Let `HEAD` point to `referent`; where `peeled_id` is known, let `referent`
    /// point to it, note it in the log of `HEAD`, and set up the branch.
    Symbolic { referent: Vec<u8>, peeled_id: Option<[u8; 20]> },
    /// Let `HEAD` point to the object `id` itself.
    Detached { id: [u8; 20] },
}

/// The name `HEAD`.
pub open spec fn head_name() -> Seq<u8> {
    seq![72u8, 69u8, 65u8, 68u8]
}

impl RemoteRef {
    /// The name of the reference.
    pub open spec fn name(self) -> Seq<u8> {
        match self {
            RemoteRef::Peeled { full_ref_name, .. } => full_ref_name@,
            RemoteRef::Direct { full_ref_name, .. } => full_ref_name@,
            RemoteRef::Symbolic { full_ref_name, .. } => full_ref_name@,
            RemoteRef::Unborn { full_ref_name, .. } => full_ref_name@,
        }
    }

    /// Whether the reference tells of `HEAD`: it bears that name and is no tag.
    pub open spec fn tells_of_head(self) -> bool {
        self.name() == head_name() && !(self is Peeled)
    }

    /// The object that the reference leads to, if it leads to one.
    pub open spec fn peeled(self) -> Option<[u8; 20]> {
        match self {
            RemoteRef::Peeled { object, .. } => Some(object),
            RemoteRef::Direct { object, .. } => Some(object),
            RemoteRef::Symbolic { object, .. } => Some(object),
            RemoteRef::Unborn { .. } => None,
        }
    }

    /// The reference that this one points to, if it points to one.
    pub open spec fn referent(self) -> Option<Seq<u8>> {
        match self {
            RemoteRef::Symbolic { target, .. } => Some(target@),
            RemoteRef::Unborn { target, .. } => Some(target@),
            _ => None,
        }
    }
}

impl HeadInfo {
    /// Whether this is what `reference` tells.
    pub open spec fn is_told_by(self, reference: RemoteRef) -> bool {
        &&& self.peeled_id == reference.peeled()
        &&& match self.referent {
            Some(referent) => reference.referent() == Some(referent@),
            None => reference.referent() is None,
        }
    }
}

/// Whether `name` is `HEAD`.
pub fn is_head(name: &[u8]) -> (head: bool)
    ensures
        head == (name@ == head_name()),
{
    let head = name.len() == 4 && name[0] == 72 && name[1] == 69 && name[2] == 65 && name[3]
        == 68;
    assert(head == (name@ =~= head_name()));
    head
}

/// The position of the first of `refs` that tells of `HEAD`.
pub fn find_head(refs: &[RemoteRef]) -> (found: Option<usize>)
    ensures
        match found {
            Some(at) => at < refs@.len() && refs@[at as int].tells_of_head() && forall|before: int|
                0 <= before < at ==> !(#[trigger] refs@[before]).tells_of_head(),
            None => forall|at: int| 0 <= at < refs@.len() ==> !(#[trigger] refs@[at]).tells_of_head(),
        },
{
    let mut at: usize = 0;
    while at < refs.len()
        invariant
            at <= refs@.len(),
            forall|before: int| 0 <= before < at ==> !(#[trigger] refs@[before]).tells_of_head(),
        decreases refs.len() - at,
    {
        let tells = match &refs[at] {
            RemoteRef::Peeled { .. } => false,
            RemoteRef::Direct { full_ref_name, .. } => is_head(full_ref_name.as_slice()),
            RemoteRef::Symbolic { full_ref_name, .. } => is_head(full_ref_name.as_slice()),
            RemoteRef::Unborn { full_ref_name, .. } => is_head(full_ref_name.as_slice()),
        };
        if tells {
            return Some(at);
        }
        at += 1;
    }
    None
}

/// A copy of `bytes`.
fn copy_of(bytes: &Vec<u8>) -> (copy: Vec<u8>)
    ensures
        copy@ == bytes@,
{
    let mut copy: Vec<u8> = Vec::new();
    copy.extend_from_slice(bytes.as_slice());
    assert(copy@ =~= bytes@);
    copy
}

/// What the first of `refs` that tells of `HEAD` says of it; `None` where none does.
pub fn head_info(refs: &[RemoteRef]) -> (info: Option<HeadInfo>)
    ensures
        match info {
            Some(info) => exists|at: int|
                0 <= at < refs@.len() && (#[trigger] refs@[at]).tells_of_head() && info.is_told_by(
                    refs@[at],
                ) && forall|before: int|
                    0 <= before < at ==> !(#[trigger] refs@[before]).tells_of_head(),
            None => forall|at: int| 0 <= at < refs@.len() ==> !(#[trigger] refs@[at]).tells_of_head(),
        },
{
    match find_head(refs) {
        None => None,
        Some(at) => {
            let info = match &refs[at] {
                RemoteRef::Peeled { object, .. } => HeadInfo {
                    peeled_id: Some(*object),
                    referent: None,
                },
                RemoteRef::Direct { object, .. } => HeadInfo {
                    peeled_id: Some(*object),
                    referent: None,
                },
                RemoteRef::Symbolic { target, object, .. } => HeadInfo {
                    peeled_id: Some(*object),
                    referent: Some(copy_of(target)),
                },
                RemoteRef::Unborn { target, .. } => HeadInfo {
                    peeled_id: None,
                    referent: Some(copy_of(target)),
                },
            };
            assert(info.is_told_by(refs@[at as int]));
            Some(info)
        },
    }
}

/// What to write for `HEAD` given what is known of the remote's `HEAD`.
///
/// A `HEAD` that points to a reference is written as such. One that points to no
/// reference is detached and has to lead to an object.
pub fn plan_head_update(info: Option<HeadInfo>) -> (update: HeadUpdate)
    requires
        info is Some && info.unwrap().referent is None ==> info.unwrap().peeled_id is Some,
    ensures
        match info {
            None => update == HeadUpdate::Nothing,
            Some(info) => match info.referent {
                Some(referent) => update == (HeadUpdate::Symbolic {
                    referent,
                    peeled_id: info.peeled_id,
                }),
                None => update == (HeadUpdate::Detached { id: info.peeled_id.unwrap() }),
            },
        },
{
    match info {
        None => HeadUpdate::Nothing,
        Some(info) => match info.referent {
            Some(referent) => HeadUpdate::Symbolic { referent, peeled_id: info.peeled_id },
            None => HeadUpdate::Detached { id: info.peeled_id.unwrap() },
        },
    }
}

/// A reference of the remote that may be asked for by name.
#[derive(Clone, Debug, PartialEq, Eq)]
pub struct Candidate {
    /// The full name of the reference.
    pub full_ref_name: Vec<u8>,
    /// The object that the reference points to.
    pub target: [u8; 20],
}

/// A match of the wanted name among the candidates.
#[derive(Clone, Debug, PartialEq, Eq)]
pub struct Matched {
    /// The position of the candidate that matched, where a candidate did.
    pub item_index: Option<usize>,
    /// The full name that matched, where a name did.
    pub name: Option<Vec<u8>>,
}

/// Why a reference that was asked for by name cannot be used.
#[derive(Clone, Debug, PartialEq, Eq)]
pub enum RefNameError {
    /// No reference of the remote bears the name.
    Missing { wanted: Vec<u8> },
    /// More than one reference of the remote bears the name.
    Ambiguous { wanted: Vec<u8>, candidates: Vec<Vec<u8>> },
}

/// The byte strings of `list`, in order.
pub open spec fn byte_strings(list: Seq<Vec<u8>>) -> Seq<Seq<u8>> {
    Seq::new(list.len(), |i: int| list[i]@)
}

/// The names of those of `matches` that have one, in order.
pub open spec fn names_of(matches: Seq<Matched>) -> Seq<Seq<u8>>
    decreases matches.len(),
{
    if matches.len() == 0 {
        Seq::empty()
    } else {
        match matches.last().name {
            Some(name) => names_of(matches.drop_last()).push(name@),
            None => names_of(matches.drop_last()),
        }
    }
}

/// The names of those of `matches` that have one, in order.
pub fn matched_names(matches: &[Matched]) -> (names: Vec<Vec<u8>>)
    ensures
        byte_strings(names@) == names_of(matches@),
{
    let mut names: Vec<Vec<u8>> = Vec::new();
    let mut at: usize = 0;
    assert(matches@.take(0) =~= Seq::empty());
    while at < matches.len()
        invariant
            at <= matches@.len(),
            byte_strings(names@) == names_of(matches@.take(at as int)),
        decreases matches.len() - at,
    {
        let ghost before = names@;
        proof {
            assert(matches@.take(at + 1).drop_last() =~= matches@.take(at as int));
            assert(matches@.take(at + 1).last() == matches@[at as int]);
        }
        match &matches[at].name {
            Some(name) => {
                names.push(copy_of(name));
                assert(byte_strings(names@) =~= byte_strings(before).push(name@));
            },
            None => {},
        }
        at += 1;
    }
    assert(matches@.take(matches@.len() as int) =~= matches@);
    names
}

/// The reference that `wanted` stands for, from the `matches` of that name among
/// `candidates`: the one candidate that matched, where one did. Fails where none
/// matched, and, with the names that matched, where more than one did.
pub fn select_custom_ref(wanted: &[u8], candidates: &[Candidate], matches: &[Matched]) -> (selected:
    Result<HeadInfo, RefNameError>)
    requires
        matches@.len() == 1 ==> matches@[0].item_index is Some && matches@[0].item_index.unwrap()
            < candidates@.len(),
    ensures
        matches@.len() == 0 ==> selected is Err && selected->Err_0 is Missing
            && selected->Err_0->Missing_wanted@ == wanted@,
        matches@.len() == 1 ==> selected is Ok && selected->Ok_0.peeled_id == Some(
            candidates@[matches@[0].item_index.unwrap() as int].target,
        ) && selected->Ok_0.referent is Some && selected->Ok_0.referent.unwrap()@
            == candidates@[matches@[0].item_index.unwrap() as int].full_ref_name@,
        matches@.len() > 1 ==> selected is Err && selected->Err_0 is Ambiguous
            && selected->Err_0->Ambiguous_wanted@ == wanted@ && byte_strings(
            selected->Err_0->Ambiguous_candidates@,
        ) == names_of(matches@),
{
    if matches.len() == 0 {
        let mut name: Vec<u8> = Vec::new();
        name.extend_from_slice(wanted);
        assert(name@ =~= wanted@);
        Err(RefNameError::Missing { wanted: name })
    } else if matches.len() == 1 {
        let item = &candidates[matches[0].item_index.unwrap()];
        Ok(HeadInfo { peeled_id: Some(item.target), referent: Some(copy_of(&item.full_ref_name)) })
    } else {
        let mut name: Vec<u8> = Vec::new();
        name.extend_from_slice(wanted);
        assert(name@ =~= wanted@);
        Err(RefNameError::Ambiguous { wanted: name, candidates: matched_names(matches) })
    }
}

} // verus!
