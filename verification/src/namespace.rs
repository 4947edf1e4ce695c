//! Namespaces for references: a prefix that keeps the references of one
//! repository apart from those of another.

use vstd::prelude::*;
use vstd::string::is_ascii;
use crate::bytes::{ascii_bytes, push_ascii, push_bytes};

verus! {

/// The byte between the components of a name, `/`.
pub const SEPARATOR: u8 = 47;

/// Why a name is no partial reference name.
#[derive(Clone, Copy, Debug, PartialEq, Eq, Structural)]
pub enum NameError {
    /// The name is not fit as the name of a tag.
    Tag,
    /// A name without a slash has a character that is no upper-case letter.
    SomeLowercase,
    /// The name starts with a slash.
    StartsWithSlash,
    /// The name has two slashes in a row.
    RepeatedSlash,
    /// A component of the name is a single dot.
    SingleDot,
}

/// What the validation of partial reference names says of `name`: `None` where
/// the name is valid, else the reason why it is not.
pub uninterp spec fn partial_name_verdict(name: Seq<u8>) -> Option<NameError>;

/// Validates `name` as a partial reference name.
///
/// Calls `gix_validate::reference::name_partial`. Trusted: the verdict depends on
/// the bytes of the name alone. Nothing is claimed about which names are valid.
#[verifier::external_body]
fn check_partial_name(name: &[u8]) -> (verdict: Option<NameError>)
    ensures
        verdict == partial_name_verdict(name@),
{
    match gix_validate::reference::name_partial(bstr::ByteSlice::as_bstr(name)) {
        Ok(_) => None,
        Err(gix_validate::reference::name::Error::Tag(_)) => Some(NameError::Tag),
        Err(gix_validate::reference::name::Error::SomeLowercase) => Some(NameError::SomeLowercase),
        Err(gix_validate::reference::name::Error::StartsWithSlash) => Some(
            NameError::StartsWithSlash,
        ),
        Err(gix_validate::reference::name::Error::RepeatedSlash) => Some(NameError::RepeatedSlash),
        Err(gix_validate::reference::name::Error::SingleDot) => Some(NameError::SingleDot),
    }
}

/// The position of the first `/` in `name`, or the length of `name` if it has none.
pub open spec fn first_component_len(name: Seq<u8>) -> int
    decreases name.len(),
{
    if name.len() == 0 || name[0] == SEPARATOR {
        0
    } else {
        1 + first_component_len(name.skip(1))
    }
}

/// The expansion of `name`: each of its components, which slashes separate, with
/// `refs/namespaces/` before it and a slash behind it.
pub open spec fn expanded(name: Seq<u8>) -> Seq<u8>
    decreases name.len(),
{
    let len = first_component_len(name);
    let first = ascii_bytes("refs/namespaces/"@) + name.take(len).push(SEPARATOR);
    if 0 <= len < name.len() {
        first + expanded(name.skip(len + 1))
    } else {
        first
    }
}

/// The first component of a name ends within the name, at its first slash.
pub proof fn first_component_len_is_bounded(name: Seq<u8>)
    ensures
        0 <= first_component_len(name) <= name.len(),
        first_component_len(name) < name.len() ==> name[first_component_len(name)] == SEPARATOR,
        forall|i: int| 0 <= i < first_component_len(name) ==> name[i] != SEPARATOR,
    decreases name.len(),
{
    if name.len() != 0 && name[0] != SEPARATOR {
        let rest = name.skip(1);
        first_component_len_is_bounded(rest);
        assert forall|i: int| 0 <= i < first_component_len(name) implies name[i]
            != SEPARATOR by {
            if i > 0 {
                assert(rest[i - 1] == name[i]);
            }
        }
        if first_component_len(name) < name.len() {
            assert(rest[first_component_len(rest)] == name[first_component_len(name)]);
        }
    }
}

/// Where a name has no slash before `end` and a slash at `end`, or ends there, its
/// first component ends at `end`.
pub proof fn first_component_ends_at(name: Seq<u8>, end: int)
    requires
        0 <= end <= name.len(),
        forall|i: int| 0 <= i < end ==> name[i] != SEPARATOR,
        end < name.len() ==> name[end] == SEPARATOR,
    ensures
        first_component_len(name) == end,
{
    first_component_len_is_bounded(name);
    let len = first_component_len(name);
    if len < end {
        assert(name[len] == SEPARATOR);
    }
    if end < len {
        assert(name[end] != SEPARATOR);
    }
}

/// A namespace: the expansion of a name, which is put before the names of
/// references.
#[derive(Clone, Debug, PartialEq, Eq)]
pub struct Namespace(pub(crate) Vec<u8>);

/// The full name of a reference.
#[derive(Clone, Debug, PartialEq, Eq)]
pub struct FullName(pub(crate) Vec<u8>);

impl View for Namespace {
    type V = Seq<u8>;

    closed spec fn view(&self) -> Seq<u8> {
        self.0@
    }
}

impl View for FullName {
    type V = Seq<u8>;

    closed spec fn view(&self) -> Seq<u8> {
        self.0@
    }
}

impl FullName {
    /// The bytes of the name.
    pub fn as_bstr(&self) -> (bytes: &[u8])
        ensures
            bytes@ == self@,
    {
        self.0.as_slice()
    }
}

impl Namespace {
    /// The bytes of the namespace.
    pub fn into_bstring(self) -> (bytes: Vec<u8>)
        ensures
            bytes@ == self@,
    {
        self.0
    }

    /// The bytes of the namespace.
    pub fn as_bstr(&self) -> (bytes: &[u8])
        ensures
            bytes@ == self@,
    {
        self.0.as_slice()
    }

    /// The namespace with `prefix` behind it, for iterating over the references
    /// whose name begins so.
    pub fn into_namespaced_prefix(self, prefix: &[u8]) -> (path: Vec<u8>)
        ensures
            path@ == self@ + prefix@,
    {
        let mut path = self.0;
        push_bytes(&mut path, prefix);
        path
    }

    /// The name `name` within the namespace.
    pub fn into_namespaced_name(self, name: &[u8]) -> (full: FullName)
        ensures
            full@ == self@ + name@,
    {
        let mut full = self.0;
        push_bytes(&mut full, name);
        FullName(full)
    }
}

/// The namespace for `name`, whatever `name` is: `foo` gives `refs/namespaces/foo/`,
/// and `foo/bar` gives `refs/namespaces/foo/refs/namespaces/bar/`.
#[verifier::rlimit(40)]
pub fn expand_components(name: &[u8]) -> (namespace: Namespace)
    ensures
        namespace@ == expanded(name@),
{
    let mut out: Vec<u8> = Vec::new();
    let mut start: usize = 0;
    let mut at: usize = 0;
    proof {
        reveal_strlit("refs/namespaces/");
        assert(is_ascii("refs/namespaces/"));
        assert(name@.skip(0) =~= name@);
    }
    loop
        invariant_except_break
            is_ascii("refs/namespaces/"),
            start <= at <= name.len(),
            forall|i: int| start <= i < at ==> name@[i] != SEPARATOR,
            out@ + expanded(name@.skip(start as int)) == expanded(name@),
        ensures
            out@ == expanded(name@),
        decreases name.len() - at,
    {
        let ghost rest = name@.skip(start as int);
        if at == name.len() || name[at] == SEPARATOR {
            proof {
                assert forall|i: int| 0 <= i < at - start implies rest[i] != SEPARATOR by {
                    assert(rest[i] == name@[start + i]);
                }
                first_component_ends_at(rest, at - start);
                assert(rest.take(at - start) =~= name@.subrange(start as int, at as int));
            }
            let ghost before = out@;
            push_ascii(&mut out, "refs/namespaces/");
            let mut i: usize = start;
            while i < at
                invariant
                    start <= i <= at <= name.len(),
                    out@ == before + ascii_bytes("refs/namespaces/"@) + name@.subrange(
                        start as int,
                        i as int,
                    ),
                decreases at - i,
            {
                out.push(name[i]);
                i += 1;
                assert(out@ =~= before + ascii_bytes("refs/namespaces/"@) + name@.subrange(
                    start as int,
                    i as int,
                ));
            }
            out.push(SEPARATOR);
            proof {
                let first = ascii_bytes("refs/namespaces/"@) + rest.take(at - start).push(
                    SEPARATOR,
                );
                assert(out@ =~= before + first);
                if at < name.len() {
                    assert(rest.skip(at - start + 1) =~= name@.skip(at + 1));
                    assert(expanded(rest) == first + expanded(name@.skip(at + 1)));
                    assert(before + (first + expanded(name@.skip(at + 1))) =~= (before + first)
                        + expanded(name@.skip(at + 1)));
                } else {
                    assert(expanded(rest) == first);
                }
            }
            if at == name.len() {
                break ;
            }
            at += 1;
            start = at;
        } else {
            at += 1;
        }
    }
    Namespace(out)
}

/// The namespace for `name` where `verdict`, which the validation gave of `name`,
/// finds no fault, else the fault.
pub fn expand_validated(name: &[u8], verdict: Option<NameError>) -> (expansion: Result<
    Namespace,
    NameError,
>)
    ensures
        match verdict {
            None => expansion is Ok && expansion.unwrap()@ == expanded(name@),
            Some(error) => expansion == Err::<Namespace, NameError>(error),
        },
{
    match verdict {
        None => Ok(expand_components(name)),
        Some(error) => Err(error),
    }
}

/// The namespace for `name` where `name` is a valid partial reference name, else
/// the reason why it is not.
pub fn expand(name: &[u8]) -> (expansion: Result<Namespace, NameError>)
    ensures
        match partial_name_verdict(name@) {
            None => expansion is Ok && expansion.unwrap()@ == expanded(name@),
            Some(error) => expansion == Err::<Namespace, NameError>(error),
        },
{
    expand_validated(name, check_partial_name(name))
}

} // verus!
