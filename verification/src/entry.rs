//! The plain values the walk decides on: one resolved child, its identity,
//! and the verdicts that decide whether it is yielded and descended into.
use vstd::prelude::*;

use crate::error::Error;

verus! {

/// Blocking state marker.
#[derive(Debug)]
pub struct Blocking;

/// Async state marker.
#[derive(Debug)]
pub struct Async;

/// The operating system family the walk runs on; it decides how hidden entries
/// and reachable cycles are recognised.
#[derive(Clone, Copy, Debug, PartialEq, Eq, Structural)]
pub enum Platform {
    /// Hidden means a leading dot; a cycle needs a followed symlink.
    Unix,
    /// Hidden is a file attribute; a junction can close a cycle unfollowed.
    Windows,
}

/// Identity of a directory: device (or volume serial) and inode (or file
/// index). Two directories with equal identity are the same directory.
#[derive(Clone, Copy, Debug, PartialEq, Eq, Structural)]
pub struct Ancestor {
    pub device: u64,
    pub index: u64,
}

/// One resolved entry, as far as the walk reads it. `data` is the entry
/// itself as its caller keeps it (path, file type, cached metadata); the walk
/// only carries it through.
#[derive(Debug)]
pub struct Node<E> {
    pub depth: usize,
    pub is_dir: bool,
    pub hidden: bool,
    pub reparse_point: bool,
    pub data: E,
}

/// A resolved child together with whether the walk yields it.
///
/// `yielded` is `false` for an entry that is descended into but never yielded.
#[derive(Debug)]
pub struct Candidate<E> {
    pub yielded: bool,
    pub entry: Result<Node<E>, Error>,
}

impl<E> Candidate<E> {
    /// A child that is yielded (and descended into, if it is a directory).
    pub fn kept(entry: Result<Node<E>, Error>) -> (r: Self)
        ensures
            r.yielded,
            r.entry == entry,
    {
        Candidate { yielded: true, entry }
    }

    /// A child that is descended into but not yielded.
    pub fn descend_only(entry: Result<Node<E>, Error>) -> (r: Self)
        ensures
            !r.yielded,
            r.entry == entry,
    {
        Candidate { yielded: false, entry }
    }
}

/// What the entry filter decides about one entry.
#[derive(Clone, Copy, Debug, PartialEq, Eq, Structural)]
pub enum Filtering {
    /// Yield the entry, and descend into it if it is a directory.
    Continue,
    /// Do not yield the entry, but still descend into it if it is a directory.
    IgnoreEntry,
    /// Do not yield the entry, and do not descend into it.
    IgnoreDir,
}

/// Whether a file name marks its entry hidden on Unix: a leading dot.
pub open spec fn dot_hidden(name: Seq<u8>) -> bool {
    name.len() > 0 && name[0] == 0x2eu8
}

/// Returns `true` if a file name starts with a dot.
pub fn is_dot_name(name: &[u8]) -> (r: bool)
    ensures
        r == dot_hidden(name@),
{
    name.len() > 0 && name[0] == 0x2eu8
}

/// Whether the entry's file attributes carry the hidden bit (Windows).
pub open spec fn attribute_hidden(attributes: u32) -> bool {
    attributes & 2u32 != 0
}

/// Returns `true` if the Windows attributes have `FILE_ATTRIBUTE_HIDDEN` set.
pub fn has_hidden_attribute(attributes: u32) -> (r: bool)
    ensures
        r == attribute_hidden(attributes),
{
    attributes & 2u32 != 0
}

/// Unix hidden-name law: a name is hidden exactly when its first byte is a
/// dot. Whatever follows the first byte does not matter, a name that begins
/// with any other byte is not hidden, and neither is the empty name.
pub proof fn lemma_hidden_means_leading_dot(first: u8, rest: Seq<u8>)
    ensures
        dot_hidden(seq![first] + rest) == (first == 0x2eu8),
        dot_hidden(seq![0x2eu8] + rest),
        !dot_hidden(Seq::<u8>::empty()),
{
    assert((seq![first] + rest)[0] == first);
    assert((seq![0x2eu8] + rest)[0] == 0x2eu8);
}

/// Windows hidden-attribute law: only the hidden bit (`0x2`) counts. An
/// entry is hidden exactly when its attributes are with every other bit
/// cleared; the hidden bit alone marks it hidden, and no other bit does.
pub proof fn lemma_hidden_attribute_bit(attributes: u32, other: u32)
    ensures
        attribute_hidden(attributes) == attribute_hidden(attributes & 2u32),
        attribute_hidden(2u32),
        !attribute_hidden(0u32),
        attribute_hidden(other & !2u32) == false,
        attribute_hidden(other | 2u32),
{
    assert((attributes & 2u32) & 2u32 == attributes & 2u32) by (bit_vector);
    assert(2u32 & 2u32 != 0u32) by (bit_vector);
    assert(0u32 & 2u32 == 0u32) by (bit_vector);
    assert((other & !2u32) & 2u32 == 0u32) by (bit_vector);
    assert((other | 2u32) & 2u32 != 0u32) by (bit_vector);
}

/// What happens to a freshly resolved child before any filter is consulted.
#[derive(Clone, Copy, Debug, PartialEq, Eq, Structural)]
pub enum Screening {
    /// Dropped: neither yielded nor descended into.
    Drop,
    /// Kept as it is.
    Keep,
    /// The entry filter decides.
    Consult,
}

/// The screening rule: a hidden child is dropped when hidden entries are
/// skipped, before any filter sees it; otherwise a filter, if there is one,
/// decides.
pub open spec fn screening(skip_hidden: bool, hidden: bool, has_filter: bool) -> Screening {
    if skip_hidden && hidden {
        Screening::Drop
    } else if has_filter {
        Screening::Consult
    } else {
        Screening::Keep
    }
}

/// Decides what happens to a resolved child before the filter runs.
pub fn screen(skip_hidden: bool, hidden: bool, has_filter: bool) -> (r: Screening)
    ensures
        r == screening(skip_hidden, hidden, has_filter),
{
    if skip_hidden && hidden {
        Screening::Drop
    } else if has_filter {
        Screening::Consult
    } else {
        Screening::Keep
    }
}

/// A child that failed to resolve: it can be neither hidden nor filtered,
/// so it is always reported, in its place.
pub fn failed_child<E>(err: Error) -> (r: Option<Candidate<E>>)
    ensures
        r == Some(Candidate { yielded: true, entry: Err::<Node<E>, Error>(err) }),
{
    Some(Candidate::kept(Err(err)))
}

/// The filter rule: `Continue` keeps the entry, `IgnoreEntry` on a directory
/// keeps it for descent only, and anything else drops it.
pub open spec fn verdict_outcome(verdict: Filtering, is_dir: bool) -> Option<bool> {
    match verdict {
        Filtering::Continue => Some(true),
        Filtering::IgnoreEntry => if is_dir { Some(false) } else { None },
        Filtering::IgnoreDir => None,
    }
}

/// Applies the filter's verdict to a resolved child: `None` drops it, and
/// otherwise the candidate says whether it is yielded.
pub fn apply_verdict<E>(node: Node<E>, verdict: Filtering) -> (r: Option<Candidate<E>>)
    ensures
        match verdict_outcome(verdict, node.is_dir) {
            None => r is None,
            Some(yielded) => r == Some(Candidate { yielded, entry: Ok::<Node<E>, Error>(node) }),
        },
{
    match verdict {
        Filtering::Continue => Some(Candidate::kept(Ok(node))),
        Filtering::IgnoreEntry => {
            if node.is_dir {
                Some(Candidate::descend_only(Ok(node)))
            } else {
                None
            }
        },
        Filtering::IgnoreDir => None,
    }
}

/// A filter that answers `Continue` for every entry keeps what no filter
/// keeps: the same children are dropped before it is asked, and every other
/// child is yielded (and descended into, if it is a directory).
pub proof fn lemma_continue_is_no_filter(skip_hidden: bool, hidden: bool, is_dir: bool)
    ensures
        (screening(skip_hidden, hidden, true) == Screening::Drop) == (screening(skip_hidden, hidden, false)
            == Screening::Drop),
        screening(skip_hidden, hidden, true) == Screening::Consult ==> {
            &&& verdict_outcome(Filtering::Continue, is_dir) == Some(true)
            &&& screening(skip_hidden, hidden, false) == Screening::Keep
        },
{
}

/// Whether resolving one entry does I/O worth overlapping: on Unix only when
/// a symlink must be followed or a filter awaits; on Windows always, since
/// every entry needs its own attributes.
pub open spec fn spec_resolve_does_io(platform: Platform, follow_links: bool, has_filter: bool) -> bool {
    match platform {
        Platform::Unix => follow_links || has_filter,
        Platform::Windows => true,
    }
}

/// Returns whether resolving a directory's children is worth running
/// concurrently.
pub fn resolve_does_io(platform: Platform, follow_links: bool, has_filter: bool) -> (r: bool)
    ensures
        r == spec_resolve_does_io(platform, follow_links, has_filter),
{
    match platform {
        Platform::Unix => follow_links || has_filter,
        Platform::Windows => true,
    }
}

/// The number of children resolved at once: the configured concurrency where
/// resolving does I/O, one at a time otherwise.
pub fn resolve_concurrency(platform: Platform, follow_links: bool, has_filter: bool, concurrency: usize) -> (r: usize)
    ensures
        r == (if spec_resolve_does_io(platform, follow_links, has_filter) { concurrency } else { 1 }),
{
    if resolve_does_io(platform, follow_links, has_filter) {
        concurrency
    } else {
        1
    }
}

} // verus!
