//! What a whole walk yields.
//!
//! Given a directory tree — every directory's children, resolved and in the
//! order the driver reports them, and every directory's identity, where it
//! can be obtained — a walk yields the root, then each child followed by its
//! own subtree, depth first. The options prune this pre-order: entries above
//! `min_depth` are walked but not yielded, children of directories at
//! `max_depth` are never read, hidden entries (except the root) are neither
//! yielded nor descended into when skipped, and a descend-only candidate is
//! descended into but not yielded. Where loop detection applies — links
//! followed, or, on Windows, a reparse point at or above the directory — a
//! directory whose identity is among those the walk holds is reported as a
//! loop error in its place, and its subtree is not read; a directory that
//! cannot be read is reported as the error reading it, in its place.
//!
//! The identities a walk holds are threaded through it: a directory whose
//! identity is compared cuts them to its depth and adds its own, if it can be
//! obtained. When every identity can be, they are exactly those of the
//! directories above it.
//!
//! A paged walk yields `skip(offset).take(limit)` of that sequence, whether
//! the walk reads each directory whole (`ordered`) or streams it in batches.
use vstd::prelude::*;

use crate::entry::{Ancestor, Candidate, Node, Platform};
use crate::error::Error;
use crate::options::WalkDirOptions;
use crate::pager::{PagerView, lemma_pagination, paged_run, skip_take};
use crate::walk::{Action, Awaiting, Pending, StreamView, TraversalView, lemma_work_replace_last, truncated};

verus! {

/// A directory tree as its driver reports it.
#[verifier::reject_recursive_types(E)]
pub struct Tree<E> {
    /// The candidates of a directory's listing, in order.
    pub children: spec_fn(Node<E>) -> Seq<Candidate<E>>,
    /// A directory's identity (device and index), if it can be obtained.
    pub identity: spec_fn(Node<E>) -> Option<Ancestor>,
    /// A directory's path.
    pub location: spec_fn(Node<E>) -> std::path::PathBuf,
    /// The error reading a directory, if it cannot be read.
    pub failure: spec_fn(Node<E>) -> Option<Error>,
}

impl<E> Tree<E> {
    /// The listing of directory `n`.
    pub open spec fn listing(self, n: Node<E>) -> Seq<Candidate<E>> {
        (self.children)(n)
    }

    /// The identity of directory `n`, if it can be obtained.
    pub open spec fn id(self, n: Node<E>) -> Option<Ancestor> {
        (self.identity)(n)
    }

    /// The path of directory `n`.
    pub open spec fn loc(self, n: Node<E>) -> std::path::PathBuf {
        (self.location)(n)
    }

    /// The error reading directory `n`, if it cannot be read.
    pub open spec fn fault(self, n: Node<E>) -> Option<Error> {
        (self.failure)(n)
    }

    /// Every listed child is one level below its directory.
    pub open spec fn wf(self) -> bool {
        forall|n: Node<E>| #![trigger self.listing(n)] all_at_depth(self.listing(n), n.depth + 1)
    }
}

/// A resolved candidate sits at depth `d`.
pub open spec fn at_depth<E>(c: Candidate<E>, d: int) -> bool {
    c.entry matches Ok(m) ==> m.depth == d
}

/// Every resolved candidate of `cs` sits at depth `d`.
pub open spec fn all_at_depth<E>(cs: Seq<Candidate<E>>, d: int) -> bool {
    forall|j: int| 0 <= j < cs.len() ==> at_depth(#[trigger] cs[j], d)
}

/// Whether one of the directories `above` is a reparse point.
pub open spec fn armed_by<E>(above: Seq<Node<E>>) -> bool {
    exists|j: int| 0 <= j < above.len() && (#[trigger] above[j]).reparse_point
}

/// The directory at depth `x` of `above` is the outermost reparse point.
pub open spec fn first_reparse<E>(above: Seq<Node<E>>, x: int) -> bool {
    &&& 0 <= x < above.len()
    &&& above[x].reparse_point
    &&& !armed_by(above.take(x))
}

/// Whether a directory's identity is compared with those held: always when
/// links are followed; on Windows also once a reparse point is on its path
/// (`armed`) or it is one itself.
pub open spec fn checks<E>(o: WalkDirOptions, pf: Platform, armed: bool, n: Node<E>) -> bool {
    o.follow_links || (pf == Platform::Windows && (armed || n.reparse_point))
}

/// The identities of the directories `above` that can be obtained,
/// outermost first.
pub open spec fn known_ids<E>(t: Tree<E>, above: Seq<Node<E>>) -> Seq<Ancestor>
    decreases above.len(),
{
    if above.len() == 0 {
        Seq::empty()
    } else {
        let rest = known_ids(t, above.drop_last());
        match t.id(above.last()) {
            Some(a) => rest.push(a),
            None => rest,
        }
    }
}

/// The identities a directory at depth `d` below `above` is compared with,
/// given those the walk holds: on Windows, when no reparse point is above it,
/// those of the directories above, fetched anew; otherwise those held for
/// the levels above `d`.
pub open spec fn compared<E>(t: Tree<E>, o: WalkDirOptions, pf: Platform, above: Seq<Node<E>>, held: Seq<Ancestor>, d: nat) -> Seq<Ancestor> {
    if pf == Platform::Windows && !o.follow_links && !armed_by(above) {
        known_ids(t, above)
    } else {
        truncated(held, d as int)
    }
}

/// What one candidate of a directory at depth `d` contributes to the walk,
/// and the identities held afterwards; `above` are the directories above it.
pub open spec fn expand<E>(
    t: Tree<E>,
    o: WalkDirOptions,
    pf: Platform,
    c: Candidate<E>,
    d: nat,
    above: Seq<Node<E>>,
    held: Seq<Ancestor>,
) -> (Seq<Result<Node<E>, Error>>, Seq<Ancestor>)
    decreases o.max_depth + 1 - d, 3int,
{
    match c.entry {
        Err(e) => (seq![Err(e)], held),
        Ok(n) => if o.skip_hidden && n.hidden {
            (Seq::empty(), held)
        } else {
            subtree(t, o, pf, n, c.yielded, d, above, held)
        },
    }
}

/// An entry at depth `d` followed by its subtree: the entry if it is
/// yielded, then, if it is descended into, its listing walked in order —
/// or, if its identity is compared, possibly a loop error alone.
pub open spec fn subtree<E>(
    t: Tree<E>,
    o: WalkDirOptions,
    pf: Platform,
    n: Node<E>,
    yielded: bool,
    d: nat,
    above: Seq<Node<E>>,
    held: Seq<Ancestor>,
) -> (Seq<Result<Node<E>, Error>>, Seq<Ancestor>)
    decreases o.max_depth + 1 - d, 2int,
{
    let emit = yielded && d >= o.min_depth;
    if n.is_dir && d < o.max_depth {
        if checks(o, pf, armed_by(above), n) {
            identified(t, o, pf, n, emit, d, above, compared(t, o, pf, above, held, d))
        } else {
            opened(t, o, pf, n, emit, d, above, held)
        }
    } else {
        (if emit {
            seq![Ok::<Node<E>, Error>(n)]
        } else {
            Seq::empty()
        }, held)
    }
}

/// A directory at depth `d` whose identity is compared with `held`: a loop
/// error alone if it is among them, otherwise the directory opened, holding
/// its identity too if it can be obtained.
pub open spec fn identified<E>(
    t: Tree<E>,
    o: WalkDirOptions,
    pf: Platform,
    n: Node<E>,
    emit: bool,
    d: nat,
    above: Seq<Node<E>>,
    held: Seq<Ancestor>,
) -> (Seq<Result<Node<E>, Error>>, Seq<Ancestor>)
    decreases o.max_depth + 1 - d, 1int,
{
    match t.id(n) {
        Some(a) => if held.contains(a) {
            (seq![Err(Error::spec_loop(t.loc(n), n.depth))], held)
        } else {
            opened(t, o, pf, n, emit, d, above, held.push(a))
        },
        None => opened(t, o, pf, n, emit, d, above, held),
    }
}

/// A directory at depth `d` descended into: the error reading it alone, or
/// the directory if it is yielded (`emit`) and then its listing walked.
pub open spec fn opened<E>(
    t: Tree<E>,
    o: WalkDirOptions,
    pf: Platform,
    n: Node<E>,
    emit: bool,
    d: nat,
    above: Seq<Node<E>>,
    held: Seq<Ancestor>,
) -> (Seq<Result<Node<E>, Error>>, Seq<Ancestor>)
    decreases o.max_depth + 1 - d, 0int,
{
    match t.fault(n) {
        Some(e) => (seq![Err(e)], held),
        None => if d < o.max_depth {
            let r = walk_listing(t, o, pf, t.listing(n), d + 1, above.push(n), held);
            ((if emit {
                seq![Ok::<Node<E>, Error>(n)]
            } else {
                Seq::empty()
            }) + r.0, r.1)
        } else {
            (Seq::empty(), held)
        },
    }
}

/// A listing of candidates at depth `d`, each followed by its subtree, and
/// the identities held afterwards.
pub open spec fn walk_listing<E>(
    t: Tree<E>,
    o: WalkDirOptions,
    pf: Platform,
    cs: Seq<Candidate<E>>,
    d: nat,
    above: Seq<Node<E>>,
    held: Seq<Ancestor>,
) -> (Seq<Result<Node<E>, Error>>, Seq<Ancestor>)
    decreases o.max_depth + 1 - d, cs.len() + 4,
{
    if cs.len() == 0 {
        (Seq::empty(), held)
    } else {
        let first = expand(t, o, pf, cs[0], d, above, held);
        let rest = walk_listing(t, o, pf, cs.drop_first(), d, above, first.1);
        (first.0 + rest.0, rest.1)
    }
}

/// The whole walk on platform `pf` from a resolved root (exempt from
/// hidden-entry skipping), or the single error resolving it.
pub open spec fn walk_from<E>(t: Tree<E>, o: WalkDirOptions, pf: Platform, start: Result<Node<E>, Error>) -> Seq<Result<Node<E>, Error>> {
    match start {
        Err(e) => seq![Err(e)],
        Ok(n) => subtree(t, o, pf, n, true, 0, Seq::empty(), Seq::empty()).0,
    }
}

/// An open directory, as its driver knows it: the directory, and the
/// children it has not handed over yet.
pub struct OpenDir<E> {
    pub node: Node<E>,
    pub unread: Seq<Candidate<E>>,
}

/// The open directories by depth, outermost first. Entries past the open
/// directories are left over from directories already closed.
pub type OpenDirs<E> = Seq<OpenDir<E>>;

/// The first `k` open directories.
pub open spec fn nodes_of<E>(dirs: OpenDirs<E>, k: int) -> Seq<Node<E>> {
    dirs.take(k).map_values(|l: OpenDir<E>| l.node)
}

/// What the open directories still owe, innermost first, starting from the
/// identities `held`: for each, its children taken in but not yet walked,
/// then those not yet handed over.
pub open spec fn stack_rest<E>(
    t: Tree<E>,
    o: WalkDirOptions,
    pf: Platform,
    s: Seq<StreamView<E>>,
    dirs: OpenDirs<E>,
    held: Seq<Ancestor>,
) -> Seq<Result<Node<E>, Error>>
    decreases s.len(),
{
    if s.len() == 0 {
        Seq::empty()
    } else {
        let k = s.len() as int;
        let r = walk_listing(t, o, pf, s.last().ready + dirs[k - 1].unread, k as nat, nodes_of(dirs, k), held);
        r.0 + stack_rest(t, o, pf, s.drop_last(), dirs, r.1)
    }
}

/// What the pending directory owes, and the identities held afterwards.
pub open spec fn pending_rest<E>(t: Tree<E>, v: TraversalView<E>, dirs: OpenDirs<E>) -> (Seq<Result<Node<E>, Error>>, Seq<Ancestor>) {
    let k = v.stack.len() as int;
    let above = nodes_of(dirs, k);
    match v.pending {
        Some(p) => if v.awaiting == Awaiting::Identity {
            identified(t, v.opts, v.platform, p.node, p.emit, k as nat, above, v.ancestors)
        } else if v.awaiting == Awaiting::Backfill {
            identified(t, v.opts, v.platform, p.node, p.emit, k as nat, above, known_ids(t, above))
        } else {
            opened(t, v.opts, v.platform, p.node, p.emit, k as nat, above, v.ancestors)
        },
        None => (Seq::empty(), v.ancestors),
    }
}

/// Everything a state still owes the consumer, in order, before paging.
pub open spec fn remaining<E>(t: Tree<E>, v: TraversalView<E>, dirs: OpenDirs<E>) -> Seq<Result<Node<E>, Error>> {
    let start_part = match v.start {
        Some(Ok(n)) => subtree(t, v.opts, v.platform, n, true, 0, Seq::empty(), v.ancestors).0,
        Some(Err(e)) => seq![Err(e)],
        None => Seq::empty(),
    };
    let p = pending_rest(t, v, dirs);
    start_part + p.0 + stack_rest(t, v.opts, v.platform, v.stack, dirs, p.1)
}

/// What a state still owes the consumer once its pager has cut it.
pub open spec fn owed<E>(t: Tree<E>, v: TraversalView<E>, dirs: OpenDirs<E>) -> Seq<Result<Node<E>, Error>> {
    match v.pager {
        Some(p) => paged_run(p, remaining(t, v, dirs)),
        None => remaining(t, v, dirs),
    }
}

/// An open directory at depth `d - 1`: a directory read whole has nothing
/// left to hand over, and all its children sit at depth `d`.
pub open spec fn level_ok<E>(s: StreamView<E>, l: OpenDir<E>, d: int) -> bool {
    &&& !s.live ==> l.unread.len() == 0
    &&& all_at_depth(s.ready + l.unread, d)
}

/// The open directories sit at consecutive depths below the root.
pub open spec fn levels_ok<E>(s: Seq<StreamView<E>>, dirs: OpenDirs<E>) -> bool {
    &&& dirs.len() >= s.len()
    &&& forall|i: int| #![trigger s[i]] 0 <= i < s.len() ==> level_ok(s[i], dirs[i], i + 1)
}

/// Windows without followed links, where reparse points arm loop detection.
pub open spec fn reparse_armed<E>(v: TraversalView<E>) -> bool {
    v.platform == Platform::Windows && !v.opts.follow_links
}

/// The depth recorded as arming loop detection is that of the outermost
/// reparse point among the directories `above`, if there is one; a deeper
/// one is left over from a directory already closed.
pub open spec fn reparse_ok<E>(rd: Option<usize>, above: Seq<Node<E>>) -> bool {
    match rd {
        Some(x) => (x < above.len() ==> first_reparse(above, x as int)) && (armed_by(above) ==> x < above.len()),
        None => !armed_by(above),
    }
}

/// The states these laws cover: consistent, with the open directories at
/// consecutive depths below the root, and the depth arming loop detection
/// that of the outermost reparse point above.
pub open spec fn covered<E>(v: TraversalView<E>, dirs: OpenDirs<E>) -> bool {
    let k = v.stack.len() as int;
    &&& v.wf()
    &&& levels_ok(v.stack, dirs)
    &&& v.start matches Some(Ok(n)) ==> n.depth == 0
    &&& match v.pending {
        Some(p) => p.node.depth == k && (reparse_armed(v) ==> reparse_ok(v.reparse_depth, nodes_of(dirs, k).push(p.node))),
        None => reparse_armed(v) ==> reparse_ok(v.reparse_depth, nodes_of(dirs, k)),
    }
}

/// The running states these laws cover (mid-walk, nothing pending).
pub open spec fn covered_running<E>(v: TraversalView<E>, dirs: OpenDirs<E>) -> bool {
    &&& v.running()
    &&& levels_ok(v.stack, dirs)
    &&& v.start matches Some(Ok(n)) ==> n.depth == 0
    &&& reparse_armed(v) ==> reparse_ok(v.reparse_depth, nodes_of(dirs, v.stack.len() as int))
}

/// One step keeps the books: a yielded item is the first one owed, and
/// everything else is still owed afterwards.
pub open spec fn accounted<E>(
    t: Tree<E>,
    v: TraversalView<E>,
    vd: OpenDirs<E>,
    w: TraversalView<E>,
    wd: OpenDirs<E>,
    a: Action<E>,
) -> bool {
    &&& covered(w, wd)
    &&& match a {
        Action::Yield(x) => owed(t, v, vd) == seq![x] + owed(t, w, wd),
        Action::Finished => owed(t, v, vd).len() == 0 && owed(t, w, wd).len() == 0,
        Action::Identify | Action::Backfill | Action::ReadSorted | Action::OpenLive | Action::Refill => owed(
            t,
            v,
            vd,
        ) == owed(t, w, wd),
    }
}

/// Taking the first candidate keeps the rest at the same depth.
proof fn lemma_all_at_depth_drop_first<E>(cs: Seq<Candidate<E>>, d: int)
    requires
        all_at_depth(cs, d),
        cs.len() > 0,
    ensures
        all_at_depth(cs.drop_first(), d),
        at_depth(cs[0], d),
{
    assert forall|j: int| 0 <= j < cs.drop_first().len() implies at_depth(#[trigger] cs.drop_first()[j], d) by {
        assert(cs.drop_first()[j] == cs[j + 1]);
    }
}

/// A reparse point is above `n` and the directories `above` exactly when it
/// is among them or is `n`.
pub(crate) proof fn lemma_armed_push<E>(above: Seq<Node<E>>, n: Node<E>)
    ensures
        armed_by(above.push(n)) == (armed_by(above) || n.reparse_point),
        above.push(n).take(above.len() as int) == above,
{
    let a2 = above.push(n);
    assert(a2.take(above.len() as int) =~= above);
    if armed_by(a2) {
        let j = choose|j: int| 0 <= j < a2.len() && (#[trigger] a2[j]).reparse_point;
        if j < above.len() {
            assert(above[j] == a2[j]);
        }
    }
    if armed_by(above) {
        let j = choose|j: int| 0 <= j < above.len() && (#[trigger] above[j]).reparse_point;
        assert(a2[j] == above[j]);
    }
    if n.reparse_point {
        assert(a2[above.len() as int] == n);
    }
}

/// Fewer directories above keep the depth arming detection consistent.
proof fn lemma_reparse_shrink<E>(rd: Option<usize>, above: Seq<Node<E>>, j: int)
    requires
        0 <= j <= above.len(),
        reparse_ok(rd, above),
    ensures
        reparse_ok(rd, above.take(j)),
{
    let a2 = above.take(j);
    if armed_by(a2) {
        let i = choose|i: int| 0 <= i < a2.len() && (#[trigger] a2[i]).reparse_point;
        assert(above[i] == a2[i]);
        assert(armed_by(above));
        match rd {
            Some(x) => if x >= j {
                assert(above.take(x as int)[i] == above[i]);
                assert(armed_by(above.take(x as int)));
            },
            None => {},
        }
    }
    match rd {
        Some(x) => if x < j {
            assert(a2[x as int] == above[x as int]);
            assert(a2.take(x as int) =~= above.take(x as int));
        },
        None => {},
    }
}

/// The open directories below a prefix do not change it.
proof fn lemma_nodes_same<E>(dirs: OpenDirs<E>, dirs2: OpenDirs<E>, k: int)
    requires
        0 <= k <= dirs.len(),
        k <= dirs2.len(),
        forall|j: int| 0 <= j < k ==> (#[trigger] dirs[j]).node == dirs2[j].node,
    ensures
        nodes_of(dirs, k) == nodes_of(dirs2, k),
{
    assert forall|j: int| 0 <= j < k implies nodes_of(dirs, k)[j] == nodes_of(dirs2, k)[j] by {
        assert(dirs[j].node == dirs2[j].node);
    }
    assert(nodes_of(dirs, k) =~= nodes_of(dirs2, k));
}

/// One more open directory adds its node.
proof fn lemma_nodes_step<E>(dirs: OpenDirs<E>, k: int)
    requires
        0 <= k < dirs.len(),
    ensures
        nodes_of(dirs, k + 1) == nodes_of(dirs, k).push(dirs[k].node),
        nodes_of(dirs, k) == nodes_of(dirs, k + 1).take(k),
{
    assert(nodes_of(dirs, k + 1) =~= nodes_of(dirs, k).push(dirs[k].node));
    assert(nodes_of(dirs, k) =~= nodes_of(dirs, k + 1).take(k));
}

/// The identities of the directories above can be fewer, never more.
proof fn lemma_known_ids_len<E>(t: Tree<E>, above: Seq<Node<E>>)
    ensures
        known_ids(t, above).len() <= above.len(),
    decreases above.len(),
{
    if above.len() > 0 {
        lemma_known_ids_len(t, above.drop_last());
    }
}

/// Only the open directories count.
proof fn lemma_stack_rest_same<E>(
    t: Tree<E>,
    o: WalkDirOptions,
    pf: Platform,
    s: Seq<StreamView<E>>,
    dirs: OpenDirs<E>,
    dirs2: OpenDirs<E>,
    held: Seq<Ancestor>,
)
    requires
        dirs.len() >= s.len(),
        dirs2.len() >= s.len(),
        forall|i: int| 0 <= i < s.len() ==> dirs[i] == dirs2[i],
    ensures
        stack_rest(t, o, pf, s, dirs, held) == stack_rest(t, o, pf, s, dirs2, held),
    decreases s.len(),
{
    if s.len() > 0 {
        let k = s.len() as int;
        assert(dirs[k - 1] == dirs2[k - 1]);
        lemma_nodes_same(dirs, dirs2, k);
        let r = walk_listing(t, o, pf, s.last().ready + dirs[k - 1].unread, k as nat, nodes_of(dirs, k), held);
        lemma_stack_rest_same(t, o, pf, s.drop_last(), dirs, dirs2, r.1);
    }
}

/// What the open directories owe once the innermost holds `ready` and has
/// `unread` left to hand over.
proof fn lemma_stack_rest_top<E>(
    t: Tree<E>,
    o: WalkDirOptions,
    pf: Platform,
    s: Seq<StreamView<E>>,
    dirs: OpenDirs<E>,
    ready: Seq<Candidate<E>>,
    unread: Seq<Candidate<E>>,
    held: Seq<Ancestor>,
)
    requires
        s.len() > 0,
        dirs.len() >= s.len(),
    ensures
        ({
            let k = s.len() as int;
            let s2 = s.update(k - 1, StreamView { ready, live: s.last().live });
            let dirs2 = dirs.update(k - 1, OpenDir { node: dirs[k - 1].node, unread });
            let r = walk_listing(t, o, pf, ready + unread, k as nat, nodes_of(dirs, k), held);
            stack_rest(t, o, pf, s2, dirs2, held) == r.0 + stack_rest(t, o, pf, s.drop_last(), dirs, r.1)
        }),
{
    let k = s.len() as int;
    let s2 = s.update(k - 1, StreamView { ready, live: s.last().live });
    let dirs2 = dirs.update(k - 1, OpenDir { node: dirs[k - 1].node, unread });
    let r = walk_listing(t, o, pf, ready + unread, k as nat, nodes_of(dirs, k), held);
    assert(s2.drop_last() =~= s.drop_last());
    assert(s2.last().ready == ready);
    lemma_nodes_same(dirs, dirs2, k);
    lemma_stack_rest_same(t, o, pf, s.drop_last(), dirs, dirs2, r.1);
}

/// Closing the innermost directory keeps the others as they are.
proof fn lemma_levels_drop_last<E>(s: Seq<StreamView<E>>, dirs: OpenDirs<E>)
    requires
        levels_ok(s, dirs),
        s.len() > 0,
    ensures
        levels_ok(s.drop_last(), dirs),
{
    assert forall|i: int| #![trigger s.drop_last()[i]] 0 <= i < s.drop_last().len() implies level_ok(
        s.drop_last()[i],
        dirs[i],
        i + 1,
    ) by {
        assert(s.drop_last()[i] == s[i]);
    }
}

/// Replacing what the innermost directory holds keeps the others as they
/// are.
proof fn lemma_levels_top<E>(s: Seq<StreamView<E>>, dirs: OpenDirs<E>, st: StreamView<E>, l: OpenDir<E>)
    requires
        levels_ok(s, dirs),
        s.len() > 0,
        level_ok(st, l, s.len() as int),
    ensures
        levels_ok(s.update(s.len() - 1, st), dirs.update(s.len() - 1, l)),
{
    let k = s.len() - 1;
    let s2 = s.update(k, st);
    let dirs2 = dirs.update(k, l);
    assert forall|i: int| #![trigger s2[i]] 0 <= i < s2.len() implies level_ok(s2[i], dirs2[i], i + 1) by {
        if i != k {
            assert(s2[i] == s[i]);
            assert(dirs2[i] == dirs[i]);
        }
    }
}

/// Opening a directory below the innermost one keeps the others as they
/// are.
proof fn lemma_levels_push<E>(s: Seq<StreamView<E>>, dirs: OpenDirs<E>, st: StreamView<E>, l: OpenDir<E>)
    requires
        levels_ok(s, dirs),
        level_ok(st, l, s.len() + 1int),
    ensures
        levels_ok(s.push(st), dirs.take(s.len() as int).push(l)),
{
    let s2 = s.push(st);
    let dirs2 = dirs.take(s.len() as int).push(l);
    assert forall|i: int| #![trigger s2[i]] 0 <= i < s2.len() implies level_ok(s2[i], dirs2[i], i + 1) by {
        if i < s.len() {
            assert(s2[i] == s[i]);
            assert(dirs2[i] == dirs[i]);
        }
    }
}

/// Taking the first child the innermost open directory holds: what is left
/// is still covered, and owes the rest after that child's contribution.
proof fn lemma_take_facts<E>(t: Tree<E>, v: TraversalView<E>, dirs: OpenDirs<E>)
    requires
        covered_running(v, dirs),
        v.start is None,
        v.stack.len() > 0,
        v.stack.last().ready.len() > 0,
    ensures
        ({
            let k = v.stack.len() as int;
            let top = v.stack.last();
            let c = top.ready[0];
            let w = v.with_top(top.ready.drop_first());
            let e = expand(t, v.opts, v.platform, c, k as nat, nodes_of(dirs, k), v.ancestors);
            &&& covered_running(w, dirs)
            &&& w.measure() < v.measure()
            &&& at_depth(c, k)
            &&& remaining(t, v, dirs) == e.0 + stack_rest(t, v.opts, v.platform, w.stack, dirs, e.1)
            &&& core_cost(t, w, dirs) + cand_cost(t, v.opts, v.ordered, c, k as nat) == core_cost(t, v, dirs)
        }),
{
    let o = v.opts;
    let pf = v.platform;
    let top = v.stack.last();
    let k = v.stack.len() as int;
    let u = dirs[k - 1].unread;
    let cs = top.ready + u;
    let above = nodes_of(dirs, k);
    let c = top.ready[0];
    let rest = top.ready.drop_first();
    let w = v.with_top(rest);
    assert(v.stack[k - 1] == top);
    assert(level_ok(top, dirs[k - 1], k));
    lemma_work_replace_last(v.stack, rest, top.live);
    lemma_work_replace_last(v.stack, top.ready, top.live);
    assert(v.stack.update(v.stack.len() - 1, top) =~= v.stack);
    assert(remaining(t, v, dirs) =~= stack_rest(t, o, pf, v.stack, dirs, v.ancestors));
    assert(remaining(t, w, dirs) =~= stack_rest(t, o, pf, w.stack, dirs, w.ancestors));
    assert(dirs.update(k - 1, OpenDir { node: dirs[k - 1].node, unread: u }) =~= dirs);
    assert(cs[0] == c);
    assert(cs.drop_first() =~= rest + u);
    let e = expand(t, o, pf, c, k as nat, above, v.ancestors);
    let r = walk_listing(t, o, pf, cs.drop_first(), k as nat, above, e.1);
    lemma_stack_rest_top(t, o, pf, v.stack, dirs, rest, u, e.1);
    assert(walk_listing(t, o, pf, cs, k as nat, above, v.ancestors) == (e.0 + r.0, r.1));
    assert(stack_rest(t, o, pf, v.stack, dirs, v.ancestors) == (e.0 + r.0) + stack_rest(
        t,
        o,
        pf,
        v.stack.drop_last(),
        dirs,
        r.1,
    ));
    assert(stack_rest(t, o, pf, w.stack, dirs, e.1) == r.0 + stack_rest(t, o, pf, v.stack.drop_last(), dirs, r.1));
    assert(remaining(t, v, dirs) =~= e.0 + stack_rest(t, o, pf, w.stack, dirs, e.1));
    lemma_all_at_depth_drop_first(cs, k);
    let st = StreamView { ready: rest, live: top.live };
    lemma_levels_top(v.stack, dirs, st, dirs[k - 1]);
    assert(dirs.update(k - 1, dirs[k - 1]) =~= dirs);
    lemma_stack_cost_top(t, o, v.ordered, v.stack, dirs, st);
    lemma_stack_cost_top(t, o, v.ordered, v.stack, dirs, top);
}

/// Closing the innermost open directory once it is drained: what is left is
/// still covered, owes and costs the same.
proof fn lemma_pop_facts<E>(t: Tree<E>, v: TraversalView<E>, dirs: OpenDirs<E>)
    requires
        covered_running(v, dirs),
        v.stack.len() > 0,
        v.stack.last().ready.len() == 0,
        !v.stack.last().live,
    ensures
        ({
            let w = TraversalView { stack: v.stack.drop_last(), ..v };
            &&& covered_running(w, dirs)
            &&& w.measure() < v.measure()
            &&& remaining(t, v, dirs) == remaining(t, w, dirs)
            &&& core_cost(t, w, dirs) == core_cost(t, v, dirs)
        }),
{
    let o = v.opts;
    let pf = v.platform;
    let top = v.stack.last();
    let k = v.stack.len() as int;
    let w = TraversalView { stack: v.stack.drop_last(), ..v };
    assert(v.stack[k - 1] == top);
    assert(level_ok(top, dirs[k - 1], k));
    assert(top.ready + dirs[k - 1].unread =~= Seq::<Candidate<E>>::empty());
    assert(remaining(t, v, dirs) =~= remaining(t, w, dirs));
    lemma_levels_drop_last(v.stack, dirs);
    lemma_nodes_step(dirs, k - 1);
    if reparse_armed(v) {
        lemma_reparse_shrink(v.reparse_depth, nodes_of(dirs, k), k - 1);
    }
}

/// Carrying on from a running state keeps the books.
proof fn lemma_advance_accounted<E>(t: Tree<E>, v: TraversalView<E>, dirs: OpenDirs<E>)
    requires
        t.wf(),
        covered_running(v, dirs),
    ensures
        accounted(t, v, dirs, v.advance().0, dirs, v.advance().1),
    decreases v.measure(), 0nat,
{
    let o = v.opts;
    let pf = v.platform;
    match v.start {
        Some(res) => {
            let w = TraversalView { start: None, ..v };
            assert(v.stack.len() == 0);
            assert(nodes_of(dirs, 0) =~= Seq::<Node<E>>::empty());
            match res {
                Err(e) => {
                    assert(remaining(t, v, dirs) =~= seq![Err::<Node<E>, Error>(e)] + remaining(t, w, dirs));
                    lemma_emit_accounted(t, v, dirs, w, dirs, Err(e));
                },
                Ok(n) => {
                    let r = subtree(t, o, pf, n, true, 0, Seq::empty(), v.ancestors);
                    assert(remaining(t, v, dirs) =~= r.0 + stack_rest(t, o, pf, w.stack, dirs, r.1));
                    lemma_begin_accounted(t, v, dirs, w, dirs, n, true, true);
                },
            }
        },
        None => {
            if v.stack.len() == 0 {
                let w = TraversalView { awaiting: Awaiting::Next, ..v };
                assert(remaining(t, v, dirs) =~= Seq::<Result<Node<E>, Error>>::empty());
                assert(remaining(t, w, dirs) =~= Seq::<Result<Node<E>, Error>>::empty());
            } else {
                let top = v.stack.last();
                let k = v.stack.len() as int;
                if top.ready.len() > 0 {
                    let c = top.ready[0];
                    let w = v.with_top(top.ready.drop_first());
                    lemma_take_facts(t, v, dirs);
                    assert(remaining(t, w, dirs) =~= stack_rest(t, o, pf, w.stack, dirs, w.ancestors));
                    match c.entry {
                        Err(e) => {
                            assert(remaining(t, v, dirs) =~= seq![Err::<Node<E>, Error>(e)] + remaining(t, w, dirs));
                            lemma_emit_accounted(t, v, dirs, w, dirs, Err(e));
                        },
                        Ok(n) => {
                            if o.skip_hidden && n.hidden {
                                assert(remaining(t, v, dirs) =~= remaining(t, w, dirs));
                                lemma_advance_accounted(t, w, dirs);
                            } else {
                                lemma_begin_accounted(t, v, dirs, w, dirs, n, c.yielded, false);
                            }
                        },
                    }
                } else if top.live {
                    let w = TraversalView { awaiting: Awaiting::Batch, ..v };
                    assert(remaining(t, w, dirs) == remaining(t, v, dirs));
                } else {
                    let w = TraversalView { stack: v.stack.drop_last(), ..v };
                    lemma_pop_facts(t, v, dirs);
                    lemma_advance_accounted(t, w, dirs);
                }
            }
        },
    }
}

/// `v` owes `item` followed by what `w` owes; handing `item` on keeps the
/// books.
proof fn lemma_emit_accounted<E>(
    t: Tree<E>,
    v: TraversalView<E>,
    vd: OpenDirs<E>,
    w: TraversalView<E>,
    wd: OpenDirs<E>,
    item: Result<Node<E>, Error>,
)
    requires
        t.wf(),
        covered_running(w, wd),
        remaining(t, v, vd) == seq![item] + remaining(t, w, wd),
        v.pager == w.pager,
    ensures
        accounted(t, v, vd, w.emit(item).0, wd, w.emit(item).1),
    decreases w.measure(), 1nat,
{
    let rest = remaining(t, w, wd);
    assert((seq![item] + rest).drop_first() =~= rest);
    assert((seq![item] + rest)[0] == item);
    match w.pager {
        None => {
            let z = TraversalView { awaiting: Awaiting::Next, ..w };
            assert(remaining(t, z, wd) == remaining(t, w, wd));
        },
        Some(p) => {
            if p.emits() {
                let z = TraversalView { pager: Some(p.advance()), awaiting: Awaiting::Next, ..w };
                assert(remaining(t, z, wd) == rest);
                assert(owed(t, v, vd) == seq![item] + owed(t, z, wd));
            } else {
                let z = TraversalView { pager: Some(p.advance()), ..w };
                assert(remaining(t, z, wd) == rest);
                assert(owed(t, v, vd) == owed(t, z, wd));
                lemma_advance_accounted(t, z, wd);
            }
        },
    }
}

/// Descending into `n`: the state that then waits for the driver is
/// covered, and the pending directory owes what the subtree of `n` does.
proof fn lemma_track_facts<E>(t: Tree<E>, w: TraversalView<E>, wd: OpenDirs<E>, n: Node<E>, yielded: bool, is_root: bool)
    requires
        covered_running(w, wd),
        w.start is None,
        n.depth == w.stack.len(),
        is_root || !(w.opts.skip_hidden && n.hidden),
        w.descends(n),
    ensures
        ({
            let k = n.depth as int;
            let x = TraversalView { pending: Some(Pending { node: n, emit: w.emits(yielded, n), root: is_root }), ..w };
            let z = x.track().0;
            &&& covered(z, wd)
            &&& pending_rest(t, z, wd) == subtree(t, w.opts, w.platform, n, yielded, k as nat, nodes_of(wd, k), w.ancestors)
            &&& z.stack == w.stack
            &&& z.start is None
            &&& z.pager == w.pager
            &&& (x.track().1 is Identify || x.track().1 is Backfill || x.track().1 is ReadSorted || x.track().1 is OpenLive)
        }),
{
    let o = w.opts;
    let pf = w.platform;
    let k = n.depth as int;
    let above = nodes_of(wd, k);
    let emit = w.emits(yielded, n);
    let x = TraversalView { pending: Some(Pending { node: n, emit, root: is_root }), ..w };
    lemma_armed_push(above, n);
    assert(emit == (yielded && k >= o.min_depth));
    if o.follow_links {
        assert(x.track() == x.identify());
    } else if pf == Platform::Windows {
        lemma_track_windows(t, w, wd, n, yielded, is_root);
    } else {
        assert(x.track() == x.open());
    }
}

/// `lemma_track_facts` on Windows without followed links.
proof fn lemma_track_windows<E>(t: Tree<E>, w: TraversalView<E>, wd: OpenDirs<E>, n: Node<E>, yielded: bool, is_root: bool)
    requires
        covered_running(w, wd),
        w.start is None,
        n.depth == w.stack.len(),
        is_root || !(w.opts.skip_hidden && n.hidden),
        w.descends(n),
        w.platform == Platform::Windows,
        !w.opts.follow_links,
    ensures
        ({
            let k = n.depth as int;
            let x = TraversalView { pending: Some(Pending { node: n, emit: w.emits(yielded, n), root: is_root }), ..w };
            let z = x.track().0;
            &&& covered(z, wd)
            &&& pending_rest(t, z, wd) == subtree(t, w.opts, w.platform, n, yielded, k as nat, nodes_of(wd, k), w.ancestors)
        }),
{
    let o = w.opts;
    let k = n.depth as int;
    let above = nodes_of(wd, k);
    let emit = w.emits(yielded, n);
    lemma_armed_push(above, n);
    assert(above.push(n)[k] == n);
    match w.reparse_depth {
        Some(x0) => if x0 < k {
            assert(first_reparse(above, x0 as int));
            assert(above[x0 as int].reparse_point);
            assert(armed_by(above));
            assert(above.push(n)[x0 as int] == above[x0 as int]);
            assert(above.push(n).take(x0 as int) =~= above.take(x0 as int));
        } else {
            assert(!armed_by(above));
        },
        None => {
            assert(!armed_by(above));
        },
    }
}

/// `v` owes the subtree of `n` (at its own depth, one below the innermost
/// open directory) followed by what the open directories owe from the
/// identities held after it; taking `n` keeps the books.
proof fn lemma_begin_accounted<E>(
    t: Tree<E>,
    v: TraversalView<E>,
    vd: OpenDirs<E>,
    w: TraversalView<E>,
    wd: OpenDirs<E>,
    n: Node<E>,
    yielded: bool,
    is_root: bool,
)
    requires
        t.wf(),
        covered_running(w, wd),
        w.start is None,
        n.depth == w.stack.len(),
        is_root || !(w.opts.skip_hidden && n.hidden),
        ({
            let r = subtree(t, w.opts, w.platform, n, yielded, n.depth as nat, nodes_of(wd, n.depth as int), w.ancestors);
            remaining(t, v, vd) == r.0 + stack_rest(t, w.opts, w.platform, w.stack, wd, r.1)
        }),
        v.pager == w.pager,
    ensures
        accounted(t, v, vd, w.begin(n, yielded, is_root).0, wd, w.begin(n, yielded, is_root).1),
    decreases w.measure(), 2nat,
{
    let o = w.opts;
    let pf = w.platform;
    let k = n.depth as int;
    let emit = w.emits(yielded, n);
    let above = nodes_of(wd, k);
    lemma_armed_push(above, n);
    if w.descends(n) {
        let p = Pending { node: n, emit, root: is_root };
        let x = TraversalView { pending: Some(p), ..w };
        let z = x.track().0;
        lemma_track_facts(t, w, wd, n, yielded, is_root);
        assert(remaining(t, z, wd) =~= pending_rest(t, z, wd).0 + stack_rest(t, o, pf, w.stack, wd, pending_rest(t, z, wd).1));
        assert(remaining(t, v, vd) =~= remaining(t, z, wd));
    } else if emit {
        assert(remaining(t, v, vd) =~= seq![Ok::<Node<E>, Error>(n)] + remaining(t, w, wd));
        lemma_emit_accounted(t, v, vd, w, wd, Ok(n));
    } else {
        assert(remaining(t, v, vd) =~= remaining(t, w, wd));
        lemma_advance_accounted(t, w, wd);
    }
}

/// The pending directory is opened as the innermost stream `s`, and the
/// driver keeps `u` of its listing to hand over later: once it is no longer
/// pending, the state is covered and owes the rest.
proof fn lemma_open_facts<E>(t: Tree<E>, v: TraversalView<E>, dirs: OpenDirs<E>, s: StreamView<E>, u: Seq<Candidate<E>>)
    requires
        t.wf(),
        covered(v, dirs),
        v.awaiting == Awaiting::Listing || v.awaiting == Awaiting::Opened,
        t.fault(v.pending.unwrap().node) is None,
        s.ready + u == t.listing(v.pending.unwrap().node),
        !s.live ==> u.len() == 0,
    ensures
        ({
            let k = v.stack.len() as int;
            let p = v.pending.unwrap();
            let y = TraversalView { stack: v.stack.push(s), pending: None, ..v };
            let dirs2 = dirs.take(k).push(OpenDir { node: p.node, unread: u });
            &&& covered_running(y, dirs2)
            &&& remaining(t, v, dirs) == (if p.emit {
                seq![Ok::<Node<E>, Error>(p.node)]
            } else {
                Seq::empty()
            }) + remaining(t, y, dirs2)
            &&& stack_cost(t, v.opts, v.ordered, y.stack, dirs2) == level_cost(t, v.opts, v.ordered, s, u, (k + 1) as nat)
                + stack_cost(t, v.opts, v.ordered, v.stack, dirs)
        }),
{
    let o = v.opts;
    let pf = v.platform;
    let p = v.pending.unwrap();
    let n = p.node;
    let kids = t.listing(n);
    let k = v.stack.len() as int;
    let y = TraversalView { stack: v.stack.push(s), pending: None, ..v };
    let dirs2 = dirs.take(k).push(OpenDir { node: n, unread: u });
    let above = nodes_of(dirs, k);
    assert(dirs2[k].node == n);
    lemma_nodes_same(dirs, dirs2, k);
    lemma_nodes_step(dirs2, k);
    lemma_stack_rest_same(t, o, pf, v.stack, dirs, dirs2, v.ancestors);
    lemma_stack_cost_same(t, o, v.ordered, v.stack, dirs, dirs2);
    assert(y.stack.drop_last() =~= v.stack);
    assert(dirs2[k].unread == u);
    let r = walk_listing(t, o, pf, kids, (k + 1) as nat, above.push(n), v.ancestors);
    lemma_stack_rest_same(t, o, pf, v.stack, dirs, dirs2, r.1);
    assert(stack_rest(t, o, pf, y.stack, dirs2, v.ancestors) == r.0 + stack_rest(t, o, pf, v.stack, dirs, r.1));
    assert(remaining(t, y, dirs2) =~= stack_rest(t, o, pf, y.stack, dirs2, v.ancestors));
    assert(pending_rest(t, v, dirs) == ((if p.emit {
        seq![Ok::<Node<E>, Error>(n)]
    } else {
        Seq::empty()
    }) + r.0, r.1));
    assert(all_at_depth(kids, n.depth + 1));
    lemma_levels_push(v.stack, dirs, s, OpenDir { node: n, unread: u });
}

/// The pending directory is opened as the innermost stream `s`, and the
/// driver keeps `u` of its listing to hand over later; this keeps the books.
proof fn lemma_open_accounted<E>(t: Tree<E>, v: TraversalView<E>, dirs: OpenDirs<E>, s: StreamView<E>, u: Seq<Candidate<E>>)
    requires
        t.wf(),
        covered(v, dirs),
        v.awaiting == Awaiting::Listing || v.awaiting == Awaiting::Opened,
        t.fault(v.pending.unwrap().node) is None,
        s.ready + u == t.listing(v.pending.unwrap().node),
        !s.live ==> u.len() == 0,
    ensures
        ({
            let k = v.stack.len() as int;
            let x = TraversalView { stack: v.stack.push(s), ..v };
            let dirs2 = dirs.take(k).push(OpenDir { node: v.pending.unwrap().node, unread: u });
            accounted(t, v, dirs, x.finish().0, dirs2, x.finish().1)
        }),
{
    let p = v.pending.unwrap();
    let n = p.node;
    let k = v.stack.len() as int;
    let y = TraversalView { stack: v.stack.push(s), pending: None, ..v };
    let dirs2 = dirs.take(k).push(OpenDir { node: n, unread: u });
    lemma_open_facts(t, v, dirs, s, u);
    if p.emit {
        lemma_emit_accounted(t, v, dirs, y, dirs2, Ok(n));
    } else {
        lemma_advance_accounted(t, y, dirs2);
        assert(owed(t, v, dirs) == owed(t, y, dirs2));
    }
}

/// The pending directory cannot be read: no longer pending, the state is
/// covered and owes the rest after the error.
proof fn lemma_fault_facts<E>(t: Tree<E>, v: TraversalView<E>, dirs: OpenDirs<E>, e: Error)
    requires
        covered(v, dirs),
        v.awaiting == Awaiting::Listing || v.awaiting == Awaiting::Opened,
        t.fault(v.pending.unwrap().node) == Some(e),
    ensures
        ({
            let y = TraversalView { pending: None, ..v };
            &&& covered_running(y, dirs)
            &&& remaining(t, v, dirs) == seq![Err::<Node<E>, Error>(e)] + remaining(t, y, dirs)
            &&& core_cost(t, y, dirs) < core_cost(t, v, dirs)
        }),
{
    let k = v.stack.len() as int;
    let y = TraversalView { pending: None, ..v };
    let above = nodes_of(dirs, k);
    assert(remaining(t, y, dirs) =~= stack_rest(t, v.opts, v.platform, v.stack, dirs, v.ancestors));
    assert(remaining(t, v, dirs) =~= seq![Err::<Node<E>, Error>(e)] + stack_rest(t, v.opts, v.platform, v.stack, dirs, v.ancestors));
    lemma_armed_push(above, v.pending.unwrap().node);
    if reparse_armed(v) {
        lemma_reparse_shrink(v.reparse_depth, above.push(v.pending.unwrap().node), k);
    }
}

/// The pending directory's identity arrives; it keeps the books.
proof fn lemma_identity_accounted<E>(t: Tree<E>, v: TraversalView<E>, dirs: OpenDirs<E>)
    requires
        t.wf(),
        covered(v, dirs),
        v.awaiting == Awaiting::Identity,
    ensures
        ({
            let n = v.pending.unwrap().node;
            let (w, a) = v.on_identity(t.id(n), t.loc(n));
            accounted(t, v, dirs, w, dirs, a)
        }),
{
    let o = v.opts;
    let pf = v.platform;
    let p = v.pending.unwrap();
    let n = p.node;
    let k = v.stack.len() as int;
    let above = nodes_of(dirs, k);
    let pr = pending_rest(t, v, dirs);
    assert(remaining(t, v, dirs) =~= pr.0 + stack_rest(t, o, pf, v.stack, dirs, pr.1));
    lemma_armed_push(above, n);
    match t.id(n) {
        Some(a) => {
            if v.ancestors.contains(a) {
                let e = Error::spec_loop(t.loc(n), n.depth);
                let y = TraversalView { pending: None, ..v };
                assert(v.on_identity(Some(a), t.loc(n)) == y.emit(Err(e)));
                assert(remaining(t, y, dirs) =~= stack_rest(t, o, pf, v.stack, dirs, v.ancestors));
                if reparse_armed(v) {
                    lemma_reparse_shrink(v.reparse_depth, above.push(n), k);
                }
                lemma_emit_accounted(t, v, dirs, y, dirs, Err(e));
            } else {
                let x = TraversalView { ancestors: v.ancestors.push(a), ..v };
                let z = x.open().0;
                assert(v.on_identity(Some(a), t.loc(n)) == x.open());
                assert(remaining(t, z, dirs) =~= pending_rest(t, z, dirs).0 + stack_rest(
                    t,
                    o,
                    pf,
                    v.stack,
                    dirs,
                    pending_rest(t, z, dirs).1,
                ));
            }
        },
        None => {
            let z = v.open().0;
            assert(v.on_identity(None, t.loc(n)) == v.open());
            assert(remaining(t, z, dirs) =~= pending_rest(t, z, dirs).0 + stack_rest(
                t,
                o,
                pf,
                v.stack,
                dirs,
                pending_rest(t, z, dirs).1,
            ));
        },
    }
}

/// The identities above the pending directory arrive; it keeps the books.
proof fn lemma_backfill_accounted<E>(t: Tree<E>, v: TraversalView<E>, dirs: OpenDirs<E>)
    requires
        t.wf(),
        covered(v, dirs),
        v.awaiting == Awaiting::Backfill,
    ensures
        ({
            let (w, a) = v.on_backfill(known_ids(t, nodes_of(dirs, v.stack.len() as int)));
            accounted(t, v, dirs, w, dirs, a)
        }),
{
    let o = v.opts;
    let pf = v.platform;
    let k = v.stack.len() as int;
    let above = nodes_of(dirs, k);
    let ids = known_ids(t, above);
    lemma_known_ids_len(t, above);
    let x = TraversalView { ancestors: ids, ..v };
    let z = x.identify().0;
    assert(z.ancestors =~= ids);
    assert(remaining(t, z, dirs) =~= pending_rest(t, z, dirs).0 + stack_rest(t, o, pf, v.stack, dirs, pending_rest(t, z, dirs).1));
    assert(remaining(t, v, dirs) =~= pending_rest(t, v, dirs).0 + stack_rest(t, o, pf, v.stack, dirs, pending_rest(t, v, dirs).1));
}

/// How many children of a streamed directory the driver hands over at once,
/// chosen from the state it answers and what it knows of the open
/// directories.
pub type Batching<E> = spec_fn(TraversalView<E>, OpenDirs<E>) -> nat;

/// How many of `u` a batch of size `batch` hands over.
pub open spec fn batch_len<E>(u: Seq<Candidate<E>>, batch: nat) -> int {
    if batch <= u.len() {
        batch as int
    } else {
        u.len() as int
    }
}

/// One exchange with a driver that answers every read from `t`: asking for
/// the next entry, reporting the pending directory's identity or those of
/// the directories above it, handing over its listing whole, or, for a
/// streamed directory, handing it over as many children at a time as `batch`
/// chooses — or the error reading it. `dirs` is what the driver knows of the
/// open directories.
pub open spec fn exchange<E>(t: Tree<E>, batch: Batching<E>, v: TraversalView<E>, dirs: OpenDirs<E>) -> (
    TraversalView<E>,
    OpenDirs<E>,
    Action<E>,
) {
    let k = v.stack.len() as int;
    let n = v.pending.unwrap().node;
    if v.awaiting == Awaiting::Identity {
        let (w, a) = v.on_identity(t.id(n), t.loc(n));
        (w, dirs, a)
    } else if v.awaiting == Awaiting::Backfill {
        let (w, a) = v.on_backfill(known_ids(t, nodes_of(dirs, k)));
        (w, dirs, a)
    } else if v.awaiting == Awaiting::Listing {
        match t.fault(n) {
            Some(e) => {
                let (w, a) = v.on_listing(Err(e));
                (w, dirs, a)
            },
            None => {
                let (w, a) = v.on_listing(Ok(t.listing(n)));
                (w, dirs.take(k).push(OpenDir { node: n, unread: Seq::empty() }), a)
            },
        }
    } else if v.awaiting == Awaiting::Opened {
        match t.fault(n) {
            Some(e) => {
                let (w, a) = v.on_opened(Err(e));
                (w, dirs, a)
            },
            None => {
                let (w, a) = v.on_opened(Ok(()));
                (w, dirs.take(k).push(OpenDir { node: n, unread: t.listing(n) }), a)
            },
        }
    } else if v.awaiting == Awaiting::Batch {
        let l = dirs[k - 1];
        if l.unread.len() == 0 {
            let (w, a) = v.on_batch(None);
            (w, dirs, a)
        } else {
            let m = batch_len(l.unread, batch(v, dirs));
            let (w, a) = v.on_batch(Some(l.unread.take(m)));
            (w, dirs.update(k - 1, OpenDir { node: l.node, unread: l.unread.skip(m) }), a)
        }
    } else {
        let (w, a) = v.next();
        (w, dirs, a)
    }
}

/// `fuel` exchanges with a driver that answers every read from `t`: the
/// state reached, what the driver knows of the open directories, what was
/// yielded, and whether the walk ended.
pub open spec fn drive<E>(t: Tree<E>, batch: Batching<E>, v: TraversalView<E>, dirs: OpenDirs<E>, fuel: nat) -> (
    TraversalView<E>,
    OpenDirs<E>,
    Seq<Result<Node<E>, Error>>,
    bool,
)
    decreases fuel,
{
    if fuel == 0 {
        (v, dirs, Seq::empty(), false)
    } else {
        let (w, dirs2, a) = exchange(t, batch, v, dirs);
        match a {
            Action::Yield(x) => {
                let (z, dirs3, out, done) = drive(t, batch, w, dirs2, (fuel - 1) as nat);
                (z, dirs3, seq![x] + out, done)
            },
            Action::Finished => (w, dirs2, Seq::empty(), true),
            _ => drive(t, batch, w, dirs2, (fuel - 1) as nat),
        }
    }
}

/// Every exchange keeps the books.
pub(crate) proof fn lemma_exchange_accounted<E>(t: Tree<E>, batch: Batching<E>, v: TraversalView<E>, dirs: OpenDirs<E>)
    requires
        t.wf(),
        covered(v, dirs),
    ensures
        ({
            let (w, dirs2, a) = exchange(t, batch, v, dirs);
            accounted(t, v, dirs, w, dirs2, a)
        }),
{
    let o = v.opts;
    let pf = v.platform;
    let k = v.stack.len() as int;
    if v.awaiting == Awaiting::Identity {
        lemma_identity_accounted(t, v, dirs);
    } else if v.awaiting == Awaiting::Backfill {
        lemma_backfill_accounted(t, v, dirs);
    } else if (v.awaiting == Awaiting::Listing || v.awaiting == Awaiting::Opened) && t.fault(
        v.pending.unwrap().node,
    ) is Some {
        let e = t.fault(v.pending.unwrap().node).unwrap();
        let y = TraversalView { pending: None, ..v };
        lemma_fault_facts(t, v, dirs, e);
        assert(v.on_listing(Err(e)) == y.emit(Err(e)));
        assert(v.on_opened(Err(e)) == y.emit(Err(e)));
        lemma_emit_accounted(t, v, dirs, y, dirs, Err(e));
    } else if v.awaiting == Awaiting::Listing || v.awaiting == Awaiting::Opened {
        let p = v.pending.unwrap();
        let kids = t.listing(p.node);
        let (s, u) = if v.awaiting == Awaiting::Listing {
            (StreamView { ready: kids, live: false }, Seq::<Candidate<E>>::empty())
        } else {
            (StreamView { ready: Seq::<Candidate<E>>::empty(), live: true }, kids)
        };
        assert(s.ready + u =~= kids);
        lemma_open_accounted(t, v, dirs, s, u);
        let x = TraversalView { stack: v.stack.push(s), ..v };
        if v.awaiting == Awaiting::Listing {
            assert(v.on_listing(Ok(kids)) == x.finish());
        } else {
            assert(v.on_opened(Ok(())) == x.finish());
        }
    } else if v.awaiting == Awaiting::Batch {
        let top = v.stack.last();
        let l = dirs[k - 1];
        let u = l.unread;
        let above = nodes_of(dirs, k);
        assert(v.stack[k - 1] == top);
        assert(level_ok(top, l, k));
        assert(top.ready + u =~= u);
        assert(remaining(t, v, dirs) =~= stack_rest(t, o, pf, v.stack, dirs, v.ancestors));
        lemma_stack_rest_top(t, o, pf, v.stack, dirs, top.ready, u, v.ancestors);
        assert(v.stack.update(k - 1, top) =~= v.stack);
        assert(dirs.update(k - 1, OpenDir { node: l.node, unread: u }) =~= dirs);
        if u.len() == 0 {
            let y = TraversalView { stack: v.stack.drop_last(), ..v };
            assert(remaining(t, v, dirs) =~= remaining(t, y, dirs));
            lemma_levels_drop_last(v.stack, dirs);
            lemma_nodes_step(dirs, k - 1);
            if reparse_armed(v) {
                lemma_reparse_shrink(v.reparse_depth, above, k - 1);
            }
            lemma_advance_accounted(t, y, dirs);
        } else {
            let m = batch_len(u, batch(v, dirs));
            let chunk = u.take(m);
            let rest = u.skip(m);
            let dirs2 = dirs.update(k - 1, OpenDir { node: l.node, unread: rest });
            let y = v.with_top(chunk);
            assert(chunk + rest =~= u);
            lemma_stack_rest_top(t, o, pf, v.stack, dirs, chunk, rest, v.ancestors);
            assert(remaining(t, y, dirs2) =~= stack_rest(t, o, pf, y.stack, dirs2, y.ancestors));
            assert(remaining(t, v, dirs) == remaining(t, y, dirs2));
            assert(covered_running(y, dirs2)) by {
                lemma_levels_top(v.stack, dirs, StreamView { ready: chunk, live: top.live }, OpenDir { node: l.node, unread: rest });
                lemma_nodes_same(dirs, dirs2, k);
            }
            lemma_advance_accounted(t, y, dirs2);
        }
    } else {
        match v.pager {
            Some(p) => if p.exhausted() {
                assert(owed(t, v, dirs) =~= Seq::<Result<Node<E>, Error>>::empty());
            } else {
                lemma_advance_accounted(t, v, dirs);
            },
            None => lemma_advance_accounted(t, v, dirs),
        }
    }
}

/// Any number of exchanges keep the books.
pub(crate) proof fn lemma_drive<E>(t: Tree<E>, batch: Batching<E>, v: TraversalView<E>, dirs: OpenDirs<E>, fuel: nat)
    requires
        t.wf(),
        covered(v, dirs),
    ensures
        ({
            let (w, dirs2, out, done) = drive(t, batch, v, dirs, fuel);
            &&& covered(w, dirs2)
            &&& out + owed(t, w, dirs2) == owed(t, v, dirs)
            &&& done ==> owed(t, w, dirs2).len() == 0
        }),
    decreases fuel,
{
    if fuel > 0 {
        let (w, dirs2, a) = exchange(t, batch, v, dirs);
        lemma_exchange_accounted(t, batch, v, dirs);
        match a {
            Action::Yield(x) => {
                lemma_drive(t, batch, w, dirs2, (fuel - 1) as nat);
                let (z, dirs3, out, done) = drive(t, batch, w, dirs2, (fuel - 1) as nat);
                assert(seq![x] + out + owed(t, z, dirs3) =~= seq![x] + (out + owed(t, z, dirs3)));
            },
            Action::Finished => {},
            _ => {
                lemma_drive(t, batch, w, dirs2, (fuel - 1) as nat);
            },
        }
    } else {
        assert(Seq::<Result<Node<E>, Error>>::empty() + owed(t, v, dirs) =~= owed(t, v, dirs));
    }
}

/// The part of `s` a walk with pager `pager` yields: all of it unpaged,
/// `skip(offset).take(limit)` paged.
pub open spec fn window<T>(pager: Option<PagerView>, s: Seq<T>) -> Seq<T> {
    match pager {
        Some(p) => skip_take(s, p.offset, p.limit),
        None => s,
    }
}

/// A fresh walk: nothing taken yet, and nothing paged yet.
pub open spec fn fresh<E>(v: TraversalView<E>) -> bool {
    &&& v.wf()
    &&& v.pager matches Some(p) ==> p.yielded == 0 && p.skipped == 0
    &&& v.start matches Some(start) && (start matches Ok(n) ==> n.depth == 0)
    &&& v.stack.len() == 0
    &&& v.ancestors.len() == 0
    &&& v.pending is None
    &&& v.awaiting == Awaiting::Next
}

/// Pre-order law: driven by a driver that answers every read from the tree
/// `t` (children one level down) — listings whole for a directory read
/// whole, in batches of the sizes `batch` chooses for a streamed one, and
/// identities when asked, where they can be obtained — a fresh walk yields, in order, a prefix of the depth-first
/// pre-order of the tree (the root, then each child followed by its
/// subtree) pruned by the options, with a loop error in place of each
/// directory whose identity is compared and is among those held, and the
/// error reading a directory in its place, and cut to
/// `skip(offset).take(limit)` when paged; what it has not yielded yet is
/// exactly the rest of that sequence, and it reports the end only once the
/// whole of it has been yielded.
pub proof fn lemma_walk_is_preorder<E>(t: Tree<E>, batch: Batching<E>, v: TraversalView<E>, fuel: nat)
    requires
        t.wf(),
        fresh(v),
    ensures
        ({
            let (w, dirs, out, done) = drive(t, batch, v, Seq::empty(), fuel);
            let whole = window(v.pager, walk_from(t, v.opts, v.platform, v.start.unwrap()));
            &&& out + owed(t, w, dirs) == whole
            &&& done ==> out == whole
        }),
{
    let dirs0 = Seq::<OpenDir<E>>::empty();
    assert(nodes_of(dirs0, 0) =~= Seq::<Node<E>>::empty());
    assert(covered(v, dirs0));
    lemma_drive(t, batch, v, dirs0, fuel);
    let (w, dirs, out, done) = drive(t, batch, v, dirs0, fuel);
    let whole = walk_from(t, v.opts, v.platform, v.start.unwrap());
    assert(v.ancestors =~= Seq::<Ancestor>::empty());
    assert(remaining(t, v, dirs0) =~= whole);
    match v.pager {
        Some(p) => {
            lemma_pagination(p.limit, p.offset, whole);
            assert(p == PagerView { limit: p.limit, offset: p.offset, yielded: 0, skipped: 0 });
        },
        None => {},
    }
    assert(owed(t, v, dirs0) == window(v.pager, whole));
    if done {
        assert(out + owed(t, w, dirs) =~= out);
    }
}

/// Concurrency law: how many children of a streamed directory the driver
/// hands over at a time — the batch size the concurrency sets — never
/// changes what the walk yields. Driven with any two batchings from the
/// same fresh state, the two walks agree on every item both have yielded,
/// and two walks that have reported their end yielded the same sequence.
pub proof fn lemma_walk_ignores_batching<E>(
    t: Tree<E>,
    b1: Batching<E>,
    b2: Batching<E>,
    v: TraversalView<E>,
    f1: nat,
    f2: nat,
)
    requires
        t.wf(),
        fresh(v),
    ensures
        ({
            let (w1, d1, out1, done1) = drive(t, b1, v, Seq::empty(), f1);
            let (w2, d2, out2, done2) = drive(t, b2, v, Seq::empty(), f2);
            &&& forall|i: int| 0 <= i < out1.len() && i < out2.len() ==> out1[i] == out2[i]
            &&& (done1 && done2) ==> out1 == out2
        }),
{
    lemma_walk_is_preorder(t, b1, v, f1);
    lemma_walk_is_preorder(t, b2, v, f2);
    let (w1, d1, out1, done1) = drive(t, b1, v, Seq::empty(), f1);
    let (w2, d2, out2, done2) = drive(t, b2, v, Seq::empty(), f2);
    let whole = window(v.pager, walk_from(t, v.opts, v.platform, v.start.unwrap()));
    assert forall|i: int| 0 <= i < out1.len() && i < out2.len() implies out1[i] == out2[i] by {
        assert(out1[i] == (out1 + owed(t, w1, d1))[i]);
        assert(out2[i] == (out2 + owed(t, w2, d2))[i]);
    }
}

/// Exchanges a candidate of a directory at depth `d` may still cost: one to
/// yield it, and for a directory descended into, up to three to identify
/// and open it, and what its children cost.
pub open spec fn cand_cost<E>(t: Tree<E>, o: WalkDirOptions, ordered: bool, c: Candidate<E>, d: nat) -> nat
    decreases o.max_depth + 1 - d, 1int,
{
    match c.entry {
        Err(_) => 2,
        Ok(n) => if o.skip_hidden && n.hidden {
            2
        } else {
            node_cost(t, o, ordered, n, d)
        },
    }
}

/// Exchanges an entry at depth `d` may still cost.
pub open spec fn node_cost<E>(t: Tree<E>, o: WalkDirOptions, ordered: bool, n: Node<E>, d: nat) -> nat
    decreases o.max_depth + 1 - d, 0int,
{
    if n.is_dir && d < o.max_depth {
        5 + stream_cost(t, o, ordered, t.listing(n), d + 1)
    } else {
        2
    }
}

/// Exchanges the children `cs` of a directory may still cost once it is
/// open: read whole, their own; streamed, also one batch each at most, and
/// one to learn the stream is over.
pub open spec fn stream_cost<E>(t: Tree<E>, o: WalkDirOptions, ordered: bool, cs: Seq<Candidate<E>>, d: nat) -> nat
    decreases o.max_depth + 1 - d, cs.len() + 3,
{
    if ordered {
        list_cost(t, o, ordered, cs, d, 0)
    } else {
        list_cost(t, o, ordered, cs, d, 2) + 2
    }
}

/// What the candidates `cs` at depth `d` may still cost, `extra` more each.
pub open spec fn list_cost<E>(t: Tree<E>, o: WalkDirOptions, ordered: bool, cs: Seq<Candidate<E>>, d: nat, extra: nat) -> nat
    decreases o.max_depth + 1 - d, cs.len() + 2,
{
    if cs.len() == 0 {
        0
    } else {
        cand_cost(t, o, ordered, cs[0], d) + extra + list_cost(t, o, ordered, cs.drop_first(), d, extra)
    }
}

/// What an open directory at depth `d - 1` may still cost: the children it
/// holds, and, streamed, those not handed over yet and the end of the stream.
pub open spec fn level_cost<E>(t: Tree<E>, o: WalkDirOptions, ordered: bool, s: StreamView<E>, u: Seq<Candidate<E>>, d: nat) -> nat {
    if s.live {
        list_cost(t, o, ordered, s.ready, d, 0) + list_cost(t, o, ordered, u, d, 2) + 2
    } else {
        list_cost(t, o, ordered, s.ready, d, 0)
    }
}

/// What the open directories may still cost.
pub open spec fn stack_cost<E>(t: Tree<E>, o: WalkDirOptions, ordered: bool, s: Seq<StreamView<E>>, dirs: OpenDirs<E>) -> nat
    decreases s.len(),
{
    if s.len() == 0 {
        0
    } else {
        level_cost(t, o, ordered, s.last(), dirs[s.len() - 1].unread, s.len() as nat) + stack_cost(
            t,
            o,
            ordered,
            s.drop_last(),
            dirs,
        )
    }
}

/// What a state may still cost, apart from answering the consumer.
pub open spec fn core_cost<E>(t: Tree<E>, v: TraversalView<E>, dirs: OpenDirs<E>) -> nat {
    let o = v.opts;
    let start_part = match v.start {
        Some(Ok(n)) => node_cost(t, o, v.ordered, n, 0),
        Some(Err(_)) => 2,
        None => 0,
    };
    let pending_part = match v.pending {
        Some(p) => (if v.awaiting == Awaiting::Backfill {
            2nat
        } else if v.awaiting == Awaiting::Identity {
            1nat
        } else {
            0nat
        }) + 2 + stream_cost(t, o, v.ordered, t.listing(p.node), (p.node.depth + 1) as nat),
        None => 0,
    };
    start_part + pending_part + stack_cost(t, o, v.ordered, v.stack, dirs)
}

/// An upper bound on the exchanges a walk still needs before it ends.
pub open spec fn effort<E>(t: Tree<E>, v: TraversalView<E>, dirs: OpenDirs<E>) -> nat {
    (if v.awaiting == Awaiting::Next {
        1nat
    } else {
        0nat
    }) + core_cost(t, v, dirs)
}

/// The cost of a listing is the sum of its parts'.
proof fn lemma_list_cost_append<E>(
    t: Tree<E>,
    o: WalkDirOptions,
    ordered: bool,
    a: Seq<Candidate<E>>,
    b: Seq<Candidate<E>>,
    d: nat,
    extra: nat,
)
    ensures
        list_cost(t, o, ordered, a + b, d, extra) == list_cost(t, o, ordered, a, d, extra) + list_cost(
            t,
            o,
            ordered,
            b,
            d,
            extra,
        ),
    decreases a.len(),
{
    if a.len() == 0 {
        assert(a + b =~= b);
    } else {
        assert((a + b)[0] == a[0]);
        assert((a + b).drop_first() =~= a.drop_first() + b);
        lemma_list_cost_append(t, o, ordered, a.drop_first(), b, d, extra);
    }
}

/// Children not handed over yet cost two more each.
proof fn lemma_list_cost_extra<E>(t: Tree<E>, o: WalkDirOptions, ordered: bool, cs: Seq<Candidate<E>>, d: nat)
    ensures
        list_cost(t, o, ordered, cs, d, 2) == list_cost(t, o, ordered, cs, d, 0) + 2 * cs.len(),
    decreases cs.len(),
{
    if cs.len() > 0 {
        lemma_list_cost_extra(t, o, ordered, cs.drop_first(), d);
    }
}

/// Only the open directories count.
proof fn lemma_stack_cost_same<E>(
    t: Tree<E>,
    o: WalkDirOptions,
    ordered: bool,
    s: Seq<StreamView<E>>,
    dirs: OpenDirs<E>,
    dirs2: OpenDirs<E>,
)
    requires
        dirs.len() >= s.len(),
        dirs2.len() >= s.len(),
        forall|i: int| 0 <= i < s.len() ==> dirs[i].unread == dirs2[i].unread,
    ensures
        stack_cost(t, o, ordered, s, dirs) == stack_cost(t, o, ordered, s, dirs2),
    decreases s.len(),
{
    if s.len() > 0 {
        assert(dirs[s.len() - 1].unread == dirs2[s.len() - 1].unread);
        lemma_stack_cost_same(t, o, ordered, s.drop_last(), dirs, dirs2);
    }
}

/// What the open directories cost once the innermost is `top`.
proof fn lemma_stack_cost_top<E>(
    t: Tree<E>,
    o: WalkDirOptions,
    ordered: bool,
    s: Seq<StreamView<E>>,
    dirs: OpenDirs<E>,
    top: StreamView<E>,
)
    requires
        s.len() > 0,
    ensures
        stack_cost(t, o, ordered, s.update(s.len() - 1, top), dirs) == level_cost(
            t,
            o,
            ordered,
            top,
            dirs[s.len() - 1].unread,
            s.len() as nat,
        ) + stack_cost(t, o, ordered, s.drop_last(), dirs),
{
    assert(s.update(s.len() - 1, top).drop_last() =~= s.drop_last());
}

/// Carrying on from a running state costs no more than the state did.
proof fn lemma_advance_effort<E>(t: Tree<E>, v: TraversalView<E>, dirs: OpenDirs<E>)
    requires
        covered_running(v, dirs),
    ensures
        !(v.advance().1 is Finished) ==> effort(t, v.advance().0, dirs) <= core_cost(t, v, dirs),
    decreases v.measure(), 0nat,
{
    let o = v.opts;
    match v.start {
        Some(res) => {
            let w = TraversalView { start: None, ..v };
            match res {
                Err(e) => lemma_emit_effort(t, w, dirs, Err(e)),
                Ok(n) => lemma_begin_effort(t, w, dirs, n, true, true),
            }
        },
        None => {
            if v.stack.len() > 0 {
                let top = v.stack.last();
                if top.ready.len() > 0 {
                    let c = top.ready[0];
                    let w = v.with_top(top.ready.drop_first());
                    lemma_take_facts(t, v, dirs);
                    match c.entry {
                        Err(e) => lemma_emit_effort(t, w, dirs, Err(e)),
                        Ok(n) => {
                            if o.skip_hidden && n.hidden {
                                lemma_advance_effort(t, w, dirs);
                            } else {
                                lemma_begin_effort(t, w, dirs, n, c.yielded, false);
                            }
                        },
                    }
                } else if !top.live {
                    let w = TraversalView { stack: v.stack.drop_last(), ..v };
                    lemma_pop_facts(t, v, dirs);
                    lemma_advance_effort(t, w, dirs);
                }
            }
        },
    }
}

/// Handing an item on costs at most one more than the state it came from.
proof fn lemma_emit_effort<E>(t: Tree<E>, w: TraversalView<E>, dirs: OpenDirs<E>, item: Result<Node<E>, Error>)
    requires
        covered_running(w, dirs),
    ensures
        !(w.emit(item).1 is Finished) ==> effort(t, w.emit(item).0, dirs) <= core_cost(t, w, dirs) + 1,
    decreases w.measure(), 1nat,
{
    match w.pager {
        Some(p) => if !p.emits() {
            lemma_advance_effort(t, TraversalView { pager: Some(p.advance()), ..w }, dirs);
        },
        None => {},
    }
}

/// Taking an entry costs less than the entry did.
proof fn lemma_begin_effort<E>(t: Tree<E>, w: TraversalView<E>, dirs: OpenDirs<E>, n: Node<E>, yielded: bool, is_root: bool)
    requires
        covered_running(w, dirs),
        w.start is None,
        n.depth == w.stack.len(),
    ensures
        !(w.begin(n, yielded, is_root).1 is Finished) ==> effort(t, w.begin(n, yielded, is_root).0, dirs)
            < core_cost(t, w, dirs) + node_cost(t, w.opts, w.ordered, n, n.depth as nat),
    decreases w.measure(), 2nat,
{
    let emit = w.emits(yielded, n);
    if w.descends(n) {
        let p = Pending { node: n, emit, root: is_root };
        let x = TraversalView { pending: Some(p), ..w };
        let z = x.track().0;
        assert(z.pending == Some(p));
        assert(z.stack == w.stack);
        assert(z.start is None);
        assert(z.ordered == w.ordered);
    } else if emit {
        lemma_emit_effort(t, w, dirs, Ok(n));
    } else {
        lemma_advance_effort(t, w, dirs);
    }
}

/// Every exchange but the last costs less than the state it started from.
proof fn lemma_exchange_effort<E>(t: Tree<E>, batch: Batching<E>, v: TraversalView<E>, dirs: OpenDirs<E>)
    requires
        t.wf(),
        covered(v, dirs),
        batch(v, dirs) > 0,
    ensures
        ({
            let (w, dirs2, a) = exchange(t, batch, v, dirs);
            !(a is Finished) ==> effort(t, w, dirs2) < effort(t, v, dirs)
        }),
{
    let o = v.opts;
    let k = v.stack.len() as int;
    if v.awaiting == Awaiting::Identity {
        let p = v.pending.unwrap();
        let n = p.node;
        lemma_identity_accounted(t, v, dirs);
        match t.id(n) {
            Some(a) => if v.ancestors.contains(a) {
                let e = Error::spec_loop(t.loc(n), n.depth);
                let y = TraversalView { pending: None, ..v };
                assert(v.on_identity(Some(a), t.loc(n)) == y.emit(Err(e)));
                lemma_armed_push(nodes_of(dirs, k), n);
                if reparse_armed(v) {
                    lemma_reparse_shrink(v.reparse_depth, nodes_of(dirs, k).push(n), k);
                }
                lemma_emit_effort(t, y, dirs, Err(e));
            } else {
                let x = TraversalView { ancestors: v.ancestors.push(a), ..v };
                assert(v.on_identity(Some(a), t.loc(n)) == x.open());
            },
            None => {
                assert(v.on_identity(None, t.loc(n)) == v.open());
            },
        }
    } else if v.awaiting == Awaiting::Backfill {
        let ids = known_ids(t, nodes_of(dirs, k));
        let x = TraversalView { ancestors: ids, ..v };
        assert(v.on_backfill(ids) == x.identify());
    } else if (v.awaiting == Awaiting::Listing || v.awaiting == Awaiting::Opened) && t.fault(
        v.pending.unwrap().node,
    ) is Some {
        let e = t.fault(v.pending.unwrap().node).unwrap();
        let y = TraversalView { pending: None, ..v };
        lemma_fault_facts(t, v, dirs, e);
        assert(v.on_listing(Err(e)) == y.emit(Err(e)));
        assert(v.on_opened(Err(e)) == y.emit(Err(e)));
        lemma_emit_effort(t, y, dirs, Err(e));
    } else if v.awaiting == Awaiting::Listing || v.awaiting == Awaiting::Opened {
        let p = v.pending.unwrap();
        let n = p.node;
        let kids = t.listing(n);
        let (s, u) = if v.awaiting == Awaiting::Listing {
            (StreamView { ready: kids, live: false }, Seq::<Candidate<E>>::empty())
        } else {
            (StreamView { ready: Seq::<Candidate<E>>::empty(), live: true }, kids)
        };
        let dirs2 = dirs.take(k).push(OpenDir { node: n, unread: u });
        let x = TraversalView { stack: v.stack.push(s), ..v };
        let y = TraversalView { pending: None, ..x };
        assert(s.ready + u =~= kids);
        lemma_open_facts(t, v, dirs, s, u);
        assert(level_cost(t, o, v.ordered, s, u, (k + 1) as nat) == stream_cost(t, o, v.ordered, kids, (k + 1) as nat));
        assert(core_cost(t, y, dirs2) + 2 == core_cost(t, v, dirs));
        if v.awaiting == Awaiting::Listing {
            assert(v.on_listing(Ok(kids)) == x.finish());
        } else {
            assert(v.on_opened(Ok(())) == x.finish());
        }
        if p.emit {
            lemma_emit_effort(t, y, dirs2, Ok(n));
        } else {
            lemma_advance_effort(t, y, dirs2);
        }
    } else if v.awaiting == Awaiting::Batch {
        lemma_exchange_accounted(t, batch, v, dirs);
        let top = v.stack.last();
        let l = dirs[k - 1];
        let u = l.unread;
        assert(v.stack[k - 1] == top);
        lemma_stack_cost_top(t, o, v.ordered, v.stack, dirs, top);
        assert(v.stack.update(k - 1, top) =~= v.stack);
        assert(level_ok(top, l, k));
        if u.len() == 0 {
            let y = TraversalView { stack: v.stack.drop_last(), ..v };
            lemma_levels_drop_last(v.stack, dirs);
            lemma_nodes_step(dirs, k - 1);
            if reparse_armed(v) {
                lemma_reparse_shrink(v.reparse_depth, nodes_of(dirs, k), k - 1);
            }
            lemma_advance_effort(t, y, dirs);
        } else {
            let m = batch_len(u, batch(v, dirs));
            let chunk = u.take(m);
            let rest = u.skip(m);
            let dirs2 = dirs.update(k - 1, OpenDir { node: l.node, unread: rest });
            let st = StreamView { ready: chunk, live: top.live };
            let y = v.with_top(chunk);
            assert(chunk + rest =~= u);
            lemma_list_cost_append(t, o, v.ordered, chunk, rest, k as nat, 2);
            lemma_list_cost_extra(t, o, v.ordered, chunk, k as nat);
            lemma_stack_cost_top(t, o, v.ordered, v.stack, dirs2, st);
            lemma_stack_cost_same(t, o, v.ordered, v.stack.drop_last(), dirs, dirs2);
            assert(dirs2[k - 1].unread == rest);
            assert(core_cost(t, y, dirs2) + 2 <= core_cost(t, v, dirs));
            assert(top.ready + u =~= u);
            assert(covered_running(y, dirs2)) by {
                lemma_levels_top(v.stack, dirs, st, OpenDir { node: l.node, unread: rest });
                lemma_nodes_same(dirs, dirs2, k);
            }
            lemma_advance_effort(t, y, dirs2);
        }
    } else {
        match v.pager {
            Some(p) => if !p.exhausted() {
                lemma_advance_effort(t, v, dirs);
            },
            None => lemma_advance_effort(t, v, dirs),
        }
    }
}

/// From a state the laws cover, some number of exchanges ends the walk.
proof fn lemma_drive_ends<E>(t: Tree<E>, batch: Batching<E>, v: TraversalView<E>, dirs: OpenDirs<E>)
    requires
        t.wf(),
        covered(v, dirs),
        forall|x: TraversalView<E>, y: OpenDirs<E>| #[trigger] batch(x, y) > 0,
    ensures
        exists|fuel: nat| (#[trigger] drive(t, batch, v, dirs, fuel)).3,
    decreases effort(t, v, dirs),
{
    let (w, dirs2, a) = exchange(t, batch, v, dirs);
    lemma_exchange_accounted(t, batch, v, dirs);
    if a is Finished {
        assert(drive(t, batch, v, dirs, 1).3);
    } else {
        lemma_exchange_effort(t, batch, v, dirs);
        lemma_drive_ends(t, batch, w, dirs2);
        let f = choose|fuel: nat| (#[trigger] drive(t, batch, w, dirs2, fuel)).3;
        assert(drive(t, batch, v, dirs, f + 1).3 == drive(t, batch, w, dirs2, f).3);
    }
}

/// Completion law: driven as in [`lemma_walk_is_preorder`], with streamed
/// directories handed over at least one child at a time, a fresh walk ends,
/// and by then it has yielded the whole pruned pre-order (cut to
/// `skip(offset).take(limit)` when paged).
pub proof fn lemma_walk_ends<E>(t: Tree<E>, batch: Batching<E>, v: TraversalView<E>)
    requires
        t.wf(),
        forall|x: TraversalView<E>, y: OpenDirs<E>| #[trigger] batch(x, y) > 0,
        fresh(v),
    ensures
        exists|fuel: nat|
            {
                let r = #[trigger] drive(t, batch, v, Seq::empty(), fuel);
                r.3 && r.2 == window(v.pager, walk_from(t, v.opts, v.platform, v.start.unwrap()))
            },
{
    let dirs0 = Seq::<OpenDir<E>>::empty();
    assert(nodes_of(dirs0, 0) =~= Seq::<Node<E>>::empty());
    assert(covered(v, dirs0));
    lemma_drive_ends(t, batch, v, dirs0);
    let f = choose|fuel: nat| (#[trigger] drive(t, batch, v, dirs0, fuel)).3;
    lemma_walk_is_preorder(t, batch, v, f);
}


/// An item the options permit: resolved entries lie within the depth
/// window, and, when hidden entries are skipped, only `root` may be hidden.
pub open spec fn permitted<E>(o: WalkDirOptions, root: Option<Node<E>>, x: Result<Node<E>, Error>) -> bool {
    match x {
        Ok(m) => o.min_depth <= m.depth <= o.max_depth && ((o.skip_hidden && m.hidden) ==> root == Some(m)),
        Err(_) => true,
    }
}

/// Every item of `s` is one the options permit.
pub open spec fn all_permitted<E>(o: WalkDirOptions, root: Option<Node<E>>, s: Seq<Result<Node<E>, Error>>) -> bool {
    forall|i: int| 0 <= i < s.len() ==> permitted(o, root, #[trigger] s[i])
}

proof fn lemma_permitted_append<E>(o: WalkDirOptions, root: Option<Node<E>>, a: Seq<Result<Node<E>, Error>>, b: Seq<Result<Node<E>, Error>>)
    requires
        all_permitted(o, root, a),
        all_permitted(o, root, b),
    ensures
        all_permitted(o, root, a + b),
{
    assert forall|i: int| 0 <= i < (a + b).len() implies permitted(o, root, #[trigger] (a + b)[i]) by {
        if i < a.len() {
            assert((a + b)[i] == a[i]);
        } else {
            assert((a + b)[i] == b[i - a.len()]);
        }
    }
}

/// The subtree of an entry within the depth window holds only permitted
/// items.
proof fn lemma_subtree_permitted<E>(
    t: Tree<E>,
    o: WalkDirOptions,
    pf: Platform,
    root: Option<Node<E>>,
    n: Node<E>,
    yielded: bool,
    d: nat,
    above: Seq<Node<E>>,
    held: Seq<Ancestor>,
)
    requires
        t.wf(),
        n.depth == d,
        d <= o.max_depth,
        (o.skip_hidden && n.hidden) ==> root == Some(n),
    ensures
        all_permitted(o, root, subtree(t, o, pf, n, yielded, d, above, held).0),
    decreases o.max_depth + 1 - d, 2int,
{
    let emit = yielded && d >= o.min_depth;
    if n.is_dir && d < o.max_depth {
        if checks(o, pf, armed_by(above), n) {
            lemma_identified_permitted(t, o, pf, root, n, emit, d, above, compared(t, o, pf, above, held, d));
        } else {
            lemma_opened_permitted(t, o, pf, root, n, emit, d, above, held);
        }
    } else if emit {
        assert(seq![Ok::<Node<E>, Error>(n)][0] == Ok::<Node<E>, Error>(n));
    }
}

/// A directory whose identity is compared yields only permitted items.
proof fn lemma_identified_permitted<E>(
    t: Tree<E>,
    o: WalkDirOptions,
    pf: Platform,
    root: Option<Node<E>>,
    n: Node<E>,
    emit: bool,
    d: nat,
    above: Seq<Node<E>>,
    held: Seq<Ancestor>,
)
    requires
        t.wf(),
        n.depth == d,
        d < o.max_depth,
        emit ==> d >= o.min_depth,
        (o.skip_hidden && n.hidden) ==> root == Some(n),
    ensures
        all_permitted(o, root, identified(t, o, pf, n, emit, d, above, held).0),
    decreases o.max_depth + 1 - d, 1int,
{
    match t.id(n) {
        Some(a) => if held.contains(a) {
            let e = Error::spec_loop(t.loc(n), n.depth);
            assert(seq![Err::<Node<E>, Error>(e)][0] == Err::<Node<E>, Error>(e));
        } else {
            lemma_opened_permitted(t, o, pf, root, n, emit, d, above, held.push(a));
        },
        None => lemma_opened_permitted(t, o, pf, root, n, emit, d, above, held),
    }
}

/// A directory descended into yields only permitted items.
proof fn lemma_opened_permitted<E>(
    t: Tree<E>,
    o: WalkDirOptions,
    pf: Platform,
    root: Option<Node<E>>,
    n: Node<E>,
    emit: bool,
    d: nat,
    above: Seq<Node<E>>,
    held: Seq<Ancestor>,
)
    requires
        t.wf(),
        n.depth == d,
        d < o.max_depth,
        emit ==> d >= o.min_depth,
        (o.skip_hidden && n.hidden) ==> root == Some(n),
    ensures
        all_permitted(o, root, opened(t, o, pf, n, emit, d, above, held).0),
    decreases o.max_depth + 1 - d, 0int,
{
    match t.fault(n) {
        Some(e) => {
            assert(seq![Err::<Node<E>, Error>(e)][0] == Err::<Node<E>, Error>(e));
        },
        None => {
            let own = if emit {
                seq![Ok::<Node<E>, Error>(n)]
            } else {
                Seq::empty()
            };
            assert(all_permitted(o, root, own)) by {
                if emit {
                    assert(own[0] == Ok::<Node<E>, Error>(n));
                }
            }
            let kids = t.listing(n);
            assert(all_at_depth(kids, n.depth + 1));
            lemma_listing_permitted(t, o, pf, root, kids, d + 1, above.push(n), held);
            lemma_permitted_append(o, root, own, walk_listing(t, o, pf, kids, d + 1, above.push(n), held).0);
        },
    }
}

/// A listing at a depth within the window walks to permitted items only.
proof fn lemma_listing_permitted<E>(
    t: Tree<E>,
    o: WalkDirOptions,
    pf: Platform,
    root: Option<Node<E>>,
    cs: Seq<Candidate<E>>,
    d: nat,
    above: Seq<Node<E>>,
    held: Seq<Ancestor>,
)
    requires
        t.wf(),
        all_at_depth(cs, d as int),
        d <= o.max_depth,
    ensures
        all_permitted(o, root, walk_listing(t, o, pf, cs, d, above, held).0),
    decreases o.max_depth + 1 - d, cs.len() + 4,
{
    if cs.len() > 0 {
        lemma_all_at_depth_drop_first(cs, d as int);
        let c = cs[0];
        let first = expand(t, o, pf, c, d, above, held);
        match c.entry {
            Err(e) => {
                assert(seq![Err::<Node<E>, Error>(e)][0] == Err::<Node<E>, Error>(e));
            },
            Ok(m) => if !(o.skip_hidden && m.hidden) {
                lemma_subtree_permitted(t, o, pf, root, m, c.yielded, d, above, held);
            },
        }
        lemma_listing_permitted(t, o, pf, root, cs.drop_first(), d, above, first.1);
        lemma_permitted_append(o, root, first.0, walk_listing(t, o, pf, cs.drop_first(), d, above, first.1).0);
    }
}

/// The root a walk starts from, if it resolved.
pub open spec fn root_of<E>(start: Result<Node<E>, Error>) -> Option<Node<E>> {
    match start {
        Ok(n) => Some(n),
        Err(_) => None,
    }
}

/// Depth-window and hidden-entry law for a whole walk: driven as in
/// [`lemma_walk_is_preorder`], every entry a fresh walk yields lies between
/// `min_depth` and `max_depth`, and, when hidden entries are skipped, none
/// is hidden but the root.
pub proof fn lemma_walk_respects_options<E>(t: Tree<E>, batch: Batching<E>, v: TraversalView<E>, fuel: nat)
    requires
        t.wf(),
        fresh(v),
    ensures
        all_permitted(v.opts, root_of(v.start.unwrap()), drive(t, batch, v, Seq::empty(), fuel).2),
{
    let o = v.opts;
    let start = v.start.unwrap();
    let root = root_of(start);
    let whole = walk_from(t, o, v.platform, start);
    match start {
        Err(e) => {
            assert(whole[0] == Err::<Node<E>, Error>(e));
        },
        Ok(n) => {
            lemma_subtree_permitted(t, o, v.platform, root, n, true, 0, Seq::empty(), Seq::empty());
        },
    }
    assert(all_permitted(o, root, whole));
    let win = window(v.pager, whole);
    assert(all_permitted(o, root, win)) by {
        match v.pager {
            Some(p) => {
                let lo = if p.offset <= whole.len() { p.offset as int } else { whole.len() as int };
                assert forall|i: int| 0 <= i < win.len() implies permitted(o, root, #[trigger] win[i]) by {
                    assert(win[i] == whole[lo + i]);
                }
            },
            None => {},
        }
    }
    lemma_walk_is_preorder(t, batch, v, fuel);
    let (w, dirs, out, done) = drive(t, batch, v, Seq::empty(), fuel);
    assert forall|i: int| 0 <= i < out.len() implies permitted(o, root, #[trigger] out[i]) by {
        assert(out[i] == (out + owed(t, w, dirs))[i]);
    }
}


/// Whether the identities held must be those of the directories `above`:
/// when links are followed, or on Windows below a reparse point.
pub open spec fn path_kept<E>(o: WalkDirOptions, pf: Platform, above: Seq<Node<E>>) -> bool {
    o.follow_links || (pf == Platform::Windows && armed_by(above))
}

/// The identities `held` begin with those of the directories `above`.
pub open spec fn holds_path<E>(t: Tree<E>, above: Seq<Node<E>>, held: Seq<Ancestor>) -> bool {
    &&& held.len() >= above.len()
    &&& held.take(above.len() as int) == known_ids(t, above)
}

/// The subtree of an entry at depth `d`, when a directory whose identity
/// is compared is compared with those of the directories `above` it.
pub open spec fn path_subtree<E>(
    t: Tree<E>,
    o: WalkDirOptions,
    pf: Platform,
    n: Node<E>,
    yielded: bool,
    d: nat,
    above: Seq<Node<E>>,
) -> Seq<Result<Node<E>, Error>>
    decreases o.max_depth + 1 - d, 2int,
{
    let emit = yielded && d >= o.min_depth;
    if n.is_dir && d < o.max_depth {
        if checks(o, pf, armed_by(above), n) && (t.id(n) matches Some(a) && known_ids(t, above).contains(a)) {
            seq![Err(Error::spec_loop(t.loc(n), n.depth))]
        } else {
            path_opened(t, o, pf, n, emit, d, above)
        }
    } else if emit {
        seq![Ok::<Node<E>, Error>(n)]
    } else {
        Seq::empty()
    }
}

/// A directory at depth `d` descended into, compared as `path_subtree` does.
pub open spec fn path_opened<E>(
    t: Tree<E>,
    o: WalkDirOptions,
    pf: Platform,
    n: Node<E>,
    emit: bool,
    d: nat,
    above: Seq<Node<E>>,
) -> Seq<Result<Node<E>, Error>>
    decreases o.max_depth + 1 - d, 0int,
{
    match t.fault(n) {
        Some(e) => seq![Err(e)],
        None => if d < o.max_depth {
            (if emit {
                seq![Ok::<Node<E>, Error>(n)]
            } else {
                Seq::empty()
            }) + path_listing(t, o, pf, t.listing(n), d + 1, above.push(n))
        } else {
            Seq::empty()
        },
    }
}

/// A listing at depth `d`, compared as `path_subtree` does.
pub open spec fn path_listing<E>(
    t: Tree<E>,
    o: WalkDirOptions,
    pf: Platform,
    cs: Seq<Candidate<E>>,
    d: nat,
    above: Seq<Node<E>>,
) -> Seq<Result<Node<E>, Error>>
    decreases o.max_depth + 1 - d, cs.len() + 4,
{
    if cs.len() == 0 {
        Seq::empty()
    } else {
        let first = match cs[0].entry {
            Err(e) => seq![Err(e)],
            Ok(m) => if o.skip_hidden && m.hidden {
                Seq::empty()
            } else {
                path_subtree(t, o, pf, m, cs[0].yielded, d, above)
            },
        };
        first + path_listing(t, o, pf, cs.drop_first(), d, above)
    }
}

/// When every identity can be obtained, those of the directories above one
/// more directory are theirs and its own.
proof fn lemma_known_ids_push<E>(t: Tree<E>, above: Seq<Node<E>>, n: Node<E>)
    requires
        forall|m: Node<E>| #[trigger] t.id(m) is Some,
    ensures
        known_ids(t, above.push(n)) == known_ids(t, above).push(t.id(n).unwrap()),
        known_ids(t, above).len() == above.len(),
    decreases above.len(),
{
    assert(above.push(n).drop_last() =~= above);
    assert(t.id(n) is Some);
    if above.len() > 0 {
        lemma_known_ids_push(t, above.drop_last(), above.last());
        assert(above.drop_last().push(above.last()) =~= above);
    }
}

/// Holding the identities of the path below a directory keeps those of the
/// path above it.
proof fn lemma_holds_path_pop<E>(t: Tree<E>, above: Seq<Node<E>>, n: Node<E>, held: Seq<Ancestor>)
    requires
        forall|m: Node<E>| #[trigger] t.id(m) is Some,
        holds_path(t, above.push(n), held),
    ensures
        holds_path(t, above, held),
{
    lemma_known_ids_push(t, above, n);
    assert(held.take(above.len() as int) =~= held.take(above.len() + 1int).take(above.len() as int));
    assert(known_ids(t, above) =~= known_ids(t, above.push(n)).take(above.len() as int));
}

/// A subtree walked with the identities of its path held is the one
/// compared with its path, and leaves them held.
proof fn lemma_subtree_path<E>(
    t: Tree<E>,
    o: WalkDirOptions,
    pf: Platform,
    n: Node<E>,
    yielded: bool,
    d: nat,
    above: Seq<Node<E>>,
    held: Seq<Ancestor>,
)
    requires
        forall|m: Node<E>| #[trigger] t.id(m) is Some,
        above.len() == d,
        path_kept(o, pf, above) ==> holds_path(t, above, held),
    ensures
        subtree(t, o, pf, n, yielded, d, above, held).0 == path_subtree(t, o, pf, n, yielded, d, above),
        path_kept(o, pf, above) ==> holds_path(t, above, subtree(t, o, pf, n, yielded, d, above, held).1),
    decreases o.max_depth + 1 - d, 2int,
{
    let emit = yielded && d >= o.min_depth;
    if n.is_dir && d < o.max_depth {
        lemma_armed_push(above, n);
        lemma_known_ids_push(t, above, n);
        if checks(o, pf, armed_by(above), n) {
            let c0 = compared(t, o, pf, above, held, d);
            assert(c0 =~= known_ids(t, above)) by {
                if !(pf == Platform::Windows && !o.follow_links && !armed_by(above)) {
                    assert(held.take(d as int) =~= known_ids(t, above));
                }
            }
            let a = t.id(n).unwrap();
            if !c0.contains(a) {
                assert(path_kept(o, pf, above.push(n)));
                assert(c0.push(a).take(d + 1int) =~= c0.push(a));
                lemma_opened_path(t, o, pf, n, emit, d, above, c0.push(a));
                if path_kept(o, pf, above) {
                    lemma_holds_path_pop(t, above, n, opened(t, o, pf, n, emit, d, above, c0.push(a)).1);
                }
            } else {
                assert(c0.take(d as int) =~= c0);
            }
        } else {
            assert(!path_kept(o, pf, above.push(n)));
            lemma_opened_path(t, o, pf, n, emit, d, above, held);
        }
    }
}

/// The same, for a directory descended into.
proof fn lemma_opened_path<E>(
    t: Tree<E>,
    o: WalkDirOptions,
    pf: Platform,
    n: Node<E>,
    emit: bool,
    d: nat,
    above: Seq<Node<E>>,
    held: Seq<Ancestor>,
)
    requires
        forall|m: Node<E>| #[trigger] t.id(m) is Some,
        above.len() == d,
        path_kept(o, pf, above.push(n)) ==> holds_path(t, above.push(n), held),
    ensures
        opened(t, o, pf, n, emit, d, above, held).0 == path_opened(t, o, pf, n, emit, d, above),
        path_kept(o, pf, above.push(n)) ==> holds_path(t, above.push(n), opened(t, o, pf, n, emit, d, above, held).1),
    decreases o.max_depth + 1 - d, 0int,
{
    if t.fault(n) is None && d < o.max_depth {
        lemma_listing_path(t, o, pf, t.listing(n), d + 1, above.push(n), held);
    }
}

/// The same, for a listing.
proof fn lemma_listing_path<E>(
    t: Tree<E>,
    o: WalkDirOptions,
    pf: Platform,
    cs: Seq<Candidate<E>>,
    d: nat,
    above: Seq<Node<E>>,
    held: Seq<Ancestor>,
)
    requires
        forall|m: Node<E>| #[trigger] t.id(m) is Some,
        above.len() == d,
        path_kept(o, pf, above) ==> holds_path(t, above, held),
    ensures
        walk_listing(t, o, pf, cs, d, above, held).0 == path_listing(t, o, pf, cs, d, above),
        path_kept(o, pf, above) ==> holds_path(t, above, walk_listing(t, o, pf, cs, d, above, held).1),
    decreases o.max_depth + 1 - d, cs.len() + 4,
{
    if cs.len() > 0 {
        let c = cs[0];
        let first = expand(t, o, pf, c, d, above, held);
        match c.entry {
            Err(_) => {},
            Ok(m) => if !(o.skip_hidden && m.hidden) {
                lemma_subtree_path(t, o, pf, m, c.yielded, d, above, held);
            },
        }
        lemma_listing_path(t, o, pf, cs.drop_first(), d, above, first.1);
    }
}

/// Loop-detection law: when every directory's identity can be obtained, a
/// directory whose identity is compared is compared with exactly those of
/// the directories above it — the whole walk is the pruned pre-order in
/// which a directory repeating the identity of one of its ancestors is
/// reported as a loop.
pub proof fn lemma_loops_are_ancestors<E>(t: Tree<E>, o: WalkDirOptions, pf: Platform, start: Result<Node<E>, Error>)
    requires
        forall|m: Node<E>| #[trigger] t.id(m) is Some,
    ensures
        walk_from(t, o, pf, start) == match start {
            Err(e) => seq![Err(e)],
            Ok(n) => path_subtree(t, o, pf, n, true, 0, Seq::empty()),
        },
{
    match start {
        Err(_) => {},
        Ok(n) => {
            let above = Seq::<Node<E>>::empty();
            let held = Seq::<Ancestor>::empty();
            assert(known_ids(t, above) =~= held);
            assert(held.take(0) =~= held);
            lemma_subtree_path(t, o, pf, n, true, 0, above, held);
        },
    }
}

} // verus!
