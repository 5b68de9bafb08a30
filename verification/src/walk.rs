//! The traversal: a stack of open directories, drained depth first.
//!
//! [`Traversal`] decides everything a walk decides — what is yielded, what is
//! descended into, when a symlink loop is reported, and how pagination cuts
//! the result — and asks its driver for every piece of filesystem work
//! through an [`Action`]. The driver performs it and hands the outcome back
//! through the matching method. Memory stays proportional to the depth of the
//! walk: one stream per open directory.
use std::collections::VecDeque;
use vstd::prelude::*;

use crate::entry::{Ancestor, Candidate, Node, Platform};
use crate::error::Error;
use crate::options::WalkDirOptions;
use crate::order::to_queue;
use crate::pager::{Pager, PagerView};

verus! {

/// What the traversal waits for before it can go on.
#[derive(Clone, Copy, Debug, PartialEq, Eq, Structural)]
pub enum Awaiting {
    /// A request for the next entry ([`Traversal::next_action`]).
    Next,
    /// The identity of the pending directory ([`Traversal::identity`]).
    Identity,
    /// The identities of the levels above the pending directory
    /// ([`Traversal::backfilled`]).
    Backfill,
    /// The ordered children of the pending directory ([`Traversal::listing`]).
    Listing,
    /// The pending directory opened for streaming ([`Traversal::opened`]).
    Opened,
    /// The next batch of the innermost streamed directory
    /// ([`Traversal::batch`]).
    Batch,
}

/// What one raw read of a streamed directory gave.
#[derive(Clone, Copy, Debug, PartialEq, Eq, Structural)]
pub enum Read {
    /// A child, now held in the batch.
    Entry,
    /// The end of the directory.
    End,
    /// A read error, held in the batch in place of a child.
    Failed,
}

/// The batch rule of a streamed directory: reading goes on only after a
/// child was read, and while the batch holds fewer than `concurrency`
/// children. The end of the directory, or a read error, closes the batch.
pub open spec fn reads_on(held: nat, concurrency: nat, last: Read) -> bool {
    last == Read::Entry && held < concurrency
}

/// Whether a batch holding `held` children reads on after a read that gave
/// `last` (start with `Read::Entry` and nothing held).
pub fn batch_reads_on(held: usize, concurrency: usize, last: Read) -> (r: bool)
    ensures
        r == reads_on(held as nat, concurrency as nat, last),
{
    last == Read::Entry && held < concurrency
}

/// How many children a batch holding `held` ends with, reading on as the
/// batch rule allows from a directory with `avail` children left, none of
/// them failing to read.
pub open spec fn batch_fill(held: nat, concurrency: nat, avail: nat) -> nat
    decreases avail,
{
    if reads_on(held, concurrency, Read::Entry) && avail > 0 {
        batch_fill(held + 1, concurrency, (avail - 1) as nat)
    } else {
        held
    }
}

/// Batch law: a batch takes as many children as the concurrency allows, and
/// no more. A fresh batch always reads (the concurrency is at least one);
/// after a child it reads on exactly while it holds fewer than
/// `concurrency`; the end of the directory or a read error stops it. So a
/// fresh batch over a directory with `avail` children left ends holding
/// `min(concurrency, avail)` of them.
pub proof fn lemma_batch_fills_to_concurrency(held: nat, concurrency: nat, avail: nat)
    ensures
        concurrency >= 1 ==> reads_on(0, concurrency, Read::Entry),
        reads_on(held, concurrency, Read::Entry) <==> held < concurrency,
        !reads_on(held, concurrency, Read::End),
        !reads_on(held, concurrency, Read::Failed),
        concurrency >= 1 ==> batch_fill(0, concurrency, avail) == if avail < concurrency {
            avail
        } else {
            concurrency
        },
{
    if concurrency >= 1 {
        lemma_batch_fill_from(0, concurrency, avail);
    }
}

proof fn lemma_batch_fill_from(held: nat, concurrency: nat, avail: nat)
    requires
        held <= concurrency,
    ensures
        batch_fill(held, concurrency, avail) == held + if avail < concurrency - held {
            avail
        } else {
            (concurrency - held) as nat
        },
    decreases avail,
{
    if held < concurrency && avail > 0 {
        lemma_batch_fill_from(held + 1, concurrency, (avail - 1) as nat);
    }
}

/// What the traversal asks of its driver.
#[derive(Debug)]
pub enum Action<E> {
    /// Hand this item to the consumer; the walk goes on when asked.
    Yield(Result<Node<E>, Error>),
    /// The walk is over.
    Finished,
    /// Report the identity of the pending directory, if it can be obtained.
    Identify,
    /// Report the identities of the directories above the pending one, from
    /// the top down (Windows, when a reparse point arms loop detection).
    Backfill,
    /// Read every child of the pending directory, resolved and ordered.
    ReadSorted,
    /// Open the pending directory for streaming.
    OpenLive,
    /// Read the next batch of children of the innermost streamed directory;
    /// `None` once it is exhausted.
    Refill,
}

/// A directory whose children are being drained.
#[derive(Debug)]
pub struct Stream<E> {
    ready: VecDeque<Candidate<E>>,
    live: bool,
}

/// What a [`Stream`] holds: the children resolved but not yet taken, and
/// whether more may still be read.
pub struct StreamView<E> {
    pub ready: Seq<Candidate<E>>,
    pub live: bool,
}

impl<E> View for Stream<E> {
    type V = StreamView<E>;

    closed spec fn view(&self) -> StreamView<E> {
        StreamView { ready: self.ready@, live: self.live }
    }
}

/// A directory about to be descended into, and whether it is yielded once
/// it is open.
#[derive(Debug)]
pub struct Pending<E> {
    pub node: Node<E>,
    pub emit: bool,
    /// The traversal root, which hidden-entry skipping exempts.
    pub root: bool,
}

/// The state of a walk.
#[derive(Debug)]
pub struct Traversal<E> {
    opts: WalkDirOptions,
    platform: Platform,
    ordered: bool,
    pager: Option<Pager>,
    start: Option<Result<Node<E>, Error>>,
    stack: Vec<Stream<E>>,
    ancestors: Vec<Ancestor>,
    reparse_depth: Option<usize>,
    pending: Option<Pending<E>>,
    awaiting: Awaiting,
}

/// What a [`Traversal`] holds.
pub struct TraversalView<E> {
    pub opts: WalkDirOptions,
    pub platform: Platform,
    /// Directories are read whole and ordered, rather than streamed.
    pub ordered: bool,
    pub pager: Option<PagerView>,
    /// The root, until it is taken.
    pub start: Option<Result<Node<E>, Error>>,
    /// The open directories, innermost last.
    pub stack: Seq<StreamView<E>>,
    /// Identities of the directories on the current path, outermost first.
    pub ancestors: Seq<Ancestor>,
    /// Depth of the reparse point that armed loop detection (Windows).
    pub reparse_depth: Option<usize>,
    pub pending: Option<Pending<E>>,
    pub awaiting: Awaiting,
}

impl<E> View for Traversal<E> {
    type V = TraversalView<E>;

    closed spec fn view(&self) -> TraversalView<E> {
        TraversalView {
            opts: self.opts,
            platform: self.platform,
            ordered: self.ordered,
            pager: match self.pager {
                Some(p) => Some(p@),
                None => None,
            },
            start: self.start,
            stack: self.stack@.map_values(|s: Stream<E>| s@),
            ancestors: self.ancestors@,
            reparse_depth: self.reparse_depth,
            pending: self.pending,
            awaiting: self.awaiting,
        }
    }
}

/// Work left in the open directories: one unit per stream and per child not
/// yet taken.
pub open spec fn work<E>(stack: Seq<StreamView<E>>) -> nat
    decreases stack.len(),
{
    if stack.len() == 0 {
        0
    } else {
        work(stack.drop_last()) + stack.last().ready.len() + 1
    }
}

/// `s` cut to at most `n` elements (`Vec::truncate`).
pub open spec fn truncated<T>(s: Seq<T>, n: int) -> Seq<T> {
    if n < s.len() {
        s.take(n)
    } else {
        s
    }
}

/// The work left after replacing the innermost directory's children.
pub proof fn lemma_work_replace_last<E>(stack: Seq<StreamView<E>>, ready: Seq<Candidate<E>>, live: bool)
    requires
        stack.len() > 0,
    ensures
        work(stack.update(stack.len() - 1, StreamView { ready, live })) == work(stack.drop_last())
            + ready.len() + 1,
{
    let s2 = stack.update(stack.len() - 1, StreamView { ready, live });
    assert(s2.drop_last() =~= stack.drop_last());
}

impl<E> TraversalView<E> {
    /// Work left: the open directories, plus the root while it is untaken.
    pub open spec fn measure(self) -> nat {
        work(self.stack) + if self.start is Some { 1nat } else { 0nat }
    }

    /// The innermost stream with its ready children replaced.
    pub open spec fn with_top(self, ready: Seq<Candidate<E>>) -> TraversalView<E>
        recommends
            self.stack.len() > 0,
    {
        TraversalView {
            stack: self.stack.update(
                self.stack.len() - 1,
                StreamView { ready, live: self.stack.last().live },
            ),
            ..self
        }
    }

    /// Whether a directory entry is descended into: it is a directory above
    /// the depth limit.
    pub open spec fn descends(self, n: Node<E>) -> bool {
        n.is_dir && n.depth < self.opts.max_depth
    }

    /// Whether an entry is yielded: its candidate says so and it is not above
    /// the minimum depth.
    pub open spec fn emits(self, yielded: bool, n: Node<E>) -> bool {
        yielded && n.depth >= self.opts.min_depth
    }

    /// Takes the next item of the unpaged walk and carries on until there is
    /// something for the driver to do.
    pub open spec fn advance(self) -> (TraversalView<E>, Action<E>)
        decreases self.measure(), 0nat,
    {
        match self.start {
            Some(res) => {
                let v = TraversalView { start: None, ..self };
                match res {
                    Err(e) => v.emit(Err(e)),
                    Ok(n) => v.begin(n, true, true),
                }
            },
            None => {
                if self.stack.len() == 0 {
                    (TraversalView { awaiting: Awaiting::Next, ..self }, Action::Finished)
                } else {
                    let top = self.stack.last();
                    if top.ready.len() > 0 {
                        let c = top.ready[0];
                        let v = self.with_top(top.ready.drop_first());
                        proof {
                            lemma_work_replace_last(self.stack, top.ready.drop_first(), top.live);
                            lemma_work_replace_last(self.stack, top.ready, top.live);
                            assert(self.stack.update(self.stack.len() - 1, top) =~= self.stack);
                        }
                        match c.entry {
                            Err(e) => v.emit(Err(e)),
                            Ok(n) => if self.opts.skip_hidden && n.hidden {
                                v.advance()
                            } else {
                                v.begin(n, c.yielded, false)
                            },
                        }
                    } else if top.live {
                        (TraversalView { awaiting: Awaiting::Batch, ..self }, Action::Refill)
                    } else {
                        TraversalView { stack: self.stack.drop_last(), ..self }.advance()
                    }
                }
            },
        }
    }

    /// Hands one unpaged item to the pager: yielded, or skipped and the walk
    /// goes on.
    pub open spec fn emit(self, item: Result<Node<E>, Error>) -> (TraversalView<E>, Action<E>)
        decreases self.measure(), 1nat,
    {
        match self.pager {
            None => (TraversalView { awaiting: Awaiting::Next, ..self }, Action::Yield(item)),
            Some(p) => if p.emits() {
                (
                    TraversalView { pager: Some(p.advance()), awaiting: Awaiting::Next, ..self },
                    Action::Yield(item),
                )
            } else {
                TraversalView { pager: Some(p.advance()), ..self }.advance()
            },
        }
    }

    /// One entry taken from the root or a stream: descended into, yielded,
    /// or passed over.
    pub open spec fn begin(self, n: Node<E>, yielded: bool, root: bool) -> (
        TraversalView<E>,
        Action<E>,
    )
        decreases self.measure(), 2nat,
    {
        let emit = self.emits(yielded, n);
        if self.descends(n) {
            TraversalView { pending: Some(Pending { node: n, emit, root }), ..self }.track()
        } else if emit {
            self.emit(Ok(n))
        } else {
            self.advance()
        }
    }

    /// Whether loop detection applies to the pending directory, and what it
    /// needs first.
    pub open spec fn track(self) -> (TraversalView<E>, Action<E>) {
        let p = self.pending.unwrap();
        let d = p.node.depth;
        if self.opts.follow_links {
            self.identify()
        } else {
            match self.platform {
                Platform::Unix => self.open(),
                Platform::Windows => {
                    let armed = match self.reparse_depth {
                        Some(x) => if x >= d {
                            None
                        } else {
                            Some(x)
                        },
                        None => None,
                    };
                    match armed {
                        Some(_) => TraversalView { reparse_depth: armed, ..self }.identify(),
                        None => if p.node.reparse_point {
                            (
                                TraversalView {
                                    reparse_depth: Some(d),
                                    awaiting: Awaiting::Backfill,
                                    ..self
                                },
                                Action::Backfill,
                            )
                        } else {
                            TraversalView { reparse_depth: None, ..self }.open()
                        },
                    }
                },
            }
        }
    }

    /// Drops the identities of levels at or below the pending directory and
    /// asks for its own.
    pub open spec fn identify(self) -> (TraversalView<E>, Action<E>) {
        (
            TraversalView {
                ancestors: truncated(self.ancestors, self.pending.unwrap().node.depth as int),
                awaiting: Awaiting::Identity,
                ..self
            },
            Action::Identify,
        )
    }

    /// Asks for the pending directory to be read.
    pub open spec fn open(self) -> (TraversalView<E>, Action<E>) {
        if self.ordered {
            (TraversalView { awaiting: Awaiting::Listing, ..self }, Action::ReadSorted)
        } else {
            (TraversalView { awaiting: Awaiting::Opened, ..self }, Action::OpenLive)
        }
    }

    /// The pending directory is open: it is yielded if it was to be, and the
    /// walk goes on into it.
    pub open spec fn finish(self) -> (TraversalView<E>, Action<E>) {
        let p = self.pending.unwrap();
        let v = TraversalView { pending: None, ..self };
        if p.emit {
            v.emit(Ok(p.node))
        } else {
            v.advance()
        }
    }

    /// Descending failed: the error is reported in place of the directory.
    pub open spec fn fail(self, e: Error) -> (TraversalView<E>, Action<E>) {
        TraversalView { pending: None, ..self }.emit(Err(e))
    }

    /// The consumer asks for the next entry.
    pub open spec fn next(self) -> (TraversalView<E>, Action<E>) {
        match self.pager {
            Some(p) => if p.exhausted() {
                (self, Action::Finished)
            } else {
                self.advance()
            },
            None => self.advance(),
        }
    }

    /// The pending directory's identity arrived (with its path): a repeat of
    /// an ancestor is a loop, reported instead of the directory.
    pub open spec fn on_identity(self, id: Option<Ancestor>, path: std::path::PathBuf) -> (TraversalView<E>, Action<E>) {
        match id {
            Some(a) => if self.ancestors.contains(a) {
                let n = self.pending.unwrap().node;
                self.fail(Error::spec_loop(path, n.depth))
            } else {
                TraversalView { ancestors: self.ancestors.push(a), ..self }.open()
            },
            None => self.open(),
        }
    }

    /// The identities above the pending directory arrived; they replace
    /// whatever was held, and its own identity is asked for next.
    pub open spec fn on_backfill(self, ids: Seq<Ancestor>) -> (TraversalView<E>, Action<E>) {
        TraversalView { ancestors: ids, ..self }.identify()
    }

    /// The ordered children of the pending directory arrived.
    pub open spec fn on_listing(self, res: Result<Seq<Candidate<E>>, Error>) -> (
        TraversalView<E>,
        Action<E>,
    ) {
        match res {
            Err(e) => self.fail(e),
            Ok(children) => TraversalView {
                stack: self.stack.push(StreamView { ready: children, live: false }),
                ..self
            }.finish(),
        }
    }

    /// The pending directory was opened for streaming, or failed to open.
    pub open spec fn on_opened(self, res: Result<(), Error>) -> (TraversalView<E>, Action<E>) {
        match res {
            Err(e) => self.fail(e),
            Ok(_) => TraversalView {
                stack: self.stack.push(StreamView { ready: Seq::empty(), live: true }),
                ..self
            }.finish(),
        }
    }

    /// The next batch of the innermost streamed directory arrived; `None`
    /// closes it.
    pub open spec fn on_batch(self, batch: Option<Seq<Candidate<E>>>) -> (
        TraversalView<E>,
        Action<E>,
    ) {
        match batch {
            Some(children) => self.with_top(children).advance(),
            None => TraversalView { stack: self.stack.drop_last(), ..self }.advance(),
        }
    }

    /// Mid-walk: nothing is pending and the pager may still yield.
    pub open spec fn running(self) -> bool {
        &&& self.pending is None
        &&& self.pager matches Some(p) ==> (p.wf() && !p.exhausted())
        &&& self.stack.len() > 0 ==> self.start is None
    }

    /// The traversal root, while it is yet to be yielded.
    pub open spec fn root_node(self) -> Option<Node<E>> {
        match self.start {
            Some(Ok(n)) => Some(n),
            _ => match self.pending {
                Some(p) => if p.root {
                    Some(p.node)
                } else {
                    None
                },
                None => None,
            },
        }
    }

    /// The state is consistent with what it waits for.
    pub open spec fn wf(self) -> bool {
        &&& self.awaiting == Awaiting::Next ==> self.pending is None
        &&& self.awaiting == Awaiting::Batch ==> {
            &&& self.pending is None
            &&& self.stack.len() > 0
            &&& self.stack.last().live
            &&& self.stack.last().ready.len() == 0
        }
        &&& (self.awaiting == Awaiting::Identity || self.awaiting == Awaiting::Backfill
            || self.awaiting == Awaiting::Listing || self.awaiting == Awaiting::Opened) ==> {
            &&& self.pending is Some
            &&& self.descends(self.pending.unwrap().node)
            &&& self.pending.unwrap().emit ==> self.pending.unwrap().node.depth
                >= self.opts.min_depth
            &&& (self.opts.skip_hidden && self.pending.unwrap().node.hidden)
                ==> self.pending.unwrap().root
        }
        &&& self.stack.len() > 0 ==> self.start is None
        &&& self.pending is Some ==> self.start is None
        &&& self.awaiting == Awaiting::Listing ==> self.ordered
        &&& self.awaiting == Awaiting::Opened ==> !self.ordered
        &&& self.pager matches Some(p) ==> p.wf()
        &&& self.awaiting != Awaiting::Next ==> (self.pager matches Some(p) ==> !p.exhausted())
    }
}

/// Whether `a` is among `v`.
fn contains_ancestor(v: &Vec<Ancestor>, a: Ancestor) -> (r: bool)
    ensures
        r == v@.contains(a),
{
    let mut i: usize = 0;
    while i < v.len()
        invariant
            i <= v.len(),
            forall|j: int| 0 <= j < i ==> v@[j] != a,
        decreases v.len() - i,
    {
        if v[i] == a {
            assert(v@[i as int] == a);
            return true;
        }
        i = i + 1;
    }
    false
}

impl<E> Traversal<E> {
    /// The state invariant.
    pub open spec fn wf(&self) -> bool {
        self@.wf()
    }

    /// A walk rooted at `start` (the resolved root, or the error resolving
    /// it). `ordered` reads each directory whole so it can be ordered;
    /// `paging` is `(limit, offset)`.
    pub fn new(
        opts: WalkDirOptions,
        platform: Platform,
        ordered: bool,
        paging: Option<(usize, usize)>,
        start: Result<Node<E>, Error>,
    ) -> (r: Traversal<E>)
        ensures
            r.wf(),
            r@.opts == opts,
            r@.platform == platform,
            r@.ordered == ordered,
            r@.pager == (match paging {
                Some((limit, offset)) => Some(
                    PagerView { limit: limit as nat, offset: offset as nat, yielded: 0, skipped: 0 },
                ),
                None => None::<PagerView>,
            }),
            r@.start == Some(start),
            r@.stack.len() == 0,
            r@.ancestors.len() == 0,
            r@.reparse_depth is None,
            r@.pending is None,
            r@.awaiting == Awaiting::Next,
    {
        let pager = match paging {
            Some((limit, offset)) => Some(Pager::new(limit, offset)),
            None => None,
        };
        let t = Traversal {
            opts,
            platform,
            ordered,
            pager,
            start: Some(start),
            stack: Vec::new(),
            ancestors: Vec::new(),
            reparse_depth: None,
            pending: None,
            awaiting: Awaiting::Next,
        };
        assert(t@.stack =~= Seq::<StreamView<E>>::empty());
        t
    }

    /// What the traversal waits for.
    pub fn awaiting(&self) -> (r: Awaiting)
        ensures
            r == self@.awaiting,
    {
        self.awaiting
    }

    /// The directory about to be descended into, while one is.
    pub fn pending(&self) -> (r: Option<&Node<E>>)
        ensures
            match self@.pending {
                Some(p) => r == Some(&p.node),
                None => r is None,
            },
    {
        match &self.pending {
            Some(p) => Some(&p.node),
            None => None,
        }
    }

    /// The depth of the children of the directory being descended into,
    /// while one is: the depth an error reading it is reported at.
    pub fn child_depth(&self) -> (r: Option<usize>)
        requires
            self.wf(),
        ensures
            match self@.pending {
                Some(p) => r == Some((p.node.depth + 1) as usize) && p.node.depth < usize::MAX,
                None => r is None,
            },
    {
        match &self.pending {
            Some(p) => Some(p.node.depth + 1),
            None => None,
        }
    }

    /// Hands an unpaged item to the pager. `None`: it was skipped, and the
    /// walk goes on from the new state.
    fn emit_item(&mut self, item: Result<Node<E>, Error>) -> (r: Option<Action<E>>)
        requires
            old(self)@.running(),
        ensures
            final(self)@.measure() == old(self)@.measure(),
            match r {
                Some(a) => {
                    &&& (final(self)@, a) == old(self)@.emit(item)
                    &&& final(self)@.wf()
                },
                None => {
                    &&& old(self)@.emit(item) == final(self)@.advance()
                    &&& final(self)@.running()
                },
            },
    {
        match self.pager.take() {
            None => {
                self.awaiting = Awaiting::Next;
                Some(Action::Yield(item))
            },
            Some(mut p) => {
                let shown = p.advance();
                self.pager = Some(p);
                if shown {
                    self.awaiting = Awaiting::Next;
                    Some(Action::Yield(item))
                } else {
                    None
                }
            },
        }
    }

    /// Asks for the pending directory to be read, whole or streamed.
    fn open_pending(&mut self) -> (a: Action<E>)
        ensures
            (final(self)@, a) == old(self)@.open(),
    {
        if self.ordered {
            self.awaiting = Awaiting::Listing;
            Action::ReadSorted
        } else {
            self.awaiting = Awaiting::Opened;
            Action::OpenLive
        }
    }

    /// Forgets the identities at or below the pending directory's depth and
    /// asks for its own.
    fn identify(&mut self) -> (a: Action<E>)
        requires
            old(self)@.pending is Some,
        ensures
            (final(self)@, a) == old(self)@.identify(),
    {
        let d = match &self.pending {
            Some(p) => p.node.depth,
            None => 0,
        };
        let ghost before = self.ancestors@;
        self.ancestors.truncate(d);
        assert(self.ancestors@ =~= truncated(before, d as int));
        self.awaiting = Awaiting::Identity;
        Action::Identify
    }

    /// Decides whether loop detection applies to the pending directory.
    fn track(&mut self) -> (a: Action<E>)
        requires
            old(self)@.pending is Some,
        ensures
            (final(self)@, a) == old(self)@.track(),
    {
        let (d, reparse) = match &self.pending {
            Some(p) => (p.node.depth, p.node.reparse_point),
            None => (0, false),
        };
        if self.opts.follow_links {
            return self.identify();
        }
        match self.platform {
            Platform::Unix => self.open_pending(),
            Platform::Windows => {
                let armed = match self.reparse_depth {
                    Some(x) => if x >= d {
                        None
                    } else {
                        Some(x)
                    },
                    None => None,
                };
                match armed {
                    Some(_) => {
                        self.reparse_depth = armed;
                        self.identify()
                    },
                    None => {
                        if reparse {
                            self.reparse_depth = Some(d);
                            self.awaiting = Awaiting::Backfill;
                            Action::Backfill
                        } else {
                            self.reparse_depth = None;
                            self.open_pending()
                        }
                    },
                }
            },
        }
    }

    /// One entry taken from the root or a stream. `None`: it needs no work
    /// and is not yielded, and the walk goes on.
    fn begin(&mut self, n: Node<E>, yielded: bool, root: bool) -> (r: Option<Action<E>>)
        requires
            old(self)@.running(),
            old(self)@.start is None,
            root || !(old(self)@.opts.skip_hidden && n.hidden),
        ensures
            final(self)@.measure() == old(self)@.measure(),
            match r {
                Some(a) => {
                    &&& (final(self)@, a) == old(self)@.begin(n, yielded, root)
                    &&& final(self)@.wf()
                },
                None => {
                    &&& old(self)@.begin(n, yielded, root) == final(self)@.advance()
                    &&& final(self)@.running()
                },
            },
    {
        let emit = yielded && n.depth >= self.opts.min_depth;
        if n.is_dir && n.depth < self.opts.max_depth {
            self.pending = Some(Pending { node: n, emit, root });
            Some(self.track())
        } else if emit {
            self.emit_item(Ok(n))
        } else {
            None
        }
    }

    /// Runs the walk until there is something for the driver to do.
    fn run(&mut self) -> (a: Action<E>)
        requires
            old(self)@.running(),
        ensures
            (final(self)@, a) == old(self)@.advance(),
            final(self)@.wf(),
    {
        let ghost target = self@.advance();
        loop
            invariant
                self@.running(),
                self@.advance() == target,
                target == old(self)@.advance(),
            decreases self@.measure(),
        {
            let ghost v0 = self@;
            match self.start.take() {
                Some(res) => {
                    assert(self@ == TraversalView { start: None, ..v0 });
                    match res {
                        Err(e) => {
                            match self.emit_item(Err(e)) {
                                Some(a) => return a,
                                None => {},
                            }
                        },
                        Ok(n) => {
                            match self.begin(n, true, true) {
                                Some(a) => return a,
                                None => {},
                            }
                        },
                    }
                },
                None => {
                    if self.stack.len() == 0 {
                        self.awaiting = Awaiting::Next;
                        assert(self@ == TraversalView { awaiting: Awaiting::Next, ..v0 });
                        return Action::Finished;
                    }
                    let ghost stack0 = v0.stack;
                    let mut top = self.stack.pop().unwrap();
                    if top.ready.len() > 0 {
                        let c = top.ready.pop_front().unwrap();
                        self.stack.push(top);
                        proof {
                            assert(self@.stack =~= stack0.update(
                                stack0.len() - 1,
                                StreamView { ready: stack0.last().ready.drop_first(), live: stack0.last().live },
                            ));
                            lemma_work_replace_last(stack0, stack0.last().ready.drop_first(), stack0.last().live);
                            lemma_work_replace_last(stack0, stack0.last().ready, stack0.last().live);
                            assert(stack0.update(stack0.len() - 1, stack0.last()) =~= stack0);
                        }
                        assert(self@ == v0.with_top(v0.stack.last().ready.drop_first()));
                        match c.entry {
                            Err(e) => {
                                match self.emit_item(Err(e)) {
                                    Some(a) => return a,
                                    None => {},
                                }
                            },
                            Ok(n) => {
                                if self.opts.skip_hidden && n.hidden {
                                } else {
                                    match self.begin(n, c.yielded, false) {
                                        Some(a) => return a,
                                        None => {},
                                    }
                                }
                            },
                        }
                    } else if top.live {
                        self.stack.push(top);
                        assert(self@.stack =~= stack0);
                        self.awaiting = Awaiting::Batch;
                        return Action::Refill;
                    } else {
                        assert(self@.stack =~= stack0.drop_last());
                    }
                },
            }
        }
    }

    /// The pending directory is open: yields it if it is to be yielded, and
    /// goes on into it.
    fn finish(&mut self) -> (a: Action<E>)
        requires
            old(self)@.pending is Some,
            old(self)@.start is None,
            old(self)@.pager matches Some(p) ==> (p.wf() && !p.exhausted()),
        ensures
            (final(self)@, a) == old(self)@.finish(),
            final(self)@.wf(),
    {
        let p = self.pending.take().unwrap();
        if p.emit {
            match self.emit_item(Ok(p.node)) {
                Some(a) => a,
                None => self.run(),
            }
        } else {
            self.run()
        }
    }

    /// Descending into the pending directory failed with `e`.
    fn fail(&mut self, e: Error) -> (a: Action<E>)
        requires
            old(self)@.start is None,
            old(self)@.pager matches Some(p) ==> (p.wf() && !p.exhausted()),
        ensures
            (final(self)@, a) == old(self)@.fail(e),
            final(self)@.wf(),
    {
        self.pending = None;
        match self.emit_item(Err(e)) {
            Some(a) => a,
            None => self.run(),
        }
    }

    /// The consumer asks for the next entry.
    pub fn next_action(&mut self) -> (a: Action<E>)
        requires
            old(self).wf(),
            old(self)@.awaiting == Awaiting::Next,
        ensures
            (final(self)@, a) == old(self)@.next(),
            final(self).wf(),
    {
        let exhausted = match &self.pager {
            Some(p) => p.exhausted(),
            None => false,
        };
        if exhausted {
            return Action::Finished;
        }
        self.run()
    }

    /// The identity of the pending directory, or `None` if it could not be
    /// obtained, together with the directory's path (which a loop error
    /// reports).
    pub fn identity(&mut self, id: Option<Ancestor>, path: std::path::PathBuf) -> (a: Action<E>)
        requires
            old(self).wf(),
            old(self)@.awaiting == Awaiting::Identity,
        ensures
            (final(self)@, a) == old(self)@.on_identity(id, path),
            final(self).wf(),
    {
        match id {
            Some(anc) => {
                if contains_ancestor(&self.ancestors, anc) {
                    let p = self.pending.take().unwrap();
                    let e = Error::loop_detected(path, p.node.depth);
                    self.fail(e)
                } else {
                    self.ancestors.push(anc);
                    self.open_pending()
                }
            },
            None => self.open_pending(),
        }
    }

    /// The identities of the directories above the pending one, outermost
    /// first.
    pub fn backfilled(&mut self, ids: Vec<Ancestor>) -> (a: Action<E>)
        requires
            old(self).wf(),
            old(self)@.awaiting == Awaiting::Backfill,
        ensures
            (final(self)@, a) == old(self)@.on_backfill(ids@),
            final(self).wf(),
    {
        self.ancestors = ids;
        self.identify()
    }

    /// The children of the pending directory, resolved and ordered, or the
    /// error reading it.
    pub fn listing(&mut self, res: Result<Vec<Candidate<E>>, Error>) -> (a: Action<E>)
        requires
            old(self).wf(),
            old(self)@.awaiting == Awaiting::Listing,
        ensures
            (final(self)@, a) == old(self)@.on_listing(
                match res {
                    Ok(v) => Ok(v@),
                    Err(e) => Err(e),
                },
            ),
            final(self).wf(),
    {
        match res {
            Err(e) => self.fail(e),
            Ok(children) => {
                let ghost s0 = self@.stack;
                let ghost c = children@;
                let q = to_queue(children);
                self.stack.push(Stream { ready: q, live: false });
                assert(self@.stack =~= s0.push(StreamView { ready: c, live: false }));
                self.finish()
            },
        }
    }

    /// The pending directory opened for streaming, or the error opening it.
    pub fn opened(&mut self, res: Result<(), Error>) -> (a: Action<E>)
        requires
            old(self).wf(),
            old(self)@.awaiting == Awaiting::Opened,
        ensures
            (final(self)@, a) == old(self)@.on_opened(res),
            final(self).wf(),
    {
        match res {
            Err(e) => self.fail(e),
            Ok(_) => {
                let ghost s0 = self@.stack;
                self.stack.push(Stream { ready: VecDeque::new(), live: true });
                assert(self@.stack =~= s0.push(StreamView { ready: Seq::empty(), live: true }));
                self.finish()
            },
        }
    }

    /// The next batch of children of the innermost streamed directory, or
    /// `None` once it is exhausted.
    pub fn batch(&mut self, batch: Option<Vec<Candidate<E>>>) -> (a: Action<E>)
        requires
            old(self).wf(),
            old(self)@.awaiting == Awaiting::Batch,
        ensures
            (final(self)@, a) == old(self)@.on_batch(
                match batch {
                    Some(v) => Some(v@),
                    None => None,
                },
            ),
            final(self).wf(),
    {
        let ghost s0 = self@.stack;
        let mut top = self.stack.pop().unwrap();
        match batch {
            Some(children) => {
                let ghost c = children@;
                top.ready = to_queue(children);
                self.stack.push(top);
                assert(self@.stack =~= s0.update(s0.len() - 1, StreamView { ready: c, live: s0.last().live }));
            },
            None => {
                assert(self@.stack =~= s0.drop_last());
            },
        }
        self.run()
    }
}


/// Whether a yield is one the options permit: an entry is never yielded above
/// the minimum depth, and, when hidden entries are skipped, only the
/// traversal root `root` may be a hidden one.
pub open spec fn admissible<E>(opts: WalkDirOptions, root: Option<Node<E>>, a: Action<E>) -> bool {
    match a {
        Action::Yield(Ok(n)) => {
            &&& n.depth >= opts.min_depth
            &&& (opts.skip_hidden && n.hidden) ==> root == Some(n)
        },
        _ => true,
    }
}

/// The root a state may still yield hidden: the untaken start.
pub open spec fn root_fits<E>(v: TraversalView<E>, root: Option<Node<E>>) -> bool {
    v.start matches Some(Ok(n)) ==> root == Some(n)
}

proof fn lemma_advance_admissible<E>(v: TraversalView<E>, root: Option<Node<E>>)
    requires
        v.running(),
        root_fits(v, root),
    ensures
        admissible(v.opts, root, v.advance().1),
    decreases v.measure(), 0nat,
{
    match v.start {
        Some(res) => {
            let w = TraversalView { start: None, ..v };
            match res {
                Err(e) => lemma_emit_admissible(w, Err(e), root),
                Ok(n) => lemma_begin_admissible(w, n, true, true, root),
            }
        },
        None => {
            if v.stack.len() > 0 {
                let top = v.stack.last();
                if top.ready.len() > 0 {
                    let c = top.ready[0];
                    let w = v.with_top(top.ready.drop_first());
                    lemma_work_replace_last(v.stack, top.ready.drop_first(), top.live);
                    lemma_work_replace_last(v.stack, top.ready, top.live);
                    assert(v.stack.update(v.stack.len() - 1, top) =~= v.stack);
                    match c.entry {
                        Err(e) => lemma_emit_admissible(w, Err(e), root),
                        Ok(n) => if v.opts.skip_hidden && n.hidden {
                            lemma_advance_admissible(w, root);
                        } else {
                            lemma_begin_admissible(w, n, c.yielded, false, root);
                        },
                    }
                } else if !top.live {
                    lemma_advance_admissible(TraversalView { stack: v.stack.drop_last(), ..v }, root);
                }
            }
        },
    }
}

proof fn lemma_emit_admissible<E>(v: TraversalView<E>, item: Result<Node<E>, Error>, root: Option<Node<E>>)
    requires
        v.running(),
        root_fits(v, root),
        item matches Ok(n) ==> (n.depth >= v.opts.min_depth && ((v.opts.skip_hidden && n.hidden)
            ==> root == Some(n))),
    ensures
        admissible(v.opts, root, v.emit(item).1),
    decreases v.measure(), 1nat,
{
    match v.pager {
        Some(p) => if !p.emits() {
            lemma_advance_admissible(TraversalView { pager: Some(p.advance()), ..v }, root);
        },
        None => {},
    }
}

proof fn lemma_begin_admissible<E>(v: TraversalView<E>, n: Node<E>, yielded: bool, is_root: bool, root: Option<Node<E>>)
    requires
        v.running(),
        v.start is None,
        is_root ==> root == Some(n),
        !is_root ==> !(v.opts.skip_hidden && n.hidden),
    ensures
        admissible(v.opts, root, v.begin(n, yielded, is_root).1),
    decreases v.measure(), 2nat,
{
    let emit = v.emits(yielded, n);
    if !v.descends(n) {
        if emit {
            lemma_emit_admissible(v, Ok(n), root);
        } else {
            lemma_advance_admissible(v, root);
        }
    }
}

/// Depth-window and hidden-entry law: from any consistent state, whatever
/// the driver reports, the entry the walk yields next is at or below the
/// minimum depth, and, when hidden entries are skipped, is not a hidden one —
/// unless it is the traversal root, which is exempt.
pub proof fn lemma_yields_respect_options<E>(v: TraversalView<E>)
    requires
        v.wf(),
    ensures
        v.awaiting == Awaiting::Next ==> admissible(v.opts, v.root_node(), v.next().1),
        v.awaiting == Awaiting::Identity ==> forall|id: Option<Ancestor>, path: std::path::PathBuf|
            admissible(v.opts, v.root_node(), #[trigger] v.on_identity(id, path).1),
        v.awaiting == Awaiting::Backfill ==> forall|ids: Seq<Ancestor>|
            admissible(v.opts, v.root_node(), #[trigger] v.on_backfill(ids).1),
        v.awaiting == Awaiting::Listing ==> forall|res: Result<Seq<Candidate<E>>, Error>|
            admissible(v.opts, v.root_node(), #[trigger] v.on_listing(res).1),
        v.awaiting == Awaiting::Opened ==> forall|res: Result<(), Error>|
            admissible(v.opts, v.root_node(), #[trigger] v.on_opened(res).1),
        v.awaiting == Awaiting::Batch ==> forall|b: Option<Seq<Candidate<E>>>|
            admissible(v.opts, v.root_node(), #[trigger] v.on_batch(b).1),
{
    let r = v.root_node();
    if v.awaiting == Awaiting::Next {
        match v.pager {
            Some(p) => if !p.exhausted() {
                lemma_advance_admissible(v, r);
            },
            None => lemma_advance_admissible(v, r),
        }
    }
    if v.awaiting == Awaiting::Identity || v.awaiting == Awaiting::Listing || v.awaiting == Awaiting::Opened {
        let p = v.pending.unwrap();
        let w = TraversalView { pending: None, ..v };
        assert forall|e: Error| admissible(v.opts, r, #[trigger] v.fail(e).1) by {
            lemma_emit_admissible(w, Err(e), r);
        }
        assert forall|stack: Seq<StreamView<E>>| admissible(v.opts, r, #[trigger] TraversalView { stack, ..v }.finish().1) by {
            let x = TraversalView { stack, ..v };
            let y = TraversalView { pending: None, ..x };
            if p.emit {
                lemma_emit_admissible(y, Ok(p.node), r);
            } else {
                lemma_advance_admissible(y, r);
            }
        }
        assert forall|id: Option<Ancestor>, path: std::path::PathBuf|
            admissible(v.opts, r, #[trigger] v.on_identity(id, path).1) by {
            match id {
                Some(a) => if v.ancestors.contains(a) {
                    let n = v.pending.unwrap().node;
                    assert(v.on_identity(id, path) == v.fail(Error::spec_loop(path, n.depth)));
                },
                None => {},
            }
        }
        assert forall|res: Result<Seq<Candidate<E>>, Error>| admissible(v.opts, r, #[trigger] v.on_listing(res).1) by {
            match res {
                Err(e) => {
                    assert(v.on_listing(res) == v.fail(e));
                },
                Ok(children) => {
                    let stack = v.stack.push(StreamView { ready: children, live: false });
                    assert(v.on_listing(res) == TraversalView { stack, ..v }.finish());
                },
            }
        }
        assert forall|res: Result<(), Error>| admissible(v.opts, r, #[trigger] v.on_opened(res).1) by {
            match res {
                Err(e) => {
                    assert(v.on_opened(res) == v.fail(e));
                },
                Ok(_) => {
                    let stack = v.stack.push(StreamView { ready: Seq::empty(), live: true });
                    assert(v.on_opened(res) == TraversalView { stack, ..v }.finish());
                },
            }
        }
    }
    if v.awaiting == Awaiting::Batch {
        assert forall|b: Option<Seq<Candidate<E>>>| admissible(v.opts, r, #[trigger] v.on_batch(b).1) by {
            match b {
                Some(children) => lemma_advance_admissible(v.with_top(children), r),
                None => lemma_advance_admissible(TraversalView { stack: v.stack.drop_last(), ..v }, r),
            }
        }
    }
}


/// Loop law: when the identity of the directory about to be descended into
/// repeats one on the current path, the walk reports a loop error for it, at
/// its depth, instead of yielding it or reading it; the directories already
/// open stay as they are, so the walk carries on after the error. A new
/// identity is recorded, and the directory is read.
pub proof fn lemma_loop_is_reported<E>(v: TraversalView<E>, a: Ancestor, path: std::path::PathBuf)
    requires
        v.wf(),
        v.awaiting == Awaiting::Identity,
        v.pager is None,
    ensures
        v.ancestors.contains(a) ==> v.on_identity(Some(a), path) == (
            TraversalView { pending: None, awaiting: Awaiting::Next, ..v },
            Action::<E>::Yield(Err(Error::spec_loop(path, v.pending.unwrap().node.depth))),
        ),
        !v.ancestors.contains(a) ==> {
            let (w, act) = v.on_identity(Some(a), path);
            &&& w.ancestors == v.ancestors.push(a)
            &&& w.pending == v.pending
            &&& w.stack == v.stack
            &&& (act is ReadSorted || act is OpenLive)
        },
{
}

/// Limit law: once `limit` entries have been yielded, asking for more ends
/// the walk at once, and nothing more is read.
pub proof fn lemma_limit_ends_walk<E>(v: TraversalView<E>)
    requires
        v.pager matches Some(p) && p.exhausted(),
    ensures
        v.next() == (v, Action::<E>::Finished),
{
}

} // verus!
