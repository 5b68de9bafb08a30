//! What a walk holds at once.
//!
//! A walk keeps one stream per open directory, and the open directories are
//! those on the current path: it never holds more of them than the depth
//! limit allows, a streamed directory never holds more than one batch of
//! children taken in and not yet walked, and the identities it compares
//! against are at most one per level. Memory follows the depth of the tree,
//! not its size: an entry is yielded with at most one more open directory
//! than its depth. Nor does it read more than the options let it descend
//! into.
use vstd::prelude::*;

use crate::entry::Node;
use crate::error::Error;
use crate::preorder::{
    Batching, OpenDirs, Tree, all_at_depth, at_depth, covered, drive, exchange, fresh, lemma_drive,
    lemma_exchange_accounted,
};
use crate::walk::{Action, Awaiting, TraversalView};

verus! {

/// The state holds at most `max_depth` open directories and identities,
/// at most `b` ready children in each streamed directory, and, while an
/// identity is awaited, no identity at or below the pending directory.
pub open spec fn held_within<E>(v: TraversalView<E>, b: nat) -> bool {
    &&& v.stack.len() <= v.opts.max_depth
    &&& forall|i: int| #![trigger v.stack[i]]
        0 <= i < v.stack.len() && v.stack[i].live ==> v.stack[i].ready.len() <= b
    &&& v.ancestors.len() <= v.opts.max_depth
    &&& v.awaiting == Awaiting::Identity ==> (v.pending matches Some(p) ==> v.ancestors.len()
        <= p.node.depth)
}

/// The open directories are those on the current path: the one being
/// descended into sits right below the innermost open one, and what each
/// open directory still holds sits one level below it.
pub open spec fn on_current_path<E>(v: TraversalView<E>) -> bool {
    &&& v.pending matches Some(p) ==> p.node.depth == v.stack.len()
    &&& forall|i: int, j: int|
        0 <= i < v.stack.len() && 0 <= j < v.stack[i].ready.len() ==> at_depth(
            #[trigger] v.stack[i].ready[j],
            i + 1,
        )
}

proof fn lemma_advance_held<E>(v: TraversalView<E>, b: nat)
    requires
        held_within(v, b),
    ensures
        held_within(v.advance().0, b),
    decreases v.measure(), 0nat,
{
    match v.start {
        Some(res) => {
            let w = TraversalView { start: None, ..v };
            match res {
                Err(e) => lemma_emit_held(w, b, Err(e)),
                Ok(n) => lemma_begin_held(w, b, n, true, true),
            }
        },
        None => {
            if v.stack.len() > 0 {
                let top = v.stack.last();
                if top.ready.len() > 0 {
                    let c = top.ready[0];
                    let w = v.with_top(top.ready.drop_first());
                    crate::walk::lemma_work_replace_last(v.stack, top.ready.drop_first(), top.live);
                    crate::walk::lemma_work_replace_last(v.stack, top.ready, top.live);
                    assert(v.stack.update(v.stack.len() - 1, top) =~= v.stack);
                    assert forall|i: int| 0 <= i < w.stack.len() && w.stack[i].live implies w.stack[i].ready.len()
                        <= b by {
                        assert(v.stack[i].live);
                    }
                    match c.entry {
                        Err(e) => lemma_emit_held(w, b, Err(e)),
                        Ok(n) => {
                            if v.opts.skip_hidden && n.hidden {
                                lemma_advance_held(w, b);
                            } else {
                                lemma_begin_held(w, b, n, c.yielded, false);
                            }
                        },
                    }
                } else if !top.live {
                    let w = TraversalView { stack: v.stack.drop_last(), ..v };
                    assert forall|i: int| 0 <= i < w.stack.len() && w.stack[i].live implies w.stack[i].ready.len()
                        <= b by {
                        assert(w.stack[i] == v.stack[i]);
                    }
                    lemma_advance_held(w, b);
                }
            }
        },
    }
}

proof fn lemma_emit_held<E>(w: TraversalView<E>, b: nat, item: Result<Node<E>, Error>)
    requires
        held_within(w, b),
    ensures
        held_within(w.emit(item).0, b),
    decreases w.measure(), 1nat,
{
    match w.pager {
        Some(p) => if !p.emits() {
            lemma_advance_held(TraversalView { pager: Some(p.advance()), ..w }, b);
        },
        None => {},
    }
}

proof fn lemma_begin_held<E>(w: TraversalView<E>, b: nat, n: Node<E>, yielded: bool, is_root: bool)
    requires
        held_within(w, b),
    ensures
        held_within(w.begin(n, yielded, is_root).0, b),
    decreases w.measure(), 2nat,
{
    if w.descends(n) {
    } else if w.emits(yielded, n) {
        lemma_emit_held(w, b, Ok(n));
    } else {
        lemma_advance_held(w, b);
    }
}

/// The pending directory is open (or failed): what follows keeps the bound.
proof fn lemma_finish_held<E>(v: TraversalView<E>, b: nat)
    requires
        held_within(v, b),
        v.pending is Some,
    ensures
        held_within(v.finish().0, b),
{
    let p = v.pending.unwrap();
    let w = TraversalView { pending: None, ..v };
    if p.emit {
        lemma_emit_held(w, b, Ok(p.node));
    } else {
        lemma_advance_held(w, b);
    }
}

proof fn lemma_exchange_held<E>(t: Tree<E>, batch: Batching<E>, v: TraversalView<E>, dirs: OpenDirs<E>, b: nat)
    requires
        covered(v, dirs),
        held_within(v, b),
        batch(v, dirs) <= b,
    ensures
        held_within(exchange(t, batch, v, dirs).0, b),
{
    let k = v.stack.len() as int;
    if v.awaiting == Awaiting::Identity {
        let p = v.pending.unwrap();
        let n = p.node;
        match t.id(n) {
            Some(a) => if v.ancestors.contains(a) {
                lemma_emit_held(TraversalView { pending: None, ..v }, b, Err(Error::spec_loop(t.loc(n), n.depth)));
            } else {
                let w = TraversalView { ancestors: v.ancestors.push(a), ..v };
                assert(held_within(w.open().0, b));
            },
            None => {
                assert(held_within(v.open().0, b));
            },
        }
    } else if v.awaiting == Awaiting::Backfill {
    } else if v.awaiting == Awaiting::Listing {
        let n = v.pending.unwrap().node;
        match t.fault(n) {
            Some(e) => lemma_emit_held(TraversalView { pending: None, ..v }, b, Err(e)),
            None => {
                let w = TraversalView {
                    stack: v.stack.push(crate::walk::StreamView { ready: t.listing(n), live: false }),
                    ..v
                };
                assert forall|i: int| 0 <= i < w.stack.len() && w.stack[i].live implies w.stack[i].ready.len()
                    <= b by {
                    assert(i < k);
                    assert(w.stack[i] == v.stack[i]);
                }
                lemma_finish_held(w, b);
            },
        }
    } else if v.awaiting == Awaiting::Opened {
        let n = v.pending.unwrap().node;
        match t.fault(n) {
            Some(e) => lemma_emit_held(TraversalView { pending: None, ..v }, b, Err(e)),
            None => {
                let w = TraversalView {
                    stack: v.stack.push(crate::walk::StreamView { ready: Seq::empty(), live: true }),
                    ..v
                };
                assert forall|i: int| 0 <= i < w.stack.len() && w.stack[i].live implies w.stack[i].ready.len()
                    <= b by {
                    if i < k {
                        assert(w.stack[i] == v.stack[i]);
                    }
                }
                lemma_finish_held(w, b);
            },
        }
    } else if v.awaiting == Awaiting::Batch {
        let l = dirs[k - 1];
        if l.unread.len() == 0 {
            let w = TraversalView { stack: v.stack.drop_last(), ..v };
            assert forall|i: int| 0 <= i < w.stack.len() && w.stack[i].live implies w.stack[i].ready.len()
                <= b by {
                assert(w.stack[i] == v.stack[i]);
            }
            lemma_advance_held(w, b);
        } else {
            let m = crate::preorder::batch_len(l.unread, batch(v, dirs));
            let w = v.with_top(l.unread.take(m));
            assert forall|i: int| 0 <= i < w.stack.len() && w.stack[i].live implies w.stack[i].ready.len()
                <= b by {
                if i < k - 1 {
                    assert(w.stack[i] == v.stack[i]);
                }
            }
            lemma_advance_held(w, b);
        }
    } else {
        match v.pager {
            Some(p) => if !p.exhausted() {
                lemma_advance_held(v, b);
            },
            None => lemma_advance_held(v, b),
        }
    }
}

proof fn lemma_drive_held<E>(t: Tree<E>, batch: Batching<E>, v: TraversalView<E>, dirs: OpenDirs<E>, fuel: nat, b: nat)
    requires
        t.wf(),
        covered(v, dirs),
        held_within(v, b),
        forall|x: TraversalView<E>, y: OpenDirs<E>| #[trigger] batch(x, y) <= b,
    ensures
        held_within(drive(t, batch, v, dirs, fuel).0, b),
    decreases fuel,
{
    if fuel > 0 {
        let (w, dirs2, a) = exchange(t, batch, v, dirs);
        lemma_exchange_accounted(t, batch, v, dirs);
        lemma_exchange_held(t, batch, v, dirs, b);
        match a {
            Action::Finished => {},
            _ => lemma_drive_held(t, batch, w, dirs2, (fuel - 1) as nat, b),
        }
    }
}

proof fn lemma_advance_keeps_opts<E>(v: TraversalView<E>)
    ensures
        v.advance().0.opts == v.opts,
    decreases v.measure(), 0nat,
{
    match v.start {
        Some(res) => {
            let w = TraversalView { start: None, ..v };
            match res {
                Err(e) => lemma_emit_keeps_opts(w, Err(e)),
                Ok(n) => lemma_begin_keeps_opts(w, n, true, true),
            }
        },
        None => {
            if v.stack.len() > 0 {
                let top = v.stack.last();
                if top.ready.len() > 0 {
                    let c = top.ready[0];
                    let w = v.with_top(top.ready.drop_first());
                    crate::walk::lemma_work_replace_last(v.stack, top.ready.drop_first(), top.live);
                    crate::walk::lemma_work_replace_last(v.stack, top.ready, top.live);
                    assert(v.stack.update(v.stack.len() - 1, top) =~= v.stack);
                    match c.entry {
                        Err(e) => lemma_emit_keeps_opts(w, Err(e)),
                        Ok(n) => {
                            if v.opts.skip_hidden && n.hidden {
                                lemma_advance_keeps_opts(w);
                            } else {
                                lemma_begin_keeps_opts(w, n, c.yielded, false);
                            }
                        },
                    }
                } else if !top.live {
                    lemma_advance_keeps_opts(TraversalView { stack: v.stack.drop_last(), ..v });
                }
            }
        },
    }
}

proof fn lemma_emit_keeps_opts<E>(w: TraversalView<E>, item: Result<Node<E>, Error>)
    ensures
        w.emit(item).0.opts == w.opts,
    decreases w.measure(), 1nat,
{
    match w.pager {
        Some(p) => if !p.emits() {
            lemma_advance_keeps_opts(TraversalView { pager: Some(p.advance()), ..w });
        },
        None => {},
    }
}

proof fn lemma_begin_keeps_opts<E>(w: TraversalView<E>, n: Node<E>, yielded: bool, is_root: bool)
    ensures
        w.begin(n, yielded, is_root).0.opts == w.opts,
    decreases w.measure(), 2nat,
{
    if w.descends(n) {
    } else if w.emits(yielded, n) {
        lemma_emit_keeps_opts(w, Ok(n));
    } else {
        lemma_advance_keeps_opts(w);
    }
}

proof fn lemma_exchange_keeps_opts<E>(t: Tree<E>, batch: Batching<E>, v: TraversalView<E>, dirs: OpenDirs<E>)
    ensures
        exchange(t, batch, v, dirs).0.opts == v.opts,
{
    let k = v.stack.len() as int;
    if v.awaiting == Awaiting::Identity {
        let n = v.pending.unwrap().node;
        lemma_emit_keeps_opts(TraversalView { pending: None, ..v }, Err(Error::spec_loop(t.loc(n), n.depth)));
    } else if v.awaiting == Awaiting::Backfill {
    } else if v.awaiting == Awaiting::Listing || v.awaiting == Awaiting::Opened {
        let n = v.pending.unwrap().node;
        match t.fault(n) {
            Some(e) => lemma_emit_keeps_opts(TraversalView { pending: None, ..v }, Err(e)),
            None => {
                let s = if v.awaiting == Awaiting::Listing {
                    crate::walk::StreamView { ready: t.listing(n), live: false }
                } else {
                    crate::walk::StreamView { ready: Seq::empty(), live: true }
                };
                let w = TraversalView { stack: v.stack.push(s), pending: None, ..v };
                lemma_emit_keeps_opts(w, Ok(n));
                lemma_advance_keeps_opts(w);
            },
        }
    } else if v.awaiting == Awaiting::Batch {
        let l = dirs[k - 1];
        lemma_advance_keeps_opts(TraversalView { stack: v.stack.drop_last(), ..v });
        let m = crate::preorder::batch_len(l.unread, batch(v, dirs));
        lemma_advance_keeps_opts(v.with_top(l.unread.take(m)));
    } else {
        lemma_advance_keeps_opts(v);
    }
}

proof fn lemma_drive_keeps_opts<E>(t: Tree<E>, batch: Batching<E>, v: TraversalView<E>, dirs: OpenDirs<E>, fuel: nat)
    ensures
        drive(t, batch, v, dirs, fuel).0.opts == v.opts,
    decreases fuel,
{
    if fuel > 0 {
        let (w, dirs2, a) = exchange(t, batch, v, dirs);
        lemma_exchange_keeps_opts(t, batch, v, dirs);
        match a {
            Action::Finished => {},
            _ => lemma_drive_keeps_opts(t, batch, w, dirs2, (fuel - 1) as nat),
        }
    }
}

/// The walk reads only what the options let it descend into: after any
/// number of exchanges with a driver that answers from `t`, the directory
/// it is about to identify or read is a directory below `max_depth`, and,
/// when hidden entries are skipped, not hidden unless it is the root. No
/// directory at the depth limit, and nothing under a skipped hidden
/// directory, is ever read.
pub proof fn lemma_reads_respect_options<E>(t: Tree<E>, batch: Batching<E>, v: TraversalView<E>, fuel: nat)
    requires
        t.wf(),
        fresh(v),
    ensures
        ({
            let w = drive(t, batch, v, Seq::empty(), fuel).0;
            w.pending matches Some(p) ==> {
                &&& p.node.is_dir
                &&& p.node.depth < v.opts.max_depth
                &&& (v.opts.skip_hidden && p.node.hidden) ==> p.root
            }
        }),
{
    let dirs0 = Seq::<crate::preorder::OpenDir<E>>::empty();
    assert(crate::preorder::nodes_of(dirs0, 0) =~= Seq::<Node<E>>::empty());
    assert(covered(v, dirs0));
    lemma_drive(t, batch, v, dirs0, fuel);
    lemma_drive_keeps_opts(t, batch, v, dirs0, fuel);
}

/// Memory law: driven as in the pre-order law, with a driver that hands a
/// streamed directory over at most `b` children at a time, a fresh walk,
/// after any number of exchanges, holds at most `max_depth` open
/// directories and `max_depth` identities, at most `b` children taken in and
/// not yet walked in each streamed directory, and only the directories on
/// the current path: the one being descended into sits right below the
/// innermost open one, and what each open directory still holds sits one
/// level below it. Backtracking pops the open directories, so what the walk
/// holds grows with the depth of the tree, not its size.
pub proof fn lemma_walk_memory<E>(t: Tree<E>, batch: Batching<E>, v: TraversalView<E>, fuel: nat, b: nat)
    requires
        t.wf(),
        fresh(v),
        forall|x: TraversalView<E>, y: OpenDirs<E>| #[trigger] batch(x, y) <= b,
    ensures
        ({
            let w = drive(t, batch, v, Seq::empty(), fuel).0;
            &&& w.opts == v.opts
            &&& held_within(w, b)
            &&& on_current_path(w)
        }),
{
    let dirs0 = Seq::<crate::preorder::OpenDir<E>>::empty();
    assert(crate::preorder::nodes_of(dirs0, 0) =~= Seq::<Node<E>>::empty());
    assert(covered(v, dirs0));
    lemma_drive_held(t, batch, v, dirs0, fuel, b);
    lemma_drive(t, batch, v, dirs0, fuel);
    lemma_drive_keeps_opts(t, batch, v, dirs0, fuel);
    let (w, dirs, out, done) = drive(t, batch, v, dirs0, fuel);
    assert forall|i: int, j: int| 0 <= i < w.stack.len() && 0 <= j < w.stack[i].ready.len() implies at_depth(
        #[trigger] w.stack[i].ready[j],
        i + 1,
    ) by {
        assert(crate::preorder::level_ok(w.stack[i], dirs[i], i + 1));
        assert(w.stack[i].ready[j] == (w.stack[i].ready + dirs[i].unread)[j]);
    }
}

/// What the open directories still hold sits one level below each, and the
/// root, while untaken, is at depth 0 with nothing open.
spec fn ready_below<E>(v: TraversalView<E>) -> bool {
    &&& forall|i: int, j: int|
        0 <= i < v.stack.len() && 0 <= j < v.stack[i].ready.len() ==> at_depth(#[trigger] v.stack[i].ready[j], i + 1)
    &&& v.start matches Some(Ok(n)) ==> n.depth == 0
    &&& v.stack.len() > 0 ==> v.start is None
}

/// A resolved item at depth `x.depth` is yielded with at most `x.depth + 1`
/// directories open.
spec fn yield_near<E>(r: (TraversalView<E>, Action<E>)) -> bool {
    r.1 matches Action::Yield(Ok(x)) ==> r.0.stack.len() <= x.depth + 1
}

proof fn lemma_advance_near<E>(v: TraversalView<E>)
    requires
        ready_below(v),
    ensures
        yield_near(v.advance()),
    decreases v.measure(), 0nat,
{
    match v.start {
        Some(res) => {
            let w = TraversalView { start: None, ..v };
            match res {
                Err(e) => lemma_emit_near(w, Err(e)),
                Ok(n) => lemma_begin_near(w, n, true, true),
            }
        },
        None => {
            if v.stack.len() > 0 {
                let top = v.stack.last();
                let k = v.stack.len() - 1;
                if top.ready.len() > 0 {
                    let c = top.ready[0];
                    let w = v.with_top(top.ready.drop_first());
                    crate::walk::lemma_work_replace_last(v.stack, top.ready.drop_first(), top.live);
                    crate::walk::lemma_work_replace_last(v.stack, top.ready, top.live);
                    assert(v.stack.update(v.stack.len() - 1, top) =~= v.stack);
                    assert forall|i: int, j: int| 0 <= i < w.stack.len() && 0 <= j < w.stack[i].ready.len() implies at_depth(
                        #[trigger] w.stack[i].ready[j],
                        i + 1,
                    ) by {
                        if i < k {
                            assert(w.stack[i] == v.stack[i]);
                        } else {
                            assert(w.stack[i].ready[j] == v.stack[k].ready[j + 1]);
                        }
                    }
                    assert(at_depth(v.stack[k].ready[0], k + 1));
                    match c.entry {
                        Err(e) => lemma_emit_near(w, Err(e)),
                        Ok(n) => {
                            if v.opts.skip_hidden && n.hidden {
                                lemma_advance_near(w);
                            } else {
                                lemma_begin_near(w, n, c.yielded, false);
                            }
                        },
                    }
                } else if !top.live {
                    let w = TraversalView { stack: v.stack.drop_last(), ..v };
                    assert forall|i: int, j: int| 0 <= i < w.stack.len() && 0 <= j < w.stack[i].ready.len() implies at_depth(
                        #[trigger] w.stack[i].ready[j],
                        i + 1,
                    ) by {
                        assert(w.stack[i] == v.stack[i]);
                    }
                    lemma_advance_near(w);
                }
            }
        },
    }
}

proof fn lemma_emit_near<E>(w: TraversalView<E>, item: Result<Node<E>, Error>)
    requires
        ready_below(w),
        item matches Ok(x) ==> w.stack.len() <= x.depth + 1,
    ensures
        yield_near(w.emit(item)),
    decreases w.measure(), 1nat,
{
    match w.pager {
        Some(p) => if !p.emits() {
            lemma_advance_near(TraversalView { pager: Some(p.advance()), ..w });
        },
        None => {},
    }
}

proof fn lemma_begin_near<E>(w: TraversalView<E>, n: Node<E>, yielded: bool, is_root: bool)
    requires
        ready_below(w),
        n.depth == w.stack.len(),
    ensures
        yield_near(w.begin(n, yielded, is_root)),
    decreases w.measure(), 2nat,
{
    if w.descends(n) {
    } else if w.emits(yielded, n) {
        lemma_emit_near(w, Ok(n));
    } else {
        lemma_advance_near(w);
    }
}

proof fn lemma_finish_near<E>(v: TraversalView<E>)
    requires
        ready_below(v),
        v.pending matches Some(p) && v.stack.len() == p.node.depth + 1,
    ensures
        yield_near(v.finish()),
{
    let p = v.pending.unwrap();
    let w = TraversalView { pending: None, ..v };
    if p.emit {
        lemma_emit_near(w, Ok(p.node));
    } else {
        lemma_advance_near(w);
    }
}

proof fn lemma_exchange_near<E>(t: Tree<E>, batch: Batching<E>, v: TraversalView<E>, dirs: OpenDirs<E>)
    requires
        t.wf(),
        covered(v, dirs),
    ensures
        ({
            let (w, dirs2, a) = exchange(t, batch, v, dirs);
            yield_near((w, a))
        }),
{
    let k = v.stack.len() as int;
    assert forall|i: int, j: int| 0 <= i < v.stack.len() && 0 <= j < v.stack[i].ready.len() implies at_depth(
        #[trigger] v.stack[i].ready[j],
        i + 1,
    ) by {
        assert(crate::preorder::level_ok(v.stack[i], dirs[i], i + 1));
        assert(v.stack[i].ready[j] == (v.stack[i].ready + dirs[i].unread)[j]);
    }
    if v.awaiting == Awaiting::Identity {
        let n = v.pending.unwrap().node;
        lemma_emit_near(TraversalView { pending: None, ..v }, Err(Error::spec_loop(t.loc(n), n.depth)));
    } else if v.awaiting == Awaiting::Backfill {
    } else if v.awaiting == Awaiting::Listing || v.awaiting == Awaiting::Opened {
        let n = v.pending.unwrap().node;
        match t.fault(n) {
            Some(e) => lemma_emit_near(TraversalView { pending: None, ..v }, Err(e)),
            None => {
                let st = if v.awaiting == Awaiting::Listing {
                    crate::walk::StreamView { ready: t.listing(n), live: false }
                } else {
                    crate::walk::StreamView { ready: Seq::empty(), live: true }
                };
                let w = TraversalView { stack: v.stack.push(st), ..v };
                assert(all_at_depth(t.listing(n), n.depth + 1));
                assert forall|i: int, j: int| 0 <= i < w.stack.len() && 0 <= j < w.stack[i].ready.len() implies at_depth(
                    #[trigger] w.stack[i].ready[j],
                    i + 1,
                ) by {
                    if i < k {
                        assert(w.stack[i] == v.stack[i]);
                    } else {
                        assert(w.stack[i] == st);
                    }
                }
                lemma_finish_near(w);
            },
        }
    } else if v.awaiting == Awaiting::Batch {
        let l = dirs[k - 1];
        if l.unread.len() == 0 {
            let w = TraversalView { stack: v.stack.drop_last(), ..v };
            assert forall|i: int, j: int| 0 <= i < w.stack.len() && 0 <= j < w.stack[i].ready.len() implies at_depth(
                #[trigger] w.stack[i].ready[j],
                i + 1,
            ) by {
                assert(w.stack[i] == v.stack[i]);
            }
            lemma_advance_near(w);
        } else {
            let m = crate::preorder::batch_len(l.unread, batch(v, dirs));
            let w = v.with_top(l.unread.take(m));
            assert(crate::preorder::level_ok(v.stack[k - 1], l, k));
            assert forall|i: int, j: int| 0 <= i < w.stack.len() && 0 <= j < w.stack[i].ready.len() implies at_depth(
                #[trigger] w.stack[i].ready[j],
                i + 1,
            ) by {
                if i < k - 1 {
                    assert(w.stack[i] == v.stack[i]);
                } else {
                    let r = v.stack[k - 1].ready + l.unread;
                    assert(w.stack[i].ready[j] == r[v.stack[k - 1].ready.len() + j]);
                }
            }
            lemma_advance_near(w);
        }
    } else {
        match v.pager {
            Some(p) => if !p.exhausted() {
                lemma_advance_near(v);
            },
            None => lemma_advance_near(v),
        }
    }
}

/// Depth law: driven as in the pre-order law, a walk, after any number of
/// exchanges, yields each resolved entry with at most one more open
/// directory than the entry's depth: the directories from the root down to
/// the entry's own. What it holds at a yield follows the depth of the entry
/// it yields.
pub proof fn lemma_yield_follows_depth<E>(t: Tree<E>, batch: Batching<E>, v: TraversalView<E>, fuel: nat)
    requires
        t.wf(),
        fresh(v),
    ensures
        ({
            let (w, dirs, out, done) = drive(t, batch, v, Seq::empty(), fuel);
            let (z, dirs2, a) = exchange(t, batch, w, dirs);
            a matches Action::Yield(Ok(x)) ==> z.stack.len() <= x.depth + 1
        }),
{
    let dirs0 = Seq::<crate::preorder::OpenDir<E>>::empty();
    assert(crate::preorder::nodes_of(dirs0, 0) =~= Seq::<Node<E>>::empty());
    assert(covered(v, dirs0));
    lemma_drive(t, batch, v, dirs0, fuel);
    let (w, dirs, out, done) = drive(t, batch, v, dirs0, fuel);
    lemma_exchange_near(t, batch, w, dirs);
}

} // verus!
