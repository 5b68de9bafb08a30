//! A walk yields the entries the options keep, each once.
//!
//! In a tree, where every entry is listed by one directory only, each
//! resolved entry a walk yields is reached from the root by a descent the
//! options allow and ends in a yielded candidate not above the minimum
//! depth, and no entry is yielded twice, whatever the options. When no
//! identity is compared and every read succeeds, every such entry is
//! yielded. Entries one directory lists come in the order of its listing,
//! so with `group_dir` its directories come first.
use vstd::prelude::*;

use crate::entry::{Ancestor, Candidate, Node, Platform};
use crate::error::Error;
use crate::options::WalkDirOptions;
use crate::walk::TraversalView;
use crate::order::{dirs_first, is_resolved_dir};
use crate::reach::{chain, descent, ends_yielded, lemma_subtree_holds};
use crate::preorder::{
    Batching, drive, fresh, lemma_walk_is_preorder, walk_from, Tree, all_at_depth, armed_by, at_depth, checks, compared, expand, opened, subtree, walk_listing,
};

verus! {

/// Every resolved entry of `t` is listed by one directory only, in one
/// place.
pub open spec fn is_tree<E>(t: Tree<E>) -> bool {
    forall|p: Node<E>, q: Node<E>, i: int, j: int|
        #![trigger t.listing(p)[i], t.listing(q)[j]]
        0 <= i < t.listing(p).len() && 0 <= j < t.listing(q).len() && t.listing(p)[i].entry is Ok
            && t.listing(p)[i].entry == t.listing(q)[j].entry ==> p == q && i == j
}

/// No resolved entry of `s` comes twice.
pub open spec fn once<E>(s: Seq<Result<Node<E>, Error>>) -> bool {
    forall|i: int, j: int| 0 <= i < j < s.len() && s[i] is Ok ==> s[i] != s[j]
}

/// Directory `p` lists `x`.
pub open spec fn lists<E>(t: Tree<E>, p: Node<E>, x: Node<E>) -> bool {
    exists|i: int| 0 <= i < t.listing(p).len() && #[trigger] t.listing(p)[i].entry == Ok::<Node<E>, Error>(x)
}

/// The directory that lists `x`.
spec fn parent<E>(t: Tree<E>, x: Node<E>) -> Node<E> {
    choose|p: Node<E>| #[trigger] lists(t, p, x)
}

/// The directory `k` levels above `x`.
spec fn up<E>(t: Tree<E>, x: Node<E>, k: nat) -> Node<E>
    decreases k,
{
    if k == 0 {
        x
    } else {
        parent(t, up(t, x, (k - 1) as nat))
    }
}

/// Every resolved entry of `s` lies in the subtree of `n`, which sits at
/// depth `d`.
spec fn under<E>(t: Tree<E>, s: Seq<Result<Node<E>, Error>>, n: Node<E>, d: nat) -> bool {
    forall|k: int|
        0 <= k < s.len() ==> (#[trigger] s[k] matches Ok(y) ==> y.depth >= d && up(t, y, (y.depth - d) as nat) == n)
}

/// Every resolved entry of `s` lies in the subtree of one of the entries
/// of `cs`, which sit at depth `d`.
spec fn under_listing<E>(t: Tree<E>, s: Seq<Result<Node<E>, Error>>, cs: Seq<Candidate<E>>, d: nat) -> bool {
    forall|k: int|
        0 <= k < s.len() ==> (#[trigger] s[k] matches Ok(y) ==> y.depth >= d && exists|j: int|
            0 <= j < cs.len() && #[trigger] cs[j].entry == Ok::<Node<E>, Error>(up(t, y, (y.depth - d) as nat)))
}

/// No resolved entry of `cs` comes twice.
spec fn distinct_ok<E>(cs: Seq<Candidate<E>>) -> bool {
    forall|i: int, j: int| 0 <= i < j < cs.len() && cs[i].entry is Ok ==> cs[i].entry != cs[j].entry
}

proof fn lemma_parent_of<E>(t: Tree<E>, n: Node<E>, i: int, m: Node<E>)
    requires
        is_tree(t),
        0 <= i < t.listing(n).len(),
        t.listing(n)[i].entry == Ok::<Node<E>, Error>(m),
    ensures
        parent(t, m) == n,
{
    assert(lists(t, n, m));
    let p = parent(t, m);
    let i2 = choose|i2: int| 0 <= i2 < t.listing(p).len() && #[trigger] t.listing(p)[i2].entry == Ok::<Node<E>, Error>(m);
    assert(t.listing(p)[i2].entry == t.listing(n)[i].entry);
}

proof fn lemma_listing_distinct<E>(t: Tree<E>, n: Node<E>)
    requires
        is_tree(t),
    ensures
        distinct_ok(t.listing(n)),
{
    let cs = t.listing(n);
    assert forall|i: int, j: int| 0 <= i < j < cs.len() && cs[i].entry is Ok implies cs[i].entry != cs[j].entry by {
        if cs[i].entry == cs[j].entry {
            assert(t.listing(n)[i].entry == t.listing(n)[j].entry);
        }
    }
}

proof fn lemma_subtree_once<E>(
    t: Tree<E>,
    o: WalkDirOptions,
    pf: Platform,
    n: Node<E>,
    yielded: bool,
    d: nat,
    above: Seq<Node<E>>,
    held: Seq<Ancestor>,
)
    requires
        t.wf(),
        is_tree(t),
        d == n.depth,
        d <= o.max_depth,
    ensures
        under(t, subtree(t, o, pf, n, yielded, d, above, held).0, n, d),
        once(subtree(t, o, pf, n, yielded, d, above, held).0),
    decreases o.max_depth + 1 - d, 2int,
{
    let emit = yielded && d >= o.min_depth;
    if n.is_dir && d < o.max_depth {
        if checks(o, pf, armed_by(above), n) {
            let h = compared(t, o, pf, above, held, d);
            match t.id(n) {
                Some(a) => if !h.contains(a) {
                    lemma_opened_once(t, o, pf, n, emit, d, above, h.push(a));
                },
                None => lemma_opened_once(t, o, pf, n, emit, d, above, h),
            }
        } else {
            lemma_opened_once(t, o, pf, n, emit, d, above, held);
        }
    } else {
        let s = subtree(t, o, pf, n, yielded, d, above, held).0;
        assert(up(t, n, 0) == n);
        assert(under(t, s, n, d));
    }
}

proof fn lemma_opened_once<E>(
    t: Tree<E>,
    o: WalkDirOptions,
    pf: Platform,
    n: Node<E>,
    emit: bool,
    d: nat,
    above: Seq<Node<E>>,
    held: Seq<Ancestor>,
)
    requires
        t.wf(),
        is_tree(t),
        d == n.depth,
        d < o.max_depth,
    ensures
        under(t, opened(t, o, pf, n, emit, d, above, held).0, n, d),
        once(opened(t, o, pf, n, emit, d, above, held).0),
    decreases o.max_depth + 1 - d, 0int,
{
    if t.fault(n) is None {
        let cs = t.listing(n);
        lemma_listing_distinct(t, n);
        assert(all_at_depth(cs, n.depth + 1));
        lemma_listing_once(t, o, pf, cs, d + 1, above.push(n), held);
        let r = walk_listing(t, o, pf, cs, d + 1, above.push(n), held).0;
        let pre = if emit {
            seq![Ok::<Node<E>, Error>(n)]
        } else {
            Seq::<Result<Node<E>, Error>>::empty()
        };
        let s = pre + r;
        assert(s == opened(t, o, pf, n, emit, d, above, held).0);
        assert forall|k: int| 0 <= k < s.len() implies (#[trigger] s[k] matches Ok(y) ==> y.depth >= d && up(
            t,
            y,
            (y.depth - d) as nat,
        ) == n) by {
            if k < pre.len() {
                assert(up(t, n, 0) == n);
            } else {
                assert(s[k] == r[k - pre.len()]);
                if let Ok(y) = r[k - pre.len()] {
                    let m = up(t, y, (y.depth - (d + 1)) as nat);
                    let j = choose|j: int| 0 <= j < cs.len() && #[trigger] cs[j].entry == Ok::<Node<E>, Error>(m);
                    lemma_parent_of(t, n, j, m);
                    assert(up(t, y, (y.depth - d) as nat) == parent(t, up(t, y, (y.depth - d - 1) as nat)));
                }
            }
        }
        assert forall|i: int, j: int| 0 <= i < j < s.len() && s[i] is Ok implies s[i] != s[j] by {
            if i >= pre.len() {
                assert(s[i] == r[i - pre.len()]);
                assert(s[j] == r[j - pre.len()]);
            } else {
                assert(s[j] == r[j - pre.len()]);
                if let Ok(y) = r[j - pre.len()] {
                    assert(y.depth >= d + 1);
                }
            }
        }
    }
}

proof fn lemma_listing_once<E>(
    t: Tree<E>,
    o: WalkDirOptions,
    pf: Platform,
    cs: Seq<Candidate<E>>,
    d: nat,
    above: Seq<Node<E>>,
    held: Seq<Ancestor>,
)
    requires
        t.wf(),
        is_tree(t),
        distinct_ok(cs),
        all_at_depth(cs, d as int),
        d <= o.max_depth,
    ensures
        under_listing(t, walk_listing(t, o, pf, cs, d, above, held).0, cs, d),
        once(walk_listing(t, o, pf, cs, d, above, held).0),
    decreases o.max_depth + 1 - d, cs.len() + 4,
{
    if cs.len() > 0 {
        let c = cs[0];
        let first = expand(t, o, pf, c, d, above, held);
        let cs2 = cs.drop_first();
        assert(distinct_ok(cs2)) by {
            assert forall|i: int, j: int| 0 <= i < j < cs2.len() && cs2[i].entry is Ok implies cs2[i].entry
                != cs2[j].entry by {
                assert(cs2[i] == cs[i + 1] && cs2[j] == cs[j + 1]);
            }
        }
        assert(all_at_depth(cs2, d as int)) by {
            assert forall|j: int| 0 <= j < cs2.len() implies at_depth(#[trigger] cs2[j], d as int) by {
                assert(cs2[j] == cs[j + 1]);
            }
        }
        lemma_listing_once(t, o, pf, cs2, d, above, first.1);
        let rest = walk_listing(t, o, pf, cs2, d, above, first.1).0;
        let f = first.0;
        let s = f + rest;
        assert(s == walk_listing(t, o, pf, cs, d, above, held).0);
        let ghost m_opt: Option<Node<E>> = match c.entry {
            Ok(m) => if o.skip_hidden && m.hidden {
                None
            } else {
                Some(m)
            },
            Err(_) => None,
        };
        match m_opt {
            Some(m) => {
                assert(at_depth(cs[0], d as int));
                lemma_subtree_once(t, o, pf, m, c.yielded, d, above, held);
            },
            None => {
                assert(forall|k: int| 0 <= k < f.len() ==> f[k] is Err);
            },
        }
        // Each resolved entry of the first part lies under `cs[0]`.
        assert forall|k: int| 0 <= k < f.len() && f[k] is Ok implies (#[trigger] f[k] matches Ok(y) && y.depth >= d
            && up(t, y, (y.depth - d) as nat) == m_opt.unwrap() && m_opt is Some && cs[0].entry == Ok::<Node<E>, Error>(
            m_opt.unwrap(),
        )) by {}
        assert forall|k: int| 0 <= k < s.len() implies (#[trigger] s[k] matches Ok(y) ==> y.depth >= d && exists|j: int|
            0 <= j < cs.len() && #[trigger] cs[j].entry == Ok::<Node<E>, Error>(up(t, y, (y.depth - d) as nat))) by {
            if k < f.len() {
                if f[k] is Ok {
                    assert(cs[0].entry == Ok::<Node<E>, Error>(m_opt.unwrap()));
                }
            } else {
                assert(s[k] == rest[k - f.len()]);
                if let Ok(y) = rest[k - f.len()] {
                    let j = choose|j: int| 0 <= j < cs2.len() && #[trigger] cs2[j].entry == Ok::<Node<E>, Error>(
                        up(t, y, (y.depth - d) as nat),
                    );
                    assert(cs[j + 1] == cs2[j]);
                }
            }
        }
        assert forall|i: int, j: int| 0 <= i < j < s.len() && s[i] is Ok implies s[i] != s[j] by {
            if j < f.len() {
            } else if i >= f.len() {
                assert(s[i] == rest[i - f.len()]);
                assert(s[j] == rest[j - f.len()]);
            } else {
                assert(s[j] == rest[j - f.len()]);
                if s[i] == s[j] {
                    if let Ok(y) = rest[j - f.len()] {
                        let jj = choose|jj: int| 0 <= jj < cs2.len() && #[trigger] cs2[jj].entry == Ok::<Node<E>, Error>(
                            up(t, y, (y.depth - d) as nat),
                        );
                        assert(cs[jj + 1] == cs2[jj]);
                        assert(cs[0].entry == cs[jj + 1].entry);
                    }
                }
            }
        }
    }
}

/// `path` and `idx` take a walk from `n` down to `y`: a descent the options
/// allow, ending in a yielded candidate (or at `n` itself, yielded as
/// `yielded` says), with `y` not above the minimum depth.
pub open spec fn reaches<E>(
    t: Tree<E>,
    o: WalkDirOptions,
    path: Seq<Node<E>>,
    idx: Seq<int>,
    n: Node<E>,
    y: Node<E>,
    yielded: bool,
) -> bool {
    &&& descent(t, o, path, idx)
    &&& path[0] == n
    &&& path.last() == y
    &&& idx.len() == 0 ==> yielded
    &&& ends_yielded(t, path, idx)
    &&& y.depth >= o.min_depth
}

/// The options keep `y` below `n`: some descent reaches it.
pub open spec fn kept_from<E>(t: Tree<E>, o: WalkDirOptions, n: Node<E>, y: Node<E>, yielded: bool) -> bool {
    exists|path: Seq<Node<E>>, idx: Seq<int>| #[trigger] reaches(t, o, path, idx, n, y, yielded)
}

/// The options keep `y` below one of the entries of `cs`.
spec fn kept_in<E>(t: Tree<E>, o: WalkDirOptions, cs: Seq<Candidate<E>>, y: Node<E>) -> bool {
    exists|j: int| 0 <= j < cs.len() && #[trigger] kept_child(t, o, cs[j], y)
}

/// The options keep `y` below the entry of `c`.
spec fn kept_child<E>(t: Tree<E>, o: WalkDirOptions, c: Candidate<E>, y: Node<E>) -> bool {
    c.entry matches Ok(m) && !(o.skip_hidden && m.hidden) && kept_from(t, o, m, y, c.yielded)
}

/// A descent from a child extends to one from its directory.
proof fn lemma_prepend<E>(
    t: Tree<E>,
    o: WalkDirOptions,
    n: Node<E>,
    j: int,
    m: Node<E>,
    y: Node<E>,
    path: Seq<Node<E>>,
    idx: Seq<int>,
    yielded: bool,
)
    requires
        n.is_dir,
        n.depth < o.max_depth,
        0 <= j < t.listing(n).len(),
        t.listing(n)[j].entry == Ok::<Node<E>, Error>(m),
        !(o.skip_hidden && m.hidden),
        reaches(t, o, path, idx, m, y, t.listing(n)[j].yielded),
    ensures
        reaches(t, o, seq![n] + path, seq![j] + idx, n, y, yielded),
{
    let p2 = seq![n] + path;
    let i2 = seq![j] + idx;
    assert forall|k: int| 0 <= k < i2.len() implies {
        &&& p2[k].is_dir
        &&& p2[k].depth < o.max_depth
        &&& 0 <= #[trigger] i2[k] < t.listing(p2[k]).len()
        &&& t.listing(p2[k])[i2[k]].entry == Ok::<Node<E>, Error>(p2[k + 1])
        &&& !(o.skip_hidden && p2[k + 1].hidden)
    } by {
        if k == 0 {
            assert(p2[1] == path[0]);
        } else {
            assert(i2[k] == idx[k - 1]);
            assert(p2[k] == path[k - 1]);
            assert(p2[k + 1] == path[k]);
        }
    }
    assert(p2.last() == path.last());
    if idx.len() > 0 {
        assert(i2.last() == idx.last());
        assert(p2[i2.len() - 1] == path[idx.len() - 1]);
    } else {
        assert(p2[i2.len() - 1] == n);
    }
}

proof fn lemma_subtree_kept<E>(
    t: Tree<E>,
    o: WalkDirOptions,
    pf: Platform,
    n: Node<E>,
    yielded: bool,
    d: nat,
    above: Seq<Node<E>>,
    held: Seq<Ancestor>,
)
    requires
        t.wf(),
        d == n.depth,
        d <= o.max_depth,
    ensures
        forall|k: int|
            0 <= k < subtree(t, o, pf, n, yielded, d, above, held).0.len() ==> (#[trigger] subtree(
                t,
                o,
                pf,
                n,
                yielded,
                d,
                above,
                held,
            ).0[k] matches Ok(y) ==> kept_from(t, o, n, y, yielded)),
    decreases o.max_depth + 1 - d, 2int,
{
    let s = subtree(t, o, pf, n, yielded, d, above, held).0;
    let emit = yielded && d >= o.min_depth;
    if n.is_dir && d < o.max_depth {
        let h = if checks(o, pf, armed_by(above), n) {
            compared(t, o, pf, above, held, d)
        } else {
            held
        };
        let h2 = match t.id(n) {
            Some(a) => h.push(a),
            None => h,
        };
        if checks(o, pf, armed_by(above), n) && t.id(n) is Some && h.contains(t.id(n)->Some_0) {
            assert(s == seq![Err::<Node<E>, Error>(Error::spec_loop(t.loc(n), n.depth))]);
        } else {
            let hh = if checks(o, pf, armed_by(above), n) {
                h2
            } else {
                held
            };
            assert(s == opened(t, o, pf, n, emit, d, above, hh).0);
            lemma_opened_kept(t, o, pf, n, yielded, emit, d, above, hh);
            assert forall|k: int| 0 <= k < s.len() implies (#[trigger] s[k] matches Ok(y) ==> kept_from(
                t,
                o,
                n,
                y,
                yielded,
            )) by {
                assert(s[k] == opened(t, o, pf, n, emit, d, above, hh).0[k]);
            }
        }
    } else if emit {
        assert(reaches(t, o, seq![n], Seq::<int>::empty(), n, n, yielded));
    }
}

proof fn lemma_opened_kept<E>(
    t: Tree<E>,
    o: WalkDirOptions,
    pf: Platform,
    n: Node<E>,
    yielded: bool,
    emit: bool,
    d: nat,
    above: Seq<Node<E>>,
    held: Seq<Ancestor>,
)
    requires
        t.wf(),
        d == n.depth,
        n.is_dir,
        d < o.max_depth,
        emit ==> yielded && d >= o.min_depth,
    ensures
        forall|k: int|
            0 <= k < opened(t, o, pf, n, emit, d, above, held).0.len() ==> (#[trigger] opened(
                t,
                o,
                pf,
                n,
                emit,
                d,
                above,
                held,
            ).0[k] matches Ok(y) ==> kept_from(t, o, n, y, yielded)),
    decreases o.max_depth + 1 - d, 0int,
{
    if t.fault(n) is None {
        let cs = t.listing(n);
        assert(all_at_depth(cs, n.depth + 1));
        lemma_listing_kept(t, o, pf, cs, d + 1, above.push(n), held);
        let r = walk_listing(t, o, pf, cs, d + 1, above.push(n), held).0;
        let pre = if emit {
            seq![Ok::<Node<E>, Error>(n)]
        } else {
            Seq::<Result<Node<E>, Error>>::empty()
        };
        let s = pre + r;
        assert(s == opened(t, o, pf, n, emit, d, above, held).0);
        assert forall|k: int| 0 <= k < s.len() implies (#[trigger] s[k] matches Ok(y) ==> kept_from(
            t,
            o,
            n,
            y,
            yielded,
        )) by {
            if k < pre.len() {
                assert(reaches(t, o, seq![n], Seq::<int>::empty(), n, n, yielded));
            } else {
                assert(s[k] == r[k - pre.len()]);
                if let Ok(y) = r[k - pre.len()] {
                    let j = choose|j: int| 0 <= j < cs.len() && #[trigger] kept_child(t, o, cs[j], y);
                    let m = cs[j].entry->Ok_0;
                    let (path, idx) = choose|path: Seq<Node<E>>, idx: Seq<int>| #[trigger] reaches(
                        t,
                        o,
                        path,
                        idx,
                        m,
                        y,
                        cs[j].yielded,
                    );
                    lemma_prepend(t, o, n, j, m, y, path, idx, yielded);
                }
            }
        }
    }
}

proof fn lemma_listing_kept<E>(
    t: Tree<E>,
    o: WalkDirOptions,
    pf: Platform,
    cs: Seq<Candidate<E>>,
    d: nat,
    above: Seq<Node<E>>,
    held: Seq<Ancestor>,
)
    requires
        t.wf(),
        all_at_depth(cs, d as int),
        d <= o.max_depth,
    ensures
        ({
            let s = walk_listing(t, o, pf, cs, d, above, held).0;
            forall|k: int| 0 <= k < s.len() ==> (#[trigger] s[k] matches Ok(y) ==> kept_in(t, o, cs, y))
        }),
    decreases o.max_depth + 1 - d, cs.len() + 4,
{
    if cs.len() > 0 {
        let c = cs[0];
        let first = expand(t, o, pf, c, d, above, held);
        let cs2 = cs.drop_first();
        assert(all_at_depth(cs2, d as int)) by {
            assert forall|j: int| 0 <= j < cs2.len() implies at_depth(#[trigger] cs2[j], d as int) by {
                assert(cs2[j] == cs[j + 1]);
            }
        }
        lemma_listing_kept(t, o, pf, cs2, d, above, first.1);
        let rest = walk_listing(t, o, pf, cs2, d, above, first.1).0;
        let f = first.0;
        let s = f + rest;
        assert(s == walk_listing(t, o, pf, cs, d, above, held).0);
        match c.entry {
            Ok(m) => if !(o.skip_hidden && m.hidden) {
                assert(at_depth(cs[0], d as int));
                lemma_subtree_kept(t, o, pf, m, c.yielded, d, above, held);
            },
            Err(_) => {},
        }
        assert forall|k: int| 0 <= k < s.len() implies (#[trigger] s[k] matches Ok(y) ==> kept_in(t, o, cs, y)) by {
            if k < f.len() {
                if let Ok(y) = f[k] {
                    assert(cs[0] == c);
                    assert(kept_child(t, o, cs[0], y));
                }
            } else {
                assert(s[k] == rest[k - f.len()]);
                if let Ok(y) = rest[k - f.len()] {
                    let j = choose|j: int| 0 <= j < cs2.len() && #[trigger] kept_child(t, o, cs2[j], y);
                    assert(cs[j + 1] == cs2[j]);
                    assert(kept_child(t, o, cs[j + 1], y));
                }
            }
        }
    }
}

/// Exactness law: in a tree — every resolved entry listed by one directory
/// only, in one place — the walk from a root at depth 0 yields no resolved
/// entry twice, and each one it yields is kept by the options: reached from
/// the root by a descent they allow, ending in a yielded candidate (the root
/// always is) not above the minimum depth. This holds whatever the options,
/// loop detection included. When every read succeeds and no identity is
/// compared (links not followed, on Unix), the walk yields every entry the
/// options keep: its resolved entries are exactly those, each once. An
/// unpaged walk that has reported its end has yielded exactly this.
pub proof fn lemma_walk_is_exact<E>(t: Tree<E>, batch: Batching<E>, v: TraversalView<E>, fuel: nat, root: Node<E>)
    requires
        t.wf(),
        is_tree(t),
        fresh(v),
        v.start == Some(Ok::<Node<E>, Error>(root)),
    ensures
        ({
            let whole = walk_from(t, v.opts, v.platform, Ok(root));
            let (w, dirs, out, done) = drive(t, batch, v, Seq::empty(), fuel);
            &&& once(whole)
            &&& forall|y: Node<E>| #[trigger] whole.contains(Ok(y)) ==> kept_from(t, v.opts, root, y, true)
            &&& (!v.opts.follow_links && v.platform == Platform::Unix && forall|n: Node<E>|
                #[trigger] t.fault(n) is None) ==> forall|y: Node<E>| #[trigger] kept_from(t, v.opts, root, y, true)
                ==> whole.contains(Ok(y))
            &&& (v.pager is None && done) ==> out == whole
        }),
{
    let o = v.opts;
    let pf = v.platform;
    let above = Seq::<Node<E>>::empty();
    let h = Seq::<Ancestor>::empty();
    let whole = walk_from(t, o, pf, Ok(root));
    assert(whole == subtree(t, o, pf, root, true, 0, above, h).0);
    lemma_subtree_once(t, o, pf, root, true, 0, above, h);
    lemma_subtree_kept(t, o, pf, root, true, 0, above, h);
    assert forall|y: Node<E>| #[trigger] whole.contains(Ok(y)) implies kept_from(t, o, root, y, true) by {
        let k = choose|k: int| 0 <= k < whole.len() && whole[k] == Ok::<Node<E>, Error>(y);
        assert(whole[k] == subtree(t, o, pf, root, true, 0, above, h).0[k]);
    }
    if !o.follow_links && pf == Platform::Unix && forall|n: Node<E>| #[trigger] t.fault(n) is None {
        assert forall|y: Node<E>| #[trigger] kept_from(t, o, root, y, true) implies whole.contains(Ok(y)) by {
            let (path, idx) = choose|path: Seq<Node<E>>, idx: Seq<int>| #[trigger] reaches(t, o, path, idx, root, y, true);
            assert(chain(t, o, pf, path, idx)) by {
                assert forall|j: int| 0 <= j < path.len() implies t.fault(#[trigger] path[j]) is None && (pf
                    == Platform::Unix || !path[j].reparse_point) by {}
            }
            lemma_subtree_holds(t, o, pf, path, idx, true, 0, above);
            assert(subtree(t, o, pf, path[0], true, 0, above, h).0.contains(Ok::<Node<E>, Error>(path.last())));
        }
    }
    lemma_walk_is_preorder(t, batch, v, fuel);
}

/// Resolved entries listed by one directory come in `s` in the order of its
/// listing.
pub open spec fn siblings_in_order<E>(t: Tree<E>, s: Seq<Result<Node<E>, Error>>) -> bool {
    forall|a: int, b: int, p: Node<E>, j1: int, j2: int|
        #![trigger s[a], s[b], t.listing(p)[j1], t.listing(p)[j2]]
        0 <= a < s.len() && 0 <= b < s.len() && 0 <= j1 < j2 < t.listing(p).len() && s[a] is Ok && s[b] is Ok
            && s[a] == t.listing(p)[j1].entry && s[b] == t.listing(p)[j2].entry ==> a < b
}

proof fn lemma_up_shift<E>(t: Tree<E>, x: Node<E>, k: nat)
    requires
        k >= 1,
    ensures
        up(t, x, k) == up(t, parent(t, x), (k - 1) as nat),
    decreases k,
{
    if k == 1 {
        assert(up(t, x, 0) == x);
        assert(up(t, parent(t, x), 0) == parent(t, x));
    } else {
        lemma_up_shift(t, x, (k - 1) as nat);
        assert(up(t, x, k) == parent(t, up(t, x, (k - 1) as nat)));
        assert(up(t, parent(t, x), (k - 1) as nat) == parent(t, up(t, parent(t, x), (k - 2) as nat)));
    }
}

/// Two entries listed by one directory sit at the same depth and share
/// their ancestors.
proof fn lemma_siblings_share<E>(t: Tree<E>, p: Node<E>, j1: int, j2: int, x1: Node<E>, x2: Node<E>, k: nat)
    requires
        t.wf(),
        is_tree(t),
        0 <= j1 < t.listing(p).len(),
        0 <= j2 < t.listing(p).len(),
        t.listing(p)[j1].entry == Ok::<Node<E>, Error>(x1),
        t.listing(p)[j2].entry == Ok::<Node<E>, Error>(x2),
        k >= 1,
    ensures
        x1.depth == x2.depth,
        x1.depth == p.depth + 1,
        up(t, x1, k) == up(t, x2, k),
{
    assert(all_at_depth(t.listing(p), p.depth + 1));
    assert(at_depth(t.listing(p)[j1], p.depth + 1));
    assert(at_depth(t.listing(p)[j2], p.depth + 1));
    lemma_parent_of(t, p, j1, x1);
    lemma_parent_of(t, p, j2, x2);
    lemma_up_shift(t, x1, k);
    lemma_up_shift(t, x2, k);
}

proof fn lemma_subtree_siblings<E>(
    t: Tree<E>,
    o: WalkDirOptions,
    pf: Platform,
    n: Node<E>,
    yielded: bool,
    d: nat,
    above: Seq<Node<E>>,
    held: Seq<Ancestor>,
)
    requires
        t.wf(),
        is_tree(t),
        d == n.depth,
        d <= o.max_depth,
    ensures
        siblings_in_order(t, subtree(t, o, pf, n, yielded, d, above, held).0),
    decreases o.max_depth + 1 - d, 2int,
{
    let s = subtree(t, o, pf, n, yielded, d, above, held).0;
    let emit = yielded && d >= o.min_depth;
    if n.is_dir && d < o.max_depth {
        let h = if checks(o, pf, armed_by(above), n) {
            compared(t, o, pf, above, held, d)
        } else {
            held
        };
        let h2 = match t.id(n) {
            Some(a) => h.push(a),
            None => h,
        };
        if checks(o, pf, armed_by(above), n) && t.id(n) is Some && h.contains(t.id(n)->Some_0) {
        } else {
            let hh = if checks(o, pf, armed_by(above), n) {
                h2
            } else {
                held
            };
            assert(s == opened(t, o, pf, n, emit, d, above, hh).0);
            lemma_opened_siblings(t, o, pf, n, emit, d, above, hh);
        }
    } else {
        assert forall|a: int, b: int, p: Node<E>, j1: int, j2: int|
            0 <= a < s.len() && 0 <= b < s.len() && 0 <= j1 < j2 < t.listing(p).len() && s[a] is Ok && s[b] is Ok && #[trigger] s[a]
                == #[trigger] t.listing(p)[j1].entry && #[trigger] s[b] == #[trigger] t.listing(p)[j2].entry implies a < b by {
            assert(t.listing(p)[j1].entry == t.listing(p)[j2].entry);
        }
    }
}

proof fn lemma_opened_siblings<E>(
    t: Tree<E>,
    o: WalkDirOptions,
    pf: Platform,
    n: Node<E>,
    emit: bool,
    d: nat,
    above: Seq<Node<E>>,
    held: Seq<Ancestor>,
)
    requires
        t.wf(),
        is_tree(t),
        d == n.depth,
        d < o.max_depth,
    ensures
        siblings_in_order(t, opened(t, o, pf, n, emit, d, above, held).0),
    decreases o.max_depth + 1 - d, 0int,
{
    if t.fault(n) is None {
        let cs = t.listing(n);
        assert(cs.skip(0) == cs);
        lemma_listing_siblings(t, o, pf, n, 0, d + 1, above.push(n), held);
        lemma_listing_distinct(t, n);
        assert(all_at_depth(cs, n.depth + 1));
        lemma_listing_once(t, o, pf, cs, d + 1, above.push(n), held);
        let r = walk_listing(t, o, pf, cs, d + 1, above.push(n), held).0;
        let pre = if emit {
            seq![Ok::<Node<E>, Error>(n)]
        } else {
            Seq::<Result<Node<E>, Error>>::empty()
        };
        let s = pre + r;
        assert(s == opened(t, o, pf, n, emit, d, above, held).0);
        assert forall|a: int, b: int, p: Node<E>, j1: int, j2: int|
            0 <= a < s.len() && 0 <= b < s.len() && 0 <= j1 < j2 < t.listing(p).len() && s[a] is Ok && s[b] is Ok && #[trigger] s[a]
                == #[trigger] t.listing(p)[j1].entry && #[trigger] s[b] == #[trigger] t.listing(p)[j2].entry implies a < b by {
            let x1 = s[a]->Ok_0;
            let x2 = s[b]->Ok_0;
            lemma_siblings_share(t, p, j1, j2, x1, x2, 1);
            if a >= pre.len() && b >= pre.len() {
                assert(s[a] == r[a - pre.len()]);
                assert(s[b] == r[b - pre.len()]);
            } else if a < pre.len() && b < pre.len() {
                assert(t.listing(p)[j1].entry == t.listing(p)[j2].entry);
            } else if a < pre.len() {
                assert(s[b] == r[b - pre.len()]);
            } else {
                assert(s[a] == r[a - pre.len()]);
            }
        }
    }
}

proof fn lemma_listing_siblings<E>(
    t: Tree<E>,
    o: WalkDirOptions,
    pf: Platform,
    q: Node<E>,
    off: int,
    d: nat,
    above: Seq<Node<E>>,
    held: Seq<Ancestor>,
)
    requires
        t.wf(),
        is_tree(t),
        0 <= off <= t.listing(q).len(),
        d == q.depth + 1,
        d <= o.max_depth,
    ensures
        siblings_in_order(t, walk_listing(t, o, pf, t.listing(q).skip(off), d, above, held).0),
    decreases o.max_depth + 1 - d, t.listing(q).skip(off).len() + 4,
{
    let cs = t.listing(q).skip(off);
    if cs.len() > 0 {
        let c = cs[0];
        let first = expand(t, o, pf, c, d, above, held);
        let cs2 = t.listing(q).skip(off + 1);
        assert(cs2 =~= cs.drop_first());
        lemma_listing_siblings(t, o, pf, q, off + 1, d, above, first.1);
        lemma_listing_distinct(t, q);
        assert(all_at_depth(t.listing(q), q.depth + 1));
        assert(distinct_ok(cs2)) by {
            assert forall|i: int, j: int| 0 <= i < j < cs2.len() && cs2[i].entry is Ok implies cs2[i].entry
                != cs2[j].entry by {
                assert(cs2[i] == t.listing(q)[off + 1 + i] && cs2[j] == t.listing(q)[off + 1 + j]);
            }
        }
        assert(all_at_depth(cs2, d as int)) by {
            assert forall|j: int| 0 <= j < cs2.len() implies at_depth(#[trigger] cs2[j], d as int) by {
                assert(cs2[j] == t.listing(q)[off + 1 + j]);
                assert(at_depth(t.listing(q)[off + 1 + j], d as int));
            }
        }
        lemma_listing_once(t, o, pf, cs2, d, above, first.1);
        let rest = walk_listing(t, o, pf, cs2, d, above, first.1).0;
        let f = first.0;
        let s = f + rest;
        assert(s == walk_listing(t, o, pf, cs, d, above, held).0);
        assert(c == t.listing(q)[off]);
        assert(at_depth(t.listing(q)[off], d as int));
        let ghost m_opt: Option<Node<E>> = match c.entry {
            Ok(m) => if o.skip_hidden && m.hidden {
                None
            } else {
                Some(m)
            },
            Err(_) => None,
        };
        match m_opt {
            Some(m) => {
                lemma_subtree_once(t, o, pf, m, c.yielded, d, above, held);
                lemma_subtree_siblings(t, o, pf, m, c.yielded, d, above, held);
            },
            None => {
                assert(forall|k: int| 0 <= k < f.len() ==> f[k] is Err);
            },
        }
        assert forall|a: int, b: int, p: Node<E>, j1: int, j2: int|
            0 <= a < s.len() && 0 <= b < s.len() && 0 <= j1 < j2 < t.listing(p).len() && s[a] is Ok && s[b] is Ok && #[trigger] s[a]
                == #[trigger] t.listing(p)[j1].entry && #[trigger] s[b] == #[trigger] t.listing(p)[j2].entry implies a < b by {
            let x1 = s[a]->Ok_0;
            let x2 = s[b]->Ok_0;
            if a < f.len() && b < f.len() {
            } else if a >= f.len() && b >= f.len() {
                assert(s[a] == rest[a - f.len()]);
                assert(s[b] == rest[b - f.len()]);
            } else if a >= f.len() && b < f.len() {
                // `x1` lies under a later entry of the listing than `x2`.
                assert(s[a] == rest[a - f.len()]);
                assert(f[b] is Ok);
                let m = m_opt.unwrap();
                let k = (x1.depth - d) as nat;
                let jj = choose|jj: int| 0 <= jj < cs2.len() && #[trigger] cs2[jj].entry == Ok::<Node<E>, Error>(
                    up(t, x1, k),
                );
                assert(cs2[jj] == t.listing(q)[off + 1 + jj]);
                lemma_siblings_share(t, p, j1, j2, x1, x2, 1);
                if k == 0 {
                    assert(up(t, x1, 0) == x1);
                    assert(up(t, x2, 0) == x2);
                    assert(t.listing(q)[off + 1 + jj].entry == t.listing(p)[j1].entry);
                    assert(t.listing(q)[off].entry == t.listing(p)[j2].entry);
                } else {
                    lemma_siblings_share(t, p, j1, j2, x1, x2, k);
                    assert(t.listing(q)[off].entry == t.listing(q)[off + 1 + jj].entry);
                }
            }
        }
    }
}

/// Sibling law: in a tree, the entries one directory lists are yielded in
/// the order of its listing, whatever the options. With `group_dir`, where
/// each listing is handed over with its directories first (as
/// `order::listing_order` and `order::listing_by_key` arrange it), every
/// yielded directory comes before every yielded file it shares a directory
/// with.
pub proof fn lemma_siblings_keep_listing_order<E>(t: Tree<E>, o: WalkDirOptions, pf: Platform, root: Node<E>)
    requires
        t.wf(),
        is_tree(t),
        root.depth == 0,
    ensures
        siblings_in_order(t, walk_from(t, o, pf, Ok(root))),
        forall|p: Node<E>, x: Node<E>, y: Node<E>, a: int, b: int|
            #![trigger walk_from(t, o, pf, Ok(root))[a], walk_from(t, o, pf, Ok(root))[b], lists(t, p, x), lists(t, p, y)]
            dirs_first(t.listing(p)) && lists(t, p, x) && lists(t, p, y) && x.is_dir && !y.is_dir && 0 <= a
                < walk_from(t, o, pf, Ok(root)).len() && 0 <= b < walk_from(t, o, pf, Ok(root)).len()
                && walk_from(t, o, pf, Ok(root))[a] == Ok::<Node<E>, Error>(x) && walk_from(t, o, pf, Ok(root))[b]
                == Ok::<Node<E>, Error>(y) ==> a < b,
{
    let s = walk_from(t, o, pf, Ok(root));
    lemma_subtree_siblings(t, o, pf, root, true, 0, Seq::empty(), Seq::empty());
    assert forall|p: Node<E>, x: Node<E>, y: Node<E>, a: int, b: int|
        #![trigger s[a], s[b], lists(t, p, x), lists(t, p, y)]
        dirs_first(t.listing(p)) && lists(t, p, x) && lists(t, p, y) && x.is_dir && !y.is_dir && 0 <= a < s.len()
            && 0 <= b < s.len() && s[a] == Ok::<Node<E>, Error>(x) && s[b] == Ok::<Node<E>, Error>(y) implies a < b by {
        let cs = t.listing(p);
        let j1 = choose|i: int| 0 <= i < cs.len() && #[trigger] t.listing(p)[i].entry == Ok::<Node<E>, Error>(x);
        let j2 = choose|i: int| 0 <= i < cs.len() && #[trigger] t.listing(p)[i].entry == Ok::<Node<E>, Error>(y);
        if j2 < j1 {
            assert(is_resolved_dir(cs[j1]));
        } else if j2 == j1 {
        }
    }
}

} // verus!
