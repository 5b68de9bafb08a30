//! Every entry the options keep is yielded.
//!
//! The pre-order law says the walk yields exactly the pruned pre-order of
//! the tree; this states the other direction plainly: an entry reached from
//! the root through readable directories above the depth limit, none of them
//! dropped as hidden, is among what the walk yields whenever its own
//! candidate is yielded and it is not above the minimum depth.
use vstd::prelude::*;

use crate::entry::{Candidate, Node, Platform};
use crate::error::Error;
use crate::options::WalkDirOptions;
use crate::preorder::{
    Batching, Tree, all_at_depth, armed_by, drive, expand, fresh, lemma_armed_push,
    lemma_walk_is_preorder, subtree, walk_from, walk_listing,
};
use crate::walk::TraversalView;

verus! {

/// `path` runs down the tree `t` as a walk descends it: each node after the
/// first is the entry of the candidate at `idx[j]` in the listing of the
/// node before it, which is a directory above the depth limit, and no node
/// after the first is dropped as hidden.
pub open spec fn descent<E>(t: Tree<E>, o: WalkDirOptions, path: Seq<Node<E>>, idx: Seq<int>) -> bool {
    &&& path.len() > 0
    &&& idx.len() == path.len() - 1
    &&& forall|j: int| #![trigger idx[j]]
        0 <= j < idx.len() ==> {
            &&& path[j].is_dir
            &&& path[j].depth < o.max_depth
            &&& 0 <= idx[j] < t.listing(path[j]).len()
            &&& t.listing(path[j])[idx[j]].entry == Ok::<Node<E>, Error>(path[j + 1])
            &&& !(o.skip_hidden && path[j + 1].hidden)
        }
}

/// A descent through readable nodes, none of them a reparse point where
/// reparse points arm loop detection (Windows).
pub open spec fn chain<E>(t: Tree<E>, o: WalkDirOptions, pf: Platform, path: Seq<Node<E>>, idx: Seq<int>) -> bool {
    &&& descent(t, o, path, idx)
    &&& forall|j: int| #![trigger path[j]]
        0 <= j < path.len() ==> t.fault(path[j]) is None && (pf == Platform::Unix || !path[j].reparse_point)
}

/// The candidate the chain ends with is yielded, or the chain is the root
/// alone.
pub open spec fn ends_yielded<E>(t: Tree<E>, path: Seq<Node<E>>, idx: Seq<int>) -> bool {
    idx.len() > 0 ==> t.listing(path[idx.len() - 1])[idx.last()].yielded
}

/// The walk of a listing holds whatever the walk of its `i`-th candidate
/// holds, whatever identities are held when it is reached.
proof fn lemma_listing_holds<E>(
    t: Tree<E>,
    o: WalkDirOptions,
    pf: Platform,
    cs: Seq<Candidate<E>>,
    i: int,
    d: nat,
    above: Seq<Node<E>>,
    held: Seq<crate::entry::Ancestor>,
    x: Result<Node<E>, Error>,
)
    requires
        0 <= i < cs.len(),
        forall|h: Seq<crate::entry::Ancestor>| (#[trigger] expand(t, o, pf, cs[i], d, above, h)).0.contains(x),
    ensures
        walk_listing(t, o, pf, cs, d, above, held).0.contains(x),
    decreases i,
{
    let first = expand(t, o, pf, cs[0], d, above, held);
    let rest = walk_listing(t, o, pf, cs.drop_first(), d, above, first.1);
    if i == 0 {
        assert(first.0.contains(x));
        let k = choose|k: int| 0 <= k < first.0.len() && first.0[k] == x;
        assert((first.0 + rest.0)[k] == x);
    } else {
        assert(cs.drop_first()[i - 1] == cs[i]);
        lemma_listing_holds(t, o, pf, cs.drop_first(), i - 1, d, above, first.1, x);
        let k = choose|k: int| 0 <= k < rest.0.len() && rest.0[k] == x;
        assert((first.0 + rest.0)[first.0.len() + k] == x);
    }
}

/// The subtree of the first node of a chain holds its last node.
pub(crate) proof fn lemma_subtree_holds<E>(
    t: Tree<E>,
    o: WalkDirOptions,
    pf: Platform,
    path: Seq<Node<E>>,
    idx: Seq<int>,
    yielded: bool,
    d: nat,
    above: Seq<Node<E>>,
)
    requires
        t.wf(),
        !o.follow_links,
        chain(t, o, pf, path, idx),
        ends_yielded(t, path, idx),
        idx.len() == 0 ==> yielded,
        path.last().depth >= o.min_depth,
        d == path[0].depth,
        pf == Platform::Unix || !armed_by(above),
    ensures
        forall|h: Seq<crate::entry::Ancestor>| (#[trigger] subtree(t, o, pf, path[0], yielded, d, above, h)).0.contains(
            Ok::<Node<E>, Error>(path.last()),
        ),
    decreases path.len(),
{
    let n = path[0];
    let x = Ok::<Node<E>, Error>(path.last());
    assert(t.fault(path[0]) is None && (pf == Platform::Unix || !path[0].reparse_point));
    if idx.len() == 0 {
        assert forall|h: Seq<crate::entry::Ancestor>| (#[trigger] subtree(t, o, pf, n, yielded, d, above, h)).0.contains(x) by {
            let s = subtree(t, o, pf, n, yielded, d, above, h).0;
            assert(s[0] == x);
        }
    } else {
        assert(path[0].is_dir && path[0].depth < o.max_depth && 0 <= idx[0] < t.listing(path[0]).len());
        let cs = t.listing(n);
        let c = cs[idx[0]];
        let above2 = above.push(n);
        lemma_armed_push(above, n);
        assert(all_at_depth(cs, n.depth + 1));
        assert(crate::preorder::at_depth(cs[idx[0]], n.depth + 1));
        let p2 = path.drop_first();
        let i2 = idx.drop_first();
        assert(chain(t, o, pf, p2, i2)) by {
            assert forall|j: int| 0 <= j < p2.len() implies t.fault(#[trigger] p2[j]) is None && (pf == Platform::Unix || !p2[j].reparse_point) by {
                assert(p2[j] == path[j + 1]);
            }
            assert forall|j: int| 0 <= j < i2.len() implies {
                &&& p2[j].is_dir
                &&& p2[j].depth < o.max_depth
                &&& 0 <= #[trigger] i2[j] < t.listing(p2[j]).len()
                &&& t.listing(p2[j])[i2[j]].entry == Ok::<Node<E>, Error>(p2[j + 1])
                &&& !(o.skip_hidden && p2[j + 1].hidden)
            } by {
                assert(i2[j] == idx[j + 1]);
                assert(p2[j] == path[j + 1]);
                assert(p2[j + 1] == path[j + 2]);
            }
        }
        assert(ends_yielded(t, p2, i2)) by {
            if i2.len() > 0 {
                assert(i2.last() == idx.last());
                assert(p2[i2.len() - 1] == path[idx.len() - 1]);
            }
        }
        assert(p2.last() == path.last());
        lemma_subtree_holds(t, o, pf, p2, i2, c.yielded, d + 1, above2);
        assert forall|h: Seq<crate::entry::Ancestor>| (#[trigger] expand(t, o, pf, cs[idx[0]], d + 1, above2, h)).0.contains(x) by {
            assert(subtree(t, o, pf, p2[0], c.yielded, d + 1, above2, h).0.contains(x));
        }
        assert forall|h: Seq<crate::entry::Ancestor>| (#[trigger] subtree(t, o, pf, n, yielded, d, above, h)).0.contains(x) by {
            lemma_listing_holds(t, o, pf, cs, idx[0], d + 1, above2, h, x);
            let emit = yielded && d >= o.min_depth;
            let r = walk_listing(t, o, pf, cs, d + 1, above2, h);
            let pre = if emit { seq![Ok::<Node<E>, Error>(n)] } else { Seq::<Result<Node<E>, Error>>::empty() };
            let k = choose|k: int| 0 <= k < r.0.len() && r.0[k] == x;
            assert((pre + r.0)[pre.len() + k] == x);
        }
    }
}

/// Completeness law: in a walk that does not follow links, an entry reached
/// from the root through a chain of readable directories above the depth
/// limit — none dropped as hidden, and on Windows none a reparse point — is among
/// what the walk yields whenever its own candidate is yielded and it is not
/// above the minimum depth (the root always is). An unpaged walk that has
/// reported its end has yielded it.
pub proof fn lemma_walk_is_complete<E>(
    t: Tree<E>,
    batch: Batching<E>,
    v: TraversalView<E>,
    fuel: nat,
    path: Seq<Node<E>>,
    idx: Seq<int>,
)
    requires
        t.wf(),
        fresh(v),
        v.pager is None,
        !v.opts.follow_links,
        v.start == Some(Ok::<Node<E>, Error>(path[0])),
        chain(t, v.opts, v.platform, path, idx),
        ends_yielded(t, path, idx),
        path.last().depth >= v.opts.min_depth,
    ensures
        walk_from(t, v.opts, v.platform, Ok(path[0])).contains(Ok(path.last())),
        ({
            let (w, dirs, out, done) = drive(t, batch, v, Seq::empty(), fuel);
            done ==> out.contains(Ok(path.last()))
        }),
{
    let above = Seq::<Node<E>>::empty();
    assert(!armed_by(above));
    lemma_subtree_holds(t, v.opts, v.platform, path, idx, true, 0, above);
    assert(subtree(t, v.opts, v.platform, path[0], true, 0, above, Seq::empty()).0.contains(
        Ok::<Node<E>, Error>(path.last()),
    ));
    lemma_walk_is_preorder(t, batch, v, fuel);
}

} // verus!
