//! The order of the entries within one directory.
//!
//! The total order of the asynchronous walker is, in precedence order:
//! grouping (directories first when `group_dir` is set), then entries that
//! failed outright, then the sort key, then the file name. A file name is
//! unique within its directory, so the order leaves nothing to chance: it
//! does not depend on the order in which the directory was read or its
//! entries resolved.
//!
//! The synchronous walker keeps failed entries in front without consulting
//! its comparator, and groups directories first afterwards, keeping the
//! relative order of everything else.
use core::cmp::Ordering;
use std::collections::VecDeque;
use vstd::laws_cmp::*;
use vstd::laws_eq::*;
use vstd::prelude::*;
use vstd::std_specs::cmp::OrdSpec;
use vstd::std_specs::cmp::PartialEqSpec;
use vstd::std_specs::cmp::PartialOrdSpec;

use crate::entry::{Candidate, Node};
use crate::error::Error;

verus! {

/// One entry together with its position in its directory's order.
pub struct Ordered<K, E> {
    /// `true` sorts after `false`: a non-directory when grouping.
    pub grouped: bool,
    /// `None` for a failed entry, which sorts ahead of every key.
    pub key: Option<K>,
    /// The file name, as the bytes of its platform encoding.
    pub name: Vec<u8>,
    pub candidate: Candidate<E>,
}

/// Where one place stands relative to another.
#[derive(Clone, Copy, Debug, PartialEq, Eq, Structural)]
pub enum Rank {
    Before,
    Same,
    After,
}

/// Lexicographic order of two file names.
pub open spec fn name_rank(a: Seq<u8>, b: Seq<u8>) -> Rank
    decreases a.len(),
{
    if a.len() == 0 {
        if b.len() == 0 {
            Rank::Same
        } else {
            Rank::Before
        }
    } else if b.len() == 0 {
        Rank::After
    } else if a[0] < b[0] {
        Rank::Before
    } else if a[0] > b[0] {
        Rank::After
    } else {
        name_rank(a.drop_first(), b.drop_first())
    }
}

/// Name law: file names order as byte strings do (`OsStr`'s order on
/// Unix). A name ranks the same only as itself; a name comes before every
/// longer name it begins, which comes after it; otherwise the first byte in
/// which two names differ decides.
pub proof fn lemma_names_order_bytewise(a: Seq<u8>, b: Seq<u8>, s: Seq<u8>, i: int)
    ensures
        name_rank(a, b) == Rank::Same <==> a == b,
        s.len() > 0 ==> name_rank(a, a + s) == Rank::Before,
        s.len() > 0 ==> name_rank(a + s, a) == Rank::After,
        (0 <= i < a.len() && i < b.len() && a.take(i) == b.take(i) && a[i] < b[i]) ==> name_rank(a, b)
            == Rank::Before,
        (0 <= i < a.len() && i < b.len() && a.take(i) == b.take(i) && a[i] > b[i]) ==> name_rank(a, b)
            == Rank::After,
{
    lemma_name_rank_flip(a, b);
    if s.len() > 0 {
        lemma_name_rank_prefix(a, s);
    }
    if 0 <= i < a.len() && i < b.len() && a.take(i) == b.take(i) {
        lemma_name_rank_first_difference(a, b, i);
    }
}

proof fn lemma_name_rank_prefix(a: Seq<u8>, s: Seq<u8>)
    requires
        s.len() > 0,
    ensures
        name_rank(a, a + s) == Rank::Before,
        name_rank(a + s, a) == Rank::After,
    decreases a.len(),
{
    if a.len() == 0 {
        assert(a + s =~= s);
    } else {
        assert((a + s)[0] == a[0]);
        assert((a + s).drop_first() =~= a.drop_first() + s);
        lemma_name_rank_prefix(a.drop_first(), s);
    }
}

proof fn lemma_name_rank_first_difference(a: Seq<u8>, b: Seq<u8>, i: int)
    requires
        0 <= i < a.len(),
        i < b.len(),
        a.take(i) == b.take(i),
    ensures
        a[i] < b[i] ==> name_rank(a, b) == Rank::Before,
        a[i] > b[i] ==> name_rank(a, b) == Rank::After,
    decreases i,
{
    if i > 0 {
        assert(a[0] == a.take(i)[0]);
        assert(b[0] == b.take(i)[0]);
        assert(a.drop_first().take(i - 1) =~= a.take(i).drop_first());
        assert(b.drop_first().take(i - 1) =~= b.take(i).drop_first());
        lemma_name_rank_first_difference(a.drop_first(), b.drop_first(), i - 1);
    }
}

/// The rank of an `Ordering`.
pub open spec fn rank_of(o: Ordering) -> Rank {
    match o {
        Ordering::Less => Rank::Before,
        Ordering::Equal => Rank::Same,
        Ordering::Greater => Rank::After,
    }
}

/// Order of two optional keys: a missing key first, then the key's own order.
pub open spec fn key_rank<K: Ord>(a: Option<K>, b: Option<K>) -> Rank {
    match (a, b) {
        (None, None) => Rank::Same,
        (None, Some(_)) => Rank::Before,
        (Some(_), None) => Rank::After,
        (Some(x), Some(y)) => rank_of(x.cmp_spec(&y)),
    }
}

/// The order of two places: grouping, then key, then name.
pub open spec fn place_rank<K: Ord>(ag: bool, ak: Option<K>, an: Seq<u8>, bg: bool, bk: Option<K>, bn: Seq<u8>) -> Rank {
    if ag != bg {
        if !ag {
            Rank::Before
        } else {
            Rank::After
        }
    } else {
        match key_rank(ak, bk) {
            Rank::Same => name_rank(an, bn),
            o => o,
        }
    }
}

/// `a` may come before `b`.
pub open spec fn precedes<K: Ord, E>(a: Ordered<K, E>, b: Ordered<K, E>) -> bool {
    place_rank(a.grouped, a.key, a.name@, b.grouped, b.key, b.name@) != Rank::After
}

/// Every entry may come before the next one.
pub open spec fn in_order<K: Ord, E>(s: Seq<Ordered<K, E>>) -> bool {
    forall|i: int| 0 <= i < s.len() - 1 ==> #[trigger] precedes(s[i], s[i + 1])
}

/// The order of two places as far as it holds without comparing two keys:
/// grouping, then a missing key first, then, between two missing keys, the
/// name. Two keyed places of one group rank the same.
pub open spec fn settled_rank<K, E>(a: Ordered<K, E>, b: Ordered<K, E>) -> Rank {
    if a.grouped != b.grouped {
        if !a.grouped {
            Rank::Before
        } else {
            Rank::After
        }
    } else {
        match (a.key, b.key) {
            (None, None) => name_rank(a.name@, b.name@),
            (None, Some(_)) => Rank::Before,
            (Some(_), None) => Rank::After,
            (Some(_), Some(_)) => Rank::Same,
        }
    }
}

/// `a` may come before `b` as far as keys need not be compared.
pub open spec fn settled<K, E>(a: Ordered<K, E>, b: Ordered<K, E>) -> bool {
    settled_rank(a, b) != Rank::After
}

/// Every entry may come before the next one, as far as keys need not be
/// compared.
pub open spec fn settled_in_order<K, E>(s: Seq<Ordered<K, E>>) -> bool {
    forall|i: int| 0 <= i < s.len() - 1 ==> #[trigger] settled(s[i], s[i + 1])
}

/// Whether a candidate is a resolved directory.
pub open spec fn is_resolved_dir<E>(c: Candidate<E>) -> bool {
    match c.entry {
        Ok(n) => n.is_dir,
        Err(_) => false,
    }
}

/// Whether a candidate failed outright.
pub open spec fn is_failed<E>(c: Candidate<E>) -> bool {
    c.entry is Err
}

proof fn lemma_name_rank_flip(a: Seq<u8>, b: Seq<u8>)
    ensures
        name_rank(a, b) == Rank::Before <==> name_rank(b, a) == Rank::After,
        name_rank(a, b) == Rank::Same <==> name_rank(b, a) == Rank::Same,
        name_rank(a, b) == Rank::Same <==> a == b,
    decreases a.len(),
{
    if a.len() > 0 && b.len() > 0 && a[0] == b[0] {
        lemma_name_rank_flip(a.drop_first(), b.drop_first());
        if name_rank(a, b) == Rank::Same {
            assert(a =~= seq![a[0]] + a.drop_first());
            assert(b =~= seq![b[0]] + b.drop_first());
        }
    } else if a.len() == 0 && b.len() == 0 {
        assert(a =~= b);
    }
}

proof fn lemma_key_rank_flip<K: Ord>(a: Option<K>, b: Option<K>)
    requires
        obeys_cmp::<K>(),
    ensures
        key_rank(a, b) == Rank::Before <==> key_rank(b, a) == Rank::After,
        key_rank(a, b) == Rank::Same <==> key_rank(b, a) == Rank::Same,
{
    reveal(obeys_cmp_ord);
    reveal(obeys_partial_cmp_spec_properties);
    reveal(obeys_eq_spec_properties);
    reveal(obeys_cmp_partial_ord);
    match (a, b) {
        (Some(x), Some(y)) => {
            assert(x.partial_cmp_spec(&y) == Some(x.cmp_spec(&y)));
            assert(y.partial_cmp_spec(&x) == Some(y.cmp_spec(&x)));
            if x.cmp_spec(&y) == Ordering::Equal {
                assert(x.eq_spec(&y));
                assert(y.eq_spec(&x));
            }
            if y.cmp_spec(&x) == Ordering::Equal {
                assert(y.eq_spec(&x));
                assert(x.eq_spec(&y));
            }
        },
        _ => {},
    }
}

/// For keys with a lawful order, any two places are comparable one way or
/// the other.
pub proof fn lemma_precedes_total<K: Ord, E>(a: Ordered<K, E>, b: Ordered<K, E>)
    requires
        obeys_cmp::<K>(),
    ensures
        precedes(a, b) || precedes(b, a),
{
    lemma_key_rank_flip(a.key, b.key);
    lemma_name_rank_flip(a.name@, b.name@);
}

proof fn lemma_settled_flip<K, E>(a: Ordered<K, E>, b: Ordered<K, E>)
    ensures
        settled_rank(a, b) == Rank::After ==> settled_rank(b, a) == Rank::Before,
        settled(a, b) || settled(b, a),
{
    lemma_name_rank_flip(a.name@, b.name@);
}

proof fn lemma_settled_trans<K, E>(a: Ordered<K, E>, b: Ordered<K, E>, c: Ordered<K, E>)
    requires
        settled(a, b),
        settled(b, c),
    ensures
        settled(a, c),
{
    lemma_name_rank_flip(a.name@, b.name@);
    lemma_name_rank_flip(b.name@, c.name@);
    lemma_name_rank_flip(a.name@, c.name@);
    lemma_name_rank_trans(a.name@, b.name@, c.name@);
}

/// Where a key is missing, the settled order is the order itself.
proof fn lemma_settled_is_order<K: Ord, E>(a: Ordered<K, E>, b: Ordered<K, E>)
    requires
        a.key is None || b.key is None,
    ensures
        settled(a, b) == precedes(a, b),
{
}

/// An order settled step by step is settled between any two entries.
proof fn lemma_settled_pairwise<K, E>(s: Seq<Ordered<K, E>>)
    requires
        settled_in_order(s),
    ensures
        forall|i: int, j: int| 0 <= i < j < s.len() ==> #[trigger] settled(s[i], s[j]),
    decreases s.len(),
{
    if s.len() > 1 {
        let t = s.drop_last();
        assert forall|i: int| 0 <= i < t.len() - 1 implies #[trigger] settled(t[i], t[i + 1]) by {
            assert(settled(s[i], s[i + 1]));
        }
        lemma_settled_pairwise(t);
        assert forall|i: int, j: int| 0 <= i < j < s.len() implies #[trigger] settled(s[i], s[j]) by {
            if j < s.len() - 1 {
                assert(settled(t[i], t[j]));
            } else {
                let k = j - 1;
                assert(settled(s[k], s[k + 1]));
                if i < k {
                    assert(settled(t[i], t[k]));
                    lemma_settled_trans(s[i], s[k], s[j]);
                }
            }
        }
    }
}

/// Compares two file names byte by byte.
fn compare_names(a: &Vec<u8>, b: &Vec<u8>) -> (r: Rank)
    ensures
        r == name_rank(a@, b@),
{
    let mut i: usize = 0;
    assert(a@.skip(0) =~= a@);
    assert(b@.skip(0) =~= b@);
    while i < a.len() && i < b.len() && a[i] == b[i]
        invariant
            i <= a.len(),
            i <= b.len(),
            name_rank(a@, b@) == name_rank(a@.skip(i as int), b@.skip(i as int)),
        decreases a.len() - i,
    {
        assert(a@.skip(i as int).drop_first() =~= a@.skip(i + 1));
        assert(b@.skip(i as int).drop_first() =~= b@.skip(i + 1));
        i = i + 1;
    }
    if i == a.len() {
        if i == b.len() {
            Rank::Same
        } else {
            Rank::Before
        }
    } else if i == b.len() {
        Rank::After
    } else if a[i] < b[i] {
        Rank::Before
    } else {
        Rank::After
    }
}

/// Compares two optional keys.
fn key_cmp<K: Ord>(a: &Option<K>, b: &Option<K>) -> (r: Rank)
    ensures
        K::obeys_cmp_spec() ==> r == key_rank(*a, *b),
        (a is None || b is None) ==> r == key_rank(*a, *b),
{
    match (a, b) {
        (None, None) => Rank::Same,
        (None, Some(_)) => Rank::Before,
        (Some(_), None) => Rank::After,
        (Some(x), Some(y)) => match x.cmp(y) {
            Ordering::Less => Rank::Before,
            Ordering::Equal => Rank::Same,
            Ordering::Greater => Rank::After,
        },
    }
}

/// Whether `a` may come before `b`.
fn precedes_exec<K: Ord, E>(a: &Ordered<K, E>, b: &Ordered<K, E>) -> (r: bool)
    ensures
        K::obeys_cmp_spec() ==> r == precedes(*a, *b),
        !(a.key is Some && b.key is Some && a.grouped == b.grouped) ==> r == settled(*a, *b),
{
    if a.grouped != b.grouped {
        return !a.grouped;
    }
    match key_cmp(&a.key, &b.key) {
        Rank::Before => true,
        Rank::After => false,
        Rank::Same => match compare_names(&a.name, &b.name) {
            Rank::After => false,
            _ => true,
        },
    }
}

/// The items of a `Vec`, in order, in a double-ended queue.
pub(crate) fn to_queue<T>(v: Vec<T>) -> (r: VecDeque<T>)
    ensures
        r@ == v@,
{
    let ghost orig = v@;
    let mut v = v;
    let mut q: VecDeque<T> = VecDeque::new();
    while v.len() > 0
        invariant
            v@ == orig.take(v@.len() as int),
            q@ == orig.skip(v@.len() as int),
            v@.len() <= orig.len(),
        decreases v@.len(),
    {
        let x = v.pop().unwrap();
        q.push_front(x);
        assert(q@ =~= orig.skip(v@.len() as int));
        assert(v@ =~= orig.take(v@.len() as int));
    }
    assert(q@ =~= orig);
    q
}

/// Merges two ordered runs into one.
fn merge<K: Ord, E>(a: Vec<Ordered<K, E>>, b: Vec<Ordered<K, E>>) -> (r: Vec<Ordered<K, E>>)
    requires
        obeys_cmp::<K>() ==> in_order(a@),
        obeys_cmp::<K>() ==> in_order(b@),
        settled_in_order(a@),
        settled_in_order(b@),
    ensures
        r@.to_multiset() == a@.to_multiset().add(b@.to_multiset()),
        obeys_cmp::<K>() ==> in_order(r@),
        settled_in_order(r@),
{
    broadcast use vstd::seq_lib::group_to_multiset_ensures;
    broadcast use vstd::multiset::group_multiset_axioms;

    let ghost a0 = a@;
    let ghost b0 = b@;
    let mut qa = to_queue(a);
    let mut qb = to_queue(b);
    let mut out: Vec<Ordered<K, E>> = Vec::new();
    let ghost lawful = obeys_cmp::<K>();
    proof {
        if lawful {
            reveal(obeys_cmp_ord);
        }
        assert(a0.skip(0) =~= a0);
        assert(b0.skip(0) =~= b0);
    }
    while qa.len() > 0 || qb.len() > 0
        invariant
            lawful == obeys_cmp::<K>(),
            lawful ==> K::obeys_cmp_spec(),
            qa@.len() <= a0.len(),
            qb@.len() <= b0.len(),
            qa@ == a0.skip(a0.len() - qa@.len()),
            qb@ == b0.skip(b0.len() - qb@.len()),
            out@.to_multiset().add(qa@.to_multiset()).add(qb@.to_multiset()) == a0.to_multiset().add(
                b0.to_multiset(),
            ),
            lawful ==> in_order(a0),
            lawful ==> in_order(b0),
            lawful ==> in_order(out@),
            lawful && out@.len() > 0 && qa@.len() > 0 ==> precedes(out@.last(), qa@[0]),
            lawful && out@.len() > 0 && qb@.len() > 0 ==> precedes(out@.last(), qb@[0]),
            settled_in_order(a0),
            settled_in_order(b0),
            settled_in_order(out@),
            out@.len() > 0 && qa@.len() > 0 ==> settled(out@.last(), qa@[0]),
            out@.len() > 0 && qb@.len() > 0 ==> settled(out@.last(), qb@[0]),
        decreases qa@.len() + qb@.len(),
    {
        let ghost qa0 = qa@;
        let ghost qb0 = qb@;
        let ghost out0 = out@;
        let take_a = if qa.len() == 0 {
            false
        } else if qb.len() == 0 {
            true
        } else {
            precedes_exec(&qa[0], &qb[0])
        };
        if take_a {
            let x = qa.pop_front().unwrap();
            out.push(x);
            proof {
                assert(qa0.remove(0) =~= qa@);
                assert(qa0[0] == x);
                qa0.to_multiset_ensures();
                out0.to_multiset_ensures();
                assert(qa0.remove(0).to_multiset() =~= qa0.to_multiset().remove(qa0[0]));
                assert(qa@.to_multiset() =~= qa0.to_multiset().remove(x));
                assert(qa0.contains(x));
                assert(qa0.to_multiset().count(x) > 0);
                assert(qa0.to_multiset() =~= qa@.to_multiset().insert(x));
                assert(out@.to_multiset() =~= out0.to_multiset().insert(x));
                assert(qa@ =~= a0.skip(a0.len() - qa@.len()));
                if qa@.len() > 0 {
                    let k = a0.len() - qa0.len();
                    assert(a0[k] == x);
                    assert(a0[k + 1] == qa@[0]);
                    assert(settled(a0[k], a0[k + 1]));
                }
                if qb@.len() > 0 {
                    assert(qb@ == qb0);
                    assert(settled(x, qb@[0]));
                }
                assert forall|i: int| 0 <= i < out@.len() - 1 implies #[trigger] settled(out@[i], out@[i + 1]) by {
                    if i < out0.len() - 1 {
                        assert(out@[i] == out0[i]);
                        assert(out@[i + 1] == out0[i + 1]);
                    }
                }
                if lawful {
                    if qa@.len() > 0 {
                        let k = a0.len() - qa0.len();
                        assert(a0[k] == x);
                        assert(a0[k + 1] == qa@[0]);
                        assert(precedes(a0[k], a0[k + 1]));
                    }
                    if qb@.len() > 0 && qb0.len() > 0 {
                        assert(precedes(x, qb@[0]));
                    }
                    assert forall|i: int| 0 <= i < out@.len() - 1 implies #[trigger] precedes(
                        out@[i],
                        out@[i + 1],
                    ) by {
                        if i < out0.len() - 1 {
                            assert(out@[i] == out0[i]);
                            assert(out@[i + 1] == out0[i + 1]);
                        }
                    }
                }
            }
        } else {
            let y = qb.pop_front().unwrap();
            out.push(y);
            proof {
                assert(qb0.remove(0) =~= qb@);
                assert(qb0[0] == y);
                qb0.to_multiset_ensures();
                out0.to_multiset_ensures();
                assert(qb0.remove(0).to_multiset() =~= qb0.to_multiset().remove(qb0[0]));
                assert(qb@.to_multiset() =~= qb0.to_multiset().remove(y));
                assert(qb0.contains(y));
                assert(qb0.to_multiset().count(y) > 0);
                assert(qb0.to_multiset() =~= qb@.to_multiset().insert(y));
                assert(out@.to_multiset() =~= out0.to_multiset().insert(y));
                assert(qb@ =~= b0.skip(b0.len() - qb@.len()));
                if qb@.len() > 0 {
                    let k = b0.len() - qb0.len();
                    assert(b0[k] == y);
                    assert(b0[k + 1] == qb@[0]);
                    assert(settled(b0[k], b0[k + 1]));
                }
                if qa@.len() > 0 {
                    lemma_settled_flip(qa@[0], y);
                    assert(settled(y, qa@[0]));
                }
                assert forall|i: int| 0 <= i < out@.len() - 1 implies #[trigger] settled(out@[i], out@[i + 1]) by {
                    if i < out0.len() - 1 {
                        assert(out@[i] == out0[i]);
                        assert(out@[i + 1] == out0[i + 1]);
                    }
                }
                if lawful {
                    if qb@.len() > 0 {
                        let k = b0.len() - qb0.len();
                        assert(b0[k] == y);
                        assert(b0[k + 1] == qb@[0]);
                        assert(precedes(b0[k], b0[k + 1]));
                    }
                    if qa@.len() > 0 {
                        lemma_precedes_total(qa@[0], y);
                    }
                    assert forall|i: int| 0 <= i < out@.len() - 1 implies #[trigger] precedes(
                        out@[i],
                        out@[i + 1],
                    ) by {
                        if i < out0.len() - 1 {
                            assert(out@[i] == out0[i]);
                            assert(out@[i + 1] == out0[i + 1]);
                        }
                    }
                }
            }
        }
    }
    proof {
        assert(qa@ =~= Seq::<Ordered<K, E>>::empty());
        assert(qb@ =~= Seq::<Ordered<K, E>>::empty());
    }
    out
}

/// Sorts places into their order (stable merge sort).
fn sort_places<K: Ord, E>(v: Vec<Ordered<K, E>>) -> (r: Vec<Ordered<K, E>>)
    ensures
        r@.to_multiset() == v@.to_multiset(),
        obeys_cmp::<K>() ==> in_order(r@),
        settled_in_order(r@),
    decreases v@.len(),
{
    if v.len() <= 1 {
        return v;
    }
    let ghost whole = v@;
    let mid = v.len() / 2;
    let mut left = v;
    let right = left.split_off(mid);
    proof {
        assert(whole =~= left@ + right@);
        vstd::seq_lib::lemma_multiset_commutative(left@, right@);
    }
    let l = sort_places(left);
    let r = sort_places(right);
    merge(l, r)
}


/// The place of one entry in its directory's order: grouped unless it is a
/// resolved directory (when grouping), and keyless if it failed.
pub fn place<K, E>(candidate: Candidate<E>, key: Option<K>, name: Vec<u8>, group_dir: bool) -> (r: Ordered<K, E>)
    ensures
        r.grouped == (group_dir && !is_resolved_dir(candidate)),
        r.key == (if is_failed(candidate) { None } else { key }),
        r.name == name,
        r.candidate == candidate,
{
    let (is_dir, failed) = match &candidate.entry {
        Ok(n) => (n.is_dir, false),
        Err(_) => (false, true),
    };
    let key = if failed { None } else { key };
    Ordered { grouped: group_dir && !is_dir, key, name, candidate }
}

/// The place of one entry when there is no sort key: grouping, then failed
/// entries, then the name. Every resolved entry gets the same key.
pub fn place_unkeyed<E>(candidate: Candidate<E>, name: Vec<u8>, group_dir: bool) -> (r: Ordered<u8, E>)
    ensures
        r.grouped == (group_dir && !is_resolved_dir(candidate)),
        r.key == (if is_failed(candidate) { None } else { Some(0u8) }),
        r.name == name,
        r.candidate == candidate,
{
    place(candidate, Some(0u8), name, group_dir)
}

/// Orders the entries of one directory by grouping, failure, key and name.
///
/// The result holds the same entries; it is in order whenever the key type's
/// `Ord` obeys the laws of a total order, and, whatever the key type, every
/// entry without a key (one that failed) stands in order with every other
/// entry: by grouping, then ahead of every keyed entry, then by name.
pub fn sort_by_key<K: Ord, E>(places: Vec<Ordered<K, E>>) -> (r: Vec<Ordered<K, E>>)
    ensures
        r@.to_multiset() == places@.to_multiset(),
        obeys_cmp::<K>() ==> in_order(r@),
        forall|i: int, j: int|
            0 <= i < j < r@.len() && (r@[i].key is None || r@[j].key is None) ==> #[trigger] precedes(
                r@[i],
                r@[j],
            ),
{
    let r = sort_places(places);
    proof {
        lemma_settled_pairwise(r@);
        assert forall|i: int, j: int|
            0 <= i < j < r@.len() && (r@[i].key is None || r@[j].key is None) implies #[trigger] precedes(
            r@[i],
            r@[j],
        ) by {
            assert(settled(r@[i], r@[j]));
            lemma_settled_is_order(r@[i], r@[j]);
        }
    }
    r
}

/// Orders the entries of one directory by grouping, failure and name.
pub fn sort_grouped<E>(places: Vec<Ordered<u8, E>>) -> (r: Vec<Ordered<u8, E>>)
    ensures
        r@.to_multiset() == places@.to_multiset(),
        in_order(r@),
{
    broadcast use vstd::laws_cmp::group_laws_cmp;

    sort_places(places)
}

/// The entries of an ordered directory, in order.
pub fn into_candidates<K, E>(places: Vec<Ordered<K, E>>) -> (r: Vec<Candidate<E>>)
    ensures
        r@ == places@.map_values(|p: Ordered<K, E>| p.candidate),
{
    let ghost orig = places@;
    let mut q = to_queue(places);
    let mut out: Vec<Candidate<E>> = Vec::new();
    while q.len() > 0
        invariant
            q@.len() <= orig.len(),
            q@ == orig.skip(orig.len() - q@.len()),
            out@ == orig.take(orig.len() - q@.len()).map_values(|p: Ordered<K, E>| p.candidate),
        decreases q@.len(),
    {
        let ghost k = orig.len() - q@.len();
        let p = q.pop_front().unwrap();
        out.push(p.candidate);
        assert(q@ =~= orig.skip(orig.len() - q@.len()));
        assert(orig.take(k + 1) =~= orig.take(k).push(orig[k]));
        assert(out@ =~= orig.take(k + 1).map_values(|p: Ordered<K, E>| p.candidate));
    }
    assert(orig.take(orig.len() as int) =~= orig);
    out
}

/// Splits a directory's entries into those that failed outright and those
/// that resolved, each in the order given.
pub fn split_failed<E>(entries: Vec<Candidate<E>>) -> (r: (Vec<Candidate<E>>, Vec<Candidate<E>>))
    ensures
        r.0@ == entries@.filter(|c: Candidate<E>| is_failed(c)),
        r.1@ == entries@.filter(|c: Candidate<E>| !is_failed(c)),
{
    let ghost orig = entries@;
    let ghost pf = |c: Candidate<E>| is_failed(c);
    let ghost pr = |c: Candidate<E>| !is_failed(c);
    let mut q = to_queue(entries);
    let mut failed: Vec<Candidate<E>> = Vec::new();
    let mut resolved: Vec<Candidate<E>> = Vec::new();
    proof {
        reveal(Seq::filter);
        assert(orig.take(0).filter(pf) =~= Seq::<Candidate<E>>::empty());
        assert(orig.take(0).filter(pr) =~= Seq::<Candidate<E>>::empty());
        assert(orig.skip(0) =~= orig);
    }
    while q.len() > 0
        invariant
            q@.len() <= orig.len(),
            q@ == orig.skip(orig.len() - q@.len()),
            failed@ == orig.take(orig.len() - q@.len()).filter(pf),
            resolved@ == orig.take(orig.len() - q@.len()).filter(pr),
            pf == (|c: Candidate<E>| is_failed(c)),
            pr == (|c: Candidate<E>| !is_failed(c)),
        decreases q@.len(),
    {
        let ghost k = orig.len() - q@.len();
        let c = q.pop_front().unwrap();
        proof {
            reveal(Seq::filter);
            assert(orig.take(k + 1).drop_last() =~= orig.take(k));
            assert(orig.take(k + 1).last() == c);
        }
        let is_err = match &c.entry {
            Ok(_) => false,
            Err(_) => true,
        };
        if is_err {
            failed.push(c);
        } else {
            resolved.push(c);
        }
        assert(q@ =~= orig.skip(orig.len() - q@.len()));
    }
    assert(orig.take(orig.len() as int) =~= orig);
    (failed, resolved)
}

/// Failed entries first, then the rest.
pub fn failed_first<E>(failed: Vec<Candidate<E>>, rest: Vec<Candidate<E>>) -> (r: Vec<Candidate<E>>)
    ensures
        r@ == failed@ + rest@,
{
    let mut out = failed;
    let mut rest = rest;
    out.append(&mut rest);
    out
}

/// Places resolved directories ahead of every other entry, keeping the
/// relative order within both groups.
pub fn group_dirs<E>(entries: Vec<Candidate<E>>) -> (r: Vec<Candidate<E>>)
    ensures
        r@ == entries@.filter(|c: Candidate<E>| is_resolved_dir(c)) + entries@.filter(
            |c: Candidate<E>| !is_resolved_dir(c),
        ),
{
    let ghost orig = entries@;
    let ghost pd = |c: Candidate<E>| is_resolved_dir(c);
    let ghost po = |c: Candidate<E>| !is_resolved_dir(c);
    let mut q = to_queue(entries);
    let mut dirs: Vec<Candidate<E>> = Vec::new();
    let mut others: Vec<Candidate<E>> = Vec::new();
    proof {
        reveal(Seq::filter);
        assert(orig.take(0).filter(pd) =~= Seq::<Candidate<E>>::empty());
        assert(orig.take(0).filter(po) =~= Seq::<Candidate<E>>::empty());
        assert(orig.skip(0) =~= orig);
    }
    while q.len() > 0
        invariant
            q@.len() <= orig.len(),
            q@ == orig.skip(orig.len() - q@.len()),
            dirs@ == orig.take(orig.len() - q@.len()).filter(pd),
            others@ == orig.take(orig.len() - q@.len()).filter(po),
            pd == (|c: Candidate<E>| is_resolved_dir(c)),
            po == (|c: Candidate<E>| !is_resolved_dir(c)),
        decreases q@.len(),
    {
        let ghost k = orig.len() - q@.len();
        let c = q.pop_front().unwrap();
        proof {
            reveal(Seq::filter);
            assert(orig.take(k + 1).drop_last() =~= orig.take(k));
            assert(orig.take(k + 1).last() == c);
        }
        let is_dir = match &c.entry {
            Ok(n) => n.is_dir,
            Err(_) => false,
        };
        if is_dir {
            dirs.push(c);
        } else {
            others.push(c);
        }
        assert(q@ =~= orig.skip(orig.len() - q@.len()));
    }
    assert(orig.take(orig.len() as int) =~= orig);
    dirs.append(&mut others);
    dirs
}


/// The resolved directories of `s` come before everything else.
pub open spec fn dirs_first<E>(s: Seq<Candidate<E>>) -> bool {
    forall|i: int, j: int| 0 <= i < j < s.len() && is_resolved_dir(#[trigger] s[j]) ==> is_resolved_dir(#[trigger] s[i])
}

/// A directory's children as the synchronous walker hands them over: as
/// given, or, with `group_dir`, the resolved directories first, each group
/// keeping its order.
pub open spec fn arranged<E>(s: Seq<Candidate<E>>, group_dir: bool) -> Seq<Candidate<E>> {
    if group_dir {
        s.filter(|c: Candidate<E>| is_resolved_dir(c)) + s.filter(|c: Candidate<E>| !is_resolved_dir(c))
    } else {
        s
    }
}

/// A listing arranged with `group_dir` has its resolved directories first.
pub proof fn lemma_grouped_listing_dirs_first<E>(s: Seq<Candidate<E>>)
    ensures
        dirs_first(arranged(s, true)),
{
    let pd = |c: Candidate<E>| is_resolved_dir(c);
    let pn = |c: Candidate<E>| !is_resolved_dir(c);
    let a = s.filter(pd);
    let b = s.filter(pn);
    let r = a + b;
    assert(arranged(s, true) == r);
    assert forall|i: int, j: int| 0 <= i < j < r.len() && is_resolved_dir(#[trigger] r[j]) implies is_resolved_dir(
        #[trigger] r[i],
    ) by {
        if j >= a.len() {
            s.lemma_filter_pred(pn, j - a.len());
            assert(r[j] == b[j - a.len()]);
        } else {
            s.lemma_filter_pred(pd, i);
            assert(r[i] == a[i]);
        }
    }
}

/// The listing the synchronous walker reads into a directory: the entries
/// that failed, then the resolved ones in their (compared) order, grouped
/// when `group_dir` is set. Without a comparator, `failed` is empty and
/// `resolved` holds every entry in read order.
pub fn listing_order<E>(failed: Vec<Candidate<E>>, resolved: Vec<Candidate<E>>, group_dir: bool) -> (r: Vec<Candidate<E>>)
    ensures
        r@ == arranged(failed@ + resolved@, group_dir),
{
    let joined = failed_first(failed, resolved);
    if group_dir {
        group_dirs(joined)
    } else {
        joined
    }
}

/// `s` is `places` sorted as [`sort_by_key`] sorts them, and `r` their
/// entries in that order.
pub open spec fn sorted_listing<K: Ord, E>(places: Seq<Ordered<K, E>>, s: Seq<Ordered<K, E>>, r: Seq<Candidate<E>>) -> bool {
    &&& s.to_multiset() == places.to_multiset()
    &&& obeys_cmp::<K>() ==> in_order(s)
    &&& forall|i: int, j: int|
        0 <= i < j < s.len() && (s[i].key is None || s[j].key is None) ==> #[trigger] precedes(s[i], s[j])
    &&& r == s.map_values(|p: Ordered<K, E>| p.candidate)
}

/// The listing the asynchronous walker reads into a directory: its places
/// sorted as [`sort_by_key`] sorts them, each yielding its entry.
pub fn listing_by_key<K: Ord, E>(places: Vec<Ordered<K, E>>) -> (r: Vec<Candidate<E>>)
    ensures
        exists|s: Seq<Ordered<K, E>>| #[trigger] sorted_listing(places@, s, r@),
{
    let ghost p0 = places@;
    let sorted = sort_by_key(places);
    let ghost s = sorted@;
    let r = into_candidates(sorted);
    assert(sorted_listing(p0, s, r@));
    r
}

/// No two entries share a file name, as in one directory.
pub open spec fn distinct_names<K, E>(s: Seq<Ordered<K, E>>) -> bool {
    forall|i: int, j: int| 0 <= i < j < s.len() ==> s[i].name@ != s[j].name@
}

/// Every entry may come before every later one.
pub open spec fn fully_in_order<K: Ord, E>(s: Seq<Ordered<K, E>>) -> bool {
    forall|i: int, j: int| 0 <= i < j < s.len() ==> #[trigger] precedes(s[i], s[j])
}

proof fn lemma_name_rank_trans(a: Seq<u8>, b: Seq<u8>, c: Seq<u8>)
    ensures
        name_rank(a, b) == Rank::Before && name_rank(b, c) == Rank::Before ==> name_rank(a, c)
            == Rank::Before,
    decreases a.len(),
{
    if a.len() > 0 && b.len() > 0 && c.len() > 0 {
        lemma_name_rank_trans(a.drop_first(), b.drop_first(), c.drop_first());
    }
}

proof fn lemma_key_rank_trans<K: Ord>(a: Option<K>, b: Option<K>, c: Option<K>)
    requires
        obeys_cmp::<K>(),
        obeys_concrete_eq::<K>(),
    ensures
        key_rank(a, b) == Rank::Same <==> a == b,
        key_rank(a, b) == Rank::Before && key_rank(b, c) == Rank::Before ==> key_rank(a, c)
            == Rank::Before,
{
    reveal(obeys_cmp_ord);
    reveal(obeys_partial_cmp_spec_properties);
    reveal(obeys_cmp_partial_ord);
    reveal(obeys_concrete_eq);
    match (a, b) {
        (Some(x), Some(y)) => {
            assert(x.partial_cmp_spec(&y) == Some(x.cmp_spec(&y)));
            if x == y {
                assert(x.eq_spec(&y));
            }
        },
        _ => {},
    }
    match (a, b, c) {
        (Some(x), Some(y), Some(z)) => {
            assert(x.partial_cmp_spec(&y) == Some(x.cmp_spec(&y)));
            assert(y.partial_cmp_spec(&z) == Some(y.cmp_spec(&z)));
            assert(x.partial_cmp_spec(&z) == Some(x.cmp_spec(&z)));
        },
        _ => {},
    }
}

/// For keys whose order is a lawful total order and whose equality is plain
/// equality, the order of places is transitive.
pub proof fn lemma_precedes_transitive<K: Ord, E>(a: Ordered<K, E>, b: Ordered<K, E>, c: Ordered<K, E>)
    requires
        obeys_cmp::<K>(),
        obeys_concrete_eq::<K>(),
        precedes(a, b),
        precedes(b, c),
    ensures
        precedes(a, c),
{
    lemma_key_rank_trans(a.key, b.key, c.key);
    lemma_key_rank_trans(b.key, c.key, a.key);
    lemma_key_rank_trans(a.key, c.key, b.key);
    lemma_name_rank_flip(a.name@, b.name@);
    lemma_name_rank_flip(b.name@, c.name@);
    lemma_name_rank_flip(a.name@, c.name@);
    lemma_name_rank_trans(a.name@, b.name@, c.name@);
}

proof fn lemma_precedes_both_ways<K: Ord, E>(a: Ordered<K, E>, b: Ordered<K, E>)
    requires
        obeys_cmp::<K>(),
        precedes(a, b),
        precedes(b, a),
    ensures
        a.name@ == b.name@,
{
    lemma_key_rank_flip(a.key, b.key);
    lemma_name_rank_flip(a.name@, b.name@);
}

proof fn lemma_fully_in_order<K: Ord, E>(s: Seq<Ordered<K, E>>)
    requires
        obeys_cmp::<K>(),
        obeys_concrete_eq::<K>(),
        in_order(s),
    ensures
        fully_in_order(s),
    decreases s.len(),
{
    if s.len() > 1 {
        let t = s.drop_last();
        assert forall|i: int| 0 <= i < t.len() - 1 implies #[trigger] precedes(t[i], t[i + 1]) by {
            assert(precedes(s[i], s[i + 1]));
        }
        lemma_fully_in_order(t);
        assert forall|i: int, j: int| 0 <= i < j < s.len() implies #[trigger] precedes(s[i], s[j]) by {
            if j < s.len() - 1 {
                assert(precedes(t[i], t[j]));
            } else {
                let k = j - 1;
                assert(precedes(s[k], s[k + 1]));
                assert(s[k + 1] == s[j]);
                if i < k {
                    assert(precedes(t[i], t[k]));
                    lemma_precedes_transitive(s[i], s[k], s[j]);
                }
            }
        }
    }
}

proof fn lemma_unique_in_order<K: Ord, E>(x: Seq<Ordered<K, E>>, y: Seq<Ordered<K, E>>)
    requires
        obeys_cmp::<K>(),
        obeys_concrete_eq::<K>(),
        fully_in_order(x),
        fully_in_order(y),
        distinct_names(x),
        x.to_multiset() == y.to_multiset(),
    ensures
        x == y,
    decreases x.len(),
{
    broadcast use vstd::seq_lib::group_to_multiset_ensures;
    broadcast use vstd::multiset::group_multiset_axioms;

    x.to_multiset_ensures();
    y.to_multiset_ensures();
    if x.len() == 0 || y.len() == 0 {
        assert(x =~= y);
    } else {
        assert(x.to_multiset().contains(y[0])) by {
            assert(y.contains(y[0]));
        }
        assert(y.to_multiset().contains(x[0])) by {
            assert(x.contains(x[0]));
        }
        let i = choose|i: int| 0 <= i < x.len() && x[i] == y[0];
        let j = choose|j: int| 0 <= j < y.len() && y[j] == x[0];
        if i > 0 {
            assert(precedes(x[0], x[i]));
        }
        if j > 0 {
            assert(precedes(y[0], y[j]));
        }
        lemma_precedes_total(x[0], y[0]);
        if i > 0 && j > 0 {
            lemma_precedes_both_ways(x[0], y[0]);
            assert(x[0].name@ == x[i].name@);
        }
        assert(x[0] == y[0]);
        let x1 = x.drop_first();
        let y1 = y.drop_first();
        assert(x.remove(0) =~= x1);
        assert(y.remove(0) =~= y1);
        assert(x1.to_multiset() =~= x.to_multiset().remove(x[0]));
        assert(y1.to_multiset() =~= y.to_multiset().remove(y[0]));
        assert forall|a: int, b: int| 0 <= a < b < x1.len() implies #[trigger] precedes(x1[a], x1[b]) by {
            assert(precedes(x[a + 1], x[b + 1]));
        }
        assert forall|a: int, b: int| 0 <= a < b < y1.len() implies #[trigger] precedes(y1[a], y1[b]) by {
            assert(precedes(y[a + 1], y[b + 1]));
        }
        lemma_unique_in_order(x1, y1);
        assert(x =~= seq![x[0]] + x1);
        assert(y =~= seq![y[0]] + y1);
    }
}

/// Reproducibility law: within one directory (file names distinct), two
/// orderings of the same entries are identical, whatever order the entries
/// arrived in — so neither the order a directory is read in nor the order in
/// which concurrent resolves complete can change the order of the walk. It
/// holds for any sort key whose `Ord` is a lawful total order with plain
/// equality, as it is for integers, and for the unkeyed order.
pub proof fn lemma_order_is_reproducible<K: Ord, E>(x: Seq<Ordered<K, E>>, y: Seq<Ordered<K, E>>)
    requires
        obeys_cmp::<K>(),
        obeys_concrete_eq::<K>(),
        in_order(x),
        in_order(y),
        distinct_names(x),
        x.to_multiset() == y.to_multiset(),
    ensures
        x == y,
{
    lemma_fully_in_order(x);
    lemma_fully_in_order(y);
    lemma_unique_in_order(x, y);
}

} // verus!
