//! Bounded fan-out bookkeeping: results are placed by input position, never
//! by completion order, so concurrency cannot influence the order of a walk.
use vstd::prelude::*;

verus! {

/// Whether the fan-out runs one item after another: a concurrency of one,
/// or at most one item.
pub fn runs_sequentially(concurrency: usize, items: usize) -> (r: bool)
    ensures
        r == (concurrency <= 1 || items <= 1),
{
    concurrency <= 1 || items <= 1
}

/// How many tasks start before the first one completes: one per permitted
/// slot, but no more than there are items. Each completion then starts the
/// next queued item, so at most `concurrency` are ever in flight.
pub fn initial_spawns(concurrency: usize, items: usize) -> (r: usize)
    ensures
        r <= concurrency,
        r <= items,
        r == concurrency || r == items,
{
    if concurrency < items {
        concurrency
    } else {
        items
    }
}

/// One slot per input item, filled as results complete.
pub struct Slots<U> {
    slots: Vec<Option<U>>,
}

impl<U> View for Slots<U> {
    type V = Seq<Option<U>>;

    closed spec fn view(&self) -> Seq<Option<U>> {
        self.slots@
    }
}

/// `n` empty slots.
pub open spec fn empty_slots<U>(n: nat) -> Seq<Option<U>> {
    Seq::new(n, |i: int| None::<U>)
}

/// Every slot holds a result.
pub open spec fn all_filled<U>(s: Seq<Option<U>>) -> bool {
    forall|i: int| 0 <= i < s.len() ==> #[trigger] s[i] is Some
}

impl<U> Slots<U> {
    /// `n` empty slots.
    pub fn new(n: usize) -> (r: Slots<U>)
        ensures
            r@ == empty_slots::<U>(n as nat),
    {
        let mut slots: Vec<Option<U>> = Vec::new();
        let mut k: usize = 0;
        while k < n
            invariant
                k <= n,
                slots@ == Seq::new(k as nat, |i: int| None::<U>),
            decreases n - k,
        {
            slots.push(None);
            k = k + 1;
            assert(slots@ =~= Seq::new(k as nat, |i: int| None::<U>));
        }
        Slots { slots }
    }

    /// The number of slots.
    pub fn len(&self) -> (r: usize)
        ensures
            r == self@.len(),
    {
        self.slots.len()
    }

    /// Places the result of item `index`.
    pub fn fill(&mut self, index: usize, value: U)
        requires
            index < old(self)@.len(),
        ensures
            final(self)@ == old(self)@.update(index as int, Some(value)),
    {
        self.slots.set(index, Some(value));
    }

    /// Whether every item's result has arrived.
    pub fn is_full(&self) -> (r: bool)
        ensures
            r == all_filled(self@),
    {
        let mut i: usize = 0;
        while i < self.slots.len()
            invariant
                i <= self.slots@.len(),
                forall|j: int| 0 <= j < i ==> #[trigger] self.slots@[j] is Some,
            decreases self.slots@.len() - i,
        {
            if self.slots[i].is_none() {
                return false;
            }
            i = i + 1;
        }
        true
    }

    /// The results, by input position.
    pub fn into_values(self) -> (r: Vec<U>)
        requires
            all_filled(self@),
        ensures
            r@.len() == self@.len(),
            forall|i: int| 0 <= i < r@.len() ==> Some(#[trigger] r@[i]) == self@[i],
    {
        let ghost orig = self@;
        let mut slots = self.slots;
        let mut out: Vec<U> = Vec::new();
        let mut rev: Vec<U> = Vec::new();
        while slots.len() > 0
            invariant
                slots@.len() <= orig.len(),
                slots@ == orig.take(slots@.len() as int),
                rev@.len() == orig.len() - slots@.len(),
                forall|i: int| 0 <= i < rev@.len() ==> Some(#[trigger] rev@[i]) == orig[orig.len() - 1 - i],
                all_filled(orig),
            decreases slots@.len(),
        {
            let k = slots.len() - 1;
            let v = slots.pop().unwrap();
            assert(v == orig[k as int]);
            assert(orig[k as int] is Some);
            let x = v.unwrap();
            rev.push(x);
            assert(slots@ =~= orig.take(slots@.len() as int));
        }
        while rev.len() > 0
            invariant
                rev@.len() + out@.len() == orig.len(),
                forall|i: int| 0 <= i < rev@.len() ==> Some(#[trigger] rev@[i]) == orig[orig.len() - 1 - i],
                forall|i: int| 0 <= i < out@.len() ==> Some(#[trigger] out@[i]) == orig[i],
            decreases rev@.len(),
        {
            let x = rev.pop().unwrap();
            out.push(x);
        }
        out
    }
}

/// The slots after results arrive in the order `order`: item `order[k]`
/// completes `k`-th with value `values[order[k]]`.
pub open spec fn fill_in<U>(slots: Seq<Option<U>>, order: Seq<usize>, values: Seq<U>) -> Seq<Option<U>>
    decreases order.len(),
{
    if order.len() == 0 {
        slots
    } else {
        let i = order.last();
        fill_in(slots, order.drop_last(), values).update(i as int, Some(values[i as int]))
    }
}

proof fn lemma_fill_in<U>(n: nat, order: Seq<usize>, values: Seq<U>)
    requires
        values.len() == n,
        n <= usize::MAX,
        forall|k: int| 0 <= k < order.len() ==> #[trigger] order[k] < n,
    ensures
        fill_in(empty_slots::<U>(n), order, values).len() == n,
        forall|i: usize| i < n ==> #[trigger] fill_in(empty_slots::<U>(n), order, values)[i as int]
            == (if order.contains(i) { Some(values[i as int]) } else { None }),
    decreases order.len(),
{
    if order.len() > 0 {
        let prefix = order.drop_last();
        assert forall|k: int| 0 <= k < prefix.len() implies #[trigger] prefix[k] < n by {
            assert(prefix[k] == order[k]);
        }
        lemma_fill_in(n, prefix, values);
        assert forall|i: usize| i < n implies #[trigger] fill_in(empty_slots::<U>(n), order, values)[i as int]
            == (if order.contains(i) { Some(values[i as int]) } else { None }) by {
            if order.contains(i) && i != order.last() {
                let k = choose|k: int| 0 <= k < order.len() && order[k] == i;
                assert(k < order.len() - 1);
                assert(prefix[k] == i);
            }
            if prefix.contains(i) {
                let k = choose|k: int| 0 <= k < prefix.len() && prefix[k] == i;
                assert(order[k] == i);
            }
            if i == order.last() {
                assert(order[order.len() - 1] == i);
            }
        }
    }
}

/// Placement law: whatever order the results complete in, once every item
/// has completed the slots hold each item's result at its own position.
pub proof fn lemma_completion_order_is_irrelevant<U>(values: Seq<U>, order: Seq<usize>)
    requires
        values.len() <= usize::MAX,
        forall|k: int| 0 <= k < order.len() ==> #[trigger] order[k] < values.len(),
        forall|i: usize| i < values.len() ==> #[trigger] order.contains(i),
    ensures
        fill_in(empty_slots::<U>(values.len()), order, values) == values.map_values(
            |v: U| Some(v),
        ),
{
    lemma_fill_in(values.len(), order, values);
    assert forall|i: int| 0 <= i < values.len() implies #[trigger] fill_in(empty_slots::<U>(values.len()), order, values)[i]
        == Some(values[i]) by {
        let u = i as usize;
        assert(u as int == i);
        assert(order.contains(u));
    }
    assert(fill_in(empty_slots::<U>(values.len()), order, values) =~= values.map_values(
        |v: U| Some(v),
    ));
}

} // verus!
