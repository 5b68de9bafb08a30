//! Pagination of a walk: `skip(offset).take(limit)` over the entries the walk
//! would otherwise yield.
use vstd::prelude::*;

verus! {

/// Counts what has been skipped and yielded so far.
#[derive(Clone, Copy, Debug)]
pub struct Pager {
    limit: usize,
    offset: usize,
    yielded: usize,
    skipped: usize,
}

/// What a [`Pager`] holds.
pub struct PagerView {
    pub limit: nat,
    pub offset: nat,
    pub yielded: nat,
    pub skipped: nat,
}

impl View for Pager {
    type V = PagerView;

    closed spec fn view(&self) -> PagerView {
        PagerView {
            limit: self.limit as nat,
            offset: self.offset as nat,
            yielded: self.yielded as nat,
            skipped: self.skipped as nat,
        }
    }
}

impl PagerView {
    /// Nothing more may be yielded: the walk ends without fetching.
    pub open spec fn exhausted(self) -> bool {
        self.yielded >= self.limit
    }

    /// The pager after one fetched entry: skipped while the offset is not
    /// reached, yielded afterwards.
    pub open spec fn advance(self) -> PagerView {
        if self.skipped < self.offset {
            PagerView { skipped: self.skipped + 1, ..self }
        } else {
            PagerView { yielded: self.yielded + 1, ..self }
        }
    }

    /// Whether the next fetched entry is yielded.
    pub open spec fn emits(self) -> bool {
        self.skipped >= self.offset
    }

    /// The counters stay within their bounds, and nothing is yielded before
    /// the offset is reached.
    pub open spec fn wf(self) -> bool {
        &&& self.yielded <= self.limit
        &&& self.skipped <= self.offset
        &&& self.skipped < self.offset ==> self.yielded == 0
    }
}

/// What a paged walk yields of the unpaged sequence `s`, starting from the
/// pager state `p`: each entry is fetched only while the limit is not reached.
pub open spec fn paged_run<T>(p: PagerView, s: Seq<T>) -> Seq<T>
    decreases s.len(),
{
    if p.exhausted() || s.len() == 0 {
        Seq::empty()
    } else if p.emits() {
        seq![s[0]] + paged_run(p.advance(), s.drop_first())
    } else {
        paged_run(p.advance(), s.drop_first())
    }
}

/// How many entries of `s` a paged walk fetches, starting from `p`.
pub open spec fn fetched<T>(p: PagerView, s: Seq<T>) -> nat
    decreases s.len(),
{
    if p.exhausted() || s.len() == 0 {
        0
    } else {
        1 + fetched(p.advance(), s.drop_first())
    }
}

/// `s.skip(offset).take(limit)`, with both bounds clamped to the length.
pub open spec fn skip_take<T>(s: Seq<T>, offset: nat, limit: nat) -> Seq<T> {
    let lo = if offset <= s.len() { offset as int } else { s.len() as int };
    let hi = if offset + limit <= s.len() { (offset + limit) as int } else { s.len() as int };
    s.subrange(lo, hi)
}

impl Pager {
    /// A fresh pager.
    pub fn new(limit: usize, offset: usize) -> (r: Pager)
        ensures
            r@ == (PagerView { limit: limit as nat, offset: offset as nat, yielded: 0, skipped: 0 }),
            r@.wf(),
    {
        Pager { limit, offset, yielded: 0, skipped: 0 }
    }

    /// Returns `true` once `limit` entries have been yielded.
    pub fn exhausted(&self) -> (r: bool)
        ensures
            r == self@.exhausted(),
    {
        self.yielded >= self.limit
    }

    /// Accounts for one fetched entry, and returns whether it is yielded.
    pub fn advance(&mut self) -> (r: bool)
        requires
            old(self)@.wf(),
            !old(self)@.exhausted(),
        ensures
            r == old(self)@.emits(),
            final(self)@ == old(self)@.advance(),
            final(self)@.wf(),
    {
        if self.skipped < self.offset {
            self.skipped = self.skipped + 1;
            false
        } else {
            self.yielded = self.yielded + 1;
            true
        }
    }
}

/// From any well-formed state, the paged run is the remaining window of the
/// unpaged sequence.
proof fn lemma_paged_run_window<T>(p: PagerView, s: Seq<T>)
    requires
        p.wf(),
    ensures
        paged_run(p, s) == skip_take(s, (p.offset - p.skipped) as nat, (p.limit - p.yielded) as nat),
        fetched(p, s) == (if p.limit == p.yielded { 0 } else {
            let want = (p.offset - p.skipped) + (p.limit - p.yielded);
            if want <= s.len() { want as nat } else { s.len() }
        }),
    decreases s.len(),
{
    let o = (p.offset - p.skipped) as nat;
    let l = (p.limit - p.yielded) as nat;
    if p.exhausted() || s.len() == 0 {
        assert(skip_take(s, o, l) =~= Seq::<T>::empty());
    } else {
        lemma_paged_run_window(p.advance(), s.drop_first());
        let rest = s.drop_first();
        if p.emits() {
            assert(o == 0);
            assert(skip_take(s, o, l) =~= seq![s[0]] + skip_take(rest, 0, (l - 1) as nat));
        } else {
            assert(skip_take(s, o, l) =~= skip_take(rest, (o - 1) as nat, l));
        }
    }
}

/// Pagination law: a paged walk yields exactly `skip(offset).take(limit)` of
/// the walk the same options would otherwise produce, and fetches no entry
/// past the last one it yields (none at all when `limit` is zero), so an
/// exhausted limit stops the traversal.
pub proof fn lemma_pagination<T>(limit: nat, offset: nat, s: Seq<T>)
    ensures
        paged_run(PagerView { limit, offset, yielded: 0, skipped: 0 }, s) == skip_take(s, offset, limit),
        fetched(PagerView { limit, offset, yielded: 0, skipped: 0 }, s) == (if limit == 0 { 0 } else if offset + limit <= s.len() {
            offset + limit
        } else {
            s.len()
        }),
{
    lemma_paged_run_window(PagerView { limit, offset, yielded: 0, skipped: 0 }, s);
}

/// An offset at or past the end yields nothing, and is not an error.
pub proof fn lemma_offset_past_end<T>(limit: nat, offset: nat, s: Seq<T>)
    requires
        offset >= s.len(),
    ensures
        paged_run(PagerView { limit, offset, yielded: 0, skipped: 0 }, s).len() == 0,
{
    lemma_pagination(limit, offset, s);
}

/// Consecutive pages of one size concatenate to the whole walk.
pub proof fn lemma_pages_concatenate<T>(size: nat, pages: nat, s: Seq<T>)
    requires
        size > 0,
        pages * size >= s.len(),
    ensures
        s =~= concat_pages(s, size, pages),
{
    lemma_concat_prefix(s, size, pages);
}

/// The first `pages` pages of `size` entries, concatenated.
pub open spec fn concat_pages<T>(s: Seq<T>, size: nat, pages: nat) -> Seq<T>
    decreases pages,
{
    if pages == 0 {
        Seq::empty()
    } else {
        concat_pages(s, size, (pages - 1) as nat) + paged_run(
            PagerView { limit: size, offset: ((pages - 1) * size) as nat, yielded: 0, skipped: 0 },
            s,
        )
    }
}

proof fn lemma_concat_prefix<T>(s: Seq<T>, size: nat, pages: nat)
    requires
        size > 0,
    ensures
        concat_pages(s, size, pages) =~= s.take(if pages * size <= s.len() { (pages * size) as int } else { s.len() as int }),
    decreases pages,
{
    if pages == 0 {
        assert(concat_pages(s, size, pages) =~= s.take(0));
    } else {
        lemma_concat_prefix(s, size, (pages - 1) as nat);
        let k = (pages - 1) as nat;
        lemma_pagination(size, k * size, s);
        assert((pages - 1) * size + size == pages * size) by (nonlinear_arith)
            requires pages >= 1;
        assert(k * size <= pages * size) by (nonlinear_arith)
            requires k + 1 == pages;
        let a = if k * size <= s.len() { (k * size) as int } else { s.len() as int };
        let b = if pages * size <= s.len() { (pages * size) as int } else { s.len() as int };
        assert(skip_take(s, k * size, size) == s.subrange(a, b));
        assert(s.take(a) + s.subrange(a, b) =~= s.take(b));
        assert(concat_pages(s, size, pages) == concat_pages(s, size, k) + skip_take(s, k * size, size));
    }
}

} // verus!
