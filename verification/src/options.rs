//! The option sets of the walkers and the builder rules that fill them.
use vstd::prelude::*;

verus! {

/// The option set both walkers share. Sorting is not part of it: each
/// walker orders entries by its own means.
#[derive(Clone, Copy, Debug)]
pub struct WalkDirOptions {
    pub min_depth: usize,
    pub max_depth: usize,
    pub follow_links: bool,
    pub group_dir: bool,
    pub skip_hidden: bool,
}

impl Default for WalkDirOptions {
    /// No depth bounds, links unfollowed, no grouping, hidden entries kept.
    fn default() -> (r: Self)
        ensures
            r.min_depth == 0,
            r.max_depth == usize::MAX,
            !r.follow_links,
            !r.group_dir,
            !r.skip_hidden,
    {
        WalkDirOptions {
            min_depth: 0,
            max_depth: usize::MAX,
            follow_links: false,
            group_dir: false,
            skip_hidden: false,
        }
    }
}

impl WalkDirOptions {
    /// Sets the minimum depth at which entries are yielded.
    pub fn min_depth(self, depth: usize) -> (r: Self)
        ensures
            r == (WalkDirOptions { min_depth: depth, ..self }),
    {
        WalkDirOptions { min_depth: depth, ..self }
    }

    /// Sets the maximum depth of the walk.
    pub fn max_depth(self, depth: usize) -> (r: Self)
        ensures
            r == (WalkDirOptions { max_depth: depth, ..self }),
    {
        WalkDirOptions { max_depth: depth, ..self }
    }

    /// Controls whether symbolic links are followed.
    pub fn follow_links(self, yes: bool) -> (r: Self)
        ensures
            r == (WalkDirOptions { follow_links: yes, ..self }),
    {
        WalkDirOptions { follow_links: yes, ..self }
    }

    /// Controls whether directories are placed before other entries.
    pub fn group_dir(self, yes: bool) -> (r: Self)
        ensures
            r == (WalkDirOptions { group_dir: yes, ..self }),
    {
        WalkDirOptions { group_dir: yes, ..self }
    }

    /// Controls whether hidden entries are skipped (and not descended into).
    pub fn skip_hidden(self, yes: bool) -> (r: Self)
        ensures
            r == (WalkDirOptions { skip_hidden: yes, ..self }),
    {
        WalkDirOptions { skip_hidden: yes, ..self }
    }
}

/// Default number of a directory's entries resolved at once.
pub const DEFAULT_CONCURRENCY: usize = 32;

/// Configuration that only the asynchronous walker has.
#[derive(Clone, Copy, Debug)]
pub struct AsyncOptions {
    pub concurrency: usize,
    pub limit: usize,
    pub offset: usize,
}

impl Default for AsyncOptions {
    /// Concurrency 32, no limit, no offset.
    fn default() -> (r: Self)
        ensures
            r.concurrency == DEFAULT_CONCURRENCY,
            r.limit == usize::MAX,
            r.offset == 0,
    {
        AsyncOptions { concurrency: DEFAULT_CONCURRENCY, limit: usize::MAX, offset: 0 }
    }
}

impl AsyncOptions {
    /// Sets how many entries of one directory may have I/O in flight at
    /// once, clamped to at least one.
    pub fn concurrency(self, n: usize) -> (r: Self)
        ensures
            r == (AsyncOptions { concurrency: if n == 0 { 1 } else { n }, ..self }),
            r.concurrency >= 1,
    {
        let c = if n < 1 { 1 } else { n };
        AsyncOptions { concurrency: c, ..self }
    }

    /// Yields at most `limit` entries over the whole walk.
    pub fn limit(self, limit: usize) -> (r: Self)
        ensures
            r == (AsyncOptions { limit, ..self }),
    {
        AsyncOptions { limit, ..self }
    }

    /// Skips the first `offset` entries the walk would yield.
    pub fn offset(self, offset: usize) -> (r: Self)
        ensures
            r == (AsyncOptions { offset, ..self }),
    {
        AsyncOptions { offset, ..self }
    }
}

} // verus!
