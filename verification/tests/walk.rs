//! Walks over an in-memory filesystem, driven the way a real driver drives
//! the traversal: every `Action` is answered from the model.
use std::collections::BTreeSet;
use std::path::PathBuf;

use walkthrough::entry::{apply_verdict, is_dot_name, screen, Screening};
use walkthrough::order::{group_dirs, into_candidates, place_unkeyed, sort_grouped};
use walkthrough::{
    Action, Ancestor, Candidate, Error, ErrorKind, Filtering, Node, Platform, Traversal,
    WalkDirOptions,
};

#[derive(Clone, Debug)]
enum Kind {
    File,
    Dir,
    Link(String),
}

struct SimFs {
    entries: Vec<(String, Kind)>,
}

impl SimFs {
    fn new(entries: &[(&str, Kind)]) -> SimFs {
        SimFs {
            entries: entries
                .iter()
                .map(|(p, k)| (p.to_string(), k.clone()))
                .collect(),
        }
    }

    fn kind(&self, path: &str) -> Option<Kind> {
        self.entries
            .iter()
            .find(|(p, _)| p == path)
            .map(|(_, k)| k.clone())
    }

    fn index(&self, path: &str) -> Option<usize> {
        self.entries.iter().position(|(p, _)| p == path)
    }

    /// Children names of a directory, in "readdir" order.
    fn children(&self, dir: &str) -> Vec<String> {
        let prefix = format!("{dir}/");
        self.entries
            .iter()
            .filter_map(|(p, _)| {
                let rest = p.strip_prefix(&prefix)?;
                if rest.contains('/') {
                    None
                } else {
                    Some(p.clone())
                }
            })
            .collect()
    }

    /// The path a link resolves to, if it is followed.
    fn target(&self, path: &str, follow: bool) -> Option<String> {
        match self.kind(path)? {
            Kind::Link(t) if follow => {
                self.kind(&t)?;
                Some(t)
            }
            _ => Some(path.to_string()),
        }
    }
}

fn file_name(path: &str) -> &str {
    path.rsplit('/').next().unwrap()
}

fn io_error(path: &str, depth: usize) -> Error {
    Error::new_io_error(
        PathBuf::from(path),
        depth,
        std::io::Error::new(std::io::ErrorKind::NotFound, "not found"),
    )
}

/// Resolves one path the way the Unix constructors do.
fn resolve(fs: &SimFs, path: &str, depth: usize, follow: bool) -> Result<Node<String>, Error> {
    let kind = match fs.kind(path) {
        Some(k) => k,
        None => return Err(io_error(path, depth)),
    };
    let is_dir = match kind {
        Kind::Dir => true,
        Kind::File => false,
        Kind::Link(_) if !follow => false,
        Kind::Link(_) => match fs.target(path, true) {
            Some(t) => matches!(fs.kind(&t), Some(Kind::Dir)),
            None => return Err(io_error(path, depth)),
        },
    };
    Ok(Node {
        depth,
        is_dir,
        hidden: is_dot_name(file_name(path).as_bytes()),
        reparse_point: false,
        data: path.to_string(),
    })
}

#[derive(Clone, Debug, PartialEq)]
enum Item {
    Entry(String, usize, bool),
    Io(String, usize),
    Loop(String, usize),
}

#[derive(Clone, Copy)]
struct Config {
    opts: WalkDirOptions,
    /// Directories are read whole (and ordered by name when `by_name`).
    ordered: bool,
    by_name: bool,
    paging: Option<(usize, usize)>,
}

fn config(opts: WalkDirOptions) -> Config {
    Config { opts, ordered: false, by_name: false, paging: None }
}

type FilterFn = fn(&str) -> Filtering;

struct Run {
    items: Vec<Result<Node<String>, Error>>,
    reads: Vec<String>,
}

fn candidate_for(
    fs: &SimFs,
    path: &str,
    depth: usize,
    cfg: &Config,
    filter: Option<FilterFn>,
) -> Option<Candidate<String>> {
    let resolved = resolve(fs, path, depth, cfg.opts.follow_links);
    match resolved {
        Err(e) => Some(Candidate::kept(Err(e))),
        Ok(node) => match filter {
            None => Some(Candidate::kept(Ok(node))),
            Some(f) => match screen(cfg.opts.skip_hidden, node.hidden, true) {
                Screening::Drop => None,
                Screening::Keep => Some(Candidate::kept(Ok(node))),
                Screening::Consult => {
                    let verdict = f(path);
                    apply_verdict(node, verdict)
                }
            },
        },
    }
}

fn drive(fs: &SimFs, root: &str, cfg: Config, filter: Option<FilterFn>) -> Run {
    let start = resolve(fs, root, 0, cfg.opts.follow_links);
    let mut t: Traversal<String> =
        Traversal::new(cfg.opts, Platform::Unix, cfg.ordered, cfg.paging, start);
    let mut live: Vec<(Vec<String>, usize)> = Vec::new();
    let mut items = Vec::new();
    let mut reads = Vec::new();
    let mut action = t.next_action();
    loop {
        action = match action {
            Action::Yield(item) => {
                items.push(item);
                t.next_action()
            }
            Action::Finished => break,
            Action::Identify => {
                let path = t.pending().unwrap().data.clone();
                let real = fs.target(&path, cfg.opts.follow_links).unwrap();
                let id = fs.index(&real).map(|i| Ancestor { device: 1, index: i as u64 });
                t.identity(id, PathBuf::from(path))
            }
            Action::Backfill => unreachable!("no reparse points on Unix"),
            Action::ReadSorted => {
                let node = t.pending().unwrap();
                let (path, depth) = (node.data.clone(), node.depth + 1);
                reads.push(path.clone());
                let dir = fs.target(&path, cfg.opts.follow_links).unwrap();
                let mut cands: Vec<Candidate<String>> = Vec::new();
                for child in fs.children(&dir) {
                    let shown = format!("{path}/{}", file_name(&child));
                    if let Some(c) = candidate_for(fs, &child, depth, &cfg, filter) {
                        cands.push(relabel(c, &shown));
                    }
                }
                let cands = if cfg.by_name {
                    let places = cands
                        .into_iter()
                        .map(|c| {
                            let name = match &c.entry {
                                Ok(n) => file_name(&n.data).as_bytes().to_vec(),
                                Err(e) => e.path().file_name().unwrap().to_string_lossy().as_bytes().to_vec(),
                            };
                            place_unkeyed(c, name, cfg.opts.group_dir)
                        })
                        .collect();
                    into_candidates(sort_grouped(places))
                } else if cfg.opts.group_dir {
                    group_dirs(cands)
                } else {
                    cands
                };
                t.listing(Ok(cands))
            }
            Action::OpenLive => {
                let node = t.pending().unwrap();
                let (path, depth) = (node.data.clone(), node.depth + 1);
                reads.push(path.clone());
                let dir = fs.target(&path, cfg.opts.follow_links).unwrap();
                let mut names = fs.children(&dir);
                names.reverse();
                live.push((names.into_iter().map(|c| format!("{path}/{}", file_name(&c))).collect(), depth));
                t.opened(Ok(()))
            }
            Action::Refill => {
                let (names, depth) = live.last_mut().unwrap();
                let depth = *depth;
                match names.pop() {
                    None => {
                        live.pop();
                        t.batch(None)
                    }
                    Some(shown) => {
                        let c = candidate_for(fs, &real_path(fs, &shown), depth, &cfg, filter)
                            .map(|c| relabel(c, &shown));
                        t.batch(Some(c.into_iter().collect()))
                    }
                }
            }
        };
    }
    Run { items, reads }
}

/// The model path a (possibly link-relative) path names.
fn real_path(fs: &SimFs, shown: &str) -> String {
    if fs.kind(shown).is_some() {
        return shown.to_string();
    }
    // Inside a followed link: rewrite the longest link prefix.
    for (p, k) in &fs.entries {
        if let Kind::Link(t) = k {
            if let Some(rest) = shown.strip_prefix(&format!("{p}/")) {
                return real_path(fs, &format!("{t}/{rest}"));
            }
        }
    }
    shown.to_string()
}

/// Reports an entry under the path it was reached by.
fn relabel(c: Candidate<String>, shown: &str) -> Candidate<String> {
    match c.entry {
        Ok(mut n) => {
            n.data = shown.to_string();
            Candidate { yielded: c.yielded, entry: Ok(n) }
        }
        Err(e) => Candidate { yielded: c.yielded, entry: Err(e) },
    }
}

fn summary(items: &[Result<Node<String>, Error>]) -> Vec<Item> {
    items
        .iter()
        .map(|r| match r {
            Ok(n) => Item::Entry(n.data.clone(), n.depth, n.is_dir),
            Err(e) if e.is_loop() => Item::Loop(e.path().to_string_lossy().into_owned(), e.depth()),
            Err(e) => Item::Io(e.path().to_string_lossy().into_owned(), e.depth()),
        })
        .collect()
}

fn rel_paths(run: &Run) -> BTreeSet<String> {
    run.items
        .iter()
        .filter_map(|r| r.as_ref().ok())
        .filter(|n| n.depth > 0)
        .map(|n| n.data.strip_prefix("root/").unwrap().to_string())
        .collect()
}

/// root/{.hidden0a, dir1a/{dir2a/{file2a_a}, file1a_a}, dir1b/{file1b_a}, file0a}
fn basic_tree() -> SimFs {
    SimFs::new(&[
        ("root", Kind::Dir),
        ("root/file0a", Kind::File),
        ("root/.hidden0a", Kind::File),
        ("root/dir1a", Kind::Dir),
        ("root/dir1a/dir2a", Kind::Dir),
        ("root/dir1a/file1a_a", Kind::File),
        ("root/dir1a/dir2a/file2a_a", Kind::File),
        ("root/dir1b", Kind::Dir),
        ("root/dir1b/file1b_a", Kind::File),
    ])
}

fn symlink_tree() -> SimFs {
    SimFs::new(&[
        ("root", Kind::Dir),
        ("root/real_file", Kind::File),
        ("root/link_to_file", Kind::Link("root/real_file".into())),
        ("root/real_dir", Kind::Dir),
        ("root/real_dir/inside", Kind::File),
        ("root/link_to_dir", Kind::Link("root/real_dir".into())),
    ])
}

fn loop_tree() -> SimFs {
    SimFs::new(&[
        ("root", Kind::Dir),
        ("root/a", Kind::Dir),
        ("root/a/b", Kind::Dir),
        ("root/a/b/loop", Kind::Link("root/a".into())),
    ])
}

fn opts() -> WalkDirOptions {
    WalkDirOptions::default()
}

fn set(v: &[&str]) -> BTreeSet<String> {
    v.iter().map(|s| s.to_string()).collect()
}

#[test]
fn test_all_entries_are_visited() {
    let fs = basic_tree();
    let run = drive(&fs, "root", config(opts()), None);
    assert_eq!(
        rel_paths(&run),
        set(&[
            ".hidden0a",
            "dir1a",
            "dir1a/dir2a",
            "dir1a/dir2a/file2a_a",
            "dir1a/file1a_a",
            "dir1b",
            "dir1b/file1b_a",
            "file0a",
        ])
    );
}

#[test]
fn test_walk_is_depth_first_in_directory_order() {
    let fs = basic_tree();
    let run = drive(&fs, "root", config(opts()), None);
    let order: Vec<Item> = summary(&run.items);
    assert_eq!(
        order,
        vec![
            Item::Entry("root".into(), 0, true),
            Item::Entry("root/file0a".into(), 1, false),
            Item::Entry("root/.hidden0a".into(), 1, false),
            Item::Entry("root/dir1a".into(), 1, true),
            Item::Entry("root/dir1a/dir2a".into(), 2, true),
            Item::Entry("root/dir1a/dir2a/file2a_a".into(), 3, false),
            Item::Entry("root/dir1a/file1a_a".into(), 2, false),
            Item::Entry("root/dir1b".into(), 1, true),
            Item::Entry("root/dir1b/file1b_a".into(), 2, false),
        ]
    );
}

#[test]
fn test_root_is_yielded_at_depth_0() {
    let fs = basic_tree();
    let run = drive(&fs, "root", config(opts()), None);
    let first = run.items[0].as_ref().unwrap();
    assert_eq!(first.depth, 0);
    assert_eq!(first.data, "root");
}

#[test]
fn test_max_depth_1_does_not_descend_into_subdirs() {
    let fs = basic_tree();
    let run = drive(&fs, "root", config(opts().max_depth(1)), None);
    assert_eq!(rel_paths(&run), set(&[".hidden0a", "dir1a", "dir1b", "file0a"]));
    assert_eq!(run.reads, vec!["root".to_string()]);
}

#[test]
fn test_max_depth_0_yields_only_root() {
    let fs = basic_tree();
    let run = drive(&fs, "root", config(opts().max_depth(0)), None);
    let entries: Vec<_> = run.items.iter().filter_map(|r| r.as_ref().ok()).collect();
    assert_eq!(entries.len(), 1);
    assert_eq!(entries[0].depth, 0);
    assert!(run.reads.is_empty());
}

#[test]
fn test_min_depth_1_skips_root() {
    let fs = basic_tree();
    let run = drive(&fs, "root", config(opts().min_depth(1)), None);
    let entries: Vec<_> = run.items.iter().filter_map(|r| r.as_ref().ok()).collect();
    assert!(entries.iter().all(|e| e.depth >= 1));
    assert_eq!(entries.len(), 8);
}

#[test]
fn test_min_depth_2_skips_depth_0_and_1_entries() {
    let fs = basic_tree();
    let run = drive(&fs, "root", config(opts().min_depth(2)), None);
    let entries: Vec<_> = run.items.iter().filter_map(|r| r.as_ref().ok()).collect();
    assert!(entries.iter().all(|e| e.depth >= 2));
    assert_eq!(entries.len(), 4);
}

#[test]
fn test_skip_hidden_excludes_dot_entries() {
    let fs = basic_tree();
    let run = drive(&fs, "root", config(opts().skip_hidden(true)), None);
    let paths = rel_paths(&run);
    assert!(!paths.contains(".hidden0a"));
    assert!(paths.contains("file0a"));
    assert!(paths.contains("dir1a"));
}

#[test]
fn test_skip_hidden_root_is_exempt() {
    let fs = SimFs::new(&[(".hidden_root", Kind::Dir), (".hidden_root/file.txt", Kind::File)]);
    let run = drive(&fs, ".hidden_root", config(opts().skip_hidden(true)), None);
    let s = summary(&run.items);
    assert_eq!(
        s,
        vec![
            Item::Entry(".hidden_root".into(), 0, true),
            Item::Entry(".hidden_root/file.txt".into(), 1, false),
        ]
    );
}

#[test]
fn test_skip_hidden_prunes_a_hidden_directory_unread() {
    let fs = SimFs::new(&[
        ("root", Kind::Dir),
        ("root/.git", Kind::Dir),
        ("root/.git/config", Kind::File),
        ("root/src", Kind::Dir),
    ]);
    let run = drive(&fs, "root", config(opts().skip_hidden(true)), None);
    assert_eq!(rel_paths(&run), set(&["src"]));
    assert_eq!(run.reads, vec!["root".to_string(), "root/src".to_string()]);
}

#[test]
fn test_sort_by_name_orders_siblings_alphabetically() {
    let fs = basic_tree();
    let cfg = Config { opts: opts(), ordered: true, by_name: true, paging: None };
    let run = drive(&fs, "root", cfg, None);
    let depth1: Vec<String> = run
        .items
        .iter()
        .filter_map(|r| r.as_ref().ok())
        .filter(|n| n.depth == 1)
        .map(|n| file_name(&n.data).to_string())
        .collect();
    let mut sorted = depth1.clone();
    sorted.sort();
    assert_eq!(depth1, sorted);
    assert_eq!(depth1, vec![".hidden0a", "dir1a", "dir1b", "file0a"]);
}

#[test]
fn test_group_dir_places_dirs_before_files() {
    let fs = basic_tree();
    let cfg = Config { opts: opts().group_dir(true), ordered: true, by_name: false, paging: None };
    let run = drive(&fs, "root", cfg, None);
    let depth1: Vec<&Node<String>> = run
        .items
        .iter()
        .filter_map(|r| r.as_ref().ok())
        .filter(|n| n.depth == 1)
        .collect();
    let first_file = depth1.iter().position(|e| !e.is_dir);
    let last_dir = depth1.iter().rposition(|e| e.is_dir);
    if let (Some(f), Some(d)) = (first_file, last_dir) {
        assert!(d < f, "a directory appeared after a file at depth 1");
    }
    let names: Vec<&str> = depth1.iter().map(|n| file_name(&n.data)).collect();
    assert_eq!(names, vec!["dir1a", "dir1b", "file0a", ".hidden0a"]);
}

#[test]
fn test_follow_links_false_does_not_descend_into_symlinked_dir() {
    let fs = symlink_tree();
    let run = drive(&fs, "root", config(opts()), None);
    let paths = rel_paths(&run);
    assert!(paths.contains("link_to_dir"));
    assert_eq!(paths.iter().filter(|p| p.ends_with("inside")).count(), 1);
}

#[test]
fn test_follow_links_true_descends_into_symlinked_dir() {
    let fs = symlink_tree();
    let run = drive(&fs, "root", config(opts().follow_links(true)), None);
    let paths = rel_paths(&run);
    assert!(paths.contains("link_to_dir"));
    assert_eq!(paths.iter().filter(|p| p.ends_with("inside")).count(), 2);
}

#[test]
fn test_follow_links_loop_returns_error() {
    let fs = loop_tree();
    let run = drive(&fs, "root", config(opts().follow_links(true)), None);
    assert!(run.items.iter().any(|r| r.as_ref().is_err_and(|e| e.is_loop())));
}

#[test]
fn test_loop_error_is_reported_in_place_of_the_directory_and_the_walk_goes_on() {
    let fs = SimFs::new(&[
        ("root", Kind::Dir),
        ("root/a", Kind::Dir),
        ("root/a/b", Kind::Dir),
        ("root/a/b/loop", Kind::Link("root/a".into())),
        ("root/a/b/z", Kind::File),
        ("root/c", Kind::File),
    ]);
    let run = drive(&fs, "root", config(opts().follow_links(true)), None);
    assert_eq!(
        summary(&run.items),
        vec![
            Item::Entry("root".into(), 0, true),
            Item::Entry("root/a".into(), 1, true),
            Item::Entry("root/a/b".into(), 2, true),
            Item::Loop("root/a/b/loop".into(), 3),
            Item::Entry("root/a/b/z".into(), 3, false),
            Item::Entry("root/c".into(), 1, false),
        ]
    );
}

#[test]
fn test_follow_links_dangling_symlink_yields_io_error() {
    let fs = SimFs::new(&[("root", Kind::Dir), ("root/dangling", Kind::Link("root/__no_such_target__".into()))]);
    let run = drive(&fs, "root", config(opts().follow_links(true)), None);
    let errors: Vec<&Error> = run.items.iter().filter_map(|r| r.as_ref().err()).collect();
    assert!(!errors.is_empty());
    assert!(errors.iter().all(|e| e.is_io()));
}

#[test]
fn test_io_error_exposes_all_accessors() {
    let fs = basic_tree();
    let run = drive(&fs, "__nonexistent_walkthrough_xyz__", config(opts()), None);
    assert_eq!(run.items.len(), 1);
    let err = run.items.into_iter().next().unwrap().unwrap_err();
    assert!(err.is_io());
    assert!(!err.is_loop());
    assert_eq!(err.depth(), 0);
    assert!(err.path().ends_with("__nonexistent_walkthrough_xyz__"));
    assert!(matches!(err.kind(), ErrorKind::Io(_)));
    assert!(err.io_error().is_some());
    assert!(!err.to_string().is_empty());
}

#[test]
fn test_io_error_into_io_error_is_some() {
    let fs = basic_tree();
    let run = drive(&fs, "__nonexistent_walkthrough_abc__", config(opts()), None);
    let err = run.items.into_iter().next().unwrap().unwrap_err();
    assert!(err.into_io_error().is_some());
}

#[test]
fn test_loop_error_exposes_all_accessors() {
    let fs = loop_tree();
    let run = drive(&fs, "root", config(opts().follow_links(true)), None);
    let err = run
        .items
        .into_iter()
        .find_map(|r| r.err().filter(|e| e.is_loop()))
        .unwrap();
    assert!(err.is_loop());
    assert!(!err.is_io());
    assert_eq!(err.depth(), 3);
    assert!(matches!(err.kind(), ErrorKind::LoopDetected));
    assert!(err.io_error().is_none());
    assert!(!err.to_string().is_empty());
}

#[test]
fn test_loop_error_into_io_error_is_none() {
    let fs = loop_tree();
    let run = drive(&fs, "root", config(opts().follow_links(true)), None);
    let err = run
        .items
        .into_iter()
        .find_map(|r| r.err().filter(|e| e.is_loop()))
        .unwrap();
    assert!(err.into_io_error().is_none());
}

#[test]
fn test_nonexistent_root_yields_single_io_error() {
    let fs = basic_tree();
    let run = drive(&fs, "__nonexistent_walkthrough_root__", config(opts()), None);
    assert_eq!(run.items.len(), 1);
    assert!(run.items[0].as_ref().unwrap_err().is_io());
}

#[test]
fn test_file_as_root_yields_single_non_dir_entry() {
    let fs = SimFs::new(&[("lone_file", Kind::File)]);
    let run = drive(&fs, "lone_file", config(opts()), None);
    let entries: Vec<_> = run.items.iter().filter_map(|r| r.as_ref().ok()).collect();
    assert_eq!(entries.len(), 1);
    assert!(!entries[0].is_dir);
    assert_eq!(entries[0].depth, 0);
}

#[test]
fn test_empty_directory_yields_only_root() {
    let fs = SimFs::new(&[("root", Kind::Dir)]);
    let run = drive(&fs, "root", config(opts()), None);
    let entries: Vec<_> = run.items.iter().filter_map(|r| r.as_ref().ok()).collect();
    assert_eq!(entries.len(), 1);
    assert!(entries[0].is_dir);
    assert_eq!(entries[0].depth, 0);
}

#[test]
fn test_unreadable_subdirectory_is_reported_in_its_place() {
    // A directory whose listing fails is reported as an error (at the depth
    // of its children) instead of being yielded.
    let fs = SimFs::new(&[("root", Kind::Dir), ("root/a", Kind::Dir)]);
    let start = resolve(&fs, "root", 0, false);
    let mut t: Traversal<String> = Traversal::new(opts(), Platform::Unix, true, None, start);
    let a = t.next_action();
    assert!(matches!(a, Action::ReadSorted));
    let a = t.listing(Ok(vec![Candidate::kept(resolve(&fs, "root/a", 1, false))]));
    match a {
        Action::Yield(Ok(n)) => assert_eq!(n.data, "root"),
        _ => panic!("the root comes first"),
    }
    let a = t.next_action();
    assert!(matches!(a, Action::ReadSorted));
    let a = t.listing(Err(io_error("root/a", 2)));
    match a {
        Action::Yield(Err(e)) => {
            assert!(e.is_io());
            assert_eq!(e.depth(), 2);
        }
        _ => panic!("the error takes the directory's place"),
    }
    assert!(matches!(t.next_action(), Action::Finished));
}

// ---------------------------------------------------------------------------
// Pagination
// ---------------------------------------------------------------------------

fn wide_tree() -> SimFs {
    SimFs::new(&[
        ("root", Kind::Dir),
        ("root/a", Kind::Dir),
        ("root/a/a1", Kind::File),
        ("root/a/a2", Kind::File),
        ("root/b", Kind::File),
        ("root/c", Kind::Dir),
        ("root/c/c1", Kind::File),
        ("root/d", Kind::File),
    ])
}

fn by_name(paging: Option<(usize, usize)>) -> Config {
    Config { opts: opts(), ordered: true, by_name: true, paging }
}

fn names(run: &Run) -> Vec<String> {
    run.items
        .iter()
        .map(|r| match r {
            Ok(n) => n.data.clone(),
            Err(e) => e.path().to_string_lossy().into_owned(),
        })
        .collect()
}

#[test]
fn test_limit_takes_a_prefix_of_the_walk() {
    let fs = wide_tree();
    let full = names(&drive(&fs, "root", by_name(None), None));
    for limit in 0..=full.len() + 1 {
        let got = names(&drive(&fs, "root", by_name(Some((limit, 0))), None));
        let want: Vec<String> = full.iter().take(limit).cloned().collect();
        assert_eq!(got, want, "limit {limit}");
    }
}

#[test]
fn test_offset_and_limit_equal_skip_and_take() {
    let fs = wide_tree();
    let full = names(&drive(&fs, "root", by_name(None), None));
    for offset in 0..=full.len() + 1 {
        for limit in 0..=full.len() + 1 {
            let got = names(&drive(&fs, "root", by_name(Some((limit, offset))), None));
            let want: Vec<String> = full.iter().skip(offset).take(limit).cloned().collect();
            assert_eq!(got, want, "offset {offset}, limit {limit}");
        }
    }
}

#[test]
fn test_pages_concatenate_to_the_whole_walk() {
    let fs = wide_tree();
    let full = names(&drive(&fs, "root", by_name(None), None));
    for size in 1..=full.len() {
        let mut joined = Vec::new();
        let mut offset = 0;
        while offset < full.len() {
            joined.extend(names(&drive(&fs, "root", by_name(Some((size, offset))), None)));
            offset += size;
        }
        assert_eq!(joined, full, "pages of {size} do not reassemble the walk");
    }
}

#[test]
fn test_offset_past_the_end_yields_nothing_and_is_not_an_error() {
    let fs = wide_tree();
    let run = drive(&fs, "root", by_name(Some((usize::MAX, 100))), None);
    assert!(run.items.is_empty());
}

#[test]
fn test_limit_zero_yields_nothing() {
    let fs = wide_tree();
    let run = drive(&fs, "root", by_name(Some((0, 0))), None);
    assert!(run.items.is_empty());
    assert!(run.reads.is_empty());
}

#[test]
fn test_a_skipped_directory_is_still_descended_into() {
    let fs = wide_tree();
    let run = drive(&fs, "root", by_name(Some((usize::MAX, 2))), None);
    assert_eq!(
        names(&run),
        vec!["root/a/a1", "root/a/a2", "root/b", "root/c", "root/c/c1", "root/d"]
    );
}

#[test]
fn test_limit_stops_descending_once_satisfied() {
    let fs = wide_tree();
    let run = drive(&fs, "root", by_name(Some((3, 0))), None);
    assert_eq!(names(&run), vec!["root", "root/a", "root/a/a1"]);
    assert_eq!(run.reads, vec!["root".to_string(), "root/a".to_string()]);
}

// ---------------------------------------------------------------------------
// Filtering
// ---------------------------------------------------------------------------

fn filter_tree() -> SimFs {
    SimFs::new(&[
        ("root", Kind::Dir),
        ("root/file0", Kind::File),
        ("root/keep", Kind::Dir),
        ("root/keep/kept", Kind::File),
        ("root/prune", Kind::Dir),
        ("root/prune/pruned", Kind::File),
    ])
}

fn ignore_dir_prune(path: &str) -> Filtering {
    if file_name(path) == "prune" { Filtering::IgnoreDir } else { Filtering::Continue }
}

fn ignore_entry_prune(path: &str) -> Filtering {
    if file_name(path) == "prune" { Filtering::IgnoreEntry } else { Filtering::Continue }
}

fn ignore_entry_file0(path: &str) -> Filtering {
    if file_name(path) == "file0" { Filtering::IgnoreEntry } else { Filtering::Continue }
}

fn ignore_everything(_path: &str) -> Filtering {
    Filtering::IgnoreDir
}

fn continue_everywhere(_path: &str) -> Filtering {
    Filtering::Continue
}

#[test]
fn test_ignore_dir_prunes_the_subtree() {
    let fs = filter_tree();
    let run = drive(&fs, "root", by_name(None), Some(ignore_dir_prune));
    let got = rel_paths(&run);
    assert!(!got.contains("prune"), "the directory itself is dropped");
    assert!(!got.contains("prune/pruned"), "its subtree is never read: {got:?}");
    assert!(got.contains("keep/kept"), "siblings are unaffected");
    assert!(!run.reads.contains(&"root/prune".to_string()));
}

#[test]
fn test_ignore_entry_on_a_dir_drops_it_but_keeps_its_children() {
    let fs = filter_tree();
    let run = drive(&fs, "root", by_name(None), Some(ignore_entry_prune));
    let got = rel_paths(&run);
    assert!(got.contains("keep"));
    assert!(!got.contains("prune"), "the directory is not yielded");
    assert!(got.contains("keep/kept"));
    assert!(got.contains("prune/pruned"), "but it is still descended into: {got:?}");
}

#[test]
fn test_ignore_entry_on_a_file_drops_it() {
    let fs = filter_tree();
    let run = drive(&fs, "root", by_name(None), Some(ignore_entry_file0));
    let got = rel_paths(&run);
    assert!(!got.contains("file0"));
    assert!(got.contains("keep/kept"));
}

#[test]
fn test_root_is_exempt_from_the_filter() {
    let fs = filter_tree();
    let run = drive(&fs, "root", by_name(None), Some(ignore_everything));
    assert_eq!(summary(&run.items), vec![Item::Entry("root".into(), 0, true)]);
}

#[test]
fn test_continue_everywhere_matches_an_unfiltered_walk() {
    let fs = filter_tree();
    let a = names(&drive(&fs, "root", by_name(None), Some(continue_everywhere)));
    let b = names(&drive(&fs, "root", by_name(None), None));
    assert_eq!(a, b);
}

#[test]
fn test_filter_composes_with_skip_hidden() {
    let fs = SimFs::new(&[
        ("root", Kind::Dir),
        ("root/.hidden", Kind::File),
        ("root/keep", Kind::Dir),
        ("root/keep/kept", Kind::File),
        ("root/prune", Kind::Dir),
    ]);
    let cfg = Config { opts: opts().skip_hidden(true), ordered: true, by_name: true, paging: None };
    let run = drive(&fs, "root", cfg, Some(ignore_dir_prune));
    let got = rel_paths(&run);
    assert!(!got.contains(".hidden"), "skip_hidden still applies");
    assert!(!got.contains("prune"), "the filter still applies");
    assert!(got.contains("keep/kept"));
}

#[test]
fn test_streamed_and_ordered_walks_visit_the_same_entries() {
    let fs = basic_tree();
    let live = rel_paths(&drive(&fs, "root", config(opts()), None));
    let read_whole = rel_paths(&drive(&fs, "root", Config { opts: opts(), ordered: true, by_name: false, paging: None }, None));
    assert_eq!(live, read_whole);
}

// ---------------------------------------------------------------------------
// Windows: junctions arm loop detection without following links
// ---------------------------------------------------------------------------

/// A path as a Windows walk that does not follow links sees it: a link is a
/// junction, read as the directory it points to and marked a reparse point.
fn resolve_windows(fs: &SimFs, shown: &str, depth: usize) -> Result<Node<String>, Error> {
    let real = real_path(fs, shown);
    let (is_dir, reparse_point) = match fs.kind(&real) {
        None => return Err(io_error(shown, depth)),
        Some(Kind::Dir) => (true, false),
        Some(Kind::File) => (false, false),
        Some(Kind::Link(t)) => (matches!(fs.kind(&t), Some(Kind::Dir)), true),
    };
    Ok(Node { depth, is_dir, hidden: false, reparse_point, data: shown.to_string() })
}

/// The identity of the directory a shown path reaches.
fn identity_windows(fs: &SimFs, shown: &str) -> Option<Ancestor> {
    let real = real_path(fs, shown);
    let dir = fs.target(&real, true)?;
    fs.index(&dir).map(|i| Ancestor { device: 7, index: i as u64 })
}

/// Drives a Windows walk that reads each directory whole and does not follow
/// links, answering identities from the model.
fn drive_windows(fs: &SimFs, root: &str, o: WalkDirOptions) -> Vec<Item> {
    let start = resolve_windows(fs, root, 0);
    let mut t: Traversal<String> = Traversal::new(o, Platform::Windows, true, None, start);
    let mut items = Vec::new();
    let mut action = t.next_action();
    loop {
        action = match action {
            Action::Yield(item) => {
                items.push(item);
                t.next_action()
            }
            Action::Finished => break,
            Action::Backfill => {
                let path = t.pending().unwrap().data.clone();
                let parts: Vec<&str> = path.split('/').collect();
                let ids = (1..parts.len())
                    .filter_map(|k| identity_windows(fs, &parts[..k].join("/")))
                    .collect();
                t.backfilled(ids)
            }
            Action::Identify => {
                let path = t.pending().unwrap().data.clone();
                let id = identity_windows(fs, &path);
                t.identity(id, PathBuf::from(path))
            }
            Action::ReadSorted => {
                let node = t.pending().unwrap();
                let (path, depth) = (node.data.clone(), node.depth + 1);
                let dir = fs.target(&real_path(fs, &path), true).unwrap();
                let cands = fs
                    .children(&dir)
                    .iter()
                    .map(|child| {
                        let shown = format!("{path}/{}", file_name(child));
                        Candidate::kept(resolve_windows(fs, &shown, depth))
                    })
                    .collect();
                t.listing(Ok(cands))
            }
            Action::OpenLive | Action::Refill => unreachable!("directories are read whole"),
        };
    }
    summary(&items)
}

fn junction_tree() -> SimFs {
    SimFs::new(&[
        ("root", Kind::Dir),
        ("root/a", Kind::Dir),
        ("root/a/b", Kind::Dir),
        ("root/a/b/j", Kind::Link("root/a".into())),
        ("root/k", Kind::Link("root/other".into())),
        ("root/other", Kind::Dir),
        ("root/other/f", Kind::File),
    ])
}

#[test]
fn test_windows_junction_back_to_an_ancestor_is_a_loop() {
    let got = drive_windows(&junction_tree(), "root", opts());
    assert_eq!(
        got,
        vec![
            Item::Entry("root".into(), 0, true),
            Item::Entry("root/a".into(), 1, true),
            Item::Entry("root/a/b".into(), 2, true),
            Item::Loop("root/a/b/j".into(), 3),
            Item::Entry("root/k".into(), 1, true),
            Item::Entry("root/k/f".into(), 2, false),
            Item::Entry("root/other".into(), 1, true),
            Item::Entry("root/other/f".into(), 2, false),
        ]
    );
}

#[test]
fn test_windows_junction_elsewhere_is_walked_through() {
    let fs = SimFs::new(&[
        ("root", Kind::Dir),
        ("root/k", Kind::Link("root/other".into())),
        ("root/k2", Kind::Link("root/other".into())),
        ("root/other", Kind::Dir),
        ("root/other/f", Kind::File),
    ]);
    let got = drive_windows(&fs, "root", opts());
    assert_eq!(
        got,
        vec![
            Item::Entry("root".into(), 0, true),
            Item::Entry("root/k".into(), 1, true),
            Item::Entry("root/k/f".into(), 2, false),
            Item::Entry("root/k2".into(), 1, true),
            Item::Entry("root/k2/f".into(), 2, false),
            Item::Entry("root/other".into(), 1, true),
            Item::Entry("root/other/f".into(), 2, false),
        ]
    );
}
