use std::path::PathBuf;

use walkthrough::entry::{
    apply_verdict, failed_child, has_hidden_attribute, is_dot_name, resolve_concurrency, resolve_does_io, screen,
    Screening,
};
use walkthrough::order::{
    failed_first, group_dirs, into_candidates, listing_by_key, listing_order, place, place_unkeyed,
    sort_by_key, sort_grouped, split_failed, Ordered,
};
use walkthrough::pager::Pager;
use walkthrough::walk::{batch_reads_on, Read};
use walkthrough::slots::{initial_spawns, runs_sequentially, Slots};
use walkthrough::text::push_decimal;
use walkthrough::{
    Action, AsyncOptions, Awaiting, Candidate, Traversal, Error, ErrorKind, Filtering, Node, Platform, WalkDirOptions,
};

fn node(name: &str, is_dir: bool) -> Node<String> {
    Node { depth: 1, is_dir, hidden: is_dot_name(name.as_bytes()), reparse_point: false, data: name.to_string() }
}

fn failed(name: &str) -> Candidate<String> {
    Candidate::kept(Err(Error::new_io_error(
        PathBuf::from(name),
        1,
        std::io::Error::new(std::io::ErrorKind::PermissionDenied, "denied"),
    )))
}

fn label(c: &Candidate<String>) -> String {
    match &c.entry {
        Ok(n) => n.data.clone(),
        Err(e) => format!("!{}", e.path().to_string_lossy()),
    }
}

// ---------------------------------------------------------------------------
// Errors
// ---------------------------------------------------------------------------

#[test]
fn loop_error_message_names_path_depth_and_kind() {
    let err = Error::loop_detected(PathBuf::from("root/a/b/loop"), 3);
    assert_eq!(err.to_string(), "Error on root/a/b/loop with depth 3 and kind: symlink loop detected");
    assert!(err.is_loop());
    assert!(!err.is_io());
    assert_eq!(err.depth(), 3);
    assert!(matches!(err.kind(), ErrorKind::LoopDetected));
    assert!(err.io_error().is_none());
    assert!(err.into_io_error().is_none());
}

#[test]
fn io_error_message_carries_the_io_message() {
    let err = Error::new_io_error(
        PathBuf::from("some/where"),
        12,
        std::io::Error::new(std::io::ErrorKind::NotFound, "no such thing"),
    );
    assert_eq!(err.to_string(), "Error on some/where with depth 12 and kind: no such thing");
    assert!(err.is_io());
    assert_eq!(err.path(), std::path::Path::new("some/where"));
    assert_eq!(err.io_error().unwrap().kind(), std::io::ErrorKind::NotFound);
    assert_eq!(err.into_io_error().unwrap().kind(), std::io::ErrorKind::NotFound);
}

#[test]
fn decimal_rendering() {
    for (n, want) in [(0usize, "0"), (7, "7"), (10, "10"), (12345, "12345"), (usize::MAX, &*usize::MAX.to_string())] {
        let mut s = String::from("x");
        push_decimal(&mut s, n);
        assert_eq!(s, format!("x{want}"));
    }
}

// ---------------------------------------------------------------------------
// Options
// ---------------------------------------------------------------------------

#[test]
fn default_options_have_no_bounds() {
    let o = WalkDirOptions::default();
    assert_eq!(o.min_depth, 0);
    assert_eq!(o.max_depth, usize::MAX);
    assert!(!o.follow_links && !o.group_dir && !o.skip_hidden);
    let a = AsyncOptions::default();
    assert_eq!((a.concurrency, a.limit, a.offset), (32, usize::MAX, 0));
}

#[test]
fn test_concurrency_zero_is_clamped_and_still_walks() {
    assert_eq!(AsyncOptions::default().concurrency(0).concurrency, 1);
    assert_eq!(AsyncOptions::default().concurrency(5).concurrency, 5);
}

#[test]
fn last_setter_call_wins() {
    let o = WalkDirOptions::default().min_depth(3).max_depth(9).min_depth(1).skip_hidden(true).skip_hidden(false);
    assert_eq!((o.min_depth, o.max_depth, o.skip_hidden), (1, 9, false));
    let a = AsyncOptions::default().limit(4).offset(2).limit(7);
    assert_eq!((a.limit, a.offset), (7, 2));
}

// ---------------------------------------------------------------------------
// Resolution decisions
// ---------------------------------------------------------------------------

#[test]
fn hidden_names_and_attributes() {
    assert!(is_dot_name(b".git"));
    assert!(!is_dot_name(b"git"));
    assert!(!is_dot_name(b""));
    assert!(has_hidden_attribute(0x2));
    assert!(has_hidden_attribute(0x22));
    assert!(!has_hidden_attribute(0x20));
}

#[test]
fn screening_drops_hidden_before_the_filter() {
    assert_eq!(screen(true, true, true), Screening::Drop);
    assert_eq!(screen(false, true, true), Screening::Consult);
    assert_eq!(screen(true, false, false), Screening::Keep);
    assert_eq!(screen(false, false, false), Screening::Keep);
}

#[test]
fn verdicts() {
    let c = apply_verdict(node("d", true), Filtering::Continue).unwrap();
    assert!(c.yielded);
    let c = apply_verdict(node("d", true), Filtering::IgnoreEntry).unwrap();
    assert!(!c.yielded);
    assert!(apply_verdict(node("f", false), Filtering::IgnoreEntry).is_none());
    assert!(apply_verdict(node("d", true), Filtering::IgnoreDir).is_none());
}

#[test]
fn resolve_io_rule() {
    assert!(!resolve_does_io(Platform::Unix, false, false));
    assert!(resolve_does_io(Platform::Unix, true, false));
    assert!(resolve_does_io(Platform::Unix, false, true));
    assert!(resolve_does_io(Platform::Windows, false, false));
    assert_eq!(resolve_concurrency(Platform::Unix, false, false, 32), 1);
    assert_eq!(resolve_concurrency(Platform::Unix, true, false, 32), 32);
}

// ---------------------------------------------------------------------------
// Ordering
// ---------------------------------------------------------------------------

fn unkeyed(cands: Vec<Candidate<String>>, group_dir: bool) -> Vec<String> {
    let places: Vec<Ordered<u8, String>> = cands
        .into_iter()
        .map(|c| {
            let name = label(&c).trim_start_matches('!').as_bytes().to_vec();
            place_unkeyed(c, name, group_dir)
        })
        .collect();
    into_candidates(sort_grouped(places)).iter().map(label).collect()
}

#[test]
fn sort_grouped_orders_failed_first_then_names() {
    let cands = vec![
        Candidate::kept(Ok(node("b", false))),
        failed("z"),
        Candidate::kept(Ok(node("a", true))),
        Candidate::kept(Ok(node("c", true))),
    ];
    assert_eq!(unkeyed(cands, false), vec!["!z", "a", "b", "c"]);
}

#[test]
fn sort_grouped_puts_directories_first() {
    let cands = vec![
        Candidate::kept(Ok(node("b", false))),
        failed("z"),
        Candidate::kept(Ok(node("a", true))),
        Candidate::kept(Ok(node("c", true))),
    ];
    assert_eq!(unkeyed(cands, true), vec!["a", "c", "!z", "b"]);
}

#[test]
fn test_order_is_identical_at_every_concurrency() {
    // Whatever order the directory was read or resolved in, the order is the same.
    let names = ["m", "b", "zz", "a", "q", "b2"];
    let mut reference: Option<Vec<String>> = None;
    for rotation in 0..names.len() {
        let mut order: Vec<&str> = names.to_vec();
        order.rotate_left(rotation);
        if rotation % 2 == 1 {
            order.reverse();
        }
        let cands = order.iter().map(|n| Candidate::kept(Ok(node(n, n.len() == 1)))).collect();
        let got = unkeyed(cands, true);
        match &reference {
            None => reference = Some(got),
            Some(r) => assert_eq!(&got, r),
        }
    }
    assert_eq!(reference.unwrap(), vec!["a", "b", "m", "q", "b2", "zz"]);
}

#[test]
fn test_equal_keys_are_ordered_by_name() {
    let names = ["same_3", "same_1", "same_2", "other"];
    let keys = [5u64, 5, 5, 1];
    let places: Vec<Ordered<u64, String>> = names
        .iter()
        .zip(keys)
        .map(|(n, k)| place(Candidate::kept(Ok(node(n, false))), Some(k), n.as_bytes().to_vec(), false))
        .collect();
    let got: Vec<String> = into_candidates(sort_by_key(places)).iter().map(label).collect();
    assert_eq!(got, vec!["other", "same_1", "same_2", "same_3"]);
}

#[test]
fn test_async_sort_by_reverses_with_reverse() {
    let names = ["small", "big"];
    let sizes = [1u64, 100];
    let places: Vec<Ordered<std::cmp::Reverse<u64>, String>> = names
        .iter()
        .zip(sizes)
        .map(|(n, k)| place(Candidate::kept(Ok(node(n, false))), Some(std::cmp::Reverse(k)), n.as_bytes().to_vec(), false))
        .collect();
    let got: Vec<String> = into_candidates(sort_by_key(places)).iter().map(label).collect();
    assert_eq!(got, vec!["big", "small"]);
}

#[test]
fn test_async_sort_by_composes_with_group_dir() {
    let places: Vec<Ordered<u64, String>> = vec![
        place(Candidate::kept(Ok(node("big", false))), Some(100), b"big".to_vec(), true),
        place(Candidate::kept(Ok(node("dir", true))), Some(999), b"dir".to_vec(), true),
        place(Candidate::kept(Ok(node("small", false))), Some(1), b"small".to_vec(), true),
        place(failed("broken"), Some(0), b"broken".to_vec(), true),
    ];
    let got: Vec<String> = into_candidates(sort_by_key(places)).iter().map(label).collect();
    assert_eq!(got, vec!["dir", "!broken", "small", "big"]);
}

#[test]
fn failed_entries_get_no_key() {
    let p = place(failed("x"), Some(3u64), b"x".to_vec(), false);
    assert!(p.key.is_none());
    let p = place(Candidate::kept(Ok(node("d", true))), Some(3u64), b"d".to_vec(), true);
    assert!(!p.grouped);
    assert_eq!(p.key, Some(3));
}

#[test]
fn sync_order_keeps_failed_first_and_groups_stably() {
    let cands = vec![
        Candidate::kept(Ok(node("f1", false))),
        failed("e1"),
        Candidate::kept(Ok(node("d1", true))),
        failed("e2"),
        Candidate::kept(Ok(node("d2", true))),
        Candidate::kept(Ok(node("f2", false))),
    ];
    let (errs, mut ok) = split_failed(cands);
    assert_eq!(errs.iter().map(label).collect::<Vec<_>>(), vec!["!e1", "!e2"]);
    assert_eq!(ok.iter().map(label).collect::<Vec<_>>(), vec!["f1", "d1", "d2", "f2"]);
    // A comparator that orders names in reverse.
    ok.sort_by(|a, b| label(b).cmp(&label(a)));
    let joined = failed_first(errs, ok);
    assert_eq!(joined.iter().map(label).collect::<Vec<_>>(), vec!["!e1", "!e2", "f2", "f1", "d2", "d1"]);
    let grouped = group_dirs(joined);
    assert_eq!(grouped.iter().map(label).collect::<Vec<_>>(), vec!["d2", "d1", "!e1", "!e2", "f2", "f1"]);
}

#[test]
fn listing_order_puts_failed_first_then_groups() {
    let failed_part = vec![failed("e1")];
    let resolved = vec![
        Candidate::kept(Ok(node("f2", false))),
        Candidate::kept(Ok(node("d2", true))),
        Candidate::kept(Ok(node("f1", false))),
        Candidate::kept(Ok(node("d1", true))),
    ];
    let plain = listing_order(failed_part, resolved, false);
    assert_eq!(plain.iter().map(label).collect::<Vec<_>>(), vec!["!e1", "f2", "d2", "f1", "d1"]);

    let grouped = listing_order(
        vec![failed("e1")],
        vec![
            Candidate::kept(Ok(node("f2", false))),
            Candidate::kept(Ok(node("d2", true))),
            Candidate::kept(Ok(node("f1", false))),
            Candidate::kept(Ok(node("d1", true))),
        ],
        true,
    );
    assert_eq!(grouped.iter().map(label).collect::<Vec<_>>(), vec!["d2", "d1", "!e1", "f2", "f1"]);
}

#[test]
fn listing_order_without_a_comparator_keeps_read_order() {
    let entries = vec![
        Candidate::kept(Ok(node("b", false))),
        failed("x"),
        Candidate::kept(Ok(node("a", true))),
    ];
    let got = listing_order(Vec::new(), entries, false);
    assert_eq!(got.iter().map(label).collect::<Vec<_>>(), vec!["b", "!x", "a"]);
}

#[test]
fn listing_by_key_sorts_and_unwraps() {
    let places: Vec<Ordered<u64, String>> = vec![
        place(Candidate::kept(Ok(node("big", false))), Some(100), b"big".to_vec(), true),
        place(Candidate::kept(Ok(node("dir", true))), Some(999), b"dir".to_vec(), true),
        place(Candidate::kept(Ok(node("small", false))), Some(1), b"small".to_vec(), true),
        place(failed("broken"), Some(0), b"broken".to_vec(), true),
    ];
    let got: Vec<String> = listing_by_key(places).iter().map(label).collect();
    assert_eq!(got, vec!["dir", "!broken", "small", "big"]);
}

#[test]
fn failed_child_is_reported_as_it_stands() {
    let c: Candidate<String> = failed_child(Error::loop_detected(PathBuf::from("a/b"), 2)).unwrap();
    assert!(c.yielded);
    match c.entry {
        Err(e) => {
            assert!(e.is_loop());
            assert_eq!(e.depth(), 2);
        }
        Ok(_) => panic!("a failed child stays failed"),
    }
}

#[test]
fn child_depth_is_one_below_the_pending_directory() {
    let root = Node { depth: 0, is_dir: true, hidden: false, reparse_point: false, data: "root".to_string() };
    let mut t: Traversal<String> = Traversal::new(WalkDirOptions::default(), Platform::Unix, true, None, Ok(root));
    assert_eq!(t.child_depth(), None);
    assert!(t.awaiting() == Awaiting::Next);
    let action = t.next_action();
    assert!(matches!(action, Action::ReadSorted));
    assert_eq!(t.child_depth(), Some(1));
}

#[test]
fn continue_everywhere_keeps_what_no_filter_keeps() {
    for (skip_hidden, hidden) in [(false, false), (false, true), (true, false), (true, true)] {
        let unfiltered = screen(skip_hidden, hidden, false);
        let filtered = screen(skip_hidden, hidden, true);
        assert_eq!(unfiltered == Screening::Drop, filtered == Screening::Drop);
        if filtered == Screening::Consult {
            assert_eq!(unfiltered, Screening::Keep);
            for is_dir in [false, true] {
                let c = apply_verdict(node(if is_dir { "d" } else { "f" }, is_dir), Filtering::Continue).unwrap();
                assert!(c.yielded);
            }
        }
    }
}

#[test]
fn a_batch_reads_up_to_concurrency_and_stops_at_the_end_or_an_error() {
    // A fresh batch reads.
    assert!(batch_reads_on(0, 3, Read::Entry));
    // It reads on after each child until it holds `concurrency` of them.
    assert!(batch_reads_on(2, 3, Read::Entry));
    assert!(!batch_reads_on(3, 3, Read::Entry));
    // The end of the directory, or a read error, closes it.
    assert!(!batch_reads_on(1, 3, Read::End));
    assert!(!batch_reads_on(1, 3, Read::Failed));
    // Simulate a directory of five children read with concurrency two.
    let mut remaining = 5usize;
    let mut sizes = Vec::new();
    loop {
        let mut held = 0usize;
        let mut last = Read::Entry;
        while batch_reads_on(held, 2, last) {
            last = if remaining > 0 {
                remaining -= 1;
                held += 1;
                Read::Entry
            } else {
                Read::End
            };
        }
        if held == 0 {
            break;
        }
        sizes.push(held);
    }
    assert_eq!(sizes, vec![2, 2, 1]);
}

// ---------------------------------------------------------------------------
// Pagination and fan-out
// ---------------------------------------------------------------------------

#[test]
fn pager_skips_then_yields_then_stops() {
    let mut p = Pager::new(2, 3);
    let mut shown = Vec::new();
    for i in 0..10 {
        if p.exhausted() {
            break;
        }
        if p.advance() {
            shown.push(i);
        }
    }
    assert_eq!(shown, vec![3, 4]);
    assert!(p.exhausted());
}

#[test]
fn test_order_is_identical_at_every_concurrency_for_the_streaming_path() {
    // Results placed by position, whatever order they complete in.
    let values = vec!["a", "b", "c", "d", "e"];
    for order in [[0usize, 1, 2, 3, 4], [4, 3, 2, 1, 0], [2, 0, 4, 1, 3]] {
        let mut slots: Slots<&str> = Slots::new(values.len());
        assert!(!slots.is_full());
        for i in order {
            slots.fill(i, values[i]);
        }
        assert!(slots.is_full());
        assert_eq!(slots.into_values(), values);
    }
}

#[test]
fn fan_out_schedule() {
    assert!(runs_sequentially(1, 10));
    assert!(runs_sequentially(8, 1));
    assert!(!runs_sequentially(8, 2));
    assert_eq!(initial_spawns(32, 5), 5);
    assert_eq!(initial_spawns(4, 50), 4);
    assert_eq!(Slots::<u8>::new(3).len(), 3);
}
