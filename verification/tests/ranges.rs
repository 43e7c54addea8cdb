use linesearch::ranges::{merge, merge_windows, window, ContextRange};

fn range(start: usize, end: usize) -> ContextRange {
    ContextRange { start, end }
}

#[test]
fn window_reaches_before_and_after() {
    assert_eq!(window(10, 2, 3, 99), range(8, 13));
    assert_eq!(window(10, 0, 0, 99), range(10, 10));
}

#[test]
fn window_stops_at_first_line() {
    assert_eq!(window(0, 5, 0, 9), range(0, 0));
    assert_eq!(window(3, 5, 0, 9), range(0, 3));
}

#[test]
fn window_stops_at_last_line() {
    assert_eq!(window(9, 0, 5, 9), range(9, 9));
    assert_eq!(window(7, 0, 5, 9), range(7, 9));
}

#[test]
fn window_takes_the_largest_widths() {
    assert_eq!(window(5, usize::MAX, usize::MAX, 9), range(0, 9));
    assert_eq!(window(usize::MAX, 1, 1, usize::MAX), range(usize::MAX - 1, usize::MAX));
}

#[test]
fn merge_of_no_matches_is_empty() {
    assert_eq!(merge(&vec![], 3, 3, 10), vec![]);
}

#[test]
fn merge_keeps_ranges_apart_across_a_gap() {
    // lines 0..=3, matches on 0 and 3, one line after: windows (0,1) and
    // (3,3), and line 2 is left out
    assert_eq!(merge(&vec![0, 3], 0, 1, 3), vec![range(0, 1), range(3, 3)]);
}

#[test]
fn merge_joins_a_window_that_reaches_back_to_the_range_before() {
    // lines 0..=3, matches on 1 and 3, one line before: windows (0,1) and
    // (2,3), with no line between them
    assert_eq!(merge(&vec![1, 3], 1, 0, 3), vec![range(0, 3)]);
}

#[test]
fn merge_joins_overlapping_windows() {
    // windows (1,2) and (2,3) overlap
    assert_eq!(merge(&vec![1, 2], 0, 1, 3), vec![range(1, 3)]);
}

#[test]
fn merge_joins_windows_that_touch() {
    // windows (0,1) and (2,3): no line between them
    assert_eq!(merge(&vec![0, 2], 0, 1, 9), vec![range(0, 3)]);
    // neighbouring matches without any context touch too
    assert_eq!(merge(&vec![4, 5, 6], 0, 0, 9), vec![range(4, 6)]);
}

#[test]
fn merge_splits_on_a_single_line_gap() {
    // windows (4,4) and (6,6): line 5 lies between them
    assert_eq!(merge(&vec![4, 6], 0, 0, 9), vec![range(4, 4), range(6, 6)]);
}

#[test]
fn merge_clamps_at_both_ends() {
    assert_eq!(merge(&vec![0], 5, 0, 9), vec![range(0, 0)]);
    assert_eq!(merge(&vec![9], 0, 5, 9), vec![range(9, 9)]);
    assert_eq!(merge(&vec![0, 9], 5, 5, 9), vec![range(0, 9)]);
    assert_eq!(merge(&vec![2, 7], usize::MAX, usize::MAX, 9), vec![range(0, 9)]);
}

#[test]
fn merge_keeps_the_longer_end() {
    // a later window that ends before the current range does not shorten it
    let windows = vec![range(0, 8), range(2, 3), range(9, 9), range(20, 21)];
    assert_eq!(merge_windows(&windows), vec![range(0, 9), range(20, 21)]);
}

#[test]
fn merge_holds_every_match_in_one_range() {
    let matches = vec![0, 1, 5, 11, 12, 30, 31, 47];
    let ranges = merge(&matches, 2, 3, 49);
    for m in &matches {
        let holding = ranges.iter().filter(|r| r.start <= *m && *m <= r.end).count();
        assert_eq!(holding, 1);
    }
    for pair in ranges.windows(2) {
        assert!(pair[0].end + 1 < pair[1].start);
    }
    for line in 0..50usize {
        let in_range = ranges.iter().any(|r| r.start <= line && line <= r.end);
        let in_window = matches.iter().any(|m| m.saturating_sub(2) <= line && line <= (m + 3).min(49));
        assert_eq!(in_range, in_window);
    }
    assert_eq!(ranges, vec![range(0, 15), range(28, 34), range(45, 49)]);
}

#[test]
fn merge_of_merged_ranges_changes_nothing() {
    let ranges = merge(&vec![1, 3, 10, 11, 40], 1, 2, 50);
    assert_eq!(ranges, vec![range(0, 5), range(9, 13), range(39, 42)]);
    assert_eq!(merge_windows(&ranges), ranges);
}
