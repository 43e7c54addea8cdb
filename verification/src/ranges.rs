//! Context ranges: the window of lines around one match, and the merging of
//! nearby windows into the blocks that are printed.

use vstd::prelude::*;

verus! {

/// An inclusive span of line indices, `start ..= end`.
#[derive(Clone, Copy, Debug, PartialEq, Eq, Structural)]
pub struct ContextRange {
    pub start: usize,
    pub end: usize,
}

impl ContextRange {
    /// Whether the line with index `line` lies inside this range.
    pub open spec fn covers(self, line: int) -> bool {
        self.start <= line <= self.end
    }
}

/// The window around the match at line `m`: `before` lines above it and
/// `after` lines below it, cut off at line 0 and at line `last_index`.
pub open spec fn window_of(m: usize, before: usize, after: usize, last_index: usize) -> ContextRange {
    ContextRange {
        start: if m >= before {
            (m - before) as usize
        } else {
            0
        },
        end: if m + after <= last_index {
            (m + after) as usize
        } else {
            last_index
        },
    }
}

/// Computes the window around the match at line `m`. Neither width can carry
/// the window below line 0 or past `last_index`, however large it is.
pub fn window(m: usize, before: usize, after: usize, last_index: usize) -> (w: ContextRange)
    ensures
        w == window_of(m, before, after, last_index),
        w.start == if m >= before {
            m - before
        } else {
            0
        },
        w.end == if m + after <= last_index {
            m + after
        } else {
            last_index as int
        },
        w.end <= last_index,
        m <= last_index ==> w.start <= m <= w.end,
{
    let start = if m >= before {
        m - before
    } else {
        0
    };
    let end = match m.checked_add(after) {
        Some(e) => if e <= last_index {
            e
        } else {
            last_index
        },
        None => last_index,
    };
    ContextRange { start, end }
}

/// The match indices of a file whose last line has index `last_index`:
/// strictly increasing, none past the last line.
pub open spec fn is_match_set(matches: Seq<usize>, last_index: usize) -> bool {
    &&& forall|i: int, j: int| 0 <= i < j < matches.len() ==> matches[i] < matches[j]
    &&& forall|i: int| 0 <= i < matches.len() ==> matches[i] <= last_index
}

/// The windows around each of `matches`, in the order of the matches.
pub open spec fn windows_of(
    matches: Seq<usize>,
    before: usize,
    after: usize,
    last_index: usize,
) -> Seq<ContextRange> {
    Seq::new(matches.len(), |k: int| window_of(matches[k], before, after, last_index))
}

/// Windows as a sorted match set gives them: none empty, and none starting
/// before an earlier one.
pub open spec fn ordered_windows(windows: Seq<ContextRange>) -> bool {
    &&& forall|i: int| 0 <= i < windows.len() ==> (#[trigger] windows[i]).start <= windows[i].end
    &&& forall|i: int, j: int|
        0 <= i < j < windows.len() ==> (#[trigger] windows[i]).start <= (#[trigger] windows[j]).start
}

/// Ranges that can be printed as separate blocks: none empty, in increasing
/// order, and with at least one line left out between any two of them.
pub open spec fn separated(ranges: Seq<ContextRange>) -> bool {
    &&& forall|i: int| 0 <= i < ranges.len() ==> (#[trigger] ranges[i]).start <= ranges[i].end
    &&& forall|i: int, j: int|
        0 <= i < j < ranges.len() ==> (#[trigger] ranges[i]).end + 1 < (#[trigger] ranges[j]).start
}

/// Whether some range of `ranges` holds the line with index `line`.
pub open spec fn covered(ranges: Seq<ContextRange>, line: int) -> bool {
    exists|i: int| 0 <= i < ranges.len() && (#[trigger] ranges[i]).covers(line)
}

/// Whether `w` starts inside the last range of `merged` or on the line right
/// after it, so that the two are printed as one block.
pub open spec fn touches_last(merged: Seq<ContextRange>, w: ContextRange) -> bool {
    merged.len() > 0 && w.start <= merged.last().end + 1
}

/// One step of merging: `w` either stretches the last range of `merged` as
/// far as its own end, or is added as a new last range.
pub open spec fn absorb(merged: Seq<ContextRange>, w: ContextRange) -> Seq<ContextRange> {
    if touches_last(merged, w) {
        let last = merged.last();
        merged.update(
            merged.len() - 1,
            ContextRange {
                start: last.start,
                end: if w.end > last.end {
                    w.end
                } else {
                    last.end
                },
            },
        )
    } else {
        merged.push(w)
    }
}

/// The ranges that `windows` merge into, taken from the first to the last.
pub open spec fn merged(windows: Seq<ContextRange>) -> Seq<ContextRange>
    decreases windows.len(),
{
    if windows.len() == 0 {
        Seq::empty()
    } else {
        absorb(merged(windows.drop_last()), windows.last())
    }
}

/// The windows of a match set are ordered, each holds its match, and none
/// ends past the last line.
pub proof fn lemma_windows_ordered(matches: Seq<usize>, before: usize, after: usize, last_index: usize)
    requires
        is_match_set(matches, last_index),
    ensures
        ordered_windows(windows_of(matches, before, after, last_index)),
        forall|k: int|
            0 <= k < matches.len() ==> (#[trigger] windows_of(
                matches,
                before,
                after,
                last_index,
            )[k]).covers(matches[k] as int),
        forall|k: int|
            0 <= k < matches.len() ==> (#[trigger] windows_of(
                matches,
                before,
                after,
                last_index,
            )[k]).end <= last_index,
{
}

/// A line is held by a sequence of ranges when its last range holds it or
/// one of the ranges before that does.
proof fn lemma_covered_by_last_or_earlier(ranges: Seq<ContextRange>, line: int)
    requires
        ranges.len() > 0,
    ensures
        covered(ranges, line) <==> covered(ranges.drop_last(), line) || ranges.last().covers(line),
{
    let head = ranges.drop_last();
    if covered(ranges, line) {
        let i = choose|i: int| 0 <= i < ranges.len() && (#[trigger] ranges[i]).covers(line);
        if i < head.len() {
            assert(head[i].covers(line));
        }
    }
    if covered(head, line) {
        let i = choose|i: int| 0 <= i < head.len() && (#[trigger] head[i]).covers(line);
        assert(ranges[i].covers(line));
    }
    if ranges.last().covers(line) {
        assert(ranges[ranges.len() - 1].covers(line));
    }
}

/// What merging ordered windows gives: separated ranges that hold exactly the
/// lines the windows hold, and that end no later than the last window does.
pub proof fn lemma_merged_is_separated(windows: Seq<ContextRange>)
    requires
        ordered_windows(windows),
    ensures
        separated(merged(windows)),
        forall|line: int| covered(merged(windows), line) <==> covered(windows, line),
        merged(windows).len() <= windows.len(),
        windows.len() > 0 ==> merged(windows).len() > 0 && merged(windows).last().start
            <= windows.last().start && merged(windows).last().end >= windows.last().end,
    decreases windows.len(),
{
    if windows.len() > 0 {
        let head = windows.drop_last();
        let w = windows.last();
        let prev = merged(head);
        let next = merged(windows);
        lemma_merged_is_separated(head);
        assert(next == absorb(prev, w));
        if touches_last(prev, w) {
            assert(head.last() == windows[windows.len() - 2]);
            assert(prev.last().start <= w.start);
            assert(next.drop_last() =~= prev.drop_last());
        } else {
            assert(next.drop_last() =~= prev);
        }
        assert forall|line: int| covered(next, line) <==> covered(windows, line) by {
            lemma_covered_by_last_or_earlier(next, line);
            lemma_covered_by_last_or_earlier(windows, line);
            assert(covered(prev, line) <==> covered(head, line));
            if touches_last(prev, w) {
                lemma_covered_by_last_or_earlier(prev, line);
            }
        }
    }
}

/// Separated ranges are already merged: merging them changes nothing.
pub proof fn lemma_merged_of_separated(ranges: Seq<ContextRange>)
    requires
        separated(ranges),
    ensures
        merged(ranges) == ranges,
    decreases ranges.len(),
{
    if ranges.len() > 0 {
        let head = ranges.drop_last();
        lemma_merged_of_separated(head);
        if head.len() > 0 {
            assert(head.last() == ranges[ranges.len() - 2]);
        }
        assert(head.push(ranges.last()) =~= ranges);
    }
}

/// Merging is idempotent: merging the ranges that ordered windows merged
/// into, each taken as a window of its own, gives the same ranges again.
pub proof fn lemma_merge_idempotent(windows: Seq<ContextRange>)
    requires
        ordered_windows(windows),
    ensures
        merged(merged(windows)) == merged(windows),
{
    lemma_merged_is_separated(windows);
    lemma_merged_of_separated(merged(windows));
}

/// No line lies in two of a sequence of separated ranges.
pub proof fn lemma_one_range_per_line(ranges: Seq<ContextRange>, i: int, j: int, line: int)
    requires
        separated(ranges),
        0 <= i < ranges.len(),
        0 <= j < ranges.len(),
        ranges[i].covers(line),
        ranges[j].covers(line),
    ensures
        i == j,
{
}

/// Separated ranges without their last range hold the lines they held
/// before that lie above the last range.
proof fn lemma_covered_before_last(ranges: Seq<ContextRange>, line: int)
    requires
        separated(ranges),
        ranges.len() > 0,
    ensures
        covered(ranges.drop_last(), line) <==> covered(ranges, line) && line < ranges.last().start,
{
    let head = ranges.drop_last();
    lemma_covered_by_last_or_earlier(ranges, line);
    if covered(head, line) {
        let i = choose|i: int| 0 <= i < head.len() && (#[trigger] head[i]).covers(line);
        assert(ranges[i].end + 1 < ranges[ranges.len() - 1].start);
    }
}

/// The last of a sequence of separated ranges ends on the last line that the
/// sequence holds.
proof fn lemma_last_range_ends_last(ranges: Seq<ContextRange>, line: int)
    requires
        separated(ranges),
        covered(ranges, line),
    ensures
        ranges.len() > 0,
        line <= ranges.last().end,
{
    let i = choose|i: int| 0 <= i < ranges.len() && (#[trigger] ranges[i]).covers(line);
    if i < ranges.len() - 1 {
        assert(ranges[i].end + 1 < ranges[ranges.len() - 1].start);
    }
}

/// A line that separated ranges hold above the start of their last range is
/// held by an earlier range, and so lies more than one line above that
/// start.
proof fn lemma_gap_before_last(ranges: Seq<ContextRange>, line: int)
    requires
        separated(ranges),
        covered(ranges, line),
        line < ranges.last().start,
    ensures
        line + 1 < ranges.last().start,
{
    let i = choose|i: int| 0 <= i < ranges.len() && (#[trigger] ranges[i]).covers(line);
    assert(i < ranges.len() - 1);
    assert(ranges[i].end + 1 < ranges[ranges.len() - 1].start);
}

/// Separated ranges are fixed by the lines they hold: two sequences of
/// separated ranges that hold the same lines are the same sequence. So what
/// `merge` promises of its result leaves room for one result only.
pub proof fn lemma_separated_unique(a: Seq<ContextRange>, b: Seq<ContextRange>)
    requires
        separated(a),
        separated(b),
        forall|line: int| covered(a, line) <==> covered(b, line),
    ensures
        a == b,
    decreases a.len(),
{
    if a.len() == 0 {
        if b.len() > 0 {
            assert(b[0].covers(b[0].start as int));
            assert(covered(b, b[0].start as int));
            assert(covered(a, b[0].start as int));
        }
        assert(a =~= b);
    } else {
        let x = a.last();
        let y = b.last();
        assert(a[a.len() - 1].covers(x.end as int));
        assert(covered(a, x.end as int));
        assert(covered(b, x.end as int));
        lemma_last_range_ends_last(b, x.end as int);
        assert(b[b.len() - 1].covers(y.end as int));
        assert(covered(b, y.end as int));
        assert(covered(a, y.end as int));
        lemma_last_range_ends_last(a, y.end as int);
        assert(x.end == y.end);
        if x.start < y.start {
            let line = y.start - 1;
            assert(a[a.len() - 1].covers(line));
            assert(covered(a, line));
            assert(covered(b, line));
            lemma_gap_before_last(b, line);
        }
        if y.start < x.start {
            let line = x.start - 1;
            assert(b[b.len() - 1].covers(line));
            assert(covered(b, line));
            assert(covered(a, line));
            lemma_gap_before_last(a, line);
        }
        assert(x == y);
        assert forall|line: int| covered(a.drop_last(), line) <==> covered(
            b.drop_last(),
            line,
        ) by {
            lemma_covered_before_last(a, line);
            lemma_covered_before_last(b, line);
        }
        lemma_separated_unique(a.drop_last(), b.drop_last());
        assert(a =~= a.drop_last().push(x));
        assert(b =~= b.drop_last().push(y));
    }
}

/// Merging never carries a range past the furthest end among the windows.
pub proof fn lemma_merged_within(windows: Seq<ContextRange>, last_index: usize)
    requires
        forall|k: int| 0 <= k < windows.len() ==> (#[trigger] windows[k]).end <= last_index,
    ensures
        forall|i: int|
            0 <= i < merged(windows).len() ==> (#[trigger] merged(windows)[i]).end <= last_index,
    decreases windows.len(),
{
    if windows.len() > 0 {
        let prev = merged(windows.drop_last());
        let next = merged(windows);
        lemma_merged_within(windows.drop_last(), last_index);
        assert(windows.last() == windows[windows.len() - 1]);
        assert(next == absorb(prev, windows.last()));
        assert forall|i: int| 0 <= i < next.len() implies (#[trigger] next[i]).end <= last_index by {
            if i < prev.len() {
                assert(prev[i].end <= last_index);
            }
        }
    }
}

/// Takes one more window into the ranges merged so far.
fn absorb_into(ranges: &mut Vec<ContextRange>, w: ContextRange)
    ensures
        final(ranges)@ == absorb(old(ranges)@, w),
{
    let n = ranges.len();
    if n > 0 {
        let last = ranges[n - 1];
        if w.start <= last.end || w.start - last.end == 1 {
            let end = if w.end > last.end {
                w.end
            } else {
                last.end
            };
            ranges.set(n - 1, ContextRange { start: last.start, end });
            return ;
        }
    }
    ranges.push(w);
}

/// Merges windows into the blocks to print. A window that starts inside the
/// range before it, or on the line right after it, is joined to that range;
/// any other window opens a new range.
pub fn merge_windows(windows: &Vec<ContextRange>) -> (ranges: Vec<ContextRange>)
    ensures
        ranges@ == merged(windows@),
        ordered_windows(windows@) ==> separated(ranges@),
        ordered_windows(windows@) ==> forall|line: int|
            covered(ranges@, line) <==> covered(windows@, line),
        separated(windows@) ==> ranges@ == windows@,
{
    let mut ranges: Vec<ContextRange> = Vec::new();
    let mut i: usize = 0;
    while i < windows.len()
        invariant
            i <= windows.len(),
            ranges@ == merged(windows@.take(i as int)),
        decreases windows.len() - i,
    {
        proof {
            assert(windows@.take(i + 1).drop_last() =~= windows@.take(i as int));
        }
        absorb_into(&mut ranges, windows[i]);
        i += 1;
    }
    proof {
        assert(windows@.take(i as int) =~= windows@);
        if ordered_windows(windows@) {
            lemma_merged_is_separated(windows@);
        }
        if separated(windows@) {
            lemma_merged_of_separated(windows@);
        }
    }
    ranges
}

/// Computes the blocks to print for the matches of one file: the window of
/// each match, with windows that overlap or touch merged into one range.
///
/// For a match set the ranges are separated, none runs past `last_index`,
/// together they hold exactly the lines of the windows, and every match lies
/// in one of them.
pub fn merge(matches: &Vec<usize>, before: usize, after: usize, last_index: usize) -> (ranges: Vec<
    ContextRange,
>)
    ensures
        ranges@ == merged(windows_of(matches@, before, after, last_index)),
        matches@.len() == 0 ==> ranges@.len() == 0,
        is_match_set(matches@, last_index) ==> separated(ranges@),
        is_match_set(matches@, last_index) ==> forall|i: int|
            0 <= i < ranges@.len() ==> (#[trigger] ranges@[i]).end <= last_index,
        is_match_set(matches@, last_index) ==> forall|line: int|
            covered(ranges@, line) <==> covered(
                windows_of(matches@, before, after, last_index),
                line,
            ),
        is_match_set(matches@, last_index) ==> forall|k: int|
            0 <= k < matches@.len() ==> covered(ranges@, #[trigger] matches@[k] as int),
{
    let ghost windows = windows_of(matches@, before, after, last_index);
    let mut ranges: Vec<ContextRange> = Vec::new();
    let mut i: usize = 0;
    while i < matches.len()
        invariant
            i <= matches.len(),
            windows == windows_of(matches@, before, after, last_index),
            ranges@ == merged(windows.take(i as int)),
        decreases matches.len() - i,
    {
        proof {
            assert(windows.take(i + 1).drop_last() =~= windows.take(i as int));
        }
        let w = window(matches[i], before, after, last_index);
        absorb_into(&mut ranges, w);
        i += 1;
    }
    proof {
        assert(windows.take(i as int) =~= windows);
        if is_match_set(matches@, last_index) {
            lemma_windows_ordered(matches@, before, after, last_index);
            lemma_merged_is_separated(windows);
            lemma_merged_within(windows, last_index);
            assert forall|k: int| 0 <= k < matches@.len() implies covered(
                ranges@,
                #[trigger] matches@[k] as int,
            ) by {
                assert(windows[k].covers(matches@[k] as int));
                assert(covered(windows, matches@[k] as int));
            }
        }
    }
    ranges
}

} // verus!
