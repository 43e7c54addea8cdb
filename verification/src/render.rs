//! The result renderer: the lines that are written out for one file, in
//! blocks under the file's name or as one flat record per line.

use crate::decimal::{decimal, decimal_text, lemma_decimal_starts_with_digit};
use crate::highlight::{highlight_regex, painted};
use crate::pattern::{regex_find_spans, spans_in_order, Pattern};
use crate::ranges::{
    absorb, is_match_set, lemma_merged_is_separated,
    lemma_windows_ordered, merge, merged, touches_last, windows_of, ContextRange,
};
use crate::scan::{lemma_matching_lines, matching_lines, scan};
use std::collections::HashSet;
use vstd::prelude::*;
use vstd::string::*;

verus! {

broadcast use vstd::std_specs::hash::group_hash_axioms;

/// The line that stands between two blocks under a heading.
pub open spec fn separator() -> Seq<char> {
    seq!['-', '-']
}

/// The mark behind a line number: a colon on a line that matches, a dash on a
/// line that is only context.
pub open spec fn mark(is_match: bool) -> Seq<char> {
    if is_match {
        seq![':']
    } else {
        seq!['-']
    }
}

/// One line of output: number, mark and content under a heading; file name,
/// mark, number, mark and content without one.
pub open spec fn formatted(
    filename: Seq<char>,
    heading: bool,
    number: nat,
    is_match: bool,
    content: Seq<char>,
) -> Seq<char> {
    if heading {
        decimal(number) + mark(is_match) + content
    } else {
        filename + mark(is_match) + decimal(number) + mark(is_match) + content
    }
}

/// What the output of one file is made from.
pub struct RenderPlan {
    /// The blocks to print, as ranges of line indices.
    pub ranges: Seq<ContextRange>,
    /// The indices of the lines that match.
    pub matches: Seq<usize>,
    /// The lines of the file.
    pub lines: Seq<Seq<char>>,
    /// The name the file is printed under.
    pub filename: Seq<char>,
    /// The source of the pattern that was searched for.
    pub source: Seq<char>,
    /// Whether the lines stand in blocks under the file's name.
    pub heading: bool,
    /// Whether matches are highlighted.
    pub color: bool,
}

impl RenderPlan {
    /// Whether the line with index `idx` is a match line.
    pub open spec fn is_match(self, idx: int) -> bool {
        self.matches.contains(idx as usize)
    }

    /// The content printed for the line with index `idx`: the line with its
    /// matches highlighted where it is a match line and colour is on, the
    /// line as it is otherwise.
    pub open spec fn content(self, idx: int) -> Seq<char> {
        if self.is_match(idx) && self.color {
            painted(self.lines[idx], regex_find_spans(self.source, self.lines[idx]))
        } else {
            self.lines[idx]
        }
    }

    /// Whether, if the line with index `idx` is highlighted, the matches
    /// found in it are spans in order, so that highlighting them keeps all
    /// of the line.
    pub open spec fn keeps_line(self, idx: int) -> bool {
        self.is_match(idx) && self.color ==> spans_in_order(
            self.lines[idx],
            regex_find_spans(self.source, self.lines[idx]),
        )
    }

    /// Whether every line of the first `n` ranges is kept whole.
    pub open spec fn keeps_lines(self, n: int) -> bool {
        forall|i: int, idx: int|
            0 <= i < n && (#[trigger] self.ranges[i].covers(idx)) ==> self.keeps_line(idx)
    }

    /// The output line for the line with index `idx`, numbered from 1.
    pub open spec fn line(self, idx: int) -> Seq<char> {
        formatted(
            self.filename,
            self.heading,
            (idx + 1) as nat,
            self.is_match(idx),
            self.content(idx),
        )
    }

    /// The output lines of one range: one for each of its lines, in order.
    pub open spec fn block(self, range: ContextRange) -> Seq<Seq<char>> {
        Seq::new(
            if range.start <= range.end {
                (range.end - range.start + 1) as nat
            } else {
                0
            },
            |k: int| self.line(range.start + k),
        )
    }

    /// The separator line, where one stands before the range with index
    /// `r`: under a heading, before every range but the first.
    pub open spec fn gap(self, r: int) -> Seq<Seq<char>> {
        if self.heading && r > 0 {
            seq![separator()]
        } else {
            Seq::empty()
        }
    }

    /// The output lines of the first `n` ranges.
    pub open spec fn body(self, n: int) -> Seq<Seq<char>>
        decreases n,
    {
        if n <= 0 {
            Seq::empty()
        } else {
            self.body(n - 1) + self.gap(n - 1) + self.block(self.ranges[n - 1])
        }
    }

    /// The header: the file's name, once, where the output has a heading.
    pub open spec fn header(self) -> Seq<Seq<char>> {
        if self.heading {
            seq![self.filename]
        } else {
            Seq::empty()
        }
    }

    /// All output lines of the file.
    pub open spec fn output(self) -> Seq<Seq<char>> {
        self.header() + self.body(self.ranges.len() as int)
    }
}

/// How often `line` stands in `lines`.
pub open spec fn count_of(lines: Seq<Seq<char>>, line: Seq<char>) -> nat
    decreases lines.len(),
{
    if lines.len() == 0 {
        0
    } else {
        count_of(lines.drop_last(), line) + if lines.last() == line {
            1nat
        } else {
            0nat
        }
    }
}

/// Counting in two sequences joined is counting in each and adding up.
proof fn lemma_count_of_joined(a: Seq<Seq<char>>, b: Seq<Seq<char>>, line: Seq<char>)
    ensures
        count_of(a + b, line) == count_of(a, line) + count_of(b, line),
    decreases b.len(),
{
    if b.len() == 0 {
        assert(a + b =~= a);
    } else {
        lemma_count_of_joined(a, b.drop_last(), line);
        assert((a + b).drop_last() =~= a + b.drop_last());
    }
}

/// A line that holds a line number is never the separator line.
pub proof fn lemma_line_is_no_separator(
    filename: Seq<char>,
    heading: bool,
    number: nat,
    is_match: bool,
    content: Seq<char>,
)
    ensures
        formatted(filename, heading, number, is_match, content) != separator(),
{
    lemma_decimal_starts_with_digit(number);
    let text = formatted(filename, heading, number, is_match, content);
    if heading {
        assert(text[0] == decimal(number)[0]);
    } else {
        assert(text.len() >= 3);
    }
}

/// Under a heading the separator line stands once between every two blocks
/// and nowhere else: in what follows the header it is found one time less
/// than there are ranges. Without a heading it is not found at all.
pub proof fn lemma_separator_count(plan: RenderPlan, n: int)
    requires
        0 <= n <= plan.ranges.len(),
    ensures
        count_of(plan.body(n), separator()) == if plan.heading && n > 0 {
            n - 1
        } else {
            0
        },
    decreases n,
{
    if n > 0 {
        lemma_separator_count(plan, n - 1);
        let block = plan.block(plan.ranges[n - 1]);
        lemma_no_separator_in_block(plan, plan.ranges[n - 1], block.len() as int);
        assert(block.take(block.len() as int) =~= block);
        lemma_count_of_joined(plan.body(n - 1), plan.gap(n - 1), separator());
        lemma_count_of_joined(plan.body(n - 1) + plan.gap(n - 1), block, separator());
        let gap = plan.gap(n - 1);
        if plan.heading && n - 1 > 0 {
            assert(gap.drop_last() =~= Seq::<Seq<char>>::empty());
            assert(gap.last() == separator());
            assert(count_of(gap.drop_last(), separator()) == 0);
            assert(count_of(gap, separator()) == 1);
        } else {
            assert(count_of(gap, separator()) == 0);
        }
    }
}

/// Under a heading the output of a file with at least one range starts with
/// the file's name, and after that holds the separator line one time less
/// than there are ranges.
pub proof fn lemma_separators_in_output(plan: RenderPlan)
    requires
        plan.heading,
        plan.ranges.len() > 0,
    ensures
        plan.output().len() > 0,
        plan.output()[0] == plan.filename,
        count_of(plan.output().drop_first(), separator()) == plan.ranges.len() - 1,
{
    lemma_separator_count(plan, plan.ranges.len() as int);
    assert(plan.output().drop_first() =~= plan.body(plan.ranges.len() as int));
}

/// No line of a block is the separator line.
proof fn lemma_no_separator_in_block(plan: RenderPlan, range: ContextRange, k: int)
    requires
        0 <= k <= plan.block(range).len(),
    ensures
        count_of(plan.block(range).take(k), separator()) == 0,
    decreases k,
{
    if k > 0 {
        let block = plan.block(range);
        lemma_no_separator_in_block(plan, range, k - 1);
        assert(block.take(k).drop_last() =~= block.take(k - 1));
        let idx = range.start + k - 1;
        lemma_line_is_no_separator(
            plan.filename,
            plan.heading,
            (idx + 1) as nat,
            plan.is_match(idx),
            plan.content(idx),
        );
    }
}

/// Adds one line to the output.
fn push_line(out: &mut Vec<String>, text: String)
    ensures
        final(out).deep_view() == old(out).deep_view().push(text@),
{
    out.push(text);
    assert(out.deep_view() =~= old(out).deep_view().push(text@));
}

/// The set of the match indices, for looking one up.
fn index_set(matches: &Vec<usize>) -> (set: HashSet<usize>)
    ensures
        forall|x: usize| set@.contains(x) <==> matches@.contains(x),
{
    let mut set: HashSet<usize> = HashSet::new();
    let mut m: usize = 0;
    while m < matches.len()
        invariant
            m <= matches.len(),
            forall|x: usize| set@.contains(x) <==> matches@.take(m as int).contains(x),
        decreases matches.len() - m,
    {
        let ghost seen = matches@.take(m as int);
        let ghost now = matches@.take(m + 1);
        set.insert(matches[m]);
        proof {
            assert(now =~= seen.push(matches@[m as int]));
            assert forall|x: usize| set@.contains(x) <==> now.contains(x) by {
                if seen.contains(x) {
                    let j = choose|j: int| 0 <= j < seen.len() && seen[j] == x;
                    assert(now[j] == x);
                }
                if x == matches@[m as int] {
                    assert(now[m as int] == x);
                }
            }
        }
        m += 1;
    }
    assert(matches@.take(m as int) =~= matches@);
    set
}

/// Writes one line of output: under a heading the line number, a mark and the
/// content; without a heading the file name, a mark, the line number, the
/// mark again and the content. The mark is a colon on a match line and a dash
/// on a context line.
pub fn format_line(
    filename: &str,
    with_heading: bool,
    number: usize,
    is_match: bool,
    content: &str,
) -> (text: String)
    ensures
        text@ == formatted(filename@, with_heading, number as nat, is_match, content@),
{
    proof {
        reveal_strlit(":");
        reveal_strlit("-");
    }
    let sep = if is_match {
        ":"
    } else {
        "-"
    };
    assert(sep@ =~= mark(is_match));
    let digits = decimal_text(number);
    if with_heading {
        let mut text = digits;
        text.append(sep);
        text.append(content);
        text
    } else {
        let mut text = String::from_str(filename);
        text.append(sep);
        text.append(digits.as_str());
        text.append(sep);
        text.append(content);
        text
    }
}

/// Writes out the ranges of one file. Under a heading the file's name comes
/// first, once, and a separator line stands between every two blocks;
/// without a heading every line carries the file's name itself and nothing
/// stands between the blocks. A match line has its matches highlighted if
/// `use_color` is set; a context line is never changed.
pub fn render(
    ranges: &Vec<ContextRange>,
    matches: &Vec<usize>,
    lines: &Vec<String>,
    filename: &str,
    pattern: &Pattern,
    with_heading: bool,
    use_color: bool,
) -> (out: Vec<String>)
    requires
        forall|i: int| 0 <= i < ranges@.len() ==> (#[trigger] ranges@[i]).end < lines@.len(),
    ensures
        out.deep_view() == (RenderPlan {
            ranges: ranges@,
            matches: matches@,
            lines: lines.deep_view(),
            filename: filename@,
            source: pattern@,
            heading: with_heading,
            color: use_color,
        }).output(),
        (RenderPlan {
            ranges: ranges@,
            matches: matches@,
            lines: lines.deep_view(),
            filename: filename@,
            source: pattern@,
            heading: with_heading,
            color: use_color,
        }).keeps_lines(ranges@.len() as int),
{
    let ghost plan = RenderPlan {
        ranges: ranges@,
        matches: matches@,
        lines: lines.deep_view(),
        filename: filename@,
        source: pattern@,
        heading: with_heading,
        color: use_color,
    };
    let match_set = index_set(matches);
    let line_count = lines.len();
    let mut out: Vec<String> = Vec::new();
    if with_heading {
        push_line(&mut out, String::from_str(filename));
    }
    assert(out.deep_view() =~= plan.header() + plan.body(0));
    let mut r: usize = 0;
    while r < ranges.len()
        invariant
            r <= ranges.len(),
            line_count == lines@.len(),
            forall|i: int| 0 <= i < ranges@.len() ==> (#[trigger] ranges@[i]).end < lines@.len(),
            forall|x: usize| match_set@.contains(x) <==> matches@.contains(x),
            plan == (RenderPlan {
                ranges: ranges@,
                matches: matches@,
                lines: lines.deep_view(),
                filename: filename@,
                source: pattern@,
                heading: with_heading,
                color: use_color,
            }),
            out.deep_view() == plan.header() + plan.body(r as int),
            plan.keeps_lines(r as int),
        decreases ranges.len() - r,
    {
        let range = ranges[r];
        let ghost block = plan.block(range);
        if with_heading && r > 0 {
            proof {
                reveal_strlit("--");
                assert("--"@ =~= separator());
            }
            push_line(&mut out, String::from_str("--"));
        }
        assert(out.deep_view() =~= plan.header() + plan.body(r as int) + plan.gap(r as int)
            + block.take(0));
        let mut idx: usize = range.start;
        while idx <= range.end
            invariant
                r < ranges.len(),
                range == ranges@[r as int],
                line_count == lines@.len(),
                range.end < lines@.len(),
                range.start <= idx,
                idx - range.start <= block.len(),
                block == plan.block(range),
                forall|x: usize| match_set@.contains(x) <==> matches@.contains(x),
                plan == (RenderPlan {
                    ranges: ranges@,
                    matches: matches@,
                    lines: lines.deep_view(),
                    filename: filename@,
                    source: pattern@,
                    heading: with_heading,
                    color: use_color,
                }),
                out.deep_view() == plan.header() + plan.body(r as int) + plan.gap(r as int)
                    + block.take(idx - range.start),
                plan.keeps_lines(r as int),
                forall|seen: int| range.start <= seen < idx ==> plan.keeps_line(seen),
            decreases range.end + 1 - idx,
        {
            let line = lines[idx].as_str();
            let is_match = match_set.contains(&idx);
            let content = if is_match && use_color {
                highlight_regex(line, pattern, true)
            } else {
                String::from_str(line)
            };
            proof {
                assert(plan.lines[idx as int] == line@);
                assert(is_match == plan.is_match(idx as int));
                assert(content@ == plan.content(idx as int));
                assert(plan.keeps_line(idx as int));
                assert(block.take(idx - range.start + 1) =~= block.take(idx - range.start).push(
                    plan.line(idx as int),
                ));
            }
            let text = format_line(filename, with_heading, idx + 1, is_match, content.as_str());
            push_line(&mut out, text);
            assert(out.deep_view() =~= plan.header() + plan.body(r as int) + plan.gap(r as int)
                + block.take(idx - range.start + 1));
            idx += 1;
        }
        proof {
            assert(block.take(idx - range.start) =~= block);
            assert(plan.header() + plan.body(r as int) + plan.gap(r as int) + block
                =~= plan.header() + plan.body(r + 1));
        }
        r += 1;
    }
    out
}

/// The blocks of one file: the windows around its matching lines, merged.
pub open spec fn search_ranges(
    lines: Seq<Seq<char>>,
    source: Seq<char>,
    before: usize,
    after: usize,
) -> Seq<ContextRange> {
    merged(windows_of(matching_lines(lines, source), before, after, (lines.len() - 1) as usize))
}

/// What the output of one file is made from when the file is searched: the
/// blocks around its matching lines, and the matching lines themselves.
pub open spec fn search_plan(
    lines: Seq<Seq<char>>,
    filename: Seq<char>,
    source: Seq<char>,
    heading: bool,
    color: bool,
    before: usize,
    after: usize,
) -> RenderPlan {
    RenderPlan {
        ranges: search_ranges(lines, source, before, after),
        matches: matching_lines(lines, source),
        lines,
        filename,
        source,
        heading,
        color,
    }
}

/// The output for one file: nothing at all if no line matches, and else the
/// blocks around its matching lines, written out.
pub open spec fn search_output(
    lines: Seq<Seq<char>>,
    filename: Seq<char>,
    source: Seq<char>,
    heading: bool,
    color: bool,
    before: usize,
    after: usize,
) -> Seq<Seq<char>> {
    if matching_lines(lines, source).len() == 0 {
        Seq::empty()
    } else {
        search_plan(lines, filename, source, heading, color, before, after).output()
    }
}

/// Searches the lines of one file and gives the lines to print for it: the
/// matching lines with `before_context` lines above each and `after_context`
/// lines below, in blocks under the file's name or, without a heading, as
/// one record per line. A file in which nothing matches gives no output, not
/// even a heading. Under a heading, a file in which something matches gives
/// its name first, and after that one separator line fewer than it has
/// blocks. Every line that is highlighted is kept whole.
pub fn search_in_file(
    filename: &str,
    lines: &Vec<String>,
    pattern: &Pattern,
    with_heading: bool,
    use_color: bool,
    before_context: usize,
    after_context: usize,
) -> (out: Vec<String>)
    ensures
        out.deep_view() == search_output(
            lines.deep_view(),
            filename@,
            pattern@,
            with_heading,
            use_color,
            before_context,
            after_context,
        ),
        matching_lines(lines.deep_view(), pattern@).len() == 0 ==> out@.len() == 0,
        with_heading && matching_lines(lines.deep_view(), pattern@).len() > 0 ==> out@.len() > 0
            && out@[0]@ == filename@ && count_of(out.deep_view().drop_first(), separator())
            == search_ranges(lines.deep_view(), pattern@, before_context, after_context).len() - 1,
        search_plan(
            lines.deep_view(),
            filename@,
            pattern@,
            with_heading,
            use_color,
            before_context,
            after_context,
        ).keeps_lines(
            search_ranges(lines.deep_view(), pattern@, before_context, after_context).len() as int,
        ),
{
    if lines.len() == 0 {
        let out: Vec<String> = Vec::new();
        assert(out.deep_view() =~= Seq::<Seq<char>>::empty());
        return out;
    }
    let matches = scan(lines, pattern);
    if matches.len() == 0 {
        let out: Vec<String> = Vec::new();
        assert(out.deep_view() =~= Seq::<Seq<char>>::empty());
        return out;
    }
    let last_index = lines.len() - 1;
    let ranges = merge(&matches, before_context, after_context, last_index);
    let out = render(&ranges, &matches, lines, filename, pattern, with_heading, use_color);
    proof {
        if with_heading {
            let windows = windows_of(matches@, before_context, after_context, last_index);
            lemma_windows_ordered(matches@, before_context, after_context, last_index);
            lemma_merged_is_separated(windows);
            lemma_separators_in_output(
                RenderPlan {
                    ranges: ranges@,
                    matches: matches@,
                    lines: lines.deep_view(),
                    filename: filename@,
                    source: pattern@,
                    heading: with_heading,
                    color: use_color,
                },
            );
            assert(out.deep_view()[0] == out@[0]@);
        }
    }
    out
}

/// One record for each of `matches`, in their order: the file's name, the
/// line's number and the line, with a colon after the name and after the
/// number.
pub open spec fn match_records(
    lines: Seq<Seq<char>>,
    filename: Seq<char>,
    matches: Seq<usize>,
) -> Seq<Seq<char>> {
    Seq::new(
        matches.len(),
        |k: int| formatted(filename, false, (matches[k] + 1) as nat, true, lines[matches[k] as int]),
    )
}

/// The output of the first `n` ranges is the same for two plans that have
/// these ranges in common and differ in nothing but their ranges.
proof fn lemma_body_of_common_ranges(p: RenderPlan, q: RenderPlan, n: int)
    requires
        q == (RenderPlan { ranges: q.ranges, ..p }),
        0 <= n <= p.ranges.len(),
        n <= q.ranges.len(),
        forall|i: int| 0 <= i < n ==> p.ranges[i] == q.ranges[i],
    ensures
        p.body(n) == q.body(n),
    decreases n,
{
    if n > 0 {
        lemma_body_of_common_ranges(p, q, n - 1);
        assert(p.block(p.ranges[n - 1]) =~= q.block(q.ranges[n - 1]));
    }
}

/// Without context every range ends on a match, and without a heading and
/// without colour the output of the ranges is one record for each match.
proof fn lemma_records_of_prefix(plan: RenderPlan, last_index: usize, k: int)
    requires
        is_match_set(plan.matches, last_index),
        0 <= k <= plan.matches.len(),
        !plan.heading,
        !plan.color,
        plan.ranges == merged(windows_of(plan.matches.take(k), 0, 0, last_index)),
    ensures
        plan.body(plan.ranges.len() as int) == match_records(
            plan.lines,
            plan.filename,
            plan.matches.take(k),
        ),
        k > 0 ==> plan.ranges.len() > 0 && plan.ranges.last().end == plan.matches[k - 1],
    decreases k,
{
    let found = plan.matches.take(k);
    let windows = windows_of(found, 0, 0, last_index);
    if k == 0 {
        assert(windows.len() == 0);
        assert(plan.body(0) =~= match_records(plan.lines, plan.filename, found));
    } else {
        let m = plan.matches[k - 1];
        let earlier = plan.matches.take(k - 1);
        let before = RenderPlan {
            ranges: merged(windows_of(earlier, 0, 0, last_index)),
            ..plan
        };
        lemma_records_of_prefix(before, last_index, k - 1);
        assert(windows.drop_last() =~= windows_of(earlier, 0, 0, last_index));
        assert(windows.last() == ContextRange { start: m, end: m });
        assert(plan.ranges == absorb(before.ranges, windows.last()));
        let n = plan.ranges.len() as int;
        let records = match_records(plan.lines, plan.filename, found);
        let records_before = match_records(plan.lines, plan.filename, earlier);
        assert(plan.matches.contains(m)) by {
            assert(plan.matches[k - 1] == m);
        }
        assert(plan.line(m as int) == records[k - 1]);
        assert(records =~= records_before.push(plan.line(m as int)));
        if touches_last(before.ranges, windows.last()) {
            let joined = before.ranges.last();
            assert(joined.end == plan.matches[k - 2]);
            assert(joined.end + 1 == m);
            assert(before.ranges.len() == n);
            lemma_body_of_common_ranges(plan, before, n - 1);
            assert(plan.block(plan.ranges[n - 1]) =~= before.block(joined).push(
                plan.line(m as int),
            )) by {
                lemma_windows_ordered(earlier, 0, 0, last_index);
                lemma_merged_is_separated(windows_of(earlier, 0, 0, last_index));
            }
            assert(plan.body(n) =~= before.body(n).push(plan.line(m as int)));
        } else {
            assert(before.ranges.len() == n - 1);
            lemma_body_of_common_ranges(plan, before, n - 1);
            assert(plan.block(plan.ranges[n - 1]) =~= seq![plan.line(m as int)]);
            assert(plan.body(n) =~= before.body(n - 1).push(plan.line(m as int)));
        }
    }
}

/// Searching without a heading, without context and without colour lists
/// the matching lines: one record for each, with the file's name, the line's
/// number and the line itself.
pub proof fn lemma_flat_search_lists_matches(
    lines: Seq<Seq<char>>,
    filename: Seq<char>,
    source: Seq<char>,
)
    requires
        lines.len() <= usize::MAX,
    ensures
        search_output(lines, filename, source, false, false, 0, 0) == match_records(
            lines,
            filename,
            matching_lines(lines, source),
        ),
{
    let matches = matching_lines(lines, source);
    if matches.len() == 0 {
        assert(match_records(lines, filename, matches) =~= Seq::<Seq<char>>::empty());
    } else {
        lemma_matching_lines(lines, source);
        let last_index = (lines.len() - 1) as usize;
        let plan = RenderPlan {
            ranges: search_ranges(lines, source, 0, 0),
            matches,
            lines,
            filename,
            source,
            heading: false,
            color: false,
        };
        assert(matches.take(matches.len() as int) =~= matches);
        lemma_records_of_prefix(plan, last_index, matches.len() as int);
        assert(plan.output() =~= plan.body(plan.ranges.len() as int));
    }
}

} // verus!
