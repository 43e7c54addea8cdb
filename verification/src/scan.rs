//! The match scanner: which lines of a file a pattern matches.

use crate::pattern::{regex_is_match, regex_matches, Pattern};
use crate::ranges::is_match_set;
use vstd::prelude::*;

verus! {

/// The indices of the lines that the regular expression written as `source`
/// matches, in increasing order.
pub open spec fn matching_lines(lines: Seq<Seq<char>>, source: Seq<char>) -> Seq<usize>
    decreases lines.len(),
{
    if lines.len() == 0 {
        Seq::empty()
    } else {
        let earlier = matching_lines(lines.drop_last(), source);
        if regex_is_match(source, lines.last()) {
            earlier.push((lines.len() - 1) as usize)
        } else {
            earlier
        }
    }
}

/// The matching lines of a file are a match set of it, and hold a line's
/// index exactly when the line matches.
pub proof fn lemma_matching_lines(lines: Seq<Seq<char>>, source: Seq<char>)
    requires
        lines.len() <= usize::MAX,
    ensures
        forall|k: int|
            0 <= k < matching_lines(lines, source).len() ==> (#[trigger] matching_lines(
                lines,
                source,
            )[k]) < lines.len(),
        forall|j: int, k: int|
            0 <= j < k < matching_lines(lines, source).len() ==> matching_lines(lines, source)[j]
                < matching_lines(lines, source)[k],
        forall|i: int|
            0 <= i < lines.len() ==> (matching_lines(lines, source).contains(i as usize)
                <==> regex_is_match(source, #[trigger] lines[i])),
    decreases lines.len(),
{
    if lines.len() > 0 {
        let head = lines.drop_last();
        let earlier = matching_lines(head, source);
        let all = matching_lines(lines, source);
        let last = (lines.len() - 1) as usize;
        lemma_matching_lines(head, source);
        assert forall|i: int| 0 <= i < lines.len() implies (all.contains(i as usize)
            <==> regex_is_match(source, #[trigger] lines[i])) by {
            if i < head.len() {
                assert(head[i] == lines[i]);
                if earlier.contains(i as usize) {
                    let k = choose|k: int| 0 <= k < earlier.len() && earlier[k] == i as usize;
                    assert(all[k] == i as usize);
                }
                if all.contains(i as usize) {
                    let k = choose|k: int| 0 <= k < all.len() && all[k] == i as usize;
                    assert(earlier[k] == i as usize);
                }
            } else {
                if regex_is_match(source, lines.last()) {
                    assert(all[all.len() - 1] == last);
                }
                if all.contains(i as usize) {
                    let k = choose|k: int| 0 <= k < all.len() && all[k] == i as usize;
                    if k < earlier.len() {
                        assert(earlier[k] < head.len());
                    }
                }
            }
        }
    }
}

/// Finds the lines that `pattern` matches. Each line is tested once, on its
/// own, and the indices come out in increasing order.
pub fn scan(lines: &Vec<String>, pattern: &Pattern) -> (matches: Vec<usize>)
    ensures
        matches@ == matching_lines(lines.deep_view(), pattern@),
        forall|i: int|
            0 <= i < lines.len() ==> (matches@.contains(i as usize) <==> regex_is_match(
                pattern@,
                #[trigger] lines@[i]@,
            )),
        forall|k: int| 0 <= k < matches@.len() ==> (#[trigger] matches@[k]) < lines.len(),
        forall|j: int, k: int| 0 <= j < k < matches@.len() ==> matches@[j] < matches@[k],
        lines.len() > 0 ==> is_match_set(matches@, (lines.len() - 1) as usize),
{
    let ghost texts = lines.deep_view();
    let mut matches: Vec<usize> = Vec::new();
    let mut i: usize = 0;
    while i < lines.len()
        invariant
            i <= lines.len(),
            texts == lines.deep_view(),
            matches@ == matching_lines(texts.take(i as int), pattern@),
        decreases lines.len() - i,
    {
        proof {
            assert(texts.take(i + 1).drop_last() =~= texts.take(i as int));
            assert(texts.take(i + 1).last() == lines@[i as int]@);
        }
        if regex_matches(pattern, lines[i].as_str()) {
            matches.push(i);
        }
        i += 1;
    }
    proof {
        assert(texts.take(i as int) =~= texts);
        lemma_matching_lines(texts, pattern@);
        assert forall|i: int| 0 <= i < lines.len() implies (matches@.contains(i as usize)
            <==> regex_is_match(pattern@, #[trigger] lines@[i]@)) by {
            assert(texts[i] == lines@[i]@);
        }
    }
    matches
}

} // verus!
