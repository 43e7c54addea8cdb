//! Patterns: compiled regular expressions, and the two questions the search
//! asks of one: does a line match, and where in the line.

use regex::Regex;
use vstd::prelude::*;
use vstd::string::*;
use vstd::utf8::*;

verus! {

#[verifier::external_type_specification]
#[verifier::external_body]
pub struct ExRegex(regex::Regex);

#[verifier::external_type_specification]
#[verifier::external_body]
pub struct ExRegexError(regex::Error);

/// Whether `source` can be compiled as a regular expression: whether it is
/// written in the syntax of the regex crate and compiles to no more than that
/// crate allows by default.
pub uninterp spec fn regex_compiles(source: Seq<char>) -> bool;

/// Whether the regular expression written as `source` matches somewhere in
/// `haystack`.
pub uninterp spec fn regex_is_match(source: Seq<char>, haystack: Seq<char>) -> bool;

/// The matches of the regular expression written as `source` in `haystack`,
/// from left to right, each as the byte offsets where it starts and ends.
pub uninterp spec fn regex_find_spans(source: Seq<char>, haystack: Seq<char>) -> Seq<(usize, usize)>;

/// Spans that can be cut out of `text` one after the other: byte offsets into
/// its UTF-8 form that fall between characters, each span ending no earlier
/// than it starts and no later than the next one starts.
pub open spec fn spans_in_order(text: Seq<char>, spans: Seq<(usize, usize)>) -> bool {
    let bytes = encode_utf8(text);
    &&& forall|k: int|
        0 <= k < spans.len() ==> {
            &&& (#[trigger] spans[k]).0 <= spans[k].1 <= bytes.len()
            &&& is_char_boundary(bytes, spans[k].0 as int)
            &&& is_char_boundary(bytes, spans[k].1 as int)
        }
    &&& forall|j: int, k: int|
        0 <= j < k < spans.len() ==> (#[trigger] spans[j]).1 <= (#[trigger] spans[k]).0
}

/// The flag that makes a regular expression ignore case, as written at the
/// front of its source.
pub open spec fn ignore_case_flag() -> Seq<char> {
    seq!['(', '?', 'i', ')']
}

/// The source a pattern is compiled from: the text as given, behind the
/// ignore-case flag where case is to be ignored.
pub open spec fn pattern_source(text: Seq<char>, ignore_case: bool) -> Seq<char> {
    if ignore_case {
        ignore_case_flag() + text
    } else {
        text
    }
}

/// Why a pattern could not be compiled.
#[derive(Debug)]
pub struct PatternError {
    pub message: String,
}

/// A compiled regular expression, together with the source it was compiled
/// from. The only way to make one is [`Pattern::new`], so the two always
/// belong together.
#[derive(Debug)]
pub struct Pattern {
    source: String,
    regex: Regex,
}

impl View for Pattern {
    type V = Seq<char>;

    /// The source the pattern was compiled from.
    closed spec fn view(&self) -> Seq<char> {
        self.source@
    }
}

/// `regex::Regex::new`: compiles `source`, with the options and the size
/// limit that the regex crate sets by default. It returns an error for a
/// source with a syntax error and for one that compiles to more than the
/// limit, and the regex for any other. The call is given the source and
/// nothing else.
#[verifier::external_body]
fn compile(source: &str) -> (compiled: Result<Regex, regex::Error>)
    ensures
        compiled is Ok <==> regex_compiles(source@),
{
    Regex::new(source)
}

/// The `Display` text of a `regex::Error`. Nothing is claimed about it.
#[verifier::external_body]
fn error_text(error: &regex::Error) -> (text: String) {
    error.to_string()
}

/// `regex::Regex::is_match`, on the regex of `pattern`: whether there is a
/// match anywhere in `haystack`. The regex was compiled by `Regex::new` from
/// the pattern's source, with no other option set, so the answer depends on
/// that source and the haystack alone.
#[verifier::external_body]
pub(crate) fn regex_matches(pattern: &Pattern, haystack: &str) -> (hit: bool)
    ensures
        hit == regex_is_match(pattern@, haystack@),
{
    pattern.regex.is_match(haystack)
}

/// `regex::Regex::find_iter`, on the regex of `pattern`, with each match
/// handed out as its `start()` and `end()`. The regex crate yields successive
/// non-overlapping matches, and promises of every match that `start() <=
/// end()` and that both are byte offsets into the haystack that fall on UTF-8
/// character boundaries.
#[verifier::external_body]
pub(crate) fn regex_spans(pattern: &Pattern, haystack: &str) -> (spans: Vec<(usize, usize)>)
    ensures
        spans@ == regex_find_spans(pattern@, haystack@),
        spans_in_order(haystack@, spans@),
{
    pattern.regex.find_iter(haystack).map(|m| (m.start(), m.end())).collect()
}

impl Pattern {
    /// Compiles `text` as a regular expression, ignoring case if
    /// `ignore_case` is set. What is compiled is `text` itself, or `text`
    /// behind the ignore-case flag; the pattern is made exactly when that
    /// source compiles, and then has it as its source. A source that does
    /// not compile gives the compiler's complaint.
    pub fn new(text: &str, ignore_case: bool) -> (made: Result<Pattern, PatternError>)
        ensures
            made is Ok <==> regex_compiles(pattern_source(text@, ignore_case)),
            made matches Ok(pattern) ==> pattern@ == pattern_source(text@, ignore_case),
    {
        let source = if ignore_case {
            proof {
                reveal_strlit("(?i)");
            }
            let mut flagged = String::from_str("(?i)");
            flagged.append(text);
            assert(flagged@ =~= ignore_case_flag() + text@);
            flagged
        } else {
            String::from_str(text)
        };
        let compiled = compile(source.as_str());
        Pattern::assemble(source, compiled)
    }

    /// Makes the pattern of a source and what compiling that source gave: the
    /// pattern if it compiled, and the compiler's complaint if it did not.
    fn assemble(source: String, compiled: Result<Regex, regex::Error>) -> (made: Result<
        Pattern,
        PatternError,
    >)
        ensures
            made is Ok <==> compiled is Ok,
            made matches Ok(pattern) ==> pattern@ == source@,
    {
        match compiled {
            Ok(regex) => Ok(Pattern { source, regex }),
            Err(error) => Err(PatternError { message: error_text(&error) }),
        }
    }

    /// The source the pattern was compiled from.
    pub fn source(&self) -> (text: &str)
        ensures
            text@ == self@,
    {
        self.source.as_str()
    }
}

} // verus!
