//! Highlighting: wrapping the matches of a line in a terminal colour.

use crate::pattern::{regex_find_spans, regex_spans, spans_in_order, Pattern};
use vstd::prelude::*;
use vstd::string::*;
use vstd::utf8::*;

verus! {

/// The escape sequence that switches the terminal to red.
pub open spec fn color_on() -> Seq<char> {
    seq!['\u{1b}', '[', '3', '1', 'm']
}

/// The escape sequence that switches the terminal back to its own colour.
pub open spec fn color_off() -> Seq<char> {
    seq!['\u{1b}', '[', '0', 'm']
}

/// The characters of `text` that its UTF-8 form holds from byte offset `from`
/// up to, and without, byte offset `to`.
pub open spec fn text_between(text: Seq<char>, from: int, to: int) -> Seq<char> {
    decode_utf8(encode_utf8(text).subrange(from, to))
}

/// `text` from byte offset `from` on, with `on` put in before every span of
/// `spans` and `off` after it, and all of the text itself left as it is.
pub open spec fn wrapped_from(
    text: Seq<char>,
    spans: Seq<(usize, usize)>,
    from: int,
    on: Seq<char>,
    off: Seq<char>,
) -> Seq<char>
    decreases spans.len(),
{
    if spans.len() == 0 {
        text_between(text, from, encode_utf8(text).len() as int)
    } else {
        text_between(text, from, spans[0].0 as int) + on + text_between(
            text,
            spans[0].0 as int,
            spans[0].1 as int,
        ) + off + wrapped_from(text, spans.drop_first(), spans[0].1 as int, on, off)
    }
}

/// `text` from byte offset `from` on, with every span of `spans` wrapped in
/// the colour and what lies between the spans left as it is.
pub open spec fn painted_from(text: Seq<char>, spans: Seq<(usize, usize)>, from: int) -> Seq<char> {
    wrapped_from(text, spans, from, color_on(), color_off())
}

/// `text` with every span of `spans` wrapped in the colour.
pub open spec fn painted(text: Seq<char>, spans: Seq<(usize, usize)>) -> Seq<char> {
    painted_from(text, spans, 0)
}

/// What is left of valid UTF-8 after a character boundary is valid UTF-8 too,
/// and a later boundary of the whole is a boundary of what is left.
proof fn lemma_boundary_in_rest(bytes: Seq<u8>, pos: int, index: int)
    requires
        valid_utf8(bytes),
        0 <= pos <= index <= bytes.len(),
        is_char_boundary(bytes, pos),
        is_char_boundary(bytes, index),
    ensures
        valid_utf8(bytes.subrange(pos, bytes.len() as int)),
        is_char_boundary(bytes.subrange(pos, bytes.len() as int), index - pos),
{
    let rest = bytes.subrange(pos, bytes.len() as int);
    valid_utf8_split(bytes, pos);
    is_char_boundary_start_end_of_seq(rest);
    if pos < index < bytes.len() {
        is_char_boundary_iff_not_is_continuation_byte(bytes, index);
        is_char_boundary_iff_not_is_continuation_byte(rest, index - pos);
        assert(rest[index - pos] == bytes[index]);
    }
}

/// Nothing painted is lost when the text is cut off at its own end.
proof fn lemma_text_between_whole(text: Seq<char>)
    ensures
        text_between(text, 0, encode_utf8(text).len() as int) == text,
{
    let bytes = encode_utf8(text);
    assert(bytes.subrange(0, bytes.len() as int) =~= bytes);
    encode_utf8_decode_utf8(text);
}

/// The UTF-8 form of two texts joined is the UTF-8 forms of the two, joined.
proof fn lemma_encode_joined(a: Seq<char>, b: Seq<char>)
    ensures
        encode_utf8(a + b) == encode_utf8(a) + encode_utf8(b),
    decreases a.len(),
{
    if a.len() == 0 {
        assert(a + b =~= b);
        assert(encode_utf8(a) + encode_utf8(b) =~= encode_utf8(b));
    } else {
        lemma_encode_joined(a.drop_first(), b);
        assert((a + b).drop_first() =~= a.drop_first() + b);
        assert(encode_utf8(a + b) =~= encode_utf8(a) + encode_utf8(b));
    }
}

/// The piece of a text between two character boundaries has, as its UTF-8
/// form, the bytes of the text between the two.
proof fn lemma_piece_bytes(text: Seq<char>, from: int, to: int)
    requires
        0 <= from <= to <= encode_utf8(text).len(),
        is_char_boundary(encode_utf8(text), from),
        is_char_boundary(encode_utf8(text), to),
    ensures
        encode_utf8(text_between(text, from, to)) == encode_utf8(text).subrange(from, to),
{
    let bytes = encode_utf8(text);
    let rest = bytes.subrange(from, bytes.len() as int);
    encode_utf8_valid_utf8(text);
    lemma_boundary_in_rest(bytes, from, to);
    valid_utf8_split(rest, to - from);
    assert(rest.subrange(0, to - from) =~= bytes.subrange(from, to));
    decode_utf8_encode_utf8(bytes.subrange(from, to));
}

/// Spans in order stay in order when the first is left out, and the first
/// ends where the next starts or before.
proof fn lemma_later_spans_in_order(text: Seq<char>, spans: Seq<(usize, usize)>)
    requires
        spans_in_order(text, spans),
        spans.len() > 0,
    ensures
        spans_in_order(text, spans.drop_first()),
        spans.len() > 1 ==> spans[0].1 <= spans.drop_first()[0].0,
{
    let later = spans.drop_first();
    assert forall|k: int| 0 <= k < later.len() implies {
        &&& (#[trigger] later[k]).0 <= later[k].1 <= encode_utf8(text).len()
        &&& is_char_boundary(encode_utf8(text), later[k].0 as int)
        &&& is_char_boundary(encode_utf8(text), later[k].1 as int)
    } by {
        assert(later[k] == spans[k + 1]);
    }
    assert forall|j: int, k: int| 0 <= j < k < later.len() implies (#[trigger] later[j]).1 <= (
    #[trigger] later[k]).0 by {
        assert(later[j] == spans[j + 1]);
        assert(later[k] == spans[k + 1]);
    }
    if spans.len() > 1 {
        assert(later[0] == spans[1]);
    }
}

/// With nothing put in, the bytes of what comes out are the bytes of the
/// text from `from` on.
proof fn lemma_bare_bytes(text: Seq<char>, spans: Seq<(usize, usize)>, from: int)
    requires
        spans_in_order(text, spans),
        0 <= from <= encode_utf8(text).len(),
        is_char_boundary(encode_utf8(text), from),
        spans.len() > 0 ==> from <= spans[0].0,
    ensures
        encode_utf8(wrapped_from(text, spans, from, Seq::empty(), Seq::empty())) == encode_utf8(
            text,
        ).subrange(from, encode_utf8(text).len() as int),
    decreases spans.len(),
{
    let bytes = encode_utf8(text);
    let len = bytes.len() as int;
    let none = Seq::<char>::empty();
    encode_utf8_valid_utf8(text);
    is_char_boundary_start_end_of_seq(bytes);
    if spans.len() == 0 {
        lemma_piece_bytes(text, from, len);
    } else {
        let start = spans[0].0 as int;
        let end = spans[0].1 as int;
        let gap = text_between(text, from, start);
        let hit = text_between(text, start, end);
        let rest = wrapped_from(text, spans.drop_first(), end, none, none);
        lemma_later_spans_in_order(text, spans);
        lemma_bare_bytes(text, spans.drop_first(), end);
        lemma_piece_bytes(text, from, start);
        lemma_piece_bytes(text, start, end);
        assert(wrapped_from(text, spans, from, none, none) =~= (gap + hit) + rest);
        lemma_encode_joined(gap, hit);
        lemma_encode_joined(gap + hit, rest);
        assert(bytes.subrange(from, start) + bytes.subrange(start, end) + bytes.subrange(end, len)
            =~= bytes.subrange(from, len));
    }
}

/// What is put in makes what comes out longer by its own length, once for
/// every span, whatever the text and the spans are.
proof fn lemma_wrapped_adds(
    text: Seq<char>,
    spans: Seq<(usize, usize)>,
    from: int,
    on: Seq<char>,
    off: Seq<char>,
)
    ensures
        wrapped_from(text, spans, from, on, off).len() == wrapped_from(
            text,
            spans,
            from,
            Seq::empty(),
            Seq::empty(),
        ).len() + spans.len() * (on.len() + off.len()),
        encode_utf8(wrapped_from(text, spans, from, on, off)).len() == encode_utf8(
            wrapped_from(text, spans, from, Seq::empty(), Seq::empty()),
        ).len() + spans.len() * (encode_utf8(on).len() + encode_utf8(off).len()),
    decreases spans.len(),
{
    if spans.len() > 0 {
        let none = Seq::<char>::empty();
        let start = spans[0].0 as int;
        let end = spans[0].1 as int;
        let gap = text_between(text, from, start);
        let hit = text_between(text, start, end);
        let rest = wrapped_from(text, spans.drop_first(), end, on, off);
        let bare = wrapped_from(text, spans.drop_first(), end, none, none);
        lemma_wrapped_adds(text, spans.drop_first(), end, on, off);
        assert(wrapped_from(text, spans, from, on, off) == gap + on + hit + off + rest);
        assert(wrapped_from(text, spans, from, none, none) =~= gap + hit + bare);
        lemma_encode_joined(gap, on);
        lemma_encode_joined(gap + on, hit);
        lemma_encode_joined(gap + on + hit, off);
        lemma_encode_joined(gap + on + hit + off, rest);
        lemma_encode_joined(gap, hit);
        lemma_encode_joined(gap + hit, bare);
        let k = spans.len() as int;
        let w = (on.len() + off.len()) as int;
        let v = (encode_utf8(on).len() + encode_utf8(off).len()) as int;
        assert(k * w == (k - 1) * w + w) by (nonlinear_arith);
        assert(k * v == (k - 1) * v + v) by (nonlinear_arith);
    }
}

/// Wrapping leaves the text itself alone: with nothing to put in before and
/// after the spans, what comes out is the text.
pub proof fn lemma_wrapped_in_nothing(text: Seq<char>, spans: Seq<(usize, usize)>)
    requires
        spans_in_order(text, spans),
    ensures
        wrapped_from(text, spans, 0, Seq::empty(), Seq::empty()) == text,
{
    let bytes = encode_utf8(text);
    let bare = wrapped_from(text, spans, 0, Seq::empty(), Seq::empty());
    encode_utf8_valid_utf8(text);
    is_char_boundary_start_end_of_seq(bytes);
    lemma_bare_bytes(text, spans, 0);
    assert(bytes.subrange(0, bytes.len() as int) =~= bytes);
    encode_utf8_decode_utf8(bare);
    encode_utf8_decode_utf8(text);
}

/// Painting makes a text longer by the nine characters of the two escape
/// sequences for every span, in characters and in bytes alike.
pub proof fn lemma_painted_length(text: Seq<char>, spans: Seq<(usize, usize)>)
    requires
        spans_in_order(text, spans),
    ensures
        painted(text, spans).len() == text.len() + 9 * spans.len(),
        encode_utf8(painted(text, spans)).len() == encode_utf8(text).len() + 9 * spans.len(),
{
    lemma_wrapped_in_nothing(text, spans);
    lemma_wrapped_adds(text, spans, 0, color_on(), color_off());
    assert(color_on().len() == 5 && color_off().len() == 4);
    assert(is_ascii_chars(color_on()));
    assert(is_ascii_chars(color_off()));
    is_ascii_chars_encode_utf8(color_on());
    is_ascii_chars_encode_utf8(color_off());
    assert(spans.len() * 9 == 9 * spans.len()) by (nonlinear_arith);
}

/// Wraps every span of `spans` in the terminal's red and leaves the rest of
/// `line` as it is. The spans are byte offsets into `line`. What comes out is
/// longer than the line by the nine bytes of the two escape sequences for
/// every span.
pub fn paint(line: &str, spans: &Vec<(usize, usize)>) -> (out: String)
    requires
        spans_in_order(line@, spans@),
    ensures
        out@ == painted(line@, spans@),
        spans@.len() == 0 ==> out@ == line@,
        out@.len() == line@.len() + 9 * spans@.len(),
        encode_utf8(out@).len() == encode_utf8(line@).len() + 9 * spans@.len(),
{
    proof {
        lemma_painted_length(line@, spans@);
    }
    let ghost bytes = encode_utf8(line@);
    let mut out = String::new();
    let mut rest: &str = line;
    let mut pos: usize = 0;
    let mut k: usize = 0;
    proof {
        encode_utf8_valid_utf8(line@);
        is_char_boundary_start_end_of_seq(bytes);
        assert(bytes.subrange(0, bytes.len() as int) =~= bytes);
        assert(out@ + painted_from(line@, spans@.skip(0), 0) =~= painted(line@, spans@)) by {
            assert(spans@.skip(0) =~= spans@);
        }
    }
    while k < spans.len()
        invariant
            k <= spans.len(),
            spans_in_order(line@, spans@),
            bytes == encode_utf8(line@),
            valid_utf8(bytes),
            pos <= bytes.len(),
            is_char_boundary(bytes, pos as int),
            k == 0 ==> pos == 0,
            k > 0 ==> pos == spans@[k - 1].1,
            rest.spec_bytes() == bytes.subrange(pos as int, bytes.len() as int),
            out@ + painted_from(line@, spans@.skip(k as int), pos as int) == painted(
                line@,
                spans@,
            ),
        decreases spans.len() - k,
    {
        let start = spans[k].0;
        let end = spans[k].1;
        proof {
            if k > 0 {
                assert(spans@[k - 1].1 <= spans@[k as int].0);
            }
            lemma_boundary_in_rest(bytes, pos as int, start as int);
        }
        let (gap, tail) = rest.split_at(start - pos);
        proof {
            assert(gap.spec_bytes() =~= bytes.subrange(pos as int, start as int));
            assert(tail.spec_bytes() =~= bytes.subrange(start as int, bytes.len() as int));
            lemma_boundary_in_rest(bytes, start as int, end as int);
        }
        let (hit, after) = tail.split_at(end - start);
        proof {
            assert(hit.spec_bytes() =~= bytes.subrange(start as int, end as int));
            assert(after.spec_bytes() =~= bytes.subrange(end as int, bytes.len() as int));
            encode_utf8_decode_utf8(gap@);
            encode_utf8_decode_utf8(hit@);
            assert(gap@ == text_between(line@, pos as int, start as int));
            assert(hit@ == text_between(line@, start as int, end as int));
            reveal_strlit("\x1b[31m");
            reveal_strlit("\x1b[0m");
            assert("\x1b[31m"@ =~= color_on());
            assert("\x1b[0m"@ =~= color_off());
            let left = spans@.skip(k as int);
            assert(left[0] == spans@[k as int]);
            assert(left.drop_first() =~= spans@.skip(k + 1));
            assert(painted_from(line@, left, pos as int) == gap@ + color_on() + hit@ + color_off()
                + painted_from(line@, spans@.skip(k + 1), end as int));
        }
        let ghost before = out@;
        out.append(gap);
        out.append("\x1b[31m");
        out.append(hit);
        out.append("\x1b[0m");
        proof {
            assert(out@ =~= before + (gap@ + color_on() + hit@ + color_off()));
            assert(out@ + painted_from(line@, spans@.skip(k + 1), end as int) =~= before
                + painted_from(line@, spans@.skip(k as int), pos as int));
        }
        rest = after;
        pos = end;
        k += 1;
    }
    proof {
        encode_utf8_decode_utf8(rest@);
        assert(rest@ == text_between(line@, pos as int, bytes.len() as int));
        assert(spans@.skip(k as int).len() == 0);
        if spans@.len() == 0 {
            lemma_text_between_whole(line@);
        }
    }
    out.append(rest);
    out
}

/// Gives `line` as it is to be printed: with every match of `pattern` in it
/// wrapped in the terminal's red if `use_color` is set, and unchanged if not.
/// The matches are spans in order, so that nothing of the line is lost or
/// moved: the two escape sequences around every match are all that is new.
pub fn highlight_regex(line: &str, pattern: &Pattern, use_color: bool) -> (out: String)
    ensures
        out@ == if use_color {
            painted(line@, regex_find_spans(pattern@, line@))
        } else {
            line@
        },
        use_color ==> spans_in_order(line@, regex_find_spans(pattern@, line@)),
        use_color ==> encode_utf8(out@).len() == encode_utf8(line@).len() + 9 * regex_find_spans(
            pattern@,
            line@,
        ).len(),
{
    if !use_color {
        return String::from_str(line);
    }
    let spans = regex_spans(pattern, line);
    paint(line, &spans)
}

} // verus!
