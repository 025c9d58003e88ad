//! The excerpt that is shown around a match in a file.

use vstd::prelude::*;
use vstd::string::*;
use vstd::utf8::*;
use regex::Regex;
use crate::pattern::{regex_find, regex_first_match, regex_is_match, regex_source};
use crate::tcolor::{ansi_color, color_view, styled, RippySchema};

verus! {

/// A carriage return or a line feed.
pub open spec fn is_line_break(b: u8) -> bool {
    b == 10 || b == 13
}

/// Where the line that holds offset `pos` begins: behind the nearest line
/// break in front of `pos`, or at the start of the text.
pub open spec fn line_start(bytes: Seq<u8>, pos: int) -> int
    decreases pos,
{
    if pos <= 0 {
        0
    } else if is_line_break(bytes[pos - 1]) {
        pos
    } else {
        line_start(bytes, pos - 1)
    }
}

/// Where the line that holds offset `pos` ends: at the nearest line break at
/// or behind `pos`, or at the end of the text.
pub open spec fn line_end(bytes: Seq<u8>, pos: int) -> int
    decreases bytes.len() - pos,
{
    if pos >= bytes.len() {
        bytes.len() as int
    } else if is_line_break(bytes[pos]) {
        pos
    } else {
        line_end(bytes, pos + 1)
    }
}

/// Where the excerpt begins before it is moved to a character boundary:
/// `radius` bytes in front of the match, but not in front of its line.
pub open spec fn window_start(bytes: Seq<u8>, match_start: int, radius: int) -> int {
    let first = line_start(bytes, match_start);
    if match_start - first > radius {
        match_start - radius
    } else {
        first
    }
}

/// Where the excerpt ends before it is moved to a character boundary:
/// `radius` bytes behind the match, but not behind its line.
pub open spec fn window_end(bytes: Seq<u8>, match_end: int, radius: int) -> int {
    let last = line_end(bytes, match_end);
    if last - match_end > radius {
        match_end + radius
    } else {
        last
    }
}

/// The nearest character boundary at or in front of `pos`.
pub open spec fn floor_boundary(bytes: Seq<u8>, pos: int) -> int
    decreases pos,
{
    if pos <= 0 {
        0
    } else if is_char_boundary(bytes, pos) {
        pos
    } else {
        floor_boundary(bytes, pos - 1)
    }
}

/// The nearest character boundary at or behind `pos`.
pub open spec fn ceil_boundary(bytes: Seq<u8>, pos: int) -> int
    decreases bytes.len() - pos,
{
    if pos >= bytes.len() {
        bytes.len() as int
    } else if is_char_boundary(bytes, pos) {
        pos
    } else {
        ceil_boundary(bytes, pos + 1)
    }
}

/// The text that the bytes from `from` up to `to` spell.
pub open spec fn text_between(bytes: Seq<u8>, from: int, to: int) -> Seq<char> {
    decode_utf8(bytes.subrange(from, to))
}

/// The characters with the Unicode property White_Space.
pub open spec fn is_white_space(c: char) -> bool {
    let u = c as u32;
    (9 <= u <= 13) || u == 0x20 || u == 0x85 || u == 0xA0 || u == 0x1680 || (0x2000 <= u
        <= 0x200A) || u == 0x2028 || u == 0x2029 || u == 0x202F || u == 0x205F || u == 0x3000
}

/// `text` without the white space it begins with.
pub open spec fn trimmed_start(text: Seq<char>) -> Seq<char>
    decreases text.len(),
{
    if text.len() > 0 && is_white_space(text[0]) {
        trimmed_start(text.drop_first())
    } else {
        text
    }
}

/// `text` without the white space it ends with.
pub open spec fn trimmed_end(text: Seq<char>) -> Seq<char>
    decreases text.len(),
{
    if text.len() > 0 && is_white_space(text.last()) {
        trimmed_end(text.drop_last())
    } else {
        text
    }
}

/// `str::trim_start` removes leading white space, as the Unicode property
/// White_Space defines it.
pub assume_specification[ str::trim_start ](s: &str) -> (r: &str)
    ensures
        r@ == trimmed_start(s@),
;

/// `str::trim_end` removes trailing white space, as the Unicode property
/// White_Space defines it.
pub assume_specification[ str::trim_end ](s: &str) -> (r: &str)
    ensures
        r@ == trimmed_end(s@),
;

/// The part of a text that an excerpt shows.
#[derive(Debug, Clone, Copy, PartialEq, Eq)]
pub struct Window {
    /// Byte offset at which the excerpt begins.
    pub start: usize,
    /// Byte offset at which the excerpt ends.
    pub end: usize,
    /// Whether text of the line was left out in front of the excerpt.
    pub cut_left: bool,
    /// Whether text of the line was left out behind the excerpt.
    pub cut_right: bool,
}

/// The window around a match that lies between `match_start` and
/// `match_end`, with at most `radius` bytes of its line on either side,
/// widened to whole characters. The line counts as cut on a side where the
/// window, so widened, does not reach the line's end on that side.
pub open spec fn window_of(bytes: Seq<u8>, match_start: int, match_end: int, radius: int) -> Window {
    Window {
        start: floor_boundary(bytes, window_start(bytes, match_start, radius)) as usize,
        end: ceil_boundary(bytes, window_end(bytes, match_end, radius)) as usize,
        cut_left: floor_boundary(bytes, window_start(bytes, match_start, radius)) != line_start(
            bytes,
            match_start,
        ),
        cut_right: ceil_boundary(bytes, window_end(bytes, match_end, radius)) != line_end(
            bytes,
            match_end,
        ),
    }
}

proof fn lemma_line_bounds(bytes: Seq<u8>, pos: int)
    requires
        0 <= pos <= bytes.len(),
    ensures
        0 <= line_start(bytes, pos) <= pos,
        pos <= line_end(bytes, pos) <= bytes.len(),
    decreases bytes.len(),
{
    lemma_line_start_bounds(bytes, pos);
    lemma_line_end_bounds(bytes, pos);
}

proof fn lemma_line_start_bounds(bytes: Seq<u8>, pos: int)
    requires
        0 <= pos <= bytes.len(),
    ensures
        0 <= line_start(bytes, pos) <= pos,
    decreases pos,
{
    if pos > 0 && !is_line_break(bytes[pos - 1]) {
        lemma_line_start_bounds(bytes, pos - 1);
    }
}

proof fn lemma_line_end_bounds(bytes: Seq<u8>, pos: int)
    requires
        0 <= pos <= bytes.len(),
    ensures
        pos <= line_end(bytes, pos) <= bytes.len(),
    decreases bytes.len() - pos,
{
    if pos < bytes.len() && !is_line_break(bytes[pos]) {
        lemma_line_end_bounds(bytes, pos + 1);
    }
}

proof fn lemma_floor_boundary(bytes: Seq<u8>, pos: int)
    requires
        valid_utf8(bytes),
        0 <= pos <= bytes.len(),
    ensures
        0 <= floor_boundary(bytes, pos) <= pos,
        is_char_boundary(bytes, floor_boundary(bytes, pos)),
    decreases pos,
{
    if pos > 0 && !is_char_boundary(bytes, pos) {
        lemma_floor_boundary(bytes, pos - 1);
    }
}

proof fn lemma_ceil_boundary(bytes: Seq<u8>, pos: int)
    requires
        valid_utf8(bytes),
        0 <= pos <= bytes.len(),
    ensures
        pos <= ceil_boundary(bytes, pos) <= bytes.len(),
        is_char_boundary(bytes, ceil_boundary(bytes, pos)),
    decreases bytes.len() - pos,
{
    if pos < bytes.len() && !is_char_boundary(bytes, pos) {
        lemma_ceil_boundary(bytes, pos + 1);
    } else if pos >= bytes.len() {
        is_char_boundary_start_end_of_seq(bytes);
    }
}

/// A byte below 128 is a character of its own: a character begins at it
/// and the next begins right behind it.
pub proof fn lemma_ascii_boundary(bytes: Seq<u8>, i: int)
    requires
        valid_utf8(bytes),
        0 <= i < bytes.len(),
        bytes[i] < 128,
    ensures
        is_char_boundary(bytes, i),
        is_char_boundary(bytes, i + 1),
{
    is_char_boundary_iff_not_is_continuation_byte(bytes, i);
    let rest = bytes.subrange(i, bytes.len() as int);
    valid_utf8_split(bytes, i);
    assert(rest[0] == bytes[i]);
    assert(is_leading_byte_width_1(rest[0]));
    assert(length_of_first_scalar(rest) == 1);
    assert(valid_utf8(pop_first_scalar(rest)));
    assert(is_char_boundary(pop_first_scalar(rest), 0));
    assert(is_char_boundary(rest, 1)) by {
        reveal_with_fuel(is_char_boundary, 2);
    }
    if i + 1 < bytes.len() {
        is_char_boundary_iff_not_is_continuation_byte(rest, 1);
        assert(rest[1] == bytes[i + 1]);
        is_char_boundary_iff_not_is_continuation_byte(bytes, i + 1);
    } else {
        is_char_boundary_start_end_of_seq(bytes);
    }
}

proof fn lemma_line_start_is_boundary(bytes: Seq<u8>, pos: int)
    requires
        valid_utf8(bytes),
        0 <= pos <= bytes.len(),
    ensures
        is_char_boundary(bytes, line_start(bytes, pos)),
    decreases pos,
{
    if pos > 0 {
        if is_line_break(bytes[pos - 1]) {
            lemma_ascii_boundary(bytes, pos - 1);
        } else {
            lemma_line_start_is_boundary(bytes, pos - 1);
        }
    }
}

proof fn lemma_line_end_is_boundary(bytes: Seq<u8>, pos: int)
    requires
        valid_utf8(bytes),
        0 <= pos <= bytes.len(),
    ensures
        is_char_boundary(bytes, line_end(bytes, pos)),
    decreases bytes.len() - pos,
{
    if pos < bytes.len() {
        if is_line_break(bytes[pos]) {
            lemma_ascii_boundary(bytes, pos);
        } else {
            lemma_line_end_is_boundary(bytes, pos + 1);
        }
    } else {
        is_char_boundary_start_end_of_seq(bytes);
    }
}

proof fn lemma_floor_above(bytes: Seq<u8>, pos: int, low: int)
    requires
        0 <= low <= pos,
        is_char_boundary(bytes, low),
    ensures
        low <= floor_boundary(bytes, pos),
    decreases pos,
{
    if pos > 0 && !is_char_boundary(bytes, pos) {
        lemma_floor_above(bytes, pos - 1, low);
    }
}

proof fn lemma_ceil_below(bytes: Seq<u8>, pos: int, high: int)
    requires
        0 <= pos <= high <= bytes.len(),
        is_char_boundary(bytes, high),
    ensures
        ceil_boundary(bytes, pos) <= high,
    decreases bytes.len() - pos,
{
    if pos < bytes.len() && !is_char_boundary(bytes, pos) {
        lemma_ceil_below(bytes, pos + 1, high);
    }
}

proof fn lemma_floor_near(bytes: Seq<u8>, pos: int)
    requires
        valid_utf8(bytes),
        0 <= pos <= bytes.len(),
    ensures
        pos - 3 <= floor_boundary(bytes, pos),
    decreases bytes.len(),
{
    if pos > 3 {
        let width = length_of_first_scalar(bytes);
        let rest = pop_first_scalar(bytes);
        assert(valid_first_scalar(bytes));
        assert(1 <= width <= 4 && width <= bytes.len());
        assert(valid_utf8(rest));
        lemma_floor_near(rest, pos - width);
        lemma_floor_boundary(rest, pos - width);
        let at = floor_boundary(rest, pos - width);
        assert(is_char_boundary(bytes, at + width)) by {
            reveal_with_fuel(is_char_boundary, 2);
        }
        lemma_floor_above(bytes, pos, at + width);
    } else {
        lemma_floor_boundary(bytes, pos);
    }
}

proof fn lemma_ceil_near(bytes: Seq<u8>, pos: int)
    requires
        valid_utf8(bytes),
        0 <= pos <= bytes.len(),
    ensures
        ceil_boundary(bytes, pos) <= pos + 3,
{
    lemma_ceil_boundary(bytes, pos);
    if pos + 3 < bytes.len() {
        lemma_floor_near(bytes, pos + 3);
        lemma_floor_boundary(bytes, pos + 3);
        lemma_ceil_below(bytes, pos, floor_boundary(bytes, pos + 3));
    }
}

/// An excerpt never begins or ends inside a character: both ends of the
/// window are character boundaries, the window holds the whole match and
/// stays within the line of the match, it reaches no further beyond the
/// match than the radius and the rest of one character, and the bytes it
/// spans are well-formed text by themselves.
pub proof fn lemma_window_on_boundaries(
    bytes: Seq<u8>,
    match_start: int,
    match_end: int,
    radius: int,
)
    requires
        valid_utf8(bytes),
        bytes.len() <= usize::MAX,
        0 <= match_start <= match_end <= bytes.len(),
        0 <= radius,
    ensures
        ({
            let w = window_of(bytes, match_start, match_end, radius);
            &&& line_start(bytes, match_start) <= w.start <= match_start
            &&& match_end <= w.end <= line_end(bytes, match_end) <= bytes.len()
            &&& match_start - w.start <= radius + 3
            &&& w.end - match_end <= radius + 3
            &&& w.start == floor_boundary(bytes, window_start(bytes, match_start, radius))
            &&& w.end == ceil_boundary(bytes, window_end(bytes, match_end, radius))
            &&& is_char_boundary(bytes, w.start as int)
            &&& is_char_boundary(bytes, w.end as int)
            &&& valid_utf8(bytes.subrange(w.start as int, w.end as int))
        }),
{
    lemma_line_bounds(bytes, match_start);
    lemma_line_bounds(bytes, match_end);
    let ws = window_start(bytes, match_start, radius);
    let we = window_end(bytes, match_end, radius);
    lemma_floor_boundary(bytes, ws);
    lemma_ceil_boundary(bytes, we);
    let s = floor_boundary(bytes, ws);
    let e = ceil_boundary(bytes, we);
    lemma_piece_is_text(bytes, s, e);
    lemma_line_start_is_boundary(bytes, match_start);
    lemma_line_end_is_boundary(bytes, match_end);
    lemma_floor_above(bytes, ws, line_start(bytes, match_start));
    lemma_ceil_below(bytes, we, line_end(bytes, match_end));
    lemma_floor_near(bytes, ws);
    lemma_ceil_near(bytes, we);
}

/// The bytes between two character boundaries of a text are a text.
pub proof fn lemma_piece_is_text(bytes: Seq<u8>, from: int, to: int)
    requires
        valid_utf8(bytes),
        0 <= from <= to <= bytes.len(),
        is_char_boundary(bytes, from),
        is_char_boundary(bytes, to),
    ensures
        valid_utf8(bytes.subrange(from, to)),
        valid_utf8(bytes.subrange(0, to)),
        is_char_boundary(bytes.subrange(0, to), from),
{
    let head = bytes.subrange(0, to);
    valid_utf8_split(bytes, to);
    if from < to {
        is_char_boundary_iff_not_is_continuation_byte(bytes, from);
        is_char_boundary_iff_not_is_continuation_byte(head, from);
    } else {
        is_char_boundary_start_end_of_seq(head);
    }
    valid_utf8_split(head, from);
    assert(head.subrange(from, head.len() as int) =~= bytes.subrange(from, to));
}

/// The piece of `s` between two byte offsets that fall on character
/// boundaries.
pub fn slice_between<'a>(s: &'a str, from: usize, to: usize) -> (r: &'a str)
    requires
        from <= to <= s.spec_bytes().len(),
        is_char_boundary(s.spec_bytes(), from as int),
        is_char_boundary(s.spec_bytes(), to as int),
    ensures
        r.spec_bytes() == s.spec_bytes().subrange(from as int, to as int),
        r@ == text_between(s.spec_bytes(), from as int, to as int),
{
    proof {
        encode_utf8_valid_utf8(s@);
        lemma_piece_is_text(s.spec_bytes(), from as int, to as int);
    }
    let (head, _) = s.split_at(to);
    let (_, r) = head.split_at(from);
    proof {
        assert(r.spec_bytes() =~= s.spec_bytes().subrange(from as int, to as int));
        encode_utf8_decode_utf8(r@);
    }
    r
}

/// Finds the window around a match.
pub fn snippet_window(contents: &str, match_start: usize, match_end: usize, radius: usize) -> (w:
    Window)
    requires
        match_start <= match_end <= contents.spec_bytes().len(),
    ensures
        w == window_of(contents.spec_bytes(), match_start as int, match_end as int, radius as int),
        line_start(contents.spec_bytes(), match_start as int) <= w.start <= match_start,
        match_end <= w.end <= line_end(contents.spec_bytes(), match_end as int),
        w.end <= contents.spec_bytes().len(),
        match_start - w.start <= radius + 3,
        w.end - match_end <= radius + 3,
        is_char_boundary(contents.spec_bytes(), w.start as int),
        is_char_boundary(contents.spec_bytes(), w.end as int),
{
    let bytes = contents.as_bytes();
    let len = bytes.len();
    proof {
        encode_utf8_valid_utf8(contents@);
        lemma_window_on_boundaries(bytes@, match_start as int, match_end as int, radius as int);
        lemma_line_bounds(bytes@, match_start as int);
        lemma_line_bounds(bytes@, match_end as int);
    }
    let mut first = match_start;
    while first > 0 && !(bytes[first - 1] == 10u8 || bytes[first - 1] == 13u8)
        invariant
            first <= match_start <= bytes@.len(),
            line_start(bytes@, first as int) == line_start(bytes@, match_start as int),
        decreases first,
    {
        first = first - 1;
    }
    let mut last = match_end;
    while last < len && !(bytes[last] == 10u8 || bytes[last] == 13u8)
        invariant
            match_end <= last <= len,
            len == bytes@.len(),
            line_end(bytes@, last as int) == line_end(bytes@, match_end as int),
        decreases len - last,
    {
        last = last + 1;
    }
    let from = if match_start - first > radius {
        match_start - radius
    } else {
        first
    };
    let to = if last - match_end > radius {
        match_end + radius
    } else {
        last
    };
    let mut start = from;
    while start > 0 && !contents.is_char_boundary(start)
        invariant
            start <= from <= bytes@.len(),
            bytes@ == contents.spec_bytes(),
            floor_boundary(bytes@, start as int) == floor_boundary(bytes@, from as int),
        decreases start,
    {
        start = start - 1;
    }
    let mut end = to;
    while end < len && !contents.is_char_boundary(end)
        invariant
            to <= end <= len,
            len == bytes@.len(),
            bytes@ == contents.spec_bytes(),
            ceil_boundary(bytes@, end as int) == ceil_boundary(bytes@, to as int),
        decreases len - end,
    {
        end = end + 1;
    }
    Window { start, end, cut_left: start != first, cut_right: end != last }
}

/// The excerpt for a match: the text in front of the match without leading
/// white space, the match itself, and the text behind it without trailing
/// white space, each styled on its own, between ellipses where the window
/// leaves part of the line out.
pub open spec fn snippet_text(
    bytes: Seq<u8>,
    match_start: int,
    match_end: int,
    radius: int,
    colors: RippySchema,
    is_grayscale: bool,
) -> Seq<char> {
    let w = window_of(bytes, match_start, match_end, radius);
    let muted = color_view(colors.muted);
    let dots = styled(muted, false, seq!['.', '.', '.']);
    (if w.cut_left {
        dots
    } else {
        Seq::empty()
    }) + styled(muted, false, trimmed_start(text_between(bytes, w.start as int, match_start)))
        + styled(
        color_view(colors.window),
        !is_grayscale,
        text_between(bytes, match_start, match_end),
    ) + styled(muted, false, trimmed_end(text_between(bytes, match_end, w.end as int))) + (if w.cut_right {
        dots
    } else {
        Seq::empty()
    })
}

/// Builds the excerpt for a match that was found in `contents`.
pub fn extract_snippet(
    contents: &str,
    match_start: usize,
    match_end: usize,
    radius: usize,
    colors: &RippySchema,
    is_grayscale: bool,
) -> (r: String)
    requires
        match_start <= match_end <= contents.spec_bytes().len(),
        is_char_boundary(contents.spec_bytes(), match_start as int),
        is_char_boundary(contents.spec_bytes(), match_end as int),
    ensures
        r@ == snippet_text(
            contents.spec_bytes(),
            match_start as int,
            match_end as int,
            radius as int,
            *colors,
            is_grayscale,
        ),
{
    let w = snippet_window(contents, match_start, match_end, radius);
    let before = slice_between(contents, w.start, match_start);
    let found = slice_between(contents, match_start, match_end);
    let after = slice_between(contents, match_end, w.end);
    proof {
        reveal_strlit("...");
        assert("..."@ =~= seq!['.', '.', '.']);
    }
    let mut r = String::new();
    if w.cut_left {
        r.append(ansi_color(colors.muted, false, "...").as_str());
    }
    r.append(ansi_color(colors.muted, false, before.trim_start()).as_str());
    r.append(ansi_color(colors.window, !is_grayscale, found).as_str());
    r.append(ansi_color(colors.muted, false, after.trim_end()).as_str());
    if w.cut_right {
        r.append(ansi_color(colors.muted, false, "...").as_str());
    }
    assert(r@ =~= snippet_text(
        contents.spec_bytes(),
        match_start as int,
        match_end as int,
        radius as int,
        *colors,
        is_grayscale,
    ));
    r
}

/// What a search leaves on a file: nothing where the expression matched
/// nowhere, an empty marker where it matched and no excerpt is wanted, and
/// else the excerpt around the first match.
pub open spec fn search_window(
    found: Option<(int, int)>,
    bytes: Seq<u8>,
    want_window: bool,
    radius: int,
    colors: RippySchema,
    is_grayscale: bool,
) -> Option<Seq<char>> {
    match found {
        None => None,
        Some((start, end)) => if want_window {
            Some(snippet_text(bytes, start, end, radius, colors, is_grayscale))
        } else {
            Some(Seq::empty())
        },
    }
}

/// The view of an optional string.
pub open spec fn opt_view(text: Option<String>) -> Option<Seq<char>> {
    match text {
        Some(s) => Some(s@),
        None => None,
    }
}

/// Turns the outcome of a search in `contents` into the file's search window.
pub fn window_for_match(
    found: Option<(usize, usize)>,
    contents: &str,
    want_window: bool,
    radius: usize,
    colors: &RippySchema,
    is_grayscale: bool,
) -> (r: Option<String>)
    requires
        found matches Some((start, end)) ==> {
            &&& start <= end <= contents.spec_bytes().len()
            &&& is_char_boundary(contents.spec_bytes(), start as int)
            &&& is_char_boundary(contents.spec_bytes(), end as int)
        },
    ensures
        opt_view(r) == search_window(
            match found {
                Some((start, end)) => Some((start as int, end as int)),
                None => None,
            },
            contents.spec_bytes(),
            want_window,
            radius as int,
            *colors,
            is_grayscale,
        ),
{
    match found {
        None => None,
        Some((start, end)) => {
            if want_window {
                Some(extract_snippet(contents, start, end, radius, colors, is_grayscale))
            } else {
                Some(String::new())
            }
        },
    }
}

/// Searches `contents` for the expression and builds the file's search
/// window from the first match.
pub fn search_contents(
    re: &Regex,
    contents: &str,
    want_window: bool,
    radius: usize,
    colors: &RippySchema,
    is_grayscale: bool,
) -> (r: Option<String>)
    ensures
        opt_view(r) == search_window(
            regex_first_match(regex_source(*re), contents@),
            contents.spec_bytes(),
            want_window,
            radius as int,
            *colors,
            is_grayscale,
        ),
{
    if regex_is_match(re, contents) {
        if want_window {
            let found = regex_find(re, contents);
            window_for_match(found, contents, want_window, radius, colors, is_grayscale)
        } else {
            Some(String::new())
        }
    } else {
        None
    }
}

} // verus!
