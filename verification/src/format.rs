//! Writing sizes and dates, counting digits, stripping escape sequences.

use vstd::prelude::*;
use vstd::string::*;
use crate::args::RippyArgs;
use crate::snippet::opt_view;
use crate::text::{chars_of, decimal, digit_count, repeat_str, repeated, u64_to_string};
use crate::tree::{EntryType, Timestamp};

verus! {

/// Counts the digits of the decimal numeral of `n`.
pub fn count_digits_log(n: usize) -> (digits: usize)
    ensures
        digits == digit_count(n as nat),
{
    let mut rest = n;
    let mut digits: usize = 1;
    while rest >= 10
        invariant
            1 <= digits,
            digit_count(n as nat) == digit_count(rest as nat) + digits - 1,
            digits + rest <= n + 1,
        decreases rest,
    {
        proof {
            lemma_digit_count_bound(rest as nat);
        }
        rest = rest / 10;
        digits = digits + 1;
    }
    digits
}

proof fn lemma_digit_count_bound(n: nat)
    ensures
        n < 10 ==> digit_count(n) == 1,
        n >= 10 ==> digit_count(n) == digit_count(n / 10) + 1,
{
}

/// `n` divided by `d` and rounded to the nearest whole number; a tie goes to
/// the even neighbour.
pub open spec fn rounded(n: nat, d: nat) -> nat {
    let q = n / d;
    let r = n % d;
    if 2 * r < d {
        q
    } else if 2 * r > d {
        q + 1
    } else if q % 2 == 0 {
        q
    } else {
        q + 1
    }
}

/// Whether a size that lies exactly half way between `tenths` and the next
/// tenth of a unit is written with the next tenth. Sizes are written as
/// double-precision arithmetic writes them: a tie goes up where the double
/// nearest to the quotient lies above it, down where it lies below it, and
/// to the even tenth where the quotient is a double itself.
pub open spec fn tie_goes_up(tenths: nat) -> bool {
    tenths == 0 || tenths == 4 || tenths == 5 || tenths == 6 || tenths == 7 || tenths == 10 ||
        tenths == 13 || tenths == 15 || tenths == 17 || tenths == 18 || tenths == 23 ||
        tenths == 24 || tenths == 27 || tenths == 28 || tenths == 29 || tenths == 33 ||
        tenths == 34 || tenths == 37 || tenths == 38 || tenths == 39 || tenths == 41 ||
        tenths == 44 || tenths == 46 || tenths == 47 || tenths == 49 || tenths == 51 ||
        tenths == 54 || tenths == 56 || tenths == 57 || tenths == 59 || tenths == 61 ||
        tenths == 64 || tenths == 66 || tenths == 67 || tenths == 69 || tenths == 71 ||
        tenths == 74 || tenths == 76 || tenths == 77 || tenths == 79 || tenths == 80 ||
        tenths == 81 || tenths == 85 || tenths == 86 || tenths == 87 || tenths == 90 ||
        tenths == 91 || tenths == 95 || tenths == 96 || tenths == 97
}

/// The number of tenths of a unit that a size of less than ten units is
/// written with: the nearest, with ties as `tie_goes_up` has them.
pub open spec fn tenths_of(size: nat, unit: nat) -> nat {
    let q = size * 10 / unit;
    let r = size * 10 % unit;
    if 2 * r < unit {
        q
    } else if 2 * r > unit {
        q + 1
    } else if tie_goes_up(q) {
        q + 1
    } else {
        q
    }
}

/// A size in units of `unit` bytes: with one decimal place below ten units,
/// as a whole number from ten units on.
pub open spec fn scaled_text(size: nat, unit: nat) -> Seq<char> {
    if size < 10 * unit {
        let tenths = tenths_of(size, unit);
        decimal(tenths / 10) + seq!['.'] + decimal(tenths % 10)
    } else {
        decimal(rounded(size, unit))
    }
}

/// `text` cut or padded to three characters: its first three where it is
/// longer, spaces in front where it is shorter.
pub open spec fn fitted(text: Seq<char>) -> Seq<char> {
    if text.len() >= 3 {
        text.subrange(0, 3)
    } else {
        repeated(seq![' '], (3 - text.len()) as nat) + text
    }
}

/// A size in bytes, in the unit that suits it, in three characters and a
/// unit letter.
pub open spec fn size_text(size: nat) -> Seq<char> {
    if size < 1_000 {
        fitted(scaled_text(size, 1)) + seq![' ', 'B']
    } else if size < 1_000_000 {
        fitted(scaled_text(size, 1_000)) + seq![' ', 'K']
    } else if size < 1_000_000_000 {
        fitted(scaled_text(size, 1_000_000)) + seq![' ', 'M']
    } else {
        fitted(scaled_text(size, 1_000_000_000)) + seq![' ', 'G']
    }
}

fn round_div(n: u64, d: u64) -> (r: u64)
    requires
        0 < d <= 1_000_000_000,
    ensures
        r == rounded(n as nat, d as nat),
{
    let q = n / d;
    let r = n % d;
    assert(d >= 2 ==> 2 * q <= n) by (nonlinear_arith)
        requires
            q == n / d,
            d > 0,
    ;
    if 2 * r < d {
        q
    } else if 2 * r > d {
        q + 1
    } else if q % 2 == 0 {
        q
    } else {
        q + 1
    }
}

fn goes_up(tenths: u64) -> (r: bool)
    ensures
        r == tie_goes_up(tenths as nat),
{
    tenths == 0 || tenths == 4 || tenths == 5 || tenths == 6 || tenths == 7 || tenths == 10 ||
        tenths == 13 || tenths == 15 || tenths == 17 || tenths == 18 || tenths == 23 ||
        tenths == 24 || tenths == 27 || tenths == 28 || tenths == 29 || tenths == 33 ||
        tenths == 34 || tenths == 37 || tenths == 38 || tenths == 39 || tenths == 41 ||
        tenths == 44 || tenths == 46 || tenths == 47 || tenths == 49 || tenths == 51 ||
        tenths == 54 || tenths == 56 || tenths == 57 || tenths == 59 || tenths == 61 ||
        tenths == 64 || tenths == 66 || tenths == 67 || tenths == 69 || tenths == 71 ||
        tenths == 74 || tenths == 76 || tenths == 77 || tenths == 79 || tenths == 80 ||
        tenths == 81 || tenths == 85 || tenths == 86 || tenths == 87 || tenths == 90 ||
        tenths == 91 || tenths == 95 || tenths == 96 || tenths == 97
}

fn tenths(size: u64, unit: u64) -> (r: u64)
    requires
        0 < unit <= 1_000_000_000,
        size < 10 * unit,
    ensures
        r == tenths_of(size as nat, unit as nat),
{
    let q = size * 10 / unit;
    let r = size * 10 % unit;
    if 2 * r < unit {
        q
    } else if 2 * r > unit {
        q + 1
    } else if goes_up(q) {
        q + 1
    } else {
        q
    }
}

fn scale(size: u64, unit: u64) -> (r: String)
    requires
        0 < unit <= 1_000_000_000,
    ensures
        r@ == scaled_text(size as nat, unit as nat),
{
    proof {
        reveal_strlit(".");
        assert("."@ =~= seq!['.']);
    }
    if size < 10 * unit {
        let tenths = tenths(size, unit);
        let mut r = u64_to_string(tenths / 10);
        r.append(".");
        r.append(u64_to_string(tenths % 10).as_str());
        r
    } else {
        u64_to_string(round_div(size, unit))
    }
}

fn fit(text: &str) -> (r: String)
    ensures
        r@ == fitted(text@),
{
    let len = text.unicode_len();
    if len >= 3 {
        String::from_str(text.substring_char(0, 3))
    } else {
        proof {
            reveal_strlit(" ");
            assert(" "@ =~= seq![' ']);
        }
        let mut r = repeat_str(" ", 3 - len);
        r.append(text);
        r
    }
}

/// Writes a size so that it takes the same room whatever its scale.
pub fn format_size(size: u64) -> (r: String)
    ensures
        r@ == size_text(size as nat),
{
    proof {
        reveal_strlit(" B");
        reveal_strlit(" K");
        reveal_strlit(" M");
        reveal_strlit(" G");
        assert(" B"@ =~= seq![' ', 'B']);
        assert(" K"@ =~= seq![' ', 'K']);
        assert(" M"@ =~= seq![' ', 'M']);
        assert(" G"@ =~= seq![' ', 'G']);
    }
    if size < 1_000 {
        let mut r = fit(scale(size, 1).as_str());
        r.append(" B");
        r
    } else if size < 1_000_000 {
        let mut r = fit(scale(size, 1_000).as_str());
        r.append(" K");
        r
    } else if size < 1_000_000_000 {
        let mut r = fit(scale(size, 1_000_000).as_str());
        r.append(" M");
        r
    } else {
        let mut r = fit(scale(size, 1_000_000_000).as_str());
        r.append(" G");
        r
    }
}

/// The size as it is shown beside an entry: nothing unless sizes are shown,
/// nothing for a directory unless directories get details, nothing for an
/// entry without a size.
pub open spec fn shown_size(size: Option<u64>, settings: &RippyArgs, entry_type: EntryType) -> Seq<
    char,
> {
    if settings.show_size && (settings.is_dir_detail || entry_type == EntryType::File) {
        match size {
            Some(bytes) => size_text(bytes as nat),
            None => Seq::empty(),
        }
    } else {
        Seq::empty()
    }
}

/// Writes the size that is shown beside an entry.
pub fn format_display_size(size: Option<u64>, settings: &RippyArgs, entry_type: EntryType) -> (r:
    String)
    ensures
        r@ == shown_size(size, settings, entry_type),
{
    if settings.show_size && (settings.is_dir_detail || entry_type == EntryType::File) {
        match size {
            Some(bytes) => format_size(bytes),
            None => String::new(),
        }
    } else {
        String::new()
    }
}

/// The text of the moment that lies `secs` seconds and `nanos` nanoseconds
/// behind the Unix epoch, in Coordinated Universal Time, written as
/// `pattern` lays out; `None` for a moment outside the calendar's range.
pub uninterp spec fn utc_text(secs: int, nanos: int, pattern: Seq<char>) -> Option<Seq<char>>;

/// `chrono::DateTime::from_timestamp`, then `DateTime::format` with one of
/// the two layouts in use, then the text of the result. The epoch itself is
/// within range.
#[verifier::external_body]
fn format_utc(secs: i64, nanos: u32, pattern: &str) -> (r: Option<String>)
    requires
        pattern@ == "%Y-%m-%d"@ || pattern@ == "%Y-%m-%d %H:%M:%S"@,
    ensures
        opt_view(r) == utc_text(secs as int, nanos as int, pattern@),
        secs == 0 && nanos == 0 ==> r is Some,
{
    chrono::DateTime::from_timestamp(secs, nanos).map(|at| at.format(pattern).to_string())
}

/// A moment written as `pattern` lays out; a moment outside the calendar's
/// range is written as the epoch.
pub open spec fn date_text(stamp: Timestamp, pattern: Seq<char>) -> Seq<char> {
    let direct = if stamp.secs <= i64::MAX {
        utc_text(stamp.secs as int, stamp.nanos as int, pattern)
    } else {
        None
    };
    match direct {
        Some(text) => text,
        None => match utc_text(0, 0, pattern) {
            Some(text) => text,
            None => Seq::empty(),
        },
    }
}

fn format_stamp(stamp: Timestamp, pattern: &str) -> (r: String)
    requires
        pattern@ == "%Y-%m-%d"@ || pattern@ == "%Y-%m-%d %H:%M:%S"@,
    ensures
        r@ == date_text(stamp, pattern@),
{
    let direct = if stamp.secs <= 0x7fff_ffff_ffff_ffff {
        format_utc(stamp.secs as i64, stamp.nanos, pattern)
    } else {
        None
    };
    match direct {
        Some(text) => text,
        None => match format_utc(0, 0, pattern) {
            Some(text) => text,
            None => String::new(),
        },
    }
}

/// The time of last change as it goes into the export: date and time of
/// day, whatever the settings say.
pub fn format_json_datetime(last_modified: Option<Timestamp>) -> (r: Option<String>)
    ensures
        opt_view(r) == match last_modified {
            Some(stamp) => Some(date_text(stamp, "%Y-%m-%d %H:%M:%S"@)),
            None => None,
        },
{
    match last_modified {
        Some(stamp) => Some(format_stamp(stamp, "%Y-%m-%d %H:%M:%S")),
        None => None,
    }
}

/// The date as it is shown beside an entry: nothing unless dates are shown,
/// nothing for a directory unless directories get details, nothing for an
/// entry without a time of last change; the day alone in the short form,
/// the day and the time of day in the long one.
pub open spec fn shown_date(
    last_modified: Option<Timestamp>,
    settings: &RippyArgs,
    entry_type: EntryType,
) -> Seq<char> {
    if settings.show_date && (settings.is_dir_detail || entry_type != EntryType::Directory) {
        match last_modified {
            Some(stamp) => date_text(
                stamp,
                if settings.is_short_date {
                    "%Y-%m-%d"@
                } else {
                    "%Y-%m-%d %H:%M:%S"@
                },
            ),
            None => Seq::empty(),
        }
    } else {
        Seq::empty()
    }
}

/// Writes the date that is shown beside an entry.
pub fn format_display_datetime(
    last_modified: Option<Timestamp>,
    settings: &RippyArgs,
    entry_type: EntryType,
) -> (r: String)
    ensures
        r@ == shown_date(last_modified, settings, entry_type),
{
    if settings.show_date {
        if !settings.is_dir_detail && entry_type == EntryType::Directory {
            return String::new();
        }
        match last_modified {
            Some(stamp) => if settings.is_short_date {
                format_stamp(stamp, "%Y-%m-%d")
            } else {
                format_stamp(stamp, "%Y-%m-%d %H:%M:%S")
            },
            None => String::new(),
        }
    } else {
        String::new()
    }
}

/// A digit or a semicolon: what stands between the opening of an escape
/// sequence and its last character.
pub open spec fn is_parameter(c: char) -> bool {
    ('0' <= c && c <= '9') || c == ';'
}

/// A letter: what ends an escape sequence.
pub open spec fn is_final(c: char) -> bool {
    ('a' <= c && c <= 'z') || ('A' <= c && c <= 'Z')
}

/// Where the run of parameter characters that begins at `pos` ends.
pub open spec fn parameters_end(text: Seq<char>, pos: int) -> int
    decreases text.len() - pos,
{
    if 0 <= pos < text.len() && is_parameter(text[pos]) {
        parameters_end(text, pos + 1)
    } else {
        pos
    }
}

/// Where the escape sequence that begins at `pos` ends, if one begins
/// there: the escape character, an opening bracket, any number of
/// parameter characters and a letter.
pub open spec fn sequence_end(text: Seq<char>, pos: int) -> Option<int> {
    if 0 <= pos && pos + 1 < text.len() && text[pos] == '\x1b' && text[pos + 1] == '[' {
        let end = parameters_end(text, pos + 2);
        if end < text.len() && is_final(text[end]) {
            Some(end + 1)
        } else {
            None
        }
    } else {
        None
    }
}

/// `text` from `pos` on, without its escape sequences.
pub open spec fn stripped_from(text: Seq<char>, pos: int) -> Seq<char>
    decreases text.len() - pos,
{
    if pos < 0 || pos >= text.len() {
        Seq::empty()
    } else {
        match sequence_end(text, pos) {
            Some(end) => if end > pos {
                stripped_from(text, end)
            } else {
                Seq::empty()
            },
            None => seq![text[pos]] + stripped_from(text, pos + 1),
        }
    }
}

proof fn lemma_parameters_end(text: Seq<char>, pos: int)
    requires
        0 <= pos <= text.len(),
    ensures
        pos <= parameters_end(text, pos) <= text.len(),
    decreases text.len() - pos,
{
    if pos < text.len() && is_parameter(text[pos]) {
        lemma_parameters_end(text, pos + 1);
    }
}

/// Removes the escape sequences that style a text for the terminal.
pub fn strip_ansi(text: &str) -> (r: String)
    ensures
        r@ == stripped_from(text@, 0),
{
    let all = chars_of(text);
    let n = all.len();
    let mut r = String::new();
    let mut start: usize = 0;
    let mut pos: usize = 0;
    while pos < n
        invariant
            start <= pos <= n,
            n == text@.len(),
            all@ == text@,
            r@ + text@.subrange(start as int, pos as int) + stripped_from(text@, pos as int)
                == stripped_from(text@, 0),
        decreases n - pos,
    {
        let mut end: usize = pos;
        let mut found = false;
        if all[pos] == '\x1b' && pos + 1 < n && all[pos + 1] == '[' {
            end = pos + 2;
            while end < n && ((all[end] >= '0' && all[end] <= '9') || all[end] == ';')
                invariant
                    pos + 2 <= end <= n,
                    n == text@.len(),
                    all@ == text@,
                    parameters_end(text@, end as int) == parameters_end(text@, pos + 2),
                decreases n - end,
            {
                end = end + 1;
            }
            if end < n && ((all[end] >= 'a' && all[end] <= 'z') || (all[end] >= 'A' && all[end]
                <= 'Z')) {
                found = true;
            }
        }
        if found {
            assert(sequence_end(text@, pos as int) == Some(end + 1));
            let ghost before = r@;
            r.append(text.substring_char(start, pos));
            assert(r@ + text@.subrange((end + 1) as int, (end + 1) as int) =~= before
                + text@.subrange(start as int, pos as int));
            start = end + 1;
            pos = end + 1;
        } else {
            assert(sequence_end(text@, pos as int) is None);
            assert(text@.subrange(start as int, pos + 1) =~= text@.subrange(
                start as int,
                pos as int,
            ) + seq![text@[pos as int]]);
            assert(r@ + text@.subrange(start as int, pos + 1) + stripped_from(text@, pos + 1)
                =~= r@ + text@.subrange(start as int, pos as int) + (seq![text@[pos as int]]
                + stripped_from(text@, pos + 1)));
            pos = pos + 1;
        }
    }
    let ghost before = r@;
    r.append(text.substring_char(start, n));
    assert(r@ =~= before + text@.subrange(start as int, pos as int) + stripped_from(
        text@,
        pos as int,
    ));
    r
}

/// The search window as it goes into the export: without the escape
/// sequences that style it.
pub fn format_json_window(input: &Option<String>) -> (r: Option<String>)
    ensures
        opt_view(r) == match *input {
            Some(text) => Some(stripped_from(text@, 0)),
            None => None,
        },
{
    match input {
        Some(text) => Some(strip_ansi(text.as_str())),
        None => None,
    }
}

} // verus!
