//! The settings of a run, the sort keys, and the closing summary line.

use vstd::prelude::*;
use vstd::string::*;
use std::cmp::Ordering;
use regex::Regex;
use regex::RegexSet;
use crate::dir::slashed;
use crate::pattern::{
    converted, parse_and_convert_patterns, regex_compiles, regex_new, regex_set_compiles,
    regex_set_sources, regex_source, str_replace, PatternError,
};
use crate::sort::{before, bytes_before};
use crate::tcolor::{ansi_color, color_view, styled, RippySchema};
use crate::text::{chars_of, decimal, string_views, usize_to_string};
use crate::tree::{
    absolute_path, convert_relative_to_abs_path, EntryType, Timestamp, Tree, TreeCounts,
};

verus! {

/// What the children of a directory are ordered by; the flag is true for
/// ascending order and false for descending order.
#[derive(Debug, Clone, Copy, PartialEq, Eq)]
pub enum SortKey {
    Date(bool),
    Name(bool),
    Size(bool),
    Type(bool),
}

fn flip(order: Ordering) -> (r: Ordering)
    ensures
        (r == Ordering::Less) == (order == Ordering::Greater),
        (r == Ordering::Greater) == (order == Ordering::Less),
        (r == Ordering::Equal) == (order == Ordering::Equal),
{
    match order {
        Ordering::Less => Ordering::Greater,
        Ordering::Equal => Ordering::Equal,
        Ordering::Greater => Ordering::Less,
    }
}

fn order_bytes(a: &[u8], b: &[u8]) -> (r: i8)
    ensures
        (r < 0) == bytes_before(a@, b@),
        (r > 0) == bytes_before(b@, a@),
{
    let mut i: usize = 0;
    assert(a@.subrange(0, a@.len() as int) =~= a@);
    assert(b@.subrange(0, b@.len() as int) =~= b@);
    while i < a.len() && i < b.len()
        invariant
            i <= a.len(),
            i <= b.len(),
            bytes_before(a@, b@) == bytes_before(
                a@.subrange(i as int, a@.len() as int),
                b@.subrange(i as int, b@.len() as int),
            ),
            bytes_before(b@, a@) == bytes_before(
                b@.subrange(i as int, b@.len() as int),
                a@.subrange(i as int, a@.len() as int),
            ),
        decreases a.len() - i,
    {
        let ghost x = a@.subrange(i as int, a@.len() as int);
        let ghost y = b@.subrange(i as int, b@.len() as int);
        assert(x[0] == a@[i as int]);
        assert(y[0] == b@[i as int]);
        assert(x.drop_first() =~= a@.subrange(i + 1, a@.len() as int));
        assert(y.drop_first() =~= b@.subrange(i + 1, b@.len() as int));
        if a[i] < b[i] {
            return -1;
        }
        if a[i] > b[i] {
            return 1;
        }
        i = i + 1;
    }
    if i < b.len() {
        -1
    } else if i < a.len() {
        1
    } else {
        0
    }
}

fn order_of(sign: i8) -> (r: Ordering)
    ensures
        (r == Ordering::Less) == (sign < 0),
        (r == Ordering::Greater) == (sign > 0),
{
    if sign < 0 {
        Ordering::Less
    } else if sign > 0 {
        Ordering::Greater
    } else {
        Ordering::Equal
    }
}

fn order_sizes(a: Option<u64>, b: Option<u64>) -> (r: Ordering)
    ensures
        (r == Ordering::Less) == (crate::sort::size_rank(a) < crate::sort::size_rank(b)),
        (r == Ordering::Greater) == (crate::sort::size_rank(b) < crate::sort::size_rank(a)),
{
    match (a, b) {
        (None, None) => Ordering::Equal,
        (None, Some(_)) => Ordering::Less,
        (Some(_), None) => Ordering::Greater,
        (Some(x), Some(y)) => if x < y {
            Ordering::Less
        } else if x > y {
            Ordering::Greater
        } else {
            Ordering::Equal
        },
    }
}

fn stamp_total(stamp: Option<Timestamp>) -> (r: u128)
    ensures
        r == crate::sort::date_rank(stamp),
{
    match stamp {
        Some(at) => {
            assert(at.secs * 1_000_000_000 + at.nanos < 0x1_0000_0000_0000_0000_0000_0000 as int)
                by (nonlinear_arith)
                requires
                    at.secs <= u64::MAX,
                    at.nanos <= u32::MAX,
            ;
            at.secs as u128 * 1_000_000_000u128 + at.nanos as u128
        },
        None => 0,
    }
}

fn order_dates(a: Option<Timestamp>, b: Option<Timestamp>) -> (r: Ordering)
    ensures
        (r == Ordering::Less) == (crate::sort::date_rank(a) < crate::sort::date_rank(b)),
        (r == Ordering::Greater) == (crate::sort::date_rank(b) < crate::sort::date_rank(a)),
{
    let x = stamp_total(a);
    let y = stamp_total(b);
    if x < y {
        Ordering::Less
    } else if x > y {
        Ordering::Greater
    } else {
        Ordering::Equal
    }
}

fn order_types(a: EntryType, b: EntryType) -> (r: Ordering)
    ensures
        (r == Ordering::Less) == (crate::sort::type_rank(a) < crate::sort::type_rank(b)),
        (r == Ordering::Greater) == (crate::sort::type_rank(b) < crate::sort::type_rank(a)),
{
    match (a, b) {
        (EntryType::Directory, EntryType::File) => Ordering::Less,
        (EntryType::File, EntryType::Directory) => Ordering::Greater,
        _ => Ordering::Equal,
    }
}

impl SortKey {
    /// How two nodes stand to each other under the key: `Less` where the
    /// first has to come before the second, `Greater` where it has to come
    /// behind it, `Equal` where they tie.
    pub fn compare(&self, a: &Tree, b: &Tree) -> (r: Ordering)
        ensures
            (r == Ordering::Less) == before(*self, a@, b@),
            (r == Ordering::Greater) == before(*self, b@, a@),
    {
        match *self {
            SortKey::Date(up) => {
                let r = order_dates(a.last_modified, b.last_modified);
                if up {
                    r
                } else {
                    flip(r)
                }
            },
            SortKey::Name(up) => {
                let r = order_of(order_bytes(a.name.as_str().as_bytes(), b.name.as_str().as_bytes()));
                if up {
                    r
                } else {
                    flip(r)
                }
            },
            SortKey::Size(up) => {
                let r = order_sizes(a.size, b.size);
                if up {
                    r
                } else {
                    flip(r)
                }
            },
            SortKey::Type(up) => {
                let r = order_types(a.entry_type, b.entry_type);
                if up {
                    r
                } else {
                    flip(r)
                }
            },
        }
    }
}

/// The settings of one run.
#[derive(Debug)]
pub struct RippyArgs {
    pub directory: String,
    /// The directory against which a relative path is made absolute.
    pub current_dir: String,
    pub pattern: Option<Regex>,
    pub is_search: bool,
    pub ignore_patterns: Option<RegexSet>,
    pub include_all: bool,
    pub include_patterns: Option<RegexSet>,
    pub max_depth: usize,
    pub max_files: usize,
    pub output: String,
    pub indent: usize,
    pub sort_by: SortKey,
    pub is_dir_detail: bool,
    pub show_full_path: bool,
    pub show_relative_path: bool,
    pub show_size: bool,
    pub show_date: bool,
    pub is_short_date: bool,
    pub show_elapsed: bool,
    pub is_grayscale: bool,
    pub is_quote: bool,
    pub is_flat: bool,
    pub is_window: bool,
    pub is_just_counts: bool,
    pub is_enumerate: bool,
    pub is_follow_links: bool,
    pub is_gitignore: bool,
    pub radius: usize,
    pub colors: RippySchema,
}

impl RippyArgs {
    /// A search is on exactly when there is an expression to search for.
    pub open spec fn wf(&self) -> bool {
        self.is_search == (self.pattern is Some)
    }
}

/// What was asked for on the command line, and what is known of the
/// terminal, before any of it is turned into settings.
#[derive(Debug)]
pub struct RawArgs {
    pub directory: Option<String>,
    pub pattern: Option<String>,
    pub all: bool,
    pub sort_by: Option<String>,
    pub max_depth: Option<usize>,
    pub ignore_globs: Option<Vec<String>>,
    pub include_globs: Option<Vec<String>>,
    pub window_radius: Option<usize>,
    pub max_files: Option<usize>,
    pub output: Option<String>,
    pub indent: Option<usize>,
    pub case_insensitive: bool,
    pub follow_links: bool,
    pub relative_path: bool,
    pub reverse: bool,
    pub full_path: bool,
    pub size: bool,
    pub date: bool,
    pub short_date: bool,
    pub enumerate: bool,
    pub time: bool,
    pub no_gitignore: bool,
    pub gray: bool,
    pub quote: bool,
    pub flat: bool,
    pub dir_detail: bool,
    pub windowless: bool,
    pub just_counts: bool,
    pub verbose: bool,
    /// Whether the output goes to a terminal.
    pub is_terminal: bool,
    /// Whether the terminal takes escape sequences.
    pub ansi_supported: bool,
    /// The directory the program runs in.
    pub current_dir: String,
}

/// A letter of the basic alphabet in lower case; any other character as it
/// is.
pub open spec fn lowered_char(c: char) -> char {
    if 'A' <= c && c <= 'Z' {
        ((c as u8) + 32) as char
    } else {
        c
    }
}

/// `text` with the capital letters of the basic alphabet in lower case.
pub open spec fn lowered(text: Seq<char>) -> Seq<char> {
    text.map_values(|c: char| lowered_char(c))
}

/// The sort key that a name asks for, whatever its case: by date, by size
/// or by type, and by name for every other word. `ascending` gives the
/// direction.
pub open spec fn key_named(name: Seq<char>, ascending: bool) -> SortKey {
    if lowered(name) == seq!['d', 'a', 't', 'e'] {
        SortKey::Date(ascending)
    } else if lowered(name) == seq!['s', 'i', 'z', 'e'] {
        SortKey::Size(ascending)
    } else if lowered(name) == seq!['t', 'y', 'p', 'e'] {
        SortKey::Type(ascending)
    } else {
        SortKey::Name(ascending)
    }
}

fn lower(c: char) -> (r: char)
    ensures
        r == lowered_char(c),
{
    if c == 'A' {
        'a'
    } else if c == 'D' {
        'd'
    } else if c == 'E' {
        'e'
    } else if c == 'I' {
        'i'
    } else if c == 'P' {
        'p'
    } else if c == 'S' {
        's'
    } else if c == 'T' {
        't'
    } else if c == 'Y' {
        'y'
    } else if c == 'Z' {
        'z'
    } else if 'A' <= c && c <= 'Z' {
        ((c as u8) + 32) as char
    } else {
        c
    }
}

fn is_word(text: &Vec<char>, a: char, b: char, c: char, d: char) -> (r: bool)
    ensures
        r == (lowered(text@) == seq![a, b, c, d]),
{
    if text.len() != 4 {
        assert(lowered(text@).len() == text@.len());
        assert(seq![a, b, c, d].len() == 4);
        return false;
    }
    let r = lower(text[0]) == a && lower(text[1]) == b && lower(text[2]) == c && lower(text[3])
        == d;
    proof {
        let low = lowered(text@);
        assert(low.len() == 4);
        if r {
            assert(low =~= seq![a, b, c, d]);
        } else {
            assert(low[0] == lowered_char(text@[0]));
            assert(low[1] == lowered_char(text@[1]));
            assert(low[2] == lowered_char(text@[2]));
            assert(low[3] == lowered_char(text@[3]));
        }
    }
    r
}

/// The sort key that `name` asks for.
pub fn sort_key_for(name: &str, ascending: bool) -> (key: SortKey)
    ensures
        key == key_named(name@, ascending),
{
    let text = chars_of(name);
    if is_word(&text, 'd', 'a', 't', 'e') {
        SortKey::Date(ascending)
    } else if is_word(&text, 's', 'i', 'z', 'e') {
        SortKey::Size(ascending)
    } else if is_word(&text, 't', 'y', 'p', 'e') {
        SortKey::Type(ascending)
    } else {
        SortKey::Name(ascending)
    }
}

/// The search root that was asked for, with forward slashes only; the
/// current directory where none was given.
pub open spec fn directory_asked(directory: Option<String>) -> Seq<char> {
    match directory {
        Some(path) => slashed(path@),
        None => seq!['.'],
    }
}

/// The search root that the settings hold: the one asked for, made absolute
/// where full paths are shown.
pub open spec fn directory_set(raw: RawArgs) -> Seq<char> {
    if raw.full_path {
        absolute_path(directory_asked(raw.directory), raw.current_dir@)
    } else {
        directory_asked(raw.directory)
    }
}

/// The expression that is searched for: the one given, made blind to case
/// where that was asked for.
pub open spec fn pattern_asked(raw: RawArgs) -> Option<Seq<char>> {
    match raw.pattern {
        Some(text) => Some(
            if raw.case_insensitive {
                seq!['(', '?', 'i', ')'] + text@
            } else {
                text@
            },
        ),
        None => None,
    }
}

/// The expressions of a list of globs, where a list was given.
pub open spec fn globs_asked(globs: Option<Vec<String>>, case_insensitive: bool) -> Option<
    Seq<Seq<char>>,
> {
    match globs {
        Some(list) => Some(converted(string_views(list@), case_insensitive)),
        None => None,
    }
}

/// Whether everything that `raw` asks to be compiled does compile.
pub open spec fn compiles(raw: RawArgs) -> bool {
    &&& pattern_asked(raw) matches Some(source) ==> regex_compiles(source)
    &&& globs_asked(raw.ignore_globs, raw.case_insensitive) matches Some(sources) ==> regex_set_compiles(
        sources,
    )
    &&& globs_asked(raw.include_globs, raw.case_insensitive) matches Some(sources) ==> regex_set_compiles(
        sources,
    )
}

/// Whether the output is kept free of escape sequences: because that was
/// asked for, or the output goes to no terminal, or the terminal takes
/// none.
pub open spec fn grayscale_asked(raw: RawArgs) -> bool {
    raw.gray || !raw.is_terminal || !raw.ansi_supported
}

/// Whether `args` are the settings that `raw` asks for.
pub open spec fn settings_of(raw: RawArgs, args: RippyArgs) -> bool {
    &&& args.directory@ == directory_set(raw)
    &&& args.current_dir@ == raw.current_dir@
    &&& match args.pattern {
        Some(re) => pattern_asked(raw) == Some(regex_source(re)),
        None => pattern_asked(raw) is None,
    }
    &&& args.is_search == (raw.pattern is Some)
    &&& match args.ignore_patterns {
        Some(set) => globs_asked(raw.ignore_globs, raw.case_insensitive) == Some(regex_set_sources(set)),
        None => raw.ignore_globs is None,
    }
    &&& match args.include_patterns {
        Some(set) => globs_asked(raw.include_globs, raw.case_insensitive) == Some(
            regex_set_sources(set),
        ),
        None => raw.include_globs is None,
    }
    &&& args.include_all == raw.all
    &&& args.max_depth == match raw.max_depth {
        Some(depth) => depth,
        None => usize::MAX,
    }
    &&& args.max_files == match raw.max_files {
        Some(files) => files,
        None => usize::MAX,
    }
    &&& args.output@ == match raw.output {
        Some(file) => file@,
        None => Seq::empty(),
    }
    &&& args.indent == match raw.indent {
        Some(width) => width,
        None => 2usize,
    }
    &&& args.sort_by == key_named(
        match raw.sort_by {
            Some(name) => name@,
            None => seq!['n', 'a', 'm', 'e'],
        },
        !raw.reverse,
    )
    &&& args.is_dir_detail == raw.dir_detail
    &&& args.show_full_path == raw.full_path
    &&& args.show_relative_path == raw.relative_path
    &&& args.show_size == (raw.size || raw.verbose)
    &&& args.show_date == (raw.date || raw.short_date || raw.verbose)
    &&& args.is_short_date == raw.short_date
    &&& args.show_elapsed == (raw.time || raw.verbose)
    &&& args.is_grayscale == grayscale_asked(raw)
    &&& if grayscale_asked(raw) {
        args.colors.is_plain()
    } else {
        args.colors.is_palette()
    }
    &&& args.is_quote == raw.quote
    &&& args.is_flat == raw.flat
    &&& args.is_window == !raw.windowless
    &&& args.is_just_counts == raw.just_counts
    &&& args.is_enumerate == raw.enumerate
    &&& args.is_follow_links == raw.follow_links
    &&& args.is_gitignore == !raw.no_gitignore
    &&& args.radius == match raw.window_radius {
        Some(radius) => radius,
        None => 20usize,
    }
}

/// The search root that was asked for.
pub fn directory_of(directory: &Option<String>) -> (r: String)
    ensures
        r@ == directory_asked(*directory),
{
    proof {
        reveal_strlit("\\");
        reveal_strlit("/");
        reveal_strlit(".");
        assert("\\"@ =~= seq!['\\']);
        assert("/"@ =~= seq!['/']);
        assert("."@ =~= seq!['.']);
    }
    match directory {
        Some(path) => str_replace(path.as_str(), "\\", "/"),
        None => String::from_str("."),
    }
}

fn compile_pattern(raw: &RawArgs) -> (r: Result<Option<regex::Regex>, PatternError>)
    ensures
        r is Ok <==> (pattern_asked(*raw) matches Some(source) ==> regex_compiles(source)),
        r matches Ok(pattern) ==> match pattern {
            Some(re) => pattern_asked(*raw) == Some(regex_source(re)),
            None => pattern_asked(*raw) is None,
        },
{
    proof {
        reveal_strlit("(?i)");
        assert("(?i)"@ =~= seq!['(', '?', 'i', ')']);
    }
    match &raw.pattern {
        Some(text) => {
            let source = if raw.case_insensitive {
                let mut source = String::from_str("(?i)");
                source.append(text.as_str());
                source
            } else {
                text.clone()
            };
            match regex_new(source.as_str()) {
                Ok(re) => Ok(Some(re)),
                Err(cause) => Err(PatternError::Invalid(cause)),
            }
        },
        None => Ok(None),
    }
}

fn compile_globs(globs: &Option<Vec<String>>, case_insensitive: bool) -> (r: Result<
    Option<regex::RegexSet>,
    PatternError,
>)
    ensures
        r is Ok <==> (globs_asked(*globs, case_insensitive) matches Some(sources)
            ==> regex_set_compiles(sources)),
        r matches Ok(found) ==> match found {
            Some(set) => globs_asked(*globs, case_insensitive) == Some(regex_set_sources(set)),
            None => *globs is None,
        },
{
    match globs {
        Some(list) => match parse_and_convert_patterns(list, case_insensitive) {
            Ok(set) => Ok(Some(set)),
            Err(cause) => Err(cause),
        },
        None => Ok(None),
    }
}

fn directory_for(raw: &RawArgs) -> (r: String)
    ensures
        r@ == directory_set(*raw),
{
    let directory_arg = directory_of(&raw.directory);
    if raw.full_path {
        convert_relative_to_abs_path(directory_arg.as_str(), raw.current_dir.as_str())
    } else {
        directory_arg
    }
}

fn sort_key_of(raw: &RawArgs) -> (key: SortKey)
    ensures
        key == key_named(
            match raw.sort_by {
                Some(name) => name@,
                None => seq!['n', 'a', 'm', 'e'],
            },
            !raw.reverse,
        ),
{
    proof {
        reveal_strlit("name");
        assert("name"@ =~= seq!['n', 'a', 'm', 'e']);
    }
    match &raw.sort_by {
        Some(name) => sort_key_for(name.as_str(), !raw.reverse),
        None => sort_key_for("name", !raw.reverse),
    }
}

fn or_default(value: Option<usize>, default: usize) -> (r: usize)
    ensures
        r == match value {
            Some(given) => given,
            None => default,
        },
{
    match value {
        Some(given) => given,
        None => default,
    }
}

fn output_of(raw: &RawArgs) -> (r: String)
    ensures
        r@ == match raw.output {
            Some(file) => file@,
            None => Seq::empty(),
        },
{
    match &raw.output {
        Some(file) => file.clone(),
        None => String::new(),
    }
}

/// Turns what was asked for into the settings of a run. Fails where the
/// search expression or one of the two lists of globs does not compile.
pub fn parse_args(raw: RawArgs) -> (r: Result<RippyArgs, PatternError>)
    ensures
        r is Ok <==> compiles(raw),
        r matches Ok(args) ==> settings_of(raw, args) && args.wf(),
{
    let pattern = match compile_pattern(&raw) {
        Ok(pattern) => pattern,
        Err(cause) => {
            return Err(cause);
        },
    };
    let ignore_patterns = match compile_globs(&raw.ignore_globs, raw.case_insensitive) {
        Ok(set) => set,
        Err(cause) => {
            return Err(cause);
        },
    };
    let include_patterns = match compile_globs(&raw.include_globs, raw.case_insensitive) {
        Ok(set) => set,
        Err(cause) => {
            return Err(cause);
        },
    };
    let is_grayscale = raw.gray || !raw.is_terminal || !raw.ansi_supported;
    let args = RippyArgs {
        directory: directory_for(&raw),
        current_dir: raw.current_dir.clone(),
        is_search: pattern.is_some(),
        pattern,
        ignore_patterns,
        include_all: raw.all,
        include_patterns,
        max_depth: or_default(raw.max_depth, usize::MAX),
        max_files: or_default(raw.max_files, usize::MAX),
        output: output_of(&raw),
        indent: or_default(raw.indent, 2),
        sort_by: sort_key_of(&raw),
        is_dir_detail: raw.dir_detail,
        show_full_path: raw.full_path,
        show_relative_path: raw.relative_path,
        show_size: raw.size || raw.verbose,
        show_date: raw.date || raw.short_date || raw.verbose,
        is_short_date: raw.short_date,
        show_elapsed: raw.time || raw.verbose,
        is_grayscale,
        is_quote: raw.quote,
        is_flat: raw.flat,
        is_window: !raw.windowless,
        is_just_counts: raw.just_counts,
        is_enumerate: raw.enumerate,
        is_follow_links: raw.follow_links,
        is_gitignore: !raw.no_gitignore,
        radius: or_default(raw.window_radius, 20),
        colors: RippySchema::get_color_schema(is_grayscale),
    };
    Ok(args)
}

/// The word for a number of things: the plural except for one.
pub open spec fn counted(n: nat, one: Seq<char>, many: Seq<char>) -> Seq<char> {
    decimal(n) + seq![' '] + if n != 1 {
        many
    } else {
        one
    }
}

/// The line that sums a run up: the matches and the files searched after a
/// search, the directories and files shown after a listing. Where nothing
/// was found the line begins with a line break, unless counts alone were
/// asked for.
pub open spec fn summary_text(
    args: &RippyArgs,
    num_matched: nat,
    num_searched: nat,
    counts: TreeCounts,
) -> Seq<char> {
    let bold = !args.is_grayscale;
    let searched = styled(
        color_view(args.colors.search),
        false,
        decimal(num_searched) + " searched"@,
    );
    let lead = if args.is_just_counts {
        Seq::empty()
    } else {
        "\n"@
    };
    if num_matched > 0 {
        if args.is_search {
            styled(
                color_view(args.colors.window),
                bold,
                counted(num_matched, "match"@, "matches"@),
            ) + ", "@ + searched
        } else {
            styled(
                color_view(args.colors.dir),
                bold,
                counted(counts.dir_count as nat, "directory"@, "directories"@),
            ) + ", "@ + styled(
                color_view(args.colors.file),
                bold,
                counted(counts.file_count as nat, "file"@, "files"@),
            )
        }
    } else if args.is_search {
        lead + styled(color_view(args.colors.zero), bold, "0 matches"@) + ", "@ + searched
    } else {
        lead + styled(
            color_view(args.colors.dir),
            bold,
            decimal(counts.dir_count as nat) + " directories"@,
        ) + ", "@ + styled(
            color_view(args.colors.file),
            bold,
            decimal(counts.file_count as nat) + " files"@,
        )
    }
}

fn count_words(n: usize, one: &str, many: &str) -> (r: String)
    ensures
        r@ == counted(n as nat, one@, many@),
{
    proof {
        reveal_strlit(" ");
        assert(" "@ =~= seq![' ']);
    }
    let mut r = usize_to_string(n);
    r.append(" ");
    if n != 1 {
        r.append(many);
    } else {
        r.append(one);
    }
    r
}

/// Writes the line that sums a run up.
pub fn format_result_summary(
    args: &RippyArgs,
    num_matched: usize,
    num_searched: usize,
    counts: &TreeCounts,
) -> (r: String)
    ensures
        r@ == summary_text(args, num_matched as nat, num_searched as nat, *counts),
{
    let bold = !args.is_grayscale;
    let mut searched_text = usize_to_string(num_searched);
    searched_text.append(" searched");
    let searched = ansi_color(args.colors.search, false, searched_text.as_str());
    let mut r = if num_matched > 0 || args.is_just_counts {
        String::new()
    } else {
        String::from_str("\n")
    };
    if num_matched > 0 {
        if args.is_search {
            let text = count_words(num_matched, "match", "matches");
            let mut r = ansi_color(args.colors.window, bold, text.as_str());
            r.append(", ");
            r.append(searched.as_str());
            r
        } else {
            let dirs = count_words(counts.dir_count, "directory", "directories");
            let files = count_words(counts.file_count, "file", "files");
            let mut r = ansi_color(args.colors.dir, bold, dirs.as_str());
            r.append(", ");
            r.append(ansi_color(args.colors.file, bold, files.as_str()).as_str());
            r
        }
    } else if args.is_search {
        r.append(ansi_color(args.colors.zero, bold, "0 matches").as_str());
        r.append(", ");
        r.append(searched.as_str());
        r
    } else {
        let mut dirs = usize_to_string(counts.dir_count);
        dirs.append(" directories");
        let mut files = usize_to_string(counts.file_count);
        files.append(" files");
        r.append(ansi_color(args.colors.dir, bold, dirs.as_str()).as_str());
        r.append(", ");
        r.append(ansi_color(args.colors.file, bold, files.as_str()).as_str());
        r
    }
}

} // verus!
