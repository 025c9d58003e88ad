use regex::Regex;
use rippy::args::{
    directory_of, format_result_summary, parse_args, sort_key_for, RawArgs, RippyArgs, SortKey,
};
use rippy::dir::{
    build_leaf, format_link, needs_contents, needs_executable, needs_metadata, DirEntryInfo,
    EntryDetails, FileMetadata, LinkTarget, TreeLeaf,
};
use rippy::format::{
    count_digits_log, format_display_datetime, format_display_size, format_json_datetime,
    format_json_window, format_size, strip_ansi,
};
use rippy::ignorer::Ignorer;
use rippy::pattern::{
    convert_pattern, convert_patterns, is_excluded, is_included, parse_and_convert_patterns,
    PatternError,
};
use rippy::snippet::{extract_snippet, search_contents, snippet_window, slice_between, Window};
use rippy::tcolor::{ansi_color, enable_ansi_support, RippySchema};
use rippy::text::{
    byte_length, chars_of, repeat_str, split_segments, starts_with_dot,
    str_equal, u64_to_string, usize_to_string,
};
use rippy::tree::{
    convert_relative_to_abs_path, EntryType, Timestamp, Tree, TreeCounts,
};

fn raw(directory: &str) -> RawArgs {
    RawArgs {
        directory: Some(directory.to_string()),
        pattern: None,
        all: false,
        sort_by: None,
        max_depth: None,
        ignore_globs: None,
        include_globs: None,
        window_radius: None,
        max_files: None,
        output: None,
        indent: None,
        case_insensitive: false,
        follow_links: false,
        relative_path: false,
        reverse: false,
        full_path: false,
        size: false,
        date: false,
        short_date: false,
        enumerate: false,
        time: false,
        no_gitignore: false,
        gray: true,
        quote: false,
        flat: false,
        dir_detail: false,
        windowless: false,
        just_counts: false,
        verbose: false,
        is_terminal: true,
        ansi_supported: true,
        current_dir: "/work".to_string(),
    }
}

fn gray(directory: &str) -> RippyArgs {
    parse_args(raw(directory)).unwrap()
}

fn file(name: &str, path: &str) -> DirEntryInfo {
    DirEntryInfo {
        name: name.to_string(),
        unicode_name: true,
        path: path.to_string(),
        is_dir: false,
        is_file: true,
        is_symlink: false,
        target_is_dir: false,
    }
}

fn details(contents: Option<&str>, metadata: Option<FileMetadata>) -> EntryDetails {
    EntryDetails { contents: contents.map(|c| c.to_string()), metadata, link: None, executable: false }
}

#[test]
fn text_helpers_give_exact_values() {
    assert_eq!(repeat_str("ab", 3), "ababab");
    assert_eq!(repeat_str("ab", 0), "");
    assert_eq!(usize_to_string(0), "0");
    assert_eq!(usize_to_string(9), "9");
    assert_eq!(usize_to_string(10), "10");
    assert_eq!(usize_to_string(1234567890), "1234567890");
    assert_eq!(u64_to_string(u64::MAX), "18446744073709551615");
    assert!(str_equal("héllo", "héllo"));
    assert!(!str_equal("héllo", "hello"));
    assert!(!str_equal("a", "ab"));
    assert!(starts_with_dot(".git"));
    assert!(!starts_with_dot("git."));
    assert!(!starts_with_dot(""));
    assert_eq!(chars_of("aé"), vec!['a', 'é']);
    assert_eq!(byte_length("aé"), 3);
}

#[test]
fn segments_leave_out_empty_pieces() {
    assert_eq!(split_segments("/a//b/c/", 0), vec!["a", "b", "c"]);
    assert_eq!(split_segments("root/a/b", 4), vec!["a", "b"]);
    assert_eq!(split_segments("", 0), Vec::<String>::new());
    assert_eq!(split_segments("///", 0), Vec::<String>::new());
    assert_eq!(split_segments("single", 0), vec!["single"]);
}

#[test]
fn ansi_color_wraps_text() {
    assert_eq!(ansi_color(None, true, "x"), "x");
    assert_eq!(ansi_color(Some("\x1b[38;5;80m"), false, "x"), "\x1b[38;5;80mx\x1b[0m");
    assert_eq!(ansi_color(Some("\x1b[38;5;80m"), true, "x"), "\x1b[1m\x1b[38;5;80mx\x1b[0m");
}

#[test]
fn color_schema_is_plain_or_palette() {
    let plain = RippySchema::get_color_schema(true);
    assert_eq!(plain.root, None);
    assert_eq!(plain.window, None);
    let palette = RippySchema::get_color_schema(false);
    assert_eq!(palette.root, Some("\x1b[38;5;220m"));
    assert_eq!(palette.dir, Some("\x1b[38;5;80m"));
    assert_eq!(palette.executable, Some("\x1b[38;5;211m"));
    assert_eq!(palette.file, None);
    assert_eq!(palette.sym, Some("\x1b[38;5;147m"));
    assert_eq!(palette.detail, Some("\x1b[38;5;248m"));
    assert_eq!(palette.search, Some("\x1b[38;5;220m"));
    assert_eq!(palette.window, Some("\x1b[38;5;42m"));
    assert_eq!(palette.muted, Some("\x1b[38;5;248m"));
    assert_eq!(palette.zero, Some("\x1b[38;5;220m"));
}

#[test]
fn ansi_support_follows_the_console() {
    assert!(enable_ansi_support(None));
    assert!(enable_ansi_support(Some(true)));
    assert!(!enable_ansi_support(Some(false)));
}

#[test]
fn globs_become_anchored_expressions() {
    assert_eq!(convert_pattern("target", true), "(?i)^target$");
    assert_eq!(convert_pattern("*.rs", true), "(?i)^.*\\.rs$");
    assert_eq!(convert_pattern("R*md", false), "^R.*md$");
    assert_eq!(convert_pattern("a+b(c)", false), "^a\\+b\\(c\\)$");
    assert_eq!(convert_pattern("back\\*slash", false), "^back\\\\.*slash$");
    assert_eq!(convert_pattern("", false), "^$");
    let globs = vec!["*.txt".to_string(), String::new(), "b4".to_string()];
    assert_eq!(convert_patterns(&globs, false), vec!["^.*\\.txt$", "^b4$"]);
}

#[test]
fn pattern_sets_match_whole_names() {
    let set = parse_and_convert_patterns(&vec!["*.txt".to_string(), "b4".to_string()], false)
        .unwrap();
    assert_eq!(set.patterns(), ["^.*\\.txt$", "^b4$"]);
    let set = Some(set);
    assert!(is_excluded(&set, "notes.txt"));
    assert!(is_excluded(&set, "b4"));
    assert!(!is_excluded(&set, "b44"));
    assert!(!is_excluded(&set, "notes.txt.bak"));
    assert!(!is_excluded(&None, "notes.txt"));
    assert!(is_included(&set, "b4"));
    assert!(!is_included(&set, "B4"));
    assert!(is_included(&None, "anything"));
    let blind = Some(parse_and_convert_patterns(&vec!["b4".to_string()], true).unwrap());
    assert!(is_included(&blind, "B4"));
}

#[test]
fn an_expression_that_does_not_compile_is_turned_down() {
    let mut asked = raw(".");
    asked.pattern = Some("foo(bar".to_string());
    match parse_args(asked) {
        Err(PatternError::Invalid(_)) => {}
        Ok(_) => panic!("the expression should not compile"),
    }
}

#[test]
fn settings_follow_what_was_asked() {
    let args = gray("some\\dir");
    assert_eq!(args.directory, "some/dir");
    assert_eq!(args.max_depth, usize::MAX);
    assert_eq!(args.max_files, usize::MAX);
    assert_eq!(args.indent, 2);
    assert_eq!(args.radius, 20);
    assert_eq!(args.output, "");
    assert_eq!(args.sort_by, SortKey::Name(true));
    assert!(args.is_gitignore);
    assert!(args.is_window);
    assert!(args.is_grayscale);
    assert!(!args.is_search);
    assert!(args.pattern.is_none());

    let mut asked = raw("dir");
    asked.directory = None;
    asked.gray = false;
    asked.is_terminal = false;
    asked.verbose = true;
    asked.sort_by = Some("SiZe".to_string());
    asked.reverse = true;
    asked.pattern = Some("x+".to_string());
    asked.full_path = true;
    asked.windowless = true;
    asked.no_gitignore = true;
    let args = parse_args(asked).unwrap();
    assert_eq!(args.directory, "/work");
    assert!(args.is_grayscale);
    assert_eq!(args.colors, RippySchema::get_color_schema(true));
    assert!(args.show_size && args.show_date && args.show_elapsed);
    assert_eq!(args.sort_by, SortKey::Size(false));
    assert!(args.is_search);
    assert_eq!(args.pattern.unwrap().as_str(), "x+");
    assert!(!args.is_window);
    assert!(!args.is_gitignore);

    let mut asked = raw("dir");
    asked.short_date = true;
    let args = parse_args(asked).unwrap();
    assert!(args.show_date && args.is_short_date && !args.show_size);
}

#[test]
fn sort_keys_go_by_name_whatever_the_case() {
    assert_eq!(sort_key_for("date", true), SortKey::Date(true));
    assert_eq!(sort_key_for("DATE", false), SortKey::Date(false));
    assert_eq!(sort_key_for("Size", true), SortKey::Size(true));
    assert_eq!(sort_key_for("tYpE", true), SortKey::Type(true));
    assert_eq!(sort_key_for("name", true), SortKey::Name(true));
    assert_eq!(sort_key_for("other", false), SortKey::Name(false));
    assert_eq!(sort_key_for("dates", true), SortKey::Name(true));
    assert_eq!(directory_of(&None), ".");
    assert_eq!(directory_of(&Some("a\\b\\c".to_string())), "a/b/c");
}

#[test]
fn sizes_are_written_in_three_characters() {
    assert_eq!(format_size(0), "0.0 B");
    assert_eq!(format_size(1), "1.0 B");
    assert_eq!(format_size(9), "9.0 B");
    assert_eq!(format_size(10), " 10 B");
    assert_eq!(format_size(78), " 78 B");
    assert_eq!(format_size(566), "566 B");
    assert_eq!(format_size(999), "999 B");
    assert_eq!(format_size(1_000), "1.0 K");
    assert_eq!(format_size(1_050), "1.1 K");
    assert_eq!(format_size(1_150), "1.1 K");
    assert_eq!(format_size(1_250), "1.2 K");
    assert_eq!(format_size(9_950), "9.9 K");
    assert_eq!(format_size(1_500), "1.5 K");
    assert_eq!(format_size(1_750), "1.8 K");
    assert_eq!(format_size(9_949), "9.9 K");
    assert_eq!(format_size(9_960), "10. K");
    assert_eq!(format_size(10_000), " 10 K");
    assert_eq!(format_size(10_500), " 10 K");
    assert_eq!(format_size(11_500), " 12 K");
    assert_eq!(format_size(999_499), "999 K");
    assert_eq!(format_size(999_500), "100 K");
    assert_eq!(format_size(1_000_000), "1.0 M");
    assert_eq!(format_size(25_400_000), " 25 M");
    assert_eq!(format_size(1_000_000_000), "1.0 G");
    assert_eq!(format_size(u64::MAX), "184 G");
}

#[test]
fn shown_sizes_follow_the_settings() {
    let mut asked = raw(".");
    asked.size = true;
    let args = parse_args(asked).unwrap();
    assert_eq!(format_display_size(Some(3), &args, EntryType::File), "3.0 B");
    assert_eq!(format_display_size(Some(3), &args, EntryType::Directory), "");
    assert_eq!(format_display_size(None, &args, EntryType::File), "");
    let mut asked = raw(".");
    asked.size = true;
    asked.dir_detail = true;
    let args = parse_args(asked).unwrap();
    assert_eq!(format_display_size(Some(3), &args, EntryType::Directory), "3.0 B");
    assert_eq!(format_display_size(Some(3), &gray("."), EntryType::File), "");
}

#[test]
fn digits_are_counted_exactly() {
    assert_eq!(count_digits_log(0), 1);
    assert_eq!(count_digits_log(9), 1);
    assert_eq!(count_digits_log(10), 2);
    assert_eq!(count_digits_log(99), 2);
    assert_eq!(count_digits_log(100), 3);
    assert_eq!(count_digits_log(1000), 4);
    assert_eq!(count_digits_log(999_999), 6);
    assert_eq!(count_digits_log(1_000_000), 7);
}

#[test]
fn dates_are_written_in_universal_time() {
    let stamp = Timestamp { secs: 1_431_648_000, nanos: 0 };
    assert_eq!(format_json_datetime(Some(stamp)), Some("2015-05-15 00:00:00".to_string()));
    assert_eq!(format_json_datetime(None), None);
    let late = Timestamp { secs: 1_721_833_797, nanos: 999_999_999 };
    assert_eq!(format_json_datetime(Some(late)), Some("2024-07-24 15:09:57".to_string()));
    let beyond = Timestamp { secs: u64::MAX, nanos: 0 };
    assert_eq!(format_json_datetime(Some(beyond)), Some("1970-01-01 00:00:00".to_string()));

    let mut asked = raw(".");
    asked.date = true;
    let long = parse_args(asked).unwrap();
    assert_eq!(format_display_datetime(Some(stamp), &long, EntryType::File), "2015-05-15 00:00:00");
    assert_eq!(format_display_datetime(Some(stamp), &long, EntryType::Directory), "");
    assert_eq!(format_display_datetime(None, &long, EntryType::File), "");
    let mut asked = raw(".");
    asked.short_date = true;
    asked.dir_detail = true;
    let short = parse_args(asked).unwrap();
    assert_eq!(format_display_datetime(Some(stamp), &short, EntryType::Directory), "2015-05-15");
    assert_eq!(format_display_datetime(Some(stamp), &gray("."), EntryType::File), "");
}

#[test]
fn escape_sequences_are_stripped() {
    assert_eq!(strip_ansi("\x1b[38;5;248mabc\x1b[0m"), "abc");
    assert_eq!(strip_ansi("a\x1b[1mb\x1b[31;1mc"), "abc");
    assert_eq!(strip_ansi("plain"), "plain");
    assert_eq!(strip_ansi(""), "");
    assert_eq!(strip_ansi("\x1b[12"), "\x1b[12");
    assert_eq!(strip_ansi("\x1b[12;?m"), "\x1b[12;?m");
    assert_eq!(strip_ansi("\x1b[mé\x1b"), "é\x1b");
    assert_eq!(format_json_window(&Some("\x1b[0mx".to_string())), Some("x".to_string()));
    assert_eq!(format_json_window(&None), None);
}

#[test]
fn summaries_count_in_words() {
    let args = gray(".");
    assert_eq!(
        format_result_summary(&args, 9, 9, &TreeCounts { dir_count: 2, file_count: 7 }),
        "2 directories, 7 files"
    );
    assert_eq!(
        format_result_summary(&args, 2, 1, &TreeCounts { dir_count: 1, file_count: 1 }),
        "1 directory, 1 file"
    );
    assert_eq!(
        format_result_summary(&args, 0, 0, &TreeCounts { dir_count: 0, file_count: 0 }),
        "\n0 directories, 0 files"
    );
    let mut asked = raw(".");
    asked.just_counts = true;
    let counting = parse_args(asked).unwrap();
    assert_eq!(
        format_result_summary(&counting, 0, 0, &TreeCounts { dir_count: 0, file_count: 0 }),
        "0 directories, 0 files"
    );
    let mut asked = raw(".");
    asked.pattern = Some("x".to_string());
    let searching = parse_args(asked).unwrap();
    let counts = TreeCounts { dir_count: 3, file_count: 3 };
    assert_eq!(format_result_summary(&searching, 3, 6, &counts), "3 matches, 6 searched");
    assert_eq!(format_result_summary(&searching, 1, 6, &counts), "1 match, 6 searched");
    assert_eq!(format_result_summary(&searching, 0, 6, &counts), "\n0 matches, 6 searched");

    let mut asked = raw(".");
    asked.gray = false;
    let colored = parse_args(asked).unwrap();
    assert_eq!(
        format_result_summary(&colored, 1, 1, &TreeCounts { dir_count: 0, file_count: 1 }),
        "\x1b[1m\x1b[38;5;80m0 directories\x1b[0m, 1 file"
    );
}

#[test]
fn ignore_rules_decide_by_path_and_kind() {
    let lines = vec!["target/".to_string(), "*.d".to_string(), "!keep.d".to_string()];
    let rules = Ignorer::new("proj", "proj/.gitignore", &lines);
    assert!(rules.has_matcher());
    assert!(rules.is_ignore("proj/target", true));
    assert!(!rules.is_ignore("proj/target", false));
    assert!(rules.is_ignore("proj/x.d", false));
    assert!(rules.is_ignore("proj/sub/deep.d", false));
    assert!(!rules.is_ignore("proj/keep.d", false));
    assert!(!rules.is_ignore("proj/src", true));
    let none = Ignorer::default();
    assert!(!none.has_matcher());
    assert!(!none.is_ignore("proj/x.d", false));
    let marked = vec!["\u{feff}\u{feff}*.log".to_string(), "\u{feff}*.tmp".to_string()];
    let rules = Ignorer::new("proj", "proj/.gitignore", &marked);
    assert!(rules.is_ignore("proj/a.log", false));
    assert!(!rules.is_ignore("proj/a.tmp", false));
    let empty = Ignorer::new("proj", "proj/.gitignore", &Vec::new());
    assert!(empty.has_matcher());
    assert!(!empty.is_ignore("proj/x.d", false));
}

#[test]
fn excerpts_are_cut_at_the_radius_and_the_line() {
    let args = gray(".");
    let text = "first line\n  foo X bar  \nlast line";
    let at = text.find('X').unwrap();
    assert_eq!(
        snippet_window(text, at, at + 1, 100),
        Window { start: 11, end: 24, cut_left: false, cut_right: false }
    );
    assert_eq!(extract_snippet(text, at, at + 1, 100, &args.colors, true), "foo X bar");
    assert_eq!(
        snippet_window(text, at, at + 1, 2),
        Window { start: at - 2, end: at + 3, cut_left: true, cut_right: true }
    );
    assert_eq!(extract_snippet(text, at, at + 1, 2, &args.colors, true), "...o X b...");
    assert_eq!(extract_snippet(text, at, at + 1, 0, &args.colors, true), "...X...");
    assert_eq!(extract_snippet("X", 0, 1, 0, &args.colors, true), "X");
    assert_eq!(extract_snippet("a\r\nXb", 3, 4, 5, &args.colors, true), "Xb");
    assert_eq!(slice_between("héllo", 1, 3), "é");
}

#[test]
fn a_search_leaves_a_window_or_nothing() {
    let mut asked = raw(".");
    asked.pattern = Some(r"\d+".to_string());
    asked.window_radius = Some(3);
    let args = parse_args(asked).unwrap();
    let re = args.pattern.as_ref().unwrap();
    assert_eq!(search_contents(re, "no digits", true, 3, &args.colors, true), None);
    assert_eq!(
        search_contents(re, "abcdef 123 ghijkl 456", true, 3, &args.colors, true),
        Some("...ef 123 gh...".to_string())
    );
    assert_eq!(
        search_contents(re, "abcdef 123", false, 3, &args.colors, true),
        Some(String::new())
    );
    let mut asked = raw(".");
    asked.pattern = Some("X".to_string());
    asked.window_radius = Some(1);
    let args = parse_args(asked).unwrap();
    let leaf = build_leaf(&file("f.txt", "root/f.txt"), &details(Some("Xé"), None), &args).unwrap();
    assert_eq!(leaf.window, Some("Xé".to_string()));
}

#[test]
fn leaves_carry_what_was_read() {
    let mut asked = raw(".");
    asked.size = true;
    asked.date = true;
    asked.quote = true;
    let args = parse_args(asked).unwrap();
    let stamp = Timestamp { secs: 5, nanos: 6 };
    let entry = file("a.txt", "dir\\a.txt");
    let leaf = build_leaf(
        &entry,
        &details(None, Some(FileMetadata { len: 42, modified: Some(stamp) })),
        &args,
    )
    .unwrap();
    assert_eq!(leaf.name, "a.txt");
    assert_eq!(leaf.relative_path, "dir/a.txt");
    assert_eq!(leaf.display, "\"a.txt\"");
    assert_eq!(leaf.size, Some(42));
    assert_eq!(leaf.last_modified, Some(stamp));
    assert_eq!(leaf.window, None);
    assert!(!leaf.is_dir && !leaf.is_sym);
    let leaf = build_leaf(&entry, &details(None, None), &args).unwrap();
    assert_eq!(leaf.size, Some(0));
    assert_eq!(leaf.last_modified, Some(Timestamp { secs: 0, nanos: 0 }));
    let leaf = build_leaf(&entry, &details(None, None), &gray(".")).unwrap();
    assert_eq!(leaf.size, None);
    assert_eq!(leaf.last_modified, None);
    assert_eq!(leaf.display, "a.txt");
    assert_eq!(leaf.to_text(), "TreeLeaf(File, \"dir/a.txt\")");

    assert!(needs_metadata(&args) && !needs_metadata(&gray(".")));
    assert!(!needs_contents(&entry, &args) && !needs_executable(&entry, &args));
    let mut asked = raw(".");
    asked.gray = false;
    assert!(needs_executable(&entry, &parse_args(asked).unwrap()));

    let mut asked = raw(".");
    asked.pattern = Some("needle".to_string());
    let searching = parse_args(asked).unwrap();
    assert!(needs_contents(&entry, &searching));
    assert!(build_leaf(&entry, &details(Some("hay"), None), &searching).is_none());
    assert!(build_leaf(&entry, &details(None, None), &searching).is_none());
    let hit = build_leaf(&entry, &details(Some("a needle"), None), &searching).unwrap();
    assert_eq!(hit.window, Some("a needle".to_string()));
}

#[test]
fn links_show_where_they_point() {
    let mut asked = raw(".");
    asked.gray = false;
    let args = parse_args(asked).unwrap();
    let link = DirEntryInfo {
        name: "ln".to_string(),
        unicode_name: true,
        path: "dir/ln".to_string(),
        is_dir: false,
        is_file: false,
        is_symlink: true,
        target_is_dir: false,
    };
    let mut read = details(None, None);
    assert_eq!(format_link(&None, false, &args), "[unable to resolve]");
    let leaf = build_leaf(&link, &read, &args).unwrap();
    assert_eq!(leaf.display, "\x1b[38;5;147mln\x1b[0m -> [unable to resolve]");
    assert!(leaf.is_sym && !leaf.is_dir);
    read.link = Some(LinkTarget {
        path: "..\\bin\\tool".to_string(),
        file_name: Some("tool".to_string()),
        is_executable: true,
    });
    let leaf = build_leaf(&link, &read, &args).unwrap();
    assert_eq!(leaf.display, "\x1b[38;5;147mln\x1b[0m -> \x1b[38;5;211mtool\x1b[0m");
    let mut asked = raw(".");
    asked.relative_path = true;
    let by_path = parse_args(asked).unwrap();
    let leaf = build_leaf(&link, &read, &by_path).unwrap();
    assert_eq!(leaf.display, "dir/ln -> ../bin/tool");
    let to_dir = DirEntryInfo { target_is_dir: true, ..link };
    let leaf = build_leaf(&to_dir, &read, &args).unwrap();
    assert!(leaf.is_dir);
    assert_eq!(
        leaf.display,
        "\x1b[1m\x1b[38;5;147mln\x1b[0m -> \x1b[1m\x1b[38;5;80mtool\x1b[0m"
    );
}

#[test]
fn nodes_are_made_from_leaves_and_paths() {
    let args = gray("root");
    let mut leaf = TreeLeaf::new(
        "f".to_string(),
        "root/f".to_string(),
        false,
        None,
        Some(3),
        Some("w".to_string()),
        "f".to_string(),
        false,
    );
    leaf.executable = true;
    let tree = Tree::from(leaf.clone());
    assert_eq!(tree.path, Some("root/f".to_string()));
    assert_eq!(tree.entry_type, EntryType::File);
    assert_eq!(tree.window, Some("w".to_string()));
    assert!(tree.executable);
    leaf.is_sym = true;
    let tree = Tree::from_leaf(leaf.clone());
    assert_eq!(tree.path, None);
    assert!(!tree.executable);
    leaf.is_dir = true;
    let tree = Tree::from_leaf(leaf);
    assert_eq!(tree.entry_type, EntryType::Directory);
    assert_eq!(tree.window, None);
    assert_eq!(tree.size, Some(3));

    let dir = Tree::from_dir("root/a/b".to_string(), &args, None);
    assert_eq!(dir.name, "b");
    assert_eq!(dir.display, "b");
    assert_eq!(dir.entry_type, EntryType::Directory);
    let mut asked = raw("root");
    asked.relative_path = true;
    asked.quote = true;
    asked.size = true;
    let by_path = parse_args(asked).unwrap();
    let meta = Some(FileMetadata { len: 9, modified: Some(Timestamp { secs: 1, nanos: 0 }) });
    let dir = Tree::from_dir("root/a/b/".to_string(), &by_path, meta);
    assert_eq!(dir.name, "b");
    assert_eq!(dir.display, "\"root/a/b/\"");
    assert_eq!(dir.size, Some(9));
    assert_eq!(dir.last_modified, None);
    let mut asked = raw("root");
    asked.full_path = true;
    let full = parse_args(asked).unwrap();
    assert_eq!(Tree::from_dir("x/y".to_string(), &full, None).display, "/work/x/y");
    assert_eq!(Tree::new_root("root", &args).display, "root");
    assert_eq!(Tree::new_root("root", &full).name, "/work/root");
    assert_eq!(Tree::new_root("root", &by_path).display, "\"root\"");
    assert_eq!(convert_relative_to_abs_path("/abs\\p", "/work"), "/abs/p");
    assert_eq!(convert_relative_to_abs_path("rel", "/work"), "/work/rel");
    assert_eq!(convert_relative_to_abs_path(".", "/work"), "/work");
    assert_eq!(convert_relative_to_abs_path("./", "/work"), "/work/");
    assert_eq!(convert_relative_to_abs_path("a/./b//c/", "/work"), "/work/a/b/c/");
    assert_eq!(convert_relative_to_abs_path("./a/.", "/work"), "/work/a");
    assert_eq!(convert_relative_to_abs_path("../x", "/work"), "/work/../x");
    assert_eq!(convert_relative_to_abs_path("rel", "/"), "/rel");
    assert_eq!(convert_relative_to_abs_path("//a/b", "/work"), "//a/b");
    assert_eq!(convert_relative_to_abs_path("///a/./b", "/work"), "/a/b");
    assert_eq!(convert_relative_to_abs_path("/", "/work"), "/");
    assert_eq!(convert_relative_to_abs_path("", "/work"), "");
    assert_eq!(convert_relative_to_abs_path("rel\\x", ""), "rel\\x");
    assert_eq!(EntryType::Directory.label(), "Directory");
    assert_eq!(EntryType::File.label(), "File");
}

#[test]
fn text_beyond_the_basic_alphabet_is_kept_whole() {
    assert_eq!(split_segments("корень/папка/файл.txt", 7), vec!["папка", "файл.txt"]);
    assert_eq!(strip_ansi("\x1b[1mжирный\x1b[0m текст"), "жирный текст");
    assert_eq!(convert_pattern("naïve*.txt", false), "^naïve.*\\.txt$");
    let args = gray(".");
    assert_eq!(extract_snippet("", 0, 0, 5, &args.colors, true), "");
    assert_eq!(extract_snippet("abc", 3, 3, 1, &args.colors, true), "...c");
    assert_eq!(extract_snippet("abc", 0, 0, 1, &args.colors, true), "a...");
    assert_eq!(extract_snippet("один\rдва три\r\nчетыре", 9, 15, 2, &args.colors, true), "два т...");
    assert_eq!(
        snippet_window("один\rдва три\r\nчетыре", 9, 15, 2),
        Window { start: 9, end: 18, cut_left: false, cut_right: true }
    );
    let mut asked = raw(".");
    asked.gray = false;
    let colored = parse_args(asked).unwrap();
    assert_eq!(
        extract_snippet("a X b", 2, 3, 1, &colored.colors, false),
        "\x1b[38;5;248m...\x1b[0m\x1b[38;5;248m\x1b[0m\x1b[1m\x1b[38;5;42mX\x1b[0m\x1b[38;5;248m\x1b[0m\x1b[38;5;248m...\x1b[0m"
    );
}

/// The same size written with double-precision arithmetic.
fn size_in_doubles(size: u64) -> String {
    let size = size as f64;
    let (value, unit) = if size < 1_000.0 {
        (size, " B")
    } else if size < 1_000_000.0 {
        (size / 1_000.0, " K")
    } else if size < 1_000_000_000.0 {
        (size / 1_000_000.0, " M")
    } else {
        (size / 1_000_000_000.0, " G")
    };
    let text = if value < 10.0 { format!("{:.1}", value) } else { format!("{:.0}", value) };
    format!("{:>3.3}", text) + unit
}

#[test]
fn sizes_read_as_double_precision_writes_them() {
    for size in 0..=40_000u64 {
        assert_eq!(format_size(size), size_in_doubles(size), "{}", size);
    }
    for step in 0..=400u64 {
        for unit in [1_000u64, 1_000_000, 1_000_000_000] {
            for near in [0u64, 1, 2] {
                let tie = step * unit / 20 + unit / 2;
                let size = (tie + near).saturating_sub(1);
                assert_eq!(format_size(size), size_in_doubles(size), "{}", size);
                let tenth = step * unit / 20;
                let size = (tenth + near).saturating_sub(1);
                assert_eq!(format_size(size), size_in_doubles(size), "{}", size);
            }
        }
    }
    let mut seed: u64 = 0x2545_f491_4f6c_dd1d;
    for _ in 0..50_000 {
        seed ^= seed << 13;
        seed ^= seed >> 7;
        seed ^= seed << 17;
        let size = seed % 9_000_000_000_000_000;
        assert_eq!(format_size(size), size_in_doubles(size), "{}", size);
        let small = seed % 20_000_000_000;
        assert_eq!(format_size(small), size_in_doubles(small), "{}", small);
    }
}

#[test]
fn stripping_agrees_with_the_expression_for_escape_sequences() {
    let sequence = Regex::new(r"\x1b\[[0-9;]*[a-zA-Z]").unwrap();
    let alphabet = ['\x1b', '[', '0', '9', ';', 'm', 'Z', ' ', 'é', '1', '\x1b', '['];
    let mut seed: u64 = 0x9e37_79b9_7f4a_7c15;
    for _ in 0..20_000 {
        let mut text = String::new();
        seed ^= seed << 13;
        seed ^= seed >> 7;
        seed ^= seed << 17;
        let mut bits = seed;
        for _ in 0..(seed % 13) {
            text.push(alphabet[(bits % 12) as usize]);
            bits /= 12;
        }
        assert_eq!(strip_ansi(&text), sequence.replace_all(&text, "").to_string(), "{:?}", text);
    }
}

#[test]
fn segments_and_name_order_agree_with_the_standard_library() {
    let alphabet = ['/', 'a', 'b', 'é', '/', 'Z', '.', '日'];
    let mut seed: u64 = 0xd1b5_4a32_d192_ed03;
    let mut previous = String::new();
    for _ in 0..20_000 {
        let mut text = String::new();
        seed ^= seed << 13;
        seed ^= seed >> 7;
        seed ^= seed << 17;
        let mut bits = seed;
        for _ in 0..(seed % 11) {
            text.push(alphabet[(bits % 8) as usize]);
            bits /= 8;
        }
        let expected: Vec<String> =
            text.split('/').filter(|s| !s.is_empty()).map(|s| s.to_string()).collect();
        assert_eq!(split_segments(&text, 0), expected, "{:?}", text);
        let a = Tree::new(String::new(), text.clone(), None, EntryType::File, None, None, None, None);
        let b = Tree::new(
            String::new(),
            previous.clone(),
            None,
            EntryType::File,
            None,
            None,
            None,
            None,
        );
        assert_eq!(SortKey::Name(true).compare(&a, &b), text.cmp(&previous));
        assert_eq!(SortKey::Name(false).compare(&a, &b), previous.cmp(&text));
        previous = text;
    }
    let some = |size: Option<u64>| {
        let mut tree =
            Tree::new(String::new(), String::new(), None, EntryType::File, None, None, None, None);
        tree.size = size;
        tree
    };
    for (x, y) in [(None, Some(0)), (Some(0), None), (Some(1), Some(2)), (Some(2), Some(2)), (None, None)] {
        assert_eq!(SortKey::Size(true).compare(&some(x), &some(y)), x.cmp(&y));
        assert_eq!(SortKey::Size(false).compare(&some(x), &some(y)), y.cmp(&x));
    }
}

#[test]
fn absolute_paths_agree_with_the_standard_library() {
    let alphabet = ['/', '.', 'a', 'é', '/', '.', '\\', 'b'];
    let mut seed: u64 = 0x853c_49e6_748f_ea9b;
    for _ in 0..20_000 {
        let mut text = String::from("/");
        seed ^= seed << 13;
        seed ^= seed >> 7;
        seed ^= seed << 17;
        let mut bits = seed;
        for _ in 0..(seed % 12) {
            text.push(alphabet[(bits % 8) as usize]);
            bits /= 8;
        }
        let expected = std::path::absolute(std::path::Path::new(&text))
            .map_or(text.to_owned(), |path| path.to_string_lossy().replace("\\", "/"));
        if std::path::MAIN_SEPARATOR == '/' {
            assert_eq!(convert_relative_to_abs_path(&text, "/work"), expected, "{:?}", text);
        }
    }
}
