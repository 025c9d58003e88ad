use rippy::args::{parse_args, RawArgs, RippyArgs};
use rippy::dir::{filter_children, ignore_file_index, DirEntryInfo, DirListing, TreeLeaf};
use rippy::ignorer::Ignorer;
use rippy::render::write_tree_to_buf;
use rippy::snippet::{extract_snippet, snippet_window, Window};
use rippy::tree::{
    build_tree_from_paths, count_tree, DirDetail, EntryType, Timestamp, Tree, TreeCounts,
};
use rippy::dir::FileMetadata;

fn raw(directory: &str) -> RawArgs {
    RawArgs {
        directory: Some(directory.to_string()),
        pattern: None,
        all: false,
        sort_by: None,
        max_depth: None,
        ignore_globs: None,
        include_globs: None,
        window_radius: None,
        max_files: None,
        output: None,
        indent: None,
        case_insensitive: false,
        follow_links: false,
        relative_path: false,
        reverse: false,
        full_path: false,
        size: false,
        date: false,
        short_date: false,
        enumerate: false,
        time: false,
        no_gitignore: false,
        gray: true,
        quote: false,
        flat: false,
        dir_detail: false,
        windowless: false,
        just_counts: false,
        verbose: false,
        is_terminal: true,
        ansi_supported: true,
        current_dir: "/work".to_string(),
    }
}

fn gray(directory: &str) -> RippyArgs {
    parse_args(raw(directory)).unwrap()
}

fn leaf(relative_path: &str, is_dir: bool) -> TreeLeaf {
    let name = relative_path.rsplit('/').next().unwrap().to_string();
    TreeLeaf::new(
        name.clone(),
        relative_path.to_string(),
        is_dir,
        None,
        None,
        None,
        name,
        false,
    )
}

fn entry(name: &str, is_dir: bool) -> DirEntryInfo {
    DirEntryInfo {
        name: name.to_string(),
        unicode_name: true,
        path: format!("proj/{}", name),
        is_dir,
        is_file: !is_dir,
        is_symlink: false,
        target_is_dir: false,
    }
}

fn depth_of(tree: &Tree) -> usize {
    tree.children.iter().map(|c| 1 + depth_of(c)).max().unwrap_or(0)
}

fn names(tree: &Tree) -> Vec<&str> {
    tree.children.iter().map(|c| c.name.as_str()).collect()
}

fn tall() -> Vec<TreeLeaf> {
    vec![
        leaf("fake-tall/a", true),
        leaf("fake-tall/a/b", true),
        leaf("fake-tall/a/b/c", true),
        leaf("fake-tall/a/b/c/file.txt", false),
        leaf("fake-tall/a/b/file.txt", false),
        leaf("fake-tall/a/file.txt", false),
        leaf("fake-tall/file.txt", false),
    ]
}

#[test]
fn a_tall_tree_nests_as_the_directories_do() {
    let args = gray("fake-tall");
    let tree = build_tree_from_paths(tall(), &args, &Vec::new());
    assert_eq!(names(&tree), ["a", "file.txt"]);
    assert_eq!(names(&tree.children[0]), ["b", "file.txt"]);
    assert_eq!(names(&tree.children[0].children[0]), ["c", "file.txt"]);
    assert_eq!(names(&tree.children[0].children[0].children[0]), ["file.txt"]);
    let mut counts = TreeCounts::new();
    count_tree(&tree, &mut counts, true);
    assert_eq!(counts, TreeCounts { dir_count: 3, file_count: 4 });
}

#[test]
fn counts_do_not_depend_on_the_order_shown() {
    let args = gray("fake-tall");
    let tree = build_tree_from_paths(tall(), &args, &Vec::new());
    let mut counted = TreeCounts::new();
    count_tree(&tree, &mut counted, true);
    for (key, reverse) in [("name", false), ("name", true), ("type", false), ("size", true)] {
        let mut asked = raw("fake-tall");
        asked.sort_by = Some(key.to_string());
        asked.reverse = reverse;
        let args = parse_args(asked).unwrap();
        let mut tree = build_tree_from_paths(tall(), &args, &Vec::new());
        let mut shown = TreeCounts::new();
        let mut text = String::new();
        write_tree_to_buf(&mut tree, "", 0, "", true, &args, &mut shown, &mut text);
        assert_eq!(shown, counted);
        let mut again = TreeCounts::new();
        count_tree(&tree, &mut again, true);
        assert_eq!(again, counted);
    }
}

#[test]
fn a_tree_is_no_deeper_than_its_leaves() {
    let args = gray("root");
    let leaves = vec![
        leaf("root/d1/d2/d3/f.txt", false),
        leaf("root/d1/g.txt", false),
        leaf("root/e1/e2/h.txt", false),
    ];
    let tree = build_tree_from_paths(leaves, &args, &Vec::new());
    assert_eq!(depth_of(&tree), 4);
    assert_eq!(names(&tree), ["d1", "e1"]);
    assert_eq!(names(&tree.children[0]), ["d2", "g.txt"]);
}

#[test]
fn missing_directories_are_made_up_with_their_details() {
    let mut asked = raw("root");
    asked.size = true;
    asked.date = true;
    asked.relative_path = true;
    let args = parse_args(asked).unwrap();
    let stamp = Timestamp { secs: 7, nanos: 0 };
    let table = vec![
        DirDetail { path: "root/d1".to_string(), metadata: Some(FileMetadata { len: 64, modified: Some(stamp) }) },
        DirDetail { path: "root/d1/d2".to_string(), metadata: None },
    ];
    let tree = build_tree_from_paths(vec![leaf("root/d1/d2/f.txt", false)], &args, &table);
    let d1 = &tree.children[0];
    assert_eq!(d1.display, "root/d1");
    assert_eq!(d1.size, Some(64));
    assert_eq!(d1.last_modified, Some(stamp));
    assert_eq!(d1.path, None);
    let d2 = &d1.children[0];
    assert_eq!(d2.display, "root/d1/d2");
    assert_eq!(d2.size, None);
    assert_eq!(d2.children[0].path, Some("root/d1/d2/f.txt".to_string()));
}

#[test]
fn a_leaf_of_a_known_name_takes_the_place_of_the_node() {
    let args = gray("root");
    let mut second = leaf("root/a/f.txt", false);
    second.size = Some(5);
    let leaves = vec![leaf("root/a/f.txt", false), leaf("root/a/g.txt", false), second];
    let tree = build_tree_from_paths(leaves, &args, &Vec::new());
    assert_eq!(names(&tree.children[0]), ["f.txt", "g.txt"]);
    assert_eq!(tree.children[0].children[0].size, Some(5));
}

#[test]
fn a_leaf_follows_the_leaf_before_it_where_the_parents_share_a_name() {
    let args = gray("root");
    let leaves = vec![leaf("root/a/x/f1.txt", false), leaf("root/b/x/f2.txt", false)];
    let tree = build_tree_from_paths(leaves, &args, &Vec::new());
    assert_eq!(names(&tree), ["a"]);
    assert_eq!(names(&tree.children[0].children[0]), ["f1.txt", "f2.txt"]);
}

#[test]
fn an_ignore_file_governs_the_siblings_listed_before_it() {
    let args = gray("proj");
    let listing = DirListing {
        path: "proj".to_string(),
        below_root: true,
        entries: vec![
            entry("01234.d", false),
            entry("zebra", true),
            entry(".gitignore", false),
            entry("README.md", false),
            entry("secrets.txt", false),
            entry("target", true),
        ],
        gitignore_lines: vec!["target/".to_string(), "*.d".to_string(), "secrets.txt".to_string(), "zebra".to_string()],
    };
    let mut rules = Ignorer::default();
    let flags = filter_children(&listing, &mut rules, &args);
    assert_eq!(flags, [false, false, false, true, false, false]);
    assert!(rules.has_matcher());
    assert_eq!(ignore_file_index(&listing.entries, true, &args), Some(2));
    assert_eq!(ignore_file_index(&listing.entries, false, &args), None);
    let mut odd = listing.clone();
    odd.entries[3].unicode_name = false;
    let mut rules = Ignorer::default();
    assert_eq!(filter_children(&odd, &mut rules, &args), [false; 6]);

    let mut first = listing.entries.clone();
    first.swap(0, 2);
    first.swap(1, 2);
    let sorted = DirListing { entries: first, ..listing.clone() };
    let mut rules = Ignorer::default();
    let flags = filter_children(&sorted, &mut rules, &args);
    assert_eq!(flags, [false, false, false, true, false, false]);

    let mut asked = raw("proj");
    asked.no_gitignore = true;
    let off = parse_args(asked).unwrap();
    let mut rules = Ignorer::default();
    let flags = filter_children(&listing, &mut rules, &off);
    assert_eq!(flags, [true, true, false, true, true, true]);
    assert!(!rules.has_matcher());

    let at_root = DirListing { below_root: false, ..listing.clone() };
    let mut rules = Ignorer::default();
    let flags = filter_children(&at_root, &mut rules, &args);
    assert_eq!(flags, [true, true, true, true, true, true]);
    assert!(!rules.has_matcher());
}

#[test]
fn rules_from_above_stay_in_force_until_an_ignore_file_is_met() {
    let args = gray("proj");
    let above = Ignorer::new("top", "top/.gitignore", &vec!["*.md".to_string()]);
    let listing = DirListing {
        path: "proj".to_string(),
        below_root: true,
        entries: vec![entry("a.md", false), entry(".gitignore", false), entry("b.md", false)],
        gitignore_lines: vec!["*.txt".to_string()],
    };
    let mut rules = above;
    let flags = filter_children(&listing, &mut rules, &args);
    assert_eq!(flags, [false, false, true]);
    assert!(rules.is_ignore("proj/x.txt", false));
    assert!(!rules.is_ignore("proj/x.md", false));
}

#[test]
fn an_excerpt_never_splits_a_character() {
    let args = gray(".");
    let text = "ééééXéééé";
    assert_eq!(
        snippet_window(text, 8, 9, 3),
        Window { start: 4, end: 13, cut_left: true, cut_right: true }
    );
    assert_eq!(extract_snippet(text, 8, 9, 3, &args.colors, true), "...ééXéé...");
    assert_eq!(
        snippet_window(text, 8, 9, 4),
        Window { start: 4, end: 13, cut_left: true, cut_right: true }
    );
    let short = "Xé";
    assert_eq!(
        snippet_window(short, 0, 1, 1),
        Window { start: 0, end: 3, cut_left: false, cut_right: false }
    );
    assert_eq!(extract_snippet(short, 0, 1, 1, &args.colors, true), "Xé");
    assert_eq!(extract_snippet("éX", 2, 3, 1, &args.colors, true), "éX");
    assert_eq!(extract_snippet("aéX", 3, 4, 1, &args.colors, true), "...éX");
    for radius in 0..20 {
        let w = snippet_window(text, 8, 9, radius);
        assert!(text.is_char_boundary(w.start) && text.is_char_boundary(w.end));
        assert!(w.start <= 8 && 9 <= w.end);
        let line = "日本語の行\n前の文 X 後の文\n次";
        let at = line.find('X').unwrap();
        let w = snippet_window(line, at, at + 1, radius);
        assert!(line.is_char_boundary(w.start) && line.is_char_boundary(w.end));
        assert!(w.start >= 16 && w.end <= line.len() - 4);
        let _ = extract_snippet(line, at, at + 1, radius, &args.colors, true);
    }
}

#[test]
fn siblings_share_one_alignment_width() {
    let args = gray("root");
    let leaves = vec![
        leaf("root/a", true),
        leaf("root/a/x.txt", false),
        leaf("root/a/longer-name.txt", false),
        leaf("root/readme.md", false),
    ];
    let mut tree = build_tree_from_paths(leaves, &args, &Vec::new());
    tree.calculate_fmt_width();
    assert_eq!(tree.fmt_width, None);
    assert_eq!(tree.children[0].fmt_width, Some(9));
    assert_eq!(tree.children[1].fmt_width, Some(9));
    assert_eq!(tree.children[0].children[0].fmt_width, Some(15));
    assert_eq!(tree.children[0].children[1].fmt_width, Some(15));
    let widths = |t: &Tree| -> Vec<Option<usize>> {
        vec![
            t.fmt_width,
            t.children[0].fmt_width,
            t.children[1].fmt_width,
            t.children[0].children[0].fmt_width,
            t.children[0].children[1].fmt_width,
        ]
    };
    let once = widths(&tree);
    tree.calculate_fmt_width();
    assert_eq!(widths(&tree), once);
}

#[test]
fn sizes_roll_up_from_the_leaves() {
    let args = gray("root");
    let mut f1 = leaf("root/a/f1", false);
    f1.size = Some(10);
    let mut f2 = leaf("root/a/b/f2", false);
    f2.size = Some(5);
    let f3 = leaf("root/f3", false);
    let mut tree = build_tree_from_paths(vec![f1, f2, f3], &args, &Vec::new());
    assert_eq!(tree.checked_rollup(), Some(Some(15)));
    tree.calculate_sizes();
    assert_eq!(tree.size, Some(15));
    assert_eq!(tree.children[0].size, Some(15));
    assert_eq!(tree.children[0].children[1].size, Some(5));
    assert_eq!(tree.children[1].size, None);

    let mut big = leaf("root/big", false);
    big.size = Some(u64::MAX);
    let mut one = leaf("root/one", false);
    one.size = Some(1);
    let tree = build_tree_from_paths(vec![big, one], &args, &Vec::new());
    assert_eq!(tree.checked_rollup(), None);
}

#[test]
fn a_cut_directory_reports_all_of_its_files() {
    let mut asked = raw("root");
    asked.max_files = Some(2);
    let args = parse_args(asked).unwrap();
    let leaves = vec![
        leaf("root/f3", false),
        leaf("root/f1", false),
        leaf("root/d", true),
        leaf("root/f5", false),
        leaf("root/f2", false),
        leaf("root/f4", false),
    ];
    let mut tree = build_tree_from_paths(leaves, &args, &Vec::new());
    let mut counts = TreeCounts::new();
    let mut text = String::new();
    write_tree_to_buf(&mut tree, "", 0, "", true, &args, &mut counts, &mut text);
    assert_eq!(names(&tree), ["d", "f1", "f2", "3 more ..."]);
    assert_eq!(tree.children[3].entry_type, EntryType::File);
    assert_eq!(tree.children[3].path, None);
    assert_eq!(counts, TreeCounts { dir_count: 1, file_count: 5 });
    assert_eq!(text, " root\n ├── d\n ├── f1\n ├── f2\n ╰── 3 more ...\n\n");

    let mut asked = raw("root");
    asked.max_files = Some(0);
    let none = parse_args(asked).unwrap();
    let mut tree = build_tree_from_paths(vec![leaf("root/f1", false)], &none, &Vec::new());
    let mut counts = TreeCounts::new();
    let mut text = String::new();
    write_tree_to_buf(&mut tree, "", 0, "", true, &none, &mut counts, &mut text);
    assert_eq!(names(&tree), ["1 more ..."]);
    assert_eq!(counts, TreeCounts { dir_count: 0, file_count: 1 });
}

#[test]
fn a_listing_shows_positions_details_and_windows() {
    let mut asked = raw("root");
    asked.enumerate = true;
    asked.size = true;
    asked.indent = Some(1);
    asked.pattern = Some("x".to_string());
    let args = parse_args(asked).unwrap();
    let mut leaves = Vec::new();
    for i in 1..=10 {
        let mut f = leaf(&format!("root/f{:02}", i), false);
        f.size = Some(i * 100);
        f.window = Some(format!("w{}", i));
        leaves.push(f);
    }
    let mut tree = build_tree_from_paths(leaves, &args, &Vec::new());
    tree.calculate_fmt_width();
    let mut counts = TreeCounts::new();
    let mut text = String::new();
    write_tree_to_buf(&mut tree, "", 0, "", true, &args, &mut counts, &mut text);
    let lines: Vec<&str> = text.lines().collect();
    assert_eq!(lines[0], " root");
    assert_eq!(lines[1], " ├─ [ 1] (100 B) f01 w1");
    assert_eq!(lines[9], " ├─ [ 9] (900 B) f09 w9");
    assert_eq!(lines[10], " ╰─ [10] (1.0 K) f10 w10");
    assert_eq!(counts.file_count, 10);

    let mut asked = raw("root");
    asked.flat = true;
    let flat = parse_args(asked).unwrap();
    let mut tree = build_tree_from_paths(
        vec![leaf("root/a", true), leaf("root/a/f", false)],
        &flat,
        &Vec::new(),
    );
    let mut counts = TreeCounts::new();
    let mut text = String::new();
    write_tree_to_buf(&mut tree, "", 0, "", true, &flat, &mut counts, &mut text);
    assert_eq!(text, " root\n a\n f\n\n");
}

#[test]
fn the_plain_listing_orders_by_display() {
    let args = gray(".");
    let leaves = vec![leaf("./b", false), leaf("./a", true), leaf("./a/c", false)];
    let mut tree = build_tree_from_paths(leaves, &args, &Vec::new());
    assert_eq!(tree.summary(), "Tree(. [Directory, 2 Children])");
    assert_eq!(tree.to_text(), "Name: . <Directory>\nChildren:\n  b <File>\n  a <Directory>\n");
    let mut text = String::new();
    tree.print_legacy("", 0, true, &mut text);
    assert_eq!(text, ".\n├── a\n│\u{a0}\u{a0} └── c\n└── b\n\n");
    assert_eq!(names(&tree), ["a", "b"]);
    assert_eq!(tree.children[1].to_text(), "Name: b <File>\n");
}
