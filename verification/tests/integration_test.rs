use regex::{Regex, RegexSet};
use rippy::args::{parse_args, RawArgs, RippyArgs};
use rippy::dir::{
    build_leaf, crawl_directory, filter_children, needs_contents, CrawlResults, DirEntryInfo,
    DirListing, EntryDetails, FileMetadata, TreeLeaf, WalkedEntry,
};
use rippy::export::JsonNode;
use rippy::ignorer::Ignorer;
use rippy::render::write_tree_to_buf;
use rippy::tcolor::RippySchema;
use rippy::tree::{build_tree_from_paths, count_tree, EntryType, Timestamp, Tree, TreeCounts};

/// A file or a directory of a made-up file system.
struct FsNode {
    name: String,
    is_dir: bool,
    contents: String,
    modified: Timestamp,
    executable: bool,
    children: Vec<FsNode>,
}

impl FsNode {
    fn dir(name: &str) -> FsNode {
        FsNode {
            name: name.to_string(),
            is_dir: true,
            contents: String::new(),
            modified: Timestamp { secs: 0, nanos: 0 },
            executable: false,
            children: Vec::new(),
        }
    }

    fn child(&mut self, name: &str, is_dir: bool) -> &mut FsNode {
        let at = match self.children.iter().position(|c| c.name.eq_ignore_ascii_case(name)) {
            Some(at) => at,
            None => {
                let mut node = FsNode::dir(name);
                node.is_dir = is_dir;
                let at = self
                    .children
                    .iter()
                    .position(|c| c.name.to_lowercase() > name.to_lowercase())
                    .unwrap_or(self.children.len());
                self.children.insert(at, node);
                at
            }
        };
        &mut self.children[at]
    }

    fn entry(&mut self, path: &str, is_dir: bool) -> &mut FsNode {
        let parts: Vec<&str> = path.split('/').collect();
        let mut node = self;
        for (i, part) in parts.iter().enumerate() {
            let last = i + 1 == parts.len();
            node = node.child(part, if last { is_dir } else { true });
        }
        node
    }

    fn file(&mut self, path: &str, contents: &str) -> &mut FsNode {
        let node = self.entry(path, false);
        node.contents = contents.to_string();
        node
    }

    fn directory(&mut self, path: &str) {
        self.entry(path, true);
    }
}

fn info_of(node: &FsNode, path: &str) -> DirEntryInfo {
    DirEntryInfo {
        name: node.name.clone(),
        unicode_name: true,
        path: path.to_string(),
        is_dir: node.is_dir,
        is_file: !node.is_dir,
        is_symlink: false,
        target_is_dir: node.is_dir,
    }
}

fn visit(
    node: &FsNode,
    path: &str,
    depth: usize,
    ignorer: &Ignorer,
    args: &RippyArgs,
    out: &mut Vec<WalkedEntry>,
) {
    let info = info_of(node, path);
    let details = EntryDetails {
        contents: if needs_contents(&info, args) { Some(node.contents.clone()) } else { None },
        metadata: Some(FileMetadata {
            len: node.contents.len() as u64,
            modified: Some(node.modified),
        }),
        link: None,
        executable: node.executable,
    };
    let leaf = build_leaf(&info, &details, args).unwrap_or_default();
    out.push(WalkedEntry { depth, is_file: !node.is_dir, file_name: node.name.clone(), leaf });
    if node.is_dir && depth < args.max_depth {
        let mut below = ignorer.clone();
        let listing = DirListing {
            path: path.to_string(),
            below_root: true,
            entries: node
                .children
                .iter()
                .map(|c| info_of(c, &format!("{}/{}", path, c.name)))
                .collect(),
            gitignore_lines: node
                .children
                .iter()
                .find(|c| c.name == ".gitignore" && !c.is_dir)
                .map(|c| c.contents.lines().map(|l| l.to_string()).collect())
                .unwrap_or_default(),
        };
        let flags = filter_children(&listing, &mut below, args);
        for (child, keep) in node.children.iter().zip(flags) {
            if keep {
                visit(child, &format!("{}/{}", path, child.name), depth + 1, &below, args, out);
            }
        }
    }
}

/// Walks a made-up file system the way the program walks a real one.
fn crawl(root: &FsNode, args: &RippyArgs) -> CrawlResults {
    let mut out = Vec::new();
    let mut ignorer = Ignorer::default();
    let listing = DirListing {
        path: String::new(),
        below_root: false,
        entries: vec![info_of(root, &args.directory)],
        gitignore_lines: Vec::new(),
    };
    let flags = filter_children(&listing, &mut ignorer, args);
    if flags[0] {
        visit(root, &args.directory, 0, &ignorer, args, &mut out);
    }
    crawl_directory(&out, args)
}

fn raw(directory: &str) -> RawArgs {
    RawArgs {
        directory: Some(directory.to_string()),
        pattern: None,
        all: false,
        sort_by: None,
        max_depth: None,
        ignore_globs: None,
        include_globs: None,
        window_radius: None,
        max_files: None,
        output: None,
        indent: None,
        case_insensitive: false,
        follow_links: false,
        relative_path: false,
        reverse: false,
        full_path: false,
        size: false,
        date: false,
        short_date: false,
        enumerate: false,
        time: false,
        no_gitignore: false,
        gray: false,
        quote: false,
        flat: false,
        dir_detail: false,
        windowless: false,
        just_counts: false,
        verbose: false,
        is_terminal: true,
        ansi_supported: true,
        current_dir: "/work".to_string(),
    }
}

fn leaf(name: &str, relative_path: &str, is_dir: bool) -> TreeLeaf {
    TreeLeaf::new(
        name.to_string(),
        relative_path.to_string(),
        is_dir,
        None,
        None,
        None,
        name.to_string(),
        false,
    )
}

fn found(name: &str, relative_path: &str, window: &str) -> TreeLeaf {
    let mut leaf = leaf(name, relative_path, false);
    leaf.window = Some(window.to_string());
    leaf
}

fn dir_node(name: &str, children: Vec<Tree>) -> Tree {
    let mut tree = Tree::new(
        name.to_string(),
        name.to_string(),
        None,
        EntryType::Directory,
        None,
        None,
        None,
        None,
    );
    tree.children = children;
    tree
}

fn file_node(name: &str, path: &str, size: Option<u64>) -> Tree {
    Tree::new(
        name.to_string(),
        name.to_string(),
        Some(path.to_string()),
        EntryType::File,
        None,
        size,
        None,
        None,
    )
}

fn flatten<'a>(tree: &'a Tree, out: &mut Vec<&'a Tree>) {
    out.push(tree);
    for child in &tree.children {
        flatten(child, out);
    }
}

fn names(tree: &Tree) -> Vec<String> {
    tree.children.iter().map(|c| c.name.clone()).collect()
}

fn json_node(name: &str, entry_type: &str, children: Vec<JsonNode>) -> JsonNode {
    JsonNode {
        name: name.to_string(),
        entry_type: entry_type.to_string(),
        last_modified: None,
        size: None,
        window: None,
        children,
    }
}

#[test]
fn test_rippy_arguments() {
    let mut asked = raw(".");
    asked.ignore_globs = Some(vec!["target".to_string()]);
    asked.include_globs = Some(vec!["*.rs".to_string(), "R*md".to_string()]);
    asked.max_depth = Some(20);
    asked.pattern = Some("\\w[A-z]{3}find-me\\b".to_string());
    asked.case_insensitive = true;
    let rip_args = parse_args(asked).unwrap();

    assert_eq!(rip_args.directory, ".");

    let expected_ignore_patterns = RegexSet::new(["(?i)^target$"]).unwrap();
    assert_eq!(rip_args.ignore_patterns.unwrap().patterns(), expected_ignore_patterns.patterns());

    let expected_include_patterns = RegexSet::new(["(?i)^.*\\.rs$", "(?i)^R.*md$"]).unwrap();
    assert_eq!(rip_args.include_patterns.unwrap().patterns(), expected_include_patterns.patterns());

    let expected_max_depth = 20_usize;
    assert_eq!(rip_args.max_depth, expected_max_depth);

    let expected_colors = RippySchema::get_color_schema(false);
    assert_eq!(rip_args.colors, expected_colors);

    let expected_pattern = Regex::new("(?i)\\w[A-z]{3}find-me\\b").unwrap();

    assert_eq!(rip_args.pattern.unwrap().as_str(), expected_pattern.as_str());
    assert_eq!(rip_args.is_search, true);

    let mut asked = raw(".");
    asked.gray = true;
    let rip_args = parse_args(asked).unwrap();

    let expected_colors_grayscale = RippySchema::get_color_schema(true);
    assert_eq!(rip_args.colors, expected_colors_grayscale);
}

#[test]
fn test_crawl_directory_tall() {
    let args = parse_args(raw("fake-tall")).unwrap();
    let mut root = FsNode::dir("fake-tall");
    root.file("file.txt", "");
    root.file("a/file.txt", "");
    root.file("a/b/file.txt", "");
    root.file("a/b/c/file.txt", "");
    let expected_crawl_results = CrawlResults {
        paths: vec![
            leaf("a", "fake-tall/a", true),
            leaf("b", "fake-tall/a/b", true),
            leaf("c", "fake-tall/a/b/c", true),
            leaf("file.txt", "fake-tall/a/b/c/file.txt", false),
            leaf("file.txt", "fake-tall/a/b/file.txt", false),
            leaf("file.txt", "fake-tall/a/file.txt", false),
            leaf("file.txt", "fake-tall/file.txt", false),
        ],
        paths_searched: 4,
    };
    assert_eq!(crawl(&root, &args), expected_crawl_results);
}

#[test]
fn test_crawl_directory_wide() {
    let args = parse_args(raw("fake-wide")).unwrap();
    let mut root = FsNode::dir("fake-wide");
    root.file("file.md", "");
    root.file("a/file.txt", "");
    root.file("b/file.txt", "");
    root.file("c/file.txt", "");
    let expected_crawl_results = CrawlResults {
        paths: vec![
            leaf("a", "fake-wide/a", true),
            leaf("file.txt", "fake-wide/a/file.txt", false),
            leaf("b", "fake-wide/b", true),
            leaf("file.txt", "fake-wide/b/file.txt", false),
            leaf("c", "fake-wide/c", true),
            leaf("file.txt", "fake-wide/c/file.txt", false),
            leaf("file.md", "fake-wide/file.md", false),
        ],
        paths_searched: 4,
    };
    assert_eq!(crawl(&root, &args), expected_crawl_results);
}

#[test]
fn test_crawl_directory_search_contents() {
    let mut asked = raw("fake-search");
    asked.include_globs = Some(vec!["*.txt".to_string()]);
    asked.ignore_globs = Some(vec!["b4".to_string()]);
    asked.pattern = Some(r"\b\d{3}\b|\b\d{3}[a-zA-Z]{3,}\b".to_string());
    asked.window_radius = Some(20);
    let args = parse_args(asked).unwrap();
    let mut root = FsNode::dir("fake-search");
    root.file("f1.txt", "");
    root.file(".hidden.txt", "Matches but is hidden and should not return: 456qrs");
    root.file("b1/f1.txt", "Matches and should return: 123xyz");
    root.file("b1/f2.txt", "Should not match: def456ghi");
    root.file("b2/f1.txt", "789 Should match and return");
    root.file("b2/f2.txt", "Should not match since no digits");
    root.file("b3/x1.txt", "123def should match and return");
    root.file("b3/x2.md", "456wrongext should match but wont return due to wrong extension");
    root.file("b4/i1.txt", "123wrongdir should match but wont return due to ignored dir");
    root.file("b4/i2.txt", "123wrongdir should match but wont return due to ignored dir");
    let expected_crawl_results = CrawlResults {
        paths: vec![
            found("f1.txt", "fake-search/b1/f1.txt", "\u{1b}[38;5;248m...\u{1b}[0m\u{1b}[38;5;248mand should return: \u{1b}[0m\u{1b}[1m\u{1b}[38;5;42m123xyz\u{1b}[0m\u{1b}[38;5;248m\u{1b}[0m"),
            found("f1.txt", "fake-search/b2/f1.txt", "\u{1b}[38;5;248m\u{1b}[0m\u{1b}[1m\u{1b}[38;5;42m789\u{1b}[0m\u{1b}[38;5;248m Should match and re\u{1b}[0m\u{1b}[38;5;248m...\u{1b}[0m"),
            found("x1.txt", "fake-search/b3/x1.txt", "\u{1b}[38;5;248m\u{1b}[0m\u{1b}[1m\u{1b}[38;5;42m123def\u{1b}[0m\u{1b}[38;5;248m should match and re\u{1b}[0m\u{1b}[38;5;248m...\u{1b}[0m"),
        ],
        paths_searched: 6,
    };
    assert_eq!(crawl(&root, &args), expected_crawl_results);
}

#[test]
fn test_crawl_directory_hidden() {
    let args_not_hidden = parse_args(raw("fake-hidden")).unwrap();
    let mut root = FsNode::dir("fake-hidden");
    root.file(".hidden", "");
    root.file("d1/not-hidden.txt", "");
    let expected_crawl_results = CrawlResults {
        paths: vec![
            leaf("d1", "fake-hidden/d1", true),
            leaf("not-hidden.txt", "fake-hidden/d1/not-hidden.txt", false),
        ],
        paths_searched: 1,
    };
    assert_eq!(crawl(&root, &args_not_hidden), expected_crawl_results);

    let mut asked = raw("fake-hidden");
    asked.all = true;
    let args_all = parse_args(asked).unwrap();
    let expected_crawl_results = CrawlResults {
        paths: vec![
            leaf(".hidden", "fake-hidden/.hidden", false),
            leaf("d1", "fake-hidden/d1", true),
            leaf("not-hidden.txt", "fake-hidden/d1/not-hidden.txt", false),
        ],
        paths_searched: 2,
    };
    assert_eq!(crawl(&root, &args_all), expected_crawl_results);
}

#[test]
fn test_crawl_directory_max_depth() {
    let mut asked = raw("fake-depth");
    asked.max_depth = Some(3);
    let args = parse_args(asked).unwrap();
    let mut root = FsNode::dir("fake-depth");
    root.file("depth-1.txt", "");
    root.file("d1/d2/depth-3.txt", "");
    root.file("d1/d2/d3/d4/d5/d6/depth-7.txt", "");
    let expected_crawl_results = CrawlResults {
        paths: vec![
            leaf("d1", "fake-depth/d1", true),
            leaf("d2", "fake-depth/d1/d2", true),
            leaf("d3", "fake-depth/d1/d2/d3", true),
            leaf("depth-3.txt", "fake-depth/d1/d2/depth-3.txt", false),
            leaf("depth-1.txt", "fake-depth/depth-1.txt", false),
        ],
        paths_searched: 2,
    };
    assert_eq!(crawl(&root, &args), expected_crawl_results);
}

#[test]
fn test_crawl_directory_gitignore() {
    let use_gitignore_args = parse_args(raw("fake-gitignore")).unwrap();
    let mut root = FsNode::dir("fake-gitignore");
    root.file("README.md", "");
    root.file(".gitignore", "target/\n*.d\nsecrets.txt");
    root.file("target/t1/file.txt", "");
    root.file("secrets.txt", "");
    root.file("01234.d", "");
    root.file("56789.d", "");
    root.file("src/main.rs", "");
    let expected_crawl_results = CrawlResults {
        paths: vec![
            leaf("README.md", "fake-gitignore/README.md", false),
            leaf("src", "fake-gitignore/src", true),
            leaf("main.rs", "fake-gitignore/src/main.rs", false),
        ],
        paths_searched: 2,
    };
    assert_eq!(crawl(&root, &use_gitignore_args), expected_crawl_results);

    let mut asked = raw("fake-gitignore");
    asked.no_gitignore = true;
    let no_gitignore_args = parse_args(asked).unwrap();
    let expected_crawl_results = CrawlResults {
        paths: vec![
            leaf("01234.d", "fake-gitignore/01234.d", false),
            leaf("56789.d", "fake-gitignore/56789.d", false),
            leaf("README.md", "fake-gitignore/README.md", false),
            leaf("secrets.txt", "fake-gitignore/secrets.txt", false),
            leaf("src", "fake-gitignore/src", true),
            leaf("main.rs", "fake-gitignore/src/main.rs", false),
            leaf("target", "fake-gitignore/target", true),
            leaf("t1", "fake-gitignore/target/t1", true),
            leaf("file.txt", "fake-gitignore/target/t1/file.txt", false),
        ],
        paths_searched: 6,
    };
    assert_eq!(crawl(&root, &no_gitignore_args), expected_crawl_results);
}

#[test]
fn test_tree_building() {
    let args = parse_args(raw("fake-tree")).unwrap();
    let mut root = FsNode::dir("fake-tree");
    root.file(".hidden", "");
    root.file("f1.txt", "");
    root.file("f2.txt", "");
    root.file("d1/f1.txt", "");
    root.file("d1/f2.txt", "");
    root.file("d2/f1.txt", "");
    root.file("d2/f2.txt", "");
    root.directory("emptydir");
    let crawl_results = crawl(&root, &args);
    let received_output = build_tree_from_paths(crawl_results.paths, &args, &Vec::new());
    let expected_output = dir_node(
        "fake-tree",
        vec![
            dir_node(
                "d1",
                vec![
                    file_node("f1.txt", "fake-tree/d1/f1.txt", None),
                    file_node("f2.txt", "fake-tree/d1/f2.txt", None),
                ],
            ),
            dir_node(
                "d2",
                vec![
                    file_node("f1.txt", "fake-tree/d2/f1.txt", None),
                    file_node("f2.txt", "fake-tree/d2/f2.txt", None),
                ],
            ),
            dir_node("emptydir", vec![]),
            file_node("f1.txt", "fake-tree/f1.txt", None),
            file_node("f2.txt", "fake-tree/f2.txt", None),
        ],
    );
    assert_eq!(expected_output, received_output);
}

#[test]
fn test_tree_sort_by_name() {
    let mut asked = raw("fake-sort-name");
    asked.sort_by = Some("name".to_string());
    let args = parse_args(asked).unwrap();
    let mut root = FsNode::dir("fake-sort-name");
    root.directory("A");
    root.file("3.txt", "");
    root.file("1.txt", "");
    root.file("a/2.txt", "");
    root.file("a/3.txt", "");
    root.file("b/a.txt", "");
    root.file("b/z.txt", "");
    root.file("5.txt", "");
    root.file("z/aa.txt", "");
    root.file("z/ab.txt", "");
    let mut received_output = build_tree_from_paths(crawl(&root, &args).paths, &args, &Vec::new());
    received_output.children.sort_by(|a, b| args.sort_by.compare(a, b));
    let order_expected = vec![
        file_node("1.txt", "fake-sort-name/1.txt", None),
        file_node("3.txt", "fake-sort-name/3.txt", None),
        file_node("5.txt", "fake-sort-name/5.txt", None),
        dir_node(
            "A",
            vec![
                file_node("2.txt", "fake-sort-name/A/2.txt", None),
                file_node("3.txt", "fake-sort-name/A/3.txt", None),
            ],
        ),
        dir_node(
            "b",
            vec![
                file_node("a.txt", "fake-sort-name/b/a.txt", None),
                file_node("z.txt", "fake-sort-name/b/z.txt", None),
            ],
        ),
        dir_node(
            "z",
            vec![
                file_node("aa.txt", "fake-sort-name/z/aa.txt", None),
                file_node("ab.txt", "fake-sort-name/z/ab.txt", None),
            ],
        ),
    ];
    assert_eq!(order_expected, received_output.children);

    let mut asked = raw("fake-sort-name");
    asked.sort_by = Some("name".to_string());
    asked.reverse = true;
    let args_reversed = parse_args(asked).unwrap();
    let mut received_output =
        build_tree_from_paths(crawl(&root, &args_reversed).paths, &args_reversed, &Vec::new());
    received_output.children.sort_by(|a, b| args_reversed.sort_by.compare(a, b));
    let mut order_expected = order_expected;
    order_expected.reverse();
    assert_eq!(received_output.children, order_expected);
}

#[test]
fn test_tree_sort_by_size() {
    let mut asked = raw("fake-sort-size");
    asked.sort_by = Some("size".to_string());
    asked.size = true;
    let args = parse_args(asked).unwrap();
    let mut root = FsNode::dir("fake-sort-size");
    root.file("small.txt", "1");
    root.file("medium.txt", "111");
    root.file("large.txt", "11111");
    let mut received_output = build_tree_from_paths(crawl(&root, &args).paths, &args, &Vec::new());
    received_output.children.sort_by(|a, b| args.sort_by.compare(a, b));
    let order_expected = vec![
        file_node("small.txt", "fake-sort-size/small.txt", Some(1)),
        file_node("medium.txt", "fake-sort-size/medium.txt", Some(3)),
        file_node("large.txt", "fake-sort-size/large.txt", Some(5)),
    ];
    assert_eq!(order_expected, received_output.children);

    let mut asked = raw("fake-sort-size");
    asked.sort_by = Some("size".to_string());
    asked.reverse = true;
    asked.size = true;
    let args_reversed = parse_args(asked).unwrap();
    let mut received_output =
        build_tree_from_paths(crawl(&root, &args_reversed).paths, &args_reversed, &Vec::new());
    received_output.children.sort_by(|a, b| args_reversed.sort_by.compare(a, b));
    let order_expected = vec![
        file_node("large.txt", "fake-sort-size/large.txt", Some(5)),
        file_node("medium.txt", "fake-sort-size/medium.txt", Some(3)),
        file_node("small.txt", "fake-sort-size/small.txt", Some(1)),
    ];
    assert_eq!(received_output.children, order_expected);
}

#[test]
fn test_tree_sort_by_type() {
    let mut asked = raw("fake-sort-type");
    asked.sort_by = Some("type".to_string());
    let args = parse_args(asked).unwrap();
    let mut root = FsNode::dir("fake-sort-type");
    root.file("f1.txt", "");
    root.file("f2.txt", "");
    root.directory("d1");
    root.directory("d2");
    let mut received_output = build_tree_from_paths(crawl(&root, &args).paths, &args, &Vec::new());
    received_output.children.sort_by(|a, b| args.sort_by.compare(a, b));
    let order_expected = vec![
        dir_node("d1", vec![]),
        dir_node("d2", vec![]),
        file_node("f1.txt", "fake-sort-type/f1.txt", None),
        file_node("f2.txt", "fake-sort-type/f2.txt", None),
    ];
    assert_eq!(order_expected, received_output.children);

    let mut asked = raw("fake-sort-type");
    asked.sort_by = Some("type".to_string());
    asked.reverse = true;
    let args_reversed = parse_args(asked).unwrap();
    let mut received_output =
        build_tree_from_paths(crawl(&root, &args_reversed).paths, &args_reversed, &Vec::new());
    received_output.children.sort_by(|a, b| args_reversed.sort_by.compare(a, b));
    let order_expected = vec![
        file_node("f1.txt", "fake-sort-type/f1.txt", None),
        file_node("f2.txt", "fake-sort-type/f2.txt", None),
        dir_node("d1", vec![]),
        dir_node("d2", vec![]),
    ];
    assert_eq!(received_output.children, order_expected);
}

#[test]
fn test_tree_sort_by_date() {
    let mut asked = raw("fake-sort-date");
    asked.sort_by = Some("date".to_string());
    asked.date = true;
    let args = parse_args(asked).unwrap();
    let mut root = FsNode::dir("fake-sort-date");
    root.file("time-0.txt", "").modified = Timestamp { secs: 1_731_959_925, nanos: 4_000_000 };
    root.file("time-1.txt", "").modified = Timestamp { secs: 1_731_959_925, nanos: 5_000_000 };
    root.file("time-2.txt", "").modified = Timestamp { secs: 1_731_959_925, nanos: 6_000_000 };
    root.file("time-3.txt", "").modified = Timestamp { secs: 1_731_959_926, nanos: 0 };
    let mut received_output = build_tree_from_paths(crawl(&root, &args).paths, &args, &Vec::new());
    received_output.children.sort_by(|a, b| args.sort_by.compare(a, b));
    let order_received = names(&received_output);
    let mut order_expected = vec!["time-0.txt", "time-1.txt", "time-2.txt", "time-3.txt"];
    assert_eq!(order_expected, order_received);

    let mut asked = raw("fake-sort-date");
    asked.sort_by = Some("date".to_string());
    asked.date = true;
    asked.reverse = true;
    let args_reversed = parse_args(asked).unwrap();
    let mut received_output =
        build_tree_from_paths(crawl(&root, &args_reversed).paths, &args_reversed, &Vec::new());
    received_output.children.sort_by(|a, b| args_reversed.sort_by.compare(a, b));
    let order_received = names(&received_output);
    order_expected.reverse();
    assert_eq!(order_received, order_expected);
}

#[test]
fn test_tree_display_pathing() {
    let mut asked = raw("fake-paths");
    asked.relative_path = true;
    let args_relative = parse_args(asked).unwrap();
    let mut root = FsNode::dir("fake-paths");
    root.file("a/f1.txt", "");
    root.file("a/x/f1.txt", "");
    root.file("b/f1.txt", "");
    root.file("b/x/f1.txt", "");
    let tree = build_tree_from_paths(crawl(&root, &args_relative).paths, &args_relative, &Vec::new());
    let mut nodes = Vec::new();
    flatten(&tree, &mut nodes);
    let received_output: Vec<(&str, &str)> =
        nodes.iter().map(|child| (child.name.as_str(), child.display.as_str())).collect();
    let expected_output = vec![
        ("fake-paths", "fake-paths"),
        ("a", "fake-paths/a"),
        ("f1.txt", "fake-paths/a/f1.txt"),
        ("x", "fake-paths/a/x"),
        ("f1.txt", "fake-paths/a/x/f1.txt"),
        ("b", "fake-paths/b"),
        ("f1.txt", "fake-paths/b/f1.txt"),
        ("x", "fake-paths/b/x"),
        ("f1.txt", "fake-paths/b/x/f1.txt"),
    ];
    assert_eq!(received_output, expected_output);

    let mut asked = raw("fake-paths");
    asked.full_path = true;
    let args_full = parse_args(asked).unwrap();
    let tree = build_tree_from_paths(crawl(&root, &args_full).paths, &args_full, &Vec::new());
    let mut nodes = Vec::new();
    flatten(&tree, &mut nodes);
    let received_output: Vec<(String, String)> =
        nodes.iter().map(|child| (child.name.clone(), child.display.clone())).collect();
    let expected_output = vec![
        ("/work/fake-paths".to_string(), "/work/fake-paths".to_string()),
        ("a".to_string(), "/work/fake-paths/a".to_string()),
        ("f1.txt".to_string(), "/work/fake-paths/a/f1.txt".to_string()),
        ("x".to_string(), "/work/fake-paths/a/x".to_string()),
        ("f1.txt".to_string(), "/work/fake-paths/a/x/f1.txt".to_string()),
        ("b".to_string(), "/work/fake-paths/b".to_string()),
        ("f1.txt".to_string(), "/work/fake-paths/b/f1.txt".to_string()),
        ("x".to_string(), "/work/fake-paths/b/x".to_string()),
        ("f1.txt".to_string(), "/work/fake-paths/b/x/f1.txt".to_string()),
    ];
    assert_eq!(received_output, expected_output);
}

#[test]
fn test_window_and_fmt_width() {
    let contents = "5---------4---------3---------2---------1---------X---------1---------2---------3---------4---------5";
    let mut asked = raw("fake-fmt-width");
    asked.window_radius = Some(10);
    asked.pattern = Some("X".to_string());
    let args = parse_args(asked).unwrap();
    let mut root = FsNode::dir("fake-fmt-width");
    root.file("docs/empty.txt", "");
    root.file("docs/short.txt", contents);
    root.file("docs/very-long-file-name.txt", contents);
    let mut tree = build_tree_from_paths(crawl(&root, &args).paths, &args, &Vec::new());
    tree.calculate_fmt_width();
    let window = "\u{1b}[38;5;248m...\u{1b}[0m\u{1b}[38;5;248m1---------\u{1b}[0m\u{1b}[1m\u{1b}[38;5;42mX\u{1b}[0m\u{1b}[38;5;248m---------1\u{1b}[0m\u{1b}[38;5;248m...\u{1b}[0m".to_string();
    let expected_output = vec![
        ("fake-fmt-width".to_string(), None, None),
        ("docs".to_string(), Some(4), None),
        ("short.txt".to_string(), Some(23), Some(window.clone())),
        ("very-long-file-name.txt".to_string(), Some(23), Some(window)),
    ];
    let mut nodes = Vec::new();
    flatten(&tree, &mut nodes);
    let received_output: Vec<_> =
        nodes.iter().map(|tree| (tree.name.clone(), tree.fmt_width, tree.window.clone())).collect();
    assert_eq!(received_output, expected_output);

    let mut asked = raw("fake-fmt-width");
    asked.window_radius = Some(0);
    asked.pattern = Some("X".to_string());
    let args_smaller_radius = parse_args(asked).unwrap();
    let mut tree = build_tree_from_paths(
        crawl(&root, &args_smaller_radius).paths,
        &args_smaller_radius,
        &Vec::new(),
    );
    tree.calculate_fmt_width();
    let window = "\u{1b}[38;5;248m...\u{1b}[0m\u{1b}[38;5;248m\u{1b}[0m\u{1b}[1m\u{1b}[38;5;42mX\u{1b}[0m\u{1b}[38;5;248m\u{1b}[0m\u{1b}[38;5;248m...\u{1b}[0m".to_string();
    let expected_output = vec![
        ("fake-fmt-width".to_string(), None, None),
        ("docs".to_string(), Some(4), None),
        ("short.txt".to_string(), Some(23), Some(window.clone())),
        ("very-long-file-name.txt".to_string(), Some(23), Some(window)),
    ];
    let mut nodes = Vec::new();
    flatten(&tree, &mut nodes);
    let received_output: Vec<_> =
        nodes.iter().map(|tree| (tree.name.clone(), tree.fmt_width, tree.window.clone())).collect();
    assert_eq!(received_output, expected_output);
}

#[test]
fn test_count_tree() {
    let mut asked = raw("fake-count");
    asked.just_counts = true;
    let args = parse_args(asked).unwrap();
    let mut root = FsNode::dir("fake-count");
    root.directory("e1");
    root.directory("e2");
    root.directory("e3");
    root.file("f1.txt", "");
    root.file("f2.txt", "");
    root.file("f3.txt", "");
    for i in 1..=9 {
        root.file(&format!("a/b/c/d/f{}.txt", i), "");
    }
    root.file("a.txt", "");
    root.file("b.txt", "");
    root.file("c.txt", "");
    let tree_output = build_tree_from_paths(crawl(&root, &args).paths, &args, &Vec::new());
    let mut counts_received = TreeCounts::new();
    count_tree(&tree_output, &mut counts_received, true);
    assert_eq!(counts_received, TreeCounts { dir_count: 7, file_count: 15 });
}

#[test]
fn test_write_tree_to_buf() {
    let mut asked = raw("fake-writer");
    asked.reverse = true;
    let args_colored = parse_args(asked).unwrap();
    let mut root = FsNode::dir("fake-writer");
    root.file("dist/prog.exe", "").executable = true;
    root.file("src/prog.rs", "");
    root.file("src/mod.rs", "");
    root.file("LICENSE", "");
    root.file(".gitignore", ".gitignore \nnotes.txt \nbuild.rs");
    root.file("README.md", "");
    root.file("Cargo.toml", "");
    root.file("Cargo.lock", "");
    root.file("build.rs", "");
    root.file("notes.txt", "");
    let mut counts = TreeCounts::new();
    let mut tree_output =
        build_tree_from_paths(crawl(&root, &args_colored).paths, &args_colored, &Vec::new());
    let mut output_received = String::new();
    write_tree_to_buf(
        &mut tree_output,
        "",
        0,
        "",
        true,
        &args_colored,
        &mut counts,
        &mut output_received,
    );
    let output_expected = " \u{1b}[1m\u{1b}[38;5;220mfake-writer\u{1b}[0m\n \u{1b}[38;5;220m├── \u{1b}[0m\u{1b}[1m\u{1b}[38;5;80msrc\u{1b}[0m\n \u{1b}[38;5;220m│\u{1b}[0m\u{a0}\u{a0} \u{1b}[38;5;80m├── \u{1b}[0mprog.rs\n \u{1b}[38;5;220m│\u{1b}[0m\u{a0}\u{a0} \u{1b}[38;5;80m╰── \u{1b}[0mmod.rs\n \u{1b}[38;5;220m├── \u{1b}[0m\u{1b}[1m\u{1b}[38;5;80mdist\u{1b}[0m\n \u{1b}[38;5;220m│\u{1b}[0m\u{a0}\u{a0} \u{1b}[38;5;80m╰── \u{1b}[0m\u{1b}[38;5;211mprog.exe\u{1b}[0m\n \u{1b}[38;5;220m├── \u{1b}[0mREADME.md\n \u{1b}[38;5;220m├── \u{1b}[0mLICENSE\n \u{1b}[38;5;220m├── \u{1b}[0mCargo.toml\n \u{1b}[38;5;220m╰── \u{1b}[0mCargo.lock\n\n";
    assert_eq!(output_received, output_expected);
    assert_eq!(counts, TreeCounts { dir_count: 2, file_count: 7 });

    let mut asked = raw("fake-writer");
    asked.gray = true;
    asked.no_gitignore = true;
    let args_no_color = parse_args(asked).unwrap();
    let mut counts = TreeCounts::new();
    let mut tree_output =
        build_tree_from_paths(crawl(&root, &args_no_color).paths, &args_no_color, &Vec::new());
    let mut output_received = String::new();
    write_tree_to_buf(
        &mut tree_output,
        "",
        0,
        "",
        true,
        &args_no_color,
        &mut counts,
        &mut output_received,
    );
    let output_expected = " fake-writer\n ├── Cargo.lock\n ├── Cargo.toml\n ├── LICENSE\n ├── README.md\n ├── build.rs\n ├── dist\n │\u{a0}\u{a0} ╰── prog.exe\n ├── notes.txt\n ╰── src\n \u{a0}\u{a0}  ├── mod.rs\n \u{a0}\u{a0}  ╰── prog.rs\n\n";
    assert_eq!(output_received, output_expected);
    assert_eq!(counts, TreeCounts { dir_count: 2, file_count: 9 });
}

#[test]
fn test_write_tree_to_json() {
    let mut asked = raw("fake-json");
    asked.output = Some("fake-json/fake-output.json".to_string());
    let args = parse_args(asked).unwrap();
    let mut root = FsNode::dir("fake-json");
    root.file("dist/prog.exe", &"X".repeat(370));
    root.file("src/prog.rs", &"X".repeat(150));
    root.file("src/mod.rs", &"X".repeat(400));
    root.file("LICENSE", &"X".repeat(250));
    root.file("README.md", &"X".repeat(78));
    root.file("Cargo.toml", &"X".repeat(224));
    root.file("Cargo.lock", &"X".repeat(566));
    let tree_output = build_tree_from_paths(crawl(&root, &args).paths, &args, &Vec::new());
    let json_received = tree_output.to_json(&args);
    let json_expected = json_node(
        "fake-json",
        "Directory",
        vec![
            json_node("Cargo.lock", "File", vec![]),
            json_node("Cargo.toml", "File", vec![]),
            json_node("dist", "Directory", vec![json_node("prog.exe", "File", vec![])]),
            json_node("LICENSE", "File", vec![]),
            json_node("README.md", "File", vec![]),
            json_node(
                "src",
                "Directory",
                vec![json_node("mod.rs", "File", vec![]), json_node("prog.rs", "File", vec![])],
            ),
        ],
    );
    assert_eq!(json_received, json_expected);
}
