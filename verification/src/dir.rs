//! What a walk finds: the filter over a directory listing, the leaves of the
//! surviving entries, and the result of the walk.

use vstd::prelude::*;
use vstd::string::*;
use crate::args::RippyArgs;
use crate::ignorer::Ignorer;
use crate::pattern::{
    excluded_by, included_by, is_excluded, is_included, regex_first_match, regex_source, replaced,
    str_replace,
};
use crate::snippet::{opt_view, search_contents, search_window};
use crate::tcolor::{ansi_color, color_view, styled};
use crate::text::{starts_with_dot, str_equal, string_views};
use crate::tree::Timestamp;

verus! {

/// One entry that survived the walk.
#[derive(Debug, PartialEq, Eq)]
pub struct TreeLeaf {
    pub name: String,
    pub relative_path: String,
    pub is_dir: bool,
    pub last_modified: Option<Timestamp>,
    pub size: Option<u64>,
    pub window: Option<String>,
    pub display: String,
    pub is_sym: bool,
    /// Whether the entry is a file that may be executed.
    pub executable: bool,
}

impl TreeLeaf {
    /// A leaf from its parts; it is taken not to be executable.
    pub fn new(
        name: String,
        relative_path: String,
        is_dir: bool,
        last_modified: Option<Timestamp>,
        size: Option<u64>,
        window: Option<String>,
        display: String,
        is_sym: bool,
    ) -> (leaf: TreeLeaf)
        ensures
            leaf.name == name,
            leaf.relative_path == relative_path,
            leaf.is_dir == is_dir,
            leaf.last_modified == last_modified,
            leaf.size == size,
            leaf.window == window,
            leaf.display == display,
            leaf.is_sym == is_sym,
            !leaf.executable,
    {
        TreeLeaf {
            name,
            relative_path,
            is_dir,
            last_modified,
            size,
            window,
            display,
            is_sym,
            executable: false,
        }
    }
}

/// The text that stands for a leaf: its kind and its path.
pub open spec fn leaf_text(leaf: TreeLeaf) -> Seq<char> {
    "TreeLeaf("@ + (if leaf.is_dir {
        "Directory"@
    } else {
        "File"@
    }) + ", \""@ + leaf.relative_path@ + "\")"@
}

impl TreeLeaf {
    /// Writes the leaf out as text.
    pub fn to_text(&self) -> (r: String)
        ensures
            r@ == leaf_text(*self),
    {
        let mut r = String::from_str("TreeLeaf(");
        if self.is_dir {
            r.append("Directory");
        } else {
            r.append("File");
        }
        r.append(", \"");
        r.append(self.relative_path.as_str());
        r.append("\")");
        r
    }
}

impl Clone for TreeLeaf {
    fn clone(&self) -> (leaf: Self)
        ensures
            leaf == *self,
    {
        TreeLeaf {
            name: self.name.clone(),
            relative_path: self.relative_path.clone(),
            is_dir: self.is_dir,
            last_modified: self.last_modified,
            size: self.size,
            window: match &self.window {
                Some(text) => Some(text.clone()),
                None => None,
            },
            display: self.display.clone(),
            is_sym: self.is_sym,
            executable: self.executable,
        }
    }
}

impl Default for TreeLeaf {
    /// A leaf with nothing in it.
    fn default() -> (leaf: Self)
        ensures
            leaf.name@.len() == 0,
            leaf.relative_path@.len() == 0,
            leaf.display@.len() == 0,
            !leaf.is_dir,
            !leaf.is_sym,
            !leaf.executable,
            leaf.last_modified is None,
            leaf.size is None,
            leaf.window is None,
    {
        TreeLeaf {
            name: String::new(),
            relative_path: String::new(),
            is_dir: false,
            last_modified: None,
            size: None,
            window: None,
            display: String::new(),
            is_sym: false,
            executable: false,
        }
    }
}

/// What a walk found.
#[derive(Debug, Clone, PartialEq, Eq)]
pub struct CrawlResults {
    pub paths: Vec<TreeLeaf>,
    pub paths_searched: usize,
}

/// What a directory listing says of one child.
#[derive(Debug, Clone, PartialEq, Eq)]
pub struct DirEntryInfo {
    /// The last segment of the path; where the segment is not Unicode, what
    /// can be shown of it.
    pub name: String,
    /// Whether the last segment of the path is Unicode.
    pub unicode_name: bool,
    /// The path, as the walk spells it.
    pub path: String,
    /// The entry is a directory.
    pub is_dir: bool,
    /// The entry is a regular file.
    pub is_file: bool,
    /// The entry is a symbolic link.
    pub is_symlink: bool,
    /// Following links, the path leads to a directory.
    pub target_is_dir: bool,
}

impl DirEntryInfo {
    /// A directory, or a link that leads to one.
    pub open spec fn dir_like(&self) -> bool {
        self.is_dir || (self.is_symlink && self.target_is_dir)
    }

    /// A regular file, or a link that leads to a directory.
    pub open spec fn file_like(&self) -> bool {
        self.is_file || (self.is_symlink && self.target_is_dir)
    }

    /// Hidden entries are those below the root whose name begins with a
    /// full stop.
    pub open spec fn hidden(&self, below_root: bool) -> bool {
        below_root && self.name@.len() > 0 && self.name@[0] == '.'
    }

    /// Whether the entry is the ignore file that brings new rules into
    /// force.
    pub open spec fn attaches(&self, below_root: bool, args: &RippyArgs) -> bool {
        self.unicode_name && self.hidden(below_root) && args.is_gitignore && self.name@
            == ".gitignore"@
    }

    /// What does not depend on ignore rules: an entry whose name is not
    /// Unicode never passes, a hidden entry passes only where all entries
    /// are wanted, an entry whose name an exclude pattern matches never
    /// passes, a directory passes without more, and a file has to get past
    /// the include patterns.
    pub open spec fn passes_names(&self, below_root: bool, args: &RippyArgs) -> bool {
        &&& self.unicode_name
        &&& args.include_all || !self.hidden(below_root)
        &&& !excluded_by(args.ignore_patterns, self.name@)
        &&& self.dir_like() || (self.file_like() && included_by(args.include_patterns, self.name@))
    }

    /// Computes `dir_like`.
    pub fn is_dir_like(&self) -> (r: bool)
        ensures
            r == self.dir_like(),
    {
        self.is_dir || (self.is_symlink && self.target_is_dir)
    }

    /// Computes `passes_names`.
    pub fn check_names(&self, below_root: bool, args: &RippyArgs) -> (r: bool)
        ensures
            r == self.passes_names(below_root, args),
    {
        if !self.unicode_name {
            return false;
        }
        let hidden = below_root && starts_with_dot(self.name.as_str());
        if !args.include_all && hidden {
            return false;
        }
        if is_excluded(&args.ignore_patterns, self.name.as_str()) {
            return false;
        }
        if self.is_dir_like() {
            true
        } else {
            (self.is_file || (self.is_symlink && self.target_is_dir)) && is_included(
                &args.include_patterns,
                self.name.as_str(),
            )
        }
    }
}

/// The children of one directory, in the order in which they were listed.
#[derive(Debug, Clone, PartialEq, Eq)]
pub struct DirListing {
    /// The directory that was listed.
    pub path: String,
    /// False for the listing that holds the root alone, true for every
    /// listing below it.
    pub below_root: bool,
    pub entries: Vec<DirEntryInfo>,
    /// The lines of the directory's ignore file; empty where it has none or
    /// the file cannot be read.
    pub gitignore_lines: Vec<String>,
}

/// Whether one of the first `k + 1` entries brings new ignore rules into
/// force.
pub open spec fn attached_upto(
    entries: Seq<DirEntryInfo>,
    k: int,
    below_root: bool,
    args: &RippyArgs,
) -> bool
    decreases k + 1,
{
    if k < 0 {
        false
    } else {
        (k < entries.len() && entries[k].attaches(below_root, args)) || attached_upto(
            entries,
            k - 1,
            below_root,
            args,
        )
    }
}

/// Whether entry `k` of a listing survives. `inherited` holds the rules that
/// came down from the directories above and `fresh` those of the listing's
/// own ignore file. An entry is judged first by the rules in force when its
/// turn comes: the fresh ones from the ignore file's own position on, the
/// inherited ones before it. Once all entries were seen, the rules then in
/// force are applied to every entry again.
pub open spec fn kept(
    entries: Seq<DirEntryInfo>,
    k: int,
    below_root: bool,
    inherited: Ignorer,
    fresh: Ignorer,
    args: &RippyArgs,
) -> bool {
    let e = entries[k];
    let in_force = if attached_upto(entries, k, below_root, args) {
        fresh
    } else {
        inherited
    };
    let last = if attached_upto(entries, entries.len() - 1, below_root, args) {
        fresh
    } else {
        inherited
    };
    &&& e.passes_names(below_root, args)
    &&& !in_force.ignores(e.path@, e.dir_like())
    &&& args.is_gitignore && last.matcher is Some ==> !last.ignores(e.path@, e.dir_like())
}

proof fn lemma_attached_grows(
    entries: Seq<DirEntryInfo>,
    j: int,
    k: int,
    below_root: bool,
    args: &RippyArgs,
)
    requires
        j <= k,
        attached_upto(entries, j, below_root, args),
    ensures
        attached_upto(entries, k, below_root, args),
    decreases k - j,
{
    if j < k {
        lemma_attached_grows(entries, j, k - 1, below_root, args);
    }
}

/// Where no rules come down from above, the ignore file of a directory
/// governs all of its siblings alike, wherever in the listing it stands: an
/// entry survives exactly if it passes by its name and kind and the file's
/// rules do not ignore it.
pub proof fn lemma_ignore_file_governs_all(
    entries: Seq<DirEntryInfo>,
    k: int,
    below_root: bool,
    inherited: Ignorer,
    fresh: Ignorer,
    args: &RippyArgs,
)
    requires
        0 <= k < entries.len(),
        inherited.matcher is None,
        fresh.matcher is Some,
        attached_upto(entries, entries.len() - 1, below_root, args),
    ensures
        kept(entries, k, below_root, inherited, fresh, args) == (entries[k].passes_names(
            below_root,
            args,
        ) && !fresh.ignores(entries[k].path@, entries[k].dir_like())),
{
    lemma_attached_args(entries, entries.len() - 1, below_root, args);
}

/// Where a listing holds no ignore file, judging the entries again changes
/// nothing: an entry survives exactly if it passes by its name and kind and
/// the rules from above do not ignore it.
pub proof fn lemma_second_judgement_idle(
    entries: Seq<DirEntryInfo>,
    k: int,
    below_root: bool,
    inherited: Ignorer,
    fresh: Ignorer,
    args: &RippyArgs,
)
    requires
        0 <= k < entries.len(),
        !attached_upto(entries, entries.len() - 1, below_root, args),
    ensures
        kept(entries, k, below_root, inherited, fresh, args) == (entries[k].passes_names(
            below_root,
            args,
        ) && !inherited.ignores(entries[k].path@, entries[k].dir_like())),
{
    if attached_upto(entries, k, below_root, args) {
        lemma_attached_grows(entries, k, entries.len() - 1, below_root, args);
    }
}

/// Once a listing holds an ignore file, an entry that the file's rules
/// ignore is dropped, wherever in the listing it stands and whatever rules
/// came down from above.
pub proof fn lemma_ignored_entry_dropped(
    entries: Seq<DirEntryInfo>,
    k: int,
    below_root: bool,
    inherited: Ignorer,
    fresh: Ignorer,
    args: &RippyArgs,
)
    requires
        0 <= k < entries.len(),
        attached_upto(entries, entries.len() - 1, below_root, args),
        fresh.matcher is Some,
        fresh.ignores(entries[k].path@, entries[k].dir_like()),
    ensures
        !kept(entries, k, below_root, inherited, fresh, args),
{
    lemma_attached_args(entries, entries.len() - 1, below_root, args);
}

/// The rules that the ignore file of a directory brings into force are
/// those of its lines, where they can be put together: they ignore what the
/// lines, read as rules of that directory, ignore.
pub proof fn lemma_file_rules_decide(
    fresh: Ignorer,
    root: Seq<char>,
    lines: Seq<Seq<char>>,
    path: Seq<char>,
    is_dir: bool,
)
    requires
        fresh.made_from(root, lines),
    ensures
        fresh.matcher is Some,
        crate::ignorer::gitignore_builds(root, crate::ignorer::rule_lines(lines)) ==> fresh.ignores(
            path,
            is_dir,
        ) == crate::ignorer::gitignore_ignores(
            root,
            crate::ignorer::rule_lines(lines),
            path,
            is_dir,
        ),
{
}

proof fn lemma_attached_args(
    entries: Seq<DirEntryInfo>,
    k: int,
    below_root: bool,
    args: &RippyArgs,
)
    requires
        attached_upto(entries, k, below_root, args),
    ensures
        args.is_gitignore,
    decreases k + 1,
{
    if k >= 0 && !(k < entries.len() && entries[k].attaches(below_root, args)) {
        lemma_attached_args(entries, k - 1, below_root, args);
    }
}

/// Where in a listing the first entry stands that brings new ignore rules
/// into force, if there is one: the ignore file that has to be read before
/// the listing is filtered.
pub fn ignore_file_index(entries: &Vec<DirEntryInfo>, below_root: bool, args: &RippyArgs) -> (r:
    Option<usize>)
    ensures
        match r {
            Some(at) => at < entries@.len() && entries@[at as int].attaches(below_root, args)
                && !attached_upto(entries@, at - 1, below_root, args),
            None => !attached_upto(entries@, entries@.len() - 1, below_root, args),
        },
{
    let mut i: usize = 0;
    while i < entries.len()
        invariant
            i <= entries.len(),
            !attached_upto(entries@, i - 1, below_root, args),
        decreases entries.len() - i,
    {
        let e = &entries[i];
        if e.unicode_name && below_root && starts_with_dot(e.name.as_str()) && args.is_gitignore
            && str_equal(e.name.as_str(), ".gitignore") {
            return Some(i);
        }
        i = i + 1;
    }
    None
}

/// Decides which children of a directory survive, and brings the rules of
/// the directory's ignore file into force when the file is met. The result
/// holds one flag for each entry.
pub fn filter_children(listing: &DirListing, ignorer: &mut Ignorer, args: &RippyArgs) -> (flags:
    Vec<bool>)
    ensures
        flags@.len() == listing.entries@.len(),
        forall|k: int|
            0 <= k < flags@.len() ==> flags@[k] == kept(
                listing.entries@,
                k,
                listing.below_root,
                *old(ignorer),
                *final(ignorer),
                args,
            ),
        attached_upto(listing.entries@, listing.entries@.len() - 1, listing.below_root, args)
            ==> final(ignorer).made_from(listing.path@, string_views(listing.gitignore_lines@)),
        !attached_upto(listing.entries@, listing.entries@.len() - 1, listing.below_root, args)
            ==> *final(ignorer) == *old(ignorer),
{
    let ghost inherited = *ignorer;
    let ghost entries = listing.entries@;
    let below_root = listing.below_root;
    let n = listing.entries.len();
    let mut first: Vec<bool> = Vec::new();
    let mut attached = false;
    let mut i: usize = 0;
    while i < n
        invariant
            i <= n,
            n == entries.len(),
            entries == listing.entries@,
            below_root == listing.below_root,
            first@.len() == i,
            attached == attached_upto(entries, i - 1, below_root, args),
            !attached ==> *ignorer == inherited,
            attached ==> ignorer.made_from(listing.path@, string_views(listing.gitignore_lines@)),
            forall|k: int|
                0 <= k < i ==> first@[k] == (entries[k].passes_names(below_root, args) && !(if attached_upto(
                    entries,
                    k,
                    below_root,
                    args,
                ) {
                    *ignorer
                } else {
                    inherited
                }).ignores(entries[k].path@, entries[k].dir_like())),
        decreases n - i,
    {
        let e = &listing.entries[i];
        let hidden = below_root && starts_with_dot(e.name.as_str());
        proof {
            assert forall|k: int| 0 <= k < i && attached_upto(entries, k, below_root, args) implies attached by {
                lemma_attached_grows(entries, k, i - 1, below_root, args);
            }
        }
        if e.unicode_name && hidden && args.is_gitignore && str_equal(
            e.name.as_str(),
            ".gitignore",
        ) {
            if !attached {
                *ignorer = Ignorer::new(
                    listing.path.as_str(),
                    e.path.as_str(),
                    &listing.gitignore_lines,
                );
                attached = true;
            }
        }
        let pass = e.check_names(below_root, args) && !ignorer.is_ignore(
            e.path.as_str(),
            e.is_dir_like(),
        );
        first.push(pass);
        i = i + 1;
    }
    let recheck = args.is_gitignore && ignorer.has_matcher();
    let mut flags: Vec<bool> = Vec::new();
    let mut j: usize = 0;
    while j < n
        invariant
            j <= n,
            n == entries.len(),
            entries == listing.entries@,
            first@.len() == n,
            flags@.len() == j,
            recheck == (args.is_gitignore && ignorer.matcher is Some),
            forall|k: int|
                0 <= k < j ==> flags@[k] == (first@[k] && (recheck ==> !ignorer.ignores(
                    entries[k].path@,
                    entries[k].dir_like(),
                ))),
        decreases n - j,
    {
        let e = &listing.entries[j];
        let keep = first[j] && !(recheck && ignorer.is_ignore(e.path.as_str(), e.is_dir_like()));
        flags.push(keep);
        j = j + 1;
    }
    flags
}

/// What the file system says of a file: its length in bytes and, where it can
/// be told, when it was last changed.
#[derive(Debug, Clone, Copy, PartialEq, Eq)]
pub struct FileMetadata {
    pub len: u64,
    pub modified: Option<Timestamp>,
}

/// Where a symbolic link points.
#[derive(Debug, PartialEq, Eq)]
pub struct LinkTarget {
    /// The path the link holds.
    pub path: String,
    /// The last segment of that path, where it has one.
    pub file_name: Option<String>,
    /// Whether the link or what it points to may be executed.
    pub is_executable: bool,
}

/// What was read of a surviving entry.
#[derive(Debug, PartialEq, Eq)]
pub struct EntryDetails {
    /// The entry's text; `None` where it was not read or cannot be read as
    /// text.
    pub contents: Option<String>,
    /// The entry's metadata; `None` where they cannot be read.
    pub metadata: Option<FileMetadata>,
    /// For a symbolic link, where it points; `None` where that cannot be
    /// told.
    pub link: Option<LinkTarget>,
    /// Whether the entry may be executed.
    pub executable: bool,
}

/// A path with forward slashes only.
pub open spec fn slashed(path: Seq<char>) -> Seq<char> {
    replaced(path, seq!['\\'], seq!['/'])
}

/// `text` between double quotes where quoting is on.
pub open spec fn quoted(text: Seq<char>, is_quote: bool) -> Seq<char> {
    if is_quote {
        seq!['"'] + text + seq!['"']
    } else {
        text
    }
}

/// Whether entries are shown by their path.
pub open spec fn shows_path(args: &RippyArgs) -> bool {
    args.show_relative_path || args.show_full_path
}

/// How the target of a link is shown: by its path or its last segment,
/// quoted where quoting is on, in the color of a directory, an executable or
/// a plain file; a fixed marker where the link cannot be resolved.
pub open spec fn link_text(link: Option<LinkTarget>, is_dir: bool, args: &RippyArgs) -> Seq<char> {
    match link {
        None => "[unable to resolve]"@,
        Some(target) => {
            let shown = if shows_path(args) {
                slashed(target.path@)
            } else {
                match target.file_name {
                    Some(name) => slashed(name@),
                    None => slashed(target.path@),
                }
            };
            let color = if is_dir {
                args.colors.dir
            } else if target.is_executable {
                args.colors.executable
            } else {
                args.colors.file
            };
            styled(color_view(color), is_dir && !args.is_grayscale, quoted(shown, args.is_quote))
        },
    }
}

/// How an entry is shown: by its name or its path, quoted where quoting is
/// on, and for a link followed by an arrow and the link's target.
pub open spec fn leaf_display(entry: DirEntryInfo, link: Option<LinkTarget>, args: &RippyArgs) -> Seq<
    char,
> {
    let base = quoted(
        if shows_path(args) {
            slashed(entry.path@)
        } else {
            entry.name@
        },
        args.is_quote,
    );
    if entry.is_symlink {
        styled(color_view(args.colors.sym), entry.dir_like() && !args.is_grayscale, base) + " -> "@
            + link_text(link, entry.dir_like(), args)
    } else {
        base
    }
}

/// The search window of an entry: none without a search, none for a
/// directory, none where the text cannot be read, and else what the search
/// in the text gives.
pub open spec fn leaf_window(entry: DirEntryInfo, contents: Option<String>, args: &RippyArgs) -> Option<
    Seq<char>,
> {
    if !args.is_search || entry.is_dir {
        None
    } else {
        match (contents, args.pattern) {
            (Some(text), Some(re)) => search_window(
                regex_first_match(regex_source(re), text@),
                vstd::utf8::encode_utf8(text@),
                args.is_window,
                args.radius as int,
                args.colors,
                args.is_grayscale,
            ),
            _ => None,
        }
    }
}

/// Whether an entry gets a leaf of its own: always without a search, and in
/// a search the directories and the files in which the expression was found.
pub open spec fn is_decorated(entry: DirEntryInfo, contents: Option<String>, args: &RippyArgs) -> bool {
    !args.is_search || entry.is_dir || leaf_window(entry, contents, args) is Some || (
    entry.is_symlink && entry.target_is_dir)
}

/// The time of last change that a leaf carries: none unless dates are
/// wanted, the epoch where the metadata cannot be read.
pub open spec fn leaf_modified(metadata: Option<FileMetadata>, args: &RippyArgs) -> Option<Timestamp> {
    if args.show_date {
        match metadata {
            Some(m) => m.modified,
            None => Some(Timestamp { secs: 0, nanos: 0 }),
        }
    } else {
        None
    }
}

/// The size that a leaf carries: none unless sizes are wanted, zero where
/// the metadata cannot be read.
pub open spec fn leaf_size(metadata: Option<FileMetadata>, args: &RippyArgs) -> Option<u64> {
    if args.show_size {
        match metadata {
            Some(m) => Some(m.len),
            None => Some(0u64),
        }
    } else {
        None
    }
}

/// Whether the text of an entry has to be read before its leaf is built.
pub fn needs_contents(entry: &DirEntryInfo, args: &RippyArgs) -> (r: bool)
    ensures
        r == (args.is_search && !entry.is_dir),
{
    args.is_search && !entry.is_dir
}

/// Whether the metadata of entries have to be read: where dates or sizes
/// are shown.
pub fn needs_metadata(args: &RippyArgs) -> (r: bool)
    ensures
        r == (args.show_date || args.show_size),
{
    args.show_date || args.show_size
}

/// Whether it has to be found out if an entry may be executed: for what is
/// shown in color and is neither a directory nor a link.
pub fn needs_executable(entry: &DirEntryInfo, args: &RippyArgs) -> (r: bool)
    ensures
        r == (!args.is_grayscale && !entry.dir_like() && !entry.is_symlink),
{
    !args.is_grayscale && !entry.is_dir_like() && !entry.is_symlink
}

fn slash_path(path: &str) -> (r: String)
    ensures
        r@ == slashed(path@),
{
    proof {
        reveal_strlit("\\");
        reveal_strlit("/");
        assert("\\"@ =~= seq!['\\']);
        assert("/"@ =~= seq!['/']);
    }
    str_replace(path, "\\", "/")
}

fn quote_text(text: &str, is_quote: bool) -> (r: String)
    ensures
        r@ == quoted(text@, is_quote),
{
    if is_quote {
        proof {
            reveal_strlit("\"");
            assert("\""@ =~= seq!['"']);
        }
        let mut r = String::from_str("\"");
        r.append(text);
        r.append("\"");
        r
    } else {
        String::from_str(text)
    }
}

/// Spells out where a link points.
pub fn format_link(link: &Option<LinkTarget>, is_dir: bool, args: &RippyArgs) -> (r: String)
    ensures
        r@ == link_text(*link, is_dir, args),
{
    match link {
        None => String::from_str("[unable to resolve]"),
        Some(target) => {
            let shown = if args.show_relative_path || args.show_full_path {
                slash_path(target.path.as_str())
            } else {
                match &target.file_name {
                    Some(name) => slash_path(name.as_str()),
                    None => slash_path(target.path.as_str()),
                }
            };
            let color = if is_dir {
                args.colors.dir
            } else if target.is_executable {
                args.colors.executable
            } else {
                args.colors.file
            };
            let shown = quote_text(shown.as_str(), args.is_quote);
            ansi_color(color, is_dir && !args.is_grayscale, shown.as_str())
        },
    }
}

/// Builds the leaf of a surviving entry from what was read of it. There is
/// none for an entry that a search passes over.
pub fn build_leaf(entry: &DirEntryInfo, details: &EntryDetails, args: &RippyArgs) -> (r: Option<
    TreeLeaf,
>)
    requires
        args.wf(),
    ensures
        r is Some <==> is_decorated(*entry, details.contents, args),
        r matches Some(leaf) ==> {
            &&& leaf.name@ == entry.name@
            &&& leaf.relative_path@ == slashed(entry.path@)
            &&& leaf.is_dir == entry.dir_like()
            &&& leaf.is_sym == entry.is_symlink
            &&& leaf.last_modified == leaf_modified(details.metadata, args)
            &&& leaf.size == leaf_size(details.metadata, args)
            &&& opt_view(leaf.window) == leaf_window(*entry, details.contents, args)
            &&& leaf.display@ == leaf_display(*entry, details.link, args)
            &&& leaf.executable == details.executable
        },
{
    let window: Option<String> = if !args.is_search || entry.is_dir {
        None
    } else {
        match (&details.contents, &args.pattern) {
            (Some(text), Some(re)) => search_contents(
                re,
                text.as_str(),
                args.is_window,
                args.radius,
                &args.colors,
                args.is_grayscale,
            ),
            _ => None,
        }
    };
    if !(!args.is_search || entry.is_dir || window.is_some() || (entry.is_symlink
        && entry.target_is_dir)) {
        return None;
    }
    let relative_path = slash_path(entry.path.as_str());
    let last_modified = if args.show_date {
        match details.metadata {
            Some(m) => m.modified,
            None => Some(Timestamp { secs: 0, nanos: 0 }),
        }
    } else {
        None
    };
    let size = if args.show_size {
        match details.metadata {
            Some(m) => Some(m.len),
            None => Some(0u64),
        }
    } else {
        None
    };
    let is_dir = entry.is_dir_like();
    let base = if args.show_relative_path || args.show_full_path {
        quote_text(relative_path.as_str(), args.is_quote)
    } else {
        quote_text(entry.name.as_str(), args.is_quote)
    };
    let display = if entry.is_symlink {
        let mut shown = ansi_color(args.colors.sym, is_dir && !args.is_grayscale, base.as_str());
        shown.append(" -> ");
        shown.append(format_link(&details.link, is_dir, args).as_str());
        shown
    } else {
        base
    };
    Some(
        TreeLeaf {
            name: entry.name.clone(),
            relative_path,
            is_dir,
            last_modified,
            size,
            window,
            display,
            is_sym: entry.is_symlink,
            executable: details.executable,
        },
    )
}

/// One entry as the walk hands it out: how deep it lies below the root,
/// whether it is a regular file, its name, and its leaf.
#[derive(Debug, PartialEq, Eq)]
pub struct WalkedEntry {
    pub depth: usize,
    pub is_file: bool,
    pub file_name: String,
    pub leaf: TreeLeaf,
}

impl WalkedEntry {
    /// Whether the entry's leaf goes into the result. The root never does.
    /// In a search, an entry without a search window does not, which leaves
    /// every directory out. A directory whose own name no include pattern
    /// matches does not either.
    pub open spec fn selected(&self, args: &RippyArgs) -> bool {
        &&& self.depth != 0
        &&& !(args.is_search && self.leaf.window is None)
        &&& !(self.leaf.is_dir && !included_by(args.include_patterns, self.file_name@))
    }

    /// Whether the entry counts as searched: a regular file below the root.
    pub open spec fn searched(&self) -> bool {
        self.is_file && self.depth > 0
    }

    /// Computes `selected`.
    pub fn is_selected(&self, args: &RippyArgs) -> (r: bool)
        ensures
            r == self.selected(args),
    {
        if self.depth == 0 || (args.is_search && self.leaf.window.is_none()) {
            false
        } else {
            !(self.leaf.is_dir && !is_included(&args.include_patterns, self.file_name.as_str()))
        }
    }
}

/// The leaves of the selected entries, in the order of the walk.
pub open spec fn selected_leaves(entries: Seq<WalkedEntry>, args: &RippyArgs) -> Seq<TreeLeaf>
    decreases entries.len(),
{
    if entries.len() == 0 {
        Seq::empty()
    } else if entries.last().selected(args) {
        selected_leaves(entries.drop_last(), args).push(entries.last().leaf)
    } else {
        selected_leaves(entries.drop_last(), args)
    }
}

/// The number of entries that count as searched.
pub open spec fn searched_count(entries: Seq<WalkedEntry>) -> nat
    decreases entries.len(),
{
    if entries.len() == 0 {
        0
    } else if entries.last().searched() {
        searched_count(entries.drop_last()) + 1
    } else {
        searched_count(entries.drop_last())
    }
}

proof fn lemma_searched_count_bound(entries: Seq<WalkedEntry>)
    ensures
        searched_count(entries) <= entries.len(),
    decreases entries.len(),
{
    if entries.len() > 0 {
        lemma_searched_count_bound(entries.drop_last());
    }
}

/// Gathers the result of a walk from the entries it handed out, in their
/// order: the leaves of the selected entries, and the number of regular
/// files that were met below the root, whether they were kept or not.
pub fn crawl_directory(entries: &Vec<WalkedEntry>, args: &RippyArgs) -> (results: CrawlResults)
    ensures
        results.paths@ == selected_leaves(entries@, args),
        results.paths_searched == searched_count(entries@),
{
    let mut paths: Vec<TreeLeaf> = Vec::new();
    let mut paths_searched: usize = 0;
    let mut i: usize = 0;
    assert(entries@.subrange(0, 0) =~= Seq::<WalkedEntry>::empty());
    while i < entries.len()
        invariant
            i <= entries.len(),
            paths@ == selected_leaves(entries@.subrange(0, i as int), args),
            paths_searched == searched_count(entries@.subrange(0, i as int)),
        decreases entries.len() - i,
    {
        let entry = &entries[i];
        proof {
            let next = entries@.subrange(0, i + 1);
            assert(next.drop_last() =~= entries@.subrange(0, i as int));
            assert(next.last() == entries@[i as int]);
            lemma_searched_count_bound(next);
        }
        if entry.is_file && entry.depth > 0 {
            paths_searched = paths_searched + 1;
        }
        if entry.is_selected(args) {
            paths.push(entry.leaf.clone());
        }
        i = i + 1;
    }
    assert(entries@.subrange(0, i as int) =~= entries@);
    CrawlResults { paths, paths_searched }
}

/// Only the text of an entry that is no directory can give it a search
/// window: there is none without a search, none for a directory, and none
/// where no text was read.
pub proof fn lemma_window_needs_text(entry: DirEntryInfo, contents: Option<String>, args: &RippyArgs)
    ensures
        leaf_window(entry, contents, args) is Some ==> args.is_search && !entry.is_dir
            && contents is Some,
{
}

/// Every leaf of a result is the leaf of a selected entry, and the leaves
/// stand in the order of their entries.
pub proof fn lemma_selected_members(entries: Seq<WalkedEntry>, args: &RippyArgs, i: int) -> (j: int)
    requires
        0 <= i < selected_leaves(entries, args).len(),
    ensures
        i <= j < entries.len(),
        entries[j].selected(args),
        selected_leaves(entries, args)[i] == entries[j].leaf,
    decreases entries.len(),
{
    let rest = entries.drop_last();
    if entries.last().selected(args) && i == selected_leaves(rest, args).len() {
        lemma_selected_len(rest, args);
        entries.len() - 1
    } else {
        lemma_selected_members(rest, args, i)
    }
}

proof fn lemma_selected_len(entries: Seq<WalkedEntry>, args: &RippyArgs)
    ensures
        selected_leaves(entries, args).len() <= entries.len(),
    decreases entries.len(),
{
    if entries.len() > 0 {
        lemma_selected_len(entries.drop_last(), args);
    }
}

/// In a search, every leaf of the result carries a search window. Where no
/// entry that is a directory has a window of
/// its own, as is the case where a directory cannot be read as text, no leaf
/// of the result is a directory.
pub proof fn lemma_search_keeps_matches(entries: Seq<WalkedEntry>, args: &RippyArgs, i: int)
    requires
        args.is_search,
        0 <= i < selected_leaves(entries, args).len(),
    ensures
        selected_leaves(entries, args)[i].window is Some,
        (forall|j: int|
            0 <= j < entries.len() && (#[trigger] entries[j]).leaf.is_dir
                ==> entries[j].leaf.window is None) ==> !selected_leaves(entries, args)[i].is_dir,
{
    let j = lemma_selected_members(entries, args, i);
}

} // verus!
