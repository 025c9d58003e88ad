//! The tree of entries: its nodes, their mathematical model, and how nodes
//! are made and counted.

use vstd::prelude::*;
use vstd::string::*;
use crate::args::RippyArgs;
use crate::dir::{quoted, slashed, FileMetadata, TreeLeaf};
use crate::pattern::str_replace;
use crate::snippet::opt_view;
use crate::text::{
    chars_of, decimal, ends_in_slash, has_final_slash, segments, split_segments, str_equal,
    string_views, usize_to_string,
};
pub use crate::assemble::{build_tree_from_paths, DirDetail};

verus! {

/// Whether a node stands for a directory or for a file.
#[derive(Debug, Clone, Copy, PartialEq, Eq, Structural, PartialOrd, Ord)]
pub enum EntryType {
    Directory,
    File,
}

impl EntryType {
    /// The variant's name.
    pub fn label(&self) -> (r: &'static str)
        ensures
            r@ == (match *self {
                EntryType::Directory => "Directory"@,
                EntryType::File => "File"@,
            }),
    {
        match self {
            EntryType::Directory => "Directory",
            EntryType::File => "File",
        }
    }
}

/// A moment in time: whole seconds since the Unix epoch and the nanoseconds
/// into the next second.
#[derive(Debug, Clone, Copy, PartialEq, Eq, Structural)]
pub struct Timestamp {
    pub secs: u64,
    pub nanos: u32,
}

impl Timestamp {
    /// The moment as one number, in nanoseconds since the epoch.
    pub open spec fn total(&self) -> int {
        self.secs * 1_000_000_000 + self.nanos
    }
}

/// One node of the assembled tree.
#[derive(Debug, PartialEq, Eq)]
pub struct Tree {
    pub display: String,
    pub name: String,
    pub path: Option<String>,
    pub entry_type: EntryType,
    pub last_modified: Option<Timestamp>,
    pub size: Option<u64>,
    pub window: Option<String>,
    pub fmt_width: Option<usize>,
    /// Whether the file behind `path` may be executed.
    pub executable: bool,
    /// The children: a mapping from name to node that keeps the order in
    /// which the nodes were put in. No two of them have the same name. The
    /// node owns them in a plain vector, so that the model of a tree, and
    /// with it everything that is proved of trees, goes by recursion over
    /// the nodes.
    pub children: Vec<Tree>,
}

impl Clone for Tree {
    fn clone(&self) -> (tree: Self)
        ensures
            tree@ == self@,
        decreases self,
    {
        let mut children: Vec<Tree> = Vec::new();
        let mut i: usize = 0;
        assert(self.children@.subrange(0, 0) =~= Seq::<Tree>::empty());
        while i < self.children.len()
            invariant
                i <= self.children.len(),
                models_of(children@) == models_of(self.children@.subrange(0, i as int)),
            decreases self.children.len() - i,
        {
            let child = self.children[i].clone();
            proof {
                lemma_models_push(children@, child);
                lemma_models_push(self.children@.subrange(0, i as int), self.children@[i as int]);
                assert(self.children@.subrange(0, i as int).push(self.children@[i as int])
                    =~= self.children@.subrange(0, i + 1));
            }
            children.push(child);
            i = i + 1;
        }
        assert(self.children@.subrange(0, i as int) =~= self.children@);
        Tree {
            display: self.display.clone(),
            name: self.name.clone(),
            path: match &self.path {
                Some(path) => Some(path.clone()),
                None => None,
            },
            entry_type: self.entry_type,
            last_modified: self.last_modified,
            size: self.size,
            window: match &self.window {
                Some(window) => Some(window.clone()),
                None => None,
            },
            fmt_width: self.fmt_width,
            executable: self.executable,
            children,
        }
    }
}

/// What a tree is, as a mathematical value.
pub struct TreeModel {
    pub display: Seq<char>,
    pub name: Seq<char>,
    pub path: Option<Seq<char>>,
    pub entry_type: EntryType,
    pub last_modified: Option<Timestamp>,
    pub size: Option<u64>,
    pub window: Option<Seq<char>>,
    pub fmt_width: Option<usize>,
    pub executable: bool,
    pub children: Seq<TreeModel>,
}

/// The model of a node.
pub open spec fn tree_model(tree: Tree) -> TreeModel
    decreases tree,
{
    TreeModel {
        display: tree.display@,
        name: tree.name@,
        path: opt_view(tree.path),
        entry_type: tree.entry_type,
        last_modified: tree.last_modified,
        size: tree.size,
        window: opt_view(tree.window),
        fmt_width: tree.fmt_width,
        executable: tree.executable,
        children: models_of(tree.children@),
    }
}

/// The models of a list of nodes.
pub open spec fn models_of(nodes: Seq<Tree>) -> Seq<TreeModel>
    decreases nodes,
{
    if nodes.len() == 0 {
        Seq::empty()
    } else {
        models_of(nodes.drop_last()).push(tree_model(nodes.last()))
    }
}

impl View for Tree {
    type V = TreeModel;

    open spec fn view(&self) -> TreeModel {
        tree_model(*self)
    }
}

/// The models of a list of nodes are the nodes' models, one for one.
pub proof fn lemma_models_of(nodes: Seq<Tree>)
    ensures
        models_of(nodes).len() == nodes.len(),
        forall|i: int| 0 <= i < nodes.len() ==> (#[trigger] models_of(nodes)[i]) == tree_model(nodes[i]),
    decreases nodes.len(),
{
    if nodes.len() > 0 {
        lemma_models_of(nodes.drop_last());
    }
}

/// Adding a node adds its model.
pub proof fn lemma_models_push(nodes: Seq<Tree>, node: Tree)
    ensures
        models_of(nodes.push(node)) == models_of(nodes).push(tree_model(node)),
{
    assert(nodes.push(node).drop_last() =~= nodes);
}

/// Replacing a node replaces its model.
pub proof fn lemma_models_update(nodes: Seq<Tree>, i: int, node: Tree)
    requires
        0 <= i < nodes.len(),
    ensures
        models_of(nodes.update(i, node)) == models_of(nodes).update(i, tree_model(node)),
{
    lemma_models_of(nodes);
    lemma_models_of(nodes.update(i, node));
    assert(models_of(nodes.update(i, node)) =~= models_of(nodes).update(i, tree_model(node)));
}

/// No two of `nodes` have the same name.
pub open spec fn names_distinct(nodes: Seq<TreeModel>) -> bool {
    forall|i: int, j: int|
        0 <= i < j < nodes.len() ==> (#[trigger] nodes[i]).name != (#[trigger] nodes[j]).name
}

/// Every node of `nodes` is well formed.
pub open spec fn all_wf(nodes: Seq<TreeModel>) -> bool
    decreases nodes,
{
    nodes.len() > 0 ==> all_wf(nodes.drop_last()) && nodes.last().wf()
}

/// The number of file nodes in `nodes` and below them.
pub open spec fn files_in(nodes: Seq<TreeModel>) -> nat
    decreases nodes,
{
    if nodes.len() == 0 {
        0
    } else {
        files_in(nodes.drop_last()) + nodes.last().file_total()
    }
}

/// The number of directory nodes in `nodes` and below them.
pub open spec fn dirs_in(nodes: Seq<TreeModel>) -> nat
    decreases nodes,
{
    if nodes.len() == 0 {
        0
    } else {
        dirs_in(nodes.drop_last()) + nodes.last().dir_total()
    }
}

impl TreeModel {
    /// Within every node the children's names are distinct: the children are
    /// a mapping from name to node that remembers the order of insertion.
    pub open spec fn wf(&self) -> bool
        decreases self,
    {
        names_distinct(self.children) && all_wf(self.children)
    }

    /// The number of file nodes in this subtree, the node itself counted.
    pub open spec fn file_total(&self) -> nat
        decreases self,
    {
        files_in(self.children) + if self.entry_type == EntryType::File {
            1nat
        } else {
            0nat
        }
    }

    /// The number of directory nodes in this subtree, the node itself
    /// counted.
    pub open spec fn dir_total(&self) -> nat
        decreases self,
    {
        dirs_in(self.children) + if self.entry_type == EntryType::Directory {
            1nat
        } else {
            0nat
        }
    }
}

impl Tree {
    /// A node without children, taken not to be executable.
    pub fn new(
        display: String,
        name: String,
        path: Option<String>,
        entry_type: EntryType,
        last_modified: Option<Timestamp>,
        size: Option<u64>,
        fmt_width: Option<usize>,
        window: Option<String>,
    ) -> (tree: Self)
        ensures
            tree@ == (TreeModel {
                display: display@,
                name: name@,
                path: opt_view(path),
                entry_type,
                last_modified,
                size,
                window: opt_view(window),
                fmt_width,
                executable: false,
                children: Seq::empty(),
            }),
    {
        Tree {
            display,
            name,
            path,
            entry_type,
            last_modified,
            size,
            fmt_width,
            window,
            executable: false,
            children: Vec::new(),
        }
    }
}

pub proof fn lemma_all_wf_member(nodes: Seq<TreeModel>, i: int)
    requires
        all_wf(nodes),
        0 <= i < nodes.len(),
    ensures
        nodes[i].wf(),
    decreases nodes.len(),
{
    if i < nodes.len() - 1 {
        lemma_all_wf_member(nodes.drop_last(), i);
    }
}

proof fn lemma_all_wf_upto(nodes: Seq<TreeModel>, n: int)
    requires
        0 <= n <= nodes.len(),
        forall|i: int| 0 <= i < n ==> (#[trigger] nodes[i]).wf(),
    ensures
        all_wf(nodes.subrange(0, n)),
    decreases n,
{
    if n > 0 {
        lemma_all_wf_upto(nodes, n - 1);
        assert(nodes.subrange(0, n).drop_last() =~= nodes.subrange(0, n - 1));
    }
}

pub proof fn lemma_all_wf_from_members(nodes: Seq<TreeModel>)
    requires
        forall|i: int| 0 <= i < nodes.len() ==> (#[trigger] nodes[i]).wf(),
    ensures
        all_wf(nodes),
{
    lemma_all_wf_upto(nodes, nodes.len() as int);
    assert(nodes.subrange(0, nodes.len() as int) =~= nodes);
}

/// Putting a well-formed child in under its name keeps the names of the
/// children distinct and the children well formed.
pub proof fn lemma_with_child_wf(children: Seq<TreeModel>, child: TreeModel)
    requires
        names_distinct(children),
        all_wf(children),
        child.wf(),
    ensures
        names_distinct(with_child(children, child)),
        all_wf(with_child(children, child)),
{
    let at = position(children, child.name);
    lemma_position_found(children, child.name);
    let grown = with_child(children, child);
    assert forall|i: int| 0 <= i < grown.len() implies (#[trigger] grown[i]).wf() by {
        if i < children.len() && i != at {
            lemma_all_wf_member(children, i);
        }
    }
    lemma_all_wf_from_members(grown);
    assert forall|i: int, j: int| 0 <= i < j < grown.len() implies (#[trigger] grown[i]).name != (
    #[trigger] grown[j]).name by {
        if at < children.len() {
            assert(grown[i].name == children[i].name);
            assert(grown[j].name == children[j].name);
        } else if j == children.len() {
            assert(grown[i] == children[i]);
        } else {
            assert(grown[i] == children[i]);
            assert(grown[j] == children[j]);
        }
    }
}

/// Where among `children` the node named `name` stands: the index of the
/// first node of that name, or the number of children where there is none.
pub open spec fn position(children: Seq<TreeModel>, name: Seq<char>) -> int
    decreases children.len(),
{
    if children.len() == 0 {
        0
    } else if children[0].name == name {
        0
    } else {
        1 + position(children.drop_first(), name)
    }
}

/// `children` with `child` put in under its name: in the place of the node
/// that had the name, or behind all others.
pub open spec fn with_child(children: Seq<TreeModel>, child: TreeModel) -> Seq<TreeModel> {
    let at = position(children, child.name);
    if at < children.len() {
        children.update(at, child)
    } else {
        children.push(child)
    }
}

pub proof fn lemma_position(children: Seq<TreeModel>, name: Seq<char>, at: int)
    requires
        0 <= at <= children.len(),
        forall|j: int| 0 <= j < at ==> (#[trigger] children[j]).name != name,
        at < children.len() ==> children[at].name == name,
    ensures
        position(children, name) == at,
    decreases children.len(),
{
    if children.len() > 0 && at > 0 {
        let rest = children.drop_first();
        assert forall|j: int| 0 <= j < at - 1 implies (#[trigger] rest[j]).name != name by {
            assert(rest[j] == children[j + 1]);
        }
        lemma_position(rest, name, at - 1);
    }
}

pub proof fn lemma_position_found(children: Seq<TreeModel>, name: Seq<char>)
    ensures
        0 <= position(children, name) <= children.len(),
        position(children, name) < children.len() ==> children[position(children, name)].name
            == name,
        forall|j: int|
            0 <= j < position(children, name) ==> (#[trigger] children[j]).name != name,
    decreases children.len(),
{
    if children.len() > 0 && children[0].name != name {
        let rest = children.drop_first();
        lemma_position_found(rest, name);
        assert forall|j: int| 0 <= j < position(children, name) implies (#[trigger] children[j]).name
            != name by {
            if j > 0 {
                assert(children[j] == rest[j - 1]);
            }
        }
    }
}

pub(crate) fn find_child(children: &Vec<Tree>, name: &str) -> (at: usize)
    ensures
        at == position(models_of(children@), name@),
        at <= children.len(),
{
    let mut i: usize = 0;
    proof {
        lemma_models_of(children@);
    }
    while i < children.len()
        invariant
            i <= children.len(),
            models_of(children@).len() == children@.len(),
            forall|j: int|
                0 <= j < children@.len() ==> (#[trigger] models_of(children@)[j]) == tree_model(
                    children@[j],
                ),
            forall|j: int| 0 <= j < i ==> (#[trigger] models_of(children@)[j]).name != name@,
        decreases children.len() - i,
    {
        if str_equal(children[i].name.as_str(), name) {
            proof {
                lemma_position(models_of(children@), name@, i as int);
            }
            return i;
        }
        i = i + 1;
    }
    proof {
        lemma_position(models_of(children@), name@, i as int);
    }
    i
}

/// Puts `child` among `children` under its name.
pub(crate) fn insert_child(children: &mut Vec<Tree>, child: Tree)
    ensures
        models_of(final(children)@) == with_child(models_of(old(children)@), child@),
{
    let at = find_child(children, child.name.as_str());
    proof {
        lemma_models_of(children@);
    }
    if at < children.len() {
        proof {
            lemma_models_update(children@, at as int, child);
        }
        children[at] = child;
    } else {
        proof {
            lemma_models_push(children@, child);
        }
        children.push(child);
    }
}

/// The model of the node that a leaf turns into. A directory keeps neither
/// path nor search window; a file keeps its path unless it is a link.
pub open spec fn leaf_model(leaf: TreeLeaf) -> TreeModel {
    TreeModel {
        display: leaf.display@,
        name: leaf.name@,
        path: if !leaf.is_dir && !leaf.is_sym {
            Some(leaf.relative_path@)
        } else {
            None
        },
        entry_type: if leaf.is_dir {
            EntryType::Directory
        } else {
            EntryType::File
        },
        last_modified: leaf.last_modified,
        size: leaf.size,
        window: if leaf.is_dir {
            None
        } else {
            opt_view(leaf.window)
        },
        fmt_width: None,
        executable: !leaf.is_dir && !leaf.is_sym && leaf.executable,
        children: Seq::empty(),
    }
}

/// The name of what a path leads to: its last segment, or the path itself
/// where it has no segment.
pub open spec fn last_segment(path: Seq<char>) -> Seq<char> {
    let parts = segments(path);
    if parts.len() > 0 {
        parts.last()
    } else {
        path
    }
}

/// `front` with one more segment behind it, and a slash between the two
/// where `front` does not end in one.
pub open spec fn pushed(front: Seq<char>, part: Seq<char>) -> Seq<char> {
    if ends_in_slash(front) {
        front + part
    } else {
        front + seq!['/'] + part
    }
}

/// `front` with the segments `parts` behind it, one after the other. A
/// segment that is a single full stop stands for the directory at hand and
/// is left out.
pub open spec fn resolved(front: Seq<char>, parts: Seq<Seq<char>>) -> Seq<char>
    decreases parts.len(),
{
    if parts.len() == 0 {
        front
    } else if parts[0] == seq!['.'] {
        resolved(front, parts.drop_first())
    } else {
        resolved(pushed(front, parts[0]), parts.drop_first())
    }
}

/// What an absolute path begins with: two slashes where the path begins
/// with exactly two, and else one.
pub open spec fn path_front(path: Seq<char>) -> Seq<char> {
    if path.len() >= 2 && path[1] == '/' && !(path.len() >= 3 && path[2] == '/') {
        seq!['/', '/']
    } else {
        seq!['/']
    }
}

/// A path made absolute, without a look at the file system. A path that
/// begins with a slash is taken from the root, any other from `base`. Its
/// segments follow one by one: empty pieces and segments that are a single
/// full stop are left out, segments of two full stops stay, and so does a
/// slash at the end. Backslashes become slashes. An empty path, and a
/// relative path where no base is known, stand as they are.
pub open spec fn absolute_path(path: Seq<char>, base: Seq<char>) -> Seq<char> {
    if path.len() == 0 || (path[0] != '/' && base.len() == 0) {
        path
    } else {
        let joined = resolved(
            if path[0] == '/' {
                path_front(path)
            } else {
                base
            },
            segments(path),
        );
        slashed(
            if ends_in_slash(path) && !ends_in_slash(joined) {
                joined + seq!['/']
            } else {
                joined
            },
        )
    }
}

/// The model of a directory node that stands for no leaf. It is shown by its
/// path, its absolute path or its name, and carries the metadata handed in
/// as far as the settings ask for them.
pub open spec fn dir_model(
    name: Seq<char>,
    path: Seq<char>,
    metadata: Option<FileMetadata>,
    args: &RippyArgs,
) -> TreeModel {
    let shown = if args.show_relative_path {
        path
    } else if args.show_full_path {
        absolute_path(path, args.current_dir@)
    } else {
        name
    };
    TreeModel {
        display: quoted(shown, args.is_quote),
        name,
        path: None,
        entry_type: EntryType::Directory,
        last_modified: match metadata {
            Some(m) => if args.show_date {
                m.modified
            } else {
                None
            },
            None => None,
        },
        size: match metadata {
            Some(m) => if args.show_size {
                Some(m.len)
            } else {
                None
            },
            None => None,
        },
        window: None,
        fmt_width: None,
        executable: false,
        children: Seq::empty(),
    }
}

/// The name the root goes by: the search root as it was given, or made
/// absolute where full paths are shown.
pub open spec fn root_name(root: Seq<char>, args: &RippyArgs) -> Seq<char> {
    if args.show_full_path {
        absolute_path(root, args.current_dir@)
    } else {
        root
    }
}

/// The model of the root node.
pub open spec fn root_model(root: Seq<char>, args: &RippyArgs) -> TreeModel {
    TreeModel {
        display: quoted(root_name(root, args), args.is_quote),
        name: root_name(root, args),
        path: None,
        entry_type: EntryType::Directory,
        last_modified: None,
        size: None,
        window: None,
        fmt_width: None,
        executable: false,
        children: Seq::empty(),
    }
}

/// Makes a path absolute.
pub fn convert_relative_to_abs_path(relative_path: &str, base: &str) -> (r: String)
    ensures
        r@ == absolute_path(relative_path@, base@),
{
    proof {
        reveal_strlit("\\");
        reveal_strlit("/");
        reveal_strlit("//");
        reveal_strlit(".");
        assert("\\"@ =~= seq!['\\']);
        assert("/"@ =~= seq!['/']);
        assert("//"@ =~= seq!['/', '/']);
        assert("."@ =~= seq!['.']);
    }
    let all = chars_of(relative_path);
    let len = all.len();
    if len == 0 || (all[0] != '/' && base.is_empty()) {
        return String::from_str(relative_path);
    }
    let mut r = if all[0] == '/' {
        if len >= 2 && all[1] == '/' && !(len >= 3 && all[2] == '/') {
            String::from_str("//")
        } else {
            String::from_str("/")
        }
    } else {
        String::from_str(base)
    };
    let parts = split_segments(relative_path, 0);
    let ghost names = string_views(parts@);
    let ghost start = r@;
    assert(relative_path@.subrange(0, relative_path@.len() as int) =~= relative_path@);
    assert(names.subrange(0, names.len() as int) =~= names);
    let mut i: usize = 0;
    while i < parts.len()
        invariant
            i <= parts.len(),
            names == string_views(parts@),
            "/"@ == seq!['/'],
            "."@ == seq!['.'],
            resolved(r@, names.subrange(i as int, names.len() as int)) == resolved(start, names),
        decreases parts.len() - i,
    {
        let ghost rest = names.subrange(i as int, names.len() as int);
        assert(rest[0] == parts@[i as int]@);
        assert(rest.drop_first() =~= names.subrange(i + 1, names.len() as int));
        if !str_equal(parts[i].as_str(), ".") {
            if !has_final_slash(r.as_str()) {
                r.append("/");
            }
            r.append(parts[i].as_str());
        }
        i = i + 1;
    }
    if all[len - 1] == '/' && !has_final_slash(r.as_str()) {
        r.append("/");
    }
    str_replace(r.as_str(), "\\", "/")
}

fn quote(text: String, is_quote: bool) -> (r: String)
    ensures
        r@ == quoted(text@, is_quote),
{
    if is_quote {
        proof {
            reveal_strlit("\"");
            assert("\""@ =~= seq!['"']);
        }
        let mut r = String::from_str("\"");
        r.append(text.as_str());
        r.append("\"");
        r
    } else {
        text
    }
}

pub(crate) fn directory_node(name: String, path: &str, metadata: Option<FileMetadata>, args: &RippyArgs) -> (tree:
    Tree)
    ensures
        tree@ == dir_model(name@, path@, metadata, args),
{
    let shown = if args.show_relative_path {
        String::from_str(path)
    } else if args.show_full_path {
        convert_relative_to_abs_path(path, args.current_dir.as_str())
    } else {
        name.clone()
    };
    let display = quote(shown, args.is_quote);
    let (last_modified, size) = match metadata {
        Some(m) => (
            if args.show_date {
                m.modified
            } else {
                None
            },
            if args.show_size {
                Some(m.len)
            } else {
                None
            },
        ),
        None => (None, None),
    };
    Tree {
        display,
        name,
        path: None,
        entry_type: EntryType::Directory,
        last_modified,
        size,
        window: None,
        fmt_width: None,
        executable: false,
        children: Vec::new(),
    }
}

impl Tree {
    /// The node that a leaf turns into.
    pub fn from_leaf(leaf: TreeLeaf) -> (tree: Self)
        ensures
            tree@ == leaf_model(leaf),
    {
        let is_file = !leaf.is_dir;
        let keeps_path = is_file && !leaf.is_sym;
        Tree {
            display: leaf.display,
            name: leaf.name,
            path: if keeps_path {
                Some(leaf.relative_path)
            } else {
                None
            },
            entry_type: if is_file {
                EntryType::File
            } else {
                EntryType::Directory
            },
            last_modified: leaf.last_modified,
            size: leaf.size,
            window: if is_file {
                leaf.window
            } else {
                None
            },
            fmt_width: None,
            executable: keeps_path && leaf.executable,
            children: Vec::new(),
        }
    }

    /// A directory node for `path`, for a directory that has no leaf of its
    /// own. `metadata` is what the file system says of the directory, if it
    /// says anything.
    pub fn from_dir(path: String, args: &RippyArgs, metadata: Option<FileMetadata>) -> (tree: Self)
        ensures
            tree@ == dir_model(last_segment(path@), path@, metadata, args),
    {
        let mut parts = split_segments(path.as_str(), 0);
        assert(path@.subrange(0, path@.len() as int) =~= path@);
        let ghost all = string_views(parts@);
        let name = match parts.pop() {
            Some(last) => {
                assert(last@ == all.last());
                last
            },
            None => path.clone(),
        };
        directory_node(name, path.as_str(), metadata, args)
    }

    /// The root node for the search root `root`.
    pub fn new_root(root: &str, args: &RippyArgs) -> (tree: Self)
        ensures
            tree@ == root_model(root@, args),
    {
        let name = if !args.show_full_path {
            String::from_str(root)
        } else {
            convert_relative_to_abs_path(root, args.current_dir.as_str())
        };
        let display = quote(name.clone(), args.is_quote);
        Tree::new(display, name, None, EntryType::Directory, None, None, None, None)
    }
}

impl From<TreeLeaf> for Tree {
    fn from(value: TreeLeaf) -> (tree: Self)
        ensures
            tree@ == leaf_model(value),
    {
        Tree::from_leaf(value)
    }
}

impl vstd::std_specs::convert::FromSpecImpl<TreeLeaf> for Tree {
    open spec fn obeys_from_spec() -> bool {
        false
    }

    open spec fn from_spec(v: TreeLeaf) -> Self {
        choose|tree: Tree| tree@ == leaf_model(v)
    }
}

/// Running totals of the directories and files below the root of a tree.
#[derive(Debug, Clone, Copy, PartialEq, Eq)]
pub struct TreeCounts {
    pub dir_count: usize,
    pub file_count: usize,
}

impl TreeCounts {
    /// Both totals start at zero.
    pub fn new() -> (counts: Self)
        ensures
            counts.dir_count == 0,
            counts.file_count == 0,
    {
        TreeCounts { dir_count: 0, file_count: 0 }
    }
}

proof fn lemma_totals_grow(nodes: Seq<TreeModel>, i: int)
    requires
        0 <= i <= nodes.len(),
    ensures
        files_in(nodes.subrange(0, i)) <= files_in(nodes),
        dirs_in(nodes.subrange(0, i)) <= dirs_in(nodes),
    decreases nodes.len() - i,
{
    if i < nodes.len() {
        lemma_totals_grow(nodes, i + 1);
        assert(nodes.subrange(0, i + 1).drop_last() =~= nodes.subrange(0, i));
    } else {
        assert(nodes.subrange(0, i) =~= nodes);
    }
}

/// The number of directories that a count of `tree` adds: those in the
/// tree, without the node itself where it is the root of the count.
pub open spec fn counted_dirs(tree: TreeModel, is_first: bool) -> int {
    tree.dir_total() - if is_first && tree.entry_type == EntryType::Directory {
        1int
    } else {
        0int
    }
}

/// Adds the directories and files of `tree` to `counts`. The node at which
/// the count begins is itself left out where it is a directory.
pub fn count_tree(tree: &Tree, counts: &mut TreeCounts, is_first: bool)
    requires
        old(counts).dir_count + tree@.dir_total() <= usize::MAX,
        old(counts).file_count + tree@.file_total() <= usize::MAX,
    ensures
        final(counts).dir_count == old(counts).dir_count + counted_dirs(tree@, is_first),
        final(counts).file_count == old(counts).file_count + tree@.file_total(),
    decreases tree,
{
    match tree.entry_type {
        EntryType::Directory => {
            if !is_first {
                counts.dir_count = counts.dir_count + 1;
            }
        },
        EntryType::File => {
            counts.file_count = counts.file_count + 1;
        },
    }
    let ghost models = models_of(tree.children@);
    let ghost start = *counts;
    let n = tree.children.len();
    let mut i: usize = 0;
    proof {
        lemma_models_of(tree.children@);
        assert(models.subrange(0, 0) =~= Seq::<TreeModel>::empty());
    }
    while i < n
        invariant
            i <= n,
            n == tree.children@.len(),
            models == models_of(tree.children@),
            models.len() == n,
            forall|j: int| 0 <= j < n ==> (#[trigger] models[j]) == tree_model(tree.children@[j]),
            counts.dir_count == start.dir_count + dirs_in(models.subrange(0, i as int)),
            counts.file_count == start.file_count + files_in(models.subrange(0, i as int)),
            start.dir_count + dirs_in(models) <= usize::MAX,
            start.file_count + files_in(models) <= usize::MAX,
        decreases n - i,
    {
        proof {
            lemma_totals_grow(models, i + 1);
            assert(models.subrange(0, i + 1).drop_last() =~= models.subrange(0, i as int));
            assert(models.subrange(0, i + 1).last() == models[i as int]);
        }
        count_tree(&tree.children[i], counts, false);
        i = i + 1;
    }
    assert(models.subrange(0, n as int) =~= models);
}

/// The name of a kind of entry.
pub open spec fn kind_name(kind: EntryType) -> Seq<char> {
    match kind {
        EntryType::Directory => "Directory"@,
        EntryType::File => "File"@,
    }
}

/// One line for each of `nodes`: two spaces, the name, and the kind in
/// angle brackets.
pub open spec fn child_lines(nodes: Seq<TreeModel>) -> Seq<char>
    decreases nodes.len(),
{
    if nodes.len() == 0 {
        Seq::empty()
    } else {
        child_lines(nodes.drop_last()) + "  "@ + nodes.last().name + " <"@ + kind_name(
            nodes.last().entry_type,
        ) + ">\n"@
    }
}

/// A node written out: its display string and kind on a line, and, where
/// it has children, a heading and a line for each of them.
pub open spec fn tree_text(node: TreeModel) -> Seq<char> {
    "Name: "@ + node.display + " <"@ + kind_name(node.entry_type) + ">\n"@ + if node.children.len()
        >= 1 {
        "Children:\n"@ + child_lines(node.children)
    } else {
        Seq::empty()
    }
}

/// A node in short: its display string, its kind and the number of its
/// children.
pub open spec fn tree_summary(node: TreeModel) -> Seq<char> {
    "Tree("@ + node.display + " ["@ + kind_name(node.entry_type) + ", "@ + decimal(
        node.children.len(),
    ) + " Children])"@
}

impl Tree {
    /// Writes the node out with a line for each of its children.
    pub fn to_text(&self) -> (r: String)
        ensures
            r@ == tree_text(self@),
    {
        let ghost models = models_of(self.children@);
        let mut r = String::from_str("Name: ");
        r.append(self.display.as_str());
        r.append(" <");
        r.append(self.entry_type.label());
        r.append(">\n");
        let n = self.children.len();
        proof {
            lemma_models_of(self.children@);
        }
        if n >= 1 {
            let mut lines = String::new();
            let mut i: usize = 0;
            proof {
                assert(models.subrange(0, 0) =~= Seq::<TreeModel>::empty());
            }
            while i < n
                invariant
                    i <= n,
                    n == self.children@.len(),
                    models == models_of(self.children@),
                    models.len() == n,
                    forall|j: int| 0 <= j < n ==> (#[trigger] models[j]) == tree_model(self.children@[j]),
                    lines@ == child_lines(models.subrange(0, i as int)),
                decreases n - i,
            {
                proof {
                    assert(models.subrange(0, i + 1).drop_last() =~= models.subrange(0, i as int));
                    assert(models.subrange(0, i + 1).last() == models[i as int]);
                }
                lines.append("  ");
                lines.append(self.children[i].name.as_str());
                lines.append(" <");
                lines.append(self.children[i].entry_type.label());
                lines.append(">\n");
                i = i + 1;
            }
            assert(models.subrange(0, n as int) =~= models);
            let mut tail = String::from_str("Children:\n");
            tail.append(lines.as_str());
            r.append(tail.as_str());
        } else {
            r.append(String::new().as_str());
        }
        r
    }

    /// Writes the node out in short.
    pub fn summary(&self) -> (r: String)
        ensures
            r@ == tree_summary(self@),
    {
        proof {
            lemma_models_of(self.children@);
        }
        let mut r = String::from_str("Tree(");
        r.append(self.display.as_str());
        r.append(" [");
        r.append(self.entry_type.label());
        r.append(", ");
        r.append(usize_to_string(self.children.len()).as_str());
        r.append(" Children])");
        r
    }
}

} // verus!
