//! Assembling a tree from the flat list of leaves that a walk hands out.

use vstd::prelude::*;
use vstd::string::*;
use crate::args::RippyArgs;
use crate::dir::{FileMetadata, TreeLeaf};
use crate::text::{
    chars_of, chars_start_with, has_prefix, has_suffix, lemma_last_segment,
    lemma_segments_are_names, segments, split_segments, str_equal, string_views,
};
use crate::tree::{
    dir_model, directory_node, find_child, insert_child, last_segment, leaf_model,
    lemma_all_wf_from_members, lemma_all_wf_member, lemma_models_of, lemma_models_push,
    lemma_models_update, lemma_position, lemma_position_found, lemma_with_child_wf, position,
    root_model,
    with_child, Tree, TreeModel,
};

verus! {

/// What the file system says of one directory.
#[derive(Debug, PartialEq, Eq)]
pub struct DirDetail {
    pub path: String,
    pub metadata: Option<FileMetadata>,
}

/// The metadata that `table` holds for `path`: those of the first entry
/// with that path, nothing where there is none.
pub open spec fn detail_for(table: Seq<DirDetail>, path: Seq<char>) -> Option<FileMetadata>
    decreases table.len(),
{
    if table.len() == 0 {
        None
    } else if table[0].path@ == path {
        table[0].metadata
    } else {
        detail_for(table.drop_first(), path)
    }
}

/// The search root with a slash at its end.
pub open spec fn root_with_slash(root: Seq<char>) -> Seq<char> {
    if has_suffix(root, seq!['/']) {
        root
    } else {
        root + seq!['/']
    }
}

/// The path of the directory that the first `k + 1` names of `chain` lead
/// to, from the search root.
pub open spec fn dir_path(root: Seq<char>, chain: Seq<Seq<char>>, k: int) -> Seq<char>
    decreases k,
{
    if k <= 0 {
        root_with_slash(root) + chain[0]
    } else {
        dir_path(root, chain, k - 1) + seq!['/'] + chain[k]
    }
}

/// The names of the directories above a leaf, from the search root down:
/// the segments of the leaf's path behind the search root, without the
/// last, which is the leaf's own.
pub open spec fn parent_chain(relative_path: Seq<char>, root: Seq<char>) -> Seq<Seq<char>> {
    let rest = if has_prefix(relative_path, root) {
        relative_path.subrange(root.len() as int, relative_path.len() as int)
    } else {
        relative_path
    };
    let parts = segments(rest);
    if parts.len() > 0 {
        parts.drop_last()
    } else {
        parts
    }
}

/// `node` after `leaf` was put below it at the end of `chain`, read from
/// its `k`-th name on: each name leads to the child of that name, which is
/// made as a directory node where it is missing, and the leaf goes in as a
/// child of the last.
pub open spec fn placed(
    node: TreeModel,
    chain: Seq<Seq<char>>,
    k: int,
    leaf: TreeModel,
    table: Seq<DirDetail>,
    args: &RippyArgs,
) -> TreeModel
    decreases chain.len() - k,
{
    if k >= chain.len() {
        TreeModel { children: with_child(node.children, leaf), ..node }
    } else {
        let at = position(node.children, chain[k]);
        let path = dir_path(args.directory@, chain, k);
        if at < node.children.len() {
            TreeModel {
                children: node.children.update(
                    at,
                    placed(node.children[at], chain, k + 1, leaf, table, args),
                ),
                ..node
            }
        } else {
            TreeModel {
                children: node.children.push(
                    placed(
                        dir_model(chain[k], path, detail_for(table, path), args),
                        chain,
                        k + 1,
                        leaf,
                        table,
                        args,
                    ),
                ),
                ..node
            }
        }
    }
}

/// The way that `placed` takes through `node`: the index of the child it
/// goes to at each level.
pub open spec fn trail(node: TreeModel, chain: Seq<Seq<char>>, k: int) -> Seq<int>
    decreases chain.len() - k,
{
    if k >= chain.len() {
        Seq::empty()
    } else {
        let at = position(node.children, chain[k]);
        if at < node.children.len() {
            seq![at] + trail(node.children[at], chain, k + 1)
        } else {
            seq![at] + trail(TreeModel { children: Seq::empty(), ..node }, chain, k + 1)
        }
    }
}

/// `node` after `leaf` was put in as a child of the node that `way` leads
/// to, read from its `k`-th index on.
pub open spec fn placed_along(node: TreeModel, way: Seq<int>, k: int, leaf: TreeModel) -> TreeModel
    decreases way.len() - k,
{
    if k >= way.len() {
        TreeModel { children: with_child(node.children, leaf), ..node }
    } else if 0 <= way[k] < node.children.len() {
        TreeModel {
            children: node.children.update(
                way[k],
                placed_along(node.children[way[k]], way, k + 1, leaf),
            ),
            ..node
        }
    } else {
        node
    }
}

/// How far the assembly of a tree has come: the tree so far, the way to the
/// directory that took the last leaf, and the name that directory was
/// reached under.
pub struct Assembly {
    pub root: TreeModel,
    pub cursor: Seq<int>,
    pub last_parent: Seq<char>,
}

/// The assembly after one more leaf. A leaf whose directory goes by the
/// name remembered from the leaf before goes where that leaf went. For any
/// other the way is walked from the root, and remembered.
pub open spec fn assemble_step(
    state: Assembly,
    leaf: TreeLeaf,
    table: Seq<DirDetail>,
    args: &RippyArgs,
) -> Assembly {
    let chain = parent_chain(leaf.relative_path@, args.directory@);
    let parent = if chain.len() > 0 {
        chain.last()
    } else {
        Seq::empty()
    };
    if state.last_parent == parent {
        Assembly { root: placed_along(state.root, state.cursor, 0, leaf_model(leaf)), ..state }
    } else {
        Assembly {
            root: placed(state.root, chain, 0, leaf_model(leaf), table, args),
            cursor: trail(state.root, chain, 0),
            last_parent: parent,
        }
    }
}

/// The assembly of a list of leaves, taken in order, below the root node of
/// the search root.
pub open spec fn assembly(leaves: Seq<TreeLeaf>, table: Seq<DirDetail>, args: &RippyArgs) -> Assembly
    decreases leaves.len(),
{
    if leaves.len() == 0 {
        Assembly {
            root: root_model(args.directory@, args),
            cursor: Seq::empty(),
            last_parent: Seq::empty(),
        }
    } else {
        assemble_step(assembly(leaves.drop_last(), table, args), leaves.last(), table, args)
    }
}

fn find_detail(table: &Vec<DirDetail>, path: &str) -> (r: Option<FileMetadata>)
    ensures
        r == detail_for(table@, path@),
{
    let mut i: usize = 0;
    assert(table@.subrange(0, table@.len() as int) =~= table@);
    while i < table.len()
        invariant
            i <= table.len(),
            detail_for(table@, path@) == detail_for(
                table@.subrange(i as int, table@.len() as int),
                path@,
            ),
        decreases table.len() - i,
    {
        let ghost rest = table@.subrange(i as int, table@.len() as int);
        assert(rest[0] == table@[i as int]);
        assert(rest.drop_first() =~= table@.subrange(i + 1, table@.len() as int));
        if str_equal(table[i].path.as_str(), path) {
            return table[i].metadata;
        }
        i = i + 1;
    }
    None
}

/// The indices of a way through a tree, as mathematical integers.
pub open spec fn way_of(cursor: Seq<usize>) -> Seq<int> {
    cursor.map_values(|i: usize| i as int)
}

fn place(
    node: &mut Tree,
    chain: &Vec<String>,
    k: usize,
    above: &str,
    leaf: Tree,
    table: &Vec<DirDetail>,
    args: &RippyArgs,
    cursor: &mut Vec<usize>,
)
    requires
        k <= chain.len(),
        k == 0 ==> above@ == root_with_slash(args.directory@),
        k > 0 ==> above@ == dir_path(args.directory@, string_views(chain@), k - 1) + seq!['/'],
    ensures
        final(node)@ == placed(old(node)@, string_views(chain@), k as int, leaf@, table@, args),
        way_of(final(cursor)@) == way_of(old(cursor)@) + trail(
            old(node)@,
            string_views(chain@),
            k as int,
        ),
    decreases chain.len() - k,
{
    let ghost names = string_views(chain@);
    let ghost before = node@;
    if k >= chain.len() {
        insert_child(&mut node.children, leaf);
        assert(way_of(cursor@) + Seq::<int>::empty() =~= way_of(cursor@));
    } else {
        let name = chain[k].as_str();
        assert(names[k as int] == chain@[k as int]@);
        let at = find_child(&node.children, name);
        let mut path = String::from_str(above);
        path.append(name);
        assert(path@ == dir_path(args.directory@, names, k as int));
        let mut below_path = path.clone();
        below_path.append("/");
        proof {
            reveal_strlit("/");
            assert("/"@ =~= seq!['/']);
            lemma_models_of(node.children@);
        }
        let ghost old_cursor = cursor@;
        cursor.push(at);
        assert(way_of(cursor@) =~= way_of(old_cursor) + seq![at as int]);
        if at < node.children.len() {
            let ghost kids = node.children@;
            let child = &mut node.children[at];
            place(child, chain, k + 1, below_path.as_str(), leaf, table, args, cursor);
            proof {
                lemma_models_update(kids, at as int, node.children@[at as int]);
                assert(node.children@ =~= kids.update(at as int, node.children@[at as int]));
                assert(way_of(cursor@) =~= way_of(old_cursor) + (seq![at as int] + trail(
                    before.children[at as int],
                    names,
                    k + 1,
                )));
            }
        } else {
            let metadata = find_detail(table, path.as_str());
            let mut child = directory_node(chain[k].clone(), path.as_str(), metadata, args);
            let ghost fresh = child@;
            place(&mut child, chain, k + 1, below_path.as_str(), leaf, table, args, cursor);
            proof {
                lemma_models_push(node.children@, child);
                lemma_trail_children(
                    fresh,
                    TreeModel { children: Seq::empty(), ..before },
                    names,
                    k + 1,
                );
                assert(way_of(cursor@) =~= way_of(old_cursor) + (seq![at as int] + trail(
                    TreeModel { children: Seq::empty(), ..before },
                    names,
                    k + 1,
                )));
            }
            node.children.push(child);
        }
    }
}

proof fn lemma_trail_children(a: TreeModel, b: TreeModel, chain: Seq<Seq<char>>, k: int)
    requires
        a.children == b.children,
    ensures
        trail(a, chain, k) == trail(b, chain, k),
    decreases chain.len() - k,
{
    if k < chain.len() {
        let at = position(a.children, chain[k]);
        if at >= a.children.len() {
            lemma_trail_children(
                TreeModel { children: Seq::empty(), ..a },
                TreeModel { children: Seq::empty(), ..b },
                chain,
                k + 1,
            );
        }
    }
}

fn place_along(node: &mut Tree, cursor: &Vec<usize>, k: usize, leaf: Tree)
    requires
        k <= cursor.len(),
    ensures
        final(node)@ == placed_along(old(node)@, way_of(cursor@), k as int, leaf@),
    decreases cursor.len() - k,
{
    if k >= cursor.len() {
        insert_child(&mut node.children, leaf);
    } else {
        let at = cursor[k];
        assert(way_of(cursor@)[k as int] == at);
        proof {
            lemma_models_of(node.children@);
        }
        if at < node.children.len() {
            let ghost kids = node.children@;
            let child = &mut node.children[at];
            place_along(child, cursor, k + 1, leaf);
            proof {
                lemma_models_update(kids, at as int, node.children@[at as int]);
                assert(node.children@ =~= kids.update(at as int, node.children@[at as int]));
            }
        }
    }
}

/// Builds the tree for a list of leaves that a walk found, taken in the
/// order of the walk. `dir_details` holds what the file system says of the
/// directories for which a node has to be made up.
pub fn build_tree_from_paths(paths: Vec<TreeLeaf>, args: &RippyArgs, dir_details: &Vec<DirDetail>) -> (tree:
    Tree)
    ensures
        tree@ == assembly(paths@, dir_details@, args).root,
        tree@.wf(),
{
    proof {
        lemma_assembly_wf(paths@, dir_details@, args);
    }
    let mut root = Tree::new_root(args.directory.as_str(), args);
    let root_chars = chars_of(args.directory.as_str());
    let root_len = root_chars.len();
    proof {
        reveal_strlit("/");
        assert("/"@ =~= seq!['/']);
    }
    let ends_with_slash = root_len > 0 && root_chars[root_len - 1] == '/';
    assert(ends_with_slash == has_suffix(args.directory@, seq!['/'])) by {
        if root_len > 0 {
            assert(args.directory@.subrange(root_len - 1, root_len as int) =~= seq![
                args.directory@[root_len - 1],
            ]);
            if ends_with_slash {
                assert(args.directory@.subrange(root_len - 1, root_len as int) =~= seq!['/']);
            } else {
                assert(args.directory@.subrange(root_len - 1, root_len as int)[0] != '/');
            }
        }
    }
    let mut root_standard = args.directory.clone();
    if !ends_with_slash {
        root_standard.append("/");
    }
    let mut last_parent = String::new();
    let mut cursor: Vec<usize> = Vec::new();
    let mut i: usize = 0;
    assert(paths@.subrange(0, 0) =~= Seq::<TreeLeaf>::empty());
    assert(way_of(cursor@) =~= Seq::<int>::empty());
    while i < paths.len()
        invariant
            i <= paths.len(),
            root_chars@ == args.directory@,
            root_len == root_chars@.len(),
            root_standard@ == root_with_slash(args.directory@),
            root@ == assembly(paths@.subrange(0, i as int), dir_details@, args).root,
            way_of(cursor@) == assembly(paths@.subrange(0, i as int), dir_details@, args).cursor,
            last_parent@ == assembly(
                paths@.subrange(0, i as int),
                dir_details@,
                args,
            ).last_parent,
        decreases paths.len() - i,
    {
        proof {
            let next = paths@.subrange(0, i + 1);
            assert(next.drop_last() =~= paths@.subrange(0, i as int));
            assert(next.last() == paths@[i as int]);
        }
        let leaf = paths[i].clone();
        let leaf_chars = chars_of(leaf.relative_path.as_str());
        let from = if chars_start_with(&leaf_chars, &root_chars) {
            root_len
        } else {
            0
        };
        let mut chain = split_segments(leaf.relative_path.as_str(), from);
        proof {
            let text = leaf.relative_path@;
            assert(text.subrange(0, text.len() as int) =~= text);
        }
        if chain.len() > 0 {
            let ghost all = chain@;
            chain.pop();
            assert(string_views(chain@) =~= string_views(all).drop_last());
        }
        assert(string_views(chain@) == parent_chain(leaf.relative_path@, args.directory@));
        let parent = if chain.len() > 0 {
            assert(string_views(chain@).last() == chain@[chain@.len() - 1]@);
            chain[chain.len() - 1].clone()
        } else {
            String::new()
        };
        if str_equal(last_parent.as_str(), parent.as_str()) {
            place_along(&mut root, &cursor, 0, Tree::from_leaf(leaf));
        } else {
            cursor = Vec::new();
            assert(way_of(cursor@) =~= Seq::<int>::empty());
            let ghost before = root@;
            place(
                &mut root,
                &chain,
                0,
                root_standard.as_str(),
                Tree::from_leaf(leaf),
                dir_details,
                args,
                &mut cursor,
            );
            assert(way_of(cursor@) =~= trail(before, string_views(chain@), 0));
            last_parent = parent;
        }
        i = i + 1;
    }
    assert(paths@.subrange(0, i as int) =~= paths@);
    root
}

proof fn lemma_placed_name(
    node: TreeModel,
    chain: Seq<Seq<char>>,
    k: int,
    leaf: TreeModel,
    table: Seq<DirDetail>,
    args: &RippyArgs,
)
    ensures
        placed(node, chain, k, leaf, table, args).name == node.name,
    decreases chain.len() - k,
{
}

/// Placing a leaf keeps a tree well formed.
pub proof fn lemma_placed_wf(
    node: TreeModel,
    chain: Seq<Seq<char>>,
    k: int,
    leaf: TreeModel,
    table: Seq<DirDetail>,
    args: &RippyArgs,
)
    requires
        0 <= k,
        node.wf(),
        leaf.wf(),
    ensures
        placed(node, chain, k, leaf, table, args).wf(),
    decreases chain.len() - k,
{
    if k >= chain.len() {
        lemma_with_child_wf(node.children, leaf);
    } else {
        let at = position(node.children, chain[k]);
        lemma_position_found(node.children, chain[k]);
        let path = dir_path(args.directory@, chain, k);
        if at < node.children.len() {
            lemma_all_wf_member(node.children, at);
            let below = placed(node.children[at], chain, k + 1, leaf, table, args);
            lemma_placed_wf(node.children[at], chain, k + 1, leaf, table, args);
            lemma_placed_name(node.children[at], chain, k + 1, leaf, table, args);
            let grown = node.children.update(at, below);
            assert forall|i: int| 0 <= i < grown.len() implies (#[trigger] grown[i]).wf() by {
                if i != at {
                    lemma_all_wf_member(node.children, i);
                }
            }
            lemma_all_wf_from_members(grown);
            assert forall|i: int, j: int| 0 <= i < j < grown.len() implies (#[trigger] grown[i]).name
                != (#[trigger] grown[j]).name by {
                assert(grown[i].name == node.children[i].name);
                assert(grown[j].name == node.children[j].name);
            }
        } else {
            let fresh = dir_model(chain[k], path, detail_for(table, path), args);
            assert(fresh.wf());
            let below = placed(fresh, chain, k + 1, leaf, table, args);
            lemma_placed_wf(fresh, chain, k + 1, leaf, table, args);
            lemma_placed_name(fresh, chain, k + 1, leaf, table, args);
            let grown = node.children.push(below);
            assert forall|i: int| 0 <= i < grown.len() implies (#[trigger] grown[i]).wf() by {
                if i < node.children.len() {
                    lemma_all_wf_member(node.children, i);
                }
            }
            lemma_all_wf_from_members(grown);
            assert forall|i: int, j: int| 0 <= i < j < grown.len() implies (#[trigger] grown[i]).name
                != (#[trigger] grown[j]).name by {
                assert(grown[i] == node.children[i]);
                if j < node.children.len() {
                    assert(grown[j] == node.children[j]);
                }
            }
        }
    }
}

/// Placing a leaf along a remembered way keeps a tree well formed.
pub proof fn lemma_placed_along_wf(node: TreeModel, way: Seq<int>, k: int, leaf: TreeModel)
    requires
        0 <= k,
        node.wf(),
        leaf.wf(),
    ensures
        placed_along(node, way, k, leaf).wf(),
        placed_along(node, way, k, leaf).name == node.name,
    decreases way.len() - k,
{
    if k >= way.len() {
        lemma_with_child_wf(node.children, leaf);
    } else if 0 <= way[k] < node.children.len() {
        let at = way[k];
        lemma_all_wf_member(node.children, at);
        lemma_placed_along_wf(node.children[at], way, k + 1, leaf);
        let below = placed_along(node.children[at], way, k + 1, leaf);
        let grown = node.children.update(at, below);
        assert forall|i: int| 0 <= i < grown.len() implies (#[trigger] grown[i]).wf() by {
            if i != at {
                lemma_all_wf_member(node.children, i);
            }
        }
        lemma_all_wf_from_members(grown);
        assert forall|i: int, j: int| 0 <= i < j < grown.len() implies (#[trigger] grown[i]).name
            != (#[trigger] grown[j]).name by {
            assert(grown[i].name == node.children[i].name);
            assert(grown[j].name == node.children[j].name);
        }
    }
}

/// The tree assembled from any list of leaves is well formed: in every
/// node the children go by distinct names.
pub proof fn lemma_assembly_wf(leaves: Seq<TreeLeaf>, table: Seq<DirDetail>, args: &RippyArgs)
    ensures
        assembly(leaves, table, args).root.wf(),
    decreases leaves.len(),
{
    if leaves.len() > 0 {
        let before = assembly(leaves.drop_last(), table, args);
        lemma_assembly_wf(leaves.drop_last(), table, args);
        let leaf = leaves.last();
        let chain = parent_chain(leaf.relative_path@, args.directory@);
        assert(leaf_model(leaf).wf());
        lemma_placed_along_wf(before.root, before.cursor, 0, leaf_model(leaf));
        lemma_placed_wf(before.root, chain, 0, leaf_model(leaf), table, args);
    }
}

/// How many levels of nodes lie below a node.
pub open spec fn height(node: TreeModel) -> nat
    decreases node,
{
    tallest(node.children)
}

/// One more than the greatest height among `nodes`; zero for no nodes.
pub open spec fn tallest(nodes: Seq<TreeModel>) -> nat
    decreases nodes,
{
    if nodes.len() == 0 {
        0
    } else {
        let rest = tallest(nodes.drop_last());
        if height(nodes.last()) + 1 > rest {
            height(nodes.last()) + 1
        } else {
            rest
        }
    }
}

proof fn lemma_tallest_bound(nodes: Seq<TreeModel>, bound: nat)
    requires
        forall|i: int| 0 <= i < nodes.len() ==> height(#[trigger] nodes[i]) + 1 <= bound,
    ensures
        tallest(nodes) <= bound,
    decreases nodes.len(),
{
    if nodes.len() > 0 {
        assert forall|i: int| 0 <= i < nodes.drop_last().len() implies height(
            #[trigger] nodes.drop_last()[i],
        ) + 1 <= bound by {
            assert(nodes.drop_last()[i] == nodes[i]);
        }
        lemma_tallest_bound(nodes.drop_last(), bound);
    }
}

proof fn lemma_tallest_member(nodes: Seq<TreeModel>, i: int)
    requires
        0 <= i < nodes.len(),
    ensures
        height(nodes[i]) + 1 <= tallest(nodes),
    decreases nodes.len(),
{
    if i < nodes.len() - 1 {
        lemma_tallest_member(nodes.drop_last(), i);
    }
}

proof fn lemma_with_child_height(children: Seq<TreeModel>, child: TreeModel, bound: nat)
    requires
        tallest(children) <= bound,
        height(child) + 1 <= bound,
    ensures
        tallest(with_child(children, child)) <= bound,
{
    let grown = with_child(children, child);
    lemma_position_found(children, child.name);
    assert forall|i: int| 0 <= i < grown.len() implies height(#[trigger] grown[i]) + 1
        <= bound by {
        if i < children.len() && grown[i] == children[i] {
            lemma_tallest_member(children, i);
        }
    }
    lemma_tallest_bound(grown, bound);
}

proof fn lemma_placed_height(
    node: TreeModel,
    chain: Seq<Seq<char>>,
    k: int,
    leaf: TreeModel,
    table: Seq<DirDetail>,
    args: &RippyArgs,
    bound: nat,
)
    requires
        0 <= k <= chain.len(),
        height(leaf) == 0,
        height(node) <= bound,
        chain.len() - k + 1 <= bound,
    ensures
        height(placed(node, chain, k, leaf, table, args)) <= bound,
    decreases chain.len() - k,
{
    if k >= chain.len() {
        lemma_with_child_height(node.children, leaf, bound);
    } else {
        let at = position(node.children, chain[k]);
        lemma_position_found(node.children, chain[k]);
        let path = dir_path(args.directory@, chain, k);
        let inner = (bound - 1) as nat;
        if at < node.children.len() {
            lemma_tallest_member(node.children, at);
            lemma_placed_height(node.children[at], chain, k + 1, leaf, table, args, inner);
            let below = placed(node.children[at], chain, k + 1, leaf, table, args);
            let grown = node.children.update(at, below);
            assert forall|i: int| 0 <= i < grown.len() implies height(#[trigger] grown[i]) + 1
                <= bound by {
                if i != at {
                    lemma_tallest_member(node.children, i);
                }
            }
            lemma_tallest_bound(grown, bound);
        } else {
            let fresh = dir_model(chain[k], path, detail_for(table, path), args);
            assert(height(fresh) == 0);
            lemma_placed_height(fresh, chain, k + 1, leaf, table, args, inner);
            let below = placed(fresh, chain, k + 1, leaf, table, args);
            let grown = node.children.push(below);
            assert forall|i: int| 0 <= i < grown.len() implies height(#[trigger] grown[i]) + 1
                <= bound by {
                if i < node.children.len() {
                    lemma_tallest_member(node.children, i);
                }
            }
            lemma_tallest_bound(grown, bound);
        }
    }
}

proof fn lemma_placed_along_height(
    node: TreeModel,
    way: Seq<int>,
    k: int,
    leaf: TreeModel,
    bound: nat,
)
    requires
        0 <= k <= way.len(),
        height(leaf) == 0,
        height(node) <= bound,
        way.len() - k + 1 <= bound,
    ensures
        height(placed_along(node, way, k, leaf)) <= bound,
    decreases way.len() - k,
{
    if k >= way.len() {
        lemma_with_child_height(node.children, leaf, bound);
    } else if 0 <= way[k] < node.children.len() {
        let at = way[k];
        let inner = (bound - 1) as nat;
        lemma_tallest_member(node.children, at);
        lemma_placed_along_height(node.children[at], way, k + 1, leaf, inner);
        let below = placed_along(node.children[at], way, k + 1, leaf);
        let grown = node.children.update(at, below);
        assert forall|i: int| 0 <= i < grown.len() implies height(#[trigger] grown[i]) + 1
            <= bound by {
            if i != at {
                lemma_tallest_member(node.children, i);
            }
        }
        lemma_tallest_bound(grown, bound);
    }
}

proof fn lemma_trail_len(node: TreeModel, chain: Seq<Seq<char>>, k: int)
    requires
        0 <= k <= chain.len(),
    ensures
        trail(node, chain, k).len() == chain.len() - k,
    decreases chain.len() - k,
{
    if k < chain.len() {
        let at = position(node.children, chain[k]);
        if at < node.children.len() {
            lemma_trail_len(node.children[at], chain, k + 1);
        } else {
            lemma_trail_len(TreeModel { children: Seq::empty(), ..node }, chain, k + 1);
        }
    }
}

/// No node of an assembled tree lies deeper below the root than the leaves
/// do: where every leaf lies at most `depth` levels below the search root,
/// the tree is at most `depth` levels high.
pub proof fn lemma_assembly_height(
    leaves: Seq<TreeLeaf>,
    table: Seq<DirDetail>,
    args: &RippyArgs,
    depth: nat,
)
    requires
        forall|i: int|
            0 <= i < leaves.len() ==> parent_chain(
                (#[trigger] leaves[i]).relative_path@,
                args.directory@,
            ).len() < depth,
    ensures
        height(assembly(leaves, table, args).root) <= depth,
        assembly(leaves, table, args).cursor.len() < depth || leaves.len() == 0,
    decreases leaves.len(),
{
    if leaves.len() > 0 {
        let rest = leaves.drop_last();
        assert forall|i: int| 0 <= i < rest.len() implies parent_chain(
            (#[trigger] rest[i]).relative_path@,
            args.directory@,
        ).len() < depth by {
            assert(rest[i] == leaves[i]);
        }
        lemma_assembly_height(rest, table, args, depth);
        let before = assembly(rest, table, args);
        let leaf = leaves.last();
        let chain = parent_chain(leaf.relative_path@, args.directory@);
        assert(height(leaf_model(leaf)) == 0);
        lemma_placed_along_height(before.root, before.cursor, 0, leaf_model(leaf), depth);
        lemma_placed_height(before.root, chain, 0, leaf_model(leaf), table, args, depth);
        lemma_trail_len(before.root, chain, 0);
    }
}

proof fn lemma_dir_path_front(root: Seq<char>, chain: Seq<Seq<char>>, k: int) -> (front: Seq<char>)
    requires
        0 <= k < chain.len(),
    ensures
        dir_path(root, chain, k) == front + chain[k],
        front.len() > 0,
        front.last() == '/',
    decreases k,
{
    if k <= 0 {
        let front = root_with_slash(root);
        if has_suffix(root, seq!['/']) {
            assert(root.subrange(root.len() - 1, root.len() as int)[0] == root.last());
        }
        front
    } else {
        let front = dir_path(root, chain, k - 1) + seq!['/'];
        front
    }
}

/// The directory nodes that the assembly makes up are the nodes that
/// `Tree::from_dir` makes for their paths: the name under which a directory
/// is reached is the last segment of its path.
pub proof fn lemma_made_up_nodes(
    relative_path: Seq<char>,
    k: int,
    metadata: Option<FileMetadata>,
    args: &RippyArgs,
)
    requires
        0 <= k < parent_chain(relative_path, args.directory@).len(),
    ensures
        ({
            let chain = parent_chain(relative_path, args.directory@);
            let path = dir_path(args.directory@, chain, k);
            dir_model(chain[k], path, metadata, args) == dir_model(
                last_segment(path),
                path,
                metadata,
                args,
            )
        }),
{
    let root = args.directory@;
    let chain = parent_chain(relative_path, root);
    let rest = if has_prefix(relative_path, root) {
        relative_path.subrange(root.len() as int, relative_path.len() as int)
    } else {
        relative_path
    };
    assert(chain[k] == segments(rest)[k]);
    lemma_segments_are_names(rest, k);
    let front = lemma_dir_path_front(root, chain, k);
    lemma_last_segment(front, chain[k]);
}

/// The node that the names of `chain`, from the `k`-th on, lead to from
/// `node`, each name taken as the name of a child; `None` where a name is
/// that of no child.
pub open spec fn reached(node: TreeModel, chain: Seq<Seq<char>>, k: int) -> Option<TreeModel>
    decreases chain.len() - k,
{
    if k >= chain.len() {
        Some(node)
    } else {
        let at = position(node.children, chain[k]);
        if 0 <= k && at < node.children.len() {
            reached(node.children[at], chain, k + 1)
        } else {
            None
        }
    }
}

/// Whether `leaf` is the child of `node` that goes by its name.
pub open spec fn has_child(node: TreeModel, leaf: TreeModel) -> bool {
    position(node.children, leaf.name) < node.children.len() && node.children[position(
        node.children,
        leaf.name,
    )] == leaf
}

proof fn lemma_with_child_found(children: Seq<TreeModel>, child: TreeModel)
    ensures
        position(with_child(children, child), child.name) == position(children, child.name),
        position(children, child.name) < with_child(children, child).len(),
        with_child(children, child)[position(children, child.name)] == child,
{
    let at = position(children, child.name);
    lemma_position_found(children, child.name);
    let grown = with_child(children, child);
    assert forall|j: int| 0 <= j < at implies (#[trigger] grown[j]).name != child.name by {
        assert(grown[j] == children[j]);
    }
    lemma_position(grown, child.name, at);
}

/// A leaf that was placed is found where its own path leads: the names of
/// the directories above it lead from the node to a directory, and the leaf
/// is the child of that directory that goes by the leaf's name.
pub proof fn lemma_placed_reaches(
    node: TreeModel,
    chain: Seq<Seq<char>>,
    k: int,
    leaf: TreeModel,
    table: Seq<DirDetail>,
    args: &RippyArgs,
)
    requires
        0 <= k <= chain.len(),
    ensures
        reached(placed(node, chain, k, leaf, table, args), chain, k) matches Some(dir)
            && has_child(dir, leaf),
    decreases chain.len() - k,
{
    if k >= chain.len() {
        lemma_with_child_found(node.children, leaf);
    } else {
        let at = position(node.children, chain[k]);
        lemma_position_found(node.children, chain[k]);
        let path = dir_path(args.directory@, chain, k);
        let start = if at < node.children.len() {
            node.children[at]
        } else {
            dir_model(chain[k], path, detail_for(table, path), args)
        };
        let below = placed(start, chain, k + 1, leaf, table, args);
        lemma_placed_name(start, chain, k + 1, leaf, table, args);
        lemma_placed_reaches(start, chain, k + 1, leaf, table, args);
        let grown = placed(node, chain, k, leaf, table, args).children;
        assert(grown[at] == below);
        assert forall|j: int| 0 <= j < at implies (#[trigger] grown[j]).name != chain[k] by {
            assert(grown[j] == node.children[j]);
        }
        lemma_position(grown, chain[k], at);
    }
}

/// The leaf that comes last is found where its own path leads, where its
/// directory does not go by the name remembered from the leaf before it.
pub proof fn lemma_last_leaf_reached(leaves: Seq<TreeLeaf>, table: Seq<DirDetail>, args: &RippyArgs)
    requires
        leaves.len() > 0,
        ({
            let chain = parent_chain(leaves.last().relative_path@, args.directory@);
            assembly(leaves.drop_last(), table, args).last_parent != if chain.len() > 0 {
                chain.last()
            } else {
                Seq::<char>::empty()
            }
        }),
    ensures
        reached(
            assembly(leaves, table, args).root,
            parent_chain(leaves.last().relative_path@, args.directory@),
            0,
        ) matches Some(dir) && has_child(dir, leaf_model(leaves.last())),
{
    let before = assembly(leaves.drop_last(), table, args);
    let chain = parent_chain(leaves.last().relative_path@, args.directory@);
    lemma_placed_reaches(before.root, chain, 0, leaf_model(leaves.last()), table, args);
}

} // verus!
