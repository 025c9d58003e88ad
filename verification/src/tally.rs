//! What the listing counts, held against what a count of the tree finds.

use vstd::prelude::*;
use crate::args::RippyArgs;
use crate::arrange::{
    arranged, file_count, kept_from, lemma_arranged_weights, lemma_kept_members, lemma_kept_totals,
    lemma_sorted_weights, lemma_weights_member, marker, marker_label, unseen, weight, weights,
};
use crate::render::{child_prefix, deeper, enumeration_of, rendered, rendered_upto};
use crate::sort::{
    key_order, lemma_sorted_members, lemma_sorted_same_nodes, lemma_sorted_totals,
    lemma_totals_insert, sorted_by, sorted_with, NodeOrder,
};
use crate::tree::{counted_dirs, dirs_in, files_in, position, EntryType, TreeModel};

verus! {

/// Whether no directory of the subtree has more files than may be shown.
pub open spec fn never_cut(node: TreeModel, args: &RippyArgs) -> bool
    decreases node,
{
    file_count(node.children) <= args.max_files && none_cut(node.children, args)
}

/// Whether no directory in `nodes` or below them has more files than may be
/// shown.
pub open spec fn none_cut(nodes: Seq<TreeModel>, args: &RippyArgs) -> bool
    decreases nodes,
{
    nodes.len() > 0 ==> none_cut(nodes.drop_last(), args) && never_cut(nodes.last(), args)
}

proof fn lemma_none_cut_member(nodes: Seq<TreeModel>, i: int, args: &RippyArgs)
    requires
        none_cut(nodes, args),
        0 <= i < nodes.len(),
    ensures
        never_cut(nodes[i], args),
    decreases nodes.len(),
{
    if i < nodes.len() - 1 {
        lemma_none_cut_member(nodes.drop_last(), i, args);
    }
}

proof fn lemma_totals_upto(nodes: Seq<TreeModel>, n: int)
    requires
        0 < n <= nodes.len(),
    ensures
        files_in(nodes.subrange(0, n)) == files_in(
            nodes.subrange(0, n - 1),
        ) + nodes[n - 1].file_total(),
        dirs_in(nodes.subrange(0, n)) == dirs_in(
            nodes.subrange(0, n - 1),
        ) + nodes[n - 1].dir_total(),
{
    assert(nodes.subrange(0, n).drop_last() =~= nodes.subrange(0, n - 1));
    assert(nodes.subrange(0, n).last() == nodes[n - 1]);
}

/// Where no directory is cut, showing a node below the root counts every
/// directory and every file of its subtree once, in whatever order the
/// children are shown.
pub proof fn lemma_shown_counts(
    node: TreeModel,
    enumeration: Seq<char>,
    depth: u32,
    prefix: Seq<char>,
    is_last: bool,
    args: &RippyArgs,
)
    requires
        never_cut(node, args),
    ensures
        rendered(node, enumeration, depth, prefix, is_last, args).files + (if depth == 0
            && node.entry_type == EntryType::File {
            1nat
        } else {
            0nat
        }) == node.file_total(),
        rendered(node, enumeration, depth, prefix, is_last, args).dirs + (if depth == 0
            && node.entry_type == EntryType::Directory {
            1nat
        } else {
            0nat
        }) == node.dir_total(),
    decreases weight(node), 0nat,
{
    let kids = arranged(node.children, args);
    let sorted = sorted_by(node.children, args.sort_by);
    lemma_sorted_weights(node.children, key_order(args.sort_by));
    lemma_sorted_totals(node.children, key_order(args.sort_by));
    lemma_arranged_weights(node.children, args);
    assert(kids == sorted);
    assert(unseen(node.children, args) == 0);
    assert forall|i: int| 0 <= i < sorted.len() implies never_cut(#[trigger] sorted[i], args) by {
        let j = lemma_sorted_members(node.children, key_order(args.sort_by), i);
        lemma_none_cut_member(node.children, j, args);
    }
    lemma_shown_counts_upto(
        kids,
        kids.len(),
        deeper(depth),
        child_prefix(prefix, depth, is_last, args),
        args,
    );
    assert(kids.subrange(0, kids.len() as int) =~= kids);
}

proof fn lemma_shown_counts_upto(
    kids: Seq<TreeModel>,
    n: nat,
    depth: u32,
    prefix: Seq<char>,
    args: &RippyArgs,
)
    requires
        n <= kids.len(),
        depth != 0,
        forall|i: int| 0 <= i < kids.len() ==> never_cut(#[trigger] kids[i], args),
    ensures
        rendered_upto(kids, n, depth, prefix, args).files == files_in(
            kids.subrange(0, n as int),
        ),
        rendered_upto(kids, n, depth, prefix, args).dirs == dirs_in(
            kids.subrange(0, n as int),
        ),
    decreases weights(kids), n,
{
    if n > 0 {
        lemma_shown_counts_upto(kids, (n - 1) as nat, depth, prefix, args);
        lemma_weights_member(kids, n - 1);
        lemma_shown_counts(
            kids[n - 1],
            enumeration_of((n - 1) as nat, kids.len(), args),
            depth,
            prefix,
            n == kids.len(),
            args,
        );
        lemma_totals_upto(kids, n as int);
    } else {
        assert(kids.subrange(0, 0) =~= Seq::<TreeModel>::empty());
    }
}

/// Whether the subtree is as a walk leaves it: no file has children, and in
/// no directory that is cut does a child that is shown go by the name of
/// the node that stands for the files left out.
pub open spec fn plain(node: TreeModel, args: &RippyArgs) -> bool
    decreases node,
{
    &&& node.entry_type == EntryType::File ==> node.children.len() == 0
    &&& file_count(node.children) > args.max_files ==> position(
        kept_from(sorted_by(node.children, args.sort_by), args.max_files as nat),
        marker_label((file_count(node.children) - args.max_files) as nat, args),
    ) == kept_from(sorted_by(node.children, args.sort_by), args.max_files as nat).len()
    &&& all_plain(node.children, args)
}

/// Whether every node of `nodes` is plain.
pub open spec fn all_plain(nodes: Seq<TreeModel>, args: &RippyArgs) -> bool
    decreases nodes,
{
    nodes.len() > 0 ==> all_plain(nodes.drop_last(), args) && plain(nodes.last(), args)
}

proof fn lemma_all_plain_member(nodes: Seq<TreeModel>, i: int, args: &RippyArgs)
    requires
        all_plain(nodes, args),
        0 <= i < nodes.len(),
    ensures
        plain(nodes[i], args),
    decreases nodes.len(),
{
    if i < nodes.len() - 1 {
        lemma_all_plain_member(nodes.drop_last(), i, args);
    }
}

/// In a plain tree, showing a node below the root counts every directory
/// and every file of its subtree once, whether directories are cut or not:
/// what is shown and reported is what a count of the tree finds.
pub proof fn lemma_shown_counts_plain(
    node: TreeModel,
    enumeration: Seq<char>,
    depth: u32,
    prefix: Seq<char>,
    is_last: bool,
    args: &RippyArgs,
)
    requires
        plain(node, args),
    ensures
        rendered(node, enumeration, depth, prefix, is_last, args).files + (if depth == 0
            && node.entry_type == EntryType::File {
            1nat
        } else {
            0nat
        }) == node.file_total(),
        rendered(node, enumeration, depth, prefix, is_last, args).dirs + (if depth == 0
            && node.entry_type == EntryType::Directory {
            1nat
        } else {
            0nat
        }) == node.dir_total(),
    decreases weight(node), 0nat,
{
    let order = key_order(args.sort_by);
    let kids = arranged(node.children, args);
    let sorted = sorted_by(node.children, args.sort_by);
    lemma_sorted_weights(node.children, order);
    lemma_sorted_totals(node.children, order);
    lemma_arranged_weights(node.children, args);
    assert forall|i: int| 0 <= i < sorted.len() implies plain(#[trigger] sorted[i], args) by {
        let j = lemma_sorted_members(node.children, order, i);
        lemma_all_plain_member(node.children, j, args);
    }
    let files = file_count(sorted);
    if files > args.max_files {
        let kept = kept_from(sorted, args.max_files as nat);
        let mark = marker((files - args.max_files) as nat, args);
        assert(kids == kept.push(mark));
        assert(kids.drop_last() =~= kept);
        assert forall|i: int| 0 <= i < kids.len() implies plain(#[trigger] kids[i], args) by {
            if i < kept.len() {
                let j = lemma_kept_members(sorted, args.max_files as nat, i);
            } else {
                assert(kids[i] == mark);
                assert(file_count(mark.children) == 0);
            }
        }
        lemma_kept_totals(sorted, args.max_files as nat);
        assert(mark.file_total() == 1) by {
            assert(files_in(mark.children) == 0);
        }
        assert(mark.dir_total() == 0) by {
            assert(dirs_in(mark.children) == 0);
        }
    }
    lemma_shown_counts_plain_upto(
        kids,
        kids.len(),
        deeper(depth),
        child_prefix(prefix, depth, is_last, args),
        args,
    );
    assert(kids.subrange(0, kids.len() as int) =~= kids);
}

proof fn lemma_shown_counts_plain_upto(
    kids: Seq<TreeModel>,
    n: nat,
    depth: u32,
    prefix: Seq<char>,
    args: &RippyArgs,
)
    requires
        n <= kids.len(),
        depth != 0,
        forall|i: int| 0 <= i < kids.len() ==> plain(#[trigger] kids[i], args),
    ensures
        rendered_upto(kids, n, depth, prefix, args).files == files_in(
            kids.subrange(0, n as int),
        ),
        rendered_upto(kids, n, depth, prefix, args).dirs == dirs_in(
            kids.subrange(0, n as int),
        ),
    decreases weights(kids), n,
{
    if n > 0 {
        lemma_shown_counts_plain_upto(kids, (n - 1) as nat, depth, prefix, args);
        lemma_weights_member(kids, n - 1);
        lemma_shown_counts_plain(
            kids[n - 1],
            enumeration_of((n - 1) as nat, kids.len(), args),
            depth,
            prefix,
            n == kids.len(),
            args,
        );
        lemma_totals_upto(kids, n as int);
    } else {
        assert(kids.subrange(0, 0) =~= Seq::<TreeModel>::empty());
    }
}

/// A count that begins at a directory adds the directories and the files
/// that lie below it, and leaves the directory itself out.
pub proof fn lemma_count_leaves_root_out(tree: TreeModel)
    requires
        tree.entry_type == EntryType::Directory,
    ensures
        counted_dirs(tree, true) == dirs_in(tree.children),
        tree.file_total() == files_in(tree.children),
{
}

/// Whether two lists hold the same nodes, each as often in the one as in
/// the other.
pub open spec fn same_nodes(c: Seq<TreeModel>, d: Seq<TreeModel>) -> bool {
    c.to_multiset() == d.to_multiset()
}

/// Whether `b` is `a` with the children of any of its nodes in another
/// order: the two are of one kind, and the children of `b` are the children
/// of `a`, each with its own children in another order, put in another
/// order.
pub open spec fn rearranged(a: TreeModel, b: TreeModel) -> bool
    decreases a,
{
    a.entry_type == b.entry_type && exists|c: Seq<TreeModel>|
        rearranged_each(a.children, c) && #[trigger] same_nodes(c, b.children)
}

/// Whether every node of `ys` is the node of `xs` in its place, rearranged.
pub open spec fn rearranged_each(xs: Seq<TreeModel>, ys: Seq<TreeModel>) -> bool
    decreases xs,
{
    xs.len() == ys.len() && (xs.len() > 0 ==> rearranged_each(xs.drop_last(), ys.drop_last())
        && rearranged(xs.last(), ys.last()))
}

proof fn lemma_same_nodes_same_totals(a: Seq<TreeModel>, b: Seq<TreeModel>)
    requires
        a.to_multiset() == b.to_multiset(),
    ensures
        a.len() == b.len(),
        files_in(a) == files_in(b),
        dirs_in(a) == dirs_in(b),
    decreases a.len(),
{
    vstd::seq_lib::to_multiset_len(a);
    vstd::seq_lib::to_multiset_len(b);
    if a.len() > 0 {
        let x = a.last();
        let rest = a.drop_last();
        assert(rest.push(x) =~= a);
        vstd::seq_lib::to_multiset_build(rest, x);
        vstd::seq_lib::to_multiset_contains(a, x);
        vstd::seq_lib::to_multiset_contains(b, x);
        assert(a.contains(x)) by {
            assert(a[a.len() - 1] == x);
        }
        let k = choose|k: int| 0 <= k < b.len() && b[k] == x;
        let other = b.remove(k);
        vstd::seq_lib::to_multiset_remove(b, k);
        assert(other.to_multiset() =~= rest.to_multiset());
        lemma_same_nodes_same_totals(rest, other);
        assert(other.insert(k, x) =~= b);
        lemma_totals_insert(other, k, x);
    }
}

proof fn lemma_rearranged_each_totals(xs: Seq<TreeModel>, ys: Seq<TreeModel>)
    requires
        rearranged_each(xs, ys),
    ensures
        files_in(xs) == files_in(ys),
        dirs_in(xs) == dirs_in(ys),
    decreases xs, 0nat,
{
    if xs.len() > 0 {
        lemma_rearranged_each_totals(xs.drop_last(), ys.drop_last());
        lemma_rearranged_totals(xs.last(), ys.last());
    }
}

/// A count does not depend on the order of the children: a tree and the
/// same tree with the children of any of its nodes in another order hold as
/// many directories and as many files.
pub proof fn lemma_rearranged_totals(a: TreeModel, b: TreeModel)
    requires
        rearranged(a, b),
    ensures
        a.file_total() == b.file_total(),
        a.dir_total() == b.dir_total(),
        forall|is_first: bool| counted_dirs(a, is_first) == counted_dirs(b, is_first),
    decreases a, 1nat,
{
    let c = choose|c: Seq<TreeModel>|
        rearranged_each(a.children, c) && #[trigger] same_nodes(c, b.children);
    lemma_rearranged_each_totals(a.children, c);
    lemma_same_nodes_same_totals(c, b.children);
}

proof fn lemma_rearranged_each_same(xs: Seq<TreeModel>)
    ensures
        rearranged_each(xs, xs),
    decreases xs, 0nat,
{
    if xs.len() > 0 {
        lemma_rearranged_each_same(xs.drop_last());
        lemma_rearranged_same(xs.last());
    }
}

proof fn lemma_rearranged_same(a: TreeModel)
    ensures
        rearranged(a, a),
    decreases a, 1nat,
{
    lemma_rearranged_each_same(a.children);
    assert(same_nodes(a.children, a.children));
}

/// A node with its children sorted is the node with its children in
/// another order.
pub proof fn lemma_sorted_is_rearranged(node: TreeModel, order: NodeOrder)
    ensures
        rearranged(node, TreeModel { children: sorted_with(node.children, order), ..node }),
{
    let sorted = TreeModel { children: sorted_with(node.children, order), ..node };
    lemma_rearranged_each_same(node.children);
    lemma_sorted_same_nodes(node.children, order);
    assert(rearranged_each(node.children, node.children) && same_nodes(
        node.children,
        sorted.children,
    ));
}

} // verus!
