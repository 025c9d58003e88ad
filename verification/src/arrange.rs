//! The children of a directory as they are shown: sorted, and cut to the
//! number of files that may be shown.

use vstd::prelude::*;
use vstd::string::*;
use crate::args::RippyArgs;
use crate::sort::{
    key_order, lemma_slot_bounds, lemma_sorted_len, lemma_sorted_members, slot_with, sort_nodes,
    sorted_by, sorted_with, NodeOrder,
};
use crate::tcolor::{ansi_color, color_view, styled};
use crate::text::{decimal, usize_to_string};
use crate::tree::{
    all_wf, dirs_in, files_in, insert_child, lemma_all_wf_from_members, lemma_all_wf_member,
    lemma_models_of, lemma_models_push, lemma_with_child_wf, models_of, names_distinct, position,
    tree_model, with_child, EntryType, Tree, TreeModel,
};

verus! {

/// The number of nodes in a subtree.
pub open spec fn weight(node: TreeModel) -> nat
    decreases node,
{
    1 + weights(node.children)
}

/// The number of nodes in `nodes` and below them.
pub open spec fn weights(nodes: Seq<TreeModel>) -> nat
    decreases nodes,
{
    if nodes.len() == 0 {
        0
    } else {
        weights(nodes.drop_last()) + weight(nodes.last())
    }
}

/// The number of file nodes among `nodes` themselves.
pub open spec fn file_count(nodes: Seq<TreeModel>) -> nat
    decreases nodes.len(),
{
    if nodes.len() == 0 {
        0
    } else {
        file_count(nodes.drop_last()) + if nodes.last().entry_type == EntryType::File {
            1nat
        } else {
            0nat
        }
    }
}

/// `nodes` without the files behind the first `limit` files; directories
/// all stay.
pub open spec fn kept_from(nodes: Seq<TreeModel>, limit: nat) -> Seq<TreeModel>
    decreases nodes.len(),
{
    if nodes.len() == 0 {
        Seq::empty()
    } else if nodes[0].entry_type != EntryType::File {
        seq![nodes[0]] + kept_from(nodes.drop_first(), limit)
    } else if limit > 0 {
        seq![nodes[0]] + kept_from(nodes.drop_first(), (limit - 1) as nat)
    } else {
        kept_from(nodes.drop_first(), 0)
    }
}

/// What the node is called that stands for `hidden` files left out.
pub open spec fn marker_label(hidden: nat, args: &RippyArgs) -> Seq<char> {
    styled(color_view(args.colors.detail), false, decimal(hidden) + " more ..."@)
}

/// The file node that stands for `hidden` files left out.
pub open spec fn marker(hidden: nat, args: &RippyArgs) -> TreeModel {
    TreeModel {
        display: marker_label(hidden, args),
        name: marker_label(hidden, args),
        path: None,
        entry_type: EntryType::File,
        last_modified: None,
        size: None,
        window: None,
        fmt_width: None,
        executable: false,
        children: Seq::empty(),
    }
}

/// The children of a directory as they are shown: in the order of the sort
/// key, and, where there are more files than may be shown, with the files
/// behind the first `max_files` left out and one node put in that tells how
/// many they were.
pub open spec fn arranged(children: Seq<TreeModel>, args: &RippyArgs) -> Seq<TreeModel> {
    let sorted = sorted_by(children, args.sort_by);
    let files = file_count(sorted);
    if files > args.max_files {
        with_child(
            kept_from(sorted, args.max_files as nat),
            marker((files - args.max_files) as nat, args),
        )
    } else {
        sorted
    }
}

/// How many files a directory reports beyond the nodes that are shown: the
/// files left out, less the one node that stands for them.
pub open spec fn unseen(children: Seq<TreeModel>, args: &RippyArgs) -> nat {
    let files = file_count(sorted_by(children, args.sort_by));
    if files > args.max_files {
        (files - args.max_files - 1) as nat
    } else {
        0
    }
}

proof fn lemma_weights_insert(nodes: Seq<TreeModel>, at: int, node: TreeModel)
    requires
        0 <= at <= nodes.len(),
    ensures
        weights(nodes.insert(at, node)) == weights(nodes) + weight(node),
        file_count(nodes.insert(at, node)) == file_count(nodes) + if node.entry_type
            == EntryType::File {
            1nat
        } else {
            0nat
        },
    decreases nodes.len(),
{
    let grown = nodes.insert(at, node);
    if at == nodes.len() {
        assert(grown.drop_last() =~= nodes);
    } else {
        assert(grown.drop_last() =~= nodes.drop_last().insert(at, node));
        assert(grown.last() == nodes.last());
        lemma_weights_insert(nodes.drop_last(), at, node);
    }
}

/// Sorting changes neither the number of nodes below a directory nor the
/// number of files among its children.
pub proof fn lemma_sorted_weights(nodes: Seq<TreeModel>, order: NodeOrder)
    ensures
        weights(sorted_with(nodes, order)) == weights(nodes),
        file_count(sorted_with(nodes, order)) == file_count(nodes),
    decreases nodes.len(),
{
    if nodes.len() > 0 {
        let sorted = sorted_with(nodes.drop_last(), order);
        lemma_sorted_weights(nodes.drop_last(), order);
        lemma_slot_bounds(sorted, nodes.last(), order);
        lemma_weights_insert(sorted, slot_with(sorted, nodes.last(), order), nodes.last());
    }
}

proof fn lemma_weights_front(nodes: Seq<TreeModel>)
    requires
        nodes.len() > 0,
    ensures
        weights(nodes) == weight(nodes[0]) + weights(nodes.drop_first()),
        file_count(nodes) == file_count(nodes.drop_first()) + if nodes[0].entry_type
            == EntryType::File {
            1nat
        } else {
            0nat
        },
    decreases nodes.len(),
{
    if nodes.len() > 1 {
        lemma_weights_front(nodes.drop_last());
        assert(nodes.drop_last().drop_first() =~= nodes.drop_first().drop_last());
        assert(nodes.drop_first().last() == nodes.last());
        assert(nodes.drop_last()[0] == nodes[0]);
    } else {
        assert(nodes.drop_last() =~= Seq::<TreeModel>::empty());
        assert(nodes.drop_first() =~= Seq::<TreeModel>::empty());
    }
}

proof fn lemma_weights_concat(a: Seq<TreeModel>, b: Seq<TreeModel>)
    ensures
        weights(a + b) == weights(a) + weights(b),
    decreases b.len(),
{
    if b.len() == 0 {
        assert(a + b =~= a);
    } else {
        assert((a + b).drop_last() =~= a + b.drop_last());
        assert((a + b).last() == b.last());
        lemma_weights_concat(a, b.drop_last());
    }
}

proof fn lemma_weight_positive(node: TreeModel)
    ensures
        weight(node) >= 1,
{
}

proof fn lemma_kept_weights(nodes: Seq<TreeModel>, limit: nat)
    ensures
        weights(kept_from(nodes, limit)) + (if file_count(nodes) > limit {
            file_count(nodes) - limit
        } else {
            0
        }) <= weights(nodes),
    decreases nodes.len(),
{
    if nodes.len() > 0 {
        lemma_weights_front(nodes);
        let rest = nodes.drop_first();
        if nodes[0].entry_type != EntryType::File {
            lemma_kept_weights(rest, limit);
            lemma_weights_concat(seq![nodes[0]], kept_from(rest, limit));
            lemma_weights_single(nodes[0]);
        } else if limit > 0 {
            lemma_kept_weights(rest, (limit - 1) as nat);
            lemma_weights_concat(seq![nodes[0]], kept_from(rest, (limit - 1) as nat));
            lemma_weights_single(nodes[0]);
        } else {
            lemma_kept_weights(rest, 0);
        }
    }
}

proof fn lemma_weights_single(node: TreeModel)
    ensures
        weights(seq![node]) == weight(node),
{
    let one = seq![node];
    assert(one.len() == 1);
    assert(one.last() == node);
    assert(one.drop_last() =~= Seq::<TreeModel>::empty());
    assert(weights(one.drop_last()) == 0);
}

proof fn lemma_weights_update(nodes: Seq<TreeModel>, at: int, node: TreeModel)
    requires
        0 <= at < nodes.len(),
    ensures
        weights(nodes.update(at, node)) + weight(nodes[at]) == weights(nodes) + weight(node),
    decreases nodes.len(),
{
    let changed = nodes.update(at, node);
    if at == nodes.len() - 1 {
        assert(changed.drop_last() =~= nodes.drop_last());
    } else {
        assert(changed.drop_last() =~= nodes.drop_last().update(at, node));
        lemma_weights_update(nodes.drop_last(), at, node);
    }
}

proof fn lemma_position_bounds(children: Seq<TreeModel>, name: Seq<char>)
    ensures
        0 <= position(children, name) <= children.len(),
    decreases children.len(),
{
    if children.len() > 0 && children[0].name != name {
        lemma_position_bounds(children.drop_first(), name);
    }
}

/// The children that are shown hold no more nodes than the children that
/// are there.
pub proof fn lemma_arranged_weights(children: Seq<TreeModel>, args: &RippyArgs)
    ensures
        weights(arranged(children, args)) <= weights(children),
{
    let sorted = sorted_by(children, args.sort_by);
    lemma_sorted_weights(children, key_order(args.sort_by));
    let files = file_count(sorted);
    if files > args.max_files {
        let kept = kept_from(sorted, args.max_files as nat);
        let mark = marker((files - args.max_files) as nat, args);
        lemma_kept_weights(sorted, args.max_files as nat);
        assert(weights(mark.children) == 0);
        assert(weight(mark) == 1);
        let at = position(kept, mark.name);
        lemma_position_bounds(kept, mark.name);
        if at < kept.len() {
            lemma_weights_update(kept, at, mark);
            lemma_weight_positive(kept[at]);
        } else {
            assert(kept.push(mark).drop_last() =~= kept);
        }
    }
}

pub proof fn lemma_weights_member(nodes: Seq<TreeModel>, i: int)
    requires
        0 <= i < nodes.len(),
    ensures
        weight(nodes[i]) <= weights(nodes),
    decreases nodes.len(),
{
    if i < nodes.len() - 1 {
        lemma_weights_member(nodes.drop_last(), i);
    }
}

fn count_files(children: &Vec<Tree>) -> (n: usize)
    ensures
        n == file_count(models_of(children@)),
{
    let ghost models = models_of(children@);
    let mut n: usize = 0;
    let mut i: usize = 0;
    proof {
        lemma_models_of(children@);
        assert(models.subrange(0, 0) =~= Seq::<TreeModel>::empty());
    }
    while i < children.len()
        invariant
            i <= children.len(),
            n <= i,
            models == models_of(children@),
            models.len() == children@.len(),
            forall|j: int| 0 <= j < models.len() ==> (#[trigger] models[j]) == tree_model(children@[j]),
            n == file_count(models.subrange(0, i as int)),
        decreases children.len() - i,
    {
        proof {
            assert(models.subrange(0, i + 1).drop_last() =~= models.subrange(0, i as int));
            assert(models.subrange(0, i + 1).last() == models[i as int]);
        }
        if children[i].entry_type == EntryType::File {
            n = n + 1;
        }
        i = i + 1;
    }
    assert(models.subrange(0, i as int) =~= models);
    n
}

/// Leaves out the files behind the first `limit`.
fn keep_first_files(children: &mut Vec<Tree>, limit: usize)
    ensures
        models_of(final(children)@) == kept_from(models_of(old(children)@), limit as nat),
{
    let ghost all = children@;
    let ghost models = models_of(all);
    let n = children.len();
    let mut stack: Vec<Tree> = Vec::new();
    let mut k: usize = 0;
    while k < n
        invariant
            k <= n,
            n == all.len(),
            children@.len() == n - k,
            stack@.len() == k,
            forall|j: int| 0 <= j < n - k ==> (#[trigger] children@[j]) == all[j],
            forall|j: int| 0 <= j < k ==> (#[trigger] stack@[j]) == all[n - 1 - j],
        decreases n - k,
    {
        let node = children.pop();
        match node {
            Some(node) => {
                stack.push(node);
            },
            None => {},
        }
        k = k + 1;
    }
    let mut left = limit;
    let mut i: usize = 0;
    proof {
        lemma_models_of(all);
        assert(children@ =~= Seq::<Tree>::empty());
        assert(models.subrange(0, n as int) =~= models);
    }
    while i < n
        invariant
            i <= n,
            n == all.len(),
            stack@.len() == n - i,
            forall|j: int| 0 <= j < n - i ==> (#[trigger] stack@[j]) == all[n - 1 - j],
            models == models_of(all),
            models.len() == n,
            forall|j: int| 0 <= j < n ==> (#[trigger] models[j]) == tree_model(all[j]),
            models_of(children@) + kept_from(models.subrange(i as int, n as int), left as nat)
                == kept_from(models, limit as nat),
        decreases n - i,
    {
        let ghost rest = models.subrange(i as int, n as int);
        proof {
            assert(rest[0] == models[i as int]);
            assert(rest.drop_first() =~= models.subrange(i + 1, n as int));
        }
        let node = stack.pop();
        match node {
            Some(node) => {
                assert(node == all[i as int]);
                let ghost done = children@;
                if node.entry_type != EntryType::File {
                    proof {
                        lemma_models_push(done, node);
                        assert(models_of(done).push(tree_model(node)) + kept_from(
                            rest.drop_first(),
                            left as nat,
                        ) =~= models_of(done) + (seq![rest[0]] + kept_from(
                            rest.drop_first(),
                            left as nat,
                        )));
                    }
                    children.push(node);
                } else if left > 0 {
                    proof {
                        lemma_models_push(done, node);
                        assert(models_of(done).push(tree_model(node)) + kept_from(
                            rest.drop_first(),
                            (left - 1) as nat,
                        ) =~= models_of(done) + (seq![rest[0]] + kept_from(
                            rest.drop_first(),
                            (left - 1) as nat,
                        )));
                    }
                    children.push(node);
                    left = left - 1;
                }
            },
            None => {},
        }
        i = i + 1;
    }
    assert(models.subrange(n as int, n as int) =~= Seq::<TreeModel>::empty());
    assert(models_of(children@) + Seq::<TreeModel>::empty() =~= models_of(children@));
}

fn marker_node(hidden: usize, args: &RippyArgs) -> (tree: Tree)
    ensures
        tree@ == marker(hidden as nat, args),
{
    let mut text = usize_to_string(hidden);
    text.append(" more ...");
    let label = ansi_color(args.colors.detail, false, text.as_str());
    Tree::new(label.clone(), label, None, EntryType::File, None, None, None, None)
}

/// Puts the children of a directory in the order and number in which they
/// are shown, and tells how many files the directory reports beyond them.
pub(crate) fn arrange_children(children: &mut Vec<Tree>, args: &RippyArgs) -> (extra: usize)
    ensures
        models_of(final(children)@) == arranged(models_of(old(children)@), args),
        extra == unseen(models_of(old(children)@), args),
{
    sort_nodes(children, args.sort_by);
    let files = count_files(children);
    if files > args.max_files {
        keep_first_files(children, args.max_files);
        insert_child(children, marker_node(files - args.max_files, args));
        files - args.max_files - 1
    } else {
        0
    }
}

proof fn lemma_kept_files(nodes: Seq<TreeModel>, limit: nat)
    ensures
        file_count(kept_from(nodes, limit)) == if file_count(nodes) > limit {
            limit
        } else {
            file_count(nodes)
        },
    decreases nodes.len(),
{
    if nodes.len() > 0 {
        lemma_weights_front(nodes);
        let rest = nodes.drop_first();
        if nodes[0].entry_type != EntryType::File {
            lemma_kept_files(rest, limit);
            let kept = seq![nodes[0]] + kept_from(rest, limit);
            lemma_weights_front(kept);
            assert(kept.drop_first() =~= kept_from(rest, limit));
        } else if limit > 0 {
            lemma_kept_files(rest, (limit - 1) as nat);
            let kept = seq![nodes[0]] + kept_from(rest, (limit - 1) as nat);
            lemma_weights_front(kept);
            assert(kept.drop_first() =~= kept_from(rest, (limit - 1) as nat));
        } else {
            lemma_kept_files(rest, 0);
        }
    }
}

/// Every node that is kept is one of the nodes that were there, and the
/// nodes kept stand in the order they had.
pub proof fn lemma_kept_members(nodes: Seq<TreeModel>, limit: nat, i: int) -> (j: int)
    requires
        0 <= i < kept_from(nodes, limit).len(),
    ensures
        i <= j < nodes.len(),
        kept_from(nodes, limit)[i] == nodes[j],
    decreases nodes.len(),
{
    let rest = nodes.drop_first();
    if nodes[0].entry_type != EntryType::File {
        if i == 0 {
            0
        } else {
            let j = lemma_kept_members(rest, limit, i - 1);
            j + 1
        }
    } else if limit > 0 {
        if i == 0 {
            0
        } else {
            let j = lemma_kept_members(rest, (limit - 1) as nat, i - 1);
            j + 1
        }
    } else {
        let j = lemma_kept_members(rest, 0, i);
        j + 1
    }
}

/// A directory with more files than may be shown is shown with exactly
/// `max_files` of its files, each of them one of its own, and one node behind
/// them that stands for the rest; and the files it reports are as many as it
/// has. This holds where none of the children shown goes by the name of the
/// node that is put in.
pub proof fn lemma_cut_directory(children: Seq<TreeModel>, args: &RippyArgs)
    requires
        file_count(children) > args.max_files,
        position(
            kept_from(sorted_by(children, args.sort_by), args.max_files as nat),
            marker_label((file_count(children) - args.max_files) as nat, args),
        ) == kept_from(sorted_by(children, args.sort_by), args.max_files as nat).len(),
    ensures
        ({
            let shown = arranged(children, args);
            let kept = kept_from(sorted_by(children, args.sort_by), args.max_files as nat);
            &&& shown == kept.push(marker((file_count(children) - args.max_files) as nat, args))
            &&& file_count(kept) == args.max_files
            &&& file_count(shown) == args.max_files + 1
            &&& file_count(shown) + unseen(children, args) == file_count(children)
            &&& forall|i: int|
                0 <= i < kept.len() ==> exists|j: int|
                    0 <= j < children.len() && (#[trigger] kept[i]) == children[j]
        }),
{
    let sorted = sorted_by(children, args.sort_by);
    let kept = kept_from(sorted, args.max_files as nat);
    let hidden = (file_count(children) - args.max_files) as nat;
    lemma_sorted_weights(children, key_order(args.sort_by));
    lemma_kept_files(sorted, args.max_files as nat);
    let shown = kept.push(marker(hidden, args));
    assert(shown.drop_last() =~= kept);
    assert forall|i: int| 0 <= i < kept.len() implies exists|j: int|
        0 <= j < children.len() && (#[trigger] kept[i]) == children[j] by {
        let at = lemma_kept_members(sorted, args.max_files as nat, i);
        let j = lemma_sorted_members(children, key_order(args.sort_by), at);
        assert(kept[i] == children[j]);
    }
}

proof fn lemma_sorted_wf(nodes: Seq<TreeModel>, order: NodeOrder)
    requires
        names_distinct(nodes),
        all_wf(nodes),
    ensures
        names_distinct(sorted_with(nodes, order)),
        all_wf(sorted_with(nodes, order)),
    decreases nodes.len(),
{
    let sorted = sorted_with(nodes, order);
    lemma_sorted_len(nodes, order);
    assert forall|i: int| 0 <= i < sorted.len() implies (#[trigger] sorted[i]).wf() by {
        let j = lemma_sorted_members(nodes, order, i);
        lemma_all_wf_member(nodes, j);
    }
    lemma_all_wf_from_members(sorted);
    if nodes.len() > 0 {
        let rest = nodes.drop_last();
        let inner = sorted_with(rest, order);
        assert(names_distinct(rest)) by {
            assert forall|i: int, j: int| 0 <= i < j < rest.len() implies (#[trigger] rest[i]).name
                != (#[trigger] rest[j]).name by {
                assert(rest[i] == nodes[i]);
                assert(rest[j] == nodes[j]);
            }
        }
        assert(all_wf(rest));
        lemma_sorted_wf(rest, order);
        lemma_sorted_len(rest, order);
        let at = slot_with(inner, nodes.last(), order);
        lemma_slot_bounds(inner, nodes.last(), order);
        assert forall|i: int| 0 <= i < inner.len() implies (#[trigger] inner[i]).name
            != nodes.last().name by {
            let j = lemma_sorted_members(rest, order, i);
            assert(rest[j] == nodes[j]);
        }
        assert forall|i: int, j: int| 0 <= i < j < sorted.len() implies (#[trigger] sorted[i]).name
            != (#[trigger] sorted[j]).name by {
            let a = if i < at {
                i
            } else {
                i - 1
            };
            let b = if j < at {
                j
            } else {
                j - 1
            };
            if i == at {
                assert(sorted[j] == inner[b]);
            } else if j == at {
                assert(sorted[i] == inner[a]);
            } else {
                assert(sorted[i] == inner[a]);
                assert(sorted[j] == inner[b]);
            }
        }
    }
}

proof fn lemma_kept_wf(nodes: Seq<TreeModel>, limit: nat)
    requires
        names_distinct(nodes),
        all_wf(nodes),
    ensures
        names_distinct(kept_from(nodes, limit)),
        all_wf(kept_from(nodes, limit)),
    decreases nodes.len(),
{
    let kept = kept_from(nodes, limit);
    assert forall|i: int| 0 <= i < kept.len() implies (#[trigger] kept[i]).wf() by {
        let j = lemma_kept_members(nodes, limit, i);
        lemma_all_wf_member(nodes, j);
    }
    lemma_all_wf_from_members(kept);
    if nodes.len() > 0 {
        let rest = nodes.drop_first();
        assert(names_distinct(rest)) by {
            assert forall|i: int, j: int| 0 <= i < j < rest.len() implies (#[trigger] rest[i]).name
                != (#[trigger] rest[j]).name by {
                assert(rest[i] == nodes[i + 1]);
                assert(rest[j] == nodes[j + 1]);
            }
        }
        assert forall|i: int| 0 <= i < rest.len() implies (#[trigger] rest[i]).wf() by {
            lemma_all_wf_member(nodes, i + 1);
        }
        lemma_all_wf_from_members(rest);
        let next: nat = if nodes[0].entry_type != EntryType::File {
            limit
        } else if limit > 0 {
            (limit - 1) as nat
        } else {
            0
        };
        lemma_kept_wf(rest, next);
        let inner = kept_from(rest, next);
        if nodes[0].entry_type != EntryType::File || limit > 0 {
            assert(kept =~= seq![nodes[0]] + inner);
            assert forall|i: int, j: int| 0 <= i < j < kept.len() implies (#[trigger] kept[i]).name
                != (#[trigger] kept[j]).name by {
                assert(kept[j] == inner[j - 1]);
                if i == 0 {
                    let at = lemma_kept_members(rest, next, j - 1);
                    assert(rest[at] == nodes[at + 1]);
                } else {
                    assert(kept[i] == inner[i - 1]);
                }
            }
        }
    }
}

/// The children that are shown go by distinct names and are well formed, as
/// the children that are there.
pub proof fn lemma_arranged_wf(children: Seq<TreeModel>, args: &RippyArgs)
    requires
        names_distinct(children),
        all_wf(children),
    ensures
        names_distinct(arranged(children, args)),
        all_wf(arranged(children, args)),
{
    let sorted = sorted_by(children, args.sort_by);
    lemma_sorted_wf(children, key_order(args.sort_by));
    let files = file_count(sorted);
    if files > args.max_files {
        let kept = kept_from(sorted, args.max_files as nat);
        lemma_kept_wf(sorted, args.max_files as nat);
        let mark = marker((files - args.max_files) as nat, args);
        assert(mark.wf());
        lemma_with_child_wf(kept, mark);
    }
}

proof fn lemma_totals_front(nodes: Seq<TreeModel>)
    requires
        nodes.len() > 0,
    ensures
        files_in(nodes) == nodes[0].file_total() + files_in(
            nodes.drop_first(),
        ),
        dirs_in(nodes) == nodes[0].dir_total() + dirs_in(
            nodes.drop_first(),
        ),
    decreases nodes.len(),
{
    if nodes.len() > 1 {
        lemma_totals_front(nodes.drop_last());
        assert(nodes.drop_last().drop_first() =~= nodes.drop_first().drop_last());
        assert(nodes.drop_first().last() == nodes.last());
        assert(nodes.drop_last()[0] == nodes[0]);
    } else {
        assert(nodes.drop_last() =~= Seq::<TreeModel>::empty());
        assert(nodes.drop_first() =~= Seq::<TreeModel>::empty());
    }
}

pub(crate) proof fn lemma_kept_totals(nodes: Seq<TreeModel>, limit: nat)
    requires
        forall|i: int|
            0 <= i < nodes.len() && (#[trigger] nodes[i]).entry_type == EntryType::File
                ==> nodes[i].children.len() == 0,
    ensures
        files_in(kept_from(nodes, limit)) + (if file_count(nodes) > limit {
            file_count(nodes) - limit
        } else {
            0
        }) == files_in(nodes),
        dirs_in(kept_from(nodes, limit)) == dirs_in(nodes),
    decreases nodes.len(),
{
    if nodes.len() > 0 {
        lemma_totals_front(nodes);
        lemma_weights_front(nodes);
        let rest = nodes.drop_first();
        assert forall|i: int|
            0 <= i < rest.len() && (#[trigger] rest[i]).entry_type
                == EntryType::File implies rest[i].children.len() == 0 by {
            assert(rest[i] == nodes[i + 1]);
        }
        let next: nat = if nodes[0].entry_type != EntryType::File {
            limit
        } else if limit > 0 {
            (limit - 1) as nat
        } else {
            0
        };
        lemma_kept_totals(rest, next);
        if nodes[0].entry_type != EntryType::File || limit > 0 {
            let kept = seq![nodes[0]] + kept_from(rest, next);
            lemma_totals_front(kept);
            assert(kept.drop_first() =~= kept_from(rest, next));
        } else {
            assert(nodes[0].children.len() == 0);
            assert(files_in(nodes[0].children) == 0);
            assert(dirs_in(nodes[0].children) == 0);
        }
    }
}

} // verus!
