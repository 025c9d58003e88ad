//! The orders in which siblings are shown.

use vstd::prelude::*;
use vstd::utf8::encode_utf8;
use crate::args::SortKey;
use crate::tree::{dirs_in, files_in, models_of, EntryType, Timestamp, Tree, TreeModel};

verus! {

/// Whether `a` comes before `b` when the two are read byte by byte: at the
/// first byte in which they differ `a` has the smaller one, or `a` ends
/// where `b` goes on.
pub open spec fn bytes_before(a: Seq<u8>, b: Seq<u8>) -> bool
    decreases a.len(),
{
    if b.len() == 0 {
        false
    } else if a.len() == 0 {
        true
    } else if a[0] != b[0] {
        a[0] < b[0]
    } else {
        bytes_before(a.drop_first(), b.drop_first())
    }
}

/// The order of names: that of their bytes.
pub open spec fn name_before(a: Seq<char>, b: Seq<char>) -> bool {
    bytes_before(encode_utf8(a), encode_utf8(b))
}

/// The number a size is ordered by: a node without a size comes before all
/// others.
pub open spec fn size_rank(size: Option<u64>) -> int {
    match size {
        Some(bytes) => bytes as int,
        None => -1,
    }
}

/// The number a time of last change is ordered by, in nanoseconds; a node
/// without one counts as the epoch.
pub open spec fn date_rank(stamp: Option<Timestamp>) -> int {
    match stamp {
        Some(at) => at.total(),
        None => 0,
    }
}

/// The number a kind is ordered by: directories come before files.
pub open spec fn type_rank(kind: EntryType) -> int {
    match kind {
        EntryType::Directory => 0,
        EntryType::File => 1,
    }
}

/// Whether a key asks for ascending order.
pub open spec fn is_ascending(key: SortKey) -> bool {
    match key {
        SortKey::Date(up) => up,
        SortKey::Name(up) => up,
        SortKey::Size(up) => up,
        SortKey::Type(up) => up,
    }
}

/// Whether `a` is smaller than `b` in what the key looks at.
pub open spec fn smaller(key: SortKey, a: TreeModel, b: TreeModel) -> bool {
    match key {
        SortKey::Date(_) => date_rank(a.last_modified) < date_rank(b.last_modified),
        SortKey::Name(_) => name_before(a.name, b.name),
        SortKey::Size(_) => size_rank(a.size) < size_rank(b.size),
        SortKey::Type(_) => type_rank(a.entry_type) < type_rank(b.entry_type),
    }
}

/// Whether `a` has to stand before `b` under the key.
pub open spec fn before(key: SortKey, a: TreeModel, b: TreeModel) -> bool {
    if is_ascending(key) {
        smaller(key, a, b)
    } else {
        smaller(key, b, a)
    }
}

/// An order among nodes: whether the first has to stand before the second.
pub type NodeOrder = spec_fn(TreeModel, TreeModel) -> bool;

/// The order that a sort key stands for.
pub open spec fn key_order(key: SortKey) -> NodeOrder {
    |a: TreeModel, b: TreeModel| before(key, a, b)
}

/// The order of display strings: that of their bytes.
pub open spec fn display_order() -> NodeOrder {
    |a: TreeModel, b: TreeModel| name_before(a.display, b.display)
}

/// Where `node` goes into `sorted`: in front of the first node that has to
/// stand behind it, and so behind every node it ties with.
pub open spec fn slot_with(sorted: Seq<TreeModel>, node: TreeModel, order: NodeOrder) -> int
    decreases sorted.len(),
{
    if sorted.len() == 0 {
        0
    } else if order(node, sorted[0]) {
        0
    } else {
        1 + slot_with(sorted.drop_first(), node, order)
    }
}

/// `nodes` put in an order. Nodes that tie keep the order they had.
pub open spec fn sorted_with(nodes: Seq<TreeModel>, order: NodeOrder) -> Seq<TreeModel>
    decreases nodes.len(),
{
    if nodes.len() == 0 {
        Seq::empty()
    } else {
        let sorted = sorted_with(nodes.drop_last(), order);
        sorted.insert(slot_with(sorted, nodes.last(), order), nodes.last())
    }
}

/// `nodes` in the order of the key. Nodes that tie keep the order they had.
pub open spec fn sorted_by(nodes: Seq<TreeModel>, key: SortKey) -> Seq<TreeModel> {
    sorted_with(nodes, key_order(key))
}

pub proof fn lemma_slot_bounds(sorted: Seq<TreeModel>, node: TreeModel, order: NodeOrder)
    ensures
        0 <= slot_with(sorted, node, order) <= sorted.len(),
    decreases sorted.len(),
{
    if sorted.len() > 0 && !order(node, sorted[0]) {
        lemma_slot_bounds(sorted.drop_first(), node, order);
    }
}

/// Sorting keeps the number of nodes.
pub proof fn lemma_sorted_len(nodes: Seq<TreeModel>, order: NodeOrder)
    ensures
        sorted_with(nodes, order).len() == nodes.len(),
    decreases nodes.len(),
{
    if nodes.len() > 0 {
        lemma_sorted_len(nodes.drop_last(), order);
        lemma_slot_bounds(sorted_with(nodes.drop_last(), order), nodes.last(), order);
    }
}

pub proof fn lemma_totals_insert(nodes: Seq<TreeModel>, at: int, node: TreeModel)
    requires
        0 <= at <= nodes.len(),
    ensures
        files_in(nodes.insert(at, node)) == files_in(nodes) + node.file_total(),
        dirs_in(nodes.insert(at, node)) == dirs_in(nodes) + node.dir_total(),
    decreases nodes.len(),
{
    let grown = nodes.insert(at, node);
    if at == nodes.len() {
        assert(grown.drop_last() =~= nodes);
    } else {
        assert(grown.drop_last() =~= nodes.drop_last().insert(at, node));
        assert(grown.last() == nodes.last());
        lemma_totals_insert(nodes.drop_last(), at, node);
    }
}

/// Sorting keeps the number of files and of directories in the nodes and
/// below them.
pub proof fn lemma_sorted_totals(nodes: Seq<TreeModel>, order: NodeOrder)
    ensures
        files_in(sorted_with(nodes, order)) == files_in(nodes),
        dirs_in(sorted_with(nodes, order)) == dirs_in(nodes),
    decreases nodes.len(),
{
    if nodes.len() > 0 {
        let sorted = sorted_with(nodes.drop_last(), order);
        lemma_sorted_totals(nodes.drop_last(), order);
        lemma_slot_bounds(sorted, nodes.last(), order);
        lemma_totals_insert(sorted, slot_with(sorted, nodes.last(), order), nodes.last());
    }
}

/// Every node of the sorted list is one of the nodes that were sorted.
pub proof fn lemma_sorted_members(nodes: Seq<TreeModel>, order: NodeOrder, i: int) -> (j: int)
    requires
        0 <= i < sorted_with(nodes, order).len(),
    ensures
        0 <= j < nodes.len(),
        sorted_with(nodes, order)[i] == nodes[j],
    decreases nodes.len(),
{
    lemma_sorted_len(nodes, order);
    let sorted = sorted_with(nodes.drop_last(), order);
    lemma_sorted_len(nodes.drop_last(), order);
    let at = slot_with(sorted, nodes.last(), order);
    lemma_slot_bounds(sorted, nodes.last(), order);
    if i == at {
        nodes.len() - 1
    } else if i < at {
        lemma_sorted_members(nodes.drop_last(), order, i)
    } else {
        lemma_sorted_members(nodes.drop_last(), order, i - 1)
    }
}

proof fn lemma_bytes_order(a: Seq<u8>, b: Seq<u8>, c: Seq<u8>)
    ensures
        bytes_before(a, b) ==> !bytes_before(b, a),
        bytes_before(a, b) && bytes_before(b, c) ==> bytes_before(a, c),
    decreases a.len(),
{
    if a.len() > 0 && b.len() > 0 {
        if c.len() > 0 {
            lemma_bytes_order(a.drop_first(), b.drop_first(), c.drop_first());
        } else {
            lemma_bytes_order(a.drop_first(), b.drop_first(), c);
        }
    }
}

/// The order of a key never puts two nodes each before the other, and where
/// it puts a first node before a second and the second before a third, it
/// puts the first before the third.
pub proof fn lemma_before_is_order(key: SortKey, a: TreeModel, b: TreeModel, c: TreeModel)
    ensures
        before(key, a, b) ==> !before(key, b, a),
        before(key, a, b) && before(key, b, c) ==> before(key, a, c),
{
    lemma_bytes_order(encode_utf8(a.name), encode_utf8(b.name), encode_utf8(c.name));
    lemma_bytes_order(encode_utf8(c.name), encode_utf8(b.name), encode_utf8(a.name));
    lemma_bytes_order(encode_utf8(b.name), encode_utf8(a.name), encode_utf8(c.name));
}

proof fn lemma_slot_first(sorted: Seq<TreeModel>, node: TreeModel, order: NodeOrder)
    ensures
        forall|i: int|
            0 <= i < slot_with(sorted, node, order) ==> !order(node, #[trigger] sorted[i]),
        slot_with(sorted, node, order) < sorted.len() ==> order(
            node,
            sorted[slot_with(sorted, node, order)],
        ),
    decreases sorted.len(),
{
    if sorted.len() > 0 && !order(node, sorted[0]) {
        let rest = sorted.drop_first();
        lemma_slot_first(rest, node, order);
        lemma_slot_bounds(rest, node, order);
        assert forall|i: int| 0 <= i < slot_with(sorted, node, order) implies !order(
            node,
            #[trigger] sorted[i],
        ) by {
            if i > 0 {
                assert(sorted[i] == rest[i - 1]);
            }
        }
        if slot_with(sorted, node, order) < sorted.len() {
            assert(sorted[slot_with(sorted, node, order)] == rest[slot_with(rest, node, order)]);
        }
    }
}

/// Sorting neither adds a node nor loses one.
pub proof fn lemma_sorted_same_nodes(nodes: Seq<TreeModel>, order: NodeOrder)
    ensures
        sorted_with(nodes, order).to_multiset() == nodes.to_multiset(),
    decreases nodes.len(),
{
    if nodes.len() > 0 {
        let rest = nodes.drop_last();
        let inner = sorted_with(rest, order);
        let at = slot_with(inner, nodes.last(), order);
        lemma_sorted_same_nodes(rest, order);
        lemma_slot_bounds(inner, nodes.last(), order);
        vstd::seq_lib::to_multiset_insert(inner, at, nodes.last());
        vstd::seq_lib::to_multiset_build(rest, nodes.last());
        assert(rest.push(nodes.last()) =~= nodes);
        assert(sorted_with(nodes, order) == inner.insert(at, nodes.last()));
        assert(inner.insert(at, nodes.last()).to_multiset() == rest.to_multiset().insert(
            nodes.last(),
        ));
        assert(rest.push(nodes.last()).to_multiset() =~= rest.to_multiset().insert(nodes.last()));
    } else {
        assert(sorted_with(nodes, order) =~= nodes);
    }
}

/// Where node `i` of the sorted list stood before the list was sorted.
pub open spec fn origin(nodes: Seq<TreeModel>, order: NodeOrder, i: int) -> int
    decreases nodes.len(),
{
    if nodes.len() == 0 {
        0
    } else {
        let inner = sorted_with(nodes.drop_last(), order);
        let at = slot_with(inner, nodes.last(), order);
        if i == at {
            nodes.len() - 1
        } else if i < at {
            origin(nodes.drop_last(), order, i)
        } else {
            origin(nodes.drop_last(), order, i - 1)
        }
    }
}

/// Whether an order leaves no two nodes apart that it does not tell apart:
/// where it puts a first node before a second, it puts the first before
/// every node that it does not put before the second.
pub open spec fn is_weak_order(order: NodeOrder) -> bool {
    &&& forall|a: TreeModel, b: TreeModel| #[trigger] order(a, b) ==> !order(b, a)
    &&& forall|a: TreeModel, b: TreeModel, c: TreeModel|
        #[trigger] order(a, b) && !(#[trigger] order(c, b)) ==> order(a, c)
}

proof fn lemma_bytes_apart(a: Seq<u8>, b: Seq<u8>, c: Seq<u8>)
    ensures
        bytes_before(a, b) && !bytes_before(c, b) ==> bytes_before(a, c),
    decreases a.len(),
{
    if a.len() > 0 && b.len() > 0 && c.len() > 0 {
        lemma_bytes_apart(a.drop_first(), b.drop_first(), c.drop_first());
    }
}

/// The order of every sort key, and that of display strings, is a weak
/// order.
pub proof fn lemma_orders_are_weak(key: SortKey)
    ensures
        is_weak_order(key_order(key)),
        is_weak_order(display_order()),
{
    let by_key = key_order(key);
    assert forall|a: TreeModel, b: TreeModel| #[trigger] by_key(a, b) implies !by_key(b, a) by {
        lemma_before_is_order(key, a, b, b);
    }
    assert forall|a: TreeModel, b: TreeModel, c: TreeModel|
        #[trigger] by_key(a, b) && !(#[trigger] by_key(c, b)) implies by_key(a, c) by {
        lemma_bytes_apart(encode_utf8(a.name), encode_utf8(b.name), encode_utf8(c.name));
        lemma_bytes_apart(encode_utf8(b.name), encode_utf8(a.name), encode_utf8(c.name));
        lemma_bytes_apart(encode_utf8(b.name), encode_utf8(c.name), encode_utf8(a.name));
        lemma_bytes_apart(encode_utf8(c.name), encode_utf8(b.name), encode_utf8(a.name));
    }
    let by_display = display_order();
    assert forall|a: TreeModel, b: TreeModel| #[trigger] by_display(a, b) implies !by_display(
        b,
        a,
    ) by {
        lemma_bytes_order(encode_utf8(a.display), encode_utf8(b.display), encode_utf8(b.display));
    }
    assert forall|a: TreeModel, b: TreeModel, c: TreeModel|
        #[trigger] by_display(a, b) && !(#[trigger] by_display(c, b)) implies by_display(
        a,
        c,
    ) by {
        lemma_bytes_apart(encode_utf8(a.display), encode_utf8(b.display), encode_utf8(c.display));
    }
}

/// Sorting is stable: the sorted list holds the nodes that were sorted, each
/// once, in the order asked for, and two nodes that the order does not tell
/// apart stand as they stood before.
pub proof fn lemma_sorted_stable(nodes: Seq<TreeModel>, order: NodeOrder)
    requires
        is_weak_order(order),
    ensures
        sorted_with(nodes, order).len() == nodes.len(),
        forall|i: int|
            0 <= i < nodes.len() ==> 0 <= #[trigger] origin(nodes, order, i) < nodes.len()
                && sorted_with(nodes, order)[i] == nodes[origin(nodes, order, i)],
        forall|i: int, j: int|
            0 <= i < j < nodes.len() ==> origin(nodes, order, i) != origin(nodes, order, j),
        forall|i: int, j: int|
            0 <= i < j < nodes.len() ==> !order(
                #[trigger] sorted_with(nodes, order)[j],
                #[trigger] sorted_with(nodes, order)[i],
            ),
        forall|i: int, j: int|
            0 <= i < j < nodes.len() && !order(
                #[trigger] sorted_with(nodes, order)[i],
                #[trigger] sorted_with(nodes, order)[j],
            ) ==> origin(nodes, order, i) < origin(nodes, order, j),
    decreases nodes.len(),
{
    lemma_sorted_len(nodes, order);
    if nodes.len() > 0 {
        let rest = nodes.drop_last();
        let inner = sorted_with(rest, order);
        let node = nodes.last();
        let at = slot_with(inner, node, order);
        let sorted = sorted_with(nodes, order);
        lemma_sorted_stable(rest, order);
        lemma_sorted_len(rest, order);
        lemma_slot_bounds(inner, node, order);
        lemma_slot_first(inner, node, order);
        assert(sorted == inner.insert(at, node));
        assert forall|i: int| 0 <= i < nodes.len() implies 0 <= #[trigger] origin(
            nodes,
            order,
            i,
        ) < nodes.len() && sorted[i] == nodes[origin(nodes, order, i)] by {
            if i < at {
                assert(sorted[i] == inner[i]);
                assert(rest[origin(rest, order, i)] == nodes[origin(rest, order, i)]);
            } else if i > at {
                assert(sorted[i] == inner[i - 1]);
                assert(rest[origin(rest, order, i - 1)] == nodes[origin(rest, order, i - 1)]);
            }
        }
        assert forall|i: int, j: int| 0 <= i < j < nodes.len() implies origin(nodes, order, i)
            != origin(nodes, order, j) by {
            let a = if i < at {
                i
            } else {
                i - 1
            };
            let b = if j < at {
                j
            } else {
                j - 1
            };
            if i != at && j != at {
                assert(origin(rest, order, a) != origin(rest, order, b));
            } else if i == at {
                assert(0 <= origin(rest, order, b) < rest.len());
            } else {
                assert(0 <= origin(rest, order, a) < rest.len());
            }
        }
        assert forall|i: int, j: int| 0 <= i < j < nodes.len() implies !order(
            #[trigger] sorted[j],
            #[trigger] sorted[i],
        ) && (!order(sorted[i], sorted[j]) ==> origin(nodes, order, i) < origin(
            nodes,
            order,
            j,
        )) by {
            let a = if i < at {
                i
            } else {
                i - 1
            };
            let b = if j < at {
                j
            } else {
                j - 1
            };
            if i == at {
                assert(sorted[j] == inner[b]);
                assert(order(node, inner[at]));
                if b > at {
                    assert(!order(inner[b], inner[at]));
                }
                assert(order(node, inner[b]));
            } else if j == at {
                assert(sorted[i] == inner[a]);
                assert(0 <= origin(rest, order, a) < rest.len());
            } else {
                assert(sorted[i] == inner[a]);
                assert(sorted[j] == inner[b]);
                assert(!order(inner[b], inner[a]));
            }
        }
    }
}

/// `slice::sort_by` on a list of nodes, with the comparison of their display
/// strings: a stable sort, which puts the nodes in the order of their
/// display strings and leaves nodes that tie in the order they had.
#[verifier::external_body]
pub(crate) fn sort_nodes_by_display(children: &mut Vec<Tree>)
    ensures
        models_of(final(children)@) == sorted_with(models_of(old(children)@), display_order()),
{
    children.sort_by(|a, b| a.display.cmp(&b.display));
}

/// `slice::sort_by` on the children of a node, with the key's comparison:
/// a stable sort, which puts the nodes in the order of the key and leaves
/// nodes that tie in the order they had.
#[verifier::external_body]
pub(crate) fn sort_nodes(children: &mut Vec<Tree>, key: SortKey)
    ensures
        models_of(final(children)@) == sorted_by(models_of(old(children)@), key),
{
    children.sort_by(|a, b| key.compare(a, b));
}

} // verus!
