//! Passes over an assembled tree: rolling sizes up and aligning names.

use vstd::prelude::*;
use crate::text::{byte_len, byte_length};
use crate::tree::{
    lemma_all_wf_from_members, lemma_all_wf_member, lemma_models_of, models_of, tree_model,
    EntryType, Tree, TreeModel,
};

verus! {

/// The sizes of `nodes` added up; a node without a size adds nothing.
pub open spec fn size_sum(nodes: Seq<TreeModel>) -> nat
    decreases nodes.len(),
{
    if nodes.len() == 0 {
        0
    } else {
        size_sum(nodes.drop_last()) + match nodes.last().size {
            Some(size) => size as nat,
            None => 0nat,
        }
    }
}

/// `node` with the size of every directory in it set to the sum of the
/// sizes of its children, which are rolled up first. A file keeps its size.
pub open spec fn rolled(node: TreeModel) -> TreeModel
    decreases node,
{
    if node.entry_type == EntryType::Directory {
        TreeModel {
            size: Some(size_sum(rolled_all(node.children)) as u64),
            children: rolled_all(node.children),
            ..node
        }
    } else {
        node
    }
}

/// Every node of `nodes` rolled up.
pub open spec fn rolled_all(nodes: Seq<TreeModel>) -> Seq<TreeModel>
    decreases nodes,
{
    if nodes.len() == 0 {
        Seq::empty()
    } else {
        rolled_all(nodes.drop_last()).push(rolled(nodes.last()))
    }
}

/// Whether every sum that rolling up `node` asks for fits the size field.
pub open spec fn sizes_fit(node: TreeModel) -> bool
    decreases node,
{
    node.entry_type == EntryType::Directory ==> all_sizes_fit(node.children) && size_sum(
        rolled_all(node.children),
    ) <= u64::MAX
}

/// Whether rolling up fits for every node of `nodes`.
pub open spec fn all_sizes_fit(nodes: Seq<TreeModel>) -> bool
    decreases nodes,
{
    nodes.len() > 0 ==> all_sizes_fit(nodes.drop_last()) && sizes_fit(nodes.last())
}

proof fn lemma_rolled_all(nodes: Seq<TreeModel>)
    ensures
        rolled_all(nodes).len() == nodes.len(),
        forall|i: int| 0 <= i < nodes.len() ==> (#[trigger] rolled_all(nodes)[i]) == rolled(nodes[i]),
    decreases nodes.len(),
{
    if nodes.len() > 0 {
        lemma_rolled_all(nodes.drop_last());
    }
}

proof fn lemma_all_sizes_fit(nodes: Seq<TreeModel>, i: int)
    requires
        all_sizes_fit(nodes),
        0 <= i < nodes.len(),
    ensures
        sizes_fit(nodes[i]),
    decreases nodes.len(),
{
    if i < nodes.len() - 1 {
        lemma_all_sizes_fit(nodes.drop_last(), i);
    }
}

proof fn lemma_size_sum_grows(nodes: Seq<TreeModel>, i: int)
    requires
        0 <= i <= nodes.len(),
    ensures
        size_sum(nodes.subrange(0, i)) <= size_sum(nodes),
    decreases nodes.len() - i,
{
    if i < nodes.len() {
        lemma_size_sum_grows(nodes, i + 1);
        assert(nodes.subrange(0, i + 1).drop_last() =~= nodes.subrange(0, i));
    } else {
        assert(nodes.subrange(0, i) =~= nodes);
    }
}

/// The greatest length, in bytes, among the display strings of `nodes`; zero
/// for no nodes.
pub open spec fn widest(nodes: Seq<TreeModel>) -> nat
    decreases nodes.len(),
{
    if nodes.len() == 0 {
        0
    } else {
        let rest = widest(nodes.drop_last());
        if byte_len(nodes.last().display) > rest {
            byte_len(nodes.last().display)
        } else {
            rest
        }
    }
}

/// `node` with its alignment widths set: every child of a directory gets
/// the greatest display length among the directory's children, and the same
/// is done below every child that is a directory. The width of `node`
/// itself is left alone.
pub open spec fn aligned(node: TreeModel) -> TreeModel
    decreases node,
{
    if node.entry_type == EntryType::Directory {
        TreeModel { children: aligned_all(node.children, widest(node.children)), ..node }
    } else {
        node
    }
}

/// Every node of `nodes` aligned below, with `width` as its own width.
pub open spec fn aligned_all(nodes: Seq<TreeModel>, width: nat) -> Seq<TreeModel>
    decreases nodes,
{
    if nodes.len() == 0 {
        Seq::empty()
    } else {
        aligned_all(nodes.drop_last(), width).push(
            TreeModel { fmt_width: Some(width as usize), ..aligned(nodes.last()) },
        )
    }
}

proof fn lemma_aligned_all(nodes: Seq<TreeModel>, width: nat)
    ensures
        aligned_all(nodes, width).len() == nodes.len(),
        forall|i: int|
            0 <= i < nodes.len() ==> (#[trigger] aligned_all(nodes, width)[i]) == (TreeModel {
                fmt_width: Some(width as usize),
                ..aligned(nodes[i])
            }),
    decreases nodes.len(),
{
    if nodes.len() > 0 {
        lemma_aligned_all(nodes.drop_last(), width);
    }
}

proof fn lemma_widest_same_displays(a: Seq<TreeModel>, b: Seq<TreeModel>)
    requires
        a.len() == b.len(),
        forall|i: int| 0 <= i < a.len() ==> (#[trigger] a[i]).display == b[i].display,
    ensures
        widest(a) == widest(b),
    decreases a.len(),
{
    if a.len() > 0 {
        lemma_widest_same_displays(a.drop_last(), b.drop_last());
    }
}

/// Within one directory all children carry the same alignment width, which
/// is the greatest display length among them.
pub proof fn lemma_alignment_of_siblings(node: TreeModel, i: int)
    requires
        node.entry_type == EntryType::Directory,
        0 <= i < node.children.len(),
    ensures
        aligned(node).children.len() == node.children.len(),
        aligned(node).children[i].fmt_width == Some(widest(node.children) as usize),
        aligned(node).children[i].display == node.children[i].display,
        widest(aligned(node).children) == widest(node.children),
{
    let width = widest(node.children);
    lemma_aligned_all(node.children, width);
    assert forall|j: int| 0 <= j < node.children.len() implies (#[trigger] aligned(
        node,
    ).children[j]).display == node.children[j].display by {
        lemma_aligned_keeps(node.children[j]);
    }
    lemma_widest_same_displays(aligned(node).children, node.children);
}

proof fn lemma_aligned_keeps(node: TreeModel)
    ensures
        aligned(node).display == node.display,
        aligned(node).entry_type == node.entry_type,
        aligned(node).fmt_width == node.fmt_width,
{
}

/// Setting the alignment widths again changes nothing.
pub proof fn lemma_aligned_twice(node: TreeModel)
    ensures
        aligned(aligned(node)) == aligned(node),
    decreases node,
{
    if node.entry_type == EntryType::Directory {
        let width = widest(node.children);
        let once = aligned_all(node.children, width);
        lemma_aligned_all(node.children, width);
        assert forall|j: int| 0 <= j < node.children.len() implies (#[trigger] once[j]).display
            == node.children[j].display by {
            lemma_aligned_keeps(node.children[j]);
        }
        lemma_widest_same_displays(once, node.children);
        lemma_aligned_all(once, width);
        assert forall|j: int| 0 <= j < once.len() implies (#[trigger] aligned_all(once, width)[j])
            == once[j] by {
            lemma_aligned_twice(node.children[j]);
            lemma_aligned_width(aligned(node.children[j]), Some(width as usize));
        }
        assert(aligned_all(once, width) =~= once);
    }
}

proof fn lemma_aligned_width(node: TreeModel, width: Option<usize>)
    ensures
        aligned(TreeModel { fmt_width: width, ..node }) == (TreeModel {
            fmt_width: width,
            ..aligned(node)
        }),
{
}

impl Tree {
    /// Gives every directory the sum of the sizes of its children as its
    /// size, from the leaves up.
    pub fn calculate_sizes(&mut self)
        requires
            sizes_fit(old(self)@),
        ensures
            final(self)@ == rolled(old(self)@),
            old(self)@.wf() ==> final(self)@.wf(),
        decreases *old(self),
    {
        proof {
            if self@.wf() {
                lemma_rolled_wf(self@);
            }
        }
        if self.entry_type == EntryType::Directory {
            let ghost before = self.children@;
            let ghost models = models_of(before);
            let mut total: u64 = 0;
            let n = self.children.len();
            let mut i: usize = 0;
            proof {
                lemma_models_of(before);
                lemma_rolled_all(models);
                assert(rolled_all(models).subrange(0, 0) =~= Seq::<TreeModel>::empty());
            }
            while i < n
                invariant
                    i <= n,
                    n == before.len(),
                    before == old(self).children@,
                    self.children@.len() == n,
                    models == models_of(before),
                    all_sizes_fit(models),
                    size_sum(rolled_all(models)) <= u64::MAX,
                    forall|j: int| 0 <= j < i ==> tree_model(#[trigger] self.children@[j]) == rolled(models[j]),
                    forall|j: int| i <= j < n ==> (#[trigger] self.children@[j]) == before[j],
                    total == size_sum(rolled_all(models).subrange(0, i as int)),
                    self.display == old(self).display,
                    self.name == old(self).name,
                    self.path == old(self).path,
                    self.entry_type == old(self).entry_type,
                    self.last_modified == old(self).last_modified,
                    self.window == old(self).window,
                    self.fmt_width == old(self).fmt_width,
                    self.executable == old(self).executable,
                decreases n - i,
            {
                proof {
                    lemma_models_of(before);
                    lemma_rolled_all(models);
                    lemma_all_sizes_fit(models, i as int);
                    lemma_size_sum_grows(rolled_all(models), i + 1);
                    assert(rolled_all(models).subrange(0, i + 1).drop_last() =~= rolled_all(
                        models,
                    ).subrange(0, i as int));
                }
                let ghost kids = self.children@;
                assert(kids[i as int] == old(self).children@[i as int]);
                assert(decreases_to!(*old(self) => old(self).children@[i as int]));
                let child = &mut self.children[i];
                child.calculate_sizes();
                if let Some(size) = child.size {
                    total = total + size;
                }
                proof {
                    assert(self.children@ =~= kids.update(i as int, self.children@[i as int]));
                }
                i = i + 1;
            }
            proof {
                lemma_models_of(self.children@);
                lemma_rolled_all(models);
                assert(models_of(self.children@) =~= rolled_all(models));
                assert(rolled_all(models).subrange(0, n as int) =~= rolled_all(models));
            }
            self.size = Some(total);
        }
    }

    /// Sets the alignment widths below this node: the children of every
    /// directory get the greatest display length among them.
    pub fn calculate_fmt_width(&mut self)
        ensures
            final(self)@ == aligned(old(self)@),
            old(self)@.wf() ==> final(self)@.wf(),
        decreases *old(self),
    {
        proof {
            if self@.wf() {
                lemma_aligned_wf(self@);
            }
        }
        if self.entry_type == EntryType::Directory {
            let ghost before = self.children@;
            let ghost models = models_of(before);
            let n = self.children.len();
            let mut width: usize = 0;
            let mut i: usize = 0;
            proof {
                lemma_models_of(before);
                assert(models.subrange(0, 0) =~= Seq::<TreeModel>::empty());
            }
            while i < n
                invariant
                    i <= n,
                    n == before.len(),
                    self.children@ == before,
                    models == models_of(before),
                    models.len() == n,
                    forall|j: int| 0 <= j < n ==> (#[trigger] models[j]) == tree_model(before[j]),
                    width == widest(models.subrange(0, i as int)),
                decreases n - i,
            {
                let len = byte_length(self.children[i].display.as_str());
                proof {
                    assert(len == byte_len(models[i as int].display));
                    assert(models.subrange(0, i + 1).drop_last() =~= models.subrange(0, i as int));
                    assert(models.subrange(0, i + 1).last() == models[i as int]);
                }
                if len > width {
                    width = len;
                }
                i = i + 1;
            }
            assert(models.subrange(0, n as int) =~= models);
            let mut j: usize = 0;
            proof {
                lemma_aligned_all(models, width as nat);
            }
            while j < n
                invariant
                    j <= n,
                    n == before.len(),
                    before == old(self).children@,
                    self.children@.len() == n,
                    models == models_of(before),
                    models.len() == n,
                    forall|k: int| 0 <= k < n ==> (#[trigger] models[k]) == tree_model(before[k]),
                    forall|k: int|
                        0 <= k < j ==> tree_model(#[trigger] self.children@[k]) == (TreeModel {
                            fmt_width: Some(width),
                            ..aligned(models[k])
                        }),
                    forall|k: int| j <= k < n ==> (#[trigger] self.children@[k]) == before[k],
                    self.display == old(self).display,
                    self.name == old(self).name,
                    self.path == old(self).path,
                    self.entry_type == old(self).entry_type,
                    self.last_modified == old(self).last_modified,
                    self.size == old(self).size,
                    self.window == old(self).window,
                    self.fmt_width == old(self).fmt_width,
                    self.executable == old(self).executable,
                decreases n - j,
            {
                let ghost kids = self.children@;
                assert(kids[j as int] == old(self).children@[j as int]);
                assert(decreases_to!(*old(self) => old(self).children@[j as int]));
                let child = &mut self.children[j];
                child.calculate_fmt_width();
                child.fmt_width = Some(width);
                proof {
                    assert(self.children@ =~= kids.update(j as int, self.children@[j as int]));
                }
                j = j + 1;
            }
            proof {
                lemma_models_of(self.children@);
                assert(models_of(self.children@) =~= aligned_all(models, width as nat));
            }
        }
    }
}

proof fn lemma_all_sizes_fit_upto(nodes: Seq<TreeModel>, n: int)
    requires
        0 <= n <= nodes.len(),
        forall|i: int| 0 <= i < n ==> sizes_fit(#[trigger] nodes[i]),
    ensures
        all_sizes_fit(nodes.subrange(0, n)),
    decreases n,
{
    if n > 0 {
        lemma_all_sizes_fit_upto(nodes, n - 1);
        assert(nodes.subrange(0, n).drop_last() =~= nodes.subrange(0, n - 1));
    }
}

impl Tree {
    /// Tells whether every sum that `calculate_sizes` asks for fits the size
    /// field, and if so, the size that this node ends up with.
    pub fn checked_rollup(&self) -> (r: Option<Option<u64>>)
        ensures
            r is Some <==> sizes_fit(self@),
            r matches Some(size) ==> size == rolled(self@).size,
        decreases self,
    {
        if self.entry_type != EntryType::Directory {
            return Some(self.size);
        }
        let ghost models = models_of(self.children@);
        let n = self.children.len();
        let mut total: u64 = 0;
        let mut i: usize = 0;
        proof {
            lemma_models_of(self.children@);
            lemma_rolled_all(models);
            assert(rolled_all(models).subrange(0, 0) =~= Seq::<TreeModel>::empty());
        }
        while i < n
            invariant
                i <= n,
                n == self.children@.len(),
                self.entry_type == EntryType::Directory,
                models == models_of(self.children@),
                models.len() == n,
                rolled_all(models).len() == n,
                forall|j: int| 0 <= j < n ==> (#[trigger] models[j]) == tree_model(self.children@[j]),
                forall|j: int| 0 <= j < n ==> (#[trigger] rolled_all(models)[j]) == rolled(models[j]),
                forall|j: int| 0 <= j < i ==> sizes_fit(#[trigger] models[j]),
                total == size_sum(rolled_all(models).subrange(0, i as int)),
            decreases n - i,
        {
            proof {
                lemma_size_sum_grows(rolled_all(models), i + 1);
                assert(rolled_all(models).subrange(0, i + 1).drop_last() =~= rolled_all(
                    models,
                ).subrange(0, i as int));
                assert(rolled_all(models).subrange(0, i + 1).last() == rolled(models[i as int]));
            }
            let size = match self.children[i].checked_rollup() {
                Some(size) => size,
                None => {
                    proof {
                        if all_sizes_fit(models) {
                            lemma_all_sizes_fit(models, i as int);
                        }
                    }
                    return None;
                },
            };
            let bytes = match size {
                Some(bytes) => bytes,
                None => 0,
            };
            if bytes > u64::MAX - total {
                return None;
            }
            total = total + bytes;
            i = i + 1;
        }
        proof {
            assert(rolled_all(models).subrange(0, n as int) =~= rolled_all(models));
            lemma_all_sizes_fit_upto(models, n as int);
            assert(models.subrange(0, n as int) =~= models);
        }
        Some(Some(total))
    }
}

/// Rolling sizes up keeps a tree well formed.
pub proof fn lemma_rolled_wf(node: TreeModel)
    requires
        node.wf(),
    ensures
        rolled(node).wf(),
        rolled(node).name == node.name,
    decreases node,
{
    if node.entry_type == EntryType::Directory {
        let kids = rolled_all(node.children);
        lemma_rolled_all(node.children);
        assert forall|i: int| 0 <= i < kids.len() implies (#[trigger] kids[i]).wf() && kids[i].name
            == node.children[i].name by {
            lemma_all_wf_member(node.children, i);
            lemma_rolled_wf(node.children[i]);
        }
        lemma_all_wf_from_members(kids);
        assert forall|i: int, j: int| 0 <= i < j < kids.len() implies (#[trigger] kids[i]).name != (
        #[trigger] kids[j]).name by {
            assert(kids[i].name == node.children[i].name);
            assert(kids[j].name == node.children[j].name);
        }
    }
}

/// Setting alignment widths keeps a tree well formed.
pub proof fn lemma_aligned_wf(node: TreeModel)
    requires
        node.wf(),
    ensures
        aligned(node).wf(),
        aligned(node).name == node.name,
    decreases node,
{
    if node.entry_type == EntryType::Directory {
        let width = widest(node.children);
        let kids = aligned_all(node.children, width);
        lemma_aligned_all(node.children, width);
        assert forall|i: int| 0 <= i < kids.len() implies (#[trigger] kids[i]).wf() && kids[i].name
            == node.children[i].name by {
            lemma_all_wf_member(node.children, i);
            lemma_aligned_wf(node.children[i]);
        }
        lemma_all_wf_from_members(kids);
        assert forall|i: int, j: int| 0 <= i < j < kids.len() implies (#[trigger] kids[i]).name != (
        #[trigger] kids[j]).name by {
            assert(kids[i].name == node.children[i].name);
            assert(kids[j].name == node.children[j].name);
        }
    }
}

} // verus!
