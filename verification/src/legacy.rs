//! The plain listing, in the manner of the `tree` command.

use vstd::prelude::*;
use vstd::string::*;
use crate::arrange::{lemma_sorted_weights, lemma_weights_member, weight, weights};
use crate::sort::{display_order, sort_nodes_by_display, sorted_with};
use crate::tree::{lemma_models_of, models_of, tree_model, Tree, TreeModel};

verus! {

/// The piece in front of a name in the plain listing: nothing for the
/// root, a corner for a last child, a tee for any other.
pub open spec fn legacy_connector(depth: usize, is_last: bool) -> Seq<char> {
    if depth == 0 {
        Seq::empty()
    } else if is_last {
        "\u{2514}\u{2500}\u{2500} "@
    } else {
        "\u{251c}\u{2500}\u{2500} "@
    }
}

/// What stands in front of the lines of a node's children in the plain
/// listing.
pub open spec fn legacy_indent(indent: Seq<char>, depth: usize, is_last: bool) -> Seq<char> {
    if depth == 0 {
        if is_last {
            indent
        } else {
            indent + "\u{2502}"@
        }
    } else if is_last {
        indent + "    "@
    } else {
        indent + "\u{2502}"@ + "\u{a0}"@ + "\u{a0}"@ + " "@
    }
}

/// One level further down, in the plain listing.
pub open spec fn legacy_deeper(depth: usize) -> usize {
    if depth < usize::MAX {
        (depth + 1) as usize
    } else {
        depth
    }
}

/// What the plain listing of a node gives: the lines written and the node
/// as it is left behind.
pub struct LegacyListing {
    pub text: Seq<char>,
    pub tree: TreeModel,
}

/// What the plain listing of a run of siblings gives.
pub struct LegacyListings {
    pub text: Seq<char>,
    pub trees: Seq<TreeModel>,
}

/// The plain listing of `node` and of all that is below it: the node's
/// line, then its children in the order of their display strings, each
/// with all that is below it, and a blank line behind the whole listing.
pub open spec fn legacy_listed(node: TreeModel, indent: Seq<char>, depth: usize, is_last: bool) -> LegacyListing
    decreases weight(node), 0nat,
{
    let kids = sorted_with(node.children, display_order());
    let below = {
        proof {
            lemma_sorted_weights(node.children, display_order());
        }
        legacy_listed_upto(
            kids,
            kids.len(),
            legacy_indent(indent, depth, is_last),
            legacy_deeper(depth),
        )
    };
    LegacyListing {
        text: indent + legacy_connector(depth, is_last) + node.display + "\n"@ + below.text + (if depth
            == 0 {
            "\n"@
        } else {
            Seq::empty()
        }),
        tree: TreeModel { children: below.trees, ..node },
    }
}

/// The plain listing of the first `n` of the siblings `kids`.
pub open spec fn legacy_listed_upto(kids: Seq<TreeModel>, n: nat, indent: Seq<char>, depth: usize) -> LegacyListings
    decreases weights(kids), n,
{
    if n == 0 || n > kids.len() {
        LegacyListings { text: Seq::empty(), trees: Seq::empty() }
    } else {
        let before = legacy_listed_upto(kids, (n - 1) as nat, indent, depth);
        let this = {
            proof {
                lemma_weights_member(kids, n - 1);
            }
            legacy_listed(kids[n - 1], indent, depth, n == kids.len())
        };
        LegacyListings { text: before.text + this.text, trees: before.trees.push(this.tree) }
    }
}

proof fn lemma_legacy_trees(kids: Seq<TreeModel>, n: nat, indent: Seq<char>, depth: usize)
    requires
        n <= kids.len(),
    ensures
        legacy_listed_upto(kids, n, indent, depth).trees.len() == n,
        forall|j: int|
            0 <= j < n ==> (#[trigger] legacy_listed_upto(kids, n, indent, depth).trees[j])
                == legacy_listed(kids[j], indent, depth, j + 1 == kids.len()).tree,
    decreases n,
{
    if n > 0 {
        lemma_legacy_trees(kids, (n - 1) as nat, indent, depth);
    }
}

fn legacy_line(tree: &Tree, indent: &str, depth: usize, is_last: bool) -> (r: String)
    ensures
        r@ == indent@ + legacy_connector(depth, is_last) + tree@.display + "\n"@,
{
    let mut r = String::from_str(indent);
    if depth == 0 {
        r.append(String::new().as_str());
    } else if is_last {
        r.append("\u{2514}\u{2500}\u{2500} ");
    } else {
        r.append("\u{251c}\u{2500}\u{2500} ");
    }
    r.append(tree.display.as_str());
    r.append("\n");
    r
}

fn legacy_indent_of(indent: &str, depth: usize, is_last: bool) -> (r: String)
    ensures
        r@ == legacy_indent(indent@, depth, is_last),
{
    let mut r = String::from_str(indent);
    if depth == 0 {
        if !is_last {
            r.append("\u{2502}");
        }
    } else if is_last {
        r.append("    ");
    } else {
        r.append("\u{2502}");
        r.append("\u{a0}");
        r.append("\u{a0}");
        r.append(" ");
    }
    r
}

fn legacy_children(children: &mut Vec<Tree>, indent: &str, depth: usize, writer: &mut String)
    ensures
        final(writer)@ == old(writer)@ + legacy_listed_upto(
            models_of(old(children)@),
            old(children)@.len() as nat,
            indent@,
            depth,
        ).text,
        models_of(final(children)@) == legacy_listed_upto(
            models_of(old(children)@),
            old(children)@.len() as nat,
            indent@,
            depth,
        ).trees,
    decreases weights(models_of(old(children)@)), 1nat,
{
    let ghost given = children@;
    let ghost kids = models_of(given);
    let ghost start = writer@;
    let n = children.len();
    proof {
        lemma_models_of(given);
    }
    let mut i: usize = 0;
    while i < n
        invariant
            i <= n,
            n == kids.len(),
            n == given.len(),
            given == old(children)@,
            kids == models_of(given),
            children@.len() == n,
            forall|j: int| i <= j < n ==> (#[trigger] children@[j]) == given[j],
            forall|j: int| 0 <= j < n ==> (#[trigger] kids[j]) == tree_model(given[j]),
            forall|j: int|
                0 <= j < i ==> tree_model(#[trigger] children@[j]) == legacy_listed(
                    kids[j],
                    indent@,
                    depth,
                    j + 1 == n,
                ).tree,
            writer@ == start + legacy_listed_upto(kids, i as nat, indent@, depth).text,
        decreases n - i,
    {
        proof {
            lemma_weights_member(kids, i as int);
        }
        let ghost before = children@;
        let ghost upto = legacy_listed_upto(kids, i as nat, indent@, depth);
        let ghost this = legacy_listed(kids[i as int], indent@, depth, i + 1 == n);
        assert(legacy_listed_upto(kids, (i + 1) as nat, indent@, depth).text == upto.text
            + this.text);
        let child = &mut children[i];
        child.print_legacy(indent, depth, i == n - 1, writer);
        proof {
            assert(children@ =~= before.update(i as int, children@[i as int]));
            assert(writer@ =~= start + (upto.text + this.text));
        }
        i = i + 1;
    }
    proof {
        lemma_legacy_trees(kids, n as nat, indent@, depth);
        lemma_models_of(children@);
        assert(models_of(children@) =~= legacy_listed_upto(kids, n as nat, indent@, depth).trees);
    }
}

impl Tree {
    /// Writes the plain listing of this node and of all that is below it to
    /// `writer`, in the manner of the `tree` command and without color. The
    /// children of every node are left in the order of their display
    /// strings.
    pub fn print_legacy(&mut self, indent: &str, depth: usize, is_last: bool, writer: &mut String)
        ensures
            final(writer)@ == old(writer)@ + legacy_listed(
                old(self)@,
                indent@,
                depth,
                is_last,
            ).text,
            final(self)@ == legacy_listed(old(self)@, indent@, depth, is_last).tree,
        decreases weight(old(self)@), 0nat,
    {
        let ghost node = self@;
        let ghost whole = legacy_listed(node, indent@, depth, is_last);
        let ghost kids = sorted_with(node.children, display_order());
        let ghost start = writer@;
        let line = legacy_line(self, indent, depth, is_last);
        writer.append(line.as_str());
        let below = legacy_indent_of(indent, depth, is_last);
        let next = if depth < usize::MAX {
            depth + 1
        } else {
            depth
        };
        sort_nodes_by_display(&mut self.children);
        proof {
            lemma_sorted_weights(node.children, display_order());
            lemma_models_of(self.children@);
            assert(models_of(self.children@) == kids);
        }
        let ghost all = legacy_listed_upto(kids, kids.len(), below@, next);
        legacy_children(&mut self.children, below.as_str(), next, writer);
        if depth == 0 {
            writer.append("\n");
        } else {
            assert(start + line@ + all.text + Seq::<char>::empty() =~= start + line@ + all.text);
        }
        assert(writer@ =~= start + whole.text);
    }
}

} // verus!
