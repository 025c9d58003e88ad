//! Writing the tree out, line by line, and counting what is shown.

use vstd::prelude::*;
use vstd::string::*;
use crate::args::RippyArgs;
use crate::arrange::{
    arrange_children, arranged, file_count, lemma_arranged_weights, lemma_arranged_wf,
    lemma_weights_member, unseen, weight, weights,
};
use crate::format::{
    count_digits_log, format_display_datetime, format_display_size, shown_date, shown_size,
};
use crate::tcolor::{ansi_color, color_view, styled};
use crate::text::{
    byte_len, byte_length, decimal, digit_count, lemma_decimal_len, repeat_str, repeated,
    usize_to_string,
};
use crate::tree::{
    all_wf, lemma_all_wf_from_members, lemma_all_wf_member, lemma_models_of, models_of, position,
    tree_model, EntryType, Tree, TreeCounts, TreeModel,
};

verus! {

/// What stands in brackets in front of a name: the date and the size as far
/// as they are shown, with a comma between them where both are.
pub open spec fn details_text(node: TreeModel, args: &RippyArgs) -> Seq<char> {
    let date = shown_date(node.last_modified, args, node.entry_type);
    let size = shown_size(node.size, args, node.entry_type);
    if date.len() == 0 && size.len() == 0 {
        Seq::empty()
    } else if date.len() == 0 || size.len() == 0 {
        "("@ + date + size + ") "@
    } else {
        "("@ + date + ", "@ + size + ") "@
    }
}

/// The color of the lines that lead to a node at `depth`: that of the root
/// just below the root, that of directories further down.
pub open spec fn level_color(depth: u32, args: &RippyArgs) -> Option<&'static str> {
    if depth == 1 {
        args.colors.root
    } else {
        args.colors.dir
    }
}

/// The piece that ties a node to the line of its parent: a corner for the
/// last child and a tee for any other, drawn out to the indent width.
/// Nothing in a flat listing.
pub open spec fn connector(depth: u32, is_last: bool, args: &RippyArgs) -> Seq<char> {
    if args.is_flat {
        Seq::empty()
    } else {
        styled(
            color_view(level_color(depth, args)),
            false,
            (if is_last {
                "\u{2570}"@
            } else {
                "\u{251c}"@
            }) + repeated("\u{2500}"@, args.indent as nat) + " "@,
        )
    }
}

/// The position of a node among its siblings, in square brackets, where
/// positions are shown.
pub open spec fn enumeration_prefix(enumeration: Seq<char>, args: &RippyArgs) -> Seq<char> {
    if args.is_enumerate {
        styled(color_view(args.colors.detail), false, "["@ + enumeration + "] "@)
    } else {
        Seq::empty()
    }
}

/// The color of a node's name.
pub open spec fn name_color(node: TreeModel, args: &RippyArgs) -> Option<&'static str> {
    match node.entry_type {
        EntryType::Directory => args.colors.dir,
        EntryType::File => if args.is_grayscale || node.path is None {
            None
        } else if node.executable {
            args.colors.executable
        } else {
            args.colors.file
        },
    }
}

/// The spaces between a file's name and its search window: as many as the
/// name falls short of the alignment width, and one more.
pub open spec fn padding(node: TreeModel, args: &RippyArgs) -> Seq<char> {
    if node.entry_type == EntryType::File && args.is_search && args.is_window {
        match node.fmt_width {
            Some(width) => repeated(
                " "@,
                if width > byte_len(node.display) {
                    (width - byte_len(node.display)) as nat
                } else {
                    0
                },
            ) + " "@,
            None => Seq::empty(),
        }
    } else {
        Seq::empty()
    }
}

/// The line of the root: its name, in the root's color.
pub open spec fn root_line(node: TreeModel, args: &RippyArgs) -> Seq<char> {
    " "@ + styled(color_view(args.colors.root), !args.is_grayscale, node.display) + "\n"@
}

/// The line of a node below the root.
pub open spec fn entry_line(
    node: TreeModel,
    enumeration: Seq<char>,
    depth: u32,
    prefix: Seq<char>,
    is_last: bool,
    args: &RippyArgs,
) -> Seq<char> {
    let details = details_text(node, args);
    " "@ + prefix + connector(depth, is_last, args) + enumeration_prefix(enumeration, args) + (if details.len()
        == 0 {
        details
    } else {
        styled(color_view(args.colors.detail), false, details)
    }) + styled(
        color_view(name_color(node, args)),
        node.entry_type == EntryType::Directory && !args.is_grayscale,
        node.display,
    ) + padding(node, args) + (match node.window {
        Some(window) => window,
        None => Seq::empty(),
    }) + "\n"@
}

/// What stands in front of the lines of a node's children: the node's own
/// prefix, and below the root one more level, with a bar where the node has
/// siblings behind it and blank where it has none.
pub open spec fn child_prefix(prefix: Seq<char>, depth: u32, is_last: bool, args: &RippyArgs) -> Seq<
    char,
> {
    if args.is_flat {
        Seq::empty()
    } else if depth == 0 {
        prefix
    } else if is_last {
        prefix + repeated("\u{a0}"@, args.indent as nat) + " "@ + " "@
    } else {
        prefix + styled(color_view(level_color(depth, args)), false, "\u{2502}"@) + repeated(
            "\u{a0}"@,
            args.indent as nat,
        ) + " "@
    }
}

/// The position of child `i` of `count`, counted from one and padded with
/// spaces to the width of the last position. Nothing where positions are
/// not shown.
pub open spec fn enumeration_of(i: nat, count: nat, args: &RippyArgs) -> Seq<char> {
    if args.is_enumerate {
        repeated(
            " "@,
            if digit_count(count) > digit_count(i + 1) {
                (digit_count(count) - digit_count(i + 1)) as nat
            } else {
                0
            },
        ) + decimal(i + 1)
    } else {
        Seq::empty()
    }
}

/// One level further down.
pub open spec fn deeper(depth: u32) -> u32 {
    if depth < u32::MAX {
        (depth + 1) as u32
    } else {
        depth
    }
}

/// What showing a node gives: the lines written, the node as it is left
/// behind, and the directories and files counted.
pub struct Rendering {
    pub text: Seq<char>,
    pub tree: TreeModel,
    pub dirs: nat,
    pub files: nat,
}

/// What showing a run of siblings gives.
pub struct Renderings {
    pub text: Seq<char>,
    pub trees: Seq<TreeModel>,
    pub dirs: nat,
    pub files: nat,
}

/// Shows `node` and all that is below it. The node's line comes first. Its
/// children are then arranged, and shown one after the other, each with all
/// that is below it. A blank line closes the listing behind the last child
/// of the root. A node below the root counts as one directory or one file,
/// and a directory whose files were cut reports the files left out as well.
pub open spec fn rendered(
    node: TreeModel,
    enumeration: Seq<char>,
    depth: u32,
    prefix: Seq<char>,
    is_last: bool,
    args: &RippyArgs,
) -> Rendering
    decreases weight(node), 0nat,
{
    let kids = arranged(node.children, args);
    let below = {
        proof {
            lemma_arranged_weights(node.children, args);
        }
        rendered_upto(
            kids,
            kids.len(),
            deeper(depth),
            child_prefix(prefix, depth, is_last, args),
            args,
        )
    };
    Rendering {
        text: (if depth == 0 {
            root_line(node, args)
        } else {
            entry_line(node, enumeration, depth, prefix, is_last, args)
        }) + below.text + (if depth == 1 && is_last {
            "\n"@
        } else {
            Seq::empty()
        }),
        tree: TreeModel { children: below.trees, ..node },
        dirs: below.dirs + (if depth != 0 && node.entry_type == EntryType::Directory {
            1nat
        } else {
            0nat
        }),
        files: below.files + unseen(node.children, args) + (if depth != 0 && node.entry_type
            == EntryType::File {
            1nat
        } else {
            0nat
        }),
    }
}

/// Shows the first `n` of the siblings `kids`.
pub open spec fn rendered_upto(
    kids: Seq<TreeModel>,
    n: nat,
    depth: u32,
    prefix: Seq<char>,
    args: &RippyArgs,
) -> Renderings
    decreases weights(kids), n,
{
    if n == 0 || n > kids.len() {
        Renderings { text: Seq::empty(), trees: Seq::empty(), dirs: 0, files: 0 }
    } else {
        let before = rendered_upto(kids, (n - 1) as nat, depth, prefix, args);
        let this = {
            proof {
                lemma_weights_member(kids, n - 1);
            }
            rendered(
                kids[n - 1],
                enumeration_of((n - 1) as nat, kids.len(), args),
                depth,
                prefix,
                n == kids.len(),
                args,
            )
        };
        Renderings {
            text: before.text + this.text,
            trees: before.trees.push(this.tree),
            dirs: before.dirs + this.dirs,
            files: before.files + this.files,
        }
    }
}

fn details_of(tree: &Tree, args: &RippyArgs) -> (r: String)
    ensures
        r@ == details_text(tree@, args),
{
    let date = format_display_datetime(tree.last_modified, args, tree.entry_type);
    let size = format_display_size(tree.size, args, tree.entry_type);
    let no_date = date.as_str().is_empty();
    let no_size = size.as_str().is_empty();
    if no_date && no_size {
        String::new()
    } else if no_date || no_size {
        let mut r = String::from_str("(");
        r.append(date.as_str());
        r.append(size.as_str());
        r.append(") ");
        r
    } else {
        let mut r = String::from_str("(");
        r.append(date.as_str());
        r.append(", ");
        r.append(size.as_str());
        r.append(") ");
        r
    }
}

fn level_color_of(depth: u32, args: &RippyArgs) -> (r: Option<&'static str>)
    ensures
        r == level_color(depth, args),
{
    if depth == 1 {
        args.colors.root
    } else {
        args.colors.dir
    }
}

fn connector_of(depth: u32, is_last: bool, args: &RippyArgs) -> (r: String)
    ensures
        r@ == connector(depth, is_last, args),
{
    if args.is_flat {
        String::new()
    } else {
        let mut piece = if is_last {
            String::from_str("\u{2570}")
        } else {
            String::from_str("\u{251c}")
        };
        piece.append(repeat_str("\u{2500}", args.indent).as_str());
        piece.append(" ");
        ansi_color(level_color_of(depth, args), false, piece.as_str())
    }
}

fn enumeration_prefix_of(enumeration: &str, args: &RippyArgs) -> (r: String)
    ensures
        r@ == enumeration_prefix(enumeration@, args),
{
    if args.is_enumerate {
        let mut piece = String::from_str("[");
        piece.append(enumeration);
        piece.append("] ");
        ansi_color(args.colors.detail, false, piece.as_str())
    } else {
        String::new()
    }
}

fn styled_details_of(tree: &Tree, args: &RippyArgs) -> (r: String)
    ensures
        r@ == (if details_text(tree@, args).len() == 0 {
            details_text(tree@, args)
        } else {
            styled(color_view(args.colors.detail), false, details_text(tree@, args))
        }),
{
    let details = details_of(tree, args);
    if details.as_str().is_empty() {
        details
    } else {
        ansi_color(args.colors.detail, false, details.as_str())
    }
}

fn styled_name_of(tree: &Tree, args: &RippyArgs) -> (r: String)
    ensures
        r@ == styled(
            color_view(name_color(tree@, args)),
            tree@.entry_type == EntryType::Directory && !args.is_grayscale,
            tree@.display,
        ),
{
    let (color, bold) = match tree.entry_type {
        EntryType::Directory => (args.colors.dir, !args.is_grayscale),
        EntryType::File => (
            if args.is_grayscale || tree.path.is_none() {
                None
            } else if tree.executable {
                args.colors.executable
            } else {
                args.colors.file
            },
            false,
        ),
    };
    ansi_color(color, bold, tree.display.as_str())
}

fn padding_of(tree: &Tree, args: &RippyArgs) -> (r: String)
    ensures
        r@ == padding(tree@, args),
{
    if tree.entry_type == EntryType::File && args.is_search && args.is_window {
        match tree.fmt_width {
            Some(width) => {
                let len = byte_length(tree.display.as_str());
                let gap = if width > len {
                    width - len
                } else {
                    0
                };
                let mut r = repeat_str(" ", gap);
                r.append(" ");
                r
            },
            None => String::new(),
        }
    } else {
        String::new()
    }
}

fn window_of_node(tree: &Tree) -> (r: String)
    ensures
        r@ == (match tree@.window {
            Some(window) => window,
            None => Seq::empty(),
        }),
{
    match &tree.window {
        Some(window) => window.clone(),
        None => String::new(),
    }
}

fn line_of(
    tree: &Tree,
    enumeration: &str,
    depth: u32,
    prefix: &str,
    is_last: bool,
    args: &RippyArgs,
) -> (r: String)
    ensures
        r@ == if depth == 0 {
            root_line(tree@, args)
        } else {
            entry_line(tree@, enumeration@, depth, prefix@, is_last, args)
        },
{
    let mut r = String::from_str(" ");
    if depth == 0 {
        r.append(
            ansi_color(args.colors.root, !args.is_grayscale, tree.display.as_str()).as_str(),
        );
        r.append("\n");
        return r;
    }
    r.append(prefix);
    r.append(connector_of(depth, is_last, args).as_str());
    r.append(enumeration_prefix_of(enumeration, args).as_str());
    r.append(styled_details_of(tree, args).as_str());
    r.append(styled_name_of(tree, args).as_str());
    r.append(padding_of(tree, args).as_str());
    r.append(window_of_node(tree).as_str());
    r.append("\n");
    r
}

fn prefix_below(prefix: &str, depth: u32, is_last: bool, args: &RippyArgs) -> (r: String)
    ensures
        r@ == child_prefix(prefix@, depth, is_last, args),
{
    if args.is_flat {
        String::new()
    } else if depth == 0 {
        String::from_str(prefix)
    } else if is_last {
        let mut r = String::from_str(prefix);
        r.append(repeat_str("\u{a0}", args.indent).as_str());
        r.append(" ");
        r.append(" ");
        r
    } else {
        let mut r = String::from_str(prefix);
        r.append(ansi_color(level_color_of(depth, args), false, "\u{2502}").as_str());
        r.append(repeat_str("\u{a0}", args.indent).as_str());
        r.append(" ");
        r
    }
}

fn enumeration_for(i: usize, count: usize, args: &RippyArgs) -> (r: String)
    requires
        i < count,
    ensures
        r@ == enumeration_of(i as nat, count as nat, args),
{
    if args.is_enumerate {
        let widest = count_digits_log(count);
        let own = count_digits_log(i + 1);
        let gap = if widest > own {
            widest - own
        } else {
            0
        };
        let mut r = repeat_str(" ", gap);
        r.append(usize_to_string(i + 1).as_str());
        r
    } else {
        String::new()
    }
}

proof fn lemma_rendered_upto_grows(
    kids: Seq<TreeModel>,
    i: nat,
    n: nat,
    depth: u32,
    prefix: Seq<char>,
    args: &RippyArgs,
)
    requires
        i <= n <= kids.len(),
    ensures
        rendered_upto(kids, i, depth, prefix, args).dirs <= rendered_upto(
            kids,
            n,
            depth,
            prefix,
            args,
        ).dirs,
        rendered_upto(kids, i, depth, prefix, args).files <= rendered_upto(
            kids,
            n,
            depth,
            prefix,
            args,
        ).files,
    decreases n - i,
{
    if i < n {
        lemma_rendered_upto_grows(kids, i, (n - 1) as nat, depth, prefix, args);
    }
}

proof fn lemma_rendered_upto_trees(
    kids: Seq<TreeModel>,
    n: nat,
    depth: u32,
    prefix: Seq<char>,
    args: &RippyArgs,
)
    requires
        n <= kids.len(),
    ensures
        rendered_upto(kids, n, depth, prefix, args).trees.len() == n,
        forall|j: int|
            0 <= j < n ==> (#[trigger] rendered_upto(kids, n, depth, prefix, args).trees[j])
                == rendered(
                kids[j],
                enumeration_of(j as nat, kids.len(), args),
                depth,
                prefix,
                j + 1 == kids.len(),
                args,
            ).tree,
    decreases n,
{
    if n > 0 {
        lemma_rendered_upto_trees(kids, (n - 1) as nat, depth, prefix, args);
    }
}

/// Shows the siblings `children`, one after the other.
fn write_children(
    children: &mut Vec<Tree>,
    depth: u32,
    prefix: &str,
    args: &RippyArgs,
    counts: &mut TreeCounts,
    writer: &mut String,
)
    requires
        old(counts).dir_count + rendered_upto(
            models_of(old(children)@),
            old(children)@.len() as nat,
            depth,
            prefix@,
            args,
        ).dirs <= usize::MAX,
        old(counts).file_count + rendered_upto(
            models_of(old(children)@),
            old(children)@.len() as nat,
            depth,
            prefix@,
            args,
        ).files <= usize::MAX,
    ensures
        final(writer)@ == old(writer)@ + rendered_upto(
            models_of(old(children)@),
            old(children)@.len() as nat,
            depth,
            prefix@,
            args,
        ).text,
        models_of(final(children)@) == rendered_upto(
            models_of(old(children)@),
            old(children)@.len() as nat,
            depth,
            prefix@,
            args,
        ).trees,
        final(counts).dir_count == old(counts).dir_count + rendered_upto(
            models_of(old(children)@),
            old(children)@.len() as nat,
            depth,
            prefix@,
            args,
        ).dirs,
        final(counts).file_count == old(counts).file_count + rendered_upto(
            models_of(old(children)@),
            old(children)@.len() as nat,
            depth,
            prefix@,
            args,
        ).files,
    decreases weights(models_of(old(children)@)), 1nat,
{
    let ghost given = children@;
    let ghost kids = models_of(given);
    let ghost mid = *counts;
    let ghost mid_text = writer@;
    let n = children.len();
    proof {
        lemma_models_of(given);
    }
    let mut i: usize = 0;
    while i < n
        invariant
            i <= n,
            n == kids.len(),
            n == given.len(),
            given == old(children)@,
            kids == models_of(given),
            children@.len() == n,
            forall|j: int| i <= j < n ==> (#[trigger] children@[j]) == given[j],
            forall|j: int| 0 <= j < n ==> (#[trigger] kids[j]) == tree_model(given[j]),
            forall|j: int|
                0 <= j < i ==> tree_model(#[trigger] children@[j]) == rendered(
                    kids[j],
                    enumeration_of(j as nat, n as nat, args),
                    depth,
                    prefix@,
                    j + 1 == n,
                    args,
                ).tree,
            writer@ == mid_text + rendered_upto(kids, i as nat, depth, prefix@, args).text,
            counts.dir_count == mid.dir_count + rendered_upto(
                kids,
                i as nat,
                depth,
                prefix@,
                args,
            ).dirs,
            counts.file_count == mid.file_count + rendered_upto(
                kids,
                i as nat,
                depth,
                prefix@,
                args,
            ).files,
            mid.dir_count + rendered_upto(kids, n as nat, depth, prefix@, args).dirs <= usize::MAX,
            mid.file_count + rendered_upto(kids, n as nat, depth, prefix@, args).files
                <= usize::MAX,
        decreases n - i,
    {
        let label = enumeration_for(i, n, args);
        proof {
            lemma_rendered_upto_grows(kids, (i + 1) as nat, n as nat, depth, prefix@, args);
            lemma_weights_member(kids, i as int);
        }
        let ghost before = children@;
        let ghost upto = rendered_upto(kids, i as nat, depth, prefix@, args);
        let ghost this = rendered(
            kids[i as int],
            enumeration_of(i as nat, n as nat, args),
            depth,
            prefix@,
            i + 1 == n,
            args,
        );
        assert(rendered_upto(kids, (i + 1) as nat, depth, prefix@, args).text == upto.text
            + this.text);
        let child = &mut children[i];
        write_tree_to_buf(child, label.as_str(), depth, prefix, i == n - 1, args, counts, writer);
        proof {
            assert(children@ =~= before.update(i as int, children@[i as int]));
            assert(writer@ =~= mid_text + (upto.text + this.text));
        }
        i = i + 1;
    }
    proof {
        lemma_rendered_upto_trees(kids, n as nat, depth, prefix@, args);
        lemma_models_of(children@);
        assert(models_of(children@) =~= rendered_upto(kids, n as nat, depth, prefix@, args).trees);
    }
}

/// Writes the listing of `tree` and of all that is below it to `writer`,
/// and adds the directories and files shown to `counts`. The children of
/// every directory are left in the order and number in which they were
/// shown.
pub fn write_tree_to_buf(
    tree: &mut Tree,
    enumeration: &str,
    depth: u32,
    prefix: &str,
    is_last: bool,
    args: &RippyArgs,
    counts: &mut TreeCounts,
    writer: &mut String,
)
    requires
        old(counts).dir_count + rendered(
            old(tree)@,
            enumeration@,
            depth,
            prefix@,
            is_last,
            args,
        ).dirs <= usize::MAX,
        old(counts).file_count + rendered(
            old(tree)@,
            enumeration@,
            depth,
            prefix@,
            is_last,
            args,
        ).files <= usize::MAX,
    ensures
        final(writer)@ == old(writer)@ + rendered(
            old(tree)@,
            enumeration@,
            depth,
            prefix@,
            is_last,
            args,
        ).text,
        final(tree)@ == rendered(old(tree)@, enumeration@, depth, prefix@, is_last, args).tree,
        final(counts).dir_count == old(counts).dir_count + rendered(
            old(tree)@,
            enumeration@,
            depth,
            prefix@,
            is_last,
            args,
        ).dirs,
        final(counts).file_count == old(counts).file_count + rendered(
            old(tree)@,
            enumeration@,
            depth,
            prefix@,
            is_last,
            args,
        ).files,
        old(tree)@.wf() ==> final(tree)@.wf(),
    decreases weight(old(tree)@), 0nat,
{
    let ghost node = tree@;
    proof {
        if node.wf() {
            lemma_rendered_wf(node, enumeration@, depth, prefix@, is_last, args);
        }
    }
    let ghost whole = rendered(node, enumeration@, depth, prefix@, is_last, args);
    let ghost kids = arranged(node.children, args);
    let ghost start_text = writer@;
    let line = line_of(tree, enumeration, depth, prefix, is_last, args);
    writer.append(line.as_str());
    if depth != 0 {
        match tree.entry_type {
            EntryType::Directory => {
                counts.dir_count = counts.dir_count + 1;
            },
            EntryType::File => {
                counts.file_count = counts.file_count + 1;
            },
        }
    }
    let below = prefix_below(prefix, depth, is_last, args);
    let next = if depth < u32::MAX {
        depth + 1
    } else {
        depth
    };
    let extra = arrange_children(&mut tree.children, args);
    counts.file_count = counts.file_count + extra;
    proof {
        lemma_arranged_weights(node.children, args);
        lemma_models_of(tree.children@);
        assert(models_of(tree.children@) == kids);
        assert(tree.children@.len() == kids.len());
    }
    let ghost all = rendered_upto(kids, kids.len(), next, below@, args);
    assert(whole.dirs == all.dirs + (if depth != 0 && node.entry_type == EntryType::Directory {
        1nat
    } else {
        0nat
    }));
    assert(whole.files == all.files + unseen(node.children, args) + (if depth != 0
        && node.entry_type == EntryType::File {
        1nat
    } else {
        0nat
    }));
    assert(whole.text == line@ + all.text + (if depth == 1 && is_last {
        "\n"@
    } else {
        Seq::empty()
    }));
    write_children(&mut tree.children, next, below.as_str(), args, counts, writer);
    if depth == 1 && is_last {
        writer.append("\n");
    } else {
        assert(start_text + line@ + all.text + Seq::<char>::empty() =~= start_text + line@
            + all.text);
    }
    assert(writer@ =~= start_text + whole.text);
}

/// Showing a tree leaves it well formed.
pub proof fn lemma_rendered_wf(
    node: TreeModel,
    enumeration: Seq<char>,
    depth: u32,
    prefix: Seq<char>,
    is_last: bool,
    args: &RippyArgs,
)
    requires
        node.wf(),
    ensures
        rendered(node, enumeration, depth, prefix, is_last, args).tree.wf(),
        rendered(node, enumeration, depth, prefix, is_last, args).tree.name == node.name,
    decreases weight(node), 0nat,
{
    let kids = arranged(node.children, args);
    lemma_arranged_wf(node.children, args);
    lemma_arranged_weights(node.children, args);
    let next = deeper(depth);
    let below = child_prefix(prefix, depth, is_last, args);
    lemma_rendered_wf_upto(kids, kids.len(), next, below, args);
    lemma_rendered_upto_trees(kids, kids.len(), next, below, args);
    let trees = rendered_upto(kids, kids.len(), next, below, args).trees;
    lemma_all_wf_from_members(trees);
    assert forall|i: int, j: int| 0 <= i < j < trees.len() implies (#[trigger] trees[i]).name != (
    #[trigger] trees[j]).name by {
        assert(trees[i].name == kids[i].name);
        assert(trees[j].name == kids[j].name);
    }
}

proof fn lemma_rendered_wf_upto(
    kids: Seq<TreeModel>,
    n: nat,
    depth: u32,
    prefix: Seq<char>,
    args: &RippyArgs,
)
    requires
        n <= kids.len(),
        all_wf(kids),
    ensures
        rendered_upto(kids, n, depth, prefix, args).trees.len() == n,
        forall|j: int|
            0 <= j < n ==> (#[trigger] rendered_upto(kids, n, depth, prefix, args).trees[j]).wf()
                && rendered_upto(kids, n, depth, prefix, args).trees[j].name == kids[j].name,
    decreases weights(kids), n,
{
    if n > 0 {
        lemma_rendered_wf_upto(kids, (n - 1) as nat, depth, prefix, args);
        lemma_weights_member(kids, n - 1);
        lemma_all_wf_member(kids, n - 1);
        lemma_rendered_wf(
            kids[n - 1],
            enumeration_of((n - 1) as nat, kids.len(), args),
            depth,
            prefix,
            n == kids.len(),
            args,
        );
    }
}

proof fn lemma_digit_count_grows(a: nat, b: nat)
    requires
        a <= b,
    ensures
        digit_count(a) <= digit_count(b),
    decreases b,
{
    if b >= 10 && a >= 10 {
        lemma_digit_count_grows(a / 10, b / 10);
    }
}

proof fn lemma_repeated_len(unit: Seq<char>, n: nat)
    ensures
        repeated(unit, n).len() == n * unit.len(),
    decreases n,
{
    if n > 0 {
        lemma_repeated_len(unit, (n - 1) as nat);
        assert(n * unit.len() == (n - 1) * unit.len() + unit.len()) by (nonlinear_arith);
    } else {
        assert(0 * unit.len() == 0) by (nonlinear_arith);
    }
}

/// Where positions are shown, the positions of all the children of one node
/// take the same room: that of the last position.
pub proof fn lemma_enumeration_width(i: nat, count: nat, args: &RippyArgs)
    requires
        i < count,
        args.is_enumerate,
    ensures
        enumeration_of(i, count, args).len() == digit_count(count),
{
    reveal_strlit(" ");
    lemma_digit_count_grows(i + 1, count);
    lemma_decimal_len(i + 1);
    let gap = (digit_count(count) - digit_count(i + 1)) as nat;
    lemma_repeated_len(" "@, gap);
    assert(gap * 1 == gap) by (nonlinear_arith);
}

} // verus!
