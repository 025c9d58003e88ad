//! The tree as it leaves the program for a structured export.

use vstd::prelude::*;
use vstd::string::*;
use crate::args::RippyArgs;
use crate::format::{date_text, format_json_datetime, format_json_window, stripped_from};
use crate::snippet::opt_view;
use crate::tree::{lemma_models_of, models_of, tree_model, EntryType, Tree, TreeModel};

verus! {

/// One node of the export: the fields of a tree node that leave the
/// program, as they are written out.
#[derive(Debug, PartialEq, Eq)]
pub struct JsonNode {
    pub name: String,
    pub entry_type: String,
    pub last_modified: Option<String>,
    pub size: Option<u64>,
    pub window: Option<String>,
    pub children: Vec<JsonNode>,
}

/// What an export node is, as a mathematical value.
pub struct JsonModel {
    pub name: Seq<char>,
    pub entry_type: Seq<char>,
    pub last_modified: Option<Seq<char>>,
    pub size: Option<u64>,
    pub window: Option<Seq<char>>,
    pub children: Seq<JsonModel>,
}

/// The model of an export node.
pub open spec fn json_model(node: JsonNode) -> JsonModel
    decreases node,
{
    JsonModel {
        name: node.name@,
        entry_type: node.entry_type@,
        last_modified: opt_view(node.last_modified),
        size: node.size,
        window: opt_view(node.window),
        children: json_models(node.children@),
    }
}

/// The models of a list of export nodes.
pub open spec fn json_models(nodes: Seq<JsonNode>) -> Seq<JsonModel>
    decreases nodes,
{
    if nodes.len() == 0 {
        Seq::empty()
    } else {
        json_models(nodes.drop_last()).push(json_model(nodes.last()))
    }
}

impl View for JsonNode {
    type V = JsonModel;

    open spec fn view(&self) -> JsonModel {
        json_model(*self)
    }
}

/// The export of a tree: of every node its name, the name of its kind, its
/// time of last change as date and time of day, its size, its search window
/// without escape sequences, and the exports of its children in their
/// order.
pub open spec fn exported(node: TreeModel) -> JsonModel
    decreases node,
{
    JsonModel {
        name: node.name,
        entry_type: match node.entry_type {
            EntryType::Directory => "Directory"@,
            EntryType::File => "File"@,
        },
        last_modified: match node.last_modified {
            Some(stamp) => Some(date_text(stamp, "%Y-%m-%d %H:%M:%S"@)),
            None => None,
        },
        size: node.size,
        window: match node.window {
            Some(text) => Some(stripped_from(text, 0)),
            None => None,
        },
        children: exported_all(node.children),
    }
}

/// The exports of a list of nodes.
pub open spec fn exported_all(nodes: Seq<TreeModel>) -> Seq<JsonModel>
    decreases nodes,
{
    if nodes.len() == 0 {
        Seq::empty()
    } else {
        exported_all(nodes.drop_last()).push(exported(nodes.last()))
    }
}

proof fn lemma_json_push(nodes: Seq<JsonNode>, node: JsonNode)
    ensures
        json_models(nodes.push(node)) == json_models(nodes).push(json_model(node)),
{
    assert(nodes.push(node).drop_last() =~= nodes);
}

impl Tree {
    /// The export of this node and of all that is below it.
    pub fn to_json(&self, settings: &RippyArgs) -> (r: JsonNode)
        ensures
            r@ == exported(self@),
        decreases self,
    {
        let ghost models = models_of(self.children@);
        let mut children: Vec<JsonNode> = Vec::new();
        let n = self.children.len();
        let mut i: usize = 0;
        proof {
            lemma_models_of(self.children@);
            assert(models.subrange(0, 0) =~= Seq::<TreeModel>::empty());
        }
        while i < n
            invariant
                i <= n,
                n == self.children@.len(),
                models == models_of(self.children@),
                models.len() == n,
                forall|j: int| 0 <= j < n ==> (#[trigger] models[j]) == tree_model(self.children@[j]),
                json_models(children@) == exported_all(models.subrange(0, i as int)),
            decreases n - i,
        {
            proof {
                assert(models.subrange(0, i + 1).drop_last() =~= models.subrange(0, i as int));
                assert(models.subrange(0, i + 1).last() == models[i as int]);
            }
            let child = self.children[i].to_json(settings);
            proof {
                lemma_json_push(children@, child);
            }
            children.push(child);
            i = i + 1;
        }
        assert(models.subrange(0, n as int) =~= models);
        JsonNode {
            name: self.name.clone(),
            entry_type: String::from_str(self.entry_type.label()),
            last_modified: format_json_datetime(self.last_modified),
            size: self.size,
            window: format_json_window(&self.window),
            children,
        }
    }
}

} // verus!
