//! The node model: a document is a tree of folders and items.
//!
//! A folder maps child names to child nodes; an item is a leaf carrying a
//! text payload. In specifications a tree is abstracted to [`NodeV`], where
//! names and payloads are character sequences.

use vstd::prelude::*;

verus! {

/// A leaf payload: an opaque text value.
#[derive(Debug)]
pub struct ItemAsset {
    pub text: String,
}

/// A folder node: an ordered mapping from child name to child node.
/// Child names are unique in a well-formed tree (see [`wf_node`]).
#[derive(Debug)]
pub struct FolderAsset {
    pub children: Vec<(String, JsonObject)>,
}

/// A node of a decoded document: either a folder or an item.
#[derive(Debug)]
pub enum JsonObject {
    Folder(FolderAsset),
    Item(ItemAsset),
}

/// The root of a decoded document.
#[derive(Debug)]
pub struct RootAsset(pub JsonObject);

/// The mathematical abstraction of a node tree.
pub enum NodeV {
    Folder(Seq<(Seq<char>, NodeV)>),
    Item(Seq<char>),
}

impl ItemAsset {
    pub open spec fn view(&self) -> Seq<char> {
        self.text@
    }
}

impl Clone for ItemAsset {
    /// Cloning an item keeps its payload.
    fn clone(&self) -> (r: Self)
        ensures
            r@ == self@,
    {
        ItemAsset { text: self.text.clone() }
    }
}

/// The abstraction of one node, folding names and payloads to their views.
pub open spec fn node_view(n: JsonObject) -> NodeV
    decreases n, 1int,
{
    match n {
        JsonObject::Item(it) => NodeV::Item(it.text@),
        JsonObject::Folder(f) => NodeV::Folder(children_view(f.children@, 0)),
    }
}

/// The abstraction of the children from index `k` on.
pub open spec fn children_view(cs: Seq<(String, JsonObject)>, k: int) -> Seq<(Seq<char>, NodeV)>
    decreases cs, cs.len() - k,
{
    if 0 <= k < cs.len() {
        seq![(cs[k].0@, node_view(cs[k].1))] + children_view(cs, k + 1)
    } else {
        Seq::empty()
    }
}

/// Index form of [`children_view`]: the abstraction of the suffix from `k`
/// pairs each child with the view of its name and node.
pub proof fn lemma_children_view_index(cs: Seq<(String, JsonObject)>, k: int)
    requires
        0 <= k <= cs.len(),
    ensures
        children_view(cs, k).len() == cs.len() - k,
        forall|j: int|
            0 <= j < cs.len() - k ==> #[trigger] children_view(cs, k)[j] == (
            cs[j + k].0@,
            node_view(cs[j + k].1),
            ),
    decreases cs.len() - k,
{
    if k < cs.len() {
        lemma_children_view_index(cs, k + 1);
        assert forall|j: int| 0 <= j < cs.len() - k implies #[trigger] children_view(cs, k)[j]
            == (cs[j + k].0@, node_view(cs[j + k].1)) by {
            if j > 0 {
                assert(children_view(cs, k)[j] == children_view(cs, k + 1)[j - 1]);
            }
        }
    }
}

/// Appending one child extends the children's abstraction by its view.
pub proof fn lemma_children_view_push(cs: Seq<(String, JsonObject)>, name: String, n: JsonObject)
    ensures
        children_view(cs.push((name, n)), 0) == children_view(cs, 0) + seq![(name@, node_view(n))],
{
    lemma_children_view_index(cs, 0);
    lemma_children_view_index(cs.push((name, n)), 0);
    assert forall|j: int| 0 <= j < cs.len() + 1 implies #[trigger] children_view(
        cs.push((name, n)),
        0,
    )[j] == (children_view(cs, 0) + seq![(name@, node_view(n))])[j] by {
        if j < cs.len() {
            assert(cs.push((name, n))[j] == cs[j]);
        } else {
            assert(cs.push((name, n))[j] == (name, n));
        }
    }
    assert(children_view(cs.push((name, n)), 0) =~= children_view(cs, 0) + seq![
        (name@, node_view(n)),
    ]);
}

/// Children that are each well-formed make a well-formed child sequence.
pub proof fn lemma_wf_children_from_each(cs: Seq<(Seq<char>, NodeV)>, k: int)
    requires
        0 <= k <= cs.len(),
        forall|a: int| 0 <= a < cs.len() ==> wf_node((#[trigger] cs[a]).1),
    ensures
        wf_children(cs, k),
    decreases cs.len() - k,
{
    if k < cs.len() {
        lemma_wf_children_from_each(cs, k + 1);
    }
}

impl JsonObject {
    pub open spec fn view(&self) -> NodeV {
        node_view(*self)
    }
}

impl RootAsset {
    pub open spec fn view(&self) -> NodeV {
        node_view(self.0)
    }
}

/// The names of a folder's children, in order.
pub open spec fn child_names(cs: Seq<(Seq<char>, NodeV)>) -> Seq<Seq<char>> {
    cs.map_values(|c: (Seq<char>, NodeV)| c.0)
}

/// Whether all elements of a name sequence are distinct.
pub open spec fn names_unique(names: Seq<Seq<char>>) -> bool {
    forall|i: int, j: int| 0 <= i < j < names.len() ==> names[i] != names[j]
}

/// Well-formedness of a tree: within every folder, child names are unique.
pub open spec fn wf_node(n: NodeV) -> bool
    decreases n, 1int,
{
    match n {
        NodeV::Item(_) => true,
        NodeV::Folder(cs) => names_unique(child_names(cs)) && wf_children(cs, 0),
    }
}

/// Well-formedness of the children from index `k` on.
pub open spec fn wf_children(cs: Seq<(Seq<char>, NodeV)>, k: int) -> bool
    decreases cs, cs.len() - k,
{
    if 0 <= k < cs.len() {
        wf_node(cs[k].1) && wf_children(cs, k + 1)
    } else {
        true
    }
}

} // verus!
