//! The flattening engine.
//!
//! Flattening walks a decoded tree and yields one `(path, item)` pair per
//! leaf item, where the path joins the folder names from the root of the walk
//! down to the leaf with `.`. An item node yields exactly one pair under the
//! given prefix; a folder yields the pairs of its children in order, each
//! child flattened under the prefix extended by its name.

use vstd::prelude::*;

use crate::model::ItemAsset;
use crate::model::JsonObject;
use crate::model::NodeV;
use crate::model::RootAsset;
use crate::model::child_names;
use crate::model::children_view;
use crate::model::lemma_children_view_index;
use crate::model::names_unique;
use crate::model::node_view;
use crate::model::wf_children;
use crate::model::wf_node;
use crate::paths::dot_free;
use crate::paths::ext_path;
use crate::paths::join2;
use crate::paths::join_path;
use crate::paths::join_segs;
use crate::paths::lemma_ext_path_join;
use crate::paths::lemma_join2_cancel;
use crate::paths::lemma_join_segs_injective;
use crate::paths::segs_ok;

verus! {

/// The pairs yielded by flattening `n` under `prefix`.
pub open spec fn flatten_spec(n: NodeV, prefix: Seq<char>) -> Seq<(Seq<char>, Seq<char>)>
    decreases n, 1int,
{
    match n {
        NodeV::Item(t) => seq![(prefix, t)],
        NodeV::Folder(cs) => flatten_children_spec(cs, prefix, 0),
    }
}

/// The pairs yielded by the children from index `k` on, in order.
pub open spec fn flatten_children_spec(
    cs: Seq<(Seq<char>, NodeV)>,
    prefix: Seq<char>,
    k: int,
) -> Seq<(Seq<char>, Seq<char>)>
    decreases cs, cs.len() - k,
{
    if 0 <= k < cs.len() {
        flatten_spec(cs[k].1, join2(prefix, cs[k].0)) + flatten_children_spec(cs, prefix, k + 1)
    } else {
        Seq::empty()
    }
}

/// The pairs yielded by flattening a whole document: a folder root yields its
/// children under their own names; an item root yields nothing.
pub open spec fn flatten_doc_spec(root: NodeV) -> Seq<(Seq<char>, Seq<char>)> {
    match root {
        NodeV::Folder(cs) => flatten_children_spec(cs, Seq::empty(), 0),
        NodeV::Item(_) => Seq::empty(),
    }
}

/// The leaves of a tree: for each leaf item, the names on the way from the
/// root of `n` down to it, and its payload.
pub open spec fn leaves(n: NodeV) -> Seq<(Seq<Seq<char>>, Seq<char>)>
    decreases n, 1int,
{
    match n {
        NodeV::Item(t) => seq![(Seq::empty(), t)],
        NodeV::Folder(cs) => leaves_children(cs, 0),
    }
}

/// The leaves reached through the children from index `k` on.
pub open spec fn leaves_children(
    cs: Seq<(Seq<char>, NodeV)>,
    k: int,
) -> Seq<(Seq<Seq<char>>, Seq<char>)>
    decreases cs, cs.len() - k,
{
    if 0 <= k < cs.len() {
        prepend_all(cs[k].0, leaves(cs[k].1)) + leaves_children(cs, k + 1)
    } else {
        Seq::empty()
    }
}

/// Prepends one name to every leaf's name sequence.
pub open spec fn prepend_all(
    name: Seq<char>,
    ls: Seq<(Seq<Seq<char>>, Seq<char>)>,
) -> Seq<(Seq<Seq<char>>, Seq<char>)> {
    ls.map_values(|l: (Seq<Seq<char>>, Seq<char>)| (seq![name] + l.0, l.1))
}

/// Every folder name in the tree satisfies `pred`.
pub open spec fn all_names(n: NodeV, pred: spec_fn(Seq<char>) -> bool) -> bool
    decreases n, 1int,
{
    match n {
        NodeV::Item(_) => true,
        NodeV::Folder(cs) => all_names_children(cs, pred, 0),
    }
}

/// Every name of, and below, the children from index `k` on satisfies `pred`.
pub open spec fn all_names_children(
    cs: Seq<(Seq<char>, NodeV)>,
    pred: spec_fn(Seq<char>) -> bool,
    k: int,
) -> bool
    decreases cs, cs.len() - k,
{
    if 0 <= k < cs.len() {
        pred(cs[k].0) && all_names(cs[k].1, pred) && all_names_children(cs, pred, k + 1)
    } else {
        true
    }
}

/// Every folder name in the tree is non-empty.
pub open spec fn names_nonempty(n: NodeV) -> bool {
    all_names(n, (|s: Seq<char>| s.len() > 0))
}

/// Every folder name in the tree is non-empty and free of the separator.
pub open spec fn names_ok(n: NodeV) -> bool {
    all_names(n, (|s: Seq<char>| s.len() > 0 && dot_free(s)))
}

/// The abstraction of a yielded pair vector.
pub open spec fn pairs_view(v: Seq<(String, ItemAsset)>) -> Seq<(Seq<char>, Seq<char>)> {
    v.map_values(|p: (String, ItemAsset)| (p.0@, p.1.text@))
}

/// Flattening yields exactly the leaves, each keyed by the prefix extended
/// with the names down to the leaf.
pub proof fn lemma_flatten_is_leaves(n: NodeV, prefix: Seq<char>)
    ensures
        flatten_spec(n, prefix).len() == leaves(n).len(),
        forall|i: int|
            0 <= i < leaves(n).len() ==> #[trigger] flatten_spec(n, prefix)[i] == (
            ext_path(prefix, leaves(n)[i].0),
            leaves(n)[i].1,
            ),
    decreases n, 1int,
{
    match n {
        NodeV::Item(_) => {
        },
        NodeV::Folder(cs) => {
            lemma_flatten_children_is_leaves(cs, prefix, 0);
        },
    }
}

proof fn lemma_flatten_children_is_leaves(cs: Seq<(Seq<char>, NodeV)>, prefix: Seq<char>, k: int)
    ensures
        flatten_children_spec(cs, prefix, k).len() == leaves_children(cs, k).len(),
        forall|i: int|
            0 <= i < leaves_children(cs, k).len() ==> #[trigger] flatten_children_spec(
                cs,
                prefix,
                k,
            )[i] == (ext_path(prefix, leaves_children(cs, k)[i].0), leaves_children(cs, k)[i].1),
    decreases cs, cs.len() - k,
{
    if 0 <= k < cs.len() {
        let name = cs[k].0;
        let sub = leaves(cs[k].1);
        lemma_flatten_is_leaves(cs[k].1, join2(prefix, name));
        lemma_flatten_children_is_leaves(cs, prefix, k + 1);
        assert forall|i: int| 0 <= i < sub.len() implies ext_path(prefix, seq![name] + sub[i].0)
            == ext_path(join2(prefix, name), sub[i].0) by {
            let segs = seq![name] + sub[i].0;
            assert(segs.drop_first() =~= sub[i].0);
        }
        assert forall|i: int| 0 <= i < leaves_children(cs, k).len() implies
            #[trigger] flatten_children_spec(cs, prefix, k)[i] == (
            ext_path(prefix, leaves_children(cs, k)[i].0),
            leaves_children(cs, k)[i].1,
        ) by {
            if i < sub.len() {
                assert(prepend_all(name, sub)[i] == (seq![name] + sub[i].0, sub[i].1));
                assert(leaves_children(cs, k)[i] == prepend_all(name, sub)[i]);
                assert(flatten_children_spec(cs, prefix, k)[i] == flatten_spec(
                    cs[k].1,
                    join2(prefix, name),
                )[i]);
            }
        }
    }
}

/// Every leaf of a tree whose names satisfy `pred` has only `pred` names on
/// its way, and under a folder its way is non-empty.
proof fn lemma_leaves_names(n: NodeV, pred: spec_fn(Seq<char>) -> bool)
    requires
        all_names(n, pred),
    ensures
        forall|i: int, t: int|
            0 <= i < leaves(n).len() && 0 <= t < leaves(n)[i].0.len() ==> pred(
                #[trigger] leaves(n)[i].0[t],
            ),
        n is Folder ==> forall|i: int|
            0 <= i < leaves(n).len() ==> (#[trigger] leaves(n)[i]).0.len() > 0,
    decreases n, 1int,
{
    match n {
        NodeV::Item(_) => {
            assert(leaves(n).len() == 1);
            assert(leaves(n)[0].0.len() == 0);
        },
        NodeV::Folder(cs) => {
            lemma_leaves_children_names(cs, pred, 0);
            assert(leaves(n) == leaves_children(cs, 0));
        },
    }
}

proof fn lemma_leaves_children_names(
    cs: Seq<(Seq<char>, NodeV)>,
    pred: spec_fn(Seq<char>) -> bool,
    k: int,
)
    requires
        all_names_children(cs, pred, k),
    ensures
        forall|i: int, t: int|
            0 <= i < leaves_children(cs, k).len() && 0 <= t < leaves_children(cs, k)[i].0.len()
                ==> pred(#[trigger] leaves_children(cs, k)[i].0[t]),
        forall|i: int|
            0 <= i < leaves_children(cs, k).len() ==> (#[trigger] leaves_children(
                cs,
                k,
            )[i]).0.len() > 0,
    decreases cs, cs.len() - k,
{
    if 0 <= k < cs.len() {
        let name = cs[k].0;
        let sub = leaves(cs[k].1);
        lemma_leaves_names(cs[k].1, pred);
        lemma_leaves_children_names(cs, pred, k + 1);
        assert forall|i: int, t: int|
            0 <= i < leaves_children(cs, k).len() && 0 <= t < leaves_children(cs, k)[i].0.len()
                implies pred(#[trigger] leaves_children(cs, k)[i].0[t]) by {
            if i < sub.len() {
                assert(prepend_all(name, sub)[i] == (seq![name] + sub[i].0, sub[i].1));
                assert(leaves_children(cs, k)[i] == prepend_all(name, sub)[i]);
                let way = (seq![name] + sub[i].0);
                if t == 0 {
                    assert(way[0] == name);
                } else {
                    assert(way[t] == sub[i].0[t - 1]);
                }
            } else {
                assert(leaves_children(cs, k)[i] == leaves_children(cs, k + 1)[i - sub.len()]);
                assert(pred(leaves_children(cs, k + 1)[i - sub.len()].0[t]));
            }
        }
        assert forall|i: int| 0 <= i < leaves_children(cs, k).len() implies (
        #[trigger] leaves_children(cs, k)[i]).0.len() > 0 by {
            if i < sub.len() {
                assert(prepend_all(name, sub)[i] == (seq![name] + sub[i].0, sub[i].1));
                assert(leaves_children(cs, k)[i] == prepend_all(name, sub)[i]);
            } else {
                assert(leaves_children(cs, k)[i] == leaves_children(cs, k + 1)[i - sub.len()]);
            }
        }
    }
}

/// In a well-formed tree, no two leaves are reached through the same names.
pub proof fn lemma_leaves_distinct(n: NodeV)
    requires
        wf_node(n),
    ensures
        forall|i: int, j: int|
            0 <= i < j < leaves(n).len() ==> (#[trigger] leaves(n)[i]).0 != (
            #[trigger] leaves(n)[j]).0,
    decreases n, 1int,
{
    match n {
        NodeV::Item(_) => {
            assert(leaves(n).len() == 1);
        },
        NodeV::Folder(cs) => {
            lemma_leaves_children_distinct(cs, 0);
            assert(leaves(n) == leaves_children(cs, 0));
        },
    }
}

proof fn lemma_leaves_children_distinct(cs: Seq<(Seq<char>, NodeV)>, k: int)
    requires
        names_unique(child_names(cs)),
        wf_children(cs, k),
    ensures
        forall|i: int, j: int|
            0 <= i < j < leaves_children(cs, k).len() ==> (#[trigger] leaves_children(
                cs,
                k,
            )[i]).0 != (#[trigger] leaves_children(cs, k)[j]).0,
        forall|i: int|
            0 <= i < leaves_children(cs, k).len() ==> (#[trigger] leaves_children(
                cs,
                k,
            )[i]).0.len() > 0 && (exists|m: int|
                k <= m < cs.len() && (#[trigger] cs[m]).0 == leaves_children(cs, k)[i].0[0]),
    decreases cs, cs.len() - k,
{
    if 0 <= k < cs.len() {
        let name = cs[k].0;
        let sub = leaves(cs[k].1);
        let pre = prepend_all(name, sub);
        lemma_leaves_distinct(cs[k].1);
        lemma_leaves_children_distinct(cs, k + 1);
        assert forall|i: int| 0 <= i < leaves_children(cs, k).len() implies (
        #[trigger] leaves_children(cs, k)[i]).0.len() > 0 && (exists|m: int|
            k <= m < cs.len() && (#[trigger] cs[m]).0 == leaves_children(cs, k)[i].0[0]) by {
            if i < sub.len() {
                assert(pre[i] == (seq![name] + sub[i].0, sub[i].1));
                assert(leaves_children(cs, k)[i] == pre[i]);
                assert((seq![name] + sub[i].0)[0] == name);
                assert(cs[k].0 == leaves_children(cs, k)[i].0[0]);
            } else {
                let r = leaves_children(cs, k + 1);
                assert(leaves_children(cs, k)[i] == r[i - pre.len()]);
            }
        }
        assert forall|i: int, j: int| 0 <= i < j < leaves_children(cs, k).len() implies (
        #[trigger] leaves_children(cs, k)[i]).0 != (#[trigger] leaves_children(cs, k)[j]).0 by {
            let r = leaves_children(cs, k + 1);
            if j < pre.len() {
                assert(pre[i] == (seq![name] + sub[i].0, sub[i].1));
                assert(pre[j] == (seq![name] + sub[j].0, sub[j].1));
                assert(leaves_children(cs, k)[i] == pre[i]);
                assert(leaves_children(cs, k)[j] == pre[j]);
                if (seq![name] + sub[i].0) == (seq![name] + sub[j].0) {
                    assert((seq![name] + sub[i].0).drop_first() =~= sub[i].0);
                    assert((seq![name] + sub[j].0).drop_first() =~= sub[j].0);
                    assert(sub[i].0 == sub[j].0);
                    assert(false);
                }
            } else if i < pre.len() {
                assert(pre[i] == (seq![name] + sub[i].0, sub[i].1));
                assert(leaves_children(cs, k)[i] == pre[i]);
                assert(leaves_children(cs, k)[j] == r[j - pre.len()]);
                let m = choose|m: int|
                    k + 1 <= m < cs.len() && (#[trigger] cs[m]).0 == r[j - pre.len()].0[0];
                assert(child_names(cs)[k] == name);
                assert(child_names(cs)[m] == cs[m].0);
                assert(name != cs[m].0);
                assert((seq![name] + sub[i].0)[0] == name);
            } else {
                assert(leaves_children(cs, k)[i] == r[i - pre.len()]);
                assert(leaves_children(cs, k)[j] == r[j - pre.len()]);
            }
        }
    }
}

/// Path uniqueness: flattening a well-formed tree whose folder names are
/// non-empty and free of `.` yields no two pairs with the same path.
pub proof fn lemma_path_uniqueness(n: NodeV, prefix: Seq<char>)
    requires
        wf_node(n),
        names_ok(n),
    ensures
        forall|i: int, j: int|
            0 <= i < j < flatten_spec(n, prefix).len() ==> (#[trigger] flatten_spec(
                n,
                prefix,
            )[i]).0 != (#[trigger] flatten_spec(n, prefix)[j]).0,
{
    let pred = (|s: Seq<char>| s.len() > 0 && dot_free(s));
    lemma_flatten_is_leaves(n, prefix);
    lemma_leaves_distinct(n);
    lemma_leaves_names(n, pred);
    match n {
        NodeV::Item(_) => {
        },
        NodeV::Folder(cs) => {
            assert forall|i: int, j: int| 0 <= i < j < flatten_spec(n, prefix).len() implies (
            #[trigger] flatten_spec(n, prefix)[i]).0 != (#[trigger] flatten_spec(
                n,
                prefix,
            )[j]).0 by {
                let li = leaves(n)[i].0;
                let lj = leaves(n)[j].0;
                assert(segs_ok(li));
                assert(segs_ok(lj));
                lemma_ext_path_join(prefix, li);
                lemma_ext_path_join(prefix, lj);
                if flatten_spec(n, prefix)[i].0 == flatten_spec(n, prefix)[j].0 {
                    lemma_join2_cancel(prefix, join_segs(li), join_segs(lj));
                    lemma_join_segs_injective(li, lj);
                    assert(false);
                }
            }
        },
    }
}

/// Path uniqueness for a whole document: flattening a well-formed document
/// whose folder names are non-empty and free of `.` yields no two pairs
/// with the same path.
pub proof fn lemma_doc_path_uniqueness(root: NodeV)
    requires
        wf_node(root),
        names_ok(root),
    ensures
        forall|i: int, j: int|
            0 <= i < j < flatten_doc_spec(root).len() ==> (#[trigger] flatten_doc_spec(
                root,
            )[i]).0 != (#[trigger] flatten_doc_spec(root)[j]).0,
{
    match root {
        NodeV::Item(_) => {
        },
        NodeV::Folder(_) => {
            assert(flatten_doc_spec(root) == flatten_spec(root, Seq::empty()));
            lemma_path_uniqueness(root, Seq::empty());
        },
    }
}

/// Path construction: flattening a document whose folder names are non-empty
/// yields one pair per leaf, keyed by the `.`-joined names from the root down
/// to, and including, the leaf's own key.
pub proof fn lemma_path_construction(root: NodeV)
    requires
        root is Folder,
        names_nonempty(root),
    ensures
        flatten_doc_spec(root).len() == leaves(root).len(),
        forall|i: int|
            0 <= i < leaves(root).len() ==> #[trigger] flatten_doc_spec(root)[i] == (
            join_segs(leaves(root)[i].0),
            leaves(root)[i].1,
            ),
{
    let pred = (|s: Seq<char>| s.len() > 0);
    let empty = Seq::<char>::empty();
    assert(flatten_doc_spec(root) == flatten_spec(root, empty));
    lemma_flatten_is_leaves(root, empty);
    lemma_leaves_names(root, pred);
    assert forall|i: int| 0 <= i < leaves(root).len() implies #[trigger] flatten_doc_spec(root)[i]
        == (join_segs(leaves(root)[i].0), leaves(root)[i].1) by {
        let li = leaves(root)[i].0;
        lemma_ext_path_join(empty, li);
    }
}

/// Flattening a folder with no children yields zero pairs.
pub proof fn lemma_flatten_empty_folder(cs: Seq<(Seq<char>, NodeV)>, prefix: Seq<char>)
    requires
        cs.len() == 0,
    ensures
        flatten_spec(NodeV::Folder(cs), prefix).len() == 0,
{
}

/// Flattens one node under the given prefix, yielding its `(path, item)`
/// pairs in traversal order.
pub fn flatten_node(n: &JsonObject, prefix: &str) -> (out: Vec<(String, ItemAsset)>)
    ensures
        pairs_view(out@) == flatten_spec(node_view(*n), prefix@),
    decreases *n,
{
    match n {
        JsonObject::Item(it) => {
            let mut out: Vec<(String, ItemAsset)> = Vec::new();
            out.push((prefix.to_owned(), it.clone()));
            proof {
                assert(pairs_view(out@) =~= flatten_spec(node_view(*n), prefix@));
            }
            out
        },
        JsonObject::Folder(f) => {
            let ghost cv = children_view(f.children@, 0);
            proof {
                lemma_children_view_index(f.children@, 0);
            }
            let mut out: Vec<(String, ItemAsset)> = Vec::new();
            let mut j: usize = 0;
            while j < f.children.len()
                invariant
                    j <= f.children.len(),
                    *n == JsonObject::Folder(*f),
                    cv == children_view(f.children@, 0),
                    cv.len() == f.children@.len(),
                    forall|t: int|
                        0 <= t < f.children@.len() ==> #[trigger] cv[t] == (
                        f.children@[t].0@,
                        node_view(f.children@[t].1),
                        ),
                    flatten_children_spec(cv, prefix@, 0) == pairs_view(out@)
                        + flatten_children_spec(cv, prefix@, j as int),
                decreases f.children.len() - j,
            {
                let child_prefix = join_path(prefix, f.children[j].0.as_str());
                proof {
                    assert(n->Folder_0 == *f);
                    assert(decreases_to!(*n => n->Folder_0));
                    assert(decreases_to!(*f => f.children));
                    assert(decreases_to!(f.children => f.children@));
                    assert(decreases_to!(f.children@ => f.children@[j as int]));
                    assert(decreases_to!(f.children@[j as int] => f.children@[j as int].1));
                }
                let mut sub = flatten_node(&f.children[j].1, child_prefix.as_str());
                proof {
                    assert(pairs_view(out@ + sub@) =~= pairs_view(out@) + pairs_view(sub@));
                    assert(flatten_children_spec(cv, prefix@, j as int) == flatten_spec(
                        cv[j as int].1,
                        join2(prefix@, cv[j as int].0),
                    ) + flatten_children_spec(cv, prefix@, j as int + 1));
                }
                out.append(&mut sub);
                j = j + 1;
            }
            proof {
                assert(flatten_children_spec(cv, prefix@, cv.len() as int).len() == 0);
                assert(pairs_view(out@) =~= pairs_view(out@) + flatten_children_spec(
                    cv,
                    prefix@,
                    cv.len() as int,
                ));
            }
            out
        },
    }
}

/// Flattens a whole document: a folder root yields the pairs of its children,
/// each under its own name; an item root yields no pairs.
pub fn flatten_document(root: &RootAsset) -> (out: Vec<(String, ItemAsset)>)
    ensures
        pairs_view(out@) == flatten_doc_spec(root@),
{
    match &root.0 {
        JsonObject::Folder(_) => {
            let out = flatten_node(&root.0, "");
            proof {
                reveal_strlit("");
                assert(""@ =~= Seq::<char>::empty());
            }
            out
        },
        JsonObject::Item(_) => {
            let out: Vec<(String, ItemAsset)> = Vec::new();
            proof {
                assert(pairs_view(out@) =~= flatten_doc_spec(root@));
            }
            out
        },
    }
}

} // verus!
