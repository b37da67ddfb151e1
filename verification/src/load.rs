//! Loading one document: decode, flatten, register.
//!
//! This is the whole pass a load or hot reload performs. A decode failure
//! registers nothing and leaves the registry untouched. A registration
//! failure is surfaced in the outcome, and the remaining pairs of the same
//! pass are still registered.

use vstd::prelude::*;

use crate::decode::DecodeError;
use crate::decode::decode;
use crate::decode::spec_decode;
use crate::flatten::flatten_doc_spec;
use crate::flatten::flatten_document;
use crate::flatten::pairs_view;
use crate::model::ItemAsset;
use crate::model::RootAsset;
use crate::model::node_view;
use crate::registry::Registry;
use crate::registry::RegistryV;
use crate::registry::register_tr;
use crate::registry::wf;

verus! {

/// What registering a whole flattening pass does, pair by pair from index
/// `k` on: each pair is registered in order, and the paths whose
/// registration failed are collected.
pub open spec fn register_all_tr(m: RegistryV, ps: Seq<(Seq<char>, Seq<char>)>, k: int) -> (
    RegistryV,
    Seq<Seq<char>>,
)
    decreases ps.len() - k,
{
    if 0 <= k < ps.len() {
        let step = register_tr(m, ps[k].0, ps[k].1);
        let rest = register_all_tr(step.0, ps, k + 1);
        if step.1 is Err {
            (rest.0, seq![ps[k].0] + rest.1)
        } else {
            rest
        }
    } else {
        (m, Seq::empty())
    }
}

/// The result of one load: the decoded document and the paths whose
/// registration failed, in order.
pub struct LoadOutcome {
    pub root: RootAsset,
    pub failed: Vec<String>,
}

/// Registers every `(path, item)` pair in order, as [`register_all_tr`]
/// says, and returns the paths whose registration failed.
pub fn register_pairs(reg: &mut Registry, pairs: &Vec<(String, ItemAsset)>) -> (failed: Vec<
    String,
>)
    requires
        wf(old(reg)@),
    ensures
        wf(final(reg)@),
        final(reg)@ == register_all_tr(old(reg)@, pairs_view(pairs@), 0).0,
        failed@.map_values(|p: String| p@) == register_all_tr(old(reg)@, pairs_view(pairs@), 0).1,
{
    let ghost m0 = reg@;
    let ghost psv = pairs_view(pairs@);
    let mut failed: Vec<String> = Vec::new();
    let mut k: usize = 0;
    while k < pairs.len()
        invariant
            wf(reg@),
            m0 == old(reg)@,
            psv == pairs_view(pairs@),
            psv.len() == pairs@.len(),
            k <= pairs.len(),
            register_all_tr(m0, psv, 0).0 == register_all_tr(reg@, psv, k as int).0,
            register_all_tr(m0, psv, 0).1 == failed@.map_values(|p: String| p@)
                + register_all_tr(reg@, psv, k as int).1,
        decreases pairs.len() - k,
    {
        let path = pairs[k].0.clone();
        let item = pairs[k].1.clone();
        proof {
            assert(psv[k as int] == (pairs@[k as int].0@, pairs@[k as int].1.text@));
        }
        let r = reg.register(path, item);
        match r {
            Ok(_) => {
            },
            Err(_) => {
                let failed_path = pairs[k].0.clone();
                proof {
                    let old_failed = failed@.map_values(|p: String| p@);
                    let rest = register_all_tr(reg@, psv, k as int + 1).1;
                    assert(failed@.push(failed_path).map_values(|p: String| p@) =~= old_failed
                        + seq![psv[k as int].0]);
                    assert((old_failed + seq![psv[k as int].0]) + rest =~= old_failed + (seq![
                        psv[k as int].0,
                    ] + rest));
                }
                failed.push(failed_path);
            },
        }
        k = k + 1;
    }
    proof {
        assert(failed@.map_values(|p: String| p@) + Seq::<Seq<char>>::empty() =~= failed@
            .map_values(|p: String| p@));
    }
    failed
}

/// Performs one whole load or reload from raw bytes: decodes the document,
/// flattens it, and registers every flattened pair. On a decode failure
/// nothing is registered and the registry is left untouched; otherwise the
/// registry ends exactly as registering the flattened pairs in order says,
/// and the outcome carries the decoded document and the paths whose
/// registration failed.
pub fn load_document(reg: &mut Registry, bytes: &[u8]) -> (r: Result<LoadOutcome, DecodeError>)
    requires
        wf(old(reg)@),
    ensures
        wf(final(reg)@),
        match r {
            Ok(outcome) => {
                &&& spec_decode(bytes@) == Ok::<_, DecodeError>(node_view(outcome.root.0))
                &&& final(reg)@ == register_all_tr(
                    old(reg)@,
                    flatten_doc_spec(node_view(outcome.root.0)),
                    0,
                ).0
                &&& outcome.failed@.map_values(|p: String| p@) == register_all_tr(
                    old(reg)@,
                    flatten_doc_spec(node_view(outcome.root.0)),
                    0,
                ).1
            },
            Err(e) => spec_decode(bytes@) == Err::<crate::model::NodeV, DecodeError>(e)
                && final(reg)@ == old(reg)@,
        },
{
    match decode(bytes) {
        Err(e) => Err(e),
        Ok(root) => {
            let pairs = flatten_document(&root);
            let failed = register_pairs(reg, &pairs);
            Ok(LoadOutcome { root, failed })
        },
    }
}

} // verus!
