//! The merge driver: resolving the patches' common format, the defensive
//! compatibility gate, and folding the patches into the target in the
//! order given.
//!
//! Checking that paths exist, reading and writing bytes, and reporting
//! errors to the user are the caller's tasks; every decision is made here.

use vstd::prelude::*;
use crate::apply::apply_all;
use crate::document::File;
use crate::format::Format;
use crate::ini::{DocModel, wf_doc};

verus! {

/// Why a merge is refused.
#[derive(Clone, Copy, Debug, PartialEq, Eq, Structural)]
pub enum MergeError {
    /// The supplied patches do not all share one format.
    MixedFormats,
    /// The patch at this index does not share the target's format.
    IncompatiblePatch(usize),
}

/// The contents of a list of patch documents, in order.
pub open spec fn patch_models(ps: Seq<File>) -> Seq<DocModel> {
    ps.map_values(|f: File| f.data@)
}

/// The single format a list of patches shares, or a refusal.
///
/// Succeeds exactly when every patch bears the first patch's format.
pub fn get_patch_format(items: &Vec<File>) -> (r: Result<Format, MergeError>)
    requires
        items@.len() > 0,
    ensures
        match r {
            Ok(f) => f == items@[0].data.spec_format() && forall|i: int|
                0 <= i < items@.len() ==> #[trigger] items@[i].data.spec_format() == f,
            Err(e) => e == MergeError::MixedFormats && exists|i: int|
                0 <= i < items@.len() && #[trigger] items@[i].data.spec_format()
                    != items@[0].data.spec_format(),
        },
{
    let first = items[0].data.format();
    let mut i: usize = 0;
    while i < items.len()
        invariant
            i <= items@.len(),
            items@.len() > 0,
            first == items@[0].data.spec_format(),
            forall|j: int| 0 <= j < i ==> #[trigger] items@[j].data.spec_format() == first,
        decreases items@.len() - i,
    {
        if !(items[i].data.format() == first) {
            return Err(MergeError::MixedFormats);
        }
        i = i + 1;
    }
    Ok(first)
}

/// Merges the patches into the target, strictly in the order given.
///
/// Every patch's format is checked against the target's before anything is
/// merged; on the first mismatch the merge is refused and the target left
/// exactly as it was.
pub fn merge_patches(target: &mut File, patches: &Vec<File>) -> (r: Result<(), MergeError>)
    ensures
        match r {
            Ok(_) => {
                &&& forall|i: int|
                    0 <= i < patches@.len() ==> #[trigger] patches@[i].data.spec_format()
                        == old(target).data.spec_format()
                &&& final(target).data@ == apply_all(
                    old(target).data@,
                    patch_models(patches@),
                )
                &&& final(target).data.spec_format() == old(target).data.spec_format()
                &&& final(target).path == old(target).path
                &&& (wf_doc(old(target).data@) && (forall|i: int|
                    0 <= i < patches@.len() ==> wf_doc(#[trigger] patches@[i].data@)))
                    ==> wf_doc(final(target).data@)
            },
            Err(e) => {
                &&& *final(target) == *old(target)
                &&& exists|i: int|
                    0 <= i < patches@.len() && e == MergeError::IncompatiblePatch(i as usize)
                        && #[trigger] patches@[i].data.spec_format()
                        != old(target).data.spec_format()
            },
        },
{
    let ghost m0 = target.data@;
    let ghost pm = patch_models(patches@);
    let mut i: usize = 0;
    while i < patches.len()
        invariant
            i <= patches@.len(),
            *target == *old(target),
            forall|j: int|
                0 <= j < i ==> #[trigger] patches@[j].data.spec_format()
                    == old(target).data.spec_format(),
        decreases patches@.len() - i,
    {
        if !target.compatible(&patches[i]) {
            return Err(MergeError::IncompatiblePatch(i));
        }
        i = i + 1;
    }
    proof {
        assert(pm.skip(0) =~= pm);
    }
    let mut i: usize = 0;
    while i < patches.len()
        invariant
            i <= patches@.len(),
            pm == patch_models(patches@),
            pm.len() == patches@.len(),
            apply_all(m0, pm) == apply_all(target.data@, pm.skip(i as int)),
            target.data.spec_format() == old(target).data.spec_format(),
            target.path == old(target).path,
            (wf_doc(m0) && (forall|j: int|
                0 <= j < patches@.len() ==> wf_doc(#[trigger] patches@[j].data@))) ==> wf_doc(
                target.data@,
            ),
        decreases patches@.len() - i,
    {
        let ghost rest = pm.skip(i as int);
        proof {
            assert(rest[0] == pm[i as int]);
            assert(pm[i as int] == patches@[i as int].data@);
            assert(rest.drop_first() =~= pm.skip(i + 1 as int));
        }
        target.apply(&patches[i]);
        i = i + 1;
    }
    proof {
        assert(pm.skip(pm.len() as int).len() == 0);
    }
    Ok(())
}

} // verus!
