//! The warning engine: after every structural edit each path is annotated
//! with at most one configuration hazard. Warnings are advisory — they
//! never block assembling the policy.

use vstd::prelude::*;
use crate::keys::{KeyRegistry, KeySource};
use crate::path::{Path, PathKind, PathWarning};

verus! {

/// Paths `i` and `j` are distinct non-primary paths sharing a time-lock.
pub open spec fn spec_dup_pair(paths: Seq<Path>, i: int, j: int) -> bool {
    &&& 0 <= i < paths.len()
    &&& 0 <= j < paths.len()
    &&& i != j
    &&& paths[i].spec_kind() != PathKind::Primary
    &&& paths[j].spec_kind() != PathKind::Primary
    &&& paths[i].sequence.spec_as_u16() == paths[j].sequence.spec_as_u16()
}

/// Some other non-primary path shares path `i`'s time-lock.
pub open spec fn spec_dup_seq(paths: Seq<Path>, i: int) -> bool {
    exists|j: int| spec_dup_pair(paths, i, j)
}

/// Slot `j` of `p` holds a key registered with the given source.
pub open spec fn spec_slot_has_source(p: Path, reg: KeyRegistry, j: int, source: KeySource) -> bool {
    match p.slots@[j] {
        Some(fp) => match reg.spec_get(fp) {
            Some(k) => k.source == source,
            None => false,
        },
        None => false,
    }
}

/// Every filled slot of the path holds a co-signing server key, so the
/// path gives no independent recovery capability. Empty slots do not
/// count against it, but at least one slot must be filled: a path without
/// keys warns of nothing.
pub open spec fn spec_only_cosigner(p: Path, reg: KeyRegistry) -> bool {
    &&& exists|j: int| 0 <= j < p.slots@.len() && (#[trigger] p.slots@[j]) is Some
    &&& forall|j: int|
        0 <= j < p.slots@.len() && (#[trigger] p.slots@[j]) is Some ==> spec_slot_has_source(
            p,
            reg,
            j,
            KeySource::CosignerToken,
        )
}

/// Some filled slot's registered key has a provenance the path's kind does
/// not permit.
pub open spec fn spec_disallowed_source(p: Path, reg: KeyRegistry) -> bool {
    exists|j: int|
        0 <= j < p.slots@.len() && (match #[trigger] p.slots@[j] {
            Some(fp) => match reg.spec_get(fp) {
                Some(k) => !p.spec_kind().spec_allows_source(k.source),
                None => false,
            },
            None => false,
        })
}

/// The warning of path `i`: a shared time-lock outranks the per-path
/// checks; a path of server keys only outranks a disallowed provenance.
pub open spec fn spec_warning(paths: Seq<Path>, reg: KeyRegistry, i: int) -> Option<PathWarning> {
    if spec_dup_seq(paths, i) {
        Some(PathWarning::DuplicateSequence)
    } else if spec_only_cosigner(paths[i], reg) {
        Some(PathWarning::OnlyCosignerKeys)
    } else if spec_disallowed_source(paths[i], reg) {
        Some(PathWarning::KeySourceKindDisallowed)
    } else {
        None
    }
}

/// The warnings are a pure function of the paths and the registry:
/// identical inputs always get identical warning assignments.
pub proof fn lemma_warnings_deterministic(
    paths1: Seq<Path>,
    reg1: KeyRegistry,
    paths2: Seq<Path>,
    reg2: KeyRegistry,
)
    requires
        paths1 == paths2,
        reg1 == reg2,
    ensures
        forall|i: int| spec_warning(paths1, reg1, i) == spec_warning(paths2, reg2, i),
{
}

/// Non-primary paths sharing a positive time-lock are all flagged as
/// duplicates, whatever else may be wrong with them.
pub proof fn lemma_duplicate_sequence_flagged(
    paths: Seq<Path>,
    reg: KeyRegistry,
    i: int,
    j: int,
)
    requires
        0 <= i < paths.len(),
        0 <= j < paths.len(),
        i != j,
        paths[i].spec_kind() != PathKind::Primary,
        paths[j].spec_kind() != PathKind::Primary,
        paths[i].sequence.spec_as_u16() == paths[j].sequence.spec_as_u16(),
        paths[i].sequence.spec_as_u16() >= 1,
    ensures
        spec_warning(paths, reg, i) == Some(PathWarning::DuplicateSequence),
        spec_warning(paths, reg, j) == Some(PathWarning::DuplicateSequence),
{
    assert(spec_dup_pair(paths, i, j));
    assert(spec_dup_pair(paths, j, i));
}

/// Does some other non-primary path share path `i`'s time-lock?
#[verifier::loop_isolation(false)]
fn has_dup_seq(paths: &Vec<Path>, i: usize) -> (r: bool)
    requires
        i < paths@.len(),
    ensures
        r == spec_dup_seq(paths@, i as int),
{
    if paths[i].kind() == PathKind::Primary {
        return false;
    }
    let si = paths[i].sequence.as_u16();
    let mut j: usize = 0;
    while j < paths.len()
        invariant
            j <= paths@.len(),
            forall|x: int| 0 <= x < j ==> !spec_dup_pair(paths@, i as int, x),
        decreases paths@.len() - j,
    {
        if j != i && paths[j].kind() != PathKind::Primary && paths[j].sequence.as_u16() == si {
            proof {
                assert(spec_dup_pair(paths@, i as int, j as int));
            }
            return true;
        }
        j += 1;
    }
    false
}

/// Is every filled slot of `p` a registered co-signing server key, with
/// at least one slot filled?
#[verifier::loop_isolation(false)]
fn is_only_cosigner(p: &Path, reg: &KeyRegistry) -> (r: bool)
    ensures
        r == spec_only_cosigner(*p, *reg),
{
    let mut any_filled = false;
    let mut j: usize = 0;
    while j < p.slots.len()
        invariant
            j <= p.slots@.len(),
            any_filled == exists|x: int| 0 <= x < j && (#[trigger] p.slots@[x]) is Some,
            forall|x: int|
                0 <= x < j && (#[trigger] p.slots@[x]) is Some ==> spec_slot_has_source(
                    *p,
                    *reg,
                    x,
                    KeySource::CosignerToken,
                ),
        decreases p.slots@.len() - j,
    {
        match p.slots[j] {
            Some(fp) => {
                let ok = match reg.get(fp) {
                    Some(k) => k.source == KeySource::CosignerToken,
                    None => false,
                };
                if !ok {
                    proof {
                        assert(p.slots@[j as int] is Some);
                        assert(!spec_slot_has_source(*p, *reg, j as int, KeySource::CosignerToken));
                    }
                    return false;
                }
                any_filled = true;
                proof {
                    assert(p.slots@[j as int] is Some);
                }
            }
            None => {}
        }
        j += 1;
    }
    any_filled
}

/// Does some filled slot hold a key whose provenance the path's kind
/// forbids?
#[verifier::loop_isolation(false)]
fn has_disallowed_source(p: &Path, reg: &KeyRegistry) -> (r: bool)
    ensures
        r == spec_disallowed_source(*p, *reg),
{
    let mut j: usize = 0;
    while j < p.slots.len()
        invariant
            j <= p.slots@.len(),
            forall|x: int|
                0 <= x < j ==> !(match #[trigger] p.slots@[x] {
                    Some(fp) => match reg.spec_get(fp) {
                        Some(k) => !p.spec_kind().spec_allows_source(k.source),
                        None => false,
                    },
                    None => false,
                }),
        decreases p.slots@.len() - j,
    {
        let bad = match p.slots[j] {
            Some(fp) => match reg.get(fp) {
                Some(k) => !p.kind().allows_source(k.source),
                None => false,
            },
            None => false,
        };
        if bad {
            return true;
        }
        j += 1;
    }
    false
}

/// Recompute every path's warning. Total and deterministic: each path gets
/// exactly zero or one warning, by [`spec_warning`].
#[verifier::loop_isolation(false)]
pub fn compute_warnings(paths: &Vec<Path>, reg: &KeyRegistry) -> (w: Vec<Option<PathWarning>>)
    ensures
        w@.len() == paths@.len(),
        forall|i: int| 0 <= i < paths@.len() ==> w@[i] == spec_warning(paths@, *reg, i),
{
    let mut w: Vec<Option<PathWarning>> = Vec::new();
    let mut i: usize = 0;
    while i < paths.len()
        invariant
            i <= paths@.len(),
            w@.len() == i,
            forall|x: int| 0 <= x < i ==> w@[x] == spec_warning(paths@, *reg, x),
        decreases paths@.len() - i,
    {
        let wi: Option<PathWarning> = if has_dup_seq(paths, i) {
            Some(PathWarning::DuplicateSequence)
        } else if is_only_cosigner(&paths[i], reg) {
            Some(PathWarning::OnlyCosignerKeys)
        } else if has_disallowed_source(&paths[i], reg) {
            Some(PathWarning::KeySourceKindDisallowed)
        } else {
            None
        };
        w.push(wi);
        i += 1;
    }
    w
}

} // verus!
