//! Spending paths: one alternative branch of a policy, with its key slots,
//! threshold and (for non-primary paths) relative time-lock.

use vstd::prelude::*;
use crate::keys::{KeyRegistry, KeySource};

verus! {

/// Default relative time-lock of a fresh recovery path, about one year of
/// blocks.
pub const DEFAULT_RECOVERY_SEQUENCE: u16 = 52596;

/// The time-lock of the safety-net path: the largest representable relative
/// lock, so it comes after every recovery path.
pub const SAFETY_NET_SEQUENCE: u16 = 65535;

#[derive(Clone, Copy, Debug, PartialEq, Eq, Structural)]
pub enum PathKind {
    Primary,
    Recovery,
    SafetyNet,
}

/// A path's position in time: the primary path is spendable at once, a
/// recovery path after its own block delay, the safety-net path after the
/// largest delay.
#[derive(Clone, Copy, Debug, PartialEq, Eq, Structural)]
pub enum PathSequence {
    Primary,
    Recovery(u16),
    SafetyNet,
}

impl PathSequence {
    /// The relative time-lock in blocks this sequence stands for.
    pub open spec fn spec_as_u16(self) -> u16 {
        match self {
            PathSequence::Primary => 0,
            PathSequence::Recovery(s) => s,
            PathSequence::SafetyNet => SAFETY_NET_SEQUENCE,
        }
    }

    pub fn as_u16(self) -> (r: u16)
        ensures
            r == self.spec_as_u16(),
    {
        match self {
            PathSequence::Primary => 0,
            PathSequence::Recovery(s) => s,
            PathSequence::SafetyNet => SAFETY_NET_SEQUENCE,
        }
    }

    pub open spec fn spec_kind(self) -> PathKind {
        match self {
            PathSequence::Primary => PathKind::Primary,
            PathSequence::Recovery(_) => PathKind::Recovery,
            PathSequence::SafetyNet => PathKind::SafetyNet,
        }
    }

    pub fn kind(self) -> (r: PathKind)
        ensures
            r == self.spec_kind(),
    {
        match self {
            PathSequence::Primary => PathKind::Primary,
            PathSequence::Recovery(_) => PathKind::Recovery,
            PathSequence::SafetyNet => PathKind::SafetyNet,
        }
    }

    /// A recovery time-lock must be positive: zero would make the path
    /// spendable at once, indistinguishable from the primary path.
    pub open spec fn wf(self) -> bool {
        self matches PathSequence::Recovery(s) ==> s >= 1
    }
}

impl PathKind {
    /// Which key provenances a path of this kind accepts. The co-signing
    /// server's token keys only make sense where the server takes part, which
    /// the safety-net path by design does not.
    pub open spec fn spec_allows_source(self, source: KeySource) -> bool {
        source == KeySource::CosignerToken ==> self != PathKind::SafetyNet
    }

    pub fn allows_source(self, source: KeySource) -> (r: bool)
        ensures
            r == self.spec_allows_source(source),
    {
        !(source == KeySource::CosignerToken && self == PathKind::SafetyNet)
    }
}

/// Hazards a path configuration can carry. Advisory only: they never block
/// assembling the policy.
#[derive(Clone, Copy, Debug, PartialEq, Eq, Structural)]
pub enum PathWarning {
    /// Two non-primary paths share a time-lock: which one a spend falls into
    /// is ambiguous.
    DuplicateSequence,
    /// Every slot of the path holds a co-signing server key, so the path
    /// gives no independent recovery capability.
    OnlyCosignerKeys,
    /// Some key's provenance is not permitted for this kind of path.
    KeySourceKindDisallowed,
}

/// One spending path under construction: a sequence of key slots, each empty
/// or holding a key's fingerprint, a threshold, and the path's time-lock.
#[derive(Clone, Debug)]
pub struct Path {
    pub sequence: PathSequence,
    pub threshold: usize,
    pub slots: Vec<Option<u32>>,
    pub warning: Option<PathWarning>,
}

impl Path {
    pub open spec fn spec_kind(self) -> PathKind {
        self.sequence.spec_kind()
    }

    pub fn kind(&self) -> (r: PathKind)
        ensures
            r == self.spec_kind(),
    {
        self.sequence.kind()
    }

    /// A fresh path of one empty slot and threshold one.
    pub fn new_path(sequence: PathSequence) -> (r: Path)
        ensures
            r.sequence == sequence,
            r.threshold == 1usize,
            r.slots@ =~= seq![Option::<u32>::None],
            r.warning is None,
    {
        let mut slots: Vec<Option<u32>> = Vec::new();
        slots.push(None);
        Path { sequence, threshold: 1, slots, warning: None }
    }

    pub fn new_primary_path() -> (r: Path)
        ensures
            r.sequence == PathSequence::Primary,
            r.threshold == 1usize,
            r.slots@ =~= seq![Option::<u32>::None],
            r.warning is None,
    {
        Path::new_path(PathSequence::Primary)
    }

    pub fn new_recovery_path() -> (r: Path)
        ensures
            r.sequence == PathSequence::Recovery(DEFAULT_RECOVERY_SEQUENCE),
            r.threshold == 1usize,
            r.slots@ =~= seq![Option::<u32>::None],
            r.warning is None,
    {
        Path::new_path(PathSequence::Recovery(DEFAULT_RECOVERY_SEQUENCE))
    }

    pub fn new_safety_net_path() -> (r: Path)
        ensures
            r.sequence == PathSequence::SafetyNet,
            r.threshold == 1usize,
            r.slots@ =~= seq![Option::<u32>::None],
            r.warning is None,
    {
        Path::new_path(PathSequence::SafetyNet)
    }

    /// The same path with `n` empty slots instead of one.
    pub fn with_n_keys(self, n: usize) -> (r: Path)
        ensures
            r.sequence == self.sequence,
            r.threshold == self.threshold,
            r.warning == self.warning,
            r.slots@.len() == n,
            forall|i: int| 0 <= i < n ==> r.slots@[i] is None,
    {
        let mut slots: Vec<Option<u32>> = Vec::new();
        let mut i: usize = 0;
        while i < n
            invariant
                i <= n,
                slots@.len() == i,
                forall|j: int| 0 <= j < i ==> slots@[j] is None,
            decreases n - i,
        {
            slots.push(None);
            i += 1;
        }
        Path { sequence: self.sequence, threshold: self.threshold, slots, warning: self.warning }
    }

    /// The same path with threshold `t`.
    pub fn with_threshold(self, t: usize) -> (r: Path)
        ensures
            r == (Path { threshold: t, ..self }),
    {
        Path { sequence: self.sequence, threshold: t, slots: self.slots, warning: self.warning }
    }

    /// Every slot holds a key.
    pub open spec fn spec_all_filled(self) -> bool {
        forall|i: int| 0 <= i < self.slots@.len() ==> self.slots@[i] is Some
    }

    /// A path is valid when every slot is filled, the threshold lies in
    /// `[1, slot count]`, and — only under a taproot output — every key's
    /// provenance supports taproot. A slot whose fingerprint the registry
    /// does not know counts as not taproot-capable.
    pub open spec fn spec_is_valid(self, reg: KeyRegistry, requires_taproot: bool) -> bool {
        &&& self.spec_all_filled()
        &&& 1 <= self.threshold <= self.slots@.len()
        &&& (requires_taproot ==> forall|i: int|
            0 <= i < self.slots@.len() ==> match #[trigger] self.slots@[i] {
                Some(fp) => match reg.spec_get(fp) {
                    Some(k) => k.source.spec_compatible_taproot(),
                    None => false,
                },
                None => false,
            })
    }

    pub fn is_valid(&self, reg: &KeyRegistry, requires_taproot: bool) -> (r: bool)
        ensures
            r == self.spec_is_valid(*reg, requires_taproot),
    {
        if !(1 <= self.threshold && self.threshold <= self.slots.len()) {
            return false;
        }
        let mut i: usize = 0;
        while i < self.slots.len()
            invariant
                i <= self.slots@.len(),
                1 <= self.threshold <= self.slots@.len(),
                forall|j: int| 0 <= j < i ==> self.slots@[j] is Some,
                requires_taproot ==> forall|j: int|
                    0 <= j < i ==> match #[trigger] self.slots@[j] {
                        Some(fp) => match reg.spec_get(fp) {
                            Some(k) => k.source.spec_compatible_taproot(),
                            None => false,
                        },
                        None => false,
                    },
            decreases self.slots@.len() - i,
    {
            match self.slots[i] {
                Some(fp) => {
                    if requires_taproot {
                        match reg.get(fp) {
                            Some(k) => {
                                if !k.source.compatible_taproot() {
                                    return false;
                                }
                            }
                            None => {
                                return false;
                            }
                        }
                    }
                }
                None => {
                    return false;
                }
            }
            i += 1;
        }
        true
    }

    /// Append an empty key slot; the threshold follows it up so a fully
    /// filled path keeps asking for every key until the user edits it.
    pub fn add_slot(&mut self)
        requires
            old(self).threshold < usize::MAX,
            old(self).slots@.len() < usize::MAX,
        ensures
            final(self).sequence == old(self).sequence,
            final(self).warning == old(self).warning,
            final(self).slots@ == old(self).slots@.push(None),
            final(self).threshold == old(self).threshold + 1,
    {
        self.slots.push(None);
        self.threshold = self.threshold + 1;
    }

    /// Whether some slot already references the key `fp`.
    pub fn contains_fp(&self, fp: u32) -> (r: bool)
        ensures
            r == self.slots@.contains(Some(fp)),
    {
        let mut j: usize = 0;
        while j < self.slots.len()
            invariant
                j <= self.slots@.len(),
                forall|x: int| 0 <= x < j ==> self.slots@[x] != Some(fp),
            decreases self.slots@.len() - j,
        {
            match self.slots[j] {
                Some(f) => {
                    if f == fp {
                        return true;
                    }
                }
                None => {}
            }
            j += 1;
        }
        proof {
            if self.slots@.contains(Some(fp)) {
                let x = choose|x: int|
                    0 <= x < self.slots@.len() && #[trigger] self.slots@[x] == Some(fp);
            }
        }
        false
    }

    /// Put `v` into slot `j`.
    pub fn set_slot(&mut self, j: usize, v: Option<u32>)
        requires
            j < old(self).slots@.len(),
        ensures
            final(self).sequence == old(self).sequence,
            final(self).threshold == old(self).threshold,
            final(self).warning == old(self).warning,
            final(self).slots@ == old(self).slots@.update(j as int, v),
    {
        let _ = self.slots.remove(j);
        self.slots.insert(j, v);
        proof {
            assert(self.slots@ =~= old(self).slots@.update(j as int, v));
        }
    }

    /// Remove slot `j`. A threshold that would then exceed the remaining
    /// slot count is clamped down by exactly one.
    pub fn remove_slot(&mut self, j: usize)
        requires
            j < old(self).slots@.len(),
        ensures
            final(self).sequence == old(self).sequence,
            final(self).warning == old(self).warning,
            final(self).slots@ == old(self).slots@.remove(j as int),
            final(self).threshold == if old(self).threshold > old(self).slots@.len() - 1 {
                (old(self).threshold - 1) as usize
            } else {
                old(self).threshold
            },
    {
        self.slots.remove(j);
        if self.threshold > self.slots.len() {
            self.threshold = self.threshold - 1;
        }
    }
}

} // verus!
