//! The descriptor editor: the wizard state behind building a spending
//! policy. It owns the key registry and the paths under construction,
//! applies each edit, and keeps the advisory warnings current.

use vstd::prelude::*;
use crate::keys::{Key, KeyRegistry};
use crate::path::{Path, PathKind, PathSequence};
use crate::policy::{
    build, spec_build_view, spec_buildable, spec_concat_fps, spec_names_ok, spec_order,
    spec_uses_device, PolicyBuild,
};
use crate::num::{parse_u64_dec, spec_dec, spec_parse_u64, u64_to_dec_string};
use crate::types::{FormValue, Network};
use crate::warnings::{
    compute_warnings, spec_disallowed_source, spec_dup_pair, spec_dup_seq, spec_only_cosigner,
    spec_slot_has_source, spec_warning,
};
use crate::keys::KeySource;

verus! {

/// The starting layouts a policy can be edited from.
#[derive(Clone, Copy, Debug, PartialEq, Eq, Structural)]
pub enum DescriptorTemplate {
    /// One primary key, one recovery key.
    SimpleInheritance,
    /// A 2-of-2 primary set with a 2-of-3 recovery set.
    MultisigSecurity,
    /// Free-form editing, starting like the simple layout.
    Custom,
}

/// Two path lists agree on everything the warning engine reads: length,
/// time-locks, thresholds and slots (warnings themselves may differ).
pub open spec fn spec_core_eq(a: Seq<Path>, b: Seq<Path>) -> bool {
    &&& a.len() == b.len()
    &&& forall|i: int|
        0 <= i < a.len() ==> (#[trigger] a[i]).sequence == b[i].sequence && a[i].threshold
            == b[i].threshold && a[i].slots@ == b[i].slots@
}

/// Warnings depend only on the paths' cores, never on previously assigned
/// warnings.
pub proof fn lemma_warning_core(a: Seq<Path>, b: Seq<Path>, reg: KeyRegistry)
    requires
        spec_core_eq(a, b),
    ensures
        forall|i: int| 0 <= i < a.len() ==> spec_warning(a, reg, i) == spec_warning(b, reg, i),
{
    assert forall|i: int|
        0 <= i < a.len() implies spec_warning(a, reg, i) == spec_warning(b, reg, i) by {
        if spec_dup_seq(a, i) {
            let j = choose|j: int| spec_dup_pair(a, i, j);
            assert(spec_dup_pair(b, i, j));
        }
        if spec_dup_seq(b, i) {
            let j = choose|j: int| spec_dup_pair(b, i, j);
            assert(spec_dup_pair(a, i, j));
        }
        assert(a[i].slots@ == b[i].slots@);
        assert(a[i].sequence == b[i].sequence);
        if spec_only_cosigner(a[i], reg) {
            let w = choose|w: int| 0 <= w < a[i].slots@.len() && (#[trigger] a[i].slots@[w]) is Some;
            assert(b[i].slots@[w] is Some);
            assert forall|x: int|
                0 <= x < b[i].slots@.len() && (#[trigger] b[i].slots@[x]) is Some
                implies spec_slot_has_source(b[i], reg, x, KeySource::CosignerToken) by {
                assert(a[i].slots@[x] is Some);
                assert(spec_slot_has_source(a[i], reg, x, KeySource::CosignerToken));
            }
            assert(spec_only_cosigner(b[i], reg));
        }
        if spec_only_cosigner(b[i], reg) {
            let w = choose|w: int| 0 <= w < b[i].slots@.len() && (#[trigger] b[i].slots@[w]) is Some;
            assert(a[i].slots@[w] is Some);
            assert forall|x: int|
                0 <= x < a[i].slots@.len() && (#[trigger] a[i].slots@[x]) is Some
                implies spec_slot_has_source(a[i], reg, x, KeySource::CosignerToken) by {
                assert(b[i].slots@[x] is Some);
                assert(spec_slot_has_source(b[i], reg, x, KeySource::CosignerToken));
            }
            assert(spec_only_cosigner(a[i], reg));
        }
        if spec_disallowed_source(a[i], reg) {
            let x = choose|x: int|
                0 <= x < a[i].slots@.len() && (match #[trigger] a[i].slots@[x] {
                    Some(fp) => match reg.spec_get(fp) {
                        Some(k) => !a[i].spec_kind().spec_allows_source(k.source),
                        None => false,
                    },
                    None => false,
                });
            assert(b[i].slots@[x] == a[i].slots@[x]);
            assert(spec_disallowed_source(b[i], reg));
        }
        if spec_disallowed_source(b[i], reg) {
            let x = choose|x: int|
                0 <= x < b[i].slots@.len() && (match #[trigger] b[i].slots@[x] {
                    Some(fp) => match reg.spec_get(fp) {
                        Some(k) => !b[i].spec_kind().spec_allows_source(k.source),
                        None => false,
                    },
                    None => false,
                });
            assert(a[i].slots@[x] == b[i].slots@[x]);
            assert(spec_disallowed_source(a[i], reg));
        }
    }
}

/// The editor behind the policy-definition step.
pub struct DefineDescriptor {
    pub network: Network,
    pub use_taproot: bool,
    pub keys: KeyRegistry,
    pub paths: Vec<Path>,
    pub accounts: Vec<(u32, u32)>,
    pub descriptor_template: DescriptorTemplate,
    pub error: Option<String>,
}

impl DefineDescriptor {
    /// Structural soundness the editor maintains: the first path is the
    /// primary one and the only one, non-primary time-locks are positive,
    /// and the registry maps each fingerprint once.
    pub open spec fn spec_wf(self) -> bool {
        &&& self.paths@.len() >= 1 ==> self.paths@[0].spec_kind() == PathKind::Primary
        &&& forall|i: int|
            1 <= i < self.paths@.len() ==> (#[trigger] self.paths@[i]).spec_kind()
                != PathKind::Primary
        &&& forall|i: int| 0 <= i < self.paths@.len() ==> (#[trigger] self.paths@[i]).sequence.wf()
        &&& self.keys.wf()
    }

    /// Every path's annotation is the warning its current configuration
    /// warrants.
    pub open spec fn spec_warnings_current(self) -> bool {
        forall|i: int|
            0 <= i < self.paths@.len() ==> (#[trigger] self.paths@[i]).warning == spec_warning(
                self.paths@,
                self.keys,
                i,
            )
    }

    pub fn new(network: Network) -> (r: DefineDescriptor)
        ensures
            r.spec_wf(),
            r.network == network,
            !r.use_taproot,
            r.paths@.len() == 0,
            r.keys.keys@.len() == 0,
            r.accounts@.len() == 0,
            r.descriptor_template == DescriptorTemplate::SimpleInheritance,
            r.error is None,
    {
        DefineDescriptor {
            network,
            use_taproot: false,
            keys: KeyRegistry::new(),
            paths: Vec::new(),
            accounts: Vec::new(),
            descriptor_template: DescriptorTemplate::SimpleInheritance,
            error: None,
        }
    }

    /// Recompute every path's warning from the current configuration.
    #[verifier::loop_isolation(false)]
    pub fn check_for_warning(&mut self)
        ensures
            final(self).network == old(self).network,
            final(self).use_taproot == old(self).use_taproot,
            final(self).keys == old(self).keys,
            final(self).accounts == old(self).accounts,
            final(self).descriptor_template == old(self).descriptor_template,
            final(self).error == old(self).error,
            spec_core_eq(final(self).paths@, old(self).paths@),
            final(self).spec_warnings_current(),
            old(self).spec_wf() ==> final(self).spec_wf(),
    {
        let w = compute_warnings(&self.paths, &self.keys);
        let ghost orig = self.paths@;
        let mut i: usize = 0;
        while i < self.paths.len()
            invariant
                w@.len() == orig.len(),
                forall|x: int| 0 <= x < orig.len() ==> w@[x] == spec_warning(orig, old(self).keys, x),
                self.paths@.len() == orig.len(),
                i <= orig.len(),
                self.network == old(self).network,
                self.use_taproot == old(self).use_taproot,
                self.keys == old(self).keys,
                self.accounts == old(self).accounts,
                self.descriptor_template == old(self).descriptor_template,
                self.error == old(self).error,
                forall|x: int|
                    0 <= x < orig.len() ==> (#[trigger] self.paths@[x]).sequence
                        == orig[x].sequence && self.paths@[x].threshold == orig[x].threshold
                        && self.paths@[x].slots@ == orig[x].slots@,
                forall|x: int| 0 <= x < i ==> (#[trigger] self.paths@[x]).warning == w@[x],
                forall|x: int|
                    i <= x < orig.len() ==> (#[trigger] self.paths@[x]).warning == orig[x].warning,
            decreases orig.len() - i,
        {
            let ghost prev = self.paths@;
            let mut p = self.paths.remove(i);
            p.warning = w[i];
            self.paths.insert(i, p);
            proof {
                assert(self.paths@ =~= prev.update(i as int, self.paths@[i as int]));
            }
            i += 1;
        }
        proof {
            lemma_warning_core(self.paths@, orig, self.keys);
        }
    }

    /// Choose the output construction; warnings are refreshed.
    pub fn set_use_taproot(&mut self, use_taproot: bool)
        ensures
            final(self).use_taproot == use_taproot,
            final(self).network == old(self).network,
            final(self).keys == old(self).keys,
            final(self).accounts == old(self).accounts,
            final(self).descriptor_template == old(self).descriptor_template,
            spec_core_eq(final(self).paths@, old(self).paths@),
            final(self).spec_warnings_current(),
            old(self).spec_wf() ==> final(self).spec_wf(),
    {
        self.use_taproot = use_taproot;
        self.check_for_warning();
    }

    /// Append a fresh recovery path (one empty slot, the default
    /// time-lock).
    pub fn add_recovery_path(&mut self)
        requires
            old(self).spec_wf(),
            old(self).paths@.len() >= 1,
        ensures
            final(self).spec_wf(),
            final(self).network == old(self).network,
            final(self).use_taproot == old(self).use_taproot,
            final(self).keys == old(self).keys,
            final(self).paths@.len() == old(self).paths@.len() + 1,
            forall|i: int|
                0 <= i < old(self).paths@.len() ==> final(self).paths@[i] == old(self).paths@[i],
            final(self).paths@.last().sequence == PathSequence::Recovery(
                crate::path::DEFAULT_RECOVERY_SEQUENCE,
            ),
            final(self).paths@.last().threshold == 1usize,
            final(self).paths@.last().slots@ =~= seq![Option::<u32>::None],
            final(self).paths@.last().warning is None,
    {
        self.paths.push(Path::new_recovery_path());
    }

    /// Whether some path is the safety-net path.
    pub fn has_safety_net_path(&self) -> (r: bool)
        ensures
            r == exists|i: int|
                0 <= i < self.paths@.len() && (#[trigger] self.paths@[i]).spec_kind()
                    == PathKind::SafetyNet,
    {
        let mut i: usize = 0;
        while i < self.paths.len()
            invariant
                i <= self.paths@.len(),
                forall|x: int|
                    0 <= x < i ==> (#[trigger] self.paths@[x]).spec_kind() != PathKind::SafetyNet,
            decreases self.paths@.len() - i,
        {
            if self.paths[i].kind() == PathKind::SafetyNet {
                return true;
            }
            i += 1;
        }
        false
    }

    /// Append the safety-net path — at most one may exist, so nothing
    /// happens when one is already there.
    pub fn add_safety_net_path(&mut self)
        requires
            old(self).spec_wf(),
            old(self).paths@.len() >= 1,
        ensures
            final(self).spec_wf(),
            final(self).network == old(self).network,
            final(self).use_taproot == old(self).use_taproot,
            final(self).keys == old(self).keys,
            (exists|i: int|
                0 <= i < old(self).paths@.len() && (#[trigger] old(self).paths@[i]).spec_kind()
                    == PathKind::SafetyNet) ==> final(self).paths@ == old(self).paths@,
            !(exists|i: int|
                0 <= i < old(self).paths@.len() && (#[trigger] old(self).paths@[i]).spec_kind()
                    == PathKind::SafetyNet) ==> {
                &&& final(self).paths@.len() == old(self).paths@.len() + 1
                &&& (forall|i: int|
                    0 <= i < old(self).paths@.len() ==> final(self).paths@[i] == old(
                        self,
                    ).paths@[i])
                &&& final(self).paths@.last().sequence == PathSequence::SafetyNet
                &&& final(self).paths@.last().threshold == 1usize
                &&& final(self).paths@.last().slots@ =~= seq![Option::<u32>::None]
                &&& final(self).paths@.last().warning is None
            },
    {
        if !self.has_safety_net_path() {
            self.paths.push(Path::new_safety_net_path());
        }
    }

    /// Rename a registered key. Aliasing is cosmetic: paths reference keys
    /// by identity, so nothing else changes.
    pub fn alias_edited(&mut self, fp: u32, alias: String)
        requires
            old(self).spec_wf(),
        ensures
            final(self).spec_wf(),
            final(self).paths@ == old(self).paths@,
            final(self).network == old(self).network,
            final(self).use_taproot == old(self).use_taproot,
            old(self).keys.spec_get(fp) matches Some(k) ==> final(self).keys.spec_get(fp) == Some(
                Key { name: alias, ..k },
            ),
            old(self).keys.spec_get(fp) is None ==> final(self).keys.keys@ == old(
                self,
            ).keys.keys@,
            forall|f: u32| f != fp ==> final(self).keys.spec_get(f) == old(self).keys.spec_get(f),
    {
        self.keys.rename(fp, alias);
    }

    /// Set path `i`'s threshold. The original leaves validation to
    /// [`Path::spec_is_valid`], so any value is stored.
    pub fn threshold_edited(&mut self, i: usize, t: usize)
        requires
            old(self).spec_wf(),
        ensures
            final(self).spec_wf(),
            final(self).keys == old(self).keys,
            final(self).network == old(self).network,
            final(self).use_taproot == old(self).use_taproot,
            final(self).paths@.len() == old(self).paths@.len(),
            i >= old(self).paths@.len() ==> final(self).paths@ == old(self).paths@,
            i < old(self).paths@.len() ==> {
                &&& (forall|x: int|
                    0 <= x < old(self).paths@.len() && x != i ==> final(self).paths@[x] == old(
                        self,
                    ).paths@[x])
                &&& final(self).paths@[i as int].threshold == t
                &&& final(self).paths@[i as int].sequence == old(self).paths@[i as int].sequence
                &&& final(self).paths@[i as int].slots@ == old(self).paths@[i as int].slots@
                &&& final(self).paths@[i as int].warning == old(self).paths@[i as int].warning
            },
    {
        if i < self.paths.len() {
            let mut p = self.paths.remove(i);
            p.threshold = t;
            self.paths.insert(i, p);
            proof {
                assert(forall|x: int|
                    0 <= x < old(self).paths@.len() && x != i ==> final(self).paths@[x] == old(
                        self,
                    ).paths@[x]);
            }
        }
    }

    /// Set the time-lock of path `i`, which must be a recovery path; the
    /// primary and safety-net paths have fixed positions in time. Warnings
    /// are refreshed.
    pub fn sequence_edited(&mut self, i: usize, seq: u16)
        requires
            old(self).spec_wf(),
            seq >= 1,
        ensures
            final(self).spec_wf(),
            final(self).keys == old(self).keys,
            final(self).network == old(self).network,
            final(self).use_taproot == old(self).use_taproot,
            final(self).paths@.len() == old(self).paths@.len(),
            (i < old(self).paths@.len() && old(self).paths@[i as int].sequence matches
                PathSequence::Recovery(_)) ==> final(self).paths@[i as int].sequence
                == PathSequence::Recovery(seq),
            !(i < old(self).paths@.len() && old(self).paths@[i as int].sequence matches
                PathSequence::Recovery(_)) ==> spec_core_eq(final(self).paths@, old(self).paths@),
            forall|x: int|
                0 <= x < old(self).paths@.len() && x != i ==> {
                    &&& (#[trigger] final(self).paths@[x]).sequence == old(self).paths@[x].sequence
                    &&& final(self).paths@[x].threshold == old(self).paths@[x].threshold
                    &&& final(self).paths@[x].slots@ == old(self).paths@[x].slots@
                },
            i < old(self).paths@.len() ==> {
                &&& final(self).paths@[i as int].threshold == old(self).paths@[i as int].threshold
                &&& final(self).paths@[i as int].slots@ == old(self).paths@[i as int].slots@
            },
            final(self).spec_warnings_current(),
    {
        if i < self.paths.len() {
            let is_recovery = match self.paths[i].sequence {
                PathSequence::Recovery(_) => true,
                _ => false,
            };
            if is_recovery {
                let mut p = self.paths.remove(i);
                p.sequence = PathSequence::Recovery(seq);
                self.paths.insert(i, p);
            }
        }
        self.check_for_warning();
    }

    /// Append an empty key slot to path `i`; its threshold follows it up.
    /// Warnings are refreshed.
    pub fn add_key(&mut self, i: usize)
        requires
            old(self).spec_wf(),
            i < old(self).paths@.len() ==> old(self).paths@[i as int].threshold < usize::MAX,
            i < old(self).paths@.len() ==> old(self).paths@[i as int].slots@.len() < usize::MAX,
        ensures
            final(self).spec_wf(),
            final(self).keys == old(self).keys,
            final(self).network == old(self).network,
            final(self).use_taproot == old(self).use_taproot,
            final(self).paths@.len() == old(self).paths@.len(),
            i >= old(self).paths@.len() ==> spec_core_eq(final(self).paths@, old(self).paths@),
            i < old(self).paths@.len() ==> {
                &&& final(self).paths@[i as int].slots@ == old(self).paths@[i as int].slots@.push(
                    Option::<u32>::None,
                )
                &&& final(self).paths@[i as int].threshold == old(self).paths@[i as int].threshold
                    + 1
                &&& final(self).paths@[i as int].sequence == old(self).paths@[i as int].sequence
            },
            forall|x: int|
                0 <= x < old(self).paths@.len() && x != i ==> {
                    &&& (#[trigger] final(self).paths@[x]).sequence == old(self).paths@[x].sequence
                    &&& final(self).paths@[x].threshold == old(self).paths@[x].threshold
                    &&& final(self).paths@[x].slots@ == old(self).paths@[x].slots@
                },
            final(self).spec_warnings_current(),
    {
        if i < self.paths.len() {
            let mut p = self.paths.remove(i);
            p.add_slot();
            self.paths.insert(i, p);
        }
        self.check_for_warning();
    }

    /// Is the whole configuration ready to build: at least two paths, each
    /// valid for the chosen output type?
    pub fn valid(&self) -> (r: bool)
        ensures
            r == (self.paths@.len() >= 2 && forall|i: int|
                0 <= i < self.paths@.len() ==> (#[trigger] self.paths@[i]).spec_is_valid(
                    self.keys,
                    self.use_taproot,
                )),
    {
        if self.paths.len() < 2 {
            return false;
        }
        let mut i: usize = 0;
        while i < self.paths.len()
            invariant
                i <= self.paths@.len(),
                forall|x: int|
                    0 <= x < i ==> (#[trigger] self.paths@[x]).spec_is_valid(
                        self.keys,
                        self.use_taproot,
                    ),
            decreases self.paths@.len() - i,
        {
            if !self.paths[i].is_valid(&self.keys, self.use_taproot) {
                return false;
            }
            i += 1;
        }
        true
    }

    /// Assemble the policy from the current paths. On failure the editor
    /// records an error message and nothing else changes: paths and keys
    /// stay exactly as they were.
    pub fn apply(&mut self) -> (r: Option<PolicyBuild>)
        requires
            old(self).spec_wf(),
        ensures
            final(self).spec_wf(),
            final(self).paths@ == old(self).paths@,
            final(self).keys == old(self).keys,
            final(self).network == old(self).network,
            final(self).use_taproot == old(self).use_taproot,
            final(self).accounts == old(self).accounts,
            r is Some <==> spec_buildable(old(self).paths@, old(self).keys, old(self).use_taproot),
            r is Some ==> final(self).error is None,
            r is None ==> final(self).error is Some,
            r matches Some(b) ==> {
                &&& b.policy@ == spec_build_view(
                    old(self).paths@,
                    old(self).use_taproot,
                    old(self).network,
                )
                &&& b.hw_is_used == spec_uses_device(old(self).paths@, old(self).keys)
                &&& spec_names_ok(
                    b.key_names@,
                    spec_concat_fps(old(self).paths@, spec_order(old(self).paths@)),
                    old(self).keys,
                )
            },
    {
        match build(&self.paths, &self.keys, self.use_taproot, self.network) {
            Ok(b) => {
                self.error = None;
                Some(b)
            }
            Err(e) => {
                self.error = Some(crate::policy::error_message(e));
                None
            }
        }
    }
}


/// The slot lists of all paths.
pub open spec fn spec_slots_view(paths: Seq<Path>) -> Seq<Seq<Option<u32>>> {
    paths.map_values(|p: Path| p.slots@)
}

/// Place `fp` at one coordinate (path, slot), unless the coordinate is out
/// of bounds or that path already references the key.
pub open spec fn spec_apply_coord(
    sv: Seq<Seq<Option<u32>>>,
    c: (usize, usize),
    fp: u32,
) -> Seq<Seq<Option<u32>>> {
    let i = c.0 as int;
    let j = c.1 as int;
    if 0 <= i < sv.len() && 0 <= j < sv[i].len() && !sv[i].contains(Some(fp)) {
        sv.update(i, sv[i].update(j, Some(fp)))
    } else {
        sv
    }
}

/// Place `fp` at each coordinate in turn.
pub open spec fn spec_apply_coords(
    sv: Seq<Seq<Option<u32>>>,
    cs: Seq<(usize, usize)>,
    fp: u32,
) -> Seq<Seq<Option<u32>>>
    decreases cs.len(),
{
    if cs.len() == 0 {
        sv
    } else {
        spec_apply_coords(spec_apply_coord(sv, cs[0], fp), cs.skip(1), fp)
    }
}

/// Apart from position `j`, every slot is empty: removing slot `j` would
/// leave the path without a single key.
pub open spec fn spec_no_other_filled(slots: Seq<Option<u32>>, j: int) -> bool {
    forall|x: int| 0 <= x < slots.len() && x != j ==> (#[trigger] slots[x]) is None
}

/// Does any slot other than `j` hold a key?
#[verifier::loop_isolation(false)]
fn path_has_other_filled(p: &Path, j: usize) -> (r: bool)
    ensures
        r == !spec_no_other_filled(p.slots@, j as int),
{
    let mut x: usize = 0;
    while x < p.slots.len()
        invariant
            x <= p.slots@.len(),
            forall|y: int| 0 <= y < x && y != j ==> (#[trigger] p.slots@[y]) is None,
        decreases p.slots@.len() - x,
    {
        if x != j && p.slots[x].is_some() {
            proof {
                assert(p.slots@[x as int] is Some);
            }
            return true;
        }
        x += 1;
    }
    false
}

impl DefineDescriptor {
    /// Start over from `template`'s layout. The paths are replaced when the
    /// template changes or none exist yet; re-loading the current template
    /// keeps edited paths.
    #[verifier::loop_isolation(false)]
    pub fn load_template(&mut self, template: DescriptorTemplate)
        requires
            old(self).spec_wf(),
        ensures
            final(self).spec_wf(),
            final(self).descriptor_template == template,
            final(self).keys == old(self).keys,
            final(self).network == old(self).network,
            final(self).use_taproot == old(self).use_taproot,
            final(self).accounts == old(self).accounts,
            (template == old(self).descriptor_template && old(self).paths@.len() > 0) ==> final(self).paths@ == old(self).paths@,
            (template != old(self).descriptor_template || old(self).paths@.len() == 0) ==> {
                &&& final(self).paths@.len() == 2
                &&& final(self).paths@[0].sequence == PathSequence::Primary
                &&& final(self).paths@[1].sequence == PathSequence::Recovery(
                    crate::path::DEFAULT_RECOVERY_SEQUENCE,
                )
                &&& final(self).paths@[0].warning is None
                &&& final(self).paths@[1].warning is None
                &&& (forall|j: int|
                    0 <= j < final(self).paths@[0].slots@.len() ==> final(self).paths@[0].slots@[j] is None)
                &&& (forall|j: int|
                    0 <= j < final(self).paths@[1].slots@.len() ==> final(self).paths@[1].slots@[j] is None)
                &&& (template == DescriptorTemplate::MultisigSecurity ==> final(self).paths@[0].slots@.len() == 2 && final(self).paths@[0].threshold == 2usize
                    && final(self).paths@[1].slots@.len() == 3 && final(self).paths@[1].threshold
                    == 2usize)
                &&& (template != DescriptorTemplate::MultisigSecurity ==> final(self).paths@[0].slots@.len() == 1 && final(self).paths@[0].threshold == 1usize
                    && final(self).paths@[1].slots@.len() == 1 && final(self).paths@[1].threshold
                    == 1usize)
            },
    {
        if !(self.descriptor_template == template) || self.paths.len() == 0 {
            let mut paths: Vec<Path> = Vec::new();
            match template {
                DescriptorTemplate::MultisigSecurity => {
                    paths.push(Path::new_primary_path().with_n_keys(2).with_threshold(2));
                    paths.push(Path::new_recovery_path().with_n_keys(3).with_threshold(2));
                }
                _ => {
                    paths.push(Path::new_primary_path());
                    paths.push(Path::new_recovery_path());
                }
            }
            self.paths = paths;
        }
        self.descriptor_template = template;
    }

    /// Drop every key and path and reload the current template's layout.
    pub fn reset(&mut self)
        requires
            old(self).spec_wf(),
        ensures
            final(self).spec_wf(),
            final(self).descriptor_template == old(self).descriptor_template,
            final(self).network == old(self).network,
            final(self).use_taproot == old(self).use_taproot,
            final(self).keys.keys@.len() == 0,
            final(self).paths@.len() == 2,
            final(self).paths@[0].sequence == PathSequence::Primary,
            final(self).paths@[1].sequence == PathSequence::Recovery(
                crate::path::DEFAULT_RECOVERY_SEQUENCE,
            ),
    {
        self.keys = KeyRegistry::new();
        self.paths = Vec::new();
        let t = self.descriptor_template;
        self.load_template(t);
    }

    /// Remove slot `j` of path `i`: the path's threshold is clamped if it
    /// would exceed the remaining slots, and a non-primary path left with
    /// no filled slot is pruned from the policy — a path without keys is
    /// meaningless and must not survive; the primary path never is
    /// pruned. Warnings are refreshed.
    #[verifier::loop_isolation(false)]
    pub fn delete_key(&mut self, i: usize, j: usize)
        requires
            old(self).spec_wf(),
        ensures
            final(self).spec_wf(),
            final(self).keys == old(self).keys,
            final(self).network == old(self).network,
            final(self).use_taproot == old(self).use_taproot,
            final(self).spec_warnings_current(),
            !(i < old(self).paths@.len() && j < old(self).paths@[i as int].slots@.len())
                ==> spec_core_eq(final(self).paths@, old(self).paths@),
            (i < old(self).paths@.len() && j < old(self).paths@[i as int].slots@.len() && i > 0
                && spec_no_other_filled(old(self).paths@[i as int].slots@, j as int)) ==> {
                &&& final(self).paths@.len() == old(self).paths@.len() - 1
                &&& (forall|x: int|
                    0 <= x < i ==> (#[trigger] final(self).paths@[x]).sequence == old(
                        self,
                    ).paths@[x].sequence && final(self).paths@[x].threshold == old(
                        self,
                    ).paths@[x].threshold && final(self).paths@[x].slots@ == old(
                        self,
                    ).paths@[x].slots@)
                &&& (forall|x: int|
                    i <= x < final(self).paths@.len() ==> (#[trigger] final(self).paths@[x]).sequence == old(self).paths@[x + 1].sequence && final(self).paths@[x].threshold == old(self).paths@[x + 1].threshold && final(self).paths@[x].slots@ == old(self).paths@[x + 1].slots@)
            },
            (i < old(self).paths@.len() && j < old(self).paths@[i as int].slots@.len() && !(i > 0
                && spec_no_other_filled(old(self).paths@[i as int].slots@, j as int))) ==> {
                &&& final(self).paths@.len() == old(self).paths@.len()
                &&& (forall|x: int|
                    0 <= x < old(self).paths@.len() && x != i ==> (#[trigger] final(self).paths@[x]).sequence == old(self).paths@[x].sequence && final(self).paths@[x].threshold == old(self).paths@[x].threshold && final(self).paths@[x].slots@ == old(self).paths@[x].slots@)
                &&& final(self).paths@[i as int].slots@ == old(self).paths@[i as int].slots@.remove(
                    j as int,
                )
                &&& final(self).paths@[i as int].sequence == old(self).paths@[i as int].sequence
                &&& (old(self).paths@[i as int].threshold > old(
                    self,
                ).paths@[i as int].slots@.len() - 1 ==> final(self).paths@[i as int].threshold
                    == old(self).paths@[i as int].threshold - 1)
                &&& (old(self).paths@[i as int].threshold <= old(
                    self,
                ).paths@[i as int].slots@.len() - 1 ==> final(self).paths@[i as int].threshold
                    == old(self).paths@[i as int].threshold)
            },
    {
        if i < self.paths.len() && j < self.paths[i].slots.len() {
            let prune = i > 0 && !path_has_other_filled(&self.paths[i], j);
            if prune {
                let _ = self.paths.remove(i);
            } else {
                let mut p = self.paths.remove(i);
                p.remove_slot(j);
                self.paths.insert(i, p);
            }
        }
        self.check_for_warning();
    }

    /// Place the key `fp` at each coordinate (path, slot): a slot is only
    /// written when it exists and its path does not already reference the
    /// key — one key may fill at most one slot per path.
    #[verifier::loop_isolation(false)]
    fn apply_key_to_coords(&mut self, coordinates: &Vec<(usize, usize)>, fp: u32)
        ensures
            final(self).keys == old(self).keys,
            final(self).network == old(self).network,
            final(self).use_taproot == old(self).use_taproot,
            final(self).accounts == old(self).accounts,
            final(self).descriptor_template == old(self).descriptor_template,
            final(self).error == old(self).error,
            final(self).paths@.len() == old(self).paths@.len(),
            forall|x: int|
                0 <= x < old(self).paths@.len() ==> (#[trigger] final(self).paths@[x]).sequence
                    == old(self).paths@[x].sequence && final(self).paths@[x].threshold == old(
                    self,
                ).paths@[x].threshold && final(self).paths@[x].warning == old(
                    self,
                ).paths@[x].warning,
            spec_slots_view(final(self).paths@) == spec_apply_coords(
                spec_slots_view(old(self).paths@),
                coordinates@,
                fp,
            ),
    {
        let ghost orig_sv = spec_slots_view(self.paths@);
        let mut k: usize = 0;
        proof {
            assert(coordinates@.skip(0) =~= coordinates@);
        }
        while k < coordinates.len()
            invariant
                k <= coordinates@.len(),
                self.keys == old(self).keys,
                self.network == old(self).network,
                self.use_taproot == old(self).use_taproot,
                self.accounts == old(self).accounts,
                self.descriptor_template == old(self).descriptor_template,
                self.error == old(self).error,
                self.paths@.len() == old(self).paths@.len(),
                forall|x: int|
                    0 <= x < old(self).paths@.len() ==> (#[trigger] self.paths@[x]).sequence
                        == old(self).paths@[x].sequence && self.paths@[x].threshold == old(
                        self,
                    ).paths@[x].threshold && self.paths@[x].warning == old(
                        self,
                    ).paths@[x].warning,
                spec_apply_coords(orig_sv, coordinates@, fp) == spec_apply_coords(
                    spec_slots_view(self.paths@),
                    coordinates@.skip(k as int),
                    fp,
                ),
            decreases coordinates@.len() - k,
        {
            let c = coordinates[k];
            let ghost sv_before = spec_slots_view(self.paths@);
            let i = c.0;
            let j = c.1;
            if i < self.paths.len() && j < self.paths[i].slots.len() {
                if !self.paths[i].contains_fp(fp) {
                    let mut p = self.paths.remove(i);
                    p.set_slot(j, Some(fp));
                    self.paths.insert(i, p);
                    proof {
                        assert(spec_slots_view(self.paths@) =~= sv_before.update(
                            i as int,
                            sv_before[i as int].update(j as int, Some(fp)),
                        ));
                    }
                }
            }
            proof {
                assert(spec_slots_view(self.paths@) =~= spec_apply_coord(sv_before, c, fp));
                assert(coordinates@.skip(k as int)[0] == c);
                assert(coordinates@.skip(k as int).skip(1) =~= coordinates@.skip(k as int + 1));
            }
            k += 1;
        }
        proof {
            assert(coordinates@.skip(coordinates@.len() as int) =~= Seq::<(usize, usize)>::empty());
        }
    }

    /// Place an already-registered key at the given coordinates. An
    /// unregistered fingerprint changes nothing. Warnings are refreshed.
    pub fn keys_edited_existing(&mut self, coordinates: &Vec<(usize, usize)>, fp: u32)
        requires
            old(self).spec_wf(),
        ensures
            final(self).spec_wf(),
            final(self).keys == old(self).keys,
            final(self).network == old(self).network,
            final(self).use_taproot == old(self).use_taproot,
            final(self).spec_warnings_current(),
            final(self).paths@.len() == old(self).paths@.len(),
            forall|x: int|
                0 <= x < old(self).paths@.len() ==> (#[trigger] final(self).paths@[x]).sequence
                    == old(self).paths@[x].sequence && final(self).paths@[x].threshold == old(
                    self,
                ).paths@[x].threshold,
            old(self).keys.spec_contains(fp) ==> spec_slots_view(final(self).paths@)
                == spec_apply_coords(spec_slots_view(old(self).paths@), coordinates@, fp),
            !old(self).keys.spec_contains(fp) ==> spec_slots_view(final(self).paths@)
                == spec_slots_view(old(self).paths@),
    {
        if self.keys.contains(fp) {
            self.apply_key_to_coords(coordinates, fp);
        }
        self.check_for_warning();
        proof {
            assert(spec_slots_view(final(self).paths@) =~= spec_slots_view(self.paths@));
        }
    }

    /// Register a new key (replacing any record under the same
    /// fingerprint, and remembering its account index if it has one) and
    /// place it at the given coordinates. Warnings are refreshed.
    pub fn keys_edited_new(&mut self, coordinates: &Vec<(usize, usize)>, key: Key)
        requires
            old(self).spec_wf(),
        ensures
            final(self).spec_wf(),
            final(self).network == old(self).network,
            final(self).use_taproot == old(self).use_taproot,
            final(self).spec_warnings_current(),
            final(self).keys.spec_get(key.fingerprint) == Some(key),
            forall|f: u32|
                f != key.fingerprint ==> final(self).keys.spec_get(f) == old(self).keys.spec_get(
                    f,
                ),
            final(self).paths@.len() == old(self).paths@.len(),
            forall|x: int|
                0 <= x < old(self).paths@.len() ==> (#[trigger] final(self).paths@[x]).sequence
                    == old(self).paths@[x].sequence && final(self).paths@[x].threshold == old(
                    self,
                ).paths@[x].threshold,
            spec_slots_view(final(self).paths@) == spec_apply_coords(
                spec_slots_view(old(self).paths@),
                coordinates@,
                key.fingerprint,
            ),
    {
        let fp = key.fingerprint;
        match key.account {
            Some(acc) => {
                self.accounts.push((fp, acc));
            }
            None => {}
        }
        self.keys.insert_or_replace(key);
        self.apply_key_to_coords(coordinates, fp);
        self.check_for_warning();
        proof {
            assert(spec_slots_view(final(self).paths@) =~= spec_slots_view(self.paths@));
        }
    }
}


/// The coordinates (path, slot) of every slot referencing `fp`, in path
/// order then slot order.
pub open spec fn spec_key_coords(paths: Seq<Path>, fp: u32) -> Seq<(usize, usize)>
    decreases paths.len(),
{
    if paths.len() == 0 {
        Seq::empty()
    } else {
        spec_key_coords(paths.drop_last(), fp) + spec_path_coords(
            paths.last().slots@,
            (paths.len() - 1) as usize,
            fp,
        )
    }
}

/// The coordinates within one path's slot list.
pub open spec fn spec_path_coords(slots: Seq<Option<u32>>, i: usize, fp: u32) -> Seq<
    (usize, usize),
>
    decreases slots.len(),
{
    if slots.len() == 0 {
        Seq::empty()
    } else {
        spec_path_coords(slots.drop_last(), i, fp) + (if slots.last() == Some(fp) {
            seq![(i, (slots.len() - 1) as usize)]
        } else {
            Seq::empty()
        })
    }
}

/// The fingerprints filling the slots of the given paths, in order;
/// empty slots and out-of-range positions contribute nothing.
pub open spec fn spec_paths_fps(paths: Seq<Path>, idxs: Seq<usize>) -> Seq<u32>
    decreases idxs.len(),
{
    if idxs.len() == 0 {
        Seq::empty()
    } else {
        spec_paths_fps(paths, idxs.drop_last()) + (if (idxs.last() as int) < paths.len() {
            spec_filled_fps(paths[idxs.last() as int].slots@)
        } else {
            Seq::empty()
        })
    }
}

pub open spec fn spec_filled_fps(slots: Seq<Option<u32>>) -> Seq<u32>
    decreases slots.len(),
{
    if slots.len() == 0 {
        Seq::empty()
    } else {
        spec_filled_fps(slots.drop_last()) + (match slots.last() {
            Some(fp) => seq![fp],
            None => Seq::empty(),
        })
    }
}

impl DefineDescriptor {
    /// Where each registered key sits: one entry per registry record, with
    /// every coordinate whose slot references it.
    #[verifier::loop_isolation(false)]
    pub fn key_coordinates(&self) -> (r: Vec<(u32, Vec<(usize, usize)>)>)
        ensures
            r@.len() == self.keys.keys@.len(),
            forall|k: int|
                0 <= k < r@.len() ==> (#[trigger] r@[k]).0 == self.keys.keys@[k].fingerprint
                    && r@[k].1@ == spec_key_coords(self.paths@, self.keys.keys@[k].fingerprint),
    {
        let mut r: Vec<(u32, Vec<(usize, usize)>)> = Vec::new();
        let mut k: usize = 0;
        while k < self.keys.keys.len()
            invariant
                k <= self.keys.keys@.len(),
                r@.len() == k,
                forall|x: int|
                    0 <= x < k ==> (#[trigger] r@[x]).0 == self.keys.keys@[x].fingerprint
                        && r@[x].1@ == spec_key_coords(
                        self.paths@,
                        self.keys.keys@[x].fingerprint,
                    ),
            decreases self.keys.keys@.len() - k,
        {
            let fp = self.keys.keys[k].fingerprint;
            let mut coords: Vec<(usize, usize)> = Vec::new();
            let mut i: usize = 0;
            proof {
                assert(coords@ =~= spec_key_coords(self.paths@.take(0), fp));
            }
            while i < self.paths.len()
                invariant
                    i <= self.paths@.len(),
                    coords@ == spec_key_coords(self.paths@.take(i as int), fp),
                decreases self.paths@.len() - i,
            {
                let n = self.paths[i].slots.len();
                let mut j: usize = 0;
                let ghost base = coords@;
                proof {
                    assert(spec_path_coords(self.paths@[i as int].slots@.take(0), i, fp) =~= Seq::<
                        (usize, usize),
                    >::empty());
                    assert(coords@ =~= base + spec_path_coords(
                        self.paths@[i as int].slots@.take(0),
                        i,
                        fp,
                    ));
                }
                while j < n
                    invariant
                        i < self.paths@.len(),
                        n == self.paths@[i as int].slots@.len(),
                        j <= n,
                        coords@ =~= base + spec_path_coords(
                            self.paths@[i as int].slots@.take(j as int),
                            i,
                            fp,
                        ),
                    decreases n - j,
                {
                    match self.paths[i].slots[j] {
                        Some(f) => {
                            if f == fp {
                                coords.push((i, j));
                            }
                        }
                        None => {}
                    }
                    j += 1;
                    proof {
                        let t = self.paths@[i as int].slots@.take(j as int);
                        assert(t.drop_last() =~= self.paths@[i as int].slots@.take(j as int - 1));
                        assert(t.last() == self.paths@[i as int].slots@[j - 1]);
                        assert(coords@ =~= base + spec_path_coords(t, i, fp));
                    }
                }
                i += 1;
                proof {
                    let t = self.paths@.take(i as int);
                    assert(t.drop_last() =~= self.paths@.take(i as int - 1));
                    assert(t.last() == self.paths@[i as int - 1]);
                    assert(self.paths@[i as int - 1].slots@.take(n as int) =~= self.paths@[i as int
                        - 1].slots@);
                    assert(coords@ =~= spec_key_coords(t, fp));
                }
            }
            proof {
                assert(self.paths@.take(self.paths@.len() as int) =~= self.paths@);
            }
            r.push((fp, coords));
            k += 1;
        }
        r
    }

    /// The fingerprints filling the given paths' slots.
    #[verifier::loop_isolation(false)]
    pub fn path_keys(&self, idxs: &Vec<usize>) -> (r: Vec<u32>)
        ensures
            r@ == spec_paths_fps(self.paths@, idxs@),
    {
        let mut r: Vec<u32> = Vec::new();
        let mut k: usize = 0;
        proof {
            assert(r@ =~= spec_paths_fps(self.paths@, idxs@.take(0)));
        }
        while k < idxs.len()
            invariant
                k <= idxs@.len(),
                r@ == spec_paths_fps(self.paths@, idxs@.take(k as int)),
            decreases idxs@.len() - k,
        {
            let pi = idxs[k];
            let ghost base = r@;
            if pi < self.paths.len() {
                let n = self.paths[pi].slots.len();
                let mut j: usize = 0;
                proof {
                    assert(spec_filled_fps(self.paths@[pi as int].slots@.take(0)) =~= Seq::<
                        u32,
                    >::empty());
                    assert(r@ =~= base + spec_filled_fps(self.paths@[pi as int].slots@.take(0)));
                }
                while j < n
                    invariant
                        pi < self.paths@.len(),
                        n == self.paths@[pi as int].slots@.len(),
                        j <= n,
                        r@ =~= base + spec_filled_fps(self.paths@[pi as int].slots@.take(j as int)),
                    decreases n - j,
                {
                    match self.paths[pi].slots[j] {
                        Some(f) => {
                            r.push(f);
                        }
                        None => {}
                    }
                    j += 1;
                    proof {
                        let t = self.paths@[pi as int].slots@.take(j as int);
                        assert(t.drop_last() =~= self.paths@[pi as int].slots@.take(j as int - 1));
                        assert(t.last() == self.paths@[pi as int].slots@[j - 1]);
                        assert(r@ =~= base + spec_filled_fps(t));
                    }
                }
                proof {
                    assert(self.paths@[pi as int].slots@.take(n as int) =~= self.paths@[pi as int].slots@);
                }
            }
            k += 1;
            proof {
                let t = idxs@.take(k as int);
                assert(t.drop_last() =~= idxs@.take(k as int - 1));
                assert(t.last() == idxs@[k as int - 1]);
                assert(r@ =~= spec_paths_fps(self.paths@, t));
            }
        }
        proof {
            assert(idxs@.take(idxs@.len() as int) =~= idxs@);
        }
        r
    }
}

/// Messages of the time-lock edit dialog.
#[derive(Debug, Clone)]
pub enum SequenceModal {
    SequenceEdited(String),
    ConfirmSequence,
}

/// A valid time-lock entry: a plain decimal number of blocks, positive and
/// within the sixteen-bit range a relative lock can express.
pub open spec fn spec_sequence_entry_valid(s: Seq<char>) -> bool {
    match spec_parse_u64(s) {
        Some(v) => 1 <= v <= 65535,
        None => false,
    }
}

/// The dialog for editing a path's relative time-lock.
pub struct EditSequenceModal {
    pub path_index: usize,
    pub sequence: FormValue,
}

impl EditSequenceModal {
    /// Open the dialog showing the path's current time-lock.
    pub fn new(path_index: usize, path_sequence: PathSequence) -> (r: EditSequenceModal)
        ensures
            r.path_index == path_index,
            r.sequence.value@ == spec_dec(path_sequence.spec_as_u16() as int),
            r.sequence.valid,
            r.sequence.warning is None,
    {
        let v = path_sequence.as_u16();
        EditSequenceModal {
            path_index,
            sequence: FormValue {
                value: u64_to_dec_string(v as u64),
                valid: true,
                warning: None,
            },
        }
    }

    /// Handle one dialog message. An edit revalidates the field; a
    /// confirmation hands back the path index and the entered time-lock,
    /// or nothing while the entry is invalid.
    pub fn update(&mut self, msg: SequenceModal) -> (r: Option<(usize, u16)>)
        ensures
            final(self).path_index == old(self).path_index,
            msg matches SequenceModal::SequenceEdited(s) ==> {
                &&& final(self).sequence.value@ == s@
                &&& final(self).sequence.valid == spec_sequence_entry_valid(s@)
                &&& r is None
            },
            msg is ConfirmSequence ==> {
                &&& final(self).sequence == old(self).sequence
                &&& (old(self).sequence.valid && spec_sequence_entry_valid(
                    old(self).sequence.value@,
                ) ==> r == Some(
                    (
                        old(self).path_index,
                        spec_parse_u64(old(self).sequence.value@).unwrap() as u16,
                    ),
                ))
                &&& (!(old(self).sequence.valid && spec_sequence_entry_valid(
                    old(self).sequence.value@,
                )) ==> r is None)
            },
    {
        match msg {
            SequenceModal::SequenceEdited(s) => {
                let ok = match parse_u64_dec(s.as_str()) {
                    Some(v) => 1 <= v && v <= 65535,
                    None => false,
                };
                self.sequence.valid = ok;
                self.sequence.value = s;
                None
            }
            SequenceModal::ConfirmSequence => {
                if self.sequence.valid {
                    match parse_u64_dec(self.sequence.value.as_str()) {
                        Some(v) => {
                            if 1 <= v && v <= 65535 {
                                Some((self.path_index, v as u16))
                            } else {
                                None
                            }
                        }
                        None => None,
                    }
                } else {
                    None
                }
            }
        }
    }
}

/// The dialog for editing a path's threshold: the chosen value and the
/// slot count it may not exceed.
pub struct EditThresholdModal {
    pub threshold: (usize, usize),
    pub path_index: usize,
}

impl EditThresholdModal {
    /// Open the dialog on `threshold` = (current value, slot count).
    pub fn new(path_index: usize, threshold: (usize, usize)) -> (r: EditThresholdModal)
        ensures
            r.path_index == path_index,
            r.threshold == threshold,
    {
        EditThresholdModal { threshold, path_index }
    }

    /// Choose a new threshold; values above the slot count are ignored.
    pub fn threshold_edited(&mut self, t: usize)
        ensures
            final(self).path_index == old(self).path_index,
            final(self).threshold.1 == old(self).threshold.1,
            t <= old(self).threshold.1 ==> final(self).threshold.0 == t,
            t > old(self).threshold.1 ==> final(self).threshold.0 == old(self).threshold.0,
    {
        if t <= self.threshold.1 {
            self.threshold.0 = t;
        }
    }

    /// Confirm: hand back the path index and the chosen threshold.
    pub fn confirm(&self) -> (r: (usize, usize))
        ensures
            r == (self.path_index, self.threshold.0),
    {
        (self.path_index, self.threshold.0)
    }
}

} // verus!
