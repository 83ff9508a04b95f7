//! Registering the finished descriptor on hardware devices, and the
//! backup acknowledgement step. The device communication itself is
//! asynchronous and outside; here is the bookkeeping: which devices
//! already registered, the collected authentication codes, and the stale
//! guard that discards results once the descriptor changed.

use vstd::prelude::*;
use crate::codec::to_descriptor_string;
use crate::keys::DeviceKind;
use crate::policy::{copy_policy, DescriptorPolicy};

verus! {

/// Whether two optional policies describe the same policy.
pub open spec fn spec_opt_policy_eq(
    a: Option<DescriptorPolicy>,
    b: Option<DescriptorPolicy>,
) -> bool {
    match (a, b) {
        (None, None) => true,
        (Some(x), Some(y)) => x@ == y@,
        _ => false,
    }
}

/// Value equality of two policies, decided through their text forms: the
/// round trip makes the text form injective.
pub fn policy_eq(a: &DescriptorPolicy, b: &DescriptorPolicy) -> (r: bool)
    ensures
        r == (a@ == b@),
{
    let sa = to_descriptor_string(a);
    let sb = to_descriptor_string(b);
    proof {
        crate::codec::lemma_policy_value_wf(a);
        crate::codec::lemma_policy_value_wf(b);
        crate::codec::lemma_descriptor_roundtrip(a@);
        crate::codec::lemma_descriptor_roundtrip(b@);
    }
    sa.eq(&sb)
}

fn copy_hmac(v: &Option<Vec<u8>>) -> (r: Option<Vec<u8>>)
    ensures
        match r {
            Some(h) => v matches Some(o) && h@ == o@,
            None => v is None,
        },
{
    match v {
        Some(h) => {
            let mut c: Vec<u8> = Vec::new();
            let mut i: usize = 0;
            while i < h.len()
                invariant
                    i <= h@.len(),
                    c@ =~= h@.take(i as int),
                decreases h@.len() - i,
            {
                c.push(h[i]);
                i += 1;
                proof {
                    assert(c@ =~= h@.take(i as int));
                }
            }
            proof {
                assert(h@.take(h@.len() as int) =~= h@);
            }
            Some(c)
        }
        None => None,
    }
}

/// Why a registration attempt ended without a code.
#[derive(Clone, Debug)]
pub enum RegistrationError {
    /// The user declined on the device: silent cancellation, no error.
    UserRefused,
    /// The device or its transport failed.
    Failed(String),
}

/// The registration step's bookkeeping.
pub struct RegisterDescriptor {
    pub descriptor: Option<DescriptorPolicy>,
    pub processing: bool,
    pub chosen_hw: Option<usize>,
    pub hmacs: Vec<(u32, DeviceKind, Option<Vec<u8>>)>,
    pub registered: Vec<u32>,
    pub error: Option<String>,
    pub done: bool,
    /// Whether this step belongs to descriptor creation; shown during an
    /// import instead, the step is optional since no signing device may be
    /// in use at all.
    pub created_desc: bool,
}

impl RegisterDescriptor {
    pub open spec fn spec_registered_contains(self, fp: u32) -> bool {
        self.registered@.contains(fp)
    }

    fn new(created_desc: bool) -> (r: RegisterDescriptor)
        ensures
            r.created_desc == created_desc,
            r.descriptor is None,
            !r.processing,
            r.chosen_hw is None,
            r.hmacs@.len() == 0,
            r.registered@.len() == 0,
            r.error is None,
            !r.done,
    {
        RegisterDescriptor {
            descriptor: None,
            processing: false,
            chosen_hw: None,
            hmacs: Vec::new(),
            registered: Vec::new(),
            error: None,
            done: false,
            created_desc,
        }
    }

    pub fn new_create_wallet() -> (r: RegisterDescriptor)
        ensures
            r.created_desc,
            r.descriptor is None,
            r.registered@.len() == 0,
    {
        RegisterDescriptor::new(true)
    }

    pub fn new_import_wallet() -> (r: RegisterDescriptor)
        ensures
            !r.created_desc,
            r.descriptor is None,
            r.registered@.len() == 0,
    {
        RegisterDescriptor::new(false)
    }

    /// Take the current descriptor over. A changed descriptor invalidates
    /// every earlier registration: any completion for the old one arriving
    /// later is stale and must not count.
    pub fn load_context(&mut self, descriptor: Option<&DescriptorPolicy>)
        ensures
            (match descriptor {
                Some(d) => final(self).descriptor matches Some(fd) && fd@ == d@,
                None => final(self).descriptor is None,
            }),
            !spec_opt_policy_eq(
                old(self).descriptor,
                (match descriptor {
                    Some(d) => Some(*d),
                    None => None,
                }),
            ) ==> final(self).registered@.len() == 0 && !final(self).done,
            spec_opt_policy_eq(
                old(self).descriptor,
                (match descriptor {
                    Some(d) => Some(*d),
                    None => None,
                }),
            ) ==> final(self).registered == old(self).registered && final(self).done == old(self).done,
            final(self).hmacs == old(self).hmacs,
            final(self).created_desc == old(self).created_desc,
    {
        let same = match (&self.descriptor, descriptor) {
            (Some(a), Some(b)) => policy_eq(a, b),
            (None, None) => true,
            _ => false,
        };
        if !same {
            self.registered = Vec::new();
            self.done = false;
        }
        self.descriptor = match descriptor {
            Some(d) => Some(copy_policy(d)),
            None => None,
        };
    }

    fn registered_contains(&self, fp: u32) -> (r: bool)
        ensures
            r == self.spec_registered_contains(fp),
    {
        let mut i: usize = 0;
        while i < self.registered.len()
            invariant
                i <= self.registered@.len(),
                forall|k: int| 0 <= k < i ==> self.registered@[k] != fp,
            decreases self.registered@.len() - i,
        {
            if self.registered[i] == fp {
                return true;
            }
            i += 1;
        }
        proof {
            if self.registered@.contains(fp) {
                let k = choose|k: int|
                    0 <= k < self.registered@.len() && #[trigger] self.registered@[k] == fp;
            }
        }
        false
    }

    /// A device was chosen: start a registration unless that device's key
    /// already registered or another attempt is running. The caller
    /// performs the actual device call exactly when this returns true.
    pub fn start_registration(&mut self, i: usize, fingerprint: u32) -> (r: bool)
        ensures
            r == (!old(self).spec_registered_contains(fingerprint) && !old(self).processing),
            r ==> final(self).processing && final(self).chosen_hw == Some(i) && final(self).error
                is None,
            !r ==> *final(self) == *old(self),
            final(self).registered == old(self).registered,
            final(self).hmacs == old(self).hmacs,
            final(self).descriptor == old(self).descriptor,
    {
        if !self.registered_contains(fingerprint) && !self.processing {
            self.chosen_hw = Some(i);
            self.processing = true;
            self.error = None;
            true
        } else {
            false
        }
    }

    /// A registration attempt completed. A success records the device's
    /// code and marks the key registered; a refusal on the device is a
    /// silent cancellation; any other failure is surfaced. Nothing else
    /// changes, whatever came back.
    pub fn registration_result(
        &mut self,
        fingerprint: u32,
        kind: DeviceKind,
        res: Result<Option<Vec<u8>>, RegistrationError>,
    )
        ensures
            !final(self).processing,
            final(self).chosen_hw is None,
            final(self).descriptor == old(self).descriptor,
            final(self).done == old(self).done,
            res matches Ok(hmac) ==> {
                &&& final(self).registered@ == (if old(self).spec_registered_contains(fingerprint) {
                    old(self).registered@
                } else {
                    old(self).registered@.push(fingerprint)
                })
                &&& final(self).hmacs@.len() == old(self).hmacs@.len() + 1
                &&& (forall|k: int|
                    0 <= k < old(self).hmacs@.len() ==> final(self).hmacs@[k] == old(self).hmacs@[k])
                &&& final(self).hmacs@.last().0 == fingerprint
                &&& final(self).hmacs@.last().1 == kind
                &&& final(self).error is None
            },
            res matches Err(e) ==> final(self).registered == old(self).registered && final(self).hmacs == old(self).hmacs && (match e {
                RegistrationError::UserRefused => final(self).error == old(self).error,
                RegistrationError::Failed(m) => final(self).error == Some(m),
            }),
    {
        self.processing = false;
        self.chosen_hw = None;
        match res {
            Ok(hmac) => {
                if !self.registered_contains(fingerprint) {
                    self.registered.push(fingerprint);
                }
                self.hmacs.push((fingerprint, kind, hmac));
                self.error = None;
            }
            Err(RegistrationError::UserRefused) => {}
            Err(RegistrationError::Failed(m)) => {
                self.error = Some(m);
            }
        }
    }

    /// The user confirmed (or unconfirmed) having registered everywhere.
    pub fn set_done(&mut self, done: bool)
        ensures
            final(self).done == done,
            final(self).registered == old(self).registered,
            final(self).hmacs == old(self).hmacs,
            final(self).descriptor == old(self).descriptor,
    {
        self.done = done;
    }

    /// Hand the collected device codes on: each as (kind, key, code).
    #[verifier::loop_isolation(false)]
    pub fn apply(&self, out: &mut Vec<(DeviceKind, u32, Option<Vec<u8>>)>)
        ensures
            final(out)@.len() == old(out)@.len() + self.hmacs@.len(),
            forall|k: int| 0 <= k < old(out)@.len() ==> final(out)@[k] == old(out)@[k],
            forall|k: int|
                0 <= k < self.hmacs@.len() ==> {
                    let e = #[trigger] final(out)@[old(out)@.len() + k];
                    &&& e.0 == self.hmacs@[k].1
                    &&& e.1 == self.hmacs@[k].0
                    &&& (match e.2 {
                        Some(h) => self.hmacs@[k].2 matches Some(o) && h@ == o@,
                        None => self.hmacs@[k].2 is None,
                    })
                },
    {
        let mut i: usize = 0;
        while i < self.hmacs.len()
            invariant
                i <= self.hmacs@.len(),
                out@.len() == old(out)@.len() + i,
                forall|k: int| 0 <= k < old(out)@.len() ==> out@[k] == old(out)@[k],
                forall|k: int|
                    0 <= k < i ==> {
                        let e = #[trigger] out@[old(out)@.len() + k];
                        &&& e.0 == self.hmacs@[k].1
                        &&& e.1 == self.hmacs@[k].0
                        &&& (match e.2 {
                            Some(h) => self.hmacs@[k].2 matches Some(o) && h@ == o@,
                            None => self.hmacs@[k].2 is None,
                        })
                    },
            decreases self.hmacs@.len() - i,
        {
            let e = &self.hmacs[i];
            let token = copy_hmac(&e.2);
            out.push((e.1, e.0, token));
            i += 1;
        }
    }
}

/// The backup acknowledgement step: the descriptor to write down, the key
/// aliases shown beside it, and whether the user confirmed the backup.
pub struct BackupDescriptor {
    pub done: bool,
    pub descriptor: Option<DescriptorPolicy>,
    pub key_aliases: Vec<(u32, String)>,
}

impl BackupDescriptor {
    pub fn new() -> (r: BackupDescriptor)
        ensures
            !r.done,
            r.descriptor is None,
            r.key_aliases@.len() == 0,
    {
        BackupDescriptor { done: false, descriptor: None, key_aliases: Vec::new() }
    }

    pub fn set_done(&mut self, done: bool)
        ensures
            final(self).done == done,
            final(self).descriptor == old(self).descriptor,
            final(self).key_aliases == old(self).key_aliases,
    {
        self.done = done;
    }

    /// Take the current descriptor and key names over; a changed
    /// descriptor withdraws an earlier confirmation.
    #[verifier::loop_isolation(false)]
    pub fn load_context(
        &mut self,
        descriptor: Option<&DescriptorPolicy>,
        key_names: &Vec<(u32, String)>,
    )
        ensures
            (match descriptor {
                Some(d) => final(self).descriptor matches Some(fd) && fd@ == d@,
                None => final(self).descriptor is None,
            }),
            !spec_opt_policy_eq(
                old(self).descriptor,
                (match descriptor {
                    Some(d) => Some(*d),
                    None => None,
                }),
            ) ==> !final(self).done,
            spec_opt_policy_eq(
                old(self).descriptor,
                (match descriptor {
                    Some(d) => Some(*d),
                    None => None,
                }),
            ) ==> final(self).done == old(self).done,
            final(self).key_aliases@.len() == key_names@.len(),
            forall|k: int|
                0 <= k < key_names@.len() ==> (#[trigger] final(self).key_aliases@[k]).0
                    == key_names@[k].0 && final(self).key_aliases@[k].1@ == key_names@[k].1@,
    {
        let same = match (&self.descriptor, descriptor) {
            (Some(a), Some(b)) => policy_eq(a, b),
            (None, None) => true,
            _ => false,
        };
        if !same {
            self.done = false;
        }
        self.descriptor = match descriptor {
            Some(d) => Some(copy_policy(d)),
            None => None,
        };
        let mut aliases: Vec<(u32, String)> = Vec::new();
        let mut i: usize = 0;
        while i < key_names.len()
            invariant
                i <= key_names@.len(),
                aliases@.len() == i,
                forall|k: int|
                    0 <= k < i ==> (#[trigger] aliases@[k]).0 == key_names@[k].0
                        && aliases@[k].1@ == key_names@[k].1@,
            decreases key_names@.len() - i,
        {
            let e = &key_names[i];
            let name = e.1.clone();
            aliases.push((e.0, name));
            i += 1;
        }
        self.key_aliases = aliases;
    }
}

} // verus!
