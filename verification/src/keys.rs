//! Keys and the key registry.
//!
//! The registry is the single owner of key records; paths reference keys by
//! fingerprint only, so renaming a key never has to be fanned out.

use vstd::prelude::*;

verus! {

/// The kind of signing device a key lives on.
#[derive(Clone, Copy, Debug, PartialEq, Eq, Structural)]
pub enum DeviceKind {
    BitBox02,
    Coldcard,
    Jade,
    Ledger,
    Specter,
}

/// Where a key comes from.
#[derive(Clone, Copy, Debug, PartialEq, Eq, Structural)]
pub enum KeySource {
    /// A key generated and held by this application's own signer.
    HotSigner,
    /// A key held on a hardware signing device.
    HardwareDevice(DeviceKind),
    /// A key held by the co-signing server.
    CosignerToken,
    /// An extended public key entered by hand.
    ImportedXpub,
}

impl KeySource {
    /// Whether keys from this source can be used under a taproot output.
    /// Of the supported devices only the Specter lacks taproot support.
    pub open spec fn spec_compatible_taproot(self) -> bool {
        self != KeySource::HardwareDevice(DeviceKind::Specter)
    }

    pub fn compatible_taproot(self) -> (r: bool)
        ensures
            r == self.spec_compatible_taproot(),
    {
        self != KeySource::HardwareDevice(DeviceKind::Specter)
    }

    /// Whether this key lives on a hardware device.
    pub open spec fn spec_is_device(self) -> bool {
        self is HardwareDevice
    }

    pub fn is_device(self) -> (r: bool)
        ensures
            r == self.spec_is_device(),
    {
        matches!(self, KeySource::HardwareDevice(_))
    }
}

/// One key record: identity (fingerprint), display alias, key material, its
/// provenance and an optional account index.
#[derive(Clone, Debug)]
pub struct Key {
    pub fingerprint: u32,
    pub name: String,
    pub xpub: String,
    pub source: KeySource,
    pub account: Option<u32>,
}

/// Position of the first key with fingerprint `fp`, or -1 if none.
pub open spec fn spec_find_key(s: Seq<Key>, fp: u32) -> int
    decreases s.len(),
{
    if s.len() == 0 {
        -1
    } else if s[0].fingerprint == fp {
        0
    } else {
        let r = spec_find_key(s.skip(1), fp);
        if r == -1 {
            -1
        } else {
            r + 1
        }
    }
}

pub proof fn lemma_find_key(s: Seq<Key>, fp: u32)
    ensures
        spec_find_key(s, fp) == -1 ==> forall|i: int| 0 <= i < s.len() ==> s[i].fingerprint != fp,
        spec_find_key(s, fp) != -1 ==> {
            let r = spec_find_key(s, fp);
            &&& 0 <= r < s.len()
            &&& s[r].fingerprint == fp
            &&& forall|i: int| 0 <= i < r ==> s[i].fingerprint != fp
        },
    decreases s.len(),
{
    if s.len() > 0 && s[0].fingerprint != fp {
        lemma_find_key(s.skip(1), fp);
        assert forall|i: int| 1 <= i < s.len() implies s[i] == s.skip(1)[i - 1] by {}
    }
}

/// The registry maps each fingerprint to at most one key record.
#[derive(Clone, Debug)]
pub struct KeyRegistry {
    pub keys: Vec<Key>,
}

impl KeyRegistry {
    /// A fingerprint appears at most once.
    pub open spec fn wf(self) -> bool {
        forall|i: int, j: int|
            0 <= i < j < self.keys@.len() ==> self.keys@[i].fingerprint
                != self.keys@[j].fingerprint
    }

    pub open spec fn spec_contains(self, fp: u32) -> bool {
        exists|i: int| 0 <= i < self.keys@.len() && self.keys@[i].fingerprint == fp
    }

    /// The record registered under `fp`, if any.
    pub open spec fn spec_get(self, fp: u32) -> Option<Key> {
        if spec_find_key(self.keys@, fp) == -1 {
            None
        } else {
            Some(self.keys@[spec_find_key(self.keys@, fp)])
        }
    }

    pub proof fn lemma_get_contains(self, fp: u32)
        ensures
            self.spec_contains(fp) <==> self.spec_get(fp) is Some,
            self.spec_get(fp) matches Some(k) ==> k.fingerprint == fp,
    {
        lemma_find_key(self.keys@, fp);
        if self.spec_contains(fp) {
            let i = choose|i: int|
                0 <= i < self.keys@.len() && self.keys@[i].fingerprint == fp;
            assert(spec_find_key(self.keys@, fp) != -1);
        }
    }

    pub fn new() -> (r: KeyRegistry)
        ensures
            r.wf(),
            r.keys@ == Seq::<Key>::empty(),
    {
        KeyRegistry { keys: Vec::new() }
    }

    /// Index of the record with fingerprint `fp`, if one is registered.
    pub fn find(&self, fp: u32) -> (r: Option<usize>)
        ensures
            r is None ==> spec_find_key(self.keys@, fp) == -1,
            r matches Some(i) ==> spec_find_key(self.keys@, fp) == i && i < self.keys@.len()
                && self.keys@[i as int].fingerprint == fp,
    {
        proof {
            lemma_find_key(self.keys@, fp);
        }
        let mut i: usize = 0;
        while i < self.keys.len()
            invariant
                i <= self.keys@.len(),
                forall|j: int| 0 <= j < i ==> self.keys@[j].fingerprint != fp,
            decreases self.keys@.len() - i,
        {
            if self.keys[i].fingerprint == fp {
                proof {
                    lemma_find_key(self.keys@, fp);
                }
                return Some(i);
            }
            i += 1;
        }
        None
    }

    /// Look a key up by fingerprint.
    pub fn get(&self, fp: u32) -> (r: Option<&Key>)
        ensures
            match r {
                Some(k) => self.spec_get(fp) == Some(*k),
                None => self.spec_get(fp) is None,
            },
    {
        match self.find(fp) {
            Some(i) => Some(&self.keys[i]),
            None => None,
        }
    }

    pub fn contains(&self, fp: u32) -> (r: bool)
        ensures
            r == self.spec_contains(fp),
    {
        proof {
            self.lemma_get_contains(fp);
        }
        self.find(fp).is_some()
    }

    /// Register `key`, replacing any record under the same fingerprint:
    /// overwriting is an explicit replace, never a silent merge.
    pub fn insert_or_replace(&mut self, key: Key)
        requires
            old(self).wf(),
        ensures
            final(self).wf(),
            final(self).spec_get(key.fingerprint) == Some(key),
            forall|fp: u32|
                fp != key.fingerprint ==> final(self).spec_get(fp) == old(self).spec_get(fp),
            forall|fp: u32|
                fp != key.fingerprint ==> final(self).spec_contains(fp) == old(
                    self,
                ).spec_contains(fp),
    {
        let ghost pre = self.keys@;
        let ghost gkey = key;
        let fpk = key.fingerprint;
        match self.find(fpk) {
            Some(i) => {
                self.keys.set(i, key);
                proof {
                    let post = self.keys@;
                    assert forall|f: u32| spec_find_key(post, f) == spec_find_key(pre, f) by {
                        lemma_find_key_update(pre, i as int, gkey, f);
                    }
                    assert(forall|x: int|
                        0 <= x < post.len() ==> post[x].fingerprint == pre[x].fingerprint);
                    assert forall|f: u32|
                        f != fpk implies #[trigger] self.spec_get(f) == old(self).spec_get(f) by {
                        lemma_find_key(pre, f);
                    }
                    assert(post[i as int] == gkey);
                }
            }
            None => {
                self.keys.push(key);
                proof {
                    let post = self.keys@;
                    lemma_find_key(pre, fpk);
                    assert forall|f: u32|
                        f != fpk implies #[trigger] self.spec_get(f) == old(self).spec_get(f) by {
                        lemma_find_key_push(pre, gkey, f);
                        lemma_find_key(pre, f);
                    }
                    lemma_find_key_push(pre, gkey, fpk);
                    assert(post[pre.len() as int] == gkey);
                }
            }
        }
        proof {
            assert forall|f: u32|
                f != fpk implies #[trigger] self.spec_contains(f) == old(self).spec_contains(
                f,
            ) by {
                self.lemma_get_contains(f);
                old(self).lemma_get_contains(f);
            }
        }
    }

    /// Change the display alias of the key under `fp`, if one is registered.
    /// Aliasing is cosmetic: identity, material, provenance and account stay.
    pub fn rename(&mut self, fp: u32, alias: String)
        requires
            old(self).wf(),
        ensures
            final(self).wf(),
            old(self).spec_get(fp) matches Some(k) ==> final(self).spec_get(fp) == Some(
                Key { name: alias, ..k },
            ),
            old(self).spec_get(fp) is None ==> final(self).keys@ == old(self).keys@,
            forall|f: u32| f != fp ==> final(self).spec_get(f) == old(self).spec_get(f),
    {
        let ghost pre = self.keys@;
        match self.find(fp) {
            Some(i) => {
                let mut k = self.keys.remove(i);
                k.name = alias;
                self.keys.insert(i, k);
                proof {
                    let post = self.keys@;
                    assert(post =~= pre.update(i as int, post[i as int]));
                    assert forall|f: u32| spec_find_key(post, f) == spec_find_key(pre, f) by {
                        lemma_find_key_update(pre, i as int, post[i as int], f);
                    }
                    assert(forall|x: int|
                        0 <= x < post.len() ==> post[x].fingerprint == pre[x].fingerprint);
                    assert forall|f: u32|
                        f != fp implies #[trigger] self.spec_get(f) == old(self).spec_get(f) by {
                        lemma_find_key(pre, f);
                    }
                    lemma_find_key(pre, fp);
                }
            }
            None => {}
        }
    }
}

/// Replacing an entry by one with the same fingerprint moves no search result.
proof fn lemma_find_key_update(s: Seq<Key>, i: int, k: Key, fp: u32)
    requires
        0 <= i < s.len(),
        k.fingerprint == s[i].fingerprint,
    ensures
        spec_find_key(s.update(i, k), fp) == spec_find_key(s, fp),
    decreases s.len(),
{
    if i == 0 {
        if s[0].fingerprint != fp {
            assert(s.update(0, k).skip(1) =~= s.skip(1));
        }
    } else {
        lemma_find_key_update(s.skip(1), i - 1, k, fp);
        assert(s.update(i, k).skip(1) =~= s.skip(1).update(i - 1, k));
    }
}

/// Appending affects the search only for the appended fingerprint, and then
/// only when it was absent.
proof fn lemma_find_key_push(s: Seq<Key>, k: Key, fp: u32)
    ensures
        spec_find_key(s, fp) != -1 ==> spec_find_key(s.push(k), fp) == spec_find_key(s, fp),
        spec_find_key(s, fp) == -1 && k.fingerprint == fp ==> spec_find_key(s.push(k), fp)
            == s.len(),
        spec_find_key(s, fp) == -1 && k.fingerprint != fp ==> spec_find_key(s.push(k), fp) == -1,
    decreases s.len(),
{
    if s.len() == 0 {
        assert(s.push(k).len() == 1);
        assert(s.push(k)[0] == k);
        assert(s.push(k).skip(1) =~= Seq::<Key>::empty());
        assert(spec_find_key(Seq::<Key>::empty(), fp) == -1);
        if k.fingerprint == fp {
            assert(spec_find_key(s.push(k), fp) == 0);
        } else {
            assert(spec_find_key(s.push(k), fp) == -1);
        }
    } else {
        lemma_find_key_push(s.skip(1), k, fp);
        lemma_find_key(s, fp);
        lemma_find_key(s.skip(1), fp);
        lemma_find_key(s.skip(1).push(k), fp);
        assert(s.push(k)[0] == s[0]);
        assert(s.push(k).skip(1) =~= s.skip(1).push(k));
        assert(s.skip(1).len() == s.len() - 1);
    }
}

} // verus!
