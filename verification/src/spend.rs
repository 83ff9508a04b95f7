//! The spend wizard: recipients, coin choice with the running shortfall,
//! and the final review of the drafted transaction.

use vstd::prelude::*;
use crate::btc::{address_script_info, btc_amount_sats, parse_address};
use crate::coins::{Coin, OutPoint, spec_select_order, select_order};
use crate::num::{parse_u64_dec, spec_parse_u64};
use crate::types::{FormValue, Network};

verus! {

/// Copy a byte string.
fn copy_bytes(v: &Vec<u8>) -> (r: Vec<u8>)
    ensures
        r@ == v@,
{
    let mut r: Vec<u8> = Vec::new();
    let mut i: usize = 0;
    while i < v.len()
        invariant
            i <= v@.len(),
            r@ =~= v@.take(i as int),
        decreases v@.len() - i,
    {
        r.push(v[i]);
        i += 1;
        proof {
            assert(r@ =~= v@.take(i as int));
        }
    }
    proof {
        assert(v@.take(v@.len() as int) =~= v@);
    }
    r
}

/// One output of the draft: the destination address, its output script,
/// and the amount in satoshis.
#[derive(Clone, Debug)]
pub struct Output {
    pub address: String,
    pub script: Vec<u8>,
    pub amount: u64,
}

/// One output of a constructed transaction.
#[derive(Clone, Debug)]
pub struct TxOut {
    pub script: Vec<u8>,
    pub value: u64,
}

/// An unsigned transaction as handed back by the construction service.
#[derive(Clone, Debug)]
pub struct UnsignedTx {
    pub inputs: Vec<OutPoint>,
    pub outputs: Vec<TxOut>,
}

fn copy_unsigned_tx(tx: &UnsignedTx) -> (r: UnsignedTx)
    ensures
        r.inputs@ == tx.inputs@,
        r.outputs@.len() == tx.outputs@.len(),
        forall|i: int|
            0 <= i < tx.outputs@.len() ==> (#[trigger] r.outputs@[i]).script@
                == tx.outputs@[i].script@ && r.outputs@[i].value == tx.outputs@[i].value,
{
    let mut inputs: Vec<OutPoint> = Vec::new();
    let mut i: usize = 0;
    while i < tx.inputs.len()
        invariant
            i <= tx.inputs@.len(),
            inputs@ =~= tx.inputs@.take(i as int),
        decreases tx.inputs@.len() - i,
    {
        inputs.push(tx.inputs[i]);
        i += 1;
        proof {
            assert(inputs@ =~= tx.inputs@.take(i as int));
        }
    }
    proof {
        assert(tx.inputs@.take(tx.inputs@.len() as int) =~= tx.inputs@);
    }
    let mut outputs: Vec<TxOut> = Vec::new();
    let mut i: usize = 0;
    while i < tx.outputs.len()
        invariant
            i <= tx.outputs@.len(),
            outputs@.len() == i,
            forall|j: int|
                0 <= j < i ==> (#[trigger] outputs@[j]).script@ == tx.outputs@[j].script@
                    && outputs@[j].value == tx.outputs@[j].value,
        decreases tx.outputs@.len() - i,
    {
        let script = copy_bytes(&tx.outputs[i].script);
        outputs.push(TxOut { script, value: tx.outputs[i].value });
        i += 1;
    }
    UnsignedTx { inputs, outputs }
}

/// The spend under construction, passed from wizard step to wizard step:
/// chosen inputs, the outputs keyed by destination address, and the
/// transaction once the construction service produced one.
#[derive(Debug)]
pub struct TransactionDraft {
    pub inputs: Vec<Coin>,
    pub outputs: Vec<Output>,
    pub generated: Option<UnsignedTx>,
}

impl TransactionDraft {
    /// Each destination address appears at most once.
    pub open spec fn spec_outputs_unique(self) -> bool {
        forall|i: int, j: int|
            0 <= i < j < self.outputs@.len() ==> (#[trigger] self.outputs@[i]).address@ != (
            #[trigger] self.outputs@[j]).address@
    }

    /// The empty draft every spend starts from.
    pub fn new() -> (r: TransactionDraft)
        ensures
            r.inputs@.len() == 0,
            r.outputs@.len() == 0,
            r.generated is None,
            r.spec_outputs_unique(),
    {
        TransactionDraft { inputs: Vec::new(), outputs: Vec::new(), generated: None }
    }
}

/// Whether the amount entry stands for an acceptable amount given the
/// address entry: it must parse, be positive, and — once the address
/// itself is valid — exceed the address's dust value.
pub open spec fn spec_amount_check(addr: Seq<char>, amt: Seq<char>, net: Network) -> Option<u64> {
    if amt.len() == 0 {
        None
    } else {
        match btc_amount_sats(amt) {
            None => None,
            Some(sats) => if sats == 0 {
                None
            } else {
                match address_script_info(addr, net) {
                    Some(info) => if sats <= info.dust {
                        None
                    } else {
                        Some(sats)
                    },
                    None => Some(sats),
                }
            },
        }
    }
}

/// One recipient being edited: address and amount entries, each validated
/// on every change.
pub struct Recipient {
    pub address: FormValue,
    pub amount: FormValue,
}

impl Recipient {
    /// A blank recipient; blank entries show no error yet.
    pub fn new() -> (r: Recipient)
        ensures
            r.address.value@ == Seq::<char>::empty(),
            r.address.valid,
            r.amount.value@ == Seq::<char>::empty(),
            r.amount.valid,
    {
        Recipient { address: FormValue::new(), amount: FormValue::new() }
    }

    /// The amount in satoshis this recipient asks for, when acceptable.
    pub fn amount_sats(&self, net: Network) -> (r: Option<u64>)
        ensures
            r == spec_amount_check(self.address.value@, self.amount.value@, net),
    {
        if self.amount.value.as_str().unicode_len() == 0 {
            return None;
        }
        let sats = match crate::btc::parse_btc_amount(self.amount.value.as_str()) {
            Some(s) => s,
            None => {
                return None;
            }
        };
        if sats == 0 {
            return None;
        }
        match parse_address(self.address.value.as_str(), net) {
            Some(info) => {
                if sats <= info.dust {
                    None
                } else {
                    Some(sats)
                }
            }
            None => Some(sats),
        }
    }

    /// Both entries are filled and passed their last validation.
    pub fn valid(&self) -> (r: bool)
        ensures
            r == (self.address.value@.len() > 0 && self.address.valid
                && self.amount.value@.len() > 0 && self.amount.valid),
    {
        self.address.value.as_str().unicode_len() > 0 && self.address.valid
            && self.amount.value.as_str().unicode_len() > 0 && self.amount.valid
    }

    /// The address entry was edited: a blank entry clears the error, a
    /// parseable address is accepted and the amount is revalidated against
    /// its dust value, anything else is marked invalid.
    pub fn set_address(&mut self, addr: String, net: Network)
        ensures
            final(self).address.value@ == addr@,
            final(self).amount.value == old(self).amount.value,
            addr@.len() == 0 ==> final(self).address.valid && final(self).amount.valid == old(self).amount.valid,
            addr@.len() > 0 && address_script_info(addr@, net) is Some ==> {
                &&& final(self).address.valid
                &&& (old(self).amount.value@.len() > 0 ==> final(self).amount.valid == (
                spec_amount_check(addr@, old(self).amount.value@, net) is Some))
                &&& (old(self).amount.value@.len() == 0 ==> final(self).amount.valid == old(self).amount.valid)
            },
            addr@.len() > 0 && address_script_info(addr@, net) is None ==> !final(self).address.valid && final(self).amount.valid == old(self).amount.valid,
    {
        self.address.value = addr;
        if self.address.value.as_str().unicode_len() == 0 {
            self.address.valid = true;
        } else if parse_address(self.address.value.as_str(), net).is_some() {
            self.address.valid = true;
            if self.amount.value.as_str().unicode_len() > 0 {
                self.amount.valid = self.amount_sats(net).is_some();
            }
        } else {
            self.address.valid = false;
        }
    }

    /// The amount entry was edited: a blank entry clears the error, any
    /// other entry is validated in full.
    pub fn set_amount(&mut self, amt: String, net: Network)
        ensures
            final(self).amount.value@ == amt@,
            final(self).address == old(self).address,
            amt@.len() > 0 ==> final(self).amount.valid == (spec_amount_check(
                old(self).address.value@,
                amt@,
                net,
            ) is Some),
            amt@.len() == 0 ==> final(self).amount.valid,
    {
        self.amount.value = amt;
        if self.amount.value.as_str().unicode_len() > 0 {
            self.amount.valid = self.amount_sats(net).is_some();
        } else {
            self.amount.valid = true;
        }
    }
}

/// The recipients step: the list of recipients being edited.
pub struct ChooseRecipients {
    pub recipients: Vec<Recipient>,
}

impl ChooseRecipients {
    /// The step opens with one blank recipient.
    pub fn new() -> (r: ChooseRecipients)
        ensures
            r.recipients@.len() == 1,
            r.recipients@[0].address.value@ == Seq::<char>::empty(),
            r.recipients@[0].address.valid,
            r.recipients@[0].amount.value@ == Seq::<char>::empty(),
            r.recipients@[0].amount.valid,
    {
        let mut recipients: Vec<Recipient> = Vec::new();
        recipients.push(Recipient::new());
        ChooseRecipients { recipients }
    }

    pub fn add_recipient(&mut self)
        ensures
            final(self).recipients@.len() == old(self).recipients@.len() + 1,
            forall|i: int|
                0 <= i < old(self).recipients@.len() ==> final(self).recipients@[i] == old(self).recipients@[i],
            final(self).recipients@.last().address.value@ == Seq::<char>::empty(),
            final(self).recipients@.last().address.valid,
            final(self).recipients@.last().amount.value@ == Seq::<char>::empty(),
            final(self).recipients@.last().amount.valid,
    {
        self.recipients.push(Recipient::new());
    }

    pub fn delete_recipient(&mut self, i: usize)
        requires
            i < old(self).recipients@.len(),
        ensures
            final(self).recipients@ == old(self).recipients@.remove(i as int),
    {
        let _ = self.recipients.remove(i);
    }

    /// Every recipient passed validation.
    pub fn all_valid(&self) -> (r: bool)
        ensures
            r == forall|i: int|
                0 <= i < self.recipients@.len() ==> {
                    let rc = #[trigger] self.recipients@[i];
                    rc.address.value@.len() > 0 && rc.address.valid && rc.amount.value@.len() > 0
                        && rc.amount.valid
                },
    {
        let mut i: usize = 0;
        while i < self.recipients.len()
            invariant
                i <= self.recipients@.len(),
                forall|x: int|
                    0 <= x < i ==> {
                        let rc = #[trigger] self.recipients@[x];
                        rc.address.value@.len() > 0 && rc.address.valid && rc.amount.value@.len()
                            > 0 && rc.amount.valid
                    },
            decreases self.recipients@.len() - i,
        {
            if !self.recipients[i].valid() {
                return false;
            }
            i += 1;
        }
        true
    }
}


/// First output with the given destination address, or -1.
pub open spec fn spec_find_out(outs: Seq<Output>, addr: Seq<char>) -> int
    decreases outs.len(),
{
    if outs.len() == 0 {
        -1
    } else if outs[0].address@ == addr {
        0
    } else {
        let r = spec_find_out(outs.skip(1), addr);
        if r == -1 {
            -1
        } else {
            r + 1
        }
    }
}

pub proof fn lemma_find_out(outs: Seq<Output>, addr: Seq<char>)
    ensures
        spec_find_out(outs, addr) == -1 ==> forall|i: int|
            0 <= i < outs.len() ==> (#[trigger] outs[i]).address@ != addr,
        spec_find_out(outs, addr) != -1 ==> {
            let r = spec_find_out(outs, addr);
            &&& 0 <= r < outs.len()
            &&& outs[r].address@ == addr
            &&& forall|i: int| 0 <= i < r ==> (#[trigger] outs[i]).address@ != addr
        },
    decreases outs.len(),
{
    if outs.len() > 0 && outs[0].address@ != addr {
        lemma_find_out(outs.skip(1), addr);
        assert forall|i: int| 1 <= i < outs.len() implies outs[i] == outs.skip(1)[i - 1] by {}
    }
}

/// What one recipient contributes once both entries resolve: the address
/// text, the output script, and the amount.
pub open spec fn spec_resolve_recipient(addr: Seq<char>, amt: Seq<char>, net: Network) -> Option<
    (Seq<char>, Seq<u8>, u64),
> {
    match address_script_info(addr, net) {
        None => None,
        Some(info) => match spec_amount_check(addr, amt, net) {
            None => None,
            Some(sats) => Some((addr, info.script@, sats)),
        },
    }
}

/// The draft's outputs as plain values.
pub open spec fn spec_outs_view(outs: Seq<Output>) -> Seq<(Seq<char>, Seq<u8>, u64)> {
    outs.map_values(|o: Output| (o.address@, o.script@, o.amount))
}

/// Insert an output into the table: a present address is overwritten — the
/// addresses stay unique — a new one is appended.
pub open spec fn spec_find_outv(ovs: Seq<(Seq<char>, Seq<u8>, u64)>, addr: Seq<char>) -> int
    decreases ovs.len(),
{
    if ovs.len() == 0 {
        -1
    } else if ovs[0].0 == addr {
        0
    } else {
        let r = spec_find_outv(ovs.skip(1), addr);
        if r == -1 {
            -1
        } else {
            r + 1
        }
    }
}

pub open spec fn spec_insert_outv(
    ovs: Seq<(Seq<char>, Seq<u8>, u64)>,
    ov: (Seq<char>, Seq<u8>, u64),
) -> Seq<(Seq<char>, Seq<u8>, u64)> {
    let r = spec_find_outv(ovs, ov.0);
    if r == -1 {
        ovs.push(ov)
    } else {
        ovs.update(r, ov)
    }
}

proof fn lemma_find_outv(ovs: Seq<(Seq<char>, Seq<u8>, u64)>, addr: Seq<char>)
    ensures
        spec_find_outv(ovs, addr) == -1 ==> forall|i: int|
            0 <= i < ovs.len() ==> (#[trigger] ovs[i]).0 != addr,
        spec_find_outv(ovs, addr) != -1 ==> {
            let r = spec_find_outv(ovs, addr);
            &&& 0 <= r < ovs.len()
            &&& ovs[r].0 == addr
        },
    decreases ovs.len(),
{
    if ovs.len() > 0 && ovs[0].0 != addr {
        lemma_find_outv(ovs.skip(1), addr);
        assert forall|i: int| 1 <= i < ovs.len() implies ovs[i] == ovs.skip(1)[i - 1] by {}
    }
}

/// Fold the recipients into the output table; any unresolvable recipient
/// fails the whole step.
pub open spec fn spec_apply_recipients(
    ovs: Seq<(Seq<char>, Seq<u8>, u64)>,
    rcs: Seq<(Seq<char>, Seq<char>)>,
    net: Network,
) -> Option<Seq<(Seq<char>, Seq<u8>, u64)>>
    decreases rcs.len(),
{
    if rcs.len() == 0 {
        Some(ovs)
    } else {
        match spec_resolve_recipient(rcs[0].0, rcs[0].1, net) {
            None => None,
            Some(ov) => spec_apply_recipients(spec_insert_outv(ovs, ov), rcs.skip(1), net),
        }
    }
}

/// The recipients' entries as plain values.
pub open spec fn spec_recips_view(rs: Seq<Recipient>) -> Seq<(Seq<char>, Seq<char>)> {
    rs.map_values(|r: Recipient| (r.address.value@, r.amount.value@))
}

/// Unique addresses, as plain values.
pub open spec fn spec_ovs_unique(ovs: Seq<(Seq<char>, Seq<u8>, u64)>) -> bool {
    forall|i: int, j: int|
        0 <= i < j < ovs.len() ==> (#[trigger] ovs[i]).0 != (#[trigger] ovs[j]).0
}

proof fn lemma_insert_outv_unique(
    ovs: Seq<(Seq<char>, Seq<u8>, u64)>,
    ov: (Seq<char>, Seq<u8>, u64),
)
    requires
        spec_ovs_unique(ovs),
    ensures
        spec_ovs_unique(spec_insert_outv(ovs, ov)),
{
    lemma_find_outv(ovs, ov.0);
    let r = spec_find_outv(ovs, ov.0);
    let res = spec_insert_outv(ovs, ov);
    if r == -1 {
        assert forall|i: int, j: int|
            0 <= i < j < res.len() implies (#[trigger] res[i]).0 != (#[trigger] res[j]).0 by {
            if j == res.len() - 1 {
                assert(res[i] == ovs[i]);
                assert(res[j] == ov);
            }
        }
    } else {
        // Overwriting keeps the address at the same slot.
        assert forall|i: int, j: int|
            0 <= i < j < res.len() implies (#[trigger] res[i]).0 != (#[trigger] res[j]).0 by {
            assert(res[i].0 == ovs[i].0);
            assert(res[j].0 == ovs[j].0);
        }
    }
}

proof fn lemma_apply_recipients_unique(
    ovs: Seq<(Seq<char>, Seq<u8>, u64)>,
    rcs: Seq<(Seq<char>, Seq<char>)>,
    net: Network,
)
    requires
        spec_ovs_unique(ovs),
        spec_apply_recipients(ovs, rcs, net) is Some,
    ensures
        spec_ovs_unique(spec_apply_recipients(ovs, rcs, net).unwrap()),
    decreases rcs.len(),
{
    if rcs.len() > 0 {
        let ov = spec_resolve_recipient(rcs[0].0, rcs[0].1, net).unwrap();
        lemma_insert_outv_unique(ovs, ov);
        lemma_apply_recipients_unique(spec_insert_outv(ovs, ov), rcs.skip(1), net);
    }
}

/// First output with the given address, if any.
#[verifier::loop_isolation(false)]
fn find_output_pos(outs: &Vec<Output>, addr: &String) -> (r: Option<usize>)
    ensures
        r is None ==> forall|x: int|
            0 <= x < outs@.len() ==> (#[trigger] outs@[x]).address@ != addr@,
        r matches Some(p) ==> p < outs@.len() && outs@[p as int].address@ == addr@ && forall|x: int|
            0 <= x < p ==> (#[trigger] outs@[x]).address@ != addr@,
{
    let mut p: usize = 0;
    while p < outs.len()
        invariant
            p <= outs@.len(),
            forall|x: int| 0 <= x < p ==> (#[trigger] outs@[x]).address@ != addr@,
        decreases outs@.len() - p,
    {
        if outs[p].address.eq(addr) {
            return Some(p);
        }
        p += 1;
    }
    None
}

impl ChooseRecipients {
    /// Turn the recipients into the draft's outputs, one per address, the
    /// later entry winning a duplicate address. Any recipient whose
    /// entries do not resolve fails the step, and the draft is then left
    /// exactly as it was.
    #[verifier::loop_isolation(false)]
    pub fn apply(&self, draft: &mut TransactionDraft, net: Network) -> (r: bool)
        ensures
            r == (spec_apply_recipients(
                Seq::empty(),
                spec_recips_view(self.recipients@),
                net,
            ) is Some),
            !r ==> *final(draft) == *old(draft),
            r ==> {
                &&& spec_outs_view(final(draft).outputs@) == spec_apply_recipients(
                    Seq::empty(),
                    spec_recips_view(self.recipients@),
                    net,
                ).unwrap()
                &&& final(draft).inputs@ == old(draft).inputs@
                &&& final(draft).generated == old(draft).generated
                &&& final(draft).spec_outputs_unique()
            },
    {
        let ghost rv = spec_recips_view(self.recipients@);
        let mut outs: Vec<Output> = Vec::new();
        let mut k: usize = 0;
        proof {
            assert(spec_outs_view(outs@) =~= Seq::<(Seq<char>, Seq<u8>, u64)>::empty());
            assert(rv.skip(0) =~= rv);
        }
        while k < self.recipients.len()
            invariant
                k <= self.recipients@.len(),
                spec_ovs_unique(spec_outs_view(outs@)),
                spec_apply_recipients(Seq::empty(), rv, net) == spec_apply_recipients(
                    spec_outs_view(outs@),
                    rv.skip(k as int),
                    net,
                ),
            decreases self.recipients@.len() - k,
        {
            let rc = &self.recipients[k];
            let info = match parse_address(rc.address.value.as_str(), net) {
                Some(info) => info,
                None => {
                    proof {
                        assert(rv.skip(k as int)[0] == rv[k as int]);
                        assert(spec_resolve_recipient(rv[k as int].0, rv[k as int].1, net)
                            is None);
                    }
                    return false;
                }
            };
            let sats = match rc.amount_sats(net) {
                Some(sats) => sats,
                None => {
                    proof {
                        assert(rv.skip(k as int)[0] == rv[k as int]);
                        assert(spec_resolve_recipient(rv[k as int].0, rv[k as int].1, net)
                            is None);
                    }
                    return false;
                }
            };
            let addr = rc.address.value.clone();
            let o = Output { address: addr, script: info.script, amount: sats };
            let ghost ovs_before = spec_outs_view(outs@);
            let ghost ov = (o.address@, o.script@, o.amount);
            proof {
                lemma_find_outv(ovs_before, ov.0);
            }
            // Insert, replacing a present address.
            match find_output_pos(&outs, &o.address) {
                Some(pos) => {
                    proof {
                        lemma_spec_find_outv_at(ovs_before, ov.0, pos as int);
                    }
                    let _ = outs.remove(pos);
                    outs.insert(pos, o);
                    proof {
                        assert(spec_outs_view(outs@) =~= spec_insert_outv(ovs_before, ov));
                    }
                }
                None => {
                    proof {
                        assert(forall|x: int|
                            0 <= x < ovs_before.len() ==> (#[trigger] ovs_before[x]).0 != ov.0);
                        assert(spec_find_outv(ovs_before, ov.0) == -1);
                    }
                    outs.push(o);
                    proof {
                        assert(spec_outs_view(outs@) =~= ovs_before.push(ov));
                    }
                }
            }
            proof {
                lemma_insert_outv_unique(ovs_before, ov);
                assert(rv.skip(k as int)[0] == rv[k as int]);
                assert(rv.skip(k as int).skip(1) =~= rv.skip(k as int + 1));
                assert(spec_resolve_recipient(rv[k as int].0, rv[k as int].1, net) == Some(ov));
            }
            k += 1;
        }
        proof {
            assert(rv.skip(rv.len() as int) =~= Seq::<(Seq<char>, Seq<char>)>::empty());
        }
        draft.outputs = outs;
        proof {
            assert forall|i: int, j: int|
                0 <= i < j < final(draft).outputs@.len() implies (#[trigger] final(draft).outputs@[i]).address@ != (#[trigger] final(draft).outputs@[j]).address@ by {
                let v = spec_outs_view(draft.outputs@);
                assert(v[i].0 == draft.outputs@[i].address@);
                assert(v[j].0 == draft.outputs@[j].address@);
            }
        }
        true
    }
}

/// A matching prefix scan pins the first find down.
proof fn lemma_spec_find_outv_at(ovs: Seq<(Seq<char>, Seq<u8>, u64)>, addr: Seq<char>, p: int)
    requires
        0 <= p < ovs.len(),
        ovs[p].0 == addr,
        forall|x: int| 0 <= x < p ==> (#[trigger] ovs[x]).0 != addr,
    ensures
        spec_find_outv(ovs, addr) == p,
    decreases p,
{
    if p > 0 {
        lemma_spec_find_outv_at(ovs.skip(1), addr, p - 1);
    }
}


/// Saturating sum, as the fee estimate uses it.
pub open spec fn sp_add(a: int, b: int) -> int {
    if a + b > u64::MAX {
        u64::MAX as int
    } else {
        a + b
    }
}

/// Saturating product.
pub open spec fn sp_mul(a: int, b: int) -> int {
    if a * b > u64::MAX {
        u64::MAX as int
    } else {
        a * b
    }
}

fn sat_add(a: u64, b: u64) -> (r: u64)
    ensures
        r == sp_add(a as int, b as int),
{
    a.saturating_add(b)
}

fn sat_mul(a: u64, b: u64) -> (r: u64)
    ensures
        r == sp_mul(a as int, b as int),
{
    match a.checked_mul(b) {
        Some(v) => v,
        None => {
            proof {
                assert(a * b > u64::MAX) by (nonlinear_arith)
                    requires
                        a * b > u64::MAX || (a as int) * (b as int) == a * b,
                        !(a as int * b as int <= u64::MAX);
            }
            u64::MAX
        }
    }
}

/// Size of an output list in the fee estimate: the fixed eight-byte value
/// field plus the script, per output.
pub open spec fn spec_outputs_size(rs: Seq<(Vec<u8>, u64)>) -> int
    decreases rs.len(),
{
    if rs.len() == 0 {
        0
    } else {
        sp_add(spec_outputs_size(rs.drop_last()), sp_add(8, rs.last().0@.len() as int))
    }
}

/// Total amount going to the recipients.
pub open spec fn spec_out_total(rs: Seq<(Vec<u8>, u64)>) -> int
    decreases rs.len(),
{
    if rs.len() == 0 {
        0
    } else {
        sp_add(spec_out_total(rs.drop_last()), rs.last().1 as int)
    }
}

/// The estimated transaction size: the recipients' outputs (an eight-byte
/// value field plus the script each), a change output of forty-two bytes,
/// eleven bytes of fixed overhead, and fifty bytes per selected input.
pub open spec fn spec_tx_size(rs: Seq<(Vec<u8>, u64)>, n_selected: int) -> int {
    sp_add(spec_outputs_size(rs), sp_add(53, sp_mul(50, n_selected)))
}

/// The amount the inputs must cover: the fee at the given rate plus what
/// the recipients receive.
pub open spec fn spec_required(rs: Seq<(Vec<u8>, u64)>, n_selected: int, feerate: int) -> int {
    sp_add(sp_mul(spec_tx_size(rs, n_selected), feerate), spec_out_total(rs))
}

/// What is still missing: zero once the selected amount covers the
/// required amount.
pub open spec fn spec_shortfall(
    rs: Seq<(Vec<u8>, u64)>,
    n_selected: int,
    feerate: int,
    selected: int,
) -> int {
    let req = spec_required(rs, n_selected, feerate);
    if selected > req {
        0
    } else {
        req - selected
    }
}

/// The shortfall is exactly zero precisely when the selected amount
/// reaches the required amount.
pub proof fn lemma_shortfall_zero(
    rs: Seq<(Vec<u8>, u64)>,
    n_selected: int,
    feerate: int,
    selected: int,
)
    ensures
        spec_shortfall(rs, n_selected, feerate, selected) == 0 <==> selected >= spec_required(
            rs,
            n_selected,
            feerate,
        ),
{
}

/// Selecting one more coin never increases the shortfall, as long as the
/// coin is worth at least the input cost it adds to the fee (a coin below
/// `50 * feerate` satoshis can raise the fee by more than it contributes).
pub proof fn lemma_shortfall_monotone(
    rs: Seq<(Vec<u8>, u64)>,
    n_selected: int,
    feerate: int,
    selected: int,
    extra: int,
)
    requires
        0 <= n_selected,
        0 <= feerate,
        0 <= selected,
        extra >= sp_mul(50, feerate),
    ensures
        spec_shortfall(rs, n_selected + 1, feerate, selected + extra) <= spec_shortfall(
            rs,
            n_selected,
            feerate,
            selected,
        ),
{
    let os = spec_outputs_size(rs);
    lemma_outputs_size_nonneg(rs);
    lemma_out_total_nonneg(rs);
    let m0 = sp_mul(50, n_selected);
    let m1 = sp_mul(50, n_selected + 1);
    assert(50 * (n_selected + 1) == 50 * n_selected + 50) by (nonlinear_arith);
    assert(50 * n_selected >= 0) by (nonlinear_arith)
        requires n_selected >= 0;
    assert(m1 <= m0 + 50);
    let s0 = spec_tx_size(rs, n_selected);
    let s1 = spec_tx_size(rs, n_selected + 1);
    assert(s1 <= sp_add(s0, 50));
    assert(s0 >= 0);
    let f0 = sp_mul(s0, feerate);
    let f1 = sp_mul(s1, feerate);
    assert(f1 <= sp_add(f0, sp_mul(50, feerate))) by {
        assert(s1 * feerate >= 0) by (nonlinear_arith)
            requires s1 >= 0, feerate >= 0;
        assert(s0 * feerate >= 0) by (nonlinear_arith)
            requires s0 >= 0, feerate >= 0;
        assert(50 * feerate >= 0) by (nonlinear_arith)
            requires feerate >= 0;
        if s1 <= s0 + 50 {
            assert(s1 * feerate <= (s0 + 50) * feerate) by (nonlinear_arith)
                requires s1 <= s0 + 50, feerate >= 0;
            assert((s0 + 50) * feerate == s0 * feerate + 50 * feerate) by (nonlinear_arith);
        }
    }
    let r0 = spec_required(rs, n_selected, feerate);
    let r1 = spec_required(rs, n_selected + 1, feerate);
    assert(r1 <= sp_add(sp_add(f0, sp_mul(50, feerate)), spec_out_total(rs)));
    assert(r1 <= r0 + sp_mul(50, feerate));
}

proof fn lemma_outputs_size_nonneg(rs: Seq<(Vec<u8>, u64)>)
    ensures
        0 <= spec_outputs_size(rs) <= u64::MAX,
    decreases rs.len(),
{
    if rs.len() > 0 {
        lemma_outputs_size_nonneg(rs.drop_last());
    }
}

proof fn lemma_out_total_nonneg(rs: Seq<(Vec<u8>, u64)>)
    ensures
        0 <= spec_out_total(rs) <= u64::MAX,
    decreases rs.len(),
{
    if rs.len() > 0 {
        lemma_out_total_nonneg(rs.drop_last());
    }
}

/// How many candidate coins are ticked.
pub open spec fn spec_n_selected(cs: Seq<(Coin, bool)>) -> int
    decreases cs.len(),
{
    if cs.len() == 0 {
        0
    } else {
        spec_n_selected(cs.drop_last()) + if cs.last().1 {
            1int
        } else {
            0int
        }
    }
}

/// The ticked coins, in list order.
pub open spec fn spec_selected_coins(cs: Seq<(Coin, bool)>) -> Seq<Coin>
    decreases cs.len(),
{
    if cs.len() == 0 {
        Seq::empty()
    } else {
        spec_selected_coins(cs.drop_last()) + (if cs.last().1 {
            seq![cs.last().0]
        } else {
            Seq::empty()
        })
    }
}

/// The ticked coins' outpoints, in list order.
pub open spec fn spec_selected_outpoints(cs: Seq<(Coin, bool)>) -> Seq<OutPoint>
    decreases cs.len(),
{
    if cs.len() == 0 {
        Seq::empty()
    } else {
        spec_selected_outpoints(cs.drop_last()) + (if cs.last().1 {
            seq![cs.last().0.outpoint]
        } else {
            Seq::empty()
        })
    }
}

/// Total value of the ticked coins.
pub open spec fn spec_selected_amount(cs: Seq<(Coin, bool)>) -> int
    decreases cs.len(),
{
    if cs.len() == 0 {
        0
    } else {
        sp_add(spec_selected_amount(cs.drop_last()), if cs.last().1 {
            cs.last().0.amount as int
        } else {
            0int
        })
    }
}

/// What the shortfall display shows: nothing while the fee-rate entry is
/// not a plain decimal number, the exact shortfall otherwise.
pub open spec fn spec_shortfall_display(
    rs: Seq<(Vec<u8>, u64)>,
    cs: Seq<(Coin, bool)>,
    feerate_text: Seq<char>,
) -> Option<u64> {
    match spec_parse_u64(feerate_text) {
        None => None,
        Some(f) => Some(
            spec_shortfall(rs, spec_n_selected(cs), f as int, spec_selected_amount(cs)) as u64,
        ),
    }
}

/// The coin-choice step: the ordered candidate coins with their tick
/// state, the recipients' scripts and amounts, the fee-rate entry, and
/// the running shortfall.
pub struct ChooseCoins {
    pub timelock: u16,
    pub coins: Vec<(Coin, bool)>,
    pub recipients: Vec<(Vec<u8>, u64)>,
    pub amount_left_to_select: Option<u64>,
    pub feerate: FormValue,
    pub generated: Option<UnsignedTx>,
    pub warning: Option<String>,
}

impl ChooseCoins {
    /// Open the step: committed coins are excluded and the rest ordered by
    /// urgency, none ticked yet.
    #[verifier::loop_isolation(false)]
    pub fn new(coins: &Vec<Coin>, timelock: u16, blockheight: u32) -> (r: ChooseCoins)
        ensures
            r.timelock == timelock,
            r.coins@.len() == spec_select_order(coins@, blockheight, timelock).len(),
            forall|k: int|
                0 <= k < r.coins@.len() ==> (#[trigger] r.coins@[k]) == (
                    spec_select_order(coins@, blockheight, timelock)[k],
                    false,
                ),
            r.recipients@.len() == 0,
            r.amount_left_to_select is None,
            r.feerate.value@ == Seq::<char>::empty(),
            r.feerate.valid,
            r.generated is None,
            r.warning is None,
    {
        let ordered = select_order(coins, blockheight, timelock);
        let mut cs: Vec<(Coin, bool)> = Vec::new();
        let mut i: usize = 0;
        while i < ordered.len()
            invariant
                i <= ordered@.len(),
                cs@.len() == i,
                forall|k: int| 0 <= k < i ==> (#[trigger] cs@[k]) == (ordered@[k], false),
            decreases ordered@.len() - i,
        {
            cs.push((ordered[i], false));
            i += 1;
        }
        ChooseCoins {
            timelock,
            coins: cs,
            recipients: Vec::new(),
            amount_left_to_select: None,
            feerate: FormValue::new(),
            generated: None,
            warning: None,
        }
    }

    /// Take the recipients over from the draft.
    #[verifier::loop_isolation(false)]
    pub fn load(&mut self, draft: &TransactionDraft)
        ensures
            final(self).recipients@.len() == draft.outputs@.len(),
            forall|k: int|
                0 <= k < draft.outputs@.len() ==> (#[trigger] final(self).recipients@[k]).0@
                    == draft.outputs@[k].script@ && final(self).recipients@[k].1
                    == draft.outputs@[k].amount,
            final(self).coins == old(self).coins,
            final(self).timelock == old(self).timelock,
            final(self).feerate == old(self).feerate,
            final(self).amount_left_to_select == old(self).amount_left_to_select,
            final(self).generated == old(self).generated,
            final(self).warning == old(self).warning,
    {
        let mut rs: Vec<(Vec<u8>, u64)> = Vec::new();
        let mut i: usize = 0;
        while i < draft.outputs.len()
            invariant
                i <= draft.outputs@.len(),
                rs@.len() == i,
                forall|k: int|
                    0 <= k < i ==> (#[trigger] rs@[k]).0@ == draft.outputs@[k].script@
                        && rs@[k].1 == draft.outputs@[k].amount,
            decreases draft.outputs@.len() - i,
        {
            let script = copy_bytes(&draft.outputs[i].script);
            rs.push((script, draft.outputs[i].amount));
            i += 1;
        }
        self.recipients = rs;
    }

    /// Recompute the shortfall for the current entries and selection.
    #[verifier::loop_isolation(false)]
    fn recompute_shortfall(&mut self)
        ensures
            final(self).amount_left_to_select == spec_shortfall_display(
                old(self).recipients@,
                old(self).coins@,
                old(self).feerate.value@,
            ),
            final(self).coins == old(self).coins,
            final(self).recipients == old(self).recipients,
            final(self).feerate == old(self).feerate,
            final(self).timelock == old(self).timelock,
            final(self).generated == old(self).generated,
            final(self).warning == old(self).warning,
    {
        let feerate = match parse_u64_dec(self.feerate.value.as_str()) {
            Some(f) => f,
            None => {
                self.amount_left_to_select = None;
                return;
            }
        };
        // Estimated size of the outgoing outputs, and their total value.
        let mut tx_size: u64 = 0;
        let mut outgoing: u64 = 0;
        let mut i: usize = 0;
        while i < self.recipients.len()
            invariant
                i <= self.recipients@.len(),
                tx_size as int == spec_outputs_size(self.recipients@.take(i as int)),
                outgoing as int == spec_out_total(self.recipients@.take(i as int)),
            decreases self.recipients@.len() - i,
        {
            let slen = self.recipients[i].0.len();
            tx_size = sat_add(tx_size, sat_add(8, slen as u64));
            outgoing = sat_add(outgoing, self.recipients[i].1);
            i += 1;
            proof {
                let t = self.recipients@.take(i as int);
                assert(t.drop_last() =~= self.recipients@.take(i as int - 1));
                assert(t.last() == self.recipients@[i as int - 1]);
            }
        }
        proof {
            assert(self.recipients@.take(self.recipients@.len() as int) =~= self.recipients@);
        }
        // Selected inputs: count and value.
        let mut n_selected: u64 = 0;
        let mut selected_amount: u64 = 0;
        let mut i: usize = 0;
        while i < self.coins.len()
            invariant
                i <= self.coins@.len(),
                n_selected as int == spec_n_selected(self.coins@.take(i as int)),
                n_selected <= i,
                selected_amount as int == spec_selected_amount(self.coins@.take(i as int)),
            decreases self.coins@.len() - i,
        {
            if self.coins[i].1 {
                n_selected = n_selected + 1;
                selected_amount = sat_add(selected_amount, self.coins[i].0.amount);
            } else {
                proof {
                    let t = self.coins@.take(i as int + 1);
                    assert(t.drop_last() =~= self.coins@.take(i as int));
                    assert(t.last() == self.coins@[i as int]);
                    assert(sp_add(spec_selected_amount(self.coins@.take(i as int)), 0)
                        == spec_selected_amount(self.coins@.take(i as int)));
                }
            }
            i += 1;
            proof {
                let t = self.coins@.take(i as int);
                assert(t.drop_last() =~= self.coins@.take(i as int - 1));
                assert(t.last() == self.coins@[i as int - 1]);
            }
        }
        proof {
            assert(self.coins@.take(self.coins@.len() as int) =~= self.coins@);
        }
        let size_total = sat_add(tx_size, sat_add(53, sat_mul(50, n_selected)));
        let required = sat_add(sat_mul(size_total, feerate), outgoing);
        let shortfall: u64 = if selected_amount > required {
            0
        } else {
            required - selected_amount
        };
        self.amount_left_to_select = Some(shortfall);
    }

    /// The fee-rate entry was edited: a plain decimal is accepted and the
    /// shortfall recomputed; a blank clears entry and shortfall; anything
    /// else marks the entry invalid and clears the shortfall. Any earlier
    /// construction error is dismissed.
    pub fn set_feerate(&mut self, s: String)
        ensures
            final(self).warning is None,
            final(self).coins == old(self).coins,
            final(self).recipients == old(self).recipients,
            final(self).generated == old(self).generated,
            final(self).timelock == old(self).timelock,
            spec_parse_u64(s@) is Some ==> {
                &&& final(self).feerate.value@ == s@
                &&& final(self).feerate.valid
                &&& final(self).amount_left_to_select == spec_shortfall_display(
                    old(self).recipients@,
                    old(self).coins@,
                    s@,
                )
            },
            spec_parse_u64(s@) is None && s@.len() == 0 ==> {
                &&& final(self).feerate.value@ == s@
                &&& final(self).feerate.valid
                &&& final(self).amount_left_to_select is None
            },
            spec_parse_u64(s@) is None && s@.len() > 0 ==> {
                &&& final(self).feerate.value == old(self).feerate.value
                &&& !final(self).feerate.valid
                &&& final(self).amount_left_to_select is None
            },
    {
        let parses = parse_u64_dec(s.as_str()).is_some();
        if parses {
            self.feerate.value = s;
            self.feerate.valid = true;
            self.recompute_shortfall();
        } else if s.as_str().unicode_len() == 0 {
            self.feerate.value = s;
            self.feerate.valid = true;
            self.amount_left_to_select = None;
        } else {
            self.feerate.valid = false;
            self.amount_left_to_select = None;
        }
        self.warning = None;
    }

    /// Tick or untick candidate coin `i` and recompute the shortfall.
    pub fn toggle_coin(&mut self, i: usize)
        ensures
            final(self).recipients == old(self).recipients,
            final(self).feerate == old(self).feerate,
            final(self).timelock == old(self).timelock,
            final(self).generated == old(self).generated,
            final(self).warning == old(self).warning,
            i >= old(self).coins@.len() ==> final(self).coins == old(self).coins && final(self).amount_left_to_select == old(self).amount_left_to_select,
            i < old(self).coins@.len() ==> {
                &&& final(self).coins@.len() == old(self).coins@.len()
                &&& (forall|k: int|
                    0 <= k < old(self).coins@.len() && k != i ==> final(self).coins@[k] == old(self).coins@[k])
                &&& final(self).coins@[i as int].0 == old(self).coins@[i as int].0
                &&& final(self).coins@[i as int].1 == !old(self).coins@[i as int].1
                &&& final(self).amount_left_to_select == spec_shortfall_display(
                    old(self).recipients@,
                    final(self).coins@,
                    old(self).feerate.value@,
                )
            },
    {
        if i < self.coins.len() {
            let (c, sel) = self.coins[i];
            let ghost pre = self.coins@;
            let _ = self.coins.remove(i);
            self.coins.insert(i, (c, !sel));
            proof {
                assert(self.coins@ =~= pre.update(i as int, (pre[i as int].0, !pre[i as int].1)));
            }
            self.recompute_shortfall();
        }
    }

    /// The request handed to the transaction-construction service when the
    /// user asks for the unsigned transaction: exactly the ticked coins'
    /// outpoints, in list order, and the fee rate (zero when unparseable,
    /// as the service will refuse). Any earlier construction error is
    /// dismissed; nothing else changes.
    #[verifier::loop_isolation(false)]
    pub fn generate_request(&mut self) -> (r: (Vec<OutPoint>, u64))
        ensures
            r.1 as int == (match spec_parse_u64(old(self).feerate.value@) {
                Some(f) => f as int,
                None => 0,
            }),
            r.0@ == spec_selected_outpoints(old(self).coins@),
            final(self).warning is None,
            final(self).coins == old(self).coins,
            final(self).recipients == old(self).recipients,
            final(self).feerate == old(self).feerate,
            final(self).timelock == old(self).timelock,
            final(self).amount_left_to_select == old(self).amount_left_to_select,
            final(self).generated == old(self).generated,
    {
        self.warning = None;
        let feerate = match parse_u64_dec(self.feerate.value.as_str()) {
            Some(f) => f,
            None => 0,
        };
        let mut inputs: Vec<OutPoint> = Vec::new();
        let mut i: usize = 0;
        proof {
            assert(inputs@ =~= spec_selected_outpoints(self.coins@.take(0)));
        }
        while i < self.coins.len()
            invariant
                i <= self.coins@.len(),
                inputs@ == spec_selected_outpoints(self.coins@.take(i as int)),
            decreases self.coins@.len() - i,
        {
            let (c, sel) = self.coins[i];
            if sel {
                inputs.push(c.outpoint);
            }
            i += 1;
            proof {
                let t = self.coins@.take(i as int);
                assert(t.drop_last() =~= self.coins@.take(i as int - 1));
                assert(t.last() == self.coins@[i as int - 1]);
                assert(inputs@ =~= spec_selected_outpoints(t));
            }
        }
        proof {
            assert(self.coins@.take(self.coins@.len() as int) =~= self.coins@);
        }
        (inputs, feerate)
    }

    /// The construction service answered: keep the transaction, or surface
    /// its error — the draft state itself is untouched either way.
    pub fn construction_result(&mut self, res: Result<UnsignedTx, String>)
        ensures
            final(self).coins == old(self).coins,
            final(self).recipients == old(self).recipients,
            final(self).feerate == old(self).feerate,
            final(self).timelock == old(self).timelock,
            final(self).amount_left_to_select == old(self).amount_left_to_select,
            res matches Ok(tx) ==> final(self).generated == Some(tx) && final(self).warning
                is None,
            res matches Err(e) ==> final(self).warning == Some(e) && final(self).generated == old(self).generated,
    {
        match res {
            Ok(tx) => {
                self.generated = Some(tx);
                self.warning = None;
            }
            Err(e) => {
                self.warning = Some(e);
            }
        }
    }

    /// Hand the chosen inputs — exactly the ticked coins, in list order —
    /// and the constructed transaction to the draft.
    #[verifier::loop_isolation(false)]
    pub fn apply(&self, draft: &mut TransactionDraft)
        ensures
            final(draft).outputs == old(draft).outputs,
            final(draft).inputs@ == spec_selected_coins(self.coins@),
            (self.generated is None) == (final(draft).generated is None),
            self.generated matches Some(tx) ==> (final(draft).generated matches Some(dtx) && {
                &&& dtx.inputs@ == tx.inputs@
                &&& dtx.outputs@.len() == tx.outputs@.len()
                &&& (forall|i: int|
                    0 <= i < tx.outputs@.len() ==> (#[trigger] dtx.outputs@[i]).script@
                        == tx.outputs@[i].script@ && dtx.outputs@[i].value
                        == tx.outputs@[i].value)
            }),
    {
        let mut inputs: Vec<Coin> = Vec::new();
        let mut i: usize = 0;
        proof {
            assert(inputs@ =~= spec_selected_coins(self.coins@.take(0)));
        }
        while i < self.coins.len()
            invariant
                i <= self.coins@.len(),
                inputs@ == spec_selected_coins(self.coins@.take(i as int)),
            decreases self.coins@.len() - i,
        {
            let (c, sel) = self.coins[i];
            if sel {
                inputs.push(c);
            }
            i += 1;
            proof {
                let t = self.coins@.take(i as int);
                assert(t.drop_last() =~= self.coins@.take(i as int - 1));
                assert(t.last() == self.coins@[i as int - 1]);
                assert(inputs@ =~= spec_selected_coins(t));
            }
        }
        proof {
            assert(self.coins@.take(self.coins@.len() as int) =~= self.coins@);
        }
        draft.inputs = inputs;
        draft.generated = match &self.generated {
            Some(tx) => Some(copy_unsigned_tx(tx)),
            None => None,
        };
    }
}

fn bytes_eq(a: &Vec<u8>, b: &Vec<u8>) -> (r: bool)
    ensures
        r == (a@ == b@),
{
    if a.len() != b.len() {
        return false;
    }
    let mut i: usize = 0;
    while i < a.len()
        invariant
            a@.len() == b@.len(),
            i <= a@.len(),
            forall|k: int| 0 <= k < i ==> a@[k] == b@[k],
        decreases a@.len() - i,
    {
        if a[i] != b[i] {
            return false;
        }
        i += 1;
    }
    proof {
        assert(a@ =~= b@);
    }
    true
}

/// Minimal application configuration the review step carries.
#[derive(Clone, Copy, Debug)]
pub struct Config {
    pub network: Network,
}

/// Some draft output pays the given script.
pub open spec fn spec_script_known(outs: Seq<Output>, script: Seq<u8>) -> bool {
    exists|k: int| 0 <= k < outs.len() && (#[trigger] outs[k]).script@ == script
}

/// The drafted spend as the review step shows it: the constructed
/// transaction, its inputs, and which output is the change one.
pub struct SpendTxReview {
    pub tx: UnsignedTx,
    pub inputs: Vec<Coin>,
    pub change_index: Option<usize>,
}

/// The save/review step.
pub struct SaveSpend {
    pub config: Config,
    pub spend: Option<SpendTxReview>,
}

impl SaveSpend {
    pub fn new(config: Config) -> (r: SaveSpend)
        ensures
            r.config == config,
            r.spend is None,
    {
        SaveSpend { config, spend: None }
    }

    /// Take the finished draft over: the change output is the first output
    /// of the constructed transaction that pays no recipient's script.
    #[verifier::loop_isolation(false)]
    pub fn load(&mut self, draft: &TransactionDraft)
        requires
            draft.generated is Some,
        ensures
            final(self).config == old(self).config,
            final(self).spend matches Some(rv) && {
                let tx = draft.generated.unwrap();
                &&& rv.tx.inputs@ == tx.inputs@
                &&& rv.tx.outputs@.len() == tx.outputs@.len()
                &&& (forall|i: int|
                    0 <= i < tx.outputs@.len() ==> (#[trigger] rv.tx.outputs@[i]).script@
                        == tx.outputs@[i].script@ && rv.tx.outputs@[i].value
                        == tx.outputs@[i].value)
                &&& rv.inputs@ == draft.inputs@
                &&& (match rv.change_index {
                    Some(ci) => ci < tx.outputs@.len() && !spec_script_known(
                        draft.outputs@,
                        tx.outputs@[ci as int].script@,
                    ) && (forall|j: int|
                        0 <= j < ci ==> spec_script_known(
                            draft.outputs@,
                            (#[trigger] tx.outputs@[j]).script@,
                        )),
                    None => forall|j: int|
                        0 <= j < tx.outputs@.len() ==> spec_script_known(
                            draft.outputs@,
                            (#[trigger] tx.outputs@[j]).script@,
                        ),
                })
            },
    {
        let tx = match &draft.generated {
            Some(tx) => copy_unsigned_tx(tx),
            None => {
                proof {
                    assert(false);
                }
                UnsignedTx { inputs: Vec::new(), outputs: Vec::new() }
            }
        };
        let mut change_index: Option<usize> = None;
        let mut i: usize = 0;
        while i < tx.outputs.len()
            invariant
                i <= tx.outputs@.len(),
                change_index is None ==> forall|j: int|
                    0 <= j < i ==> spec_script_known(
                        draft.outputs@,
                        (#[trigger] tx.outputs@[j]).script@,
                    ),
                change_index matches Some(ci) ==> ci < tx.outputs@.len() && !spec_script_known(
                    draft.outputs@,
                    tx.outputs@[ci as int].script@,
                ) && (forall|j: int|
                    0 <= j < ci ==> spec_script_known(
                        draft.outputs@,
                        (#[trigger] tx.outputs@[j]).script@,
                    )),
            decreases tx.outputs@.len() - i,
        {
            let mut known = false;
            let mut k: usize = 0;
            while k < draft.outputs.len()
                invariant
                    i < tx.outputs@.len(),
                    k <= draft.outputs@.len(),
                    known ==> spec_script_known(draft.outputs@, tx.outputs@[i as int].script@),
                    !known ==> forall|x: int|
                        0 <= x < k ==> (#[trigger] draft.outputs@[x]).script@
                            != tx.outputs@[i as int].script@,
                decreases draft.outputs@.len() - k,
            {
                if bytes_eq(&draft.outputs[k].script, &tx.outputs[i].script) {
                    known = true;
                }
                k += 1;
            }
            if !known && change_index.is_none() {
                change_index = Some(i);
            }
            i += 1;
        }
        let mut inputs: Vec<Coin> = Vec::new();
        let mut k: usize = 0;
        while k < draft.inputs.len()
            invariant
                k <= draft.inputs@.len(),
                inputs@ =~= draft.inputs@.take(k as int),
            decreases draft.inputs@.len() - k,
        {
            inputs.push(draft.inputs[k]);
            k += 1;
            proof {
                assert(inputs@ =~= draft.inputs@.take(k as int));
            }
        }
        proof {
            assert(draft.inputs@.take(draft.inputs@.len() as int) =~= draft.inputs@);
            let otx = draft.generated.unwrap();
            assert(tx.outputs@.len() == otx.outputs@.len());
            match change_index {
                Some(ci) => {
                    assert(tx.outputs@[ci as int].script@ == otx.outputs@[ci as int].script@);
                    assert(!spec_script_known(draft.outputs@, otx.outputs@[ci as int].script@));
                    assert forall|j: int|
                        0 <= j < ci implies spec_script_known(
                        draft.outputs@,
                        (#[trigger] otx.outputs@[j]).script@,
                    ) by {
                        assert(spec_script_known(draft.outputs@, tx.outputs@[j].script@));
                        assert(tx.outputs@[j].script@ == otx.outputs@[j].script@);
                    }
                }
                None => {
                    assert forall|j: int|
                        0 <= j < otx.outputs@.len() implies spec_script_known(
                        draft.outputs@,
                        (#[trigger] otx.outputs@[j]).script@,
                    ) by {
                        assert(spec_script_known(draft.outputs@, tx.outputs@[j].script@));
                        assert(tx.outputs@[j].script@ == otx.outputs@[j].script@);
                    }
                }
            }
        }
        self.spend = Some(SpendTxReview { tx, inputs, change_index });
    }
}

} // verus!
