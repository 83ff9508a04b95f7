//! The descriptor text form: a policy is written as a line of decimal
//! numbers separated by single blanks, and read back. Writing and then
//! reading is proved to give the policy back unchanged.

use vstd::prelude::*;
use crate::num::{
    lemma_dec_val, parse_u64_dec, spec_dec, spec_is_digit, spec_parse_u64, u64_to_dec_string,
};
use crate::policy::{DerivedKey, DescriptorPolicy, KeySet, KeySetView, PolicyView, spec_rec_view};
use crate::types::Network;

verus! {

/// The numbers joined by single blanks.
pub open spec fn spec_join(ns: Seq<u64>) -> Seq<char>
    decreases ns.len(),
{
    if ns.len() == 0 {
        Seq::empty()
    } else if ns.len() == 1 {
        spec_dec(ns[0] as int)
    } else {
        spec_dec(ns[0] as int) + seq![' '] + spec_join(ns.skip(1))
    }
}

/// Position of the first blank, or the length if there is none.
pub open spec fn spec_find_space(s: Seq<char>) -> int
    decreases s.len(),
{
    if s.len() == 0 {
        0
    } else if s[0] == ' ' {
        0
    } else {
        1 + spec_find_space(s.skip(1))
    }
}

pub proof fn lemma_find_space(s: Seq<char>)
    ensures
        0 <= spec_find_space(s) <= s.len(),
        spec_find_space(s) < s.len() ==> s[spec_find_space(s)] == ' ',
        forall|i: int| 0 <= i < spec_find_space(s) ==> s[i] != ' ',
    decreases s.len(),
{
    if s.len() > 0 && s[0] != ' ' {
        lemma_find_space(s.skip(1));
        assert forall|i: int| 0 <= i < spec_find_space(s) implies s[i] != ' ' by {
            if i > 0 {
                assert(s.skip(1)[i - 1] == s[i]);
            }
        }
    }
}

/// In a string that starts with `k` non-blank characters followed by a
/// blank, the first blank is at `k`.
pub proof fn lemma_find_space_at(s: Seq<char>, k: int)
    requires
        0 <= k < s.len(),
        s[k] == ' ',
        forall|i: int| 0 <= i < k ==> s[i] != ' ',
    ensures
        spec_find_space(s) == k,
    decreases k,
{
    if k == 0 {
    } else {
        lemma_find_space_at(s.skip(1), k - 1);
    }
}

/// A string without blanks has its first blank at the end.
pub proof fn lemma_find_space_none(s: Seq<char>)
    requires
        forall|i: int| 0 <= i < s.len() ==> s[i] != ' ',
    ensures
        spec_find_space(s) == s.len(),
    decreases s.len(),
{
    if s.len() > 0 {
        lemma_find_space_none(s.skip(1));
    }
}

/// The numbers a line of text holds: blank-separated, each a nonempty run
/// of digits whose value fits.
pub open spec fn spec_split_parse(s: Seq<char>) -> Option<Seq<u64>>
    decreases s.len(),
{
    if s.len() == 0 {
        Some(Seq::empty())
    } else {
        let p = spec_find_space(s);
        if p <= 0 {
            None
        } else {
            match spec_parse_u64(s.take(p)) {
                None => None,
                Some(v) => if p >= s.len() {
                    Some(seq![v])
                } else {
                    match spec_split_parse(s.skip(p + 1)) {
                        None => None,
                        Some(vs) => if vs.len() == 0 {
                            None
                        } else {
                            Some(seq![v] + vs)
                        },
                    }
                },
            }
        }
    }
}

/// Writing numbers and reading them back yields the same numbers.
pub proof fn lemma_join_split(ns: Seq<u64>)
    ensures
        spec_split_parse(spec_join(ns)) == Some(ns),
    decreases ns.len(),
{
    if ns.len() == 0 {
        assert(spec_join(ns) =~= Seq::<char>::empty());
        assert(spec_split_parse(spec_join(ns)) == Some(Seq::<u64>::empty()));
        assert(ns =~= Seq::<u64>::empty());
    } else if ns.len() == 1 {
        let d = spec_dec(ns[0] as int);
        lemma_dec_val(ns[0] as int);
        assert forall|i: int| 0 <= i < d.len() implies d[i] != ' ' by {
            assert(spec_is_digit(d[i]));
        }
        lemma_find_space_none(d);
        assert(d.take(d.len() as int) =~= d);
        assert(spec_parse_u64(d) == Some(ns[0]));
        assert(ns =~= seq![ns[0]]);
    } else {
        let d = spec_dec(ns[0] as int);
        lemma_dec_val(ns[0] as int);
        let rest = spec_join(ns.skip(1));
        let s = d + seq![' '] + rest;
        assert(spec_join(ns) == s);
        assert forall|i: int| 0 <= i < d.len() implies s[i] != ' ' by {
            assert(s[i] == d[i]);
            assert(spec_is_digit(d[i]));
        }
        assert(s[d.len() as int] == ' ');
        lemma_find_space_at(s, d.len() as int);
        let p = spec_find_space(s);
        assert(p == d.len());
        assert(p >= 1);
        assert(s.take(p) =~= d);
        assert(spec_parse_u64(d) == Some(ns[0]));
        lemma_join_rest_len(ns.skip(1));
        assert(p < s.len());
        assert(s.skip(p + 1) =~= rest);
        lemma_join_split(ns.skip(1));
        assert(spec_split_parse(rest) == Some(ns.skip(1)));
        assert(ns.skip(1).len() >= 1);
        assert(seq![ns[0]] + ns.skip(1) =~= ns);
    }
}

/// Joining at least one number yields at least one character.
pub proof fn lemma_join_rest_len(ns: Seq<u64>)
    requires
        ns.len() >= 1,
    ensures
        spec_join(ns).len() >= 1,
{
    lemma_dec_val(ns[0] as int);
}

/// Append one more number to a joined line.
pub proof fn lemma_join_snoc(ns: Seq<u64>, x: u64)
    requires
        ns.len() >= 1,
    ensures
        spec_join(ns.push(x)) =~= spec_join(ns) + seq![' '] + spec_dec(x as int),
    decreases ns.len(),
{
    if ns.len() == 1 {
        assert(ns.push(x).len() == 2);
        assert(ns.push(x)[0] == ns[0]);
        assert(ns.push(x).skip(1) =~= seq![x]);
        assert(spec_join(seq![x]) == spec_dec(x as int));
    } else {
        lemma_join_snoc(ns.skip(1), x);
        assert(ns.push(x)[0] == ns[0]);
        assert(ns.push(x).skip(1) =~= ns.skip(1).push(x));
        assert(spec_join(ns.push(x)) == spec_dec(ns.push(x)[0] as int) + seq![' ']
            + spec_join(ns.skip(1).push(x)));
        assert(spec_join(ns.push(x)) =~= spec_join(ns) + seq![' '] + spec_dec(x as int));
    }
}

/// Write the numbers as one line of text.
#[verifier::loop_isolation(false)]
pub fn join_tokens(ns: &Vec<u64>) -> (r: String)
    ensures
        r@ == spec_join(ns@),
{
    let mut r = String::new();
    if ns.len() == 0 {
        proof {
            assert(r@ =~= spec_join(ns@));
        }
        return r;
    }
    let first = u64_to_dec_string(ns[0]);
    r.append(first.as_str());
    proof {
        assert(ns@.take(1) =~= seq![ns@[0]]);
        assert(spec_join(ns@.take(1)) == spec_dec(ns@[0] as int));
        assert(r@ =~= spec_join(ns@.take(1)));
    }
    let mut i: usize = 1;
    while i < ns.len()
        invariant
            1 <= i <= ns@.len(),
            r@ == spec_join(ns@.take(i as int)),
        decreases ns@.len() - i,
    {
        r.append(" ");
        let d = u64_to_dec_string(ns[i]);
        r.append(d.as_str());
        proof {
            reveal_strlit(" ");
            assert(" "@ =~= seq![' ']);
            let t = ns@.take(i as int);
            assert(t.len() >= 1);
            lemma_join_snoc(t, ns@[i as int]);
            assert(t.push(ns@[i as int]) =~= ns@.take(i as int + 1));
            assert(r@ =~= spec_join(ns@.take(i as int + 1)));
        }
        i += 1;
    }
    proof {
        assert(ns@.take(ns@.len() as int) =~= ns@);
    }
    r
}

/// Position of the first blank at or after `from`.
#[verifier::loop_isolation(false)]
fn find_space_from(s: &str, from: usize, len: usize) -> (p: usize)
    requires
        len == s@.len(),
        from <= len,
    ensures
        p as int - from as int == spec_find_space(s@.skip(from as int)),
        from <= p <= len,
{
    let mut p = from;
    while p < len
        invariant
            from <= p <= len,
            forall|i: int| from <= i < p ==> s@[i] != ' ',
        decreases len - p,
    {
        if s.get_char(p) == ' ' {
            proof {
                assert(s@.skip(from as int)[p - from] == ' ');
                assert forall|i: int| 0 <= i < p - from implies s@.skip(from as int)[i] != ' ' by {
                    assert(s@[from + i] != ' ');
                }
                lemma_find_space_at(s@.skip(from as int), p - from);
            }
            return p;
        }
        p += 1;
    }
    proof {
        assert forall|i: int|
            0 <= i < s@.skip(from as int).len() implies s@.skip(from as int)[i] != ' ' by {
            assert(s@[from + i] != ' ');
        }
        lemma_find_space_none(s@.skip(from as int));
    }
    p
}

/// Read a line of text as its numbers.
#[verifier::loop_isolation(false)]
pub fn split_tokens(s: &str) -> (r: Option<Vec<u64>>)
    ensures
        match r {
            Some(v) => spec_split_parse(s@) == Some(v@),
            None => spec_split_parse(s@) is None,
        },
{
    let len = s.unicode_len();
    let mut out: Vec<u64> = Vec::new();
    if len == 0 {
        proof {
            assert(out@ =~= Seq::<u64>::empty());
        }
        return Some(out);
    }
    let mut start: usize = 0;
    proof {
        assert(s@.skip(0) =~= s@);
        let r0 = spec_split_parse(s@);
        if r0 is Some {
            let vs = r0.unwrap();
            assert(out@ + vs =~= vs);
        }
    }
    loop
        invariant
            start < len,
            len == s@.len(),
            spec_split_parse(s@) == (match spec_split_parse(s@.skip(start as int)) {
                None => None,
                Some(vs) => if vs.len() == 0 {
                    None
                } else {
                    Some(out@ + vs)
                },
            }),
        decreases len - start,
    {
        let p = find_space_from(s, start, len);
        let ghost su = s@.skip(start as int);
        if p == start {
            proof {
                assert(spec_find_space(su) == 0);
                assert(su.len() > 0);
            }
            return None;
        }
        let tok = s.substring_char(start, p);
        let v = match parse_u64_dec(tok) {
            Some(v) => v,
            None => {
                proof {
                    assert(tok@ =~= su.take(p - start));
                    assert(spec_parse_u64(su.take(spec_find_space(su))) is None);
                }
                return None;
            }
        };
        proof {
            assert(tok@ =~= su.take(p - start));
        }
        let ghost out_before = out@;
        out.push(v);
        if p == len {
            proof {
                assert(spec_find_space(su) == su.len());
                assert(spec_split_parse(su) == Some(seq![v]));
                assert(out_before + seq![v] =~= out@);
            }
            return Some(out);
        }
        proof {
            assert(spec_find_space(su) < su.len());
            assert(su.skip(spec_find_space(su) + 1) =~= s@.skip(p as int + 1));
            let r_rest = spec_split_parse(s@.skip(p as int + 1));
            if r_rest is Some {
                let vs = r_rest.unwrap();
                if vs.len() >= 1 {
                    assert(spec_split_parse(su) == Some(seq![v] + vs));
                    assert(out_before + (seq![v] + vs) =~= out@ + vs);
                }
            }
        }
        start = p + 1;
        if start >= len {
            // A trailing blank: the final token is empty.
            proof {
                assert(s@.skip(len as int) =~= Seq::<char>::empty());
                assert(spec_split_parse(s@.skip(start as int)) == Some(Seq::<u64>::empty()));
            }
            return None;
        }
    }
}


pub open spec fn spec_net_tag(n: Network) -> u64 {
    match n {
        Network::Bitcoin => 0u64,
        Network::Testnet => 1u64,
        Network::Signet => 2u64,
        Network::Regtest => 3u64,
    }
}

pub open spec fn spec_net_of_tag(t: u64) -> Option<Network> {
    if t == 0 {
        Some(Network::Bitcoin)
    } else if t == 1 {
        Some(Network::Testnet)
    } else if t == 2 {
        Some(Network::Signet)
    } else if t == 3 {
        Some(Network::Regtest)
    } else {
        None
    }
}

/// Each key as its fingerprint and derivation index.
pub open spec fn spec_keys_tokens(ks: Seq<DerivedKey>) -> Seq<u64>
    decreases ks.len(),
{
    if ks.len() == 0 {
        Seq::empty()
    } else {
        seq![ks[0].fingerprint as u64, ks[0].index as u64] + spec_keys_tokens(ks.skip(1))
    }
}

/// A key-set: a tag telling a single key from a threshold set, then the
/// threshold and count where there is one, then the keys.
pub open spec fn spec_keyset_tokens(ks: KeySetView) -> Seq<u64> {
    match ks {
        KeySetView::Single(k) => seq![0u64, k.fingerprint as u64, k.index as u64],
        KeySetView::Multi(t, keys) => seq![1u64, t as u64, keys.len() as u64] + spec_keys_tokens(
            keys,
        ),
    }
}

/// The recovery table: each entry as its time-lock and key-set.
pub open spec fn spec_recs_tokens(rs: Seq<(u16, KeySetView)>) -> Seq<u64>
    decreases rs.len(),
{
    if rs.len() == 0 {
        Seq::empty()
    } else {
        seq![rs[0].0 as u64] + spec_keyset_tokens(rs[0].1) + spec_recs_tokens(rs.skip(1))
    }
}

/// The whole policy: network, output construction, primary key-set, then
/// the recovery entries behind their count.
pub open spec fn spec_policy_tokens(p: PolicyView) -> Seq<u64> {
    seq![spec_net_tag(p.network), if p.alternate {
        1u64
    } else {
        0u64
    }] + spec_keyset_tokens(p.primary) + seq![p.recovery.len() as u64] + spec_recs_tokens(
        p.recovery,
    )
}

/// What the text form can carry: thresholds and counts must fit the
/// machine's sizes. Every policy the builder produces satisfies this.
pub open spec fn spec_keyset_wf(ks: KeySetView) -> bool {
    match ks {
        KeySetView::Single(_) => true,
        KeySetView::Multi(t, keys) => 0 <= t <= usize::MAX && keys.len() <= usize::MAX,
    }
}

pub open spec fn spec_policy_wf(p: PolicyView) -> bool {
    &&& spec_keyset_wf(p.primary)
    &&& p.recovery.len() <= usize::MAX
    &&& forall|i: int| 0 <= i < p.recovery.len() ==> spec_keyset_wf((#[trigger] p.recovery[i]).1)
}

/// The view of any policy value is fit for the text form.
pub proof fn lemma_policy_value_wf(p: &DescriptorPolicy)
    ensures
        spec_policy_wf(p@),
{
    assert(p.recovery.len() == p.recovery@.len());
    match p.primary {
        KeySet::Single(_) => {}
        KeySet::Multi(t, ref ks) => {
            assert(ks.len() == ks@.len());
        }
    }
    assert forall|i: int|
        0 <= i < p@.recovery.len() implies spec_keyset_wf((#[trigger] p@.recovery[i]).1) by {
        assert(p@.recovery[i] == (p.recovery@[i].0, p.recovery@[i].1@));
        match p.recovery@[i].1 {
            KeySet::Single(_) => {}
            KeySet::Multi(t, ref ks) => {
                assert(ks.len() == ks@.len());
            }
        }
    }
}

/// Reading `n` keys from position `pos`.
pub open spec fn spec_dec_keys(ts: Seq<u64>, pos: int, n: int) -> Option<(Seq<DerivedKey>, int)>
    decreases n,
{
    if n <= 0 {
        Some((Seq::empty(), pos))
    } else if pos + 2 <= ts.len() && ts[pos] <= u32::MAX && ts[pos + 1] <= usize::MAX {
        let k = DerivedKey { fingerprint: ts[pos] as u32, index: ts[pos + 1] as usize };
        match spec_dec_keys(ts, pos + 2, n - 1) {
            None => None,
            Some((ks, np)) => Some((seq![k] + ks, np)),
        }
    } else {
        None
    }
}

/// Reading one key-set from position `pos`.
pub open spec fn spec_dec_keyset(ts: Seq<u64>, pos: int) -> Option<(KeySetView, int)> {
    if pos < ts.len() && ts[pos] == 0 {
        if pos + 3 <= ts.len() && ts[pos + 1] <= u32::MAX && ts[pos + 2] <= usize::MAX {
            Some(
                (
                    KeySetView::Single(
                        DerivedKey { fingerprint: ts[pos + 1] as u32, index: ts[pos + 2] as usize },
                    ),
                    pos + 3,
                ),
            )
        } else {
            None
        }
    } else if pos < ts.len() && ts[pos] == 1 {
        if pos + 3 <= ts.len() && ts[pos + 1] <= usize::MAX && ts[pos + 2] <= usize::MAX {
            match spec_dec_keys(ts, pos + 3, ts[pos + 2] as int) {
                None => None,
                Some((ks, np)) => Some((KeySetView::Multi(ts[pos + 1] as int, ks), np)),
            }
        } else {
            None
        }
    } else {
        None
    }
}

/// Reading `m` recovery entries from position `pos`.
pub open spec fn spec_dec_recs(ts: Seq<u64>, pos: int, m: int) -> Option<
    (Seq<(u16, KeySetView)>, int),
>
    decreases m,
{
    if m <= 0 {
        Some((Seq::empty(), pos))
    } else if pos < ts.len() && ts[pos] <= u16::MAX {
        let sv = ts[pos] as u16;
        match spec_dec_keyset(ts, pos + 1) {
            None => None,
            Some((ks, np)) => match spec_dec_recs(ts, np, m - 1) {
                None => None,
                Some((rs, fp)) => Some((seq![(sv, ks)] + rs, fp)),
            },
        }
    } else {
        None
    }
}

/// Reading a whole policy: every token must be consumed.
pub open spec fn spec_decode_policy(ts: Seq<u64>) -> Option<PolicyView> {
    if ts.len() >= 2 {
        match spec_net_of_tag(ts[0]) {
            None => None,
            Some(network) => if ts[1] <= 1 {
                let alternate = ts[1] == 1;
                match spec_dec_keyset(ts, 2) {
                    None => None,
                    Some((primary, p1)) => if p1 < ts.len() && ts[p1] <= usize::MAX {
                        match spec_dec_recs(ts, p1 + 1, ts[p1] as int) {
                            None => None,
                            Some((recovery, p2)) => if p2 == ts.len() {
                                Some(PolicyView { network, alternate, primary, recovery })
                            } else {
                                None
                            },
                        }
                    } else {
                        None
                    },
                }
            } else {
                None
            },
        }
    } else {
        None
    }
}

/// Tokens equal to a subrange can be read off one by one.
proof fn lemma_subrange_index(ts: Seq<u64>, pos: int, tk: Seq<u64>)
    requires
        0 <= pos,
        pos + tk.len() <= ts.len(),
        ts.subrange(pos, pos + tk.len() as int) == tk,
    ensures
        forall|i: int| 0 <= i < tk.len() ==> ts[pos + i] == #[trigger] tk[i],
{
    assert forall|i: int| 0 <= i < tk.len() implies ts[pos + i] == #[trigger] tk[i] by {
        assert(ts.subrange(pos, pos + tk.len() as int)[i] == ts[pos + i]);
    }
}

/// A piece of a chunk of tokens equals the matching piece of the text.
proof fn lemma_subrange_chunk(ts: Seq<u64>, pos: int, tk: Seq<u64>, a: int, b: int)
    requires
        0 <= pos,
        pos + tk.len() <= ts.len(),
        ts.subrange(pos, pos + tk.len() as int) == tk,
        0 <= a <= b <= tk.len(),
    ensures
        ts.subrange(pos + a, pos + b) == tk.subrange(a, b),
{
    assert forall|i: int|
        0 <= i < b - a implies ts.subrange(pos + a, pos + b)[i] == tk.subrange(a, b)[i] by {
        assert(ts.subrange(pos, pos + tk.len() as int)[a + i] == ts[pos + a + i]);
    }
    assert(ts.subrange(pos + a, pos + b) =~= tk.subrange(a, b));
}

/// Keys written at `pos` read back unchanged, with the position after
/// them.
pub proof fn lemma_keys_roundtrip(ts: Seq<u64>, pos: int, ks: Seq<DerivedKey>)
    requires
        0 <= pos,
        pos + spec_keys_tokens(ks).len() <= ts.len(),
        ts.subrange(pos, pos + spec_keys_tokens(ks).len() as int) == spec_keys_tokens(ks),
        ks.len() <= usize::MAX,
    ensures
        spec_keys_tokens(ks).len() == 2 * ks.len(),
        spec_dec_keys(ts, pos, ks.len() as int) == Some((ks, pos + 2 * ks.len())),
    decreases ks.len(),
{
    if ks.len() == 0 {
        assert(ks =~= Seq::<DerivedKey>::empty());
    } else {
        let tk = spec_keys_tokens(ks);
        lemma_subrange_index(ts, pos, tk);
        assert(tk == seq![ks[0].fingerprint as u64, ks[0].index as u64] + spec_keys_tokens(
            ks.skip(1),
        ));
        lemma_keys_tokens_len(ks.skip(1));
        assert(tk.len() == 2 + spec_keys_tokens(ks.skip(1)).len());
        assert(ts[pos] == tk[0]);
        assert(ts[pos + 1] == tk[1]);
        lemma_subrange_chunk(ts, pos, tk, 2, tk.len() as int);
        assert(tk.subrange(2, tk.len() as int) =~= spec_keys_tokens(ks.skip(1)));
        lemma_keys_roundtrip(ts, pos + 2, ks.skip(1));
        assert(ts[pos] == ks[0].fingerprint as u64);
        assert(ts[pos + 1] == ks[0].index as u64);
        let k = DerivedKey { fingerprint: ts[pos] as u32, index: ts[pos + 1] as usize };
        assert(k == ks[0]);
        assert(seq![k] + ks.skip(1) =~= ks);
    }
}

pub proof fn lemma_keys_tokens_len(ks: Seq<DerivedKey>)
    ensures
        spec_keys_tokens(ks).len() == 2 * ks.len(),
    decreases ks.len(),
{
    if ks.len() > 0 {
        lemma_keys_tokens_len(ks.skip(1));
    }
}

/// A key-set written at `pos` reads back unchanged.
pub proof fn lemma_keyset_roundtrip(ts: Seq<u64>, pos: int, ks: KeySetView)
    requires
        0 <= pos,
        spec_keyset_wf(ks),
        pos + spec_keyset_tokens(ks).len() <= ts.len(),
        ts.subrange(pos, pos + spec_keyset_tokens(ks).len() as int) == spec_keyset_tokens(ks),
    ensures
        spec_dec_keyset(ts, pos) == Some((ks, pos + spec_keyset_tokens(ks).len() as int)),
{
    let tk = spec_keyset_tokens(ks);
    lemma_subrange_index(ts, pos, tk);
    match ks {
        KeySetView::Single(k) => {
            assert(ts[pos] == tk[0]);
            assert(ts[pos + 1] == tk[1]);
            assert(ts[pos + 2] == tk[2]);
        }
        KeySetView::Multi(t, keys) => {
            lemma_keys_tokens_len(keys);
            assert(tk.len() == 3 + 2 * keys.len());
            assert(ts[pos] == tk[0]);
            assert(ts[pos + 1] == tk[1]);
            assert(ts[pos + 2] == tk[2]);
            assert(ts[pos] == 1);
            assert(ts[pos + 1] == t as u64);
            assert(ts[pos + 2] == keys.len() as u64);
            lemma_subrange_chunk(ts, pos, tk, 3, tk.len() as int);
            assert(tk.subrange(3, tk.len() as int) =~= spec_keys_tokens(keys));
            lemma_keys_roundtrip(ts, pos + 3, keys);
            assert(ts[pos + 1] as int == t);
        }
    }
}

/// Recovery entries written at `pos` read back unchanged.
pub proof fn lemma_recs_roundtrip(ts: Seq<u64>, pos: int, rs: Seq<(u16, KeySetView)>)
    requires
        0 <= pos,
        forall|i: int| 0 <= i < rs.len() ==> spec_keyset_wf((#[trigger] rs[i]).1),
        pos + spec_recs_tokens(rs).len() <= ts.len(),
        ts.subrange(pos, pos + spec_recs_tokens(rs).len() as int) == spec_recs_tokens(rs),
    ensures
        spec_dec_recs(ts, pos, rs.len() as int) == Some(
            (rs, pos + spec_recs_tokens(rs).len() as int),
        ),
    decreases rs.len(),
{
    if rs.len() == 0 {
        assert(rs =~= Seq::<(u16, KeySetView)>::empty());
    } else {
        let tk = spec_recs_tokens(rs);
        lemma_subrange_index(ts, pos, tk);
        let e = rs[0];
        let kt = spec_keyset_tokens(e.1);
        assert(tk == seq![e.0 as u64] + kt + spec_recs_tokens(rs.skip(1)));
        assert(ts[pos] == tk[0]);
        assert(ts[pos] == e.0 as u64);
        lemma_subrange_chunk(ts, pos, tk, 1, 1 + kt.len() as int);
        assert(tk.subrange(1, 1 + kt.len() as int) =~= kt);
        lemma_keyset_roundtrip(ts, pos + 1, e.1);
        let np = pos + 1 + kt.len() as int;
        lemma_subrange_chunk(ts, pos, tk, 1 + kt.len() as int, tk.len() as int);
        assert(tk.subrange(1 + kt.len() as int, tk.len() as int) =~= spec_recs_tokens(
            rs.skip(1),
        ));
        lemma_recs_roundtrip(ts, np, rs.skip(1));
        assert(seq![(e.0, e.1)] + rs.skip(1) =~= rs);
        assert((ts[pos] as u16) == e.0);
    }
}

/// A policy written as tokens reads back unchanged.
pub proof fn lemma_policy_tokens_roundtrip(p: PolicyView)
    requires
        spec_policy_wf(p),
    ensures
        spec_decode_policy(spec_policy_tokens(p)) == Some(p),
{
    let ts = spec_policy_tokens(p);
    let kt = spec_keyset_tokens(p.primary);
    let rt = spec_recs_tokens(p.recovery);
    assert(ts =~= seq![spec_net_tag(p.network), if p.alternate {
        1u64
    } else {
        0u64
    }] + kt + seq![p.recovery.len() as u64] + rt);
    assert(ts.subrange(0, ts.len() as int) =~= ts);
    assert(ts[0] == spec_net_tag(p.network));
    assert(spec_net_of_tag(spec_net_tag(p.network)) == Some(p.network));
    assert(ts[1] == (if p.alternate {
        1u64
    } else {
        0u64
    }));
    lemma_subrange_chunk(ts, 0, ts, 2, 2 + kt.len() as int);
    assert(ts.subrange(2, 2 + kt.len() as int) =~= kt);
    lemma_keyset_roundtrip(ts, 2, p.primary);
    let p1 = 2 + kt.len() as int;
    assert(ts[p1] == p.recovery.len() as u64);
    lemma_subrange_chunk(ts, 0, ts, p1 + 1, p1 + 1 + rt.len() as int);
    assert(ts.subrange(p1 + 1, p1 + 1 + rt.len() as int) =~= rt);
    lemma_recs_roundtrip(ts, p1 + 1, p.recovery);
    let p2 = p1 + 1 + rt.len() as int;
    assert(p2 == ts.len());
}


proof fn lemma_keys_tokens_snoc(ks: Seq<DerivedKey>, x: DerivedKey)
    ensures
        spec_keys_tokens(ks.push(x)) =~= spec_keys_tokens(ks) + seq![
            x.fingerprint as u64,
            x.index as u64,
        ],
    decreases ks.len(),
{
    if ks.len() == 0 {
        assert(ks.push(x)[0] == x);
        assert(ks.push(x).skip(1) =~= Seq::<DerivedKey>::empty());
        assert(spec_keys_tokens(Seq::<DerivedKey>::empty()) =~= Seq::<u64>::empty());
        assert(spec_keys_tokens(ks) =~= Seq::<u64>::empty());
    } else {
        lemma_keys_tokens_snoc(ks.skip(1), x);
        assert(ks.push(x)[0] == ks[0]);
        assert(ks.push(x).skip(1) =~= ks.skip(1).push(x));
        assert(spec_keys_tokens(ks) == seq![ks[0].fingerprint as u64, ks[0].index as u64]
            + spec_keys_tokens(ks.skip(1)));
        assert(spec_keys_tokens(ks.push(x)) == seq![ks[0].fingerprint as u64, ks[0].index as u64]
            + spec_keys_tokens(ks.skip(1).push(x)));
    }
}

proof fn lemma_recs_tokens_snoc(rs: Seq<(u16, KeySetView)>, x: (u16, KeySetView))
    ensures
        spec_recs_tokens(rs.push(x)) =~= spec_recs_tokens(rs) + seq![x.0 as u64]
            + spec_keyset_tokens(x.1),
    decreases rs.len(),
{
    if rs.len() == 0 {
        assert(rs.push(x)[0] == x);
        assert(rs.push(x).skip(1) =~= Seq::<(u16, KeySetView)>::empty());
        assert(spec_recs_tokens(Seq::<(u16, KeySetView)>::empty()) =~= Seq::<u64>::empty());
        assert(spec_recs_tokens(rs) =~= Seq::<u64>::empty());
    } else {
        lemma_recs_tokens_snoc(rs.skip(1), x);
        assert(rs.push(x)[0] == rs[0]);
        assert(rs.push(x).skip(1) =~= rs.skip(1).push(x));
        assert(spec_recs_tokens(rs) == seq![rs[0].0 as u64] + spec_keyset_tokens(rs[0].1)
            + spec_recs_tokens(rs.skip(1)));
        assert(spec_recs_tokens(rs.push(x)) == seq![rs[0].0 as u64] + spec_keyset_tokens(rs[0].1)
            + spec_recs_tokens(rs.skip(1).push(x)));
    }
}

/// Append one key-set's tokens.
#[verifier::loop_isolation(false)]
fn push_keyset_tokens(out: &mut Vec<u64>, ks: &KeySet)
    ensures
        final(out)@ == old(out)@ + spec_keyset_tokens(ks@),
{
    let ghost pre = out@;
    match ks {
        KeySet::Single(k) => {
            out.push(0);
            out.push(k.fingerprint as u64);
            out.push(k.index as u64);
            proof {
                assert(out@ =~= pre + spec_keyset_tokens(ks@));
            }
        }
        KeySet::Multi(t, keys) => {
            out.push(1);
            out.push(*t as u64);
            out.push(keys.len() as u64);
            let ghost head = out@;
            let mut j: usize = 0;
            proof {
                assert(spec_keys_tokens(keys@.take(0)) =~= Seq::<u64>::empty());
                assert(out@ =~= head + spec_keys_tokens(keys@.take(0)));
            }
            while j < keys.len()
                invariant
                    j <= keys@.len(),
                    out@ =~= head + spec_keys_tokens(keys@.take(j as int)),
                decreases keys@.len() - j,
            {
                let k = keys[j];
                out.push(k.fingerprint as u64);
                out.push(k.index as u64);
                proof {
                    lemma_keys_tokens_snoc(keys@.take(j as int), keys@[j as int]);
                    assert(keys@.take(j as int).push(keys@[j as int]) =~= keys@.take(
                        j as int + 1,
                    ));
                    assert(out@ =~= head + spec_keys_tokens(keys@.take(j as int + 1)));
                }
                j += 1;
            }
            proof {
                assert(keys@.take(keys@.len() as int) =~= keys@);
                assert(out@ =~= pre + spec_keyset_tokens(ks@));
            }
        }
    }
}

/// The policy as its line of numbers.
#[verifier::loop_isolation(false)]
pub fn policy_tokens(p: &DescriptorPolicy) -> (r: Vec<u64>)
    ensures
        r@ == spec_policy_tokens(p@),
{
    let mut out: Vec<u64> = Vec::new();
    let tag: u64 = match p.network {
        Network::Bitcoin => 0,
        Network::Testnet => 1,
        Network::Signet => 2,
        Network::Regtest => 3,
    };
    out.push(tag);
    out.push(if p.alternate { 1 } else { 0 });
    push_keyset_tokens(&mut out, &p.primary);
    out.push(p.recovery.len() as u64);
    let ghost head = out@;
    let mut i: usize = 0;
    proof {
        assert(spec_rec_view(p.recovery@).take(0) =~= Seq::<(u16, KeySetView)>::empty());
        assert(out@ =~= head + spec_recs_tokens(spec_rec_view(p.recovery@).take(0)));
    }
    while i < p.recovery.len()
        invariant
            i <= p.recovery@.len(),
            out@ =~= head + spec_recs_tokens(spec_rec_view(p.recovery@).take(i as int)),
        decreases p.recovery@.len() - i,
    {
        let e = &p.recovery[i];
        out.push(e.0 as u64);
        push_keyset_tokens(&mut out, &e.1);
        proof {
            let rv = spec_rec_view(p.recovery@);
            lemma_recs_tokens_snoc(rv.take(i as int), rv[i as int]);
            assert(rv.take(i as int).push(rv[i as int]) =~= rv.take(i as int + 1));
            assert(rv[i as int] == (p.recovery@[i as int].0, p.recovery@[i as int].1@));
            assert(out@ =~= head + spec_recs_tokens(rv.take(i as int + 1)));
        }
        i += 1;
    }
    proof {
        let rv = spec_rec_view(p.recovery@);
        assert(rv.take(rv.len() as int) =~= rv);
        assert(out@ =~= spec_policy_tokens(p@));
    }
    out
}

/// The policy's text form.
pub open spec fn spec_descriptor_string(p: PolicyView) -> Seq<char> {
    spec_join(spec_policy_tokens(p))
}

/// Write the policy as text.
pub fn to_descriptor_string(p: &DescriptorPolicy) -> (r: String)
    ensures
        r@ == spec_descriptor_string(p@),
{
    let ts = policy_tokens(p);
    join_tokens(&ts)
}

/// Read `n` keys starting at `pos`.
fn dec_keys(ts: &Vec<u64>, pos: usize, n: usize) -> (r: Option<(Vec<DerivedKey>, usize)>)
    ensures
        match r {
            Some(v) => spec_dec_keys(ts@, pos as int, n as int) == Some((v.0@, v.1 as int)),
            None => spec_dec_keys(ts@, pos as int, n as int) is None,
        },
    decreases n,
{
    if n == 0 {
        let v: Vec<DerivedKey> = Vec::new();
        proof {
            assert(v@ =~= Seq::<DerivedKey>::empty());
        }
        return Some((v, pos));
    }
    if ts.len() < 2 || pos > ts.len() - 2 {
        return None;
    }
    if !(ts[pos] <= 0xffff_ffff && ts[pos + 1] <= usize::MAX as u64) {
        return None;
    }
    let k = DerivedKey { fingerprint: ts[pos] as u32, index: ts[pos + 1] as usize };
    match dec_keys(ts, pos + 2, n - 1) {
        None => None,
        Some((mut v, np)) => {
            v.insert(0, k);
            proof {
                assert(v@ =~= seq![k] + v@.skip(1));
            }
            Some((v, np))
        }
    }
}

/// Read one key-set starting at `pos`.
fn dec_keyset(ts: &Vec<u64>, pos: usize) -> (r: Option<(KeySet, usize)>)
    ensures
        match r {
            Some(v) => spec_dec_keyset(ts@, pos as int) == Some((v.0@, v.1 as int)),
            None => spec_dec_keyset(ts@, pos as int) is None,
        },
{
    if !(pos < ts.len()) {
        return None;
    }
    let tag = ts[pos];
    if tag == 0 {
        if ts.len() < 3 || pos > ts.len() - 3 {
            return None;
        }
        if !(ts[pos + 1] <= 0xffff_ffff && ts[pos + 2] <= usize::MAX as u64) {
            return None;
        }
        let k = DerivedKey { fingerprint: ts[pos + 1] as u32, index: ts[pos + 2] as usize };
        Some((KeySet::Single(k), pos + 3))
    } else if tag == 1 {
        if ts.len() < 3 || pos > ts.len() - 3 {
            return None;
        }
        if !(ts[pos + 1] <= usize::MAX as u64 && ts[pos + 2] <= usize::MAX as u64) {
            return None;
        }
        let t = ts[pos + 1] as usize;
        let n = ts[pos + 2] as usize;
        match dec_keys(ts, pos + 3, n) {
            None => None,
            Some((ks, np)) => Some((KeySet::Multi(t, ks), np)),
        }
    } else {
        None
    }
}

/// Read `m` recovery entries starting at `pos`.
fn dec_recs(ts: &Vec<u64>, pos: usize, m: usize) -> (r: Option<(Vec<(u16, KeySet)>, usize)>)
    ensures
        match r {
            Some(v) => spec_dec_recs(ts@, pos as int, m as int) == Some(
                (spec_rec_view(v.0@), v.1 as int),
            ),
            None => spec_dec_recs(ts@, pos as int, m as int) is None,
        },
    decreases m,
{
    if m == 0 {
        let v: Vec<(u16, KeySet)> = Vec::new();
        proof {
            assert(spec_rec_view(v@) =~= Seq::<(u16, KeySetView)>::empty());
        }
        return Some((v, pos));
    }
    if !(pos < ts.len() && ts[pos] <= 0xffff) {
        return None;
    }
    let sv = ts[pos] as u16;
    match dec_keyset(ts, pos + 1) {
        None => None,
        Some((ks, np)) => {
            match dec_recs(ts, np, m - 1) {
                None => None,
                Some((mut v, fpos)) => {
                    let ghost tail_view = spec_rec_view(v@);
                    let ghost ksv = ks@;
                    v.insert(0, (sv, ks));
                    proof {
                        assert(spec_rec_view(v@) =~= seq![(sv, ksv)] + tail_view);
                    }
                    Some((v, fpos))
                }
            }
        }
    }
}

/// What reading a descriptor line yields.
pub open spec fn spec_parse_descriptor(s: Seq<char>) -> Option<PolicyView> {
    match spec_split_parse(s) {
        None => None,
        Some(ts) => spec_decode_policy(ts),
    }
}

/// Read a policy back from its text form.
pub fn parse_descriptor(s: &str) -> (r: Option<DescriptorPolicy>)
    ensures
        match r {
            Some(p) => spec_parse_descriptor(s@) == Some(p@),
            None => spec_parse_descriptor(s@) is None,
        },
{
    let ts = match split_tokens(s) {
        None => {
            return None;
        }
        Some(ts) => ts,
    };
    if ts.len() < 2 {
        return None;
    }
    let network = match ts[0] {
        0 => Network::Bitcoin,
        1 => Network::Testnet,
        2 => Network::Signet,
        3 => Network::Regtest,
        _ => {
            return None;
        }
    };
    if !(ts[1] <= 1) {
        return None;
    }
    let alternate = ts[1] == 1;
    let (primary, p1) = match dec_keyset(&ts, 2) {
        None => {
            return None;
        }
        Some(v) => v,
    };
    if !(p1 < ts.len() && ts[p1] <= usize::MAX as u64) {
        return None;
    }
    let m = ts[p1] as usize;
    let (recovery, p2) = match dec_recs(&ts, p1 + 1, m) {
        None => {
            return None;
        }
        Some(v) => v,
    };
    if p2 != ts.len() {
        return None;
    }
    Some(DescriptorPolicy { network, alternate, primary, recovery })
}

/// Round trip: writing a policy as text and reading the text back yields
/// the policy unchanged, for every policy whose thresholds and counts fit
/// the machine — every one the builder makes does.
pub proof fn lemma_descriptor_roundtrip(p: PolicyView)
    requires
        spec_policy_wf(p),
    ensures
        spec_parse_descriptor(spec_descriptor_string(p)) == Some(p),
{
    lemma_join_split(spec_policy_tokens(p));
    lemma_policy_tokens_roundtrip(p);
}

} // verus!
