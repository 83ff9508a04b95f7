//! The coin selector: candidate coins for a spend, ordered by urgency.
//!
//! Coins already committed to a pending spend are excluded. The rest are
//! ordered by how soon their recovery path becomes available — those
//! closest to falling into the slower recovery branch are spent first —
//! with larger amounts first among equally urgent coins, to keep the
//! wallet from fragmenting.

use vstd::prelude::*;

verus! {

/// A transaction output reference: the transaction id and output index.
#[derive(Clone, Copy, Debug, PartialEq, Eq)]
pub struct OutPoint {
    pub txid: [u8; 32],
    pub vout: u32,
}

/// One spendable coin of the wallet.
#[derive(Clone, Copy, Debug)]
pub struct Coin {
    pub outpoint: OutPoint,
    /// Value in satoshis.
    pub amount: u64,
    /// The block the coin confirmed in, if any.
    pub block_height: Option<u32>,
    /// Whether a pending spend already commits this coin.
    pub committed: bool,
}

/// Blocks left until the coin's recovery path can spend it: a coin
/// confirmed at height `h` falls to recovery at `h + timelock`; an
/// unconfirmed coin has the whole time-lock and one block more ahead.
pub open spec fn spec_remaining_sequence(height: Option<u32>, tip: u32, timelock: u16) -> int {
    match height {
        Some(h) => if h + timelock > tip {
            h + timelock - tip
        } else {
            0
        },
        None => timelock + 1,
    }
}

pub fn remaining_sequence(height: Option<u32>, tip: u32, timelock: u16) -> (r: u64)
    ensures
        r == spec_remaining_sequence(height, tip, timelock),
{
    match height {
        Some(h) => {
            let avail: u64 = h as u64 + timelock as u64;
            if avail > tip as u64 {
                avail - tip as u64
            } else {
                0
            }
        }
        None => timelock as u64 + 1,
    }
}

/// Strict priority order: sooner recovery first; among equals, the larger
/// amount first.
pub open spec fn spec_coin_lt(a: Coin, b: Coin, tip: u32, timelock: u16) -> bool {
    let ra = spec_remaining_sequence(a.block_height, tip, timelock);
    let rb = spec_remaining_sequence(b.block_height, tip, timelock);
    ra < rb || (ra == rb && a.amount > b.amount)
}

fn coin_lt(a: &Coin, b: &Coin, tip: u32, timelock: u16) -> (r: bool)
    ensures
        r == spec_coin_lt(*a, *b, tip, timelock),
{
    let ra = remaining_sequence(a.block_height, tip, timelock);
    let rb = remaining_sequence(b.block_height, tip, timelock);
    ra < rb || (ra == rb && a.amount > b.amount)
}

/// The coins not committed to a pending spend, original order kept.
pub open spec fn spec_uncommitted(s: Seq<Coin>) -> Seq<Coin>
    decreases s.len(),
{
    if s.len() == 0 {
        Seq::empty()
    } else {
        let rest = spec_uncommitted(s.drop_last());
        if s.last().committed {
            rest
        } else {
            rest.push(s.last())
        }
    }
}

pub proof fn lemma_uncommitted_clean(s: Seq<Coin>)
    ensures
        forall|k: int| 0 <= k < spec_uncommitted(s).len() ==> !(#[trigger] spec_uncommitted(
            s,
        )[k]).committed,
    decreases s.len(),
{
    if s.len() > 0 {
        lemma_uncommitted_clean(s.drop_last());
    }
}

/// A list of uncommitted coins filters to itself.
pub proof fn lemma_uncommitted_id(s: Seq<Coin>)
    requires
        forall|k: int| 0 <= k < s.len() ==> !(#[trigger] s[k]).committed,
    ensures
        spec_uncommitted(s) == s,
    decreases s.len(),
{
    if s.len() == 0 {
        assert(spec_uncommitted(s) =~= s);
    } else {
        lemma_uncommitted_id(s.drop_last());
        assert(!s.last().committed);
        assert(spec_uncommitted(s) =~= s.drop_last().push(s.last()));
        assert(s.drop_last().push(s.last()) =~= s);
    }
}

/// Insert before the first coin that is not strictly more urgent: equal
/// coins keep their order, so the sort is stable.
pub open spec fn spec_insert_coin(x: Coin, s: Seq<Coin>, tip: u32, timelock: u16) -> Seq<Coin>
    decreases s.len(),
{
    if s.len() == 0 {
        seq![x]
    } else if spec_coin_lt(s[0], x, tip, timelock) {
        seq![s[0]] + spec_insert_coin(x, s.skip(1), tip, timelock)
    } else {
        seq![x] + s
    }
}

pub open spec fn spec_sort_coins(s: Seq<Coin>, tip: u32, timelock: u16) -> Seq<Coin>
    decreases s.len(),
{
    if s.len() == 0 {
        Seq::empty()
    } else {
        spec_insert_coin(s[0], spec_sort_coins(s.skip(1), tip, timelock), tip, timelock)
    }
}

/// Ordered and filtered: what the selector shows.
pub open spec fn spec_select_order(coins: Seq<Coin>, tip: u32, timelock: u16) -> Seq<Coin> {
    spec_sort_coins(spec_uncommitted(coins), tip, timelock)
}

/// Non-strictly ordered by priority.
pub open spec fn spec_coins_sorted(s: Seq<Coin>, tip: u32, timelock: u16) -> bool {
    forall|i: int, j: int| 0 <= i < j < s.len() ==> !spec_coin_lt(s[j], s[i], tip, timelock)
}

proof fn lemma_insert_coin_elems(x: Coin, s: Seq<Coin>, tip: u32, timelock: u16)
    ensures
        spec_insert_coin(x, s, tip, timelock).len() == s.len() + 1,
        forall|k: int|
            0 <= k < spec_insert_coin(x, s, tip, timelock).len() ==> #[trigger] spec_insert_coin(
                x,
                s,
                tip,
                timelock,
            )[k] == x || s.contains(spec_insert_coin(x, s, tip, timelock)[k]),
    decreases s.len(),
{
    let r = spec_insert_coin(x, s, tip, timelock);
    if s.len() == 0 {
    } else if spec_coin_lt(s[0], x, tip, timelock) {
        lemma_insert_coin_elems(x, s.skip(1), tip, timelock);
        assert forall|k: int| 0 <= k < r.len() implies #[trigger] r[k] == x || s.contains(
            r[k],
        ) by {
            if k == 0 {
                assert(s.contains(s[0]));
            } else {
                let e = r[k];
                assert(e == spec_insert_coin(x, s.skip(1), tip, timelock)[k - 1]);
                if e != x {
                    let m = choose|m: int|
                        0 <= m < s.skip(1).len() && #[trigger] s.skip(1)[m] == e;
                    assert(s[m + 1] == e);
                    assert(s.contains(e));
                }
            }
        }
    } else {
        assert forall|k: int| 0 <= k < r.len() implies #[trigger] r[k] == x || s.contains(
            r[k],
        ) by {
            if k > 0 {
                assert(r[k] == s[k - 1]);
                assert(s.contains(s[k - 1]));
            }
        }
    }
}

/// Inserting into an ordered list keeps it ordered. The order is total:
/// of two coins, one is not strictly below the other both ways.
proof fn lemma_insert_coin_sorted(x: Coin, s: Seq<Coin>, tip: u32, timelock: u16)
    requires
        spec_coins_sorted(s, tip, timelock),
    ensures
        spec_coins_sorted(spec_insert_coin(x, s, tip, timelock), tip, timelock),
    decreases s.len(),
{
    let r = spec_insert_coin(x, s, tip, timelock);
    lemma_insert_coin_elems(x, s, tip, timelock);
    if s.len() == 0 {
    } else if spec_coin_lt(s[0], x, tip, timelock) {
        assert forall|i: int, j: int|
            0 <= i < j < s.skip(1).len() implies !spec_coin_lt(
            s.skip(1)[j],
            s.skip(1)[i],
            tip,
            timelock,
        ) by {
            assert(s.skip(1)[j] == s[j + 1]);
            assert(s.skip(1)[i] == s[i + 1]);
        }
        lemma_insert_coin_sorted(x, s.skip(1), tip, timelock);
        let r1 = spec_insert_coin(x, s.skip(1), tip, timelock);
        assert forall|i: int, j: int|
            0 <= i < j < r.len() implies !spec_coin_lt(r[j], r[i], tip, timelock) by {
            if i == 0 {
                // r[0] == s[0]; every later element is x or from s.
                assert(r[j] == r1[j - 1]);
                lemma_insert_coin_elems(x, s.skip(1), tip, timelock);
                if r1[j - 1] == x {
                    assert(!spec_coin_lt(x, s[0], tip, timelock));
                } else {
                    let m = choose|m: int|
                        0 <= m < s.skip(1).len() && #[trigger] s.skip(1)[m] == r1[j - 1];
                    assert(s[m + 1] == r1[j - 1]);
                    assert(!spec_coin_lt(s[m + 1], s[0], tip, timelock));
                }
            } else {
                assert(r[j] == r1[j - 1]);
                assert(r[i] == r1[i - 1]);
            }
        }
    } else {
        // x goes first; everything in s is not strictly below x.
        assert forall|i: int, j: int|
            0 <= i < j < r.len() implies !spec_coin_lt(r[j], r[i], tip, timelock) by {
            if i == 0 {
                assert(r[0] == x);
                assert(r[j] == s[j - 1]);
                if j - 1 > 0 {
                    assert(!spec_coin_lt(s[j - 1], s[0], tip, timelock));
                }
                assert(!spec_coin_lt(s[0], x, tip, timelock));
            } else {
                assert(r[i] == s[i - 1]);
                assert(r[j] == s[j - 1]);
            }
        }
    }
}

pub proof fn lemma_sort_coins_sorted(s: Seq<Coin>, tip: u32, timelock: u16)
    ensures
        spec_coins_sorted(spec_sort_coins(s, tip, timelock), tip, timelock),
        spec_sort_coins(s, tip, timelock).len() == s.len(),
        forall|k: int|
            0 <= k < s.len() ==> s.contains(#[trigger] spec_sort_coins(s, tip, timelock)[k]),
    decreases s.len(),
{
    if s.len() > 0 {
        lemma_sort_coins_sorted(s.skip(1), tip, timelock);
        lemma_insert_coin_sorted(s[0], spec_sort_coins(s.skip(1), tip, timelock), tip, timelock);
        lemma_insert_coin_elems(s[0], spec_sort_coins(s.skip(1), tip, timelock), tip, timelock);
        let r = spec_sort_coins(s, tip, timelock);
        assert forall|k: int| 0 <= k < s.len() implies s.contains(#[trigger] r[k]) by {
            if r[k] == s[0] {
                assert(s.contains(s[0]));
            } else {
                assert(spec_sort_coins(s.skip(1), tip, timelock).contains(r[k]));
                let m = choose|m: int|
                    0 <= m < spec_sort_coins(s.skip(1), tip, timelock).len()
                        && #[trigger] spec_sort_coins(s.skip(1), tip, timelock)[m] == r[k];
                assert(s.skip(1).contains(spec_sort_coins(s.skip(1), tip, timelock)[m]));
                let q = choose|q: int|
                    0 <= q < s.skip(1).len() && #[trigger] s.skip(1)[q] == r[k];
                assert(s[q + 1] == r[k]);
                assert(s.contains(r[k]));
            }
        }
    }
}

/// Sorting an already-ordered list gives it back unchanged.
pub proof fn lemma_sort_coins_id(s: Seq<Coin>, tip: u32, timelock: u16)
    requires
        spec_coins_sorted(s, tip, timelock),
    ensures
        spec_sort_coins(s, tip, timelock) == s,
    decreases s.len(),
{
    if s.len() == 0 {
        assert(spec_sort_coins(s, tip, timelock) =~= s);
    } else {
        assert forall|i: int, j: int|
            0 <= i < j < s.skip(1).len() implies !spec_coin_lt(
            s.skip(1)[j],
            s.skip(1)[i],
            tip,
            timelock,
        ) by {
            assert(s.skip(1)[j] == s[j + 1]);
            assert(s.skip(1)[i] == s[i + 1]);
        }
        lemma_sort_coins_id(s.skip(1), tip, timelock);
        if s.len() == 1 {
            assert(s.skip(1) =~= Seq::<Coin>::empty());
            assert(spec_sort_coins(s, tip, timelock) =~= s);
        } else {
            assert(!spec_coin_lt(s.skip(1)[0], s[0], tip, timelock));
            assert(spec_insert_coin(s[0], s.skip(1), tip, timelock) == seq![s[0]] + s.skip(1));
            assert(seq![s[0]] + s.skip(1) =~= s);
        }
    }
}

/// Ordering is idempotent: selecting from an already selected list gives
/// the same list, and a selected list never holds a committed coin.
pub proof fn lemma_select_order_idempotent(coins: Seq<Coin>, tip: u32, timelock: u16)
    ensures
        spec_select_order(spec_select_order(coins, tip, timelock), tip, timelock)
            == spec_select_order(coins, tip, timelock),
        forall|k: int|
            0 <= k < spec_select_order(coins, tip, timelock).len() ==> !(
            #[trigger] spec_select_order(coins, tip, timelock)[k]).committed,
{
    let f = spec_uncommitted(coins);
    let r = spec_select_order(coins, tip, timelock);
    lemma_uncommitted_clean(coins);
    lemma_sort_coins_sorted(f, tip, timelock);
    assert forall|k: int| 0 <= k < r.len() implies !(#[trigger] r[k]).committed by {
        assert(f.contains(r[k]));
        let m = choose|m: int| 0 <= m < f.len() && #[trigger] f[m] == r[k];
    }
    lemma_uncommitted_id(r);
    lemma_sort_coins_id(r, tip, timelock);
}

/// Where the next coin goes in an already-ordered prefix: before the
/// first coin that is not strictly more urgent.
#[verifier::loop_isolation(false)]
fn find_coin_pos(v: &Vec<Coin>, x: &Coin, tip: u32, timelock: u16) -> (p: usize)
    ensures
        p <= v@.len(),
        forall|q: int| 0 <= q < p ==> spec_coin_lt(#[trigger] v@[q], *x, tip, timelock),
        p < v@.len() ==> !spec_coin_lt(v@[p as int], *x, tip, timelock),
{
    let mut p: usize = 0;
    while p < v.len()
        invariant
            p <= v@.len(),
            forall|q: int| 0 <= q < p ==> spec_coin_lt(#[trigger] v@[q], *x, tip, timelock),
        decreases v@.len() - p,
    {
        if !coin_lt(&v[p], x, tip, timelock) {
            return p;
        }
        p += 1;
    }
    p
}

/// The candidate list: committed coins excluded, the rest by urgency.
#[verifier::loop_isolation(false)]
pub fn select_order(coins: &Vec<Coin>, tip: u32, timelock: u16) -> (r: Vec<Coin>)
    ensures
        r@ == spec_select_order(coins@, tip, timelock),
        forall|k: int| 0 <= k < r@.len() ==> !(#[trigger] r@[k]).committed,
{
    let mut filtered: Vec<Coin> = Vec::new();
    let mut i: usize = 0;
    proof {
        assert(filtered@ =~= spec_uncommitted(coins@.take(0)));
    }
    while i < coins.len()
        invariant
            i <= coins@.len(),
            filtered@ == spec_uncommitted(coins@.take(i as int)),
        decreases coins@.len() - i,
    {
        let c = coins[i];
        if !c.committed {
            filtered.push(c);
        }
        i += 1;
        proof {
            let t = coins@.take(i as int);
            assert(t.drop_last() =~= coins@.take(i as int - 1));
            assert(t.last() == coins@[i as int - 1]);
        }
    }
    proof {
        assert(coins@.take(coins@.len() as int) =~= coins@);
    }
    // Stable insertion sort by urgency.
    let mut acc: Vec<Coin> = Vec::new();
    let mut i: usize = filtered.len();
    proof {
        assert(filtered@.skip(i as int) =~= Seq::<Coin>::empty());
    }
    while i > 0
        invariant
            i <= filtered@.len(),
            acc@ == spec_sort_coins(filtered@.skip(i as int), tip, timelock),
        decreases i,
    {
        i -= 1;
        let x = filtered[i];
        let p = find_coin_pos(&acc, &x, tip, timelock);
        let ghost pre = acc@;
        proof {
            lemma_insert_coin_at(x, pre, p as int, tip, timelock);
        }
        acc.insert(p, x);
        proof {
            let su = filtered@.skip(i as int);
            assert(su.len() > 0);
            assert(su[0] == filtered@[i as int]);
            assert(su.skip(1) =~= filtered@.skip(i as int + 1));
            assert(acc@ == spec_insert_coin(x, spec_sort_coins(su.skip(1), tip, timelock), tip,
                timelock));
        }
    }
    proof {
        assert(filtered@.skip(0) =~= filtered@);
        lemma_select_order_idempotent(coins@, tip, timelock);
    }
    acc
}

/// Inserting at the first position whose coin is not strictly more urgent
/// is what `spec_insert_coin` does.
proof fn lemma_insert_coin_at(x: Coin, s: Seq<Coin>, p: int, tip: u32, timelock: u16)
    requires
        0 <= p <= s.len(),
        forall|q: int| 0 <= q < p ==> spec_coin_lt(#[trigger] s[q], x, tip, timelock),
        p < s.len() ==> !spec_coin_lt(s[p], x, tip, timelock),
    ensures
        spec_insert_coin(x, s, tip, timelock) =~= s.insert(p, x),
    decreases p,
{
    if p == 0 {
        if s.len() == 0 {
            assert(spec_insert_coin(x, s, tip, timelock) =~= s.insert(0, x));
        } else {
            assert(!spec_coin_lt(s[0], x, tip, timelock));
            assert(spec_insert_coin(x, s, tip, timelock) =~= s.insert(0, x));
        }
    } else {
        assert(spec_coin_lt(s[0], x, tip, timelock));
        lemma_insert_coin_at(x, s.skip(1), p - 1, tip, timelock);
        assert(spec_insert_coin(x, s, tip, timelock) == seq![s[0]] + spec_insert_coin(
            x,
            s.skip(1),
            tip,
            timelock,
        ));
        assert(spec_insert_coin(x, s, tip, timelock) =~= s.insert(p, x));
    }
}

} // verus!
