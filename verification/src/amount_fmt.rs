//! Text form of bitcoin amounts: a satoshi value printed as whole bitcoin
//! with eight decimal places, and the digit-group splitting the display
//! uses to dim leading zeros.

use vstd::prelude::*;
use crate::num::{lemma_dec_val, spec_dec, u64_to_dec_string};

verus! {

pub const SATS_PER_BTC: u64 = 100000000;

/// `k` zero characters.
pub open spec fn spec_zeros(k: int) -> Seq<char>
    decreases k,
{
    if k <= 0 {
        Seq::empty()
    } else {
        seq!['0'] + spec_zeros(k - 1)
    }
}

/// The decimal digits of `n`, left-padded with zeros to eight places.
pub open spec fn spec_pad8(n: int) -> Seq<char> {
    spec_zeros(8 - spec_dec(n).len()) + spec_dec(n)
}

/// A satoshi amount as whole bitcoin: the integer part, a point, and
/// exactly eight decimal places.
pub open spec fn spec_btc_string(sats: int) -> Seq<char> {
    spec_dec(sats / (100000000 as int)) + seq!['.'] + spec_pad8(sats % (100000000 as int))
}

/// Fewer than ten-to-the-`k` takes at most `k` digits.
proof fn lemma_dec_len_bound(n: int, k: int, bound: int)
    requires
        0 <= n < bound,
        1 <= k,
        bound == spec_pow10(k),
    ensures
        spec_dec(n).len() <= k,
    decreases k,
{
    if n < 10 {
    } else {
        assert(k >= 2) by {
            if k == 1 {
                assert(spec_pow10(1) == 10);
            }
        }
        assert(spec_pow10(k) == 10 * spec_pow10(k - 1));
        assert(n / 10 < spec_pow10(k - 1)) by (nonlinear_arith)
            requires
                n < 10 * spec_pow10(k - 1),
                n >= 10,
                spec_pow10(k - 1) >= 1;
        lemma_pow10_pos(k - 1);
        lemma_dec_len_bound(n / 10, k - 1, spec_pow10(k - 1));
    }
}

pub open spec fn spec_pow10(k: int) -> int
    decreases k,
{
    if k <= 0 {
        1
    } else {
        10 * spec_pow10(k - 1)
    }
}

proof fn lemma_pow10_pos(k: int)
    ensures
        spec_pow10(k) >= 1,
    decreases k,
{
    if k > 0 {
        lemma_pow10_pos(k - 1);
    }
}

/// Print a satoshi amount as whole bitcoin with eight decimal places.
#[verifier::loop_isolation(false)]
pub fn amount_btc_string(sats: u64) -> (r: String)
    ensures
        r@ == spec_btc_string(sats as int),
        r@.len() >= 10,
{
    let int_part = sats / SATS_PER_BTC;
    let frac = sats % SATS_PER_BTC;
    let mut r = u64_to_dec_string(int_part);
    r.append(".");
    proof {
        reveal_strlit(".");
        assert("."@ =~= seq!['.']);
    }
    let frac_digits = u64_to_dec_string(frac);
    proof {
        assert(spec_pow10(0) == 1);
        assert(spec_pow10(1) == 10);
        assert(spec_pow10(2) == 100);
        assert(spec_pow10(3) == 1000);
        assert(spec_pow10(4) == 10000);
        assert(spec_pow10(5) == 100000);
        assert(spec_pow10(6) == 1000000);
        assert(spec_pow10(7) == 10000000);
        assert(spec_pow10(8) == 100000000);
        lemma_dec_len_bound(frac as int, 8, 100000000);
        lemma_dec_val(frac as int);
    }
    let flen = frac_digits.as_str().unicode_len();
    let mut pad: usize = 8 - flen;
    let ghost target = 8 - spec_dec(frac as int).len();
    let ghost base = r@;
    while pad > 0
        invariant
            pad <= target,
            r@ =~= base + spec_zeros(target - pad),
        decreases pad,
    {
        r.append("0");
        proof {
            reveal_strlit("0");
            assert("0"@ =~= seq!['0']);
            lemma_zeros_snoc(target - pad + 1);
        }
        pad -= 1;
    }
    r.append(frac_digits.as_str());
    proof {
        lemma_dec_val(sats as int / (100000000 as int));
        lemma_zeros_len(8 - spec_dec(sats as int % (100000000 as int)).len());
        assert(r@ =~= spec_btc_string(sats as int));
        assert(spec_dec(sats as int / (100000000 as int)).len() >= 1);
        assert(spec_pad8(sats as int % (100000000 as int)).len() == 8);
    }
    r
}

proof fn lemma_zeros_len(k: int)
    ensures
        k >= 0 ==> spec_zeros(k).len() == k,
        k < 0 ==> spec_zeros(k).len() == 0,
    decreases k,
{
    if k > 0 {
        lemma_zeros_len(k - 1);
    }
}

/// Zeros grow one at a time at either end.
proof fn lemma_zeros_snoc(k: int)
    requires
        k >= 1,
    ensures
        spec_zeros(k) =~= spec_zeros(k - 1) + seq!['0'],
    decreases k,
{
    if k == 1 {
    } else {
        lemma_zeros_snoc(k - 1);
        assert(spec_zeros(k) == seq!['0'] + spec_zeros(k - 1));
        assert(spec_zeros(k) =~= spec_zeros(k - 1) + seq!['0']);
    }
}

/// How many leading characters of an amount string the display dims: the
/// first matching pattern of a zero integer part with up to two zero
/// decimals, or a run of up to three leading zeros.
pub open spec fn spec_dim_prefix_len(s: Seq<char>) -> int {
    if s.len() >= 4 && s[0] == '0' && s[1] == '.' && s[2] == '0' && s[3] == '0' {
        4
    } else if s.len() >= 3 && s[0] == '0' && s[1] == '.' && s[2] == '0' {
        3
    } else if s.len() >= 2 && s[0] == '0' && s[1] == '.' {
        2
    } else if s.len() >= 3 && s[0] == '0' && s[1] == '0' && s[2] == '0' {
        3
    } else if s.len() >= 2 && s[0] == '0' && s[1] == '0' {
        2
    } else if s.len() >= 1 && s[0] == '0' {
        1
    } else {
        0
    }
}

/// Split a digit group into the dimmed leading part and the emphasised
/// rest.
pub fn split_digits(s: &str) -> (r: (String, String))
    ensures
        r.0@ == s@.take(spec_dim_prefix_len(s@)),
        r.1@ == s@.skip(spec_dim_prefix_len(s@)),
{
    let len = s.unicode_len();
    let c0 = if len >= 1 {
        s.get_char(0)
    } else {
        ' '
    };
    let c1 = if len >= 2 {
        s.get_char(1)
    } else {
        ' '
    };
    let c2 = if len >= 3 {
        s.get_char(2)
    } else {
        ' '
    };
    let c3 = if len >= 4 {
        s.get_char(3)
    } else {
        ' '
    };
    let p: usize = if len >= 4 && c0 == '0' && c1 == '.' && c2 == '0' && c3 == '0' {
        4
    } else if len >= 3 && c0 == '0' && c1 == '.' && c2 == '0' {
        3
    } else if len >= 2 && c0 == '0' && c1 == '.' {
        2
    } else if len >= 3 && c0 == '0' && c1 == '0' && c2 == '0' {
        3
    } else if len >= 2 && c0 == '0' && c1 == '0' {
        2
    } else if len >= 1 && c0 == '0' {
        1
    } else {
        0
    };
    let left = String::from_str(s.substring_char(0, p));
    let right = String::from_str(s.substring_char(p, len));
    proof {
        assert(left@ =~= s@.take(p as int));
        assert(right@ =~= s@.skip(p as int));
    }
    (left, right)
}

/// The three digit groups of a formatted amount: everything before the
/// last six characters, the next three, and the final three. The display
/// dims or emphasises each group by the amount's size.
pub fn amount_groups(sats: u64) -> (r: (String, String, String))
    ensures
        ({
            let s = spec_btc_string(sats as int);
            &&& r.0@ == s.take(s.len() - 6)
            &&& r.1@ == s.subrange(s.len() - 6, s.len() - 3)
            &&& r.2@ == s.subrange(s.len() - 3, s.len() as int)
        }),
{
    let s = amount_btc_string(sats);
    let len = s.as_str().unicode_len();
    let head = String::from_str(s.as_str().substring_char(0, len - 6));
    let mid = String::from_str(s.as_str().substring_char(len - 6, len - 3));
    let tail = String::from_str(s.as_str().substring_char(len - 3, len));
    (head, mid, tail)
}

} // verus!
