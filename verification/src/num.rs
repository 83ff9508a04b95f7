//! Decimal text for unsigned integers: printing, parsing, and the proof
//! that the two invert each other.

use vstd::prelude::*;

verus! {

pub open spec fn spec_is_digit(c: char) -> bool {
    '0' <= c && c <= '9'
}

pub open spec fn spec_digit_val(c: char) -> int {
    c as u32 - '0' as u32
}

/// The digit character for a value below ten.
pub open spec fn spec_digit_char(d: int) -> char {
    if d == 0 {
        '0'
    } else if d == 1 {
        '1'
    } else if d == 2 {
        '2'
    } else if d == 3 {
        '3'
    } else if d == 4 {
        '4'
    } else if d == 5 {
        '5'
    } else if d == 6 {
        '6'
    } else if d == 7 {
        '7'
    } else if d == 8 {
        '8'
    } else {
        '9'
    }
}

/// The decimal digits of `n`, most significant first, no leading zeros
/// (a single zero digit for zero).
pub open spec fn spec_dec(n: int) -> Seq<char>
    decreases n,
{
    if n < 10 {
        seq![spec_digit_char(n)]
    } else {
        spec_dec(n / 10).push(spec_digit_char(n % 10))
    }
}

/// The value of a digit string, most significant first.
pub open spec fn spec_val(s: Seq<char>) -> int
    decreases s.len(),
{
    if s.len() == 0 {
        0
    } else {
        spec_val(s.drop_last()) * 10 + spec_digit_val(s.last())
    }
}

pub open spec fn spec_all_digits(s: Seq<char>) -> bool {
    forall|i: int| 0 <= i < s.len() ==> spec_is_digit(#[trigger] s[i])
}

/// What a decimal parse of a whole string yields: the value, if the string
/// is a nonempty run of digits whose value fits; nothing otherwise.
pub open spec fn spec_parse_u64(s: Seq<char>) -> Option<u64> {
    if s.len() >= 1 && spec_all_digits(s) && spec_val(s) <= u64::MAX {
        Some(spec_val(s) as u64)
    } else {
        None
    }
}

pub proof fn lemma_digit_char_val(d: int)
    requires
        0 <= d < 10,
    ensures
        spec_is_digit(spec_digit_char(d)),
        spec_digit_val(spec_digit_char(d)) == d,
        spec_digit_char(d) != ' ',
{
}

/// Printing yields only digits, at least one of them, and printing then
/// valuing gives the number back.
pub proof fn lemma_dec_val(n: int)
    requires
        n >= 0,
    ensures
        spec_dec(n).len() >= 1,
        spec_all_digits(spec_dec(n)),
        spec_val(spec_dec(n)) == n,
    decreases n,
{
    if n < 10 {
        lemma_digit_char_val(n);
        assert(spec_dec(n) =~= seq![spec_digit_char(n)]);
        assert(spec_dec(n).drop_last() =~= Seq::<char>::empty());
        assert(spec_val(Seq::<char>::empty()) == 0);
        assert(spec_dec(n).last() == spec_digit_char(n));
        assert(spec_val(spec_dec(n)) == 0 * 10 + spec_digit_val(spec_digit_char(n)));
    } else {
        lemma_dec_val(n / 10);
        lemma_digit_char_val(n % 10);
        let s = spec_dec(n);
        assert(s == spec_dec(n / 10).push(spec_digit_char(n % 10)));
        assert(s.drop_last() =~= spec_dec(n / 10));
        assert(s.last() == spec_digit_char(n % 10));
        assert(spec_val(s) == spec_val(spec_dec(n / 10)) * 10 + spec_digit_val(
            spec_digit_char(n % 10),
        ));
        assert(spec_val(s) == (n / 10) * 10 + n % 10);
        assert((n / 10) * 10 + n % 10 == n) by (nonlinear_arith);
        assert forall|i: int| 0 <= i < s.len() implies spec_is_digit(#[trigger] s[i]) by {
            if i < s.len() - 1 {
                assert(s[i] == spec_dec(n / 10)[i]);
            }
        }
    }
}

/// The value of a longer digit prefix is never smaller.
pub proof fn lemma_val_take_succ(s: Seq<char>, i: int)
    requires
        0 <= i < s.len(),
    ensures
        spec_val(s.take(i + 1)) == spec_val(s.take(i)) * 10 + spec_digit_val(s[i]),
{
    assert(s.take(i + 1).drop_last() =~= s.take(i));
    assert(s.take(i + 1).last() == s[i]);
}

pub proof fn lemma_val_nonneg(s: Seq<char>)
    requires
        spec_all_digits(s),
    ensures
        spec_val(s) >= 0,
    decreases s.len(),
{
    if s.len() > 0 {
        assert(spec_is_digit(s[s.len() - 1]));
        lemma_val_nonneg(s.drop_last());
        assert(spec_val(s.drop_last()) * 10 >= 0) by (nonlinear_arith)
            requires spec_val(s.drop_last()) >= 0;
    }
}

/// Once some digit prefix exceeds a bound, every longer prefix does too.
pub proof fn lemma_val_take_mono(s: Seq<char>, i: int, j: int)
    requires
        spec_all_digits(s),
        0 <= i <= j <= s.len(),
    ensures
        spec_val(s.take(i)) <= spec_val(s.take(j)),
    decreases j - i,
{
    if i < j {
        lemma_val_take_mono(s, i, j - 1);
        lemma_val_take_succ(s, j - 1);
        lemma_val_nonneg(s.take(j - 1));
        assert(spec_all_digits(s.take(j - 1)));
        let v = spec_val(s.take(j - 1));
        assert(v * 10 >= v) by (nonlinear_arith)
            requires v >= 0;
        assert(spec_is_digit(s[j - 1]));
    }
}

/// The digit string of `d` below ten.
fn digit_str(d: u64) -> (r: &'static str)
    requires
        d < 10,
    ensures
        r@ =~= seq![spec_digit_char(d as int)],
{
    proof {
        reveal_strlit("0");
        reveal_strlit("1");
        reveal_strlit("2");
        reveal_strlit("3");
        reveal_strlit("4");
        reveal_strlit("5");
        reveal_strlit("6");
        reveal_strlit("7");
        reveal_strlit("8");
        reveal_strlit("9");
    }
    if d == 0 {
        "0"
    } else if d == 1 {
        "1"
    } else if d == 2 {
        "2"
    } else if d == 3 {
        "3"
    } else if d == 4 {
        "4"
    } else if d == 5 {
        "5"
    } else if d == 6 {
        "6"
    } else if d == 7 {
        "7"
    } else if d == 8 {
        "8"
    } else {
        "9"
    }
}

/// Decimal text of `n`, no leading zeros.
pub fn u64_to_dec_string(n: u64) -> (r: String)
    ensures
        r@ == spec_dec(n as int),
    decreases n,
{
    if n < 10 {
        let s = String::from_str(digit_str(n));
        proof {
            assert(s@ =~= spec_dec(n as int));
        }
        s
    } else {
        let mut s = u64_to_dec_string(n / 10);
        s.append(digit_str(n % 10));
        proof {
            assert(s@ =~= spec_dec(n as int));
        }
        s
    }
}

/// Parse a whole string as a plain decimal `u64`: a nonempty run of digits
/// whose value fits, nothing else. Deliberately stricter than a general
/// integer parse: no blanks and no sign, not even a leading plus — a
/// fee-rate or time-lock entry is digits or it is invalid.
pub fn parse_u64_dec(s: &str) -> (r: Option<u64>)
    ensures
        r == spec_parse_u64(s@),
{
    let len = s.unicode_len();
    if len == 0 {
        return None;
    }
    let mut acc: u64 = 0;
    let mut i: usize = 0;
    while i < len
        invariant
            0 < len == s@.len(),
            i <= len,
            spec_all_digits(s@.take(i as int)),
            acc == spec_val(s@.take(i as int)),
        decreases len - i,
    {
        let c = s.get_char(i);
        if !('0' <= c && c <= '9') {
            proof {
                assert(!spec_is_digit(s@[i as int]));
            }
            return None;
        }
        let d: u64 = (c as u32 as u64) - 48;
        proof {
            lemma_val_take_succ(s@, i as int);
            lemma_val_nonneg(s@.take(i as int));
        }
        if acc > (u64::MAX - d) / 10 {
            proof {
                let v1 = spec_val(s@.take(i as int + 1));
                assert(v1 == acc * 10 + d);
                assert(acc * 10 + d > u64::MAX) by (nonlinear_arith)
                    requires
                        acc > (u64::MAX - d) / 10,
                        d < 10,
                        acc >= 0;
                assert(spec_all_digits(s@.take(i as int + 1)));
                lemma_val_take_mono_digits_partial(s@, i as int + 1);
            }
            return None;
        }
        acc = acc * 10 + d;
        i += 1;
        proof {
            assert(s@.take(i as int).drop_last() =~= s@.take(i as int - 1));
        }
    }
    proof {
        assert(s@.take(len as int) =~= s@);
    }
    Some(acc)
}

/// If some prefix of `s` is all digits with value above `u64::MAX`, the
/// whole string cannot parse: either a later character is no digit, or the
/// full value is above the bound as well.
proof fn lemma_val_take_mono_digits_partial(s: Seq<char>, i: int)
    requires
        0 <= i <= s.len(),
        spec_all_digits(s.take(i)),
        spec_val(s.take(i)) > u64::MAX,
    ensures
        spec_parse_u64(s) is None,
{
    if spec_all_digits(s) {
        lemma_val_take_mono(s, i, s.len() as int);
        assert(s.take(s.len() as int) =~= s);
    }
}

} // verus!
