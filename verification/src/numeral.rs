//! Decimal numerals: converting a run of ASCII digits to a number and a
//! number back to its canonical digit run.

use vstd::prelude::*;
use crate::chars::is_ascii_digit;

verus! {

/// The value of one decimal digit character.
pub open spec fn digit_val(c: char) -> nat {
    (c as u32 - '0' as u32) as nat
}

/// The digit character of one value below ten.
pub open spec fn digit_char(d: nat) -> char {
    if d == 0 {
        '0'
    } else if d == 1 {
        '1'
    } else if d == 2 {
        '2'
    } else if d == 3 {
        '3'
    } else if d == 4 {
        '4'
    } else if d == 5 {
        '5'
    } else if d == 6 {
        '6'
    } else if d == 7 {
        '7'
    } else if d == 8 {
        '8'
    } else {
        '9'
    }
}

/// Whether every character of `s` is an ASCII digit.
pub open spec fn all_digits(s: Seq<char>) -> bool {
    forall|i: int| 0 <= i < s.len() ==> is_ascii_digit(#[trigger] s[i])
}

/// The number a digit sequence denotes, read left to right.
pub open spec fn digits_to_nat(s: Seq<char>) -> nat
    decreases s.len(),
{
    if s.len() == 0 {
        0
    } else {
        digits_to_nat(s.drop_last()) * 10 + digit_val(s.last())
    }
}

/// The canonical digit sequence of a number: no sign, no leading zero
/// except for zero itself.
pub open spec fn nat_to_digits(n: nat) -> Seq<char>
    decreases n,
{
    if n < 10 {
        seq![digit_char(n)]
    } else {
        nat_to_digits(n / 10).push(digit_char(n % 10))
    }
}

/// A canonical digit sequence is nonempty, all digits, and denotes the
/// number it was built from.
pub proof fn lemma_nat_to_digits(n: nat)
    ensures
        nat_to_digits(n).len() >= 1,
        all_digits(nat_to_digits(n)),
        digits_to_nat(nat_to_digits(n)) == n,
    decreases n,
{
    if n < 10 {
        assert(nat_to_digits(n) =~= seq![digit_char(n)]);
        assert(digits_to_nat(nat_to_digits(n)) == digits_to_nat(
            nat_to_digits(n).drop_last(),
        ) * 10 + digit_val(nat_to_digits(n).last()));
        assert(nat_to_digits(n).drop_last() =~= Seq::<char>::empty());
        assert(digit_val(digit_char(n)) == n);
    } else {
        lemma_nat_to_digits(n / 10);
        let t = nat_to_digits(n / 10);
        let whole = t.push(digit_char(n % 10));
        assert(whole.drop_last() =~= t);
        assert(whole.last() == digit_char(n % 10));
        assert(digit_val(digit_char(n % 10)) == n % 10);
        assert(digits_to_nat(whole) == digits_to_nat(t) * 10 + n % 10);
        assert(digits_to_nat(t) == n / 10);
        assert(n / 10 * 10 + n % 10 == n) by (nonlinear_arith);
        assert forall|i: int| 0 <= i < whole.len() implies is_ascii_digit(#[trigger] whole[i]) by {
            if i < t.len() {
                assert(whole[i] == t[i]);
            } else {
                assert(whole[i] == digit_char(n % 10));
            }
        }
    }
}

/// Extending a digit sequence by one digit never shrinks its value.
pub proof fn lemma_digits_extend(s: Seq<char>, k: int)
    requires
        0 <= k < s.len(),
    ensures
        digits_to_nat(s.subrange(0, k)) <= digits_to_nat(s.subrange(0, k + 1)),
{
    let p = s.subrange(0, k);
    let q = s.subrange(0, k + 1);
    assert(q.drop_last() =~= p);
    assert(digits_to_nat(q) == digits_to_nat(p) * 10 + digit_val(q.last()));
    assert(digits_to_nat(p) * 10 >= digits_to_nat(p)) by (nonlinear_arith);
}

/// The value of a digit sequence never falls below the value of any of its
/// prefixes.
pub proof fn lemma_digits_prefix_le(s: Seq<char>, k: int)
    requires
        0 <= k <= s.len(),
    ensures
        digits_to_nat(s.subrange(0, k)) <= digits_to_nat(s),
    decreases s.len() - k,
{
    if k == s.len() {
        assert(s.subrange(0, k) =~= s);
    } else {
        lemma_digits_extend(s, k);
        lemma_digits_prefix_le(s, k + 1);
    }
}

/// The digit character of a value below ten, executable.
pub fn digit_to_char(d: u64) -> (c: char)
    requires
        d < 10,
    ensures
        c == digit_char(d as nat),
{
    if d == 0 {
        '0'
    } else if d == 1 {
        '1'
    } else if d == 2 {
        '2'
    } else if d == 3 {
        '3'
    } else if d == 4 {
        '4'
    } else if d == 5 {
        '5'
    } else if d == 6 {
        '6'
    } else if d == 7 {
        '7'
    } else if d == 8 {
        '8'
    } else {
        '9'
    }
}

/// The value of one ASCII digit character, executable.
pub fn char_digit_value(c: char) -> (d: u64)
    requires
        is_ascii_digit(c),
    ensures
        d == digit_val(c),
        d < 10,
{
    (c as u32 - '0' as u32) as u64
}

/// Reads the number denoted by the characters `v[start..end]`.
///
/// Returns the value exactly when the slice is a nonempty run of ASCII
/// digits whose value fits in a `u64`; returns nothing otherwise.
pub fn parse_u64(v: &Vec<char>, start: usize, end: usize) -> (r: Option<u64>)
    requires
        start <= end <= v@.len(),
    ensures
        ({
            let text = v@.subrange(start as int, end as int);
            match r {
                Some(x) => {
                    &&& text.len() >= 1
                    &&& all_digits(text)
                    &&& digits_to_nat(text) <= u64::MAX
                    &&& x == digits_to_nat(text)
                },
                None => text.len() == 0 || !all_digits(text) || digits_to_nat(text) > u64::MAX,
            }
        }),
{
    let ghost text = v@.subrange(start as int, end as int);
    if start == end {
        return None;
    }
    let mut val: u64 = 0;
    let mut i: usize = start;
    while i < end
        invariant
            start <= i <= end <= v@.len(),
            text == v@.subrange(start as int, end as int),
            all_digits(text.subrange(0, i - start)),
            val == digits_to_nat(text.subrange(0, i - start)),
        decreases end - i,
    {
        let c = v[i];
        proof {
            assert(text[i - start] == v@[i as int]);
        }
        if !crate::chars::char_is_ascii_digit(c) {
            proof {
                assert(!is_ascii_digit(text[i - start]));
            }
            return None;
        }
        let d = char_digit_value(c);
        let ghost k = i - start;
        proof {
            assert(text.subrange(0, k + 1).drop_last() =~= text.subrange(0, k));
            assert(text.subrange(0, k + 1).last() == text[k]);
        }
        let scaled = match val.checked_mul(10) {
            Some(x) => x,
            None => {
                proof {
                    lemma_digits_prefix_le(text, k + 1);
                }
                return None;
            },
        };
        let next = match scaled.checked_add(d) {
            Some(x) => x,
            None => {
                proof {
                    lemma_digits_prefix_le(text, k + 1);
                }
                return None;
            },
        };
        val = next;
        i = i + 1;
        proof {
            assert forall|j: int| 0 <= j < k + 1 implies is_ascii_digit(
                #[trigger] text.subrange(0, k + 1)[j],
            ) by {
                if j < k {
                    assert(text.subrange(0, k + 1)[j] == text.subrange(0, k)[j]);
                } else {
                    assert(text.subrange(0, k + 1)[j] == text[k]);
                }
            }
        }
    }
    proof {
        assert(text.subrange(0, end - start) =~= text);
    }
    Some(val)
}

/// Appends the canonical decimal rendering of `n` to `out`.
pub fn write_u64(n: u64, out: &mut Vec<char>)
    ensures
        final(out)@ == old(out)@ + nat_to_digits(n as nat),
    decreases n,
{
    if n < 10 {
        out.push(digit_to_char(n));
    } else {
        let ghost pre = out@;
        write_u64(n / 10, out);
        out.push(digit_to_char(n % 10));
        proof {
            assert((n as nat) / 10 == (n / 10) as nat);
            assert((n as nat) % 10 == (n % 10) as nat);
            assert(pre + nat_to_digits((n / 10) as nat) + seq![digit_char((n % 10) as nat)]
                =~= pre + nat_to_digits(n as nat));
        }
    }
}

} // verus!
