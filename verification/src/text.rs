//! Building bucket-key text: decimal numbers, zero padding, and the one
//! string-building primitive the library takes on trust.

use vstd::prelude::*;

verus! {

/// Relies on `String::push`, which appends the given character to the end
/// of the string.
#[verifier::external_body]
pub(crate) fn string_push(s: &mut String, c: char)
    ensures
        final(s)@ == old(s)@.push(c),
{
    s.push(c);
}

/// The decimal digit character for `d`, which must be below ten.
pub open spec fn digit_char(d: nat) -> char {
    ((('0' as u8) + d) as u8) as char
}

/// The decimal digit string of `n`, most significant digit first, no
/// leading zeroes (a single zero for zero itself).
pub open spec fn dec_digits(n: nat) -> Seq<char>
    decreases n,
{
    if n < 10 {
        seq![digit_char(n)]
    } else {
        dec_digits(n / 10).push(digit_char(n % 10))
    }
}

/// `k` zero characters.
pub open spec fn zeroes(k: nat) -> Seq<char>
    decreases k,
{
    if k == 0 {
        Seq::empty()
    } else {
        zeroes((k - 1) as nat).push('0')
    }
}

/// The decimal digit string of `n`, left-padded with zeroes to at least
/// `width` characters.
pub open spec fn padded(n: nat, width: nat) -> Seq<char> {
    let d = dec_digits(n);
    if d.len() >= width {
        d
    } else {
        zeroes((width - d.len()) as nat) + d
    }
}

/// Appends the decimal digits of `n`.
pub fn push_dec(s: &mut String, n: u64)
    ensures
        final(s)@ == old(s)@ + dec_digits(n as nat),
    decreases n,
{
    if n >= 10 {
        push_dec(s, n / 10);
    }
    let d: u8 = (n % 10) as u8;
    string_push(s, (48 + d) as char);
    proof {
        if n >= 10 {
            assert(s@ =~= old(s)@ + dec_digits(n as nat));
        } else {
            assert(s@ =~= old(s)@ + dec_digits(n as nat));
        }
    }
}

pub open spec fn pow10(k: nat) -> nat
    decreases k,
{
    if k == 0 {
        1
    } else {
        10 * pow10((k - 1) as nat)
    }
}

proof fn lemma_dec_digits_len_at_most(n: nat, k: nat)
    requires
        1 <= k,
        n < pow10(k),
    ensures
        dec_digits(n).len() <= k,
    decreases k,
{
    if n >= 10 {
        if k == 1 {
            assert(pow10(1) == 10) by {
                reveal_with_fuel(pow10, 2);
            }
            assert(false);
        }
        assert(n / 10 < pow10((k - 1) as nat)) by (nonlinear_arith)
            requires
                n < 10 * pow10((k - 1) as nat),
        ;
        lemma_dec_digits_len_at_most(n / 10, (k - 1) as nat);
    }
}

/// A 64-bit value never takes more than twenty decimal digits.
pub proof fn lemma_dec_digits_len_u64(n: nat)
    requires
        n < 0x10000000000000000,
    ensures
        dec_digits(n).len() <= 20,
{
    assert(pow10(20) == 100000000000000000000) by {
        reveal_with_fuel(pow10, 21);
    }
    lemma_dec_digits_len_at_most(n, 20);
}

/// The number of decimal digits of `n`.
pub fn dec_len(n: u64) -> (r: usize)
    ensures
        r == dec_digits(n as nat).len(),
    decreases n,
{
    if n < 10 {
        1
    } else {
        let inner = dec_len(n / 10);
        proof {
            lemma_dec_digits_len_u64((n / 10) as nat);
        }
        inner + 1
    }
}

/// Appends the decimal digits of `n`, zero-padded to at least `width`
/// characters.
pub fn push_padded(s: &mut String, n: u64, width: usize)
    ensures
        final(s)@ == old(s)@ + padded(n as nat, width as nat),
{
    let digits = dec_len(n);
    let mut k: usize = 0;
    let ghost mid = s@;
    while digits + k < width
        invariant
            digits == dec_digits(n as nat).len(),
            digits + k <= width || k == 0,
            s@ == mid + zeroes(k as nat),
        decreases width - k,
    {
        string_push(s, '0');
        proof {
            assert(zeroes((k + 1) as nat) == zeroes(k as nat).push('0'));
            assert(s@ =~= mid + zeroes((k + 1) as nat));
        }
        k = k + 1;
    }
    push_dec(s, n);
    proof {
        if dec_digits(n as nat).len() >= width {
            assert(zeroes(0) =~= Seq::<char>::empty());
            assert(s@ =~= mid + padded(n as nat, width as nat));
        } else {
            assert(k == width - digits);
            assert(s@ =~= mid + padded(n as nat, width as nat));
        }
    }
}

} // verus!
