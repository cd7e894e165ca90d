//! Decimal digit strings.
//!
//! The wire format writes every number in plain decimal. This module defines
//! the canonical decimal form of a natural number ([`dec_of`]), a fixed-width
//! zero-padded form ([`padded_dec`]), the value of a digit string
//! ([`val_of`]), and executable writers and parsers proved to match them
//! exactly.

use vstd::prelude::*;

verus! {

/// Whether a byte is an ASCII decimal digit.
pub open spec fn is_digit(b: u8) -> bool {
    48 <= b <= 57
}

/// The canonical decimal form of `n`: most significant digit first, no
/// leading zeros (the number zero is the single digit `0`).
pub open spec fn dec_of(n: nat) -> Seq<u8>
    decreases n,
{
    if n < 10 {
        seq![(48 + n) as u8]
    } else {
        dec_of(n / 10) + seq![(48 + n % 10) as u8]
    }
}

/// The decimal form of `n` padded with leading zeros to exactly `width`
/// digits. Digits above the width are dropped, so this is canonical only for
/// `n < pow10(width)`.
pub open spec fn padded_dec(n: nat, width: nat) -> Seq<u8>
    decreases width,
{
    if width == 0 {
        Seq::empty()
    } else {
        padded_dec(n / 10, (width - 1) as nat) + seq![(48 + n % 10) as u8]
    }
}

/// The numeric value of a digit string, read most significant digit first.
pub open spec fn val_of(s: Seq<u8>) -> int
    decreases s.len(),
{
    if s.len() == 0 {
        0
    } else {
        val_of(s.drop_last()) * 10 + (s.last() - 48)
    }
}

/// Ten to the power `k`.
pub open spec fn pow10(k: nat) -> nat
    decreases k,
{
    if k == 0 {
        1
    } else {
        10 * pow10((k - 1) as nat)
    }
}

/// `pow10` at the widths the wire format uses.
pub proof fn lemma_pow10_9()
    ensures
        pow10(9) == 1_000_000_000,
{
    reveal_with_fuel(pow10, 10);
}

/// Appending one digit multiplies the value by ten and adds the digit.
pub proof fn lemma_val_of_snoc(s: Seq<u8>, b: u8)
    ensures
        val_of(s.push(b)) == val_of(s) * 10 + (b - 48),
{
    assert(s.push(b).drop_last() =~= s);
    assert(s.push(b).last() == b);
}

/// The canonical form is nonempty, consists of digits, and has no leading
/// zero unless it is the single digit `0`.
pub proof fn lemma_dec_of_shape(n: nat)
    ensures
        1 <= dec_of(n).len(),
        forall|j: int| 0 <= j < dec_of(n).len() ==> is_digit(#[trigger] dec_of(n)[j]),
        n >= 1 ==> dec_of(n)[0] != 48,
        n == 0 ==> dec_of(n) == seq![48u8],
        n < 10 ==> dec_of(n).len() == 1,
    decreases n,
{
    if n < 10 {
    } else {
        lemma_dec_of_shape(n / 10);
        assert(dec_of(n) == dec_of(n / 10) + seq![(48 + n % 10) as u8]);
        assert(dec_of(n)[0] == dec_of(n / 10)[0]);
        assert forall|j: int| 0 <= j < dec_of(n).len() implies is_digit(#[trigger] dec_of(n)[j]) by {
            if j < dec_of(n / 10).len() {
                assert(dec_of(n)[j] == dec_of(n / 10)[j]);
            } else {
                assert(dec_of(n)[j] == (48 + n % 10) as u8);
            }
        }
    }
}

/// Reading back the canonical form of `n` yields `n`.
pub proof fn lemma_val_of_dec_of(n: nat)
    ensures
        val_of(dec_of(n)) == n,
    decreases n,
{
    if n < 10 {
        assert(dec_of(n) == seq![(48 + n) as u8]);
        assert(dec_of(n).drop_last() =~= Seq::<u8>::empty());
        assert(val_of(Seq::<u8>::empty()) == 0);
        assert(dec_of(n).last() == (48 + n) as u8);
    } else {
        lemma_val_of_dec_of(n / 10);
        lemma_val_of_snoc(dec_of(n / 10), (48 + n % 10) as u8);
        assert(dec_of(n) == dec_of(n / 10).push((48 + n % 10) as u8));
        vstd::arithmetic::div_mod::lemma_fundamental_div_mod(n as int, 10);
    }
}

/// Two numbers with the same canonical form are equal.
pub proof fn lemma_dec_of_injective(a: nat, b: nat)
    requires
        dec_of(a) == dec_of(b),
    ensures
        a == b,
{
    lemma_val_of_dec_of(a);
    lemma_val_of_dec_of(b);
}

/// A digit string's value is nonnegative and below ten to its length.
pub proof fn lemma_val_of_bounds(s: Seq<u8>)
    requires
        forall|j: int| 0 <= j < s.len() ==> is_digit(#[trigger] s[j]),
    ensures
        0 <= val_of(s) < pow10(s.len() as nat),
    decreases s.len(),
{
    if s.len() == 0 {
    } else {
        assert forall|j: int| 0 <= j < s.drop_last().len() implies is_digit(
            #[trigger] s.drop_last()[j],
        ) by {
            assert(s.drop_last()[j] == s[j]);
        }
        lemma_val_of_bounds(s.drop_last());
        assert(is_digit(s.last()));
        assert(pow10(s.len() as nat) == 10 * pow10((s.len() - 1) as nat));
    }
}

/// A digit string with a nonzero leading digit has value at least one.
pub proof fn lemma_val_of_leading_nonzero(s: Seq<u8>)
    requires
        s.len() >= 1,
        forall|j: int| 0 <= j < s.len() ==> is_digit(#[trigger] s[j]),
        s[0] != 48,
    ensures
        val_of(s) >= 1,
    decreases s.len(),
{
    if s.len() == 1 {
        assert(s.drop_last() =~= Seq::<u8>::empty());
        assert(s.last() == s[0]);
        assert(val_of(Seq::<u8>::empty()) == 0);
        assert(is_digit(s[0]));
    } else {
        assert forall|j: int| 0 <= j < s.drop_last().len() implies is_digit(
            #[trigger] s.drop_last()[j],
        ) by {
            assert(s.drop_last()[j] == s[j]);
        }
        assert(s.drop_last()[0] == s[0]);
        lemma_val_of_leading_nonzero(s.drop_last());
        assert(is_digit(s.last()));
    }
}

/// A nonempty digit string without a leading zero is the canonical form of
/// its own value.
pub proof fn lemma_dec_of_val_of(s: Seq<u8>)
    requires
        s.len() >= 1,
        forall|j: int| 0 <= j < s.len() ==> is_digit(#[trigger] s[j]),
        s.len() > 1 ==> s[0] != 48,
    ensures
        0 <= val_of(s),
        dec_of(val_of(s) as nat) == s,
    decreases s.len(),
{
    lemma_val_of_bounds(s);
    if s.len() == 1 {
        assert(s.drop_last() =~= Seq::<u8>::empty());
        assert(s.last() == s[0]);
        assert(val_of(Seq::<u8>::empty()) == 0);
        assert(val_of(s) == s[0] - 48);
        assert(is_digit(s[0]));
        assert(dec_of((s[0] - 48) as nat) == seq![s[0]]);
        assert(s =~= seq![s[0]]);
    } else {
        let b = s.drop_last();
        assert forall|j: int| 0 <= j < b.len() implies is_digit(#[trigger] b[j]) by {
            assert(b[j] == s[j]);
        }
        assert(b[0] == s[0]);
        lemma_dec_of_val_of(b);
        lemma_val_of_leading_nonzero(b);
        let v = val_of(s);
        let vb = val_of(b);
        let d = s.last() - 48;
        assert(is_digit(s.last()));
        assert(v == vb * 10 + d);
        vstd::arithmetic::div_mod::lemma_fundamental_div_mod_converse(v, 10, vb, d);
        assert(v / 10 == vb && v % 10 == d);
        assert(v >= 10);
        assert(dec_of(v as nat) == dec_of((v as nat) / 10) + seq![(48 + (v as nat) % 10) as u8]);
        assert((v as nat) / 10 == vb as nat);
        assert(dec_of(v as nat) == dec_of(vb as nat) + seq![(48 + (v as nat) % 10) as u8]);
        assert((48 + (v as nat) % 10) as u8 == s.last());
        assert(dec_of(v as nat) =~= s);
    }
}

/// Every prefix of the canonical form of `n` has value at most `n`.
pub proof fn lemma_dec_prefix_bound(n: nat, j: int)
    requires
        0 <= j <= dec_of(n).len(),
    ensures
        val_of(dec_of(n).take(j)) <= n,
    decreases n,
{
    lemma_dec_of_shape(n);
    if j == dec_of(n).len() {
        assert(dec_of(n).take(j) =~= dec_of(n));
        lemma_val_of_dec_of(n);
    } else if n < 10 {
        assert(dec_of(n).take(j) =~= Seq::<u8>::empty());
    } else {
        assert(dec_of(n) == dec_of(n / 10) + seq![(48 + n % 10) as u8]);
        lemma_dec_of_shape(n / 10);
        assert(dec_of(n).take(j) =~= dec_of(n / 10).take(j));
        lemma_dec_prefix_bound(n / 10, j);
    }
}

/// The padded form has exactly the requested width and consists of digits.
pub proof fn lemma_padded_shape(n: nat, width: nat)
    ensures
        padded_dec(n, width).len() == width,
        forall|j: int| 0 <= j < width ==> is_digit(#[trigger] padded_dec(n, width)[j]),
    decreases width,
{
    if width == 0 {
    } else {
        lemma_padded_shape(n / 10, (width - 1) as nat);
        assert forall|j: int| 0 <= j < width implies is_digit(#[trigger] padded_dec(n, width)[j]) by {
            if j < width - 1 {
                assert(padded_dec(n, width)[j] == padded_dec(n / 10, (width - 1) as nat)[j]);
            } else {
                assert(padded_dec(n, width)[j] == (48 + n % 10) as u8);
            }
        }
    }
}

/// Reading back the padded form of `n` yields `n`, provided `n` fits in the
/// width.
pub proof fn lemma_val_of_padded(n: nat, width: nat)
    requires
        n < pow10(width),
    ensures
        val_of(padded_dec(n, width)) == n,
    decreases width,
{
    if width == 0 {
        assert(padded_dec(n, width) =~= Seq::<u8>::empty());
    } else {
        vstd::arithmetic::div_mod::lemma_fundamental_div_mod(n as int, 10);
        assert(pow10(width) == 10 * pow10((width - 1) as nat));
        assert(n / 10 < pow10((width - 1) as nat));
        lemma_val_of_padded(n / 10, (width - 1) as nat);
        lemma_val_of_snoc(padded_dec(n / 10, (width - 1) as nat), (48 + n % 10) as u8);
        assert(padded_dec(n, width) == padded_dec(n / 10, (width - 1) as nat).push(
            (48 + n % 10) as u8,
        ));
    }
}

/// Any digit string is the padded form, at its own width, of its value.
pub proof fn lemma_padded_of_val(s: Seq<u8>)
    requires
        forall|j: int| 0 <= j < s.len() ==> is_digit(#[trigger] s[j]),
    ensures
        0 <= val_of(s),
        padded_dec(val_of(s) as nat, s.len() as nat) == s,
    decreases s.len(),
{
    lemma_val_of_bounds(s);
    if s.len() == 0 {
        assert(padded_dec(0, 0) =~= Seq::<u8>::empty());
        assert(s =~= Seq::<u8>::empty());
    } else {
        let b = s.drop_last();
        assert forall|j: int| 0 <= j < b.len() implies is_digit(#[trigger] b[j]) by {
            assert(b[j] == s[j]);
        }
        lemma_padded_of_val(b);
        let v = val_of(s);
        let vb = val_of(b);
        let d = s.last() - 48;
        assert(is_digit(s.last()));
        assert(v == vb * 10 + d);
        vstd::arithmetic::div_mod::lemma_fundamental_div_mod_converse(v, 10, vb, d);
        assert(padded_dec(v as nat, s.len() as nat) == padded_dec((v as nat) / 10, (s.len()
            - 1) as nat) + seq![(48 + (v as nat) % 10) as u8]);
        assert((v as nat) / 10 == vb as nat);
        assert((48 + (v as nat) % 10) as u8 == s.last());
        assert(padded_dec(v as nat, s.len() as nat) =~= s);
    }
}

/// Append the canonical decimal form of `n` to `out`.
pub fn push_dec(n: u64, out: &mut Vec<u8>)
    ensures
        final(out)@ == old(out)@ + dec_of(n as nat),
    decreases n,
{
    if n >= 10 {
        push_dec(n / 10, out);
    }
    let d: u8 = 48 + (n % 10) as u8;
    out.push(d);
    proof {
        assert(out@ =~= old(out)@ + dec_of(n as nat));
    }
}

/// Append the decimal form of `n`, zero-padded to `width` digits, to `out`.
pub fn push_padded(n: u32, width: u8, out: &mut Vec<u8>)
    ensures
        final(out)@ == old(out)@ + padded_dec(n as nat, width as nat),
    decreases width,
{
    if width == 0 {
        proof {
            assert(out@ =~= old(out)@ + padded_dec(n as nat, 0));
        }
    } else {
        push_padded(n / 10, width - 1, out);
        let d: u8 = 48 + (n % 10) as u8;
        out.push(d);
        proof {
            assert(out@ =~= old(out)@ + padded_dec(n as nat, width as nat));
        }
    }
}

/// Parse `s[from..to]` as the canonical decimal form of a `u64`.
///
/// Succeeds exactly when those bytes are `dec_of(n)` for some `u64` value
/// `n`: nonempty, all digits, no leading zero, and small enough to fit.
#[verifier::loop_isolation(false)]
pub fn parse_dec_u64(s: &Vec<u8>, from: usize, to: usize) -> (r: Option<u64>)
    requires
        from <= to <= s.len(),
    ensures
        match r {
            Some(n) => s@.subrange(from as int, to as int) == dec_of(n as nat),
            None => forall|n: u64| s@.subrange(from as int, to as int) != dec_of(n as nat),
        },
{
    let ghost p = s@.subrange(from as int, to as int);
    if from == to {
        proof {
            assert forall|n: u64| p != dec_of(n as nat) by {
                lemma_dec_of_shape(n as nat);
            }
        }
        return None;
    }
    if s[from] == 48 && to - from > 1 {
        proof {
            assert forall|n: u64| p != dec_of(n as nat) by {
                lemma_dec_of_shape(n as nat);
                if p == dec_of(n as nat) {
                    assert(dec_of(n as nat)[0] == 48);
                    assert(n == 0);
                }
            }
        }
        return None;
    }
    let mut acc: u64 = 0;
    let mut i: usize = from;
    while i < to
        invariant
            from <= i <= to,
            forall|j: int| from <= j < i ==> is_digit(#[trigger] s@[j]),
            acc == val_of(s@.subrange(from as int, i as int)),
        decreases to - i,
    {
        let b = s[i];
        if b < 48 || b > 57 {
            proof {
                assert forall|n: u64| p != dec_of(n as nat) by {
                    if p == dec_of(n as nat) {
                        lemma_dec_of_shape(n as nat);
                        assert(is_digit(dec_of(n as nat)[i - from]));
                    }
                }
            }
            return None;
        }
        let d = (b - 48) as u64;
        proof {
            lemma_val_of_snoc(s@.subrange(from as int, i as int), b);
            assert(s@.subrange(from as int, i as int + 1) =~= s@.subrange(
                from as int,
                i as int,
            ).push(b));
        }
        if acc > (u64::MAX - d) / 10 {
            proof {
                vstd::arithmetic::div_mod::lemma_fundamental_div_mod((u64::MAX - d) as int, 10);
                assert(acc * 10 + d > u64::MAX);
                assert forall|n: u64| p != dec_of(n as nat) by {
                    if p == dec_of(n as nat) {
                        lemma_dec_prefix_bound(n as nat, i + 1 - from);
                        assert(p.take(i + 1 - from) =~= s@.subrange(from as int, i as int + 1));
                        assert(val_of(s@.subrange(from as int, i as int + 1)) <= n);
                    }
                }
            }
            return None;
        }
        proof {
            vstd::arithmetic::div_mod::lemma_fundamental_div_mod((u64::MAX - d) as int, 10);
            assert(acc * 10 + d <= u64::MAX);
        }
        acc = acc * 10 + d;
        i = i + 1;
    }
    proof {
        assert(p == s@.subrange(from as int, to as int));
        lemma_dec_of_val_of(p);
    }
    Some(acc)
}

/// Parse `s[from..from + 9]` as a nine-digit zero-padded decimal.
///
/// Succeeds exactly when those nine bytes are all digits; the value is then
/// below one billion.
#[verifier::loop_isolation(false)]
pub fn parse_padded_u32(s: &Vec<u8>, from: usize) -> (r: Option<u32>)
    requires
        from + 9 <= s.len(),
    ensures
        match r {
            Some(n) => n < 1_000_000_000 && s@.subrange(from as int, from as int + 9)
                == padded_dec(n as nat, 9),
            None => forall|n: u32|
                n < 1_000_000_000 ==> s@.subrange(from as int, from as int + 9)
                    != #[trigger] padded_dec(n as nat, 9),
        },
{
    let ghost p = s@.subrange(from as int, from as int + 9);
    let mut acc: u32 = 0;
    let mut k: usize = 0;
    while k < 9
        invariant
            0 <= k <= 9,
            forall|j: int| from <= j < from + k ==> is_digit(#[trigger] s@[j]),
            acc == val_of(s@.subrange(from as int, from as int + k)),
            acc < pow10(k as nat),
        decreases 9 - k,
    {
        let b = s[from + k];
        if b < 48 || b > 57 {
            proof {
                assert forall|n: u32| n < 1_000_000_000 implies p != #[trigger] padded_dec(
                    n as nat,
                    9,
                ) by {
                    if p == padded_dec(n as nat, 9) {
                        lemma_padded_shape(n as nat, 9);
                        assert(is_digit(padded_dec(n as nat, 9)[k as int]));
                    }
                }
            }
            return None;
        }
        let d = (b - 48) as u32;
        proof {
            lemma_val_of_snoc(s@.subrange(from as int, from as int + k), b);
            assert(s@.subrange(from as int, from as int + k + 1) =~= s@.subrange(
                from as int,
                from as int + k,
            ).push(b));
            reveal_with_fuel(pow10, 10);
        }
        acc = acc * 10 + d;
        k = k + 1;
    }
    proof {
        assert(p == s@.subrange(from as int, from as int + 9));
        assert forall|j: int| 0 <= j < p.len() implies is_digit(#[trigger] p[j]) by {
            assert(p[j] == s@[from + j]);
        }
        lemma_padded_of_val(p);
        lemma_pow10_9();
    }
    Some(acc)
}

} // verus!
