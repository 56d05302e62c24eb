//! Decimal and hexadecimal digit codecs used by the query parser and the
//! bencode encoder.
use vstd::prelude::*;

verus! {

/// Decimal representation of `n`, most significant digit first, no sign and
/// no leading zeros (the representation of 0 is "0").
pub open spec fn dec_digits(n: nat) -> Seq<u8>
    decreases n,
{
    if n < 10 {
        seq![(n + 0x30) as u8]
    } else {
        dec_digits(n / 10).push((n % 10 + 0x30) as u8)
    }
}

pub open spec fn is_dec_digit(b: u8) -> bool {
    0x30 <= b <= 0x39
}

pub open spec fn all_dec_digits(s: Seq<u8>) -> bool {
    forall|i: int| 0 <= i < s.len() ==> is_dec_digit(#[trigger] s[i])
}

/// Numeric value of a digit string, most significant digit first.
pub open spec fn dec_value(s: Seq<u8>) -> nat
    decreases s.len(),
{
    if s.len() == 0 {
        0
    } else {
        dec_value(s.drop_last()) * 10 + (s.last() - 0x30) as nat
    }
}

/// A byte string parses as an unsigned decimal number iff it is one or more
/// decimal digits and nothing else.
pub open spec fn dec_parses(s: Seq<u8>) -> bool {
    s.len() >= 1 && all_dec_digits(s)
}

/// Appends the decimal digits of `n` to `out`.
pub fn push_dec_u64(n: u64, out: &mut Vec<u8>)
    ensures
        final(out)@ == old(out)@ + dec_digits(n as nat),
    decreases n,
{
    if n < 10 {
        out.push((n as u8) + 0x30);
        proof {
            assert(out@ =~= old(out)@ + dec_digits(n as nat));
        }
    } else {
        push_dec_u64(n / 10, out);
        out.push(((n % 10) as u8) + 0x30);
        proof {
            assert(out@ =~= old(out)@ + dec_digits(n as nat));
        }
    }
}

/// The digits of `n` are always decimal digits.
pub proof fn lemma_dec_digits_are_digits(n: nat)
    ensures
        all_dec_digits(dec_digits(n)),
        dec_digits(n).len() >= 1,
    decreases n,
{
    if n >= 10 {
        lemma_dec_digits_are_digits(n / 10);
    }
}

/// Emitting a number and reading the digit string back yields the number.
pub proof fn lemma_dec_round_trip(n: nat)
    ensures
        dec_parses(dec_digits(n)),
        dec_value(dec_digits(n)) == n,
    decreases n,
{
    lemma_dec_digits_are_digits(n);
    if n < 10 {
        assert(dec_digits(n).drop_last() =~= Seq::<u8>::empty());
        assert(dec_value(Seq::<u8>::empty()) == 0);
        assert(dec_digits(n).last() == (n + 0x30) as u8);
        assert(dec_value(dec_digits(n)) == 0 * 10 + ((n + 0x30) as u8 - 0x30) as nat);
    } else {
        lemma_dec_round_trip(n / 10);
        assert(dec_digits(n).drop_last() =~= dec_digits(n / 10));
        assert(dec_digits(n).last() == (n % 10 + 0x30) as u8);
        assert(((n % 10 + 0x30) as u8 - 0x30) as nat == n % 10);
        assert(dec_value(dec_digits(n)) == (n / 10) * 10 + n % 10);
        assert((n / 10) * 10 + n % 10 == n) by {
            vstd::arithmetic::div_mod::lemma_fundamental_div_mod(n as int, 10);
        }
    }
}

/// The value of a digit string grows (weakly) as digits are appended.
pub proof fn lemma_dec_value_prefix(s: Seq<u8>, i: int)
    requires
        0 <= i <= s.len(),
    ensures
        dec_value(s.take(i)) <= dec_value(s),
    decreases s.len() - i,
{
    if i < s.len() {
        lemma_dec_value_prefix(s, i + 1);
        assert(s.take(i + 1).drop_last() =~= s.take(i));
        assert(dec_value(s.take(i + 1)) == dec_value(s.take(i)) * 10 + (s.take(i + 1).last()
            - 0x30) as nat) by {
            assert(s.take(i + 1).len() == i + 1);
        }
    } else {
        assert(s.take(i) =~= s);
    }
}

/// Parses an unsigned decimal number; `None` when the string is empty, holds
/// a non-digit, or its value exceeds `u64::MAX`.
pub fn parse_dec_u64(s: &[u8]) -> (r: Option<u64>)
    ensures
        match r {
            Some(v) => dec_parses(s@) && dec_value(s@) == v,
            None => !dec_parses(s@) || dec_value(s@) > u64::MAX,
        },
{
    if s.len() == 0 {
        return None;
    }
    let mut acc: u64 = 0;
    let mut i: usize = 0;
    while i < s.len()
        invariant
            0 <= i <= s@.len(),
            all_dec_digits(s@.take(i as int)),
            acc == dec_value(s@.take(i as int)),
        decreases s@.len() - i,
    {
        let b = s[i];
        if b < 0x30 || b > 0x39 {
            return None;
        }
        let d: u64 = (b - 0x30) as u64;
        proof {
            assert(s@.take(i + 1).drop_last() =~= s@.take(i as int));
        }
        let acc10 = match acc.checked_mul(10) {
            Some(v) => v,
            None => {
                proof {
                    lemma_dec_value_prefix(s@, i + 1);
                }
                return None;
            },
        };
        acc = match acc10.checked_add(d) {
            Some(v) => v,
            None => {
                proof {
                    lemma_dec_value_prefix(s@, i + 1);
                }
                return None;
            },
        };
        i = i + 1;
    }
    proof {
        assert(s@.take(s@.len() as int) =~= s@);
    }
    Some(acc)
}

/// Value of a hexadecimal digit; 16 marks a byte that is no hex digit.
pub open spec fn hex_digit_val(b: u8) -> nat {
    if 0x30 <= b <= 0x39 {
        (b - 0x30) as nat
    } else if 0x61 <= b <= 0x66 {
        (b - 0x61 + 10) as nat
    } else if 0x41 <= b <= 0x46 {
        (b - 0x41 + 10) as nat
    } else {
        16
    }
}

pub open spec fn is_hex_digit(b: u8) -> bool {
    hex_digit_val(b) < 16
}

pub open spec fn all_hex_digits(s: Seq<u8>) -> bool {
    forall|i: int| 0 <= i < s.len() ==> is_hex_digit(#[trigger] s[i])
}

/// Numeric value of a hex digit string, most significant digit first.
pub open spec fn hex_value(s: Seq<u8>) -> nat
    decreases s.len(),
{
    if s.len() == 0 {
        0
    } else {
        hex_value(s.drop_last()) * 16 + hex_digit_val(s.last())
    }
}

/// Lowercase hex digit for a value below 16.
pub open spec fn hex_digit_of(v: nat) -> u8
    recommends
        v < 16,
{
    if v < 10 {
        (v + 0x30) as u8
    } else {
        (v - 10 + 0x61) as u8
    }
}

/// The `k` low hex digits of `n`, most significant first, zero padded.
pub open spec fn hex_pad_digits(n: nat, k: nat) -> Seq<u8>
    decreases k,
{
    if k == 0 {
        Seq::empty()
    } else {
        hex_pad_digits(n / 16, (k - 1) as nat).push(hex_digit_of(n % 16))
    }
}

/// The four lowercase hex digits of a 16-bit group, most significant first.
pub open spec fn hex4_digits(n: u16) -> Seq<u8> {
    hex_pad_digits(n as nat, 4)
}

pub fn hex_digit_byte(v: u8) -> (r: u8)
    requires
        v < 16,
    ensures
        r == hex_digit_of(v as nat),
{
    if v < 10 {
        v + 0x30
    } else {
        v - 10 + 0x61
    }
}

fn push_hex_pad(n: u16, k: usize, out: &mut Vec<u8>)
    ensures
        final(out)@ == old(out)@ + hex_pad_digits(n as nat, k as nat),
    decreases k,
{
    if k > 0 {
        push_hex_pad(n / 16, k - 1, out);
        out.push(hex_digit_byte((n % 16) as u8));
    }
    proof {
        assert(out@ =~= old(out)@ + hex_pad_digits(n as nat, k as nat));
    }
}

/// Appends the four hex digits of `n` to `out`.
pub fn push_hex4(n: u16, out: &mut Vec<u8>)
    ensures
        final(out)@ == old(out)@ + hex4_digits(n),
{
    push_hex_pad(n, 4, out);
}

proof fn lemma_hex_digit_of_val(v: nat)
    requires
        v < 16,
    ensures
        is_hex_digit(hex_digit_of(v)),
        hex_digit_val(hex_digit_of(v)) == v,
{
}

/// Reading back `k` padded hex digits of a value below `16^k` recovers it.
proof fn lemma_hex_pad_round_trip(n: nat, k: nat, bound: nat)
    requires
        bound == vstd::arithmetic::power::pow(16, k),
        n < bound,
    ensures
        hex_pad_digits(n, k).len() == k,
        all_hex_digits(hex_pad_digits(n, k)),
        hex_value(hex_pad_digits(n, k)) == n,
    decreases k,
{
    reveal(vstd::arithmetic::power::pow);
    vstd::arithmetic::power::lemma_pow_positive(16, k);
    if k == 0 {
        assert(vstd::arithmetic::power::pow(16, 0) == 1);
    } else {
        let sub: nat = vstd::arithmetic::power::pow(16, (k - 1) as nat) as nat;
        assert(vstd::arithmetic::power::pow(16, k) == 16 * sub);
        assert(n / 16 < sub) by {
            vstd::arithmetic::div_mod::lemma_multiply_divide_lt(n as int, 16, sub as int);
        }
        lemma_hex_pad_round_trip(n / 16, (k - 1) as nat, sub);
        lemma_hex_digit_of_val(n % 16);
        let s = hex_pad_digits(n, k);
        assert(s.drop_last() =~= hex_pad_digits(n / 16, (k - 1) as nat));
        assert(forall|i: int| 0 <= i < s.len() - 1 ==> #[trigger] s[i] == s.drop_last()[i]);
    }
}

/// Reading back the four emitted hex digits recovers the group value.
pub proof fn lemma_hex4_round_trip(n: u16)
    ensures
        hex4_digits(n).len() == 4,
        all_hex_digits(hex4_digits(n)),
        hex_value(hex4_digits(n)) == n,
{
    assert(vstd::arithmetic::power::pow(16, 4) == 0x10000) by {
        reveal_with_fuel(vstd::arithmetic::power::pow, 5);
    }
    lemma_hex_pad_round_trip(n as nat, 4, 0x10000);
}

/// Parses a hex digit string of one to four digits into a 16-bit group.
pub fn parse_hex_group(s: &[u8]) -> (r: Option<u16>)
    ensures
        match r {
            Some(v) => 1 <= s@.len() <= 4 && all_hex_digits(s@) && hex_value(s@) == v,
            None => !(1 <= s@.len() <= 4 && all_hex_digits(s@)),
        },
{
    if s.len() == 0 || s.len() > 4 {
        return None;
    }
    let mut acc: u32 = 0;
    let mut i: usize = 0;
    while i < s.len()
        invariant
            0 <= i <= s@.len(),
            s@.len() <= 4,
            all_hex_digits(s@.take(i as int)),
            acc == hex_value(s@.take(i as int)),
            acc < 0x10000,
        decreases s@.len() - i,
    {
        let b = s[i];
        let d: u32 = if 0x30 <= b && b <= 0x39 {
            (b - 0x30) as u32
        } else if 0x61 <= b && b <= 0x66 {
            (b - 0x61 + 10) as u32
        } else if 0x41 <= b && b <= 0x46 {
            (b - 0x41 + 10) as u32
        } else {
            return None;
        };
        proof {
            assert(s@.take(i + 1).drop_last() =~= s@.take(i as int));
            lemma_hex_value_bound(s@.take(i + 1));
        }
        acc = acc * 16 + d;
        i = i + 1;
    }
    proof {
        assert(s@.take(s@.len() as int) =~= s@);
    }
    Some(acc as u16)
}

/// A hex digit string of at most four digits is a 16-bit value.
pub proof fn lemma_hex_value_bound(s: Seq<u8>)
    requires
        all_hex_digits(s),
        s.len() <= 4,
    ensures
        hex_value(s) < 0x10000,
    decreases s.len(),
{
    if s.len() > 0 {
        assert(all_hex_digits(s.drop_last())) by {
            assert(forall|i: int|
                0 <= i < s.drop_last().len() ==> #[trigger] s.drop_last()[i] == s[i]);
        }
        lemma_hex_value_bound(s.drop_last());
        if s.len() == 4 {
            assert(hex_value(s.drop_last()) < 0x1000) by {
                lemma_hex_value_tight(s.drop_last());
            }
        } else {
            lemma_hex_value_tight(s.drop_last());
        }
    }
}

/// A hex digit string of `k` digits has value below `16^k` (up to four digits).
pub proof fn lemma_hex_value_tight(s: Seq<u8>)
    requires
        all_hex_digits(s),
        s.len() <= 4,
    ensures
        s.len() == 0 ==> hex_value(s) < 1,
        s.len() == 1 ==> hex_value(s) < 16,
        s.len() == 2 ==> hex_value(s) < 256,
        s.len() == 3 ==> hex_value(s) < 4096,
        s.len() == 4 ==> hex_value(s) < 65536,
    decreases s.len(),
{
    if s.len() > 0 {
        assert(all_hex_digits(s.drop_last())) by {
            assert(forall|i: int|
                0 <= i < s.drop_last().len() ==> #[trigger] s.drop_last()[i] == s[i]);
        }
        lemma_hex_value_tight(s.drop_last());
    }
}

} // verus!
