//! Numbers as text: reading hexadecimal addresses and writing hexadecimal and
//! decimal digits.

use vstd::prelude::*;

verus! {

/// The value of the hexadecimal digit `c`, in either case.
pub open spec fn hex_digit_value(c: char) -> Option<nat> {
    if '0' <= c <= '9' {
        Some((c as int - '0' as int) as nat)
    } else if 'a' <= c <= 'f' {
        Some((c as int - 'a' as int + 10) as nat)
    } else if 'A' <= c <= 'F' {
        Some((c as int - 'A' as int + 10) as nat)
    } else {
        None
    }
}

/// Whether every character of `s` is a hexadecimal digit.
pub open spec fn all_hex(s: Seq<char>) -> bool {
    forall|i: int| 0 <= i < s.len() ==> (#[trigger] hex_digit_value(s[i])) is Some
}

/// The number that the hexadecimal digits `s` write, most significant first.
/// A character that is no digit counts as zero.
pub open spec fn hex_value(s: Seq<char>) -> nat
    decreases s.len(),
{
    if s.len() == 0 {
        0
    } else {
        16 * hex_value(s.drop_last()) + match hex_digit_value(s.last()) {
            Some(d) => d,
            None => 0,
        }
    }
}

/// The 64-bit number that the field `s` writes in hexadecimal: an optional
/// `+`, then one digit or more and nothing else, with a value that fits.
pub open spec fn hex_number(s: Seq<char>) -> Option<u64> {
    let digits = if s.len() > 0 && s[0] == '+' {
        s.drop_first()
    } else {
        s
    };
    if digits.len() > 0 && all_hex(digits) && hex_value(digits) <= u64::MAX {
        Some(hex_value(digits) as u64)
    } else {
        None
    }
}

/// The character that writes the digit `d`, in lower case.
pub open spec fn digit_char(d: nat) -> char {
    if d == 0 {
        '0'
    } else if d == 1 {
        '1'
    } else if d == 2 {
        '2'
    } else if d == 3 {
        '3'
    } else if d == 4 {
        '4'
    } else if d == 5 {
        '5'
    } else if d == 6 {
        '6'
    } else if d == 7 {
        '7'
    } else if d == 8 {
        '8'
    } else if d == 9 {
        '9'
    } else if d == 10 {
        'a'
    } else if d == 11 {
        'b'
    } else if d == 12 {
        'c'
    } else if d == 13 {
        'd'
    } else if d == 14 {
        'e'
    } else {
        'f'
    }
}

/// The digits of `v` in the base `base`, most significant first, without
/// leading zeros; one `0` for zero.
pub open spec fn radix_digits(v: nat, base: nat) -> Seq<char>
    decreases v,
{
    if base < 2 || v < base {
        seq![digit_char(v)]
    } else {
        proof {
            lemma_quotient_smaller(v, base);
        }
        radix_digits(v / base, base).push(digit_char(v % base))
    }
}

/// `n` zeros.
pub open spec fn zeros(n: nat) -> Seq<char> {
    Seq::new(n, |i: int| '0')
}

/// `digits` with zeros put before it until it is `width` long.
pub open spec fn zero_padded(digits: Seq<char>, width: nat) -> Seq<char> {
    if digits.len() >= width {
        digits
    } else {
        zeros((width - digits.len()) as nat) + digits
    }
}

/// `v` in lower-case hexadecimal without leading zeros.
pub open spec fn hex(v: nat) -> Seq<char> {
    radix_digits(v, 16)
}

/// `v` in lower-case hexadecimal, sixteen digits wide.
pub open spec fn hex16(v: nat) -> Seq<char> {
    zero_padded(radix_digits(v, 16), 16)
}

/// `v` in decimal.
pub open spec fn decimal(v: nat) -> Seq<char> {
    radix_digits(v, 10)
}

/// Dividing by two or more makes a number that is not zero smaller.
pub proof fn lemma_quotient_smaller(v: nat, base: nat)
    requires
        base >= 2,
        v >= base,
    ensures
        v / base < v,
{
    assert(v / base < v) by (nonlinear_arith)
        requires
            base >= 2,
            v >= base,
    ;
}

/// A number written by a part of the digits is no larger than the number
/// written by all of them.
pub proof fn lemma_hex_value_grows(s: Seq<char>, n: int)
    requires
        0 <= n <= s.len(),
    ensures
        hex_value(s.take(n)) <= hex_value(s),
    decreases s.len() - n,
{
    if n == s.len() {
        assert(s.take(n) =~= s);
    } else {
        lemma_hex_value_grows(s, n + 1);
        assert(s.take(n + 1).drop_last() =~= s.take(n));
    }
}

/// The character that writes a digit is a hexadecimal digit of that value.
pub proof fn lemma_digit_char_value(d: nat)
    requires
        d < 16,
    ensures
        hex_digit_value(digit_char(d)) == Some(d),
{
}

/// What is written in hexadecimal without leading zeros is made of
/// hexadecimal digits, at least one, and writes the number.
pub proof fn lemma_hex_writes_value(v: nat)
    ensures
        hex(v).len() > 0,
        all_hex(hex(v)),
        hex_value(hex(v)) == v,
    decreases v,
{
    if v >= 16 {
        lemma_quotient_smaller(v, 16);
        lemma_hex_writes_value(v / 16);
        let init = hex(v / 16);
        lemma_digit_char_value(v % 16);
        assert(hex(v) == init.push(digit_char(v % 16)));
        assert(hex(v).drop_last() =~= init);
        assert(hex(v).last() == digit_char(v % 16));
        assert(hex_value(hex(v)) == 16 * hex_value(init) + v % 16);
        assert(16 * (v / 16) + v % 16 == v);
        assert forall|i: int| 0 <= i < hex(v).len() implies (#[trigger] hex_digit_value(
            hex(v)[i],
        )) is Some by {
            if i < init.len() {
                assert(hex(v)[i] == init[i]);
            }
        }
    } else {
        lemma_digit_char_value(v);
        assert(hex(v).drop_last() =~= Seq::<char>::empty());
        assert(hex(v).last() == digit_char(v));
        assert(hex_value(Seq::<char>::empty()) == 0);
        assert(hex_value(hex(v)) == 16 * hex_value(hex(v).drop_last()) + v);
    }
}

/// Zeros in front change neither the digits' kind nor the number written.
pub proof fn lemma_zeros_in_front(n: nat, digits: Seq<char>)
    requires
        all_hex(digits),
    ensures
        all_hex(zeros(n) + digits),
        hex_value(zeros(n) + digits) == hex_value(digits),
    decreases digits.len(), n,
{
    let whole = zeros(n) + digits;
    assert forall|i: int| 0 <= i < whole.len() implies (#[trigger] hex_digit_value(whole[i])) is Some by {
        if i >= n {
            assert(whole[i] == digits[i - n]);
        }
    }
    if digits.len() > 0 {
        assert forall|i: int| 0 <= i < digits.drop_last().len() implies (#[trigger] hex_digit_value(
            digits.drop_last()[i],
        )) is Some by {
            assert(digits.drop_last()[i] == digits[i]);
        }
        lemma_zeros_in_front(n, digits.drop_last());
        assert(whole.drop_last() =~= zeros(n) + digits.drop_last());
    } else if n > 0 {
        lemma_zeros_in_front((n - 1) as nat, digits);
        assert(whole.drop_last() =~= zeros((n - 1) as nat) + digits);
    } else {
        assert(whole =~= digits);
    }
}

/// Sixteen to the power of `k`.
pub open spec fn pow16(k: nat) -> nat
    decreases k,
{
    if k == 0 {
        1
    } else {
        16 * pow16((k - 1) as nat)
    }
}

/// A number below the `k`-th power of sixteen is written with at most `k`
/// hexadecimal digits.
pub proof fn lemma_hex_len(v: nat, k: nat)
    requires
        k >= 1,
        v < pow16(k),
    ensures
        hex(v).len() <= k,
    decreases v,
{
    if v >= 16 {
        lemma_quotient_smaller(v, 16);
        assert(pow16(1) == 16) by {
            reveal_with_fuel(pow16, 2);
        }
        assert(k >= 2);
        lemma_hex_len(v / 16, (k - 1) as nat);
    }
}

/// A 64-bit number is written with exactly sixteen digits where zeros are
/// put in front.
pub proof fn lemma_hex16_len(v: u64)
    ensures
        hex16(v as nat).len() == 16,
{
    assert(pow16(16) == 0x1_0000_0000_0000_0000) by {
        reveal_with_fuel(pow16, 17);
    }
    lemma_hex_len(v as nat, 16);
}

/// An address that is written in hexadecimal, with or without zeros in
/// front, is read back as the same address.
pub proof fn lemma_hex_reads_back(v: u64)
    ensures
        hex_number(hex(v as nat)) == Some(v),
        hex_number(hex16(v as nat)) == Some(v),
        all_hex(hex16(v as nat)),
        hex16(v as nat).len() >= 16,
{
    let digits = hex(v as nat);
    lemma_hex_writes_value(v as nat);
    assert(hex_digit_value(digits[0]) is Some);
    let padded = hex16(v as nat);
    if digits.len() < 16 {
        lemma_zeros_in_front((16 - digits.len()) as nat, digits);
    }
    assert(hex_digit_value(padded[0]) is Some);
}

/// The value of the hexadecimal digit `c`, if it is one.
pub fn hex_digit(c: char) -> (r: Option<u8>)
    ensures
        match r {
            Some(d) => hex_digit_value(c) == Some(d as nat),
            None => hex_digit_value(c) is None,
        },
{
    if '0' <= c && c <= '9' {
        Some((c as u32 - '0' as u32) as u8)
    } else if 'a' <= c && c <= 'f' {
        Some((c as u32 - 'a' as u32 + 10) as u8)
    } else if 'A' <= c && c <= 'F' {
        Some((c as u32 - 'A' as u32 + 10) as u8)
    } else {
        None
    }
}

/// Reads a field as a hexadecimal 64-bit number.
pub fn parse_hex(s: &[char]) -> (r: Option<u64>)
    ensures
        r == hex_number(s@),
{
    let start: usize = if s.len() > 0 && s[0] == '+' {
        1
    } else {
        0
    };
    let ghost digits = s@.skip(start as int);
    proof {
        assert(s@.skip(0) =~= s@);
        assert(s@.len() > 0 ==> s@.drop_first() =~= s@.skip(1));
    }
    if start == s.len() {
        return None;
    }
    let mut acc: u64 = 0;
    let mut i: usize = start;
    while i < s.len()
        invariant
            start <= i <= s.len(),
            digits == s@.skip(start as int),
            digits == (if s@.len() > 0 && s@[0] == '+' {
                s@.drop_first()
            } else {
                s@
            }),
            all_hex(digits.take(i - start)),
            acc == hex_value(digits.take(i - start)),
        decreases s.len() - i,
    {
        let ghost next = digits.take(i - start + 1);
        proof {
            assert(next.drop_last() =~= digits.take(i - start));
            assert(next.last() == s@[i as int]);
            lemma_hex_value_grows(digits, i - start + 1);
        }
        let d = match hex_digit(s[i]) {
            Some(d) => d,
            None => {
                assert(hex_digit_value(digits[i - start]) is None);
                return None;
            },
        };
        assert(hex_value(next) == 16 * acc + d);
        let shifted = match acc.checked_mul(16) {
            Some(m) => m,
            None => {
                assert(hex_value(digits) > u64::MAX);
                return None;
            },
        };
        acc = match shifted.checked_add(d as u64) {
            Some(a) => a,
            None => {
                assert(hex_value(digits) > u64::MAX);
                return None;
            },
        };
        assert forall|j: int| 0 <= j < next.len() implies (#[trigger] hex_digit_value(
            next[j],
        )) is Some by {
            if j < i - start {
                assert(next[j] == digits.take(i - start)[j]);
            }
        }
        i += 1;
    }
    assert(digits.take(s.len() - start) =~= digits);
    Some(acc)
}

/// The character that writes the digit `d`.
pub fn digit_to_char(d: u8) -> (c: char)
    requires
        d < 16,
    ensures
        c == digit_char(d as nat),
{
    if d == 0 {
        '0'
    } else if d == 1 {
        '1'
    } else if d == 2 {
        '2'
    } else if d == 3 {
        '3'
    } else if d == 4 {
        '4'
    } else if d == 5 {
        '5'
    } else if d == 6 {
        '6'
    } else if d == 7 {
        '7'
    } else if d == 8 {
        '8'
    } else if d == 9 {
        '9'
    } else if d == 10 {
        'a'
    } else if d == 11 {
        'b'
    } else if d == 12 {
        'c'
    } else if d == 13 {
        'd'
    } else if d == 14 {
        'e'
    } else {
        'f'
    }
}

/// The digits of `v` in the base `base`, most significant first.
pub fn digits_of(v: u64, base: u64) -> (out: Vec<char>)
    requires
        2 <= base <= 16,
    ensures
        out@ == radix_digits(v as nat, base as nat),
    decreases v,
{
    if v < base {
        let mut out: Vec<char> = Vec::new();
        out.push(digit_to_char(v as u8));
        assert(out@ =~= seq![digit_char(v as nat)]);
        out
    } else {
        proof {
            lemma_quotient_smaller(v as nat, base as nat);
        }
        let mut out = digits_of(v / base, base);
        out.push(digit_to_char((v % base) as u8));
        out
    }
}

/// Appends `v` in lower-case hexadecimal, sixteen digits wide, to `out`.
pub fn push_hex16(out: &mut String, v: u64)
    ensures
        final(out)@ == old(out)@ + hex16(v as nat),
{
    let digits = digits_of(v, 16);
    let ghost start = out@;
    let mut n: usize = digits.len();
    while n < 16
        invariant
            digits.len() <= n,
            n > digits.len() ==> n <= 16,
            out@ == start + zeros((n - digits.len()) as nat),
        decreases 16 - n,
    {
        out.push('0');
        n += 1;
        assert(out@ =~= start + zeros((n - digits.len()) as nat));
    }
    assert(n == digits.len() ==> out@ =~= start);
    push_chars(out, digits.as_slice());
    assert(final(out)@ =~= start + hex16(v as nat));
}

/// Appends the characters of `chars` to `out`.
pub fn push_chars(out: &mut String, chars: &[char])
    ensures
        final(out)@ == old(out)@ + chars@,
{
    let mut i: usize = 0;
    while i < chars.len()
        invariant
            i <= chars.len(),
            out@ == old(out)@ + chars@.take(i as int),
        decreases chars.len() - i,
    {
        out.push(chars[i]);
        i += 1;
        assert(out@ =~= old(out)@ + chars@.take(i as int));
    }
    assert(chars@.take(chars.len() as int) =~= chars@);
}

} // verus!
