//! Byte strings and decimal numbers.

use vstd::prelude::*;

verus! {

/// Appends `bytes` to `out`.
pub fn extend_bytes(out: &mut Vec<u8>, bytes: &[u8])
    ensures
        final(out)@ == old(out)@ + bytes@,
{
    out.extend_from_slice(bytes);
}

/// Whether two byte strings are the same.
pub fn bytes_equal(a: &[u8], b: &[u8]) -> (r: bool)
    ensures
        r == (a@ == b@),
{
    if a.len() != b.len() {
        return false;
    }
    let mut i: usize = 0;
    while i < a.len()
        invariant
            a@.len() == b@.len(),
            i <= a@.len(),
            forall|j: int| 0 <= j < i ==> a@[j] == b@[j],
        decreases a@.len() - i,
    {
        if a[i] != b[i] {
            return false;
        }
        i = i + 1;
    }
    assert(a@ =~= b@);
    true
}

/// Whether `b` occurs in `s`.
pub fn contains_byte(s: &[u8], b: u8) -> (r: bool)
    ensures
        r == s@.contains(b),
{
    let mut i: usize = 0;
    while i < s.len()
        invariant
            i <= s@.len(),
            forall|j: int| 0 <= j < i ==> s@[j] != b,
        decreases s@.len() - i,
    {
        if s[i] == b {
            assert(s@[i as int] == b);
            return true;
        }
        i = i + 1;
    }
    false
}

/// The ASCII code of the decimal digit `d`.
pub open spec fn digit(d: nat) -> u8 {
    (0x30 + d) as u8
}

/// `n` written in decimal, without leading zeros.
pub open spec fn decimal(n: nat) -> Seq<u8>
    decreases n,
{
    if n < 10 {
        seq![digit(n)]
    } else {
        decimal(n / 10).push(digit(n % 10))
    }
}

/// Every byte of `s` is an ASCII digit.
pub open spec fn all_digits(s: Seq<u8>) -> bool {
    forall|i: int| 0 <= i < s.len() ==> 0x30 <= #[trigger] s[i] <= 0x39
}

/// The number that the digits of `s` stand for.
pub open spec fn decimal_value(s: Seq<u8>) -> nat
    decreases s.len(),
{
    if s.len() == 0 {
        0
    } else {
        decimal_value(s.drop_last()) * 10 + (s.last() - 0x30) as nat
    }
}

/// `s` read as an unsigned number below 256: digits, with an optional sign
/// `+` in front and leading zeros allowed.
pub open spec fn parsed_u8(s: Seq<u8>) -> Option<u8> {
    let digits = if s.len() > 0 && s[0] == 0x2b {
        s.drop_first()
    } else {
        s
    };
    if digits.len() > 0 && all_digits(digits) && decimal_value(digits) <= 255 {
        Some(decimal_value(digits) as u8)
    } else {
        None
    }
}

/// Appends `n`, written in decimal, to `out`.
pub fn push_decimal(out: &mut Vec<u8>, n: u32)
    ensures
        final(out)@ == old(out)@ + decimal(n as nat),
    decreases n,
{
    if n < 10 {
        out.push(0x30 + n as u8);
    } else {
        push_decimal(out, n / 10);
        out.push(0x30 + (n % 10) as u8);
    }
}

/// Reads `s` as an unsigned number below 256 (see [`parsed_u8`]).
pub fn parse_u8(s: &[u8]) -> (r: Option<u8>)
    ensures
        r == parsed_u8(s@),
{
    let start: usize = if s.len() > 0 && s[0] == 0x2b {
        1
    } else {
        0
    };
    let ghost digits = s@.subrange(start as int, s@.len() as int);
    proof {
        if start == 0 {
            assert(digits =~= s@);
        } else {
            assert(digits =~= s@.drop_first());
        }
    }
    if s.len() == start {
        return None;
    }
    let mut value: u32 = 0;
    let mut too_large: bool = false;
    let mut i: usize = start;
    while i < s.len()
        invariant
            start <= i <= s@.len(),
            digits == s@.subrange(start as int, s@.len() as int),
            digits == (if s@.len() > 0 && s@[0] == 0x2b { s@.drop_first() } else { s@ }),
            all_digits(digits.take(i - start)),
            too_large ==> decimal_value(digits.take(i - start)) > 255,
            !too_large ==> value == decimal_value(digits.take(i - start)) && value <= 255,
        decreases s@.len() - i,
    {
        let b = s[i];
        assert(digits[i - start] == b);
        if b < 0x30 || b > 0x39 {
            return None;
        }
        assert(digits.take(i - start + 1).drop_last() =~= digits.take(i - start));
        assert(digits.take(i - start + 1).last() == b);
        if !too_large {
            value = value * 10 + (b - 0x30) as u32;
            too_large = value > 255;
        }
        i = i + 1;
    }
    assert(digits.take(s@.len() - start) =~= digits);
    if too_large {
        None
    } else {
        Some(value as u8)
    }
}

/// A number written in decimal consists of digits and stands for itself.
pub proof fn lemma_decimal_stands_for_itself(n: nat)
    ensures
        decimal(n).len() > 0,
        all_digits(decimal(n)),
        decimal_value(decimal(n)) == n,
    decreases n,
{
    if n < 10 {
        let s = decimal(n);
        assert(s.drop_last() =~= Seq::<u8>::empty());
        reveal_with_fuel(decimal_value, 2);
    } else {
        lemma_decimal_stands_for_itself(n / 10);
        let s = decimal(n);
        assert(s.drop_last() =~= decimal(n / 10));
        assert forall|i: int| 0 <= i < s.len() implies 0x30 <= #[trigger] s[i] <= 0x39 by {
            if i < s.len() - 1 {
                assert(s[i] == decimal(n / 10)[i]);
            }
        }
    }
}

/// Reading a number below 256 gives back what was written in decimal.
pub proof fn law_parse_inverts_decimal(n: u8)
    ensures
        parsed_u8(decimal(n as nat)) == Some(n),
{
    lemma_decimal_stands_for_itself(n as nat);
    assert(0x30 <= decimal(n as nat)[0]);
}

/// Different numbers are written differently.
pub proof fn law_decimal_is_injective(m: nat, n: nat)
    requires
        decimal(m) == decimal(n),
    ensures
        m == n,
{
    lemma_decimal_stands_for_itself(m);
    lemma_decimal_stands_for_itself(n);
}

/// The decimal digit `d` as a character.
pub open spec fn digit_char(d: nat) -> char {
    (0x30 + d) as char
}

/// `n` written in decimal, as text.
pub open spec fn decimal_text(n: nat) -> Seq<char>
    decreases n,
{
    if n < 10 {
        seq![digit_char(n)]
    } else {
        decimal_text(n / 10).push(digit_char(n % 10))
    }
}

/// The decimal digit `d` as text.
fn digit_text(d: u32) -> (s: &'static str)
    requires
        d < 10,
    ensures
        s@ == seq![digit_char(d as nat)],
{
    proof {
        reveal_strlit("0");
        reveal_strlit("1");
        reveal_strlit("2");
        reveal_strlit("3");
        reveal_strlit("4");
        reveal_strlit("5");
        reveal_strlit("6");
        reveal_strlit("7");
        reveal_strlit("8");
        reveal_strlit("9");
    }
    let s = match d {
        0 => "0",
        1 => "1",
        2 => "2",
        3 => "3",
        4 => "4",
        5 => "5",
        6 => "6",
        7 => "7",
        8 => "8",
        _ => "9",
    };
    assert(s@ =~= seq![digit_char(d as nat)]);
    s
}

/// Appends `n`, written in decimal, to the text `out`.
pub fn push_decimal_text(out: &mut String, n: u32)
    ensures
        final(out)@ == old(out)@ + decimal_text(n as nat),
    decreases n,
{
    if n < 10 {
        out.append(digit_text(n));
    } else {
        push_decimal_text(out, n / 10);
        out.append(digit_text(n % 10));
        assert(out@ =~= old(out)@ + decimal_text(n as nat));
    }
}

/// A number is written without zeros in front, but for 0 itself, which is one
/// zero.
pub proof fn law_decimal_has_no_leading_zeros(n: nat)
    ensures
        decimal(n)[0] == 0x30 <==> n == 0,
        n == 0 ==> decimal(n).len() == 1,
        decimal_value(decimal(n)) == n,
        all_digits(decimal(n)),
    decreases n,
{
    lemma_decimal_stands_for_itself(n);
    if n >= 10 {
        law_decimal_has_no_leading_zeros(n / 10);
        lemma_decimal_stands_for_itself(n / 10);
        assert(decimal(n)[0] == decimal(n / 10)[0]);
    }
}

/// A number reads the same as text and as bytes.
pub proof fn law_decimal_text_is_decimal(n: nat)
    ensures
        decimal_text(n).len() == decimal(n).len(),
        forall|i: int|
            0 <= i < decimal(n).len() ==> #[trigger] decimal_text(n)[i] == decimal(n)[i] as char,
    decreases n,
{
    if n >= 10 {
        law_decimal_text_is_decimal(n / 10);
        assert forall|i: int| 0 <= i < decimal(n).len() implies #[trigger] decimal_text(n)[i]
            == decimal(n)[i] as char by {
            if i < decimal(n / 10).len() {
                assert(decimal_text(n)[i] == decimal_text(n / 10)[i]);
                assert(decimal(n)[i] == decimal(n / 10)[i]);
            }
        }
    }
}

/// A text is read as a number up to 255 if and only if it is made of digits
/// that stand for one, with a `+` in front or without; and the number is what
/// the digits stand for. A `+` in front of digits makes no difference, and
/// neither does a zero.
pub proof fn law_parse_reads_digits(s: Seq<u8>)
    ensures
        s.len() > 0 && all_digits(s) ==> parsed_u8(s) == (if decimal_value(s) <= 255 {
            Some(decimal_value(s) as u8)
        } else {
            None
        }),
        s.len() > 0 && all_digits(s) ==> parsed_u8(seq![0x2bu8] + s) == parsed_u8(s),
        s.len() > 0 && all_digits(s) ==> parsed_u8(seq![0x30u8] + s) == parsed_u8(s),
        parsed_u8(s) is Some ==> s.len() > 0 && all_digits(s.drop_first()) && (s[0] == 0x2b
            && s.len() > 1 || 0x30 <= s[0] <= 0x39),
{
    if s.len() > 0 && all_digits(s) {
        assert(0x30 <= s[0] <= 0x39);
        assert((seq![0x2bu8] + s).drop_first() =~= s);
        lemma_zero_in_front(s);
        let z = seq![0x30u8] + s;
        assert forall|i: int| 0 <= i < z.len() implies 0x30 <= #[trigger] z[i] <= 0x39 by {
            if i > 0 {
                assert(z[i] == s[i - 1]);
            }
        }
    }
    if parsed_u8(s) is Some {
        let rest = s.drop_first();
        assert forall|i: int| 0 <= i < rest.len() implies 0x30 <= #[trigger] rest[i] <= 0x39 by {
            if s[0] != 0x2b {
                assert(rest[i] == s[i + 1]);
            }
        }
        if s[0] != 0x2b {
            assert(0x30 <= s[0] <= 0x39);
        }
    }
}

proof fn lemma_zero_in_front(s: Seq<u8>)
    ensures
        decimal_value(seq![0x30u8] + s) == decimal_value(s),
    decreases s.len(),
{
    let z = seq![0x30u8] + s;
    if s.len() == 0 {
        reveal_with_fuel(decimal_value, 2);
        assert(z.drop_last() =~= Seq::<u8>::empty());
        assert(z.last() == 0x30);
    } else {
        lemma_zero_in_front(s.drop_last());
        assert(z.drop_last() =~= seq![0x30u8] + s.drop_last());
        assert(z.last() == s.last());
    }
}

} // verus!
