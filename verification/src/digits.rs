//! Unsigned numbers as text: decimal without padding, hexadecimal of a
//! fixed width, and the parsing of both.

use vstd::prelude::*;

verus! {

/// `String::push` appends one character.
pub assume_specification[ String::push ](s: &mut String, ch: char)
    ensures
        final(s)@ == old(s)@.push(ch),
;

/// The value of `c` as a digit of the given radix (10 or 16), if it is one.
/// Hexadecimal digits may be of either case.
pub open spec fn digit_value(c: char, radix: nat) -> Option<nat> {
    let code = c as nat;
    if 48 <= code <= 57 {
        Some((code - 48) as nat)
    } else if radix == 16 && 97 <= code <= 102 {
        Some((code - 87) as nat)
    } else if radix == 16 && 65 <= code <= 70 {
        Some((code - 55) as nat)
    } else {
        None
    }
}

/// The number that a non-empty run of digits denotes, most significant
/// digit first. `None` where the run is empty or holds anything but digits.
pub open spec fn digits_value(s: Seq<char>, radix: nat) -> Option<nat>
    decreases s.len(),
{
    if s.len() == 0 {
        None
    } else if s.len() == 1 {
        digit_value(s[0], radix)
    } else {
        match (digits_value(s.drop_last(), radix), digit_value(s.last(), radix)) {
            (Some(high), Some(low)) => Some(high * radix + low),
            _ => None,
        }
    }
}

/// An unsigned number in text: an optional `+`, then at least one digit and
/// nothing else, denoting a value of at most `max`.
pub open spec fn parse_unsigned(s: Seq<char>, radix: nat, max: nat) -> Option<nat> {
    let digits = if s.len() > 0 && s[0] == '+' {
        s.drop_first()
    } else {
        s
    };
    match digits_value(digits, radix) {
        Some(v) => if v <= max {
            Some(v)
        } else {
            None
        },
        None => None,
    }
}

/// The character for a digit below 16; letters are upper case.
pub open spec fn digit_char(d: nat) -> char {
    if d < 10 {
        (48 + d) as char
    } else {
        (55 + d) as char
    }
}

/// `n` in decimal, without leading zeros.
pub open spec fn decimal_digits(n: nat) -> Seq<char>
    decreases n,
{
    if n < 10 {
        seq![digit_char(n)]
    } else {
        decimal_digits(n / 10).push(digit_char(n % 10))
    }
}

/// The `width` least significant hexadecimal digits of `n`, upper case,
/// most significant first.
pub open spec fn hex_digits(n: nat, width: nat) -> Seq<char>
    decreases width,
{
    if width == 0 {
        Seq::<char>::empty()
    } else {
        hex_digits(n / 16, (width - 1) as nat).push(digit_char(n % 16))
    }
}

/// 16 to the power of `width`.
pub open spec fn pow16(width: nat) -> nat
    decreases width,
{
    if width == 0 {
        1
    } else {
        16 * pow16((width - 1) as nat)
    }
}

/// A digit's character denotes that digit, in radix 16 always and in radix
/// 10 where the digit is below 10; it is neither `_` nor `+`.
pub proof fn lemma_digit_char(d: nat)
    requires
        d < 16,
    ensures
        digit_value(digit_char(d), 16) == Some(d),
        d < 10 ==> digit_value(digit_char(d), 10) == Some(d),
        digit_char(d) != '_',
        digit_char(d) != '+',
{
}

/// Decimal text is never empty, holds digits only and denotes its number.
pub proof fn lemma_decimal_digits(n: nat)
    ensures
        decimal_digits(n).len() >= 1,
        forall|i: int|
            0 <= i < decimal_digits(n).len() ==> digit_value(
                #[trigger] decimal_digits(n)[i],
                10,
            ) is Some,
        digits_value(decimal_digits(n), 10) == Some(n),
    decreases n,
{
    lemma_digit_char(n % 10);
    if n >= 10 {
        lemma_decimal_digits(n / 10);
        let s = decimal_digits(n);
        assert(s.drop_last() =~= decimal_digits(n / 10));
        assert(s.last() == digit_char(n % 10));
    }
}

/// Hexadecimal text of a width has that many characters, all digits.
pub proof fn lemma_hex_digits_shape(n: nat, width: nat)
    ensures
        hex_digits(n, width).len() == width,
        forall|i: int|
            0 <= i < width ==> digit_value(#[trigger] hex_digits(n, width)[i], 16) is Some,
    decreases width,
{
    if width > 0 {
        lemma_hex_digits_shape(n / 16, (width - 1) as nat);
        lemma_digit_char(n % 16);
    }
}

/// Hexadecimal text of a width that the number fits in denotes the number.
pub proof fn lemma_hex_digits_value(n: nat, width: nat)
    requires
        width >= 1,
        n < pow16(width),
    ensures
        digits_value(hex_digits(n, width), 16) == Some(n),
    decreases width,
{
    lemma_hex_digits_shape(n, width);
    lemma_digit_char(n % 16);
    let s = hex_digits(n, width);
    if width == 1 {
        assert(pow16(1) == 16) by {
            reveal_with_fuel(pow16, 2);
        }
        assert(n / 16 == 0);
        assert(hex_digits(n / 16, 0) =~= Seq::<char>::empty());
        assert(s.len() == 1);
        assert(s[0] == digit_char(n % 16));
    } else {
        assert(n / 16 < pow16((width - 1) as nat));
        lemma_hex_digits_value(n / 16, (width - 1) as nat);
        lemma_hex_digits_shape(n / 16, (width - 1) as nat);
        assert(s.drop_last() =~= hex_digits(n / 16, (width - 1) as nat));
        assert(s.last() == digit_char(n % 16));
    }
}

/// Every 64-bit number fits in 16 hexadecimal digits.
pub proof fn lemma_pow16_of_16()
    ensures
        pow16(16) == 0x1_0000_0000_0000_0000,
{
    reveal_with_fuel(pow16, 17);
}

/// A run of digits with a value consists of digits, and each of its
/// non-empty prefixes has a value that is no larger.
pub proof fn lemma_digits_value_prefix(s: Seq<char>, radix: nat, k: int)
    requires
        radix >= 1,
        1 <= k <= s.len(),
        digits_value(s, radix) is Some,
    ensures
        digits_value(s.take(k), radix) is Some,
        digits_value(s.take(k), radix)->0 <= digits_value(s, radix)->0,
        forall|i: int| 0 <= i < s.len() ==> digit_value(#[trigger] s[i], radix) is Some,
    decreases s.len(),
{
    if s.len() == 1 {
        assert(s.take(k) =~= s);
    } else {
        let front = s.drop_last();
        lemma_digits_value_prefix(front, radix, if k < s.len() { k } else { s.len() - 1 });
        assert forall|i: int| 0 <= i < s.len() implies digit_value(
            #[trigger] s[i],
            radix,
        ) is Some by {
            if i < s.len() - 1 {
                assert(s[i] == front[i]);
            }
        }
        let high = digits_value(front, radix)->0;
        let low = digit_value(s.last(), radix)->0;
        assert(high <= high * radix + low) by (nonlinear_arith)
            requires
                radix >= 1,
        ;
        if k < s.len() {
            assert(s.take(k) =~= front.take(k));
        } else {
            assert(s.take(k) =~= s);
        }
    }
}

/// The characters of a string, in order.
pub fn to_chars(s: &str) -> (v: Vec<char>)
    ensures
        v@ == s@,
{
    broadcast use vstd::string::group_string_axioms;

    let mut v: Vec<char> = Vec::new();
    for c in it: s.chars()
        invariant
            it.seq() == s@,
            v@ == s@.take(it.index()),
    {
        v.push(c);
        assert(s@.take(it.index() + 1) =~= s@.take(it.index()).push(c));
    }
    assert(s@.take(s@.len() as int) =~= s@);
    v
}

/// The value of a character as a digit of radix 10 or 16.
pub fn digit_of(c: char, radix: u64) -> (r: Option<u64>)
    requires
        radix == 10 || radix == 16,
    ensures
        r is Some <==> digit_value(c, radix as nat) is Some,
        r matches Some(d) ==> d == digit_value(c, radix as nat)->0 && d < radix,
{
    let code: u32 = c as u32;
    if 48 <= code && code <= 57 {
        Some((code - 48) as u64)
    } else if radix == 16 && 97 <= code && code <= 102 {
        Some((code - 87) as u64)
    } else if radix == 16 && 65 <= code && code <= 70 {
        Some((code - 55) as u64)
    } else {
        None
    }
}

/// Parses `s[from..to]` as an unsigned number of radix 10 or 16 that is at
/// most `max`.
pub fn parse_radix(s: &Vec<char>, from: usize, to: usize, radix: u64, max: u64) -> (r: Option<u64>)
    requires
        from <= to <= s.len(),
        radix == 10 || radix == 16,
    ensures
        match parse_unsigned(s@.subrange(from as int, to as int), radix as nat, max as nat) {
            Some(v) => r == Some(v as u64),
            None => r is None,
        },
{
    let ghost text = s@.subrange(from as int, to as int);
    let mut i: usize = from;
    if i < to && s[i] == '+' {
        i = i + 1;
    }
    let start: usize = i;
    let ghost digits = s@.subrange(start as int, to as int);
    proof {
        if start == from {
            assert(text.len() > 0 ==> text[0] == s@[from as int]);
            assert(digits =~= text);
        } else {
            assert(text[0] == '+');
            assert(digits =~= text.drop_first());
        }
    }
    if i == to {
        return None;
    }
    let mut acc: u64 = 0;
    while i < to
        invariant
            from <= start <= i <= to <= s.len(),
            start < to,
            digits == s@.subrange(start as int, to as int),
            parse_unsigned(s@.subrange(from as int, to as int), radix as nat, max as nat) == (
            match digits_value(digits, radix as nat) {
                Some(v) => if v <= max {
                    Some(v)
                } else {
                    None
                },
                None => None,
            }),
            radix == 10 || radix == 16,
            acc <= max,
            i == start ==> acc == 0,
            i > start ==> digits_value(digits.take(i - start), radix as nat) == Some(acc as nat),
        decreases to - i,
    {
        let ghost k = i - start;
        assert(digits[k] == s@[i as int]);
        match digit_of(s[i], radix) {
            None => {
                proof {
                    if digits_value(digits, radix as nat) is Some {
                        lemma_digits_value_prefix(digits, radix as nat, 1);
                    }
                }
                return None;
            },
            Some(d) => {
                let ghost next = acc as nat * radix as nat + d as nat;
                proof {
                    let longer = digits.take(k + 1);
                    assert(longer.last() == digits[k]);
                    if k == 0 {
                        assert(longer.len() == 1);
                        assert(longer[0] == digits[0]);
                    } else {
                        assert(longer.drop_last() =~= digits.take(k));
                    }
                    assert(digits_value(longer, radix as nat) == Some(next));
                }
                let fits = acc <= max / radix && d <= max - acc * radix;
                proof {
                    if acc <= max / radix {
                        assert(acc * radix <= max) by (nonlinear_arith)
                            requires
                                acc <= max / radix,
                                radix > 0,
                        ;
                    } else {
                        assert(acc * radix > max) by (nonlinear_arith)
                            requires
                                acc > max / radix,
                                radix > 0,
                        ;
                    }
                }
                if !fits {
                    proof {
                        assert(next > max);
                        if digits_value(digits, radix as nat) is Some {
                            lemma_digits_value_prefix(digits, radix as nat, k + 1);
                        }
                    }
                    return None;
                }
                acc = acc * radix + d;
            },
        }
        i = i + 1;
    }
    proof {
        assert(digits.take(to - start) =~= digits);
    }
    Some(acc)
}

/// The character of a digit below 16.
pub fn char_of_digit(d: u8) -> (c: char)
    requires
        d < 16,
    ensures
        c == digit_char(d as nat),
{
    if d < 10 {
        (48 + d) as char
    } else {
        (55 + d) as char
    }
}

/// Appends `n` in decimal.
pub fn push_decimal(out: &mut String, n: u32)
    ensures
        final(out)@ == old(out)@ + decimal_digits(n as nat),
    decreases n,
{
    if n >= 10 {
        push_decimal(out, n / 10);
    }
    out.push(char_of_digit((n % 10) as u8));
    proof {
        if n >= 10 {
            assert(final(out)@ =~= old(out)@ + decimal_digits(n as nat));
        } else {
            assert(final(out)@ =~= old(out)@ + decimal_digits(n as nat));
        }
    }
}

/// Appends the `width` least significant hexadecimal digits of `n`.
pub fn push_hex(out: &mut String, n: u64, width: u32)
    ensures
        final(out)@ == old(out)@ + hex_digits(n as nat, width as nat),
    decreases width,
{
    if width > 0 {
        push_hex(out, n / 16, width - 1);
        out.push(char_of_digit((n % 16) as u8));
    }
    assert(final(out)@ =~= old(out)@ + hex_digits(n as nat, width as nat));
}

} // verus!
