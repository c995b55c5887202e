//! Numbers as text: decimal and hexadecimal digits, written and read.

use vstd::prelude::*;

verus! {

/// The digit of a value below sixteen, letters in lower case.
pub open spec fn digit_char(d: nat) -> char {
    if d < 10 {
        ('0' as nat + d) as char
    } else {
        ('a' as nat + d - 10) as char
    }
}

/// The digit of a value below sixteen, letters in upper case.
pub open spec fn upper_digit_char(d: nat) -> char {
    if d < 10 {
        ('0' as nat + d) as char
    } else {
        ('A' as nat + d - 10) as char
    }
}

/// A number in decimal, without leading zeros.
pub open spec fn decimal(n: nat) -> Seq<char>
    decreases n,
{
    if n < 10 {
        seq![digit_char(n)]
    } else {
        decimal(n / 10).push(digit_char(n % 10))
    }
}

/// A byte as two hexadecimal digits in upper case.
pub open spec fn upper_hex_byte(b: u8) -> Seq<char> {
    seq![upper_digit_char((b / 16) as nat), upper_digit_char((b % 16) as nat)]
}

/// Bytes as pairs of hexadecimal digits in lower case.
pub open spec fn lower_hex(bytes: Seq<u8>) -> Seq<char>
    decreases bytes.len(),
{
    if bytes.len() == 0 {
        Seq::empty()
    } else {
        lower_hex(bytes.drop_last()).push(digit_char((bytes.last() / 16) as nat)).push(
            digit_char((bytes.last() % 16) as nat),
        )
    }
}

/// What a character is worth as a digit, in a radix of at most thirty-six.
pub open spec fn digit_value(c: char, radix: nat) -> Option<nat> {
    let v = if '0' <= c <= '9' {
        (c as nat - '0' as nat) as nat
    } else if 'a' <= c <= 'z' {
        (c as nat - 'a' as nat + 10) as nat
    } else if 'A' <= c <= 'Z' {
        (c as nat - 'A' as nat + 10) as nat
    } else {
        radix
    };
    if v < radix {
        Some(v)
    } else {
        None
    }
}

/// What a run of digits is worth; nothing where a character is no digit.
pub open spec fn digits_value(s: Seq<char>, radix: nat) -> Option<nat>
    decreases s.len(),
{
    if s.len() == 0 {
        Some(0)
    } else {
        match (digits_value(s.drop_last(), radix), digit_value(s.last(), radix)) {
            (Some(v), Some(d)) => Some(v * radix + d),
            _ => None,
        }
    }
}

/// The digits of a number behind its optional plus sign.
pub open spec fn unsigned_digits(s: Seq<char>) -> Seq<char> {
    if s.len() > 0 && s[0] == '+' {
        s.skip(1)
    } else {
        s
    }
}

/// The number that a text stands for: an optional plus sign and at least one digit, at most `max`.
pub open spec fn parse_unsigned(s: Seq<char>, radix: nat, max: nat) -> Option<nat> {
    let digits = unsigned_digits(s);
    if digits.len() == 0 {
        None
    } else {
        match digits_value(digits, radix) {
            Some(v) => if v <= max {
                Some(v)
            } else {
                None
            },
            None => None,
        }
    }
}

fn digit(d: u8) -> (c: char)
    requires
        d < 16,
    ensures
        c == digit_char(d as nat),
{
    if d < 10 {
        ('0' as u8 + d) as char
    } else {
        ('a' as u8 + (d - 10)) as char
    }
}

fn upper_digit(d: u8) -> (c: char)
    requires
        d < 16,
    ensures
        c == upper_digit_char(d as nat),
{
    if d < 10 {
        ('0' as u8 + d) as char
    } else {
        ('A' as u8 + (d - 10)) as char
    }
}

/// A number in decimal.
pub fn decimal_text(n: u64) -> (s: String)
    ensures
        s@ == decimal(n as nat),
    decreases n,
{
    let mut s = if n < 10 {
        String::new()
    } else {
        decimal_text(n / 10)
    };
    s.push(digit((n % 10) as u8));
    s
}

/// A byte as two hexadecimal digits in upper case.
pub fn upper_hex_text(b: u8) -> (s: String)
    ensures
        s@ == upper_hex_byte(b),
{
    let mut s = String::new();
    s.push(upper_digit(b / 16));
    s.push(upper_digit(b % 16));
    s
}

/// Bytes as pairs of hexadecimal digits in lower case.
pub fn lower_hex_text(bytes: &[u8]) -> (s: String)
    ensures
        s@ == lower_hex(bytes@),
{
    let mut s = String::new();
    let mut i: usize = 0;
    while i < bytes.len()
        invariant
            i <= bytes@.len(),
            s@ == lower_hex(bytes@.take(i as int)),
        decreases bytes.len() - i,
    {
        proof {
            assert(bytes@.take(i + 1).drop_last() =~= bytes@.take(i as int));
        }
        s.push(digit(bytes[i] / 16));
        s.push(digit(bytes[i] % 16));
        i += 1;
    }
    assert(bytes@.take(i as int) =~= bytes@);
    s
}

fn digit_of(c: char, radix: u32) -> (d: Option<u32>)
    requires
        radix <= 36,
    ensures
        match d {
            Some(v) => digit_value(c, radix as nat) == Some(v as nat) && v < radix,
            None => digit_value(c, radix as nat) is None,
        },
{
    let v: u32 = if '0' <= c && c <= '9' {
        c as u32 - '0' as u32
    } else if 'a' <= c && c <= 'z' {
        c as u32 - 'a' as u32 + 10
    } else if 'A' <= c && c <= 'Z' {
        c as u32 - 'A' as u32 + 10
    } else {
        radix
    };
    if v < radix {
        Some(v)
    } else {
        None
    }
}

/// A run of digits is worth at least what its front is worth, if it is worth anything.
proof fn lemma_digits_prefix(s: Seq<char>, radix: nat, n: int)
    requires
        0 <= n <= s.len(),
        radix > 0,
    ensures
        digits_value(s, radix) matches Some(v) ==> (digits_value(s.take(n), radix) matches Some(u)
            && u <= v),
    decreases s.len(),
{
    if n == s.len() {
        assert(s.take(n) =~= s);
    } else {
        lemma_digits_prefix(s.drop_last(), radix, n);
        assert(s.drop_last().take(n) =~= s.take(n));
        if let Some(v) = digits_value(s.drop_last(), radix) {
            assert(v <= v * radix) by (nonlinear_arith)
                requires
                    radix > 0,
            ;
        }
    }
}

/// The number that the characters of `v` from `lo` up to `hi` stand for.
pub(crate) fn read_unsigned(
    v: &Vec<char>,
    lo: usize,
    hi: usize,
    radix: u32,
    max: u32,
) -> (r: Option<u32>)
    requires
        lo <= hi <= v@.len(),
        0 < radix <= 36,
    ensures
        match r {
            Some(n) => parse_unsigned(v@.subrange(lo as int, hi as int), radix as nat, max as nat)
                == Some(n as nat),
            None => parse_unsigned(
                v@.subrange(lo as int, hi as int),
                radix as nat,
                max as nat,
            ) is None,
        },
{
    let ghost s = v@.subrange(lo as int, hi as int);
    let start: usize = if lo < hi && v[lo] == '+' {
        lo + 1
    } else {
        lo
    };
    let ghost digits = unsigned_digits(s);
    assert(digits =~= v@.subrange(start as int, hi as int));
    if start == hi {
        return None;
    }
    let mut total: u64 = 0;
    let mut i: usize = start;
    while i < hi
        invariant
            start <= i <= hi <= v@.len(),
            0 < radix <= 36,
            digits == v@.subrange(start as int, hi as int),
            s == v@.subrange(lo as int, hi as int),
            digits == unsigned_digits(s),
            digits_value(digits.take(i - start), radix as nat) == Some(total as nat),
            total <= max,
        decreases hi - i,
    {
        proof {
            assert(digits.take(i - start + 1).drop_last() =~= digits.take(i - start));
            assert(digits.take(i - start + 1).last() == v@[i as int]);
            lemma_digits_prefix(digits, radix as nat, i - start + 1);
        }
        match digit_of(v[i], radix) {
            None => {
                return None;
            },
            Some(d) => {
                assert(total * radix <= 0xffff_ffff * 36) by (nonlinear_arith)
                    requires
                        total <= 0xffff_ffff,
                        radix <= 36,
                ;
                total = total * (radix as u64) + d as u64;
            },
        }
        if total > max as u64 {
            return None;
        }
        i += 1;
    }
    assert(digits.take(i - start) =~= digits);
    Some(total as u32)
}

proof fn lemma_decimal_value(n: nat)
    ensures
        digits_value(decimal(n), 10) == Some(n),
        decimal(n).len() > 0,
        forall|i: int| 0 <= i < decimal(n).len() ==> '0' <= #[trigger] decimal(n)[i] <= '9',
    decreases n,
{
    if n < 10 {
        assert(decimal(n).drop_last() =~= Seq::empty());
        assert(digits_value(decimal(n).drop_last(), 10) == Some(0nat));
    } else {
        lemma_decimal_value(n / 10);
        assert(decimal(n).drop_last() =~= decimal(n / 10));
    }
}

/// A number written in decimal consists of digits, and is read back as the same number.
pub proof fn law_decimal_read(n: nat, max: nat)
    requires
        n <= max,
    ensures
        parse_unsigned(decimal(n), 10, max) == Some(n),
        forall|i: int| 0 <= i < decimal(n).len() ==> '0' <= #[trigger] decimal(n)[i] <= '9',
{
    lemma_decimal_value(n);
    assert('0' <= decimal(n)[0] <= '9');
}

/// A byte written as two hexadecimal digits is read back as the same byte.
pub proof fn law_hex_byte_read(b: u8)
    ensures
        parse_unsigned(upper_hex_byte(b), 16, 0xff) == Some(b as nat),
{
    let s = upper_hex_byte(b);
    reveal_with_fuel(digits_value, 3);
    assert(s.drop_last() =~= seq![s[0]]);
    assert(s.drop_last().drop_last() =~= Seq::empty());
    assert(digit_value(s[0], 16) == Some((b / 16) as nat));
    assert(digit_value(s[1], 16) == Some((b % 16) as nat));
}

/// Whether a character is the digit of a value, with letters in either case.
pub open spec fn is_digit_of(c: char, d: nat) -> bool {
    &&& d < 16
    &&& c == "0123456789abcdef"@[d as int] || c == "0123456789ABCDEF"@[d as int]
}

/// Whether a text is a number written out: its last digit is what is left over when the number is
/// divided by the base, and the digits before it are the quotient written out.
pub open spec fn spells(s: Seq<char>, n: nat, base: nat) -> bool
    decreases s.len(),
{
    if s.len() == 0 {
        false
    } else if s.len() == 1 {
        n < base && is_digit_of(s[0], n)
    } else {
        is_digit_of(s.last(), n % base) && spells(s.drop_last(), n / base, base)
    }
}

/// Whether a text is a number written out, with or without a plus sign before it.
pub open spec fn spells_signed(s: Seq<char>, n: nat, base: nat) -> bool {
    spells(s, n, base) || (s.len() > 0 && s[0] == '+' && spells(s.skip(1), n, base))
}

/// What a digit is worth is where it stands in the row of digits.
proof fn lemma_digit(c: char, d: nat, base: nat)
    requires
        base <= 16,
    ensures
        digit_value(c, base) == Some(d) <==> d < base && is_digit_of(c, d),
{
    reveal_strlit("0123456789abcdef");
    reveal_strlit("0123456789ABCDEF");
}

proof fn lemma_spells(s: Seq<char>, n: nat, base: nat)
    requires
        s.len() > 0,
        2 <= base <= 16,
    ensures
        digits_value(s, base) == Some(n) <==> spells(s, n, base),
    decreases s.len(),
{
    let front = s.drop_last();
    let c = s.last();
    if s.len() == 1 {
        assert(digits_value(front, base) == Some(0nat));
        lemma_digit(c, n, base);
        assert(0 * base == 0) by (nonlinear_arith);
        if let Some(d) = digit_value(c, base) {
            lemma_digit(c, d, base);
        }
    } else {
        lemma_spells(front, n / base, base);
        lemma_digit(c, n % base, base);
        vstd::arithmetic::div_mod::lemma_fundamental_div_mod(n as int, base as int);
        assert((n / base) * base == base * (n / base)) by (nonlinear_arith);
        if digits_value(s, base) == Some(n) {
            let v = digits_value(front, base)->0;
            let d = digit_value(c, base)->0;
            lemma_digit(c, d, base);
            vstd::arithmetic::div_mod::lemma_fundamental_div_mod_converse(
                n as int,
                base as int,
                v as int,
                d as int,
            );
        }
    }
}

/// Of a text is read the number that it writes out, if that is at most `max`, and nothing
/// otherwise: leading zeros and letters in either case do not matter, and one plus sign may come
/// first.
pub proof fn law_number_read(s: Seq<char>, n: nat, base: nat, max: nat)
    requires
        2 <= base <= 16,
    ensures
        parse_unsigned(s, base, max) == Some(n) <==> n <= max && spells_signed(s, n, base),
{
    let digits = unsigned_digits(s);
    if digits.len() > 0 {
        lemma_spells(digits, n, base);
    }
    if s.len() > 0 && s[0] == '+' {
        lemma_plus(s, n, base);
    }
}

/// Digits are ASCII characters, and so are the texts that they make.
pub proof fn lemma_spelled_in_ascii(s: Seq<char>, n: nat, base: nat)
    requires
        spells_signed(s, n, base),
        base >= 2,
    ensures
        s.len() > 0,
        forall|i: int| 0 <= i < s.len() ==> #[trigger] s[i] <= '\u{7f}',
{
    if spells(s, n, base) {
        lemma_spells_ascii(s, n, base);
    } else {
        let t = s.skip(1);
        lemma_spells_ascii(t, n, base);
        assert forall|i: int| 0 <= i < s.len() implies #[trigger] s[i] <= '\u{7f}' by {
            if i > 0 {
                assert(s[i] == t[i - 1]);
            }
        }
    }
}

proof fn lemma_spells_ascii(s: Seq<char>, n: nat, base: nat)
    requires
        spells(s, n, base),
        base >= 2,
    ensures
        forall|i: int| 0 <= i < s.len() ==> #[trigger] s[i] <= '\u{7f}',
    decreases s.len(),
{
    if s.len() == 1 {
        lemma_digit(s[0], n, 16);
    } else {
        let front = s.drop_last();
        lemma_digit(s.last(), n % base, 16);
        lemma_spells_ascii(front, n / base, base);
        assert forall|i: int| 0 <= i < s.len() implies #[trigger] s[i] <= '\u{7f}' by {
            if i < front.len() {
                assert(s[i] == front[i]);
            }
        }
    }
}

/// A plus sign is no digit.
proof fn lemma_plus(s: Seq<char>, n: nat, base: nat)
    requires
        s.len() > 0,
        s[0] == '+',
        base >= 2,
    ensures
        !spells(s, n, base),
    decreases s.len(),
{
    if s.len() == 1 {
        lemma_digit('+', n, 16);
    } else {
        assert(s.drop_last()[0] == '+');
        lemma_plus(s.drop_last(), n / base, base);
    }
}

/// A number is written out in decimal digits, with no zero before them but the number zero itself.
pub proof fn law_decimal_written(n: nat)
    ensures
        spells(decimal(n), n, 10),
        forall|i: int| 0 <= i < decimal(n).len() ==> '0' <= #[trigger] decimal(n)[i] <= '9',
        decimal(n)[0] == '0' ==> n == 0 && decimal(n).len() == 1,
    decreases n,
{
    lemma_decimal_value(n);
    lemma_spells(decimal(n), n, 10);
    if n >= 10 {
        law_decimal_written(n / 10);
        assert(decimal(n)[0] == decimal(n / 10)[0]);
    }
}

/// A byte is written as its two hexadecimal digits, the higher one first, with capital letters.
pub proof fn law_hex_byte_written(b: u8)
    ensures
        upper_hex_byte(b) == seq![
            "0123456789ABCDEF"@[(b / 16) as int],
            "0123456789ABCDEF"@[(b % 16) as int],
        ],
{
    reveal_strlit("0123456789ABCDEF");
}

/// Every byte is written as its two hexadecimal digits, the higher one first, with small letters.
pub proof fn law_hex_written(bytes: Seq<u8>, i: int)
    requires
        0 <= i < bytes.len(),
    ensures
        lower_hex(bytes).len() == 2 * bytes.len(),
        lower_hex(bytes)[2 * i] == "0123456789abcdef"@[(bytes[i] / 16) as int],
        lower_hex(bytes)[2 * i + 1] == "0123456789abcdef"@[(bytes[i] % 16) as int],
    decreases bytes.len(),
{
    reveal_strlit("0123456789abcdef");
    let front = bytes.drop_last();
    lemma_hex_len(bytes);
    if i < front.len() {
        law_hex_written(front, i);
        assert(lower_hex(bytes)[2 * i] == lower_hex(front)[2 * i]);
        assert(lower_hex(bytes)[2 * i + 1] == lower_hex(front)[2 * i + 1]);
    } else {
        lemma_hex_len(front);
    }
}

proof fn lemma_hex_len(bytes: Seq<u8>)
    ensures
        lower_hex(bytes).len() == 2 * bytes.len(),
    decreases bytes.len(),
{
    if bytes.len() > 0 {
        lemma_hex_len(bytes.drop_last());
    }
}

} // verus!
