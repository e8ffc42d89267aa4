//! Numbers written as text, and the length of text in bytes.

use vstd::prelude::*;
use vstd::string::*;
use vstd::utf8::*;

use crate::text;

verus! {

/// The digit of value `d` in bases up to sixteen.
pub open spec fn digit(d: int) -> char {
    if d == 0 {
        '0'
    } else if d == 1 {
        '1'
    } else if d == 2 {
        '2'
    } else if d == 3 {
        '3'
    } else if d == 4 {
        '4'
    } else if d == 5 {
        '5'
    } else if d == 6 {
        '6'
    } else if d == 7 {
        '7'
    } else if d == 8 {
        '8'
    } else if d == 9 {
        '9'
    } else if d == 10 {
        'a'
    } else if d == 11 {
        'b'
    } else if d == 12 {
        'c'
    } else if d == 13 {
        'd'
    } else if d == 14 {
        'e'
    } else {
        'f'
    }
}

/// The digit of value `d`.
pub fn digit_char(d: u64) -> (c: char)
    ensures
        c == digit(d as int),
{
    match d {
        0 => '0',
        1 => '1',
        2 => '2',
        3 => '3',
        4 => '4',
        5 => '5',
        6 => '6',
        7 => '7',
        8 => '8',
        9 => '9',
        10 => 'a',
        11 => 'b',
        12 => 'c',
        13 => 'd',
        14 => 'e',
        _ => 'f',
    }
}

/// `n` written in `base`, without leading zeros.
pub open spec fn numeral(n: nat, base: nat) -> Seq<char>
    decreases n,
{
    if base < 2 || n < base {
        seq![digit(n as int)]
    } else {
        proof {
            assert(n / base < n) by (nonlinear_arith)
                requires
                    2 <= base <= n,
            ;
        }
        numeral(n / base, base).push(digit((n % base) as int))
    }
}

/// `n` in decimal notation.
pub open spec fn decimal(n: nat) -> Seq<char> {
    numeral(n, 10)
}

/// An integer in decimal notation, with a minus sign where it is negative.
pub open spec fn signed_decimal(n: int) -> Seq<char> {
    if n < 0 {
        seq!['-'] + decimal((-n) as nat)
    } else {
        decimal(n as nat)
    }
}

/// Writes `n` in `base`.
pub fn to_base(n: u64, base: u64) -> (s: String)
    requires
        2 <= base <= 16,
    ensures
        s@ == numeral(n as nat, base as nat),
    decreases n,
{
    if n < base {
        let mut s = String::new();
        s.push(digit_char(n));
        assert(s@ =~= seq![digit(n as int)]);
        s
    } else {
        assert(n / base < n) by (nonlinear_arith)
            requires
                2 <= base <= n,
        ;
        let mut s = to_base(n / base, base);
        s.push(digit_char(n % base));
        s
    }
}

/// Writes `n` in decimal.
pub fn to_decimal(n: u64) -> (s: String)
    ensures
        s@ == decimal(n as nat),
{
    to_base(n, 10)
}

/// Writes `n` in decimal, with a minus sign where it is negative.
pub fn to_signed_decimal(n: i64) -> (s: String)
    ensures
        s@ == signed_decimal(n as int),
{
    if n < 0 {
        let magnitude: u64 = if n == i64::MIN {
            9_223_372_036_854_775_808
        } else {
            (-n) as u64
        };
        proof {
            reveal_strlit("-");
            assert("-"@ =~= seq!['-']);
        }
        "-".to_owned().concat(to_decimal(magnitude).as_str())
    } else {
        to_decimal(n as u64)
    }
}

/// `n` zeros.
pub open spec fn zeros(n: nat) -> Seq<char> {
    Seq::new(n, |i: int| '0')
}

/// `n` in decimal with zeros before it, up to four digits.
pub open spec fn four_digits(n: nat) -> Seq<char> {
    let plain = decimal(n);
    if plain.len() < 4 {
        zeros((4 - plain.len()) as nat) + plain
    } else {
        plain
    }
}

/// Writes `n` in decimal with zeros before it, up to four digits.
pub fn to_four_digits(n: u16) -> (s: String)
    ensures
        s@ == four_digits(n as nat),
{
    let plain = to_decimal(n as u64);
    let length: usize = text::chars_of(plain.as_str()).len();
    let mut s = String::new();
    let mut written: usize = length;
    while written < 4
        invariant
            length <= written,
            written <= 4 || written == length,
            s@ == zeros((written - length) as nat),
        decreases 4 - written,
    {
        s.push('0');
        written += 1;
        assert(s@ =~= zeros((written - length) as nat));
    }
    s.append(plain.as_str());
    assert(length >= 4 ==> s@ =~= plain@);
    s
}

/// The number that decimal digits stand for.
pub open spec fn digits_value(s: Seq<char>) -> nat
    decreases s.len(),
{
    if s.len() == 0 {
        0
    } else {
        digits_value(s.drop_last()) * 10 + (s.last() as nat - '0' as nat) as nat
    }
}

/// The number that a text of decimal digits, perhaps with a plus sign before them, stands for.
pub open spec fn unsigned_value(s: Seq<char>) -> Option<nat> {
    let digits = if s.len() > 0 && s[0] == '+' {
        s.drop_first()
    } else {
        s
    };
    if digits.len() > 0 && text::all_digits(digits) {
        Some(digits_value(digits))
    } else {
        None
    }
}

/// A text of digits stands for no less than its beginning does.
proof fn lemma_digits_value_grows(s: Seq<char>, n: int)
    requires
        0 <= n <= s.len(),
    ensures
        digits_value(s.take(n)) <= digits_value(s),
    decreases s.len() - n,
{
    if n == s.len() {
        assert(s.take(n) =~= s);
    } else {
        lemma_digits_value_grows(s, n + 1);
        assert(s.take(n + 1).drop_last() =~= s.take(n));
    }
}

/// Reads an unsigned number: decimal digits, perhaps with a plus sign before them, for a number of
/// at most 64 bits.
pub fn parse_u64(s: &str) -> (res: Option<u64>)
    ensures
        res == match unsigned_value(s@) {
            Some(v) => if v <= u64::MAX {
                Some(v as u64)
            } else {
                None
            },
            None => None,
        },
{
    let chars = text::chars_of(s);
    let start: usize = if chars.len() > 0 && chars[0] == '+' {
        1
    } else {
        0
    };
    let ghost digits = if s@.len() > 0 && s@[0] == '+' {
        s@.drop_first()
    } else {
        s@
    };
    if start == chars.len() {
        return None;
    }
    let mut value: u64 = 0;
    let mut i: usize = start;
    while i < chars.len()
        invariant
            chars@ == s@,
            start <= i <= chars@.len(),
            digits.len() == s@.len() - start,
            digits.len() > 0,
            forall|j: int| 0 <= j < digits.len() ==> digits[j] == s@[start + j],
            unsigned_value(s@) == if text::all_digits(digits) {
                Some(digits_value(digits))
            } else {
                None
            },
            forall|j: int| 0 <= j < i - start ==> '0' <= #[trigger] digits[j] <= '9',
            value == digits_value(digits.take(i - start)),
        decreases chars@.len() - i,
    {
        let c = chars[i];
        assert(c == digits[i - start]);
        if !('0' <= c && c <= '9') {
            return None;
        }
        let d: u64 = (c as u64) - ('0' as u64);
        proof {
            let k = i - start;
            assert(digits.take(k + 1).drop_last() =~= digits.take(k));
            assert(digits.take(k + 1).last() == c);
            lemma_digits_value_grows(digits, k + 1);
        }
        if value > (u64::MAX - d) / 10 {
            return None;
        }
        value = value * 10 + d;
        i += 1;
    }
    assert(digits.take(digits.len() as int) =~= digits);
    Some(value)
}

/// Reads a number of the machine's word size.
pub fn parse_usize(s: &str) -> (res: Option<usize>)
    ensures
        res == match unsigned_value(s@) {
            Some(v) => if v <= usize::MAX {
                Some(v as usize)
            } else {
                None
            },
            None => None,
        },
{
    match parse_u64(s) {
        Some(v) => if v <= usize::MAX as u64 {
            Some(v as usize)
        } else {
            None
        },
        None => None,
    }
}

/// The value of a decimal digit is what [`digit`] was given.
proof fn lemma_decimal_digit(d: int)
    requires
        0 <= d < 10,
    ensures
        '0' <= digit(d) <= '9',
        digit(d) as nat - '0' as nat == d,
{
}

/// Decimal notation has digits only, at least one, and stands for its number.
pub proof fn lemma_decimal_value(n: nat)
    ensures
        decimal(n).len() > 0,
        text::all_digits(decimal(n)),
        digits_value(decimal(n)) == n,
    decreases n,
{
    if n < 10 {
        lemma_decimal_digit(n as int);
        assert(decimal(n).drop_last() =~= Seq::<char>::empty());
        assert(digits_value(Seq::<char>::empty()) == 0);
    } else {
        lemma_decimal_value(n / 10);
        lemma_decimal_digit((n % 10) as int);
        assert(decimal(n).drop_last() =~= decimal(n / 10));
    }
}

/// A number written in decimal reads back as itself.
pub proof fn law_decimal_reads_back(n: nat)
    ensures
        unsigned_value(decimal(n)) == Some(n),
{
    lemma_decimal_value(n);
    assert('0' <= decimal(n)[0] <= '9');
}

/// The length of a text in bytes of UTF-8.
pub open spec fn utf8_len(s: Seq<char>) -> nat {
    encode_utf8(s).len()
}

/// The encoding of two texts, one after the other, is their encodings, one after the other.
pub proof fn lemma_encode_concat(a: Seq<char>, b: Seq<char>)
    ensures
        encode_utf8(a + b) == encode_utf8(a) + encode_utf8(b),
    decreases a.len(),
{
    if a.len() == 0 {
        assert(a + b =~= b);
        assert(encode_utf8(a) + encode_utf8(b) =~= encode_utf8(b));
    } else {
        lemma_encode_concat(a.drop_first(), b);
        assert((a + b).drop_first() =~= a.drop_first() + b);
        assert((a + b)[0] == a[0]);
        assert(encode_scalar(a[0] as u32) + (encode_utf8(a.drop_first()) + encode_utf8(b))
            =~= encode_utf8(a) + encode_utf8(b));
    }
}

/// A text with one more character is longer by the width of that character.
pub proof fn lemma_utf8_len_push(s: Seq<char>, c: char)
    ensures
        utf8_len(s.push(c)) == utf8_len(s) + utf8_len(seq![c]),
        1 <= utf8_len(seq![c]) <= 4,
{
    lemma_encode_concat(s, seq![c]);
    assert(s.push(c) =~= s + seq![c]);
    assert(seq![c].drop_first() =~= Seq::<char>::empty());
    assert(encode_utf8(Seq::<char>::empty()).len() == 0);
}

/// The length of `s` in bytes.
pub fn byte_len(s: &str) -> (n: usize)
    ensures
        n == utf8_len(s@),
{
    s.as_bytes().len()
}

/// The length of one character in bytes.
pub fn char_width(c: char) -> (n: usize)
    ensures
        n == utf8_len(seq![c]),
        1 <= n <= 4,
{
    proof {
        lemma_utf8_len_push(Seq::<char>::empty(), c);
        assert(seq![c].drop_first() =~= Seq::<char>::empty());
        assert(encode_utf8(Seq::<char>::empty()).len() == 0);
        assert(seq![c][0] == c);
        char_is_scalar(c);
    }
    let code: u32 = c as u32;
    if code <= 0x7f {
        1
    } else if code <= 0x7ff {
        2
    } else if code <= 0xffff {
        3
    } else {
        4
    }
}

/// The number that a numeral stands for, read digit by digit.
pub open spec fn numeral_value(s: Seq<char>, base: nat) -> nat
    decreases s.len(),
{
    if s.len() == 0 {
        0
    } else {
        numeral_value(s.drop_last(), base) * base + digit_value(s.last())
    }
}

/// The number that a digit stands for, in a base up to sixteen.
pub open spec fn digit_value(c: char) -> nat {
    if '0' <= c <= '9' {
        (c as nat - '0' as nat) as nat
    } else if 'a' <= c <= 'f' {
        (c as nat - 'a' as nat + 10) as nat
    } else {
        0
    }
}

/// A numeral reads back as its number, in every base up to sixteen.
pub proof fn law_numerals_read_back(n: nat, base: nat)
    requires
        2 <= base <= 16,
    ensures
        numeral_value(numeral(n, base), base) == n,
        n > 0 ==> numeral(n, base)[0] != '0',
        numeral(n, base).len() > 0,
    decreases n,
{
    let s = numeral(n, base);
    if n < base {
        assert(s.drop_last() =~= Seq::<char>::empty());
        assert(numeral_value(Seq::<char>::empty(), base) == 0);
        assert(0 * base == 0) by (nonlinear_arith);
    } else {
        assert(n / base < n && n / base > 0) by (nonlinear_arith)
            requires
                2 <= base <= n,
        ;
        law_numerals_read_back(n / base, base);
        assert(s.drop_last() =~= numeral(n / base, base));
        assert(n % base < base) by (nonlinear_arith)
            requires
                2 <= base,
        ;
        assert((n / base) * base + n % base == n) by (nonlinear_arith)
            requires
                2 <= base,
        ;
        assert(s[0] == numeral(n / base, base)[0]);
    }
}

/// A number of four digits keeps its value, and has four digits where it would have fewer.
pub proof fn law_four_digits(n: nat)
    ensures
        unsigned_value(four_digits(n)) == Some(n),
        n <= 9999 ==> four_digits(n).len() == 4,
{
    lemma_decimal_value(n);
    let plain = decimal(n);
    lemma_leading_zeros((4 - plain.len()) as nat, plain);
    assert(text::all_digits(four_digits(n))) by {
        assert forall|i: int| 0 <= i < four_digits(n).len() implies '0' <= #[trigger] four_digits(
            n,
        )[i] <= '9' by {
            if plain.len() < 4 && i >= 4 - plain.len() {
                assert(four_digits(n)[i] == plain[i - (4 - plain.len())]);
            }
        }
    }
    if n <= 9999 {
        assert(decimal(n).len() <= 4) by {
            reveal_with_fuel(numeral, 5);
        }
    }
}

proof fn lemma_leading_zeros(k: nat, s: Seq<char>)
    ensures
        digits_value(zeros(k) + s) == digits_value(s),
    decreases s.len() + k,
{
    let all = zeros(k) + s;
    if s.len() > 0 {
        assert(all.drop_last() =~= zeros(k) + s.drop_last());
        lemma_leading_zeros(k, s.drop_last());
    } else if k > 0 {
        assert(all.drop_last() =~= zeros((k - 1) as nat) + s);
        lemma_leading_zeros((k - 1) as nat, s);
        assert(all.last() == '0');
    } else {
        assert(all =~= s);
    }
}

/// A number below zero has a sign before its digits, and no other number has one.
pub proof fn law_signs(n: int)
    ensures
        n >= 0 ==> unsigned_value(signed_decimal(n)) == Some(n as nat),
        n < 0 ==> signed_decimal(n).len() > 0 && signed_decimal(n)[0] == '-' && unsigned_value(
            signed_decimal(n).drop_first(),
        ) == Some((-n) as nat),
{
    if n >= 0 {
        law_decimal_reads_back(n as nat);
    } else {
        law_decimal_reads_back((-n) as nat);
        assert(signed_decimal(n).drop_first() =~= decimal((-n) as nat));
    }
}

/// A number is read digit by digit, zeros before it among them; a plus before it does not count; and
/// a text that is empty or holds anything else is no number.
pub proof fn law_numbers_are_read_digit_by_digit(s: Seq<char>, c: char, i: int)
    ensures
        text::all_digits(s) && s.len() > 0 && '0' <= c <= '9' ==> unsigned_value(s) is Some
            && unsigned_value(s.push(c)) == Some(
            (unsigned_value(s)->0 * 10 + (c as nat - '0' as nat)) as nat,
        ),
        '0' <= c <= '9' ==> unsigned_value(seq![c]) == Some((c as nat - '0' as nat) as nat),
        text::all_digits(s) && s.len() > 0 ==> unsigned_value(seq!['0'] + s) == unsigned_value(s),
        text::all_digits(s) && s.len() > 0 ==> unsigned_value(seq!['+'] + s) == unsigned_value(s),
        unsigned_value(Seq::empty()) is None,
        unsigned_value(seq!['+']) is None,
        0 < i < s.len() && !('0' <= s[i] <= '9') ==> unsigned_value(s) is None,
{
    let one = seq![c];
    assert(one.drop_last() =~= Seq::<char>::empty());
    assert(digits_value(Seq::<char>::empty()) == 0);
    assert(one[0] == c);
    assert(seq!['+'].drop_first() =~= Seq::<char>::empty());
    if text::all_digits(s) && s.len() > 0 {
        assert('0' <= s[0] <= '9');
        let zeroed = seq!['0'] + s;
        lemma_leading_zeros(1, s);
        assert(zeros(1) + s =~= zeroed);
        assert(text::all_digits(zeroed)) by {
            assert forall|k: int| 0 <= k < zeroed.len() implies '0' <= #[trigger] zeroed[k]
                <= '9' by {
                if k > 0 {
                    assert(zeroed[k] == s[k - 1]);
                }
            }
        }
        assert((seq!['+'] + s).drop_first() =~= s);
        assert((seq!['+'] + s)[0] == '+');
        if '0' <= c <= '9' {
            let more = s.push(c);
            assert(more.drop_last() =~= s);
            assert(more[0] == s[0]);
            assert(text::all_digits(more));
        }
    }
    if 0 < i < s.len() && !('0' <= s[i] <= '9') {
        if s[0] == '+' {
            assert(s.drop_first()[i - 1] == s[i]);
        }
    }
}

} // verus!
