//! Decimal numbers as text: how they are written, and how they are read back.

use vstd::arithmetic::power::{lemma_pow0, pow};
use vstd::prelude::*;
use vstd::string::*;
use vstd::utf8::*;

verus! {

/// The number of characters a segment's file name has at least.
pub const NAME_WIDTH: usize = 8;

/// The decimal digit for `d`.
pub open spec fn digit(d: int) -> char
    recommends
        0 <= d < 10,
{
    (48 + d) as char
}

/// `n` in decimal, without leading zeros.
pub open spec fn decimal(n: nat) -> Seq<char>
    decreases n,
{
    if n < 10 {
        seq![digit(n as int)]
    } else {
        decimal(n / 10).push(digit(n as int % 10))
    }
}

/// `n` in decimal, with as many leading zeros as it takes to make it `width` characters long.
pub open spec fn zero_padded(n: nat, width: nat) -> Seq<char> {
    let digits = decimal(n);
    if digits.len() < width {
        Seq::new((width - digits.len()) as nat, |i: int| '0') + digits
    } else {
        digits
    }
}

/// The decimal digit for `d`, as text.
fn digit_text(d: u64) -> (text: &'static str)
    requires
        d < 10,
    ensures
        text@ == seq![digit(d as int)],
{
    proof {
        reveal_strlit("0");
        reveal_strlit("1");
        reveal_strlit("2");
        reveal_strlit("3");
        reveal_strlit("4");
        reveal_strlit("5");
        reveal_strlit("6");
        reveal_strlit("7");
        reveal_strlit("8");
        reveal_strlit("9");
    }
    match d {
        0 => "0",
        1 => "1",
        2 => "2",
        3 => "3",
        4 => "4",
        5 => "5",
        6 => "6",
        7 => "7",
        8 => "8",
        _ => "9",
    }
}

/// Writes `n` in decimal.
pub fn decimal_text(n: u64) -> (text: String)
    ensures
        text@ == decimal(n as nat),
        is_numeral(text@, n as int),
    decreases n,
{
    proof {
        law_one_numeral(n, Seq::empty());
    }
    let mut text = if n < 10 {
        String::new()
    } else {
        decimal_text(n / 10)
    };
    text.append(digit_text(n % 10));
    text
}

/// Writes `n` in decimal, with leading zeros where it would be shorter than `width`.
pub fn zero_padded_text(n: u64, width: usize) -> (text: String)
    ensures
        text@ == zero_padded(n as nat, width as nat),
        number_u64(encode_utf8(text@)) == Some(n),
{
    proof {
        law_number_read_back(n, width as nat);
    }
    let digits = decimal_text(n);
    let len: usize = digits.as_str().unicode_len();
    let mut text = String::new();
    let mut written: usize = len;
    while written < width
        invariant
            len == digits@.len(),
            len <= written,
            len < width ==> written <= width,
            len >= width ==> written == len,
            text@ == Seq::new((written - len) as nat, |i: int| '0'),
        decreases width - written,
    {
        text.append("0");
        written = written + 1;
        proof {
            reveal_strlit("0");
        }
        assert(text@ =~= Seq::new((written - len) as nat, |i: int| '0'));
    }
    text.append(digits.as_str());
    assert(text@ =~= zero_padded(n as nat, width as nat));
    text
}

/// The value of `digits` as a decimal number.
pub open spec fn digits_value(digits: Seq<u8>) -> nat
    decreases digits.len(),
{
    if digits.len() == 0 {
        0
    } else {
        digits_value(digits.drop_last()) * 10 + (digits.last() - 48) as nat
    }
}

/// Whether `text` is one decimal digit or more and nothing else.
pub open spec fn all_digits(text: Seq<u8>) -> bool {
    &&& text.len() > 0
    &&& forall|i: int| 0 <= i < text.len() ==> 48 <= #[trigger] text[i] <= 57
}

/// The number that `text` stands for: digits, with a `+` or a `-` before them or not.
pub open spec fn signed_number(text: Seq<u8>) -> Option<int> {
    if text.len() > 0 && text[0] == 43 && all_digits(text.drop_first()) {
        Some(digits_value(text.drop_first()) as int)
    } else if text.len() > 0 && text[0] == 45 && all_digits(text.drop_first()) {
        Some(-digits_value(text.drop_first()))
    } else if all_digits(text) {
        Some(digits_value(text) as int)
    } else {
        None
    }
}

/// What `text` reads as where an unsigned number is expected: no `-`, and at most `u64::MAX`.
pub open spec fn number_u64(text: Seq<u8>) -> Option<u64> {
    if text.len() > 0 && text[0] == 45 {
        None
    } else {
        match signed_number(text) {
            Some(n) if n <= u64::MAX => Some(n as u64),
            _ => None,
        }
    }
}

/// What `text` reads as where a signed number is expected: one that an `i64` can hold.
pub open spec fn number_i64(text: Seq<u8>) -> Option<i64> {
    match signed_number(text) {
        Some(n) if i64::MIN <= n <= i64::MAX => Some(n as i64),
        _ => None,
    }
}

/// The value of some leading digits is at most that of all.
proof fn lemma_prefix_value(digits: Seq<u8>, k: int)
    requires
        0 <= k <= digits.len(),
        forall|i: int| 0 <= i < digits.len() ==> 48 <= #[trigger] digits[i] <= 57,
    ensures
        digits_value(digits.take(k)) <= digits_value(digits),
    decreases digits.len(),
{
    if k == digits.len() {
        assert(digits.take(k) =~= digits);
    } else {
        let init = digits.drop_last();
        assert(init.take(k) =~= digits.take(k));
        lemma_prefix_value(init, k);
    }
}

/// Leading zeros do not count.
proof fn lemma_leading_zeros(zeros: Seq<u8>, digits: Seq<u8>)
    requires
        forall|i: int| 0 <= i < zeros.len() ==> #[trigger] zeros[i] == 48,
    ensures
        digits_value(zeros + digits) == digits_value(digits),
    decreases zeros.len() + digits.len(),
{
    let all = zeros + digits;
    if digits.len() > 0 {
        assert(all.drop_last() =~= zeros + digits.drop_last());
        lemma_leading_zeros(zeros, digits.drop_last());
    } else if zeros.len() > 0 {
        assert(all.drop_last() =~= zeros.drop_last() + digits);
        lemma_leading_zeros(zeros.drop_last(), digits);
    }
}

/// What `decimal` and `zero_padded` write is digits only.
pub proof fn lemma_digits_only(n: nat, width: nat)
    ensures
        decimal(n).len() > 0,
        forall|i: int| 0 <= i < decimal(n).len() ==> '0' <= #[trigger] decimal(n)[i] <= '9',
        forall|i: int|
            0 <= i < zero_padded(n, width).len() ==> '0' <= #[trigger] zero_padded(n, width)[i]
                <= '9',
    decreases n,
{
    if n >= 10 {
        lemma_digits_only(n / 10, width);
    }
}

/// The bytes of a text of digits are its characters, one for one.
pub proof fn lemma_digit_bytes(text: Seq<char>)
    requires
        forall|i: int| 0 <= i < text.len() ==> '0' <= #[trigger] text[i] <= '9',
    ensures
        encode_utf8(text).len() == text.len(),
        forall|i: int| 0 <= i < text.len() ==> #[trigger] encode_utf8(text)[i] == text[i] as u8,
{
    assert(is_ascii_chars(text));
    is_ascii_chars_encode_utf8(text);
}

proof fn lemma_decimal_value(n: nat)
    ensures
        digits_value(encode_utf8(decimal(n))) == n,
    decreases n,
{
    lemma_digits_only(n, 0);
    lemma_digit_bytes(decimal(n));
    let bytes = encode_utf8(decimal(n));
    if n < 10 {
        assert(bytes.drop_last() =~= Seq::<u8>::empty());
        assert(digits_value(bytes.drop_last()) == 0);
    } else {
        lemma_decimal_value(n / 10);
        lemma_digits_only(n / 10, 0);
        lemma_digit_bytes(decimal(n / 10));
        assert(bytes.drop_last() =~= encode_utf8(decimal(n / 10)));
    }
}

/// A number that was written, with leading zeros or without, reads back as itself, where an
/// unsigned number is expected and where a signed one is.
pub proof fn law_number_read_back(n: u64, width: nat)
    ensures
        number_u64(encode_utf8(zero_padded(n as nat, width))) == Some(n),
        n <= i64::MAX ==> number_i64(encode_utf8(zero_padded(n as nat, width))) == Some(n as i64),
{
    let digits = decimal(n as nat);
    let text = zero_padded(n as nat, width);
    lemma_digits_only(n as nat, width);
    lemma_digit_bytes(digits);
    lemma_digit_bytes(text);
    lemma_decimal_value(n as nat);
    let zeros = Seq::new((text.len() - digits.len()) as nat, |i: int| 48u8);
    assert(encode_utf8(text) =~= zeros + encode_utf8(digits));
    lemma_leading_zeros(zeros, encode_utf8(digits));
    assert(all_digits(encode_utf8(text)));
}

/// The value of digits goes by their places: digits with others behind them count ten times as much
/// for each of those, and one digit alone counts what it stands for.
pub proof fn law_digits_value(a: Seq<u8>, b: Seq<u8>, one: u8)
    requires
        '0' as u8 <= one <= '9' as u8,
    ensures
        digits_value(a + b) == digits_value(a) * pow(10, b.len()) + digits_value(b),
        digits_value(seq![one]) == one - '0' as u8,
    decreases b.len(),
{
    let single = seq![one];
    assert(single.drop_last() =~= Seq::<u8>::empty());
    assert(digits_value(single.drop_last()) == 0);
    if b.len() == 0 {
        lemma_pow0(10);
        assert(a + b =~= a);
    } else {
        let init = b.drop_last();
        law_digits_value(a, init, one);
        assert((a + b).drop_last() =~= a + init);
        reveal(pow);
        let (v, p) = (digits_value(a) as int, pow(10, init.len()));
        assert(pow(10, b.len()) == 10 * p);
        assert((v * p) * 10 == v * (10 * p)) by (nonlinear_arith);
    }
}

/// Digits read as the number that they make, if it fits. A `+` before them changes nothing. A `-`
/// is for signed numbers only, and there it gives the number below zero.
pub proof fn law_digits_read(digits: Seq<u8>)
    requires
        digits.len() > 0,
        forall|i: int|
            0 <= i < digits.len() ==> '0' as u8 <= #[trigger] digits[i] <= '9' as u8,
    ensures
        ({
            let value = digits_value(digits) as int;
            let plus = seq!['+' as u8] + digits;
            let minus = seq!['-' as u8] + digits;
            &&& number_u64(digits) == if value <= u64::MAX {
                Some(value as u64)
            } else {
                None
            }
            &&& number_u64(plus) == number_u64(digits)
            &&& number_u64(minus) is None
            &&& number_i64(digits) == if value <= i64::MAX {
                Some(value as i64)
            } else {
                None
            }
            &&& number_i64(plus) == number_i64(digits)
            &&& number_i64(minus) == if -value >= i64::MIN {
                Some((-value) as i64)
            } else {
                None
            }
        }),
{
    assert((seq!['+' as u8] + digits).drop_first() =~= digits);
    assert((seq!['-' as u8] + digits).drop_first() =~= digits);
    assert(all_digits(digits));
}

/// Nothing but digits, with a sign before them or not, reads as a number: no text that is empty
/// behind its sign, and none that has another byte there.
pub proof fn law_only_digits_read(text: Seq<u8>, i: int)
    requires
        ({
            let signed = text.len() > 0 && (text[0] == '+' as u8 || text[0] == '-' as u8);
            let digits = if signed {
                text.drop_first()
            } else {
                text
            };
            digits.len() == 0 || 0 <= i < digits.len() && !('0' as u8 <= digits[i] <= '9' as u8)
        }),
    ensures
        number_u64(text) is None,
        number_i64(text) is None,
{
}

/// Whether `text` is how `n` is written: in digits that read as `n`, and no `0` before others.
pub open spec fn is_numeral(text: Seq<char>, n: int) -> bool {
    &&& text.len() > 0
    &&& forall|i: int| 0 <= i < text.len() ==> '0' <= #[trigger] text[i] <= '9'
    &&& text.len() > 1 ==> text[0] != '0'
    &&& 0 <= n <= u64::MAX
    &&& number_u64(encode_utf8(text)) == Some(n as u64)
}

proof fn lemma_no_leading_zero(n: nat)
    ensures
        n > 0 ==> decimal(n)[0] != '0',
        n == 0 ==> decimal(n).len() == 1,
    decreases n,
{
    if n >= 10 {
        lemma_no_leading_zero(n / 10);
        lemma_digits_only(n / 10, 0);
    }
}

proof fn lemma_numeral_is_decimal(text: Seq<char>)
    requires
        text.len() > 0,
        forall|i: int| 0 <= i < text.len() ==> '0' <= #[trigger] text[i] <= '9',
        text.len() > 1 ==> text[0] != '0',
    ensures
        decimal(digits_value(encode_utf8(text))) == text,
    decreases text.len(),
{
    lemma_digit_bytes(text);
    let bytes = encode_utf8(text);
    let n = digits_value(bytes);
    if text.len() == 1 {
        assert(bytes.drop_last() =~= Seq::<u8>::empty());
        assert(digits_value(bytes.drop_last()) == 0);
        assert(decimal(n) =~= text);
    } else {
        let init = text.drop_last();
        lemma_digit_bytes(init);
        assert(encode_utf8(init) =~= bytes.drop_last());
        lemma_numeral_is_decimal(init);
        let v = digits_value(encode_utf8(init));
        lemma_prefix_value(encode_utf8(init), 1);
        let first = encode_utf8(init).take(1);
        assert(first =~= seq![bytes[0]]);
        law_digits_value(Seq::empty(), Seq::empty(), bytes[0]);
        assert(v > 0);
        assert(n == v * 10 + (bytes.last() - 48));
        assert(decimal(n) =~= text);
    }
}

/// A number has one numeral, and that is what is written for it.
pub proof fn law_one_numeral(n: u64, text: Seq<char>)
    ensures
        is_numeral(decimal(n as nat), n as int),
        is_numeral(text, n as int) ==> text == decimal(n as nat),
{
    lemma_digits_only(n as nat, 0);
    lemma_no_leading_zero(n as nat);
    law_number_read_back(n, 0);
    if is_numeral(text, n as int) {
        lemma_digit_bytes(text);
        lemma_numeral_is_decimal(text);
        assert(all_digits(encode_utf8(text)));
    }
}

/// Padding puts zeros before a number's numeral, as many as it takes to reach the width, and leaves
/// a numeral that is long enough as it is.
pub proof fn law_padding(n: u64, width: nat, numeral: Seq<char>)
    requires
        is_numeral(numeral, n as int),
    ensures
        ({
            let text = zero_padded(n as nat, width);
            let zeros = text.len() - numeral.len();
            &&& text.len() == if numeral.len() < width {
                width
            } else {
                numeral.len()
            }
            &&& text.skip(zeros) == numeral
            &&& forall|i: int| 0 <= i < zeros ==> #[trigger] text[i] == '0'
        }),
{
    law_one_numeral(n, numeral);
    let text = zero_padded(n as nat, width);
    assert(text.skip(text.len() - numeral.len()) =~= numeral);
}

/// Reads `text[from..]` as digits. None if there is none, if anything else is there, or if the
/// value is over `limit`.
fn read_digits(text: &[u8], from: usize, limit: u64) -> (value: Option<u64>)
    requires
        from <= text@.len(),
    ensures
        value == (if all_digits(text@.skip(from as int)) && digits_value(text@.skip(from as int))
            <= limit {
            Some(digits_value(text@.skip(from as int)) as u64)
        } else {
            None
        }),
{
    let ghost digits = text@.skip(from as int);
    if from == text.len() {
        return None;
    }
    let mut value: u64 = 0;
    let mut i: usize = from;
    assert(digits.take(0) =~= Seq::<u8>::empty());
    while i < text.len()
        invariant
            from <= i <= text@.len(),
            digits == text@.skip(from as int),
            value <= limit,
            value == digits_value(digits.take(i - from)),
            forall|j: int| 0 <= j < i - from ==> 48 <= #[trigger] digits[j] <= 57,
        decreases text@.len() - i,
    {
        let b: u8 = text[i];
        assert(b == digits[i - from]);
        if b < 48 || b > 57 {
            return None;
        }
        let d: u64 = (b - 48) as u64;
        proof {
            let next = digits.take(i - from + 1);
            assert(next.drop_last() =~= digits.take(i - from));
            assert(next.last() == b);
            if all_digits(digits) {
                lemma_prefix_value(digits, i - from + 1);
            }
        }
        if d > limit || value > limit / 10 || value * 10 > limit - d {
            return None;
        }
        value = value * 10 + d;
        i = i + 1;
    }
    assert(digits.take(i - from) =~= digits);
    Some(value)
}

/// Reads `text` as an unsigned number.
pub fn parse_u64(text: &[u8]) -> (number: Option<u64>)
    ensures
        number == number_u64(text@),
{
    proof {
        assert(text@.skip(0) =~= text@);
        if text@.len() > 0 {
            assert(text@.skip(1) =~= text@.drop_first());
        }
    }
    if text.len() > 0 && text[0] == 43 {
        read_digits(text, 1, u64::MAX)
    } else {
        read_digits(text, 0, u64::MAX)
    }
}

/// Reads `text` as a signed number.
pub fn parse_i64(text: &[u8]) -> (number: Option<i64>)
    ensures
        number == number_i64(text@),
{
    proof {
        assert(text@.skip(0) =~= text@);
        if text@.len() > 0 {
            assert(text@.skip(1) =~= text@.drop_first());
        }
    }
    if text.len() > 0 && text[0] == 45 {
        match read_digits(text, 1, 0x8000_0000_0000_0000) {
            Some(0x8000_0000_0000_0000) => Some(i64::MIN),
            Some(value) => Some(-(value as i64)),
            None => None,
        }
    } else {
        let from: usize = if text.len() > 0 && text[0] == 43 {
            1
        } else {
            0
        };
        match read_digits(text, from, 0x7fff_ffff_ffff_ffff) {
            Some(value) => Some(value as i64),
            None => None,
        }
    }
}

} // verus!
