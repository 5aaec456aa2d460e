//! Decimal text: how numbers are written into messages and read from settings.

use vstd::prelude::*;

verus! {

/// The character that writes the digit `d`.
pub open spec fn digit_char(d: nat) -> char {
    (48 + d) as char
}

/// `n` in decimal, without leading zeros.
pub open spec fn decimal_chars(n: nat) -> Seq<char>
    decreases n,
{
    if n < 10 {
        seq![digit_char(n)]
    } else {
        decimal_chars(n / 10).push(digit_char(n % 10))
    }
}

/// `i` in decimal, with a minus sign in front where it is negative.
pub open spec fn signed_decimal_chars(i: int) -> Seq<char> {
    if i < 0 {
        "-"@ + decimal_chars((-i) as nat)
    } else {
        decimal_chars(i as nat)
    }
}

/// The text of one decimal digit.
fn digit_text(d: u8) -> (s: &'static str)
    requires
        d < 10,
    ensures
        s@ == seq![digit_char(d as nat)],
{
    proof {
        reveal_strlit("0");
        reveal_strlit("1");
        reveal_strlit("2");
        reveal_strlit("3");
        reveal_strlit("4");
        reveal_strlit("5");
        reveal_strlit("6");
        reveal_strlit("7");
        reveal_strlit("8");
        reveal_strlit("9");
    }
    let s: &'static str = match d {
        0 => "0",
        1 => "1",
        2 => "2",
        3 => "3",
        4 => "4",
        5 => "5",
        6 => "6",
        7 => "7",
        8 => "8",
        _ => "9",
    };
    assert(s@ =~= seq![digit_char(d as nat)]);
    s
}

/// Writes `n` in decimal.
pub fn decimal(n: u128) -> (s: String)
    ensures
        s@ == decimal_chars(n as nat),
    decreases n,
{
    if n < 10 {
        digit_text(n as u8).to_owned()
    } else {
        let mut s = decimal(n / 10);
        s.append(digit_text((n % 10) as u8));
        assert(s@ =~= decimal_chars(n as nat));
        s
    }
}

/// Writes `i` in decimal, with its sign where it is negative.
pub fn signed_decimal(i: i64) -> (s: String)
    ensures
        s@ == signed_decimal_chars(i as int),
{
    if i < 0 {
        let mut s = "-".to_owned();
        let magnitude: i128 = -(i as i128);
        s.append(decimal(magnitude as u128).as_str());
        s
    } else {
        decimal(i as u128)
    }
}

/// Whether `c` is one of the ten decimal digits.
pub open spec fn is_digit(c: char) -> bool {
    '0' <= c <= '9'
}

/// The number that a run of decimal digits stands for.
pub open spec fn digits_value(s: Seq<char>) -> nat
    decreases s.len(),
{
    if s.len() == 0 {
        0
    } else {
        digits_value(s.drop_last()) * 10 + (s.last() as nat - 48) as nat
    }
}

/// The digits of a written number: what follows an optional plus sign.
pub open spec fn unsigned_digits(s: Seq<char>) -> Seq<char> {
    if s.len() > 0 && s[0] == '+' {
        s.skip(1)
    } else {
        s
    }
}

/// What a setting reads as: an optional plus sign, then one or more decimal
/// digits and nothing else, whose value a `u32` holds.
pub open spec fn parsed_u32(s: Seq<char>) -> Option<u32> {
    let digits = unsigned_digits(s);
    if digits.len() > 0 && (forall|i: int| 0 <= i < digits.len() ==> is_digit(#[trigger] digits[i]))
        && digits_value(digits) <= u32::MAX {
        Some(digits_value(digits) as u32)
    } else {
        None
    }
}

/// A run of digits stands for no less than any of its prefixes does.
proof fn lemma_digits_value_prefix(s: Seq<char>, k: int)
    requires
        0 <= k <= s.len(),
    ensures
        digits_value(s.take(k)) <= digits_value(s),
    decreases s.len(),
{
    if k == s.len() {
        assert(s.take(k) =~= s);
    } else {
        lemma_digits_value_prefix(s.drop_last(), k);
        assert(s.drop_last().take(k) =~= s.take(k));
    }
}

/// Reads a `u32` from decimal text.
pub fn parse_u32(s: &str) -> (r: Option<u32>)
    ensures
        r == parsed_u32(s@),
{
    let len: usize = s.unicode_len();
    let ghost digits = unsigned_digits(s@);
    let start: usize = if len > 0 && s.get_char(0) == '+' { 1 } else { 0 };
    if start == len {
        return None;
    }
    assert(digits =~= s@.skip(start as int));
    let mut i: usize = start;
    let mut value: u64 = 0;
    assert(digits.take(0) =~= Seq::<char>::empty());
    while i < len
        invariant
            start <= i <= len,
            len == s@.len(),
            digits == unsigned_digits(s@),
            digits == s@.skip(start as int),
            digits.len() > 0,
            value <= u32::MAX,
            value == digits_value(digits.take(i - start)),
            forall|j: int| 0 <= j < i - start ==> is_digit(#[trigger] digits[j]),
        decreases len - i,
    {
        let c = s.get_char(i);
        assert(c == digits[i - start]);
        if c < '0' || c > '9' {
            assert(!is_digit(digits[i - start]));
            return None;
        }
        let d: u64 = (c as u32 - 48) as u64;
        proof {
            let next = digits.take(i - start + 1);
            assert(next.drop_last() =~= digits.take(i - start));
            assert(next.last() == c);
            assert(digits_value(next) == value * 10 + d);
            lemma_digits_value_prefix(digits, i - start + 1);
        }
        value = value * 10 + d;
        if value > u32::MAX as u64 {
            return None;
        }
        i = i + 1;
    }
    assert(digits.take(len - start) =~= digits);
    Some(value as u32)
}

/// A number is written with digits alone, the first of which is no zero but for zero
/// itself, and reads back as what it was.
pub proof fn law_decimal_reads_back(n: nat)
    ensures
        ({
            let s = decimal_chars(n);
            &&& s.len() > 0
            &&& forall|i: int| 0 <= i < s.len() ==> '0' <= #[trigger] s[i] <= '9'
            &&& n > 0 ==> s[0] != '0'
            &&& n == 0 ==> s == seq!['0']
            &&& digits_value(s) == n
            &&& parsed_u32(s) == (if n <= u32::MAX {
                Some(n as u32)
            } else {
                None
            })
            &&& parsed_u32(seq!['+'] + s) == parsed_u32(s)
        }),
    decreases n,
{
    let s = decimal_chars(n);
    if n < 10 {
        assert(s.drop_last() =~= Seq::<char>::empty());
        assert(s.last() == digit_char(n));
        assert(digits_value(s) == digits_value(s.drop_last()) * 10 + n);
        assert(n == 0 ==> s =~= seq!['0']);
    } else {
        law_decimal_reads_back(n / 10);
        assert(s.drop_last() =~= decimal_chars(n / 10));
        assert(s.last() == digit_char(n % 10));
        assert(s[0] == decimal_chars(n / 10)[0]);
    }
    assert(unsigned_digits(s) == s);
    assert((seq!['+'] + s).skip(1) =~= s);
    assert(unsigned_digits(seq!['+'] + s) == s);
    assert(forall|i: int| 0 <= i < s.len() ==> is_digit(#[trigger] s[i]));
}

/// A negative number is written as its opposite with a minus sign in front, and any other
/// as a number is.
pub proof fn law_signed_decimal(i: int)
    ensures
        i >= 0 ==> signed_decimal_chars(i) == decimal_chars(i as nat),
        i < 0 ==> signed_decimal_chars(i) == seq!['-'] + decimal_chars((-i) as nat),
{
    reveal_strlit("-");
    assert("-"@ =~= seq!['-']);
}

/// Each digit counts ten times the one behind it.
pub proof fn law_digits_count(s: Seq<char>, c: char)
    requires
        '0' <= c <= '9',
    ensures
        digits_value(Seq::<char>::empty()) == 0,
        digits_value(s.push(c)) == 10 * digits_value(s) + (c as int - '0' as int),
{
    assert(s.push(c).drop_last() =~= s);
}

/// What has anything but a digit in it, other than a plus sign in front, does not read as
/// a number.
pub proof fn law_only_digits_are_read(s: Seq<char>)
    requires
        s.len() == 0 || (exists|i: int| 0 < i < s.len() && !('0' <= #[trigger] s[i] <= '9')) || (
        s[0] != '+' && !('0' <= s[0] <= '9')) || s == seq!['+'],
    ensures
        parsed_u32(s) is None,
{
    let digits = unsigned_digits(s);
    if exists|i: int| 0 < i < s.len() && !('0' <= #[trigger] s[i] <= '9') {
        let i = choose|i: int| 0 < i < s.len() && !('0' <= #[trigger] s[i] <= '9');
        if s[0] == '+' {
            assert(digits[i - 1] == s[i]);
            assert(!is_digit(digits[i - 1]));
        } else {
            assert(digits[i] == s[i]);
            assert(!is_digit(digits[i]));
        }
    } else if s.len() > 0 && s[0] != '+' {
        assert(!is_digit(digits[0]));
    }
}

} // verus!
