//! Identifiers of tasks: universally unique identifiers held as 128-bit numbers.

use vstd::arithmetic::div_mod::{lemma_mod_breakdown, lemma_small_mod};
use vstd::arithmetic::power::{lemma_pow0, lemma_pow1, lemma_pow_adds, lemma_pow_positive, pow};
use vstd::prelude::*;

verus! {

/// The hexadecimal digit of `id` that has `place` digits behind it.
pub open spec fn hex_digit(id: u128, place: nat) -> int {
    (id as int / pow(16, place)) % 16
}

/// The character that writes the hexadecimal digit `d`.
pub open spec fn hex_char(d: int) -> char {
    if d < 10 {
        (48 + d) as char
    } else {
        (87 + d) as char
    }
}

/// `id` as 32 lower-case hexadecimal digits, the most significant first.
pub open spec fn simple_chars(id: u128) -> Seq<char> {
    Seq::new(32, |i: int| hex_char(hex_digit(id, (31 - i) as nat)))
}

/// `id` as lower-case hexadecimal digits in groups of 8, 4, 4, 4 and 12 with
/// hyphens between them.
pub open spec fn hyphenated_chars(id: u128) -> Seq<char> {
    let digits = simple_chars(id);
    digits.subrange(0, 8) + "-"@ + digits.subrange(8, 12) + "-"@ + digits.subrange(12, 16) + "-"@
        + digits.subrange(16, 20) + "-"@ + digits.subrange(20, 32)
}

/// Whether `id` carries the marks of a random identifier: version 4, and the
/// variant whose leading bits are one and zero.
pub open spec fn is_random_id(id: u128) -> bool {
    hex_digit(id, 19) == 4 && 8 <= hex_digit(id, 15) < 12
}

/// Draws an identifier with `uuid::Uuid::new_v4`, read by `Uuid::as_u128`. All
/// bits but those of the version and the variant are left to chance.
#[verifier::external_body]
pub(crate) fn random_id() -> (id: u128)
    ensures
        is_random_id(id),
{
    uuid::Uuid::new_v4().as_u128()
}

/// Writes an identifier with `uuid::Uuid::simple`, the value made by
/// `Uuid::from_u128`: 32 lower-case hexadecimal digits.
#[verifier::external_body]
pub(crate) fn simple_text(id: u128) -> (s: String)
    ensures
        s@ == simple_chars(id),
{
    uuid::Uuid::from_u128(id).simple().to_string()
}

/// Writes an identifier with the `Display` of `uuid::Uuid`, the value made by
/// `Uuid::from_u128`: lower-case hexadecimal digits in hyphenated groups.
#[verifier::external_body]
pub(crate) fn hyphenated_text(id: u128) -> (s: String)
    ensures
        s@ == hyphenated_chars(id),
{
    uuid::Uuid::from_u128(id).to_string()
}

/// Two numbers with the same hexadecimal digits below a place agree below it.
proof fn lemma_low_digits(a: u128, b: u128, places: nat)
    requires
        forall|k: nat| k < places ==> #[trigger] hex_digit(a, k) == hex_digit(b, k),
    ensures
        a as int % pow(16, places) == b as int % pow(16, places),
    decreases places,
{
    lemma_pow0(16);
    if places > 0 {
        let k = (places - 1) as nat;
        lemma_low_digits(a, b, k);
        lemma_pow_positive(16, k);
        lemma_pow_adds(16, k, 1);
        lemma_pow1(16);
        assert(pow(16, places) == pow(16, k) * 16);
        lemma_mod_breakdown(a as int, pow(16, k), 16);
        lemma_mod_breakdown(b as int, pow(16, k), 16);
        assert(hex_digit(a, k) == hex_digit(b, k));
    }
}

/// Different digits are written by different characters.
proof fn lemma_hex_char_injective(a: int, b: int)
    requires
        0 <= a < 16,
        0 <= b < 16,
        hex_char(a) == hex_char(b),
    ensures
        a == b,
{
}

/// Different identifiers are written differently.
pub proof fn lemma_simple_chars_injective(a: u128, b: u128)
    requires
        simple_chars(a) == simple_chars(b),
    ensures
        a == b,
{
    assert forall|k: nat| k < 32 implies #[trigger] hex_digit(a, k) == hex_digit(b, k) by {
        assert(simple_chars(a)[31 - k] == hex_char(hex_digit(a, k)));
        assert(simple_chars(b)[31 - k] == hex_char(hex_digit(b, k)));
        lemma_hex_char_injective(hex_digit(a, k), hex_digit(b, k));
    }
    lemma_low_digits(a, b, 32);
    assert(pow(16, 32) == 0x1_0000_0000_0000_0000_0000_0000_0000_0000) by {
        reveal_with_fuel(pow, 33);
    }
    lemma_small_mod(a as nat, pow(16, 32) as nat);
    lemma_small_mod(b as nat, pow(16, 32) as nat);
}

} // verus!
