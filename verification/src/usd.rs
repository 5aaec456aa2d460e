//! Amounts of money in US dollars.

use vstd::prelude::*;

verus! {

/// An amount in dollars. It is held as the bit pattern of an IEEE 754 double,
/// by which amounts are compared, with the text that shows it to five decimal
/// places.
#[derive(Debug)]
pub struct Usd {
    pub bits: u64,
    pub text: String,
}

/// What an amount stands for.
pub struct UsdView {
    pub bits: u64,
    pub text: Seq<char>,
}

impl View for Usd {
    type V = UsdView;

    open spec fn view(&self) -> UsdView {
        UsdView { bits: self.bits, text: self.text@ }
    }
}

/// The bit pattern without its sign.
pub open spec fn magnitude_bits(bits: u64) -> int {
    bits as int % 0x8000_0000_0000_0000
}

/// Whether the bit pattern stands for no number.
pub open spec fn is_nan(bits: u64) -> bool {
    magnitude_bits(bits) > 0x7ff0_0000_0000_0000
}

/// An integer that is ordered as the numbers are for which the patterns stand:
/// within one sign, a double grows with its bit pattern.
pub open spec fn order_key(bits: u64) -> int {
    if bits >= 0x8000_0000_0000_0000 {
        -magnitude_bits(bits)
    } else {
        magnitude_bits(bits)
    }
}

impl UsdView {
    /// Whether the amount is greater than `limit`. What is not a number is
    /// greater than nothing, and nothing is greater than it.
    pub open spec fn exceeds(self, limit: UsdView) -> bool {
        !is_nan(self.bits) && !is_nan(limit.bits) && order_key(self.bits) > order_key(limit.bits)
    }
}

impl Clone for Usd {
    fn clone(&self) -> (r: Usd)
        ensures
            r@ == self@,
    {
        Usd { bits: self.bits, text: self.text.clone() }
    }
}

const SIGN_BIT: u64 = 0x8000_0000_0000_0000;

const INFINITY_BITS: u64 = 0x7ff0_0000_0000_0000;

impl Usd {
    /// The amount whose double has the bit pattern `bits` and which `text`
    /// shows to five decimal places.
    pub fn new(bits: u64, text: String) -> (r: Usd)
        ensures
            r@ == (UsdView { bits, text: text@ }),
    {
        Usd { bits, text }
    }

    /// No money.
    pub fn zero() -> (r: Usd)
        ensures
            r@ == (UsdView { bits: 0, text: "0.00000"@ }),
    {
        Usd { bits: 0, text: "0.00000".to_owned() }
    }

    /// Whether the amount is greater than `limit`.
    pub fn exceeds(&self, limit: &Usd) -> (r: bool)
        ensures
            r == self@.exceeds(limit@),
    {
        let own: u64 = self.bits % SIGN_BIT;
        let other: u64 = limit.bits % SIGN_BIT;
        if own > INFINITY_BITS || other > INFINITY_BITS {
            return false;
        }
        let own_negative = self.bits >= SIGN_BIT;
        let other_negative = limit.bits >= SIGN_BIT;
        if own_negative {
            other_negative && own < other
        } else if other_negative {
            own > 0 || other > 0
        } else {
            own > other
        }
    }
}

/// Which of two amounts is the greater, by their bit patterns alone: what is not a number
/// is never greater nor less; without a sign the greater pattern is, with one the lesser
/// pattern is, and an amount without a sign is greater than one with it unless both are
/// zero.
pub proof fn law_exceeds(a: UsdView, b: UsdView)
    ensures
        ({
            let sign: int = 0x8000_0000_0000_0000;
            let infinity: int = 0x7ff0_0000_0000_0000;
            let a_size = if a.bits >= sign {
                a.bits - sign
            } else {
                a.bits as int
            };
            let b_size = if b.bits >= sign {
                b.bits - sign
            } else {
                b.bits as int
            };
            a.exceeds(b) <==> a_size <= infinity && b_size <= infinity && (if a.bits >= sign {
                b.bits >= sign && a_size < b_size
            } else if b.bits >= sign {
                a_size > 0 || b_size > 0
            } else {
                a_size > b_size
            })
        }),
{
}

/// To be greater is an order: nothing is greater than itself, no two amounts are each
/// greater than the other, and what is greater than a greater one is greater.
pub proof fn law_exceeding_is_an_order(a: UsdView, b: UsdView, c: UsdView)
    ensures
        !a.exceeds(a),
        a.exceeds(b) ==> !b.exceeds(a),
        a.exceeds(b) && b.exceeds(c) ==> a.exceeds(c),
{
}

} // verus!
