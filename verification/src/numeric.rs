//! Decimal numeric program data.
//!
//! Floating-point hardware values cannot be reasoned about here, so the
//! library models a numeric parameter by what its encoding reads: the three
//! special cases (not-a-number, the two infinities) and, for a finite value,
//! its decimal scientific form — sign, one integer digit, fraction digits,
//! and a signed decimal exponent. A caller converts a machine float into
//! this form before encoding; the form carries exactly the information the
//! wire syntax needs.

use vstd::prelude::*;

use crate::wire::dec_digits;
use crate::wire::digit_bytes;

verus! {

/// The decimal scientific form of a finite numeric value:
/// `[-]D[.DDD...]E[-]EXP`, representing `(-1)^negative * D.DDD... * 10^(±EXP)`.
#[derive(Clone, Debug)]
pub struct FiniteFloat {
    /// Whether the mantissa carries a leading minus sign.
    pub negative: bool,
    /// The single digit before the decimal point.
    pub integer_digit: u8,
    /// The digits after the decimal point; empty means no point is written.
    pub fraction: Vec<u8>,
    /// Whether the exponent is negative.
    pub exp_negative: bool,
    /// The magnitude of the exponent.
    pub exponent: u32,
}

/// A numeric parameter: a finite value in decimal scientific form, or one
/// of the special values of decimal numeric program data.
///
/// Reference: SCPI 1999.0: 7.2 - Decimal Numeric Program Data
#[derive(Clone, Debug)]
pub enum ScpiFloat {
    /// Not a number, written `NAN`.
    ///
    /// Reference: SCPI 1999.0: 7.2.1.5 - Not A Number (NAN)
    NotANumber,
    /// Positive infinity, written `INF`.
    ///
    /// Reference: SCPI 1999.0: 7.2.1.4 - INFinity
    Infinity,
    /// Negative infinity, written `NINF`.
    ///
    /// Reference: SCPI 1999.0: 7.2.1.4 - Negative INFinity (NINF)
    NegInfinity,
    /// A finite value in decimal scientific form.
    Finite(FiniteFloat),
}

impl FiniteFloat {
    /// A well-formed decimal scientific form: every digit is a digit, a
    /// negative exponent is nonzero, and a zero mantissa is written as the
    /// canonical `0E0` (no fraction, no exponent), as the conversion from a
    /// machine float produces it.
    pub open spec fn wf(self) -> bool {
        &&& self.integer_digit <= 9
        &&& (forall|i: int| 0 <= i < self.fraction@.len() ==> #[trigger] self.fraction@[i] <= 9)
        &&& (self.exp_negative ==> self.exponent >= 1)
        &&& (self.integer_digit == 0 ==> self.fraction@.len() == 0 && self.exponent == 0
            && !self.exp_negative)
    }

    /// Whether the mantissa, read as `D.DDD...`, is at most 9.9.
    pub open spec fn mantissa_le_9_9(self) -> bool {
        ||| self.integer_digit < 9
        ||| self.fraction@.len() == 0
        ||| (self.fraction@[0] < 9 || (self.fraction@[0] == 9 && forall|i: int|
            1 <= i < self.fraction@.len() ==> #[trigger] self.fraction@[i] == 0))
    }

    /// Whether the value's magnitude lies within the decimal numeric
    /// program-data range of ±9.9 × 10³⁷. For a well-formed form this is
    /// exact: the magnitude is below 10³⁸ with a mantissa of at most 9.9 on
    /// the top decade.
    pub open spec fn in_range(self) -> bool {
        ||| self.exp_negative
        ||| self.exponent <= 36
        ||| (self.exponent == 37 && self.mantissa_le_9_9())
    }

    /// The mantissa on the wire: optional `-`, the integer digit, and the
    /// fraction after a decimal point if there is one.
    pub open spec fn mantissa_wire(self) -> Seq<u8> {
        (if self.negative {
            seq![45u8]
        } else {
            Seq::<u8>::empty()
        }) + seq![(48 + self.integer_digit) as u8] + (if self.fraction@.len() > 0 {
            seq![46u8] + digit_bytes(self.fraction@)
        } else {
            Seq::<u8>::empty()
        })
    }

    /// The exponent on the wire: `-` when negative, then the magnitude in
    /// decimal — never a `+`, never a leading zero.
    pub open spec fn exponent_wire(self) -> Seq<u8> {
        (if self.exp_negative {
            seq![45u8]
        } else {
            Seq::<u8>::empty()
        }) + dec_digits(self.exponent as nat)
    }

    /// The wire bytes of the form: the mantissa, the `E` marker, and the
    /// exponent.
    pub open spec fn wire(self) -> Seq<u8> {
        self.mantissa_wire() + seq![69u8] + self.exponent_wire()
    }

    /// Whether the form is well-formed and within the protocol range, as
    /// executable code.
    pub fn check(&self) -> (r: bool)
        ensures
            r == (self.wf() && self.in_range()),
    {
        if self.integer_digit > 9 {
            return false;
        }
        let n = self.fraction.len();
        let mut i: usize = 0;
        while i < n
            invariant
                n == self.fraction@.len(),
                i <= n,
                forall|j: int| 0 <= j < i ==> #[trigger] self.fraction@[j] <= 9,
            decreases n - i,
        {
            if self.fraction[i] > 9 {
                assert(self.fraction@[i as int] > 9);
                return false;
            }
            i = i + 1;
        }
        if self.exp_negative && self.exponent == 0 {
            return false;
        }
        if self.integer_digit == 0 && (n > 0 || self.exponent != 0 || self.exp_negative) {
            return false;
        }
        if self.exp_negative || self.exponent <= 36 {
            return true;
        }
        if self.exponent != 37 {
            assert(!self.in_range());
            return false;
        }
        if self.integer_digit < 9 || n == 0 {
            return true;
        }
        if self.fraction[0] < 9 {
            return true;
        }
        assert(self.fraction@[0] == 9);
        let mut i: usize = 1;
        while i < n
            invariant
                n == self.fraction@.len(),
                1 <= i <= n,
                self.integer_digit == 9,
                self.fraction@[0] == 9,
                !self.exp_negative,
                self.exponent == 37,
                self.wf(),
                forall|j: int| 1 <= j < i ==> #[trigger] self.fraction@[j] == 0,
            decreases n - i,
        {
            if self.fraction[i] != 0 {
                assert(self.fraction@[i as int] != 0);
                assert(!self.mantissa_le_9_9());
                return false;
            }
            i = i + 1;
        }
        true
    }

    /// Appends the form's wire bytes.
    pub fn emit(&self, w: &mut Vec<u8>)
        requires
            self.wf(),
        ensures
            final(w)@ == old(w)@ + self.wire(),
    {
        if self.negative {
            w.push(45);
        }
        w.push(48 + self.integer_digit);
        let n = self.fraction.len();
        let ghost head = old(w)@ + (if self.negative {
            seq![45u8]
        } else {
            Seq::<u8>::empty()
        }) + seq![(48 + self.integer_digit) as u8];
        assert(w@ =~= head);
        if n > 0 {
            w.push(46);
            let mut i: usize = 0;
            while i < n
                invariant
                    self.wf(),
                    n == self.fraction@.len(),
                    i <= n,
                    w@ == head + seq![46u8] + digit_bytes(self.fraction@.subrange(0, i as int)),
                decreases n - i,
            {
                let d = self.fraction[i];
                w.push(48 + d);
                assert(digit_bytes(self.fraction@.subrange(0, i + 1)) =~= digit_bytes(
                    self.fraction@.subrange(0, i as int),
                ) + seq![(48 + self.fraction@[i as int]) as u8]);
                assert(w@ =~= head + seq![46u8] + digit_bytes(
                    self.fraction@.subrange(0, i + 1),
                ));
                i = i + 1;
            }
            assert(self.fraction@.subrange(0, n as int) =~= self.fraction@);
        }
        w.push(69);
        if self.exp_negative {
            w.push(45);
        }
        crate::wire::push_dec(w, self.exponent as u128);
        assert(w@ =~= old(w)@ + self.wire());
    }
}

} // verus!
