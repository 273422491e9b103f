//! Pool depths as arbitrary-precision natural numbers.

use vstd::prelude::*;

verus! {

/// The base of one digit of a [`Depth`]: digits are 32-bit words.
pub open spec fn digit_base() -> nat {
    0x1_0000_0000
}

/// The number that a little-endian sequence of 32-bit digits denotes.
pub open spec fn digits_value(digits: Seq<u32>) -> nat
    decreases digits.len(),
{
    if digits.len() == 0 {
        0
    } else {
        digits[0] as nat + digit_base() * digits_value(digits.drop_first())
    }
}

/// A sequence of digits denotes zero exactly when every digit is zero.
pub proof fn lemma_digits_value_zero(digits: Seq<u32>)
    ensures
        digits_value(digits) == 0 <==> (forall|i: int| 0 <= i < digits.len() ==> digits[i] == 0),
    decreases digits.len(),
{
    if digits.len() > 0 {
        let rest = digits.drop_first();
        lemma_digits_value_zero(rest);
        if digits_value(digits) == 0 {
            assert forall|i: int| 0 <= i < digits.len() implies digits[i] == 0 by {
                if i > 0 {
                    assert(digits[i] == rest[i - 1]);
                }
            }
        }
        if forall|i: int| 0 <= i < digits.len() ==> digits[i] == 0 {
            assert forall|i: int| 0 <= i < rest.len() implies rest[i] == 0 by {
                assert(rest[i] == digits[i + 1]);
            }
            assert(digits[0] == 0);
        }
    }
}

/// The liquidity depth of a pool: a natural number of any size, held as
/// little-endian 32-bit digits.
#[derive(Debug, Clone)]
pub struct Depth {
    digits: Vec<u32>,
}

impl View for Depth {
    type V = nat;

    open spec fn view(&self) -> nat {
        digits_value(self.digit_seq())
    }
}

impl Depth {
    /// The little-endian 32-bit digits that hold this depth.
    pub closed spec fn digit_seq(&self) -> Seq<u32> {
        self.digits@
    }

    /// The depth denoted by the little-endian 32-bit `digits`.
    pub fn from_digits(digits: Vec<u32>) -> (depth: Depth)
        ensures
            depth.digit_seq() == digits@,
    {
        Depth { digits }
    }

    /// The depth `value`.
    pub fn from_u64(value: u64) -> (depth: Depth)
        ensures
            depth@ == value as nat,
            depth.digit_seq() == seq![(value % 0x1_0000_0000) as u32, (value / 0x1_0000_0000) as u32],
    {
        let low = (value % 0x1_0000_0000) as u32;
        let high = (value / 0x1_0000_0000) as u32;
        let mut digits: Vec<u32> = Vec::new();
        digits.push(low);
        digits.push(high);
        proof {
            let s = digits@;
            assert(s.drop_first().drop_first() =~= Seq::<u32>::empty());
            assert(digits_value(s.drop_first().drop_first()) == 0);
            assert(s.drop_first()[0] == high);
            assert(digits_value(s.drop_first()) == high as nat);
            assert(value == high * 0x1_0000_0000 + low);
        }
        Depth { digits }
    }

    /// The little-endian 32-bit digits of this depth.
    pub fn digits(&self) -> (digits: &Vec<u32>)
        ensures
            digits@ == self.digit_seq(),
    {
        &self.digits
    }

    /// Whether this depth is zero.
    pub fn is_zero(&self) -> (zero: bool)
        ensures
            zero == (self@ == 0),
    {
        proof {
            lemma_digits_value_zero(self.digits@);
        }
        let n = self.digits.len();
        let mut i: usize = 0;
        while i < n
            invariant
                n == self.digits@.len(),
                i <= n,
                forall|j: int| 0 <= j < i ==> self.digits@[j] == 0,
            decreases n - i,
        {
            if self.digits[i] != 0 {
                proof {
                    lemma_digits_value_zero(self.digits@);
                    assert(self.digits@[i as int] != 0);
                }
                return false;
            }
            i += 1;
        }
        true
    }

    /// A second depth with the same value.
    pub fn duplicate(&self) -> (copy: Depth)
        ensures
            copy.digit_seq() == self.digit_seq(),
    {
        let n = self.digits.len();
        let mut digits: Vec<u32> = Vec::new();
        let mut i: usize = 0;
        while i < n
            invariant
                n == self.digits@.len(),
                i <= n,
                digits@ =~= self.digits@.take(i as int),
            decreases n - i,
        {
            digits.push(self.digits[i]);
            i += 1;
        }
        assert(digits@ =~= self.digits@);
        Depth { digits }
    }
}

} // verus!
