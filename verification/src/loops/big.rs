//! Integers of any size.
use num_bigint::BigInt;
use vstd::arithmetic::power;
use vstd::arithmetic::power2;
use vstd::prelude::*;

verus! {

/// The number that bytes stand for, the least significant byte first.
pub open spec fn magnitude(bytes: Seq<u8>) -> nat
    decreases bytes.len(),
{
    if bytes.len() == 0 {
        0
    } else {
        (bytes[0] + 256 * magnitude(bytes.skip(1))) as nat
    }
}

/// The number that bytes stand for in two's complement, the least significant
/// byte first.
pub open spec fn twos_complement(bytes: Seq<u8>) -> int {
    if bytes.len() > 0 && bytes.last() >= 128 {
        magnitude(bytes) - power::pow(256, bytes.len())
    } else {
        magnitude(bytes) as int
    }
}

/// An integer of any size, as its bytes in two's complement.
#[derive(Debug, PartialEq, Eq)]
pub struct BigNum {
    bytes: Vec<u8>,
}

impl View for BigNum {
    type V = int;

    closed spec fn view(&self) -> int {
        twos_complement(self.bytes@)
    }
}

impl Clone for BigNum {
    fn clone(&self) -> (r: Self)
        ensures
            r@ == self@,
    {
        let bytes = self.bytes.clone();
        assert(bytes@ =~= self.bytes@);
        BigNum { bytes }
    }
}

impl BigNum {
    /// `BigInt::from` on an `i128`: the integer with the same value.
    #[verifier::external_body]
    fn from_i128(c: i128) -> (r: BigNum)
        ensures
            r@ == c,
    {
        BigNum { bytes: BigInt::from(c).to_signed_bytes_le() }
    }

    /// `BigInt`'s `<<` on one: the power of two.
    #[verifier::external_body]
    fn shifted_one(n: u8) -> (r: BigNum)
        ensures
            r@ == power2::pow2(n as nat),
    {
        BigNum { bytes: (BigInt::from(1) << n).to_signed_bytes_le() }
    }

    /// `BigInt`'s `-`: the difference.
    #[verifier::external_body]
    fn difference(&self, other: &BigNum) -> (r: BigNum)
        ensures
            r@ == self@ - other@,
    {
        let a = BigInt::from_signed_bytes_le(&self.bytes);
        let b = BigInt::from_signed_bytes_le(&other.bytes);
        BigNum { bytes: (a - b).to_signed_bytes_le() }
    }

    /// `BigInt`'s `==`: the values are the same.
    #[verifier::external_body]
    fn equals(&self, other: &BigNum) -> (r: bool)
        ensures
            r == (self@ == other@),
    {
        BigInt::from_signed_bytes_le(&self.bytes) == BigInt::from_signed_bytes_le(&other.bytes)
    }

    /// The integer with this value.
    pub fn of(c: i128) -> (r: BigNum)
        ensures
            r@ == c,
    {
        BigNum::from_i128(c)
    }

    /// A power of two.
    pub fn power_of_two(n: u8) -> (r: BigNum)
        ensures
            r@ == power2::pow2(n as nat),
    {
        BigNum::shifted_one(n)
    }

    /// The difference of two integers.
    pub fn minus(&self, other: &BigNum) -> (r: BigNum)
        ensures
            r@ == self@ - other@,
    {
        self.difference(other)
    }

    /// Two integers have the same value.
    pub fn same(&self, other: &BigNum) -> (r: bool)
        ensures
            r == (self@ == other@),
    {
        self.equals(other)
    }
}

} // verus!
