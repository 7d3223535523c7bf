//! Unbounded signed integers, held as a sign and base 2^32 digits (least
//! significant first). Arithmetic and comparison are done by `num_bigint`.

use num_bigint::{BigInt, Sign};
use vstd::prelude::*;

verus! {

/// The value of base 2^32 digits, least significant digit first.
pub open spec fn digits_value(d: Seq<u32>) -> nat
    decreases d.len(),
{
    if d.len() == 0 {
        0
    } else {
        d[0] as nat + 0x1_0000_0000 * digits_value(d.drop_first())
    }
}

/// An integer of any size.
#[derive(Debug)]
pub struct Integer {
    negative: bool,
    digits: Vec<u32>,
}

impl View for Integer {
    type V = int;

    closed spec fn view(&self) -> int {
        if self.negative {
            -(digits_value(self.digits@) as int)
        } else {
            digits_value(self.digits@) as int
        }
    }
}

impl Integer {
    /// The integer `v`.
    pub fn from_i64(v: i64) -> (r: Integer)
        ensures
            r@ == v as int,
    {
        integer_of_i64(v)
    }

    /// The sign (`true` for negative) and the base 2^32 digits, least
    /// significant first.
    pub fn parts(&self) -> (r: (bool, Vec<u32>))
        ensures
            self@ == if r.0 {
                -(digits_value(r.1@) as int)
            } else {
                digits_value(r.1@) as int
            },
    {
        let digits = self.digits.clone();
        assert(digits@ =~= self.digits@);
        (self.negative, digits)
    }

    /// An equal integer.
    pub fn copy(&self) -> (r: Integer)
        ensures
            r@ == self@,
    {
        let digits = self.digits.clone();
        assert(digits@ =~= self.digits@);
        Integer { negative: self.negative, digits }
    }

    pub fn add(&self, o: &Integer) -> (r: Integer)
        ensures
            r@ == self@ + o@,
    {
        big_add(self, o)
    }

    pub fn sub(&self, o: &Integer) -> (r: Integer)
        ensures
            r@ == self@ - o@,
    {
        big_sub(self, o)
    }

    /// `self + d` for a small step `d`.
    pub fn add_i64(&self, d: i64) -> (r: Integer)
        ensures
            r@ == self@ + d,
    {
        big_add(self, &integer_of_i64(d))
    }

    pub fn less_than(&self, o: &Integer) -> (r: bool)
        ensures
            r == (self@ < o@),
    {
        big_lt(self, o)
    }

    pub fn equals(&self, o: &Integer) -> (r: bool)
        ensures
            r == (self@ == o@),
    {
        big_eq(self, o)
    }

    /// Whether this integer equals the machine integer `v`.
    pub fn is(&self, v: i64) -> (r: bool)
        ensures
            r == (self@ == v as int),
    {
        big_eq(self, &integer_of_i64(v))
    }

    /// Whether this integer is above zero.
    pub fn is_positive(&self) -> (r: bool)
        ensures
            r == (self@ > 0),
    {
        big_lt(&integer_of_i64(0), self)
    }
}

/// Relies on `BigInt::from(i64)`, read back through `BigInt::to_u32_digits`
/// (sign and base 2^32 digits, least significant first).
#[verifier::external_body]
fn integer_of_i64(v: i64) -> (r: Integer)
    ensures
        r@ == v as int,
{
    let (sign, digits) = BigInt::from(v).to_u32_digits();
    Integer { negative: sign == Sign::Minus, digits }
}

/// Relies on `BigInt + BigInt` (exact sum), with the operands built by
/// `BigInt::from_slice` and the sum read back by `BigInt::to_u32_digits`.
#[verifier::external_body]
fn big_add(a: &Integer, b: &Integer) -> (r: Integer)
    ensures
        r@ == a@ + b@,
{
    let x = BigInt::from_slice(if a.negative { Sign::Minus } else { Sign::Plus }, &a.digits);
    let y = BigInt::from_slice(if b.negative { Sign::Minus } else { Sign::Plus }, &b.digits);
    let (sign, digits) = (x + y).to_u32_digits();
    Integer { negative: sign == Sign::Minus, digits }
}

/// Relies on `BigInt - BigInt` (exact difference), with the operands built by
/// `BigInt::from_slice` and the result read back by `BigInt::to_u32_digits`.
#[verifier::external_body]
fn big_sub(a: &Integer, b: &Integer) -> (r: Integer)
    ensures
        r@ == a@ - b@,
{
    let x = BigInt::from_slice(if a.negative { Sign::Minus } else { Sign::Plus }, &a.digits);
    let y = BigInt::from_slice(if b.negative { Sign::Minus } else { Sign::Plus }, &b.digits);
    let (sign, digits) = (x - y).to_u32_digits();
    Integer { negative: sign == Sign::Minus, digits }
}

/// Relies on `<` of `BigInt` (numeric order), with the operands built by
/// `BigInt::from_slice`.
#[verifier::external_body]
fn big_lt(a: &Integer, b: &Integer) -> (r: bool)
    ensures
        r == (a@ < b@),
{
    let x = BigInt::from_slice(if a.negative { Sign::Minus } else { Sign::Plus }, &a.digits);
    let y = BigInt::from_slice(if b.negative { Sign::Minus } else { Sign::Plus }, &b.digits);
    x < y
}

/// Relies on `==` of `BigInt` (numeric equality), with the operands built by
/// `BigInt::from_slice`.
#[verifier::external_body]
fn big_eq(a: &Integer, b: &Integer) -> (r: bool)
    ensures
        r == (a@ == b@),
{
    let x = BigInt::from_slice(if a.negative { Sign::Minus } else { Sign::Plus }, &a.digits);
    let y = BigInt::from_slice(if b.negative { Sign::Minus } else { Sign::Plus }, &b.digits);
    x == y
}

} // verus!
