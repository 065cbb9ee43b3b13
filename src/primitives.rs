//! Price, amount and order: market-data scalars validated once, at construction.
//!
//! A price or an amount is carried as the bit pattern of an IEEE-754 binary64
//! value. For the values accepted here (positive normal numbers, and +0 for an
//! amount) the order of the bit patterns read as unsigned integers is the order
//! of the real numbers they encode, so every comparison is exact and total.

use vstd::prelude::*;

verus! {

/// The biased exponent field of a binary64 bit pattern.
pub open spec fn exponent_field(bits: u64) -> u64 {
    (bits >> 52u64) & 0x7ffu64
}

/// The sign bit of a binary64 bit pattern.
pub open spec fn sign_field(bits: u64) -> u64 {
    bits >> 63u64
}

/// The pattern encodes a normal number: neither zero, subnormal, infinite nor NaN.
pub open spec fn is_normal(bits: u64) -> bool {
    exponent_field(bits) != 0 && exponent_field(bits) != 0x7ff
}

/// A valid price: a normal, strictly positive number.
pub open spec fn is_valid_price(bits: u64) -> bool {
    is_normal(bits) && sign_field(bits) == 0
}

/// A valid amount: +0, or a normal strictly positive number.
pub open spec fn is_valid_amount(bits: u64) -> bool {
    bits == 0 || is_valid_price(bits)
}

/// A normal positive number representing a valid price.
#[derive(Clone, Copy, Debug, PartialEq, Eq, PartialOrd, Ord, Hash)]
pub struct Price(u64);

impl View for Price {
    type V = u64;

    /// The binary64 bit pattern of the price.
    closed spec fn view(&self) -> u64 {
        self.0
    }
}

impl Price {
    #[verifier::type_invariant]
    spec fn inv(self) -> bool {
        is_valid_price(self.0)
    }

    /// Accepts the binary64 value with bit pattern `value` when it is normal and
    /// strictly positive; hands the pattern back otherwise.
    pub fn new(value: u64) -> (r: Result<Self, u64>)
        ensures
            is_valid_price(value) <==> r is Ok,
            r is Ok ==> r->Ok_0@ == value,
            r is Err ==> r->Err_0 == value,
    {
        let exponent = (value >> 52u64) & 0x7ffu64;
        if exponent != 0 && exponent != 0x7ff && (value >> 63u64) == 0 {
            Ok(Price(value))
        } else {
            Err(value)
        }
    }

    /// The bit pattern of the price.
    pub fn into_inner(&self) -> (r: u64)
        ensures
            r == self@,
            is_valid_price(r),
    {
        proof {
            use_type_invariant(self);
        }
        self.0
    }
}

/// A non-negative amount: +0 or a normal positive number.
#[derive(Clone, Copy, Debug, PartialEq, Eq, PartialOrd, Ord, Hash)]
pub struct Amount(u64);

impl View for Amount {
    type V = u64;

    /// The binary64 bit pattern of the amount.
    closed spec fn view(&self) -> u64 {
        self.0
    }
}

impl Default for Amount {
    /// The zero amount.
    fn default() -> (r: Self)
        ensures
            r@ == 0,
    {
        Amount(0)
    }
}

impl Amount {
    #[verifier::type_invariant]
    spec fn inv(self) -> bool {
        is_valid_amount(self.0)
    }

    /// Accepts the binary64 value with bit pattern `value` when it is +0 or normal
    /// and strictly positive; hands the pattern back otherwise.
    pub fn new(value: u64) -> (r: Result<Self, u64>)
        ensures
            is_valid_amount(value) <==> r is Ok,
            r is Ok ==> r->Ok_0@ == value,
            r is Err ==> r->Err_0 == value,
    {
        let exponent = (value >> 52u64) & 0x7ffu64;
        if value == 0 || (exponent != 0 && exponent != 0x7ff && (value >> 63u64) == 0) {
            Ok(Amount(value))
        } else {
            Err(value)
        }
    }

    /// The bit pattern of the amount.
    pub fn into_inner(&self) -> (r: u64)
        ensures
            r == self@,
            is_valid_amount(r),
    {
        proof {
            use_type_invariant(self);
        }
        self.0
    }
}

/// A price level: a price and the amount offered at it.
#[derive(Clone, Copy, Debug, PartialEq, Eq)]
pub struct Order(Price, Amount);

impl Order {
    /// The bit pattern of the order's price.
    pub closed spec fn price_key(self) -> u64 {
        self.0@
    }

    /// The bit pattern of the order's amount.
    pub closed spec fn amount_key(self) -> u64 {
        self.1@
    }

    /// An empty order encodes the removal of its price level.
    pub open spec fn spec_is_empty(self) -> bool {
        self.amount_key() == 0
    }

    pub fn new(price: Price, amount: Amount) -> (r: Self)
        ensures
            r.price_key() == price@,
            r.amount_key() == amount@,
    {
        Order(price, amount)
    }

    pub fn price(&self) -> (r: Price)
        ensures
            r@ == self.price_key(),
    {
        self.0
    }

    pub fn amount(&self) -> (r: Amount)
        ensures
            r@ == self.amount_key(),
    {
        self.1
    }

    /// Orders are determined by their price and amount.
    pub proof fn lemma_ext(self, other: Order)
        requires
            self.price_key() == other.price_key(),
            self.amount_key() == other.amount_key(),
        ensures
            self == other,
    {
    }

    /// The order's price bits, for comparisons.
    pub fn price_bits(&self) -> (r: u64)
        ensures
            r == self.price_key(),
    {
        self.0.into_inner()
    }

    /// The order's amount bits, for comparisons.
    pub fn amount_bits(&self) -> (r: u64)
        ensures
            r == self.amount_key(),
    {
        self.1.into_inner()
    }

    /// True exactly when the amount is +0.
    pub fn is_empty(&self) -> (r: bool)
        ensures
            r == self.spec_is_empty(),
    {
        self.1.into_inner() == 0
    }

    /// The same price level with a zero amount: the order that deletes it.
    pub fn empty(&self) -> (r: Self)
        ensures
            r.price_key() == self.price_key(),
            r.spec_is_empty(),
    {
        Order(self.0, Amount::default())
    }
}

/// The venues whose books are merged, in their fixed iteration order.
#[derive(Clone, Copy, Debug, PartialEq, Eq, PartialOrd, Ord, Hash, Structural)]
pub enum Exchange {
    Binance,
    Bitstamp,
}

impl Exchange {
    /// The position of the exchange in the iteration order.
    pub open spec fn spec_ordinal(self) -> int {
        match self {
            Exchange::Binance => 0,
            Exchange::Bitstamp => 1,
        }
    }

    pub fn ordinal(&self) -> (r: usize)
        ensures
            r == self.spec_ordinal(),
    {
        match self {
            Exchange::Binance => 0,
            Exchange::Bitstamp => 1,
        }
    }
}

/// An order of the summary book together with the exchange that quotes it.
#[derive(Clone, Copy, Debug, PartialEq, Eq)]
pub struct SummaryOrder(pub Exchange, pub Order);

impl SummaryOrder {
    pub fn exchange(&self) -> (r: Exchange)
        ensures
            r == self.0,
    {
        self.0
    }

    pub fn order(&self) -> (r: Order)
        ensures
            r == self.1,
    {
        self.1
    }
}

} // verus!
