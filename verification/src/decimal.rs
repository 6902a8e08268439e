use vstd::prelude::*;

verus! {

/// A non-negative fixed-point decimal amount, counted in units of the
/// smallest representable increment (one tick). Prices and quantities share
/// this type; all arithmetic on it is exact.
#[derive(Clone, Copy, Debug, Hash, PartialEq, Eq, Structural)]
pub struct Decimal {
    pub units: u128,
}

impl Decimal {
    pub fn new(units: u128) -> (r: Self)
        ensures
            r.units == units,
    {
        Decimal { units }
    }

    pub fn zero() -> (r: Self)
        ensures
            r.units == 0,
    {
        Decimal { units: 0 }
    }

    pub fn is_zero(&self) -> (r: bool)
        ensures
            r == (self.units == 0),
    {
        self.units == 0
    }

    /// Exact addition.
    pub fn plus(self, other: Decimal) -> (r: Decimal)
        requires
            self.units + other.units <= u128::MAX,
        ensures
            r.units == self.units + other.units,
    {
        Decimal { units: self.units + other.units }
    }

    /// Exact subtraction.
    pub fn minus(self, other: Decimal) -> (r: Decimal)
        requires
            other.units <= self.units,
        ensures
            r.units == self.units - other.units,
    {
        Decimal { units: self.units - other.units }
    }

    /// The smaller of the two amounts.
    pub fn min_with(self, other: Decimal) -> (r: Decimal)
        ensures
            r.units == if self.units <= other.units {
                self.units
            } else {
                other.units
            },
    {
        if self.units <= other.units {
            self
        } else {
            other
        }
    }
}

} // verus!
