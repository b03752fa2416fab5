//! Integers of the format: any value from `i64::MIN` to `u64::MAX`.
use core::cmp::Ordering;
use crate::grammar::signed_decimal;
use crate::ser::decimal_digits;
use vstd::prelude::*;

verus! {

#[derive(Clone, Copy, Debug, PartialEq, Eq, Structural)]
enum IntegerType {
    /// A value held in signed form (zero, the negatives, and small positives).
    Negative(i64),
    /// A value held in unsigned form.
    Positive(u64),
}

/// An integer of the format. It is held in one of two forms, but only its
/// mathematical value counts: equal values compare equal whatever their form.
#[derive(Clone, Copy, Debug)]
pub struct Integer {
    inner: IntegerType,
}

/// The order of two mathematical integers.
pub open spec fn int_cmp(a: int, b: int) -> Ordering {
    if a < b {
        Ordering::Less
    } else if a > b {
        Ordering::Greater
    } else {
        Ordering::Equal
    }
}

impl View for Integer {
    type V = int;

    closed spec fn view(&self) -> int {
        match self.inner {
            IntegerType::Negative(n) => n as int,
            IntegerType::Positive(n) => n as int,
        }
    }
}

impl Integer {
    /// Every integer lies between `i64::MIN` and `u64::MAX`.
    pub proof fn lemma_range(&self)
        ensures
            i64::MIN <= self@ <= u64::MAX,
    {
    }

    /// The integer `value`, held in signed form.
    pub fn from_i64(value: i64) -> (r: Integer)
        ensures
            r@ == value as int,
    {
        Integer { inner: IntegerType::Negative(value) }
    }

    /// The integer `value`, held in unsigned form.
    pub fn from_u64(value: u64) -> (r: Integer)
        ensures
            r@ == value as int,
    {
        Integer { inner: IntegerType::Positive(value) }
    }

    /// Whether the value fits in an `i64`.
    pub fn is_i64(&self) -> (r: bool)
        ensures
            r == (self@ <= i64::MAX),
            i64::MIN <= self@ <= u64::MAX,
    {
        match self.inner {
            IntegerType::Positive(n) => n <= i64::MAX as u64,
            IntegerType::Negative(_) => true,
        }
    }

    /// Whether the value fits in a `u64`.
    pub fn is_u64(&self) -> (r: bool)
        ensures
            r == (self@ >= 0),
            i64::MIN <= self@ <= u64::MAX,
    {
        match self.inner {
            IntegerType::Positive(_) => true,
            IntegerType::Negative(n) => n >= 0,
        }
    }

    /// The value as an `i64`, where it fits.
    pub fn as_i64(&self) -> (r: Option<i64>)
        ensures
            i64::MIN <= self@ <= u64::MAX,
            r == (if self@ <= i64::MAX {
                Some(self@ as i64)
            } else {
                None::<i64>
            }),
    {
        match self.inner {
            IntegerType::Negative(n) => Some(n),
            IntegerType::Positive(n) => {
                if n <= i64::MAX as u64 {
                    Some(n as i64)
                } else {
                    None
                }
            },
        }
    }

    /// The value as a `u64`, where it fits.
    pub fn as_u64(&self) -> (r: Option<u64>)
        ensures
            i64::MIN <= self@ <= u64::MAX,
            r == (if self@ >= 0 {
                Some(self@ as u64)
            } else {
                None::<u64>
            }),
    {
        match self.inner {
            IntegerType::Positive(n) => Some(n),
            IntegerType::Negative(n) => {
                if n >= 0 {
                    Some(n as u64)
                } else {
                    None
                }
            },
        }
    }

    /// The decimal text of the value: a minus sign only when negative, no
    /// leading zeros.
    pub fn to_decimal(&self) -> (r: Vec<u8>)
        ensures
            r@ == signed_decimal(self@),
    {
        match self.inner {
            IntegerType::Positive(m) => decimal_digits(m),
            IntegerType::Negative(v) => {
                if v >= 0 {
                    decimal_digits(v as u64)
                } else {
                    let mut text: Vec<u8> = Vec::new();
                    text.push(45);
                    let magnitude = (-(v + 1)) as u64 + 1;
                    let mut digits = decimal_digits(magnitude);
                    text.append(&mut digits);
                    assert(text@ =~= signed_decimal(self@));
                    text
                }
            },
        }
    }

    /// Compares two integers by value: first by sign, then by magnitude.
    pub fn compare(&self, other: &Integer) -> (r: Ordering)
        ensures
            r == int_cmp(self@, other@),
    {
        match (self.inner, other.inner) {
            (IntegerType::Negative(a), IntegerType::Negative(b)) => {
                if a < b {
                    Ordering::Less
                } else if a > b {
                    Ordering::Greater
                } else {
                    Ordering::Equal
                }
            },
            (IntegerType::Positive(a), IntegerType::Positive(b)) => {
                if a < b {
                    Ordering::Less
                } else if a > b {
                    Ordering::Greater
                } else {
                    Ordering::Equal
                }
            },
            (IntegerType::Negative(a), IntegerType::Positive(b)) => {
                if a < 0 {
                    Ordering::Less
                } else {
                    let a = a as u64;
                    if a < b {
                        Ordering::Less
                    } else if a > b {
                        Ordering::Greater
                    } else {
                        Ordering::Equal
                    }
                }
            },
            (IntegerType::Positive(a), IntegerType::Negative(b)) => {
                if b < 0 {
                    Ordering::Greater
                } else {
                    let b = b as u64;
                    if a < b {
                        Ordering::Less
                    } else if a > b {
                        Ordering::Greater
                    } else {
                        Ordering::Equal
                    }
                }
            },
        }
    }
}

impl PartialEq for Integer {
    fn eq(&self, other: &Integer) -> (r: bool) {
        match self.compare(other) {
            Ordering::Equal => true,
            _ => false,
        }
    }
}

impl vstd::std_specs::cmp::PartialEqSpecImpl for Integer {
    open spec fn obeys_eq_spec() -> bool {
        true
    }

    open spec fn eq_spec(&self, other: &Integer) -> bool {
        self@ == other@
    }
}

impl Eq for Integer {
}

impl PartialOrd for Integer {
    fn partial_cmp(&self, other: &Integer) -> (r: Option<Ordering>) {
        Some(self.compare(other))
    }
}

impl vstd::std_specs::cmp::PartialOrdSpecImpl for Integer {
    open spec fn obeys_partial_cmp_spec() -> bool {
        true
    }

    open spec fn partial_cmp_spec(&self, other: &Integer) -> Option<Ordering> {
        Some(int_cmp(self@, other@))
    }
}

} // verus!
