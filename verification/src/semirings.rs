use vstd::prelude::*;

verus! {

/// A semiring: two associative operations with neutral elements `zero`
/// (for `plus`) and `one` (for `times`).
pub trait Semiring: Sized {
    spec fn zero_spec() -> Self;

    spec fn one_spec() -> Self;

    spec fn plus_spec(a: Self, b: Self) -> Self;

    spec fn times_spec(a: Self, b: Self) -> Self;

    fn zero() -> (r: Self)
        ensures
            r == Self::zero_spec(),
    ;

    fn one() -> (r: Self)
        ensures
            r == Self::one_spec(),
    ;

    fn plus(&self, rhs: &Self) -> (r: Self)
        ensures
            r == Self::plus_spec(*self, *rhs),
    ;

    fn times(&self, rhs: &Self) -> (r: Self)
        ensures
            r == Self::times_spec(*self, *rhs),
    ;

    fn is_zero(&self) -> (b: bool)
        ensures
            b == (*self == Self::zero_spec()),
    ;

    fn weight_clone(&self) -> (r: Self)
        ensures
            r == *self,
    ;

    fn weight_eq(&self, other: &Self) -> (b: bool)
        ensures
            b == (*self == *other),
    ;

    /// The left quotient of `a` by `b`, where one exists.
    spec fn divide_spec(a: Self, b: Self) -> Option<Self>;

    /// Whether `times` distributes over `plus` from the left.
    spec fn left_semiring_spec() -> bool;

    fn divide(&self, rhs: &Self) -> (r: Option<Self>)
        ensures
            r == Self::divide_spec(*self, *rhs),
    ;

    fn is_left_semiring() -> (b: bool)
        ensures
            b == Self::left_semiring_spec(),
    ;
}

/// Tropical semiring over non-negative integer costs: `plus` is the minimum,
/// `times` is the sum; `None` is the infinite cost (the zero).
#[derive(Clone, Copy, Debug, PartialEq, Eq, Hash)]
pub struct TropicalWeight {
    pub value: Option<u32>,
}

pub open spec fn tropical_times(a: Option<u32>, b: Option<u32>) -> Option<u32> {
    match (a, b) {
        (Some(x), Some(y)) => if x + y <= u32::MAX { Some((x + y) as u32) } else { None },
        _ => None,
    }
}

pub open spec fn tropical_plus(a: Option<u32>, b: Option<u32>) -> Option<u32> {
    match (a, b) {
        (Some(x), Some(y)) => if x <= y { Some(x) } else { Some(y) },
        (Some(x), None) => Some(x),
        (None, _) => b,
    }
}

/// Tropical division: subtraction of costs. Dividing by the infinite cost has no
/// result; the infinite cost divided by a finite one stays infinite; a cost below
/// the divisor has no non-negative quotient.
pub open spec fn tropical_divide(a: Option<u32>, b: Option<u32>) -> Option<Option<u32>> {
    match (a, b) {
        (_, None) => None,
        (None, Some(_)) => Some(None),
        (Some(x), Some(y)) => if x >= y { Some(Some((x - y) as u32)) } else { None },
    }
}

impl TropicalWeight {
    pub fn new(value: u32) -> (r: Self)
        ensures
            r.value == Some(value),
    {
        TropicalWeight { value: Some(value) }
    }
}

impl Semiring for TropicalWeight {
    open spec fn zero_spec() -> Self {
        TropicalWeight { value: None }
    }

    open spec fn one_spec() -> Self {
        TropicalWeight { value: Some(0) }
    }

    open spec fn plus_spec(a: Self, b: Self) -> Self {
        TropicalWeight { value: tropical_plus(a.value, b.value) }
    }

    open spec fn times_spec(a: Self, b: Self) -> Self {
        TropicalWeight { value: tropical_times(a.value, b.value) }
    }

    fn zero() -> (r: Self) {
        TropicalWeight { value: None }
    }

    fn one() -> (r: Self) {
        TropicalWeight { value: Some(0) }
    }

    fn plus(&self, rhs: &Self) -> (r: Self) {
        match (self.value, rhs.value) {
            (Some(x), Some(y)) => if x <= y { TropicalWeight { value: Some(x) } } else { TropicalWeight { value: Some(y) } },
            (Some(x), None) => TropicalWeight { value: Some(x) },
            (None, _) => *rhs,
        }
    }

    fn times(&self, rhs: &Self) -> (r: Self) {
        match (self.value, rhs.value) {
            (Some(x), Some(y)) => TropicalWeight { value: x.checked_add(y) },
            _ => TropicalWeight { value: None },
        }
    }

    fn is_zero(&self) -> (b: bool) {
        self.value.is_none()
    }

    fn weight_clone(&self) -> (r: Self) {
        *self
    }

    fn weight_eq(&self, other: &Self) -> (b: bool) {
        self.value == other.value
    }

    open spec fn divide_spec(a: Self, b: Self) -> Option<Self> {
        match tropical_divide(a.value, b.value) {
            Some(v) => Some(TropicalWeight { value: v }),
            None => None,
        }
    }

    open spec fn left_semiring_spec() -> bool {
        true
    }

    fn divide(&self, rhs: &Self) -> (r: Option<Self>) {
        match (self.value, rhs.value) {
            (_, None) => None,
            (None, Some(_)) => Some(TropicalWeight { value: None }),
            (Some(x), Some(y)) => if x >= y { Some(TropicalWeight { value: Some(x - y) }) } else { None },
        }
    }

    fn is_left_semiring() -> (b: bool) {
        true
    }
}

} // verus!
