//! Values that are known, from the moment they are made, to lie in an
//! inclusive range.

use crate::dims::{fits, side, side_len};
use bounded_integer::BoundedUsize;
use std::cmp::Ordering;
use vstd::prelude::*;

verus! {

/// The rejection of `value`, which is not in `lo ..= hi`.
#[derive(Clone, Copy, Debug, PartialEq, Eq, Structural)]
pub struct OutOfRange {
    pub value: usize,
    pub lo: usize,
    pub hi: usize,
}

/// An integer together with the inclusive range it was checked against.
#[derive(Clone, Copy, Debug)]
pub struct BoundedValue {
    lo: usize,
    hi: usize,
    value: usize,
}

impl BoundedValue {
    #[verifier::type_invariant]
    spec fn in_range(self) -> bool {
        self.lo <= self.value <= self.hi
    }

    /// The value held.
    pub closed spec fn value(self) -> usize {
        self.value
    }

    /// The smallest value the range admits.
    pub closed spec fn lower(self) -> usize {
        self.lo
    }

    /// The largest value the range admits.
    pub closed spec fn upper(self) -> usize {
        self.hi
    }

    /// Checks `v` against `lo ..= hi`: the one place where a value is validated.
    pub fn construct(lo: usize, hi: usize, v: usize) -> (r: Result<BoundedValue, OutOfRange>)
        ensures
            lo <= v <= hi ==> (r matches Ok(b) && b.value() == v && b.lower() == lo && b.upper()
                == hi),
            !(lo <= v <= hi) ==> r == Err::<BoundedValue, OutOfRange>(
                (OutOfRange { value: v, lo, hi }),
            ),
    {
        if lo <= v && v <= hi {
            Ok(BoundedValue { lo, hi, value: v })
        } else {
            Err(OutOfRange { value: v, lo, hi })
        }
    }

    /// The value held, which lies in the range.
    pub fn get(&self) -> (v: usize)
        ensures
            v == self.value(),
            self.lower() <= v <= self.upper(),
    {
        proof {
            use_type_invariant(self);
        }
        self.value
    }

    /// The lower end of the range.
    pub fn lo(&self) -> (v: usize)
        ensures
            v == self.lower(),
    {
        self.lo
    }

    /// The upper end of the range.
    pub fn hi(&self) -> (v: usize)
        ensures
            v == self.upper(),
    {
        self.hi
    }
}

/// Two bounded values are equal when they hold the same value; the ranges are
/// not compared.
impl PartialEq for BoundedValue {
    fn eq(&self, other: &Self) -> (b: bool) {
        self.value == other.value
    }
}

impl Eq for BoundedValue {

}

impl vstd::std_specs::cmp::PartialEqSpecImpl for BoundedValue {
    open spec fn obeys_eq_spec() -> bool {
        true
    }

    open spec fn eq_spec(&self, other: &Self) -> bool {
        self.value() == other.value()
    }
}

/// Bounded values are ordered by the values they hold; the ranges are not
/// compared.
impl PartialOrd for BoundedValue {
    fn partial_cmp(&self, other: &Self) -> (o: Option<Ordering>) {
        if self.value < other.value {
            Some(Ordering::Less)
        } else if self.value > other.value {
            Some(Ordering::Greater)
        } else {
            Some(Ordering::Equal)
        }
    }
}

impl vstd::std_specs::cmp::PartialOrdSpecImpl for BoundedValue {
    open spec fn obeys_partial_cmp_spec() -> bool {
        true
    }

    open spec fn partial_cmp_spec(&self, other: &Self) -> Option<Ordering> {
        if self.value() < other.value() {
            Some(Ordering::Less)
        } else if self.value() > other.value() {
            Some(Ordering::Greater)
        } else {
            Some(Ordering::Equal)
        }
    }
}

/// The value `v` of a cell of a board of box size `N`, as a bounded value.
pub fn new_value<const N: usize>(v: usize) -> (b: BoundedValue)
    requires
        fits::<N>(),
        1 <= v <= side::<N>(),
    ensures
        b.value() == v,
        b.lower() == 1,
        b.upper() == side::<N>(),
{
    let m = side_len::<N>();
    BoundedValue { lo: 1, hi: m, value: v }
}

/// `bounded_integer::BoundedUsize::<LO, HI>::new`, with the accepted value read
/// back by `get`. Trusted: the value comes back unchanged when it lies in
/// `LO ..= HI`, and nothing comes back otherwise.
#[verifier::external_body]
fn bounded_usize<const LO: usize, const HI: usize>(v: usize) -> (r: Option<usize>)
    ensures
        r == (if LO <= v && v <= HI {
            Some(v)
        } else {
            None::<usize>
        }),
{
    match BoundedUsize::<LO, HI>::new(v) {
        Some(b) => Some(b.get()),
        None => None,
    }
}

/// Checks `v` against `0 ..= N`, a range fixed at compile time.
pub fn index_bound<const N: usize>(v: usize) -> (r: Result<usize, OutOfRange>)
    ensures
        r == (if v <= N {
            Ok::<usize, OutOfRange>(v)
        } else {
            Err::<usize, OutOfRange>((OutOfRange { value: v, lo: 0, hi: N }))
        }),
{
    match bounded_usize::<0, N>(v) {
        Some(x) => Ok(x),
        None => Err(OutOfRange { value: v, lo: 0, hi: N }),
    }
}

} // verus!
