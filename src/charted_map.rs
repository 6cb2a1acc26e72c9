use vstd::prelude::*;

verus! {

/// The amount recorded with a point of interest.
#[derive(Debug)]
pub enum SavedQuantity {
    Empty,
    ContentQuantity(usize),
    ContentRange(std::ops::Range<usize>),
    TileElevation(usize),
}

impl SavedQuantity {
    /// Whether an amount was recorded.
    pub fn is_some(&self) -> (r: bool)
        ensures
            r == !(self is Empty),
    {
        match self {
            SavedQuantity::Empty => false,
            _ => true,
        }
    }

    /// Whether no amount was recorded.
    pub fn is_nome(&self) -> (r: bool)
        ensures
            r == (self is Empty),
    {
        match self {
            SavedQuantity::Empty => true,
            _ => false,
        }
    }

    /// Whether the amount is a single number.
    pub fn is_usize(&self) -> (r: bool)
        ensures
            r == (self is TileElevation || self is ContentQuantity),
    {
        match self {
            SavedQuantity::TileElevation(_) | SavedQuantity::ContentQuantity(_) => true,
            _ => false,
        }
    }

    /// Whether the amount is a range.
    pub fn is_range(&self) -> (r: bool)
        ensures
            r == (self is ContentRange),
    {
        match self {
            SavedQuantity::ContentRange(_) => true,
            _ => false,
        }
    }
}

/// Two amounts are equal when they are of the same kind and hold the same value; an absent
/// amount equals nothing, itself included.
pub open spec fn same_quantity(a: &SavedQuantity, b: &SavedQuantity) -> bool {
    match (a, b) {
        (SavedQuantity::ContentRange(x), SavedQuantity::ContentRange(y)) => x.start == y.start && x.end
            == y.end,
        (SavedQuantity::ContentQuantity(x), SavedQuantity::ContentQuantity(y)) => x == y,
        (SavedQuantity::TileElevation(x), SavedQuantity::TileElevation(y)) => x == y,
        _ => false,
    }
}

impl PartialEq for SavedQuantity {
    fn eq(&self, other: &SavedQuantity) -> (r: bool) {
        match (self, other) {
            (SavedQuantity::ContentRange(a), SavedQuantity::ContentRange(b)) => a.start == b.start
                && a.end == b.end,
            (SavedQuantity::ContentQuantity(a), SavedQuantity::ContentQuantity(b)) => *a == *b,
            (SavedQuantity::TileElevation(a), SavedQuantity::TileElevation(b)) => *a == *b,
            _ => false,
        }
    }
}

impl vstd::std_specs::cmp::PartialEqSpecImpl for SavedQuantity {
    open spec fn obeys_eq_spec() -> bool {
        true
    }

    open spec fn eq_spec(&self, other: &SavedQuantity) -> bool {
        same_quantity(self, other)
    }
}

} // verus!
