use vstd::prelude::*;

verus! {

/// A grid position: `.0` is the row, `.1` is the column.
#[derive(Copy, Clone, Debug, Hash, PartialEq, Eq, Structural)]
pub struct ChartedCoordinate(pub usize, pub usize);

/// Signed difference `a - b` of two unsigned components.
pub open spec fn delta(a: usize, b: usize) -> int {
    a as int - b as int
}

/// Squared Euclidean distance between two positions.
pub open spec fn distance_sq(a: ChartedCoordinate, b: ChartedCoordinate) -> int {
    delta(a.0, b.0) * delta(a.0, b.0) + delta(a.1, b.1) * delta(a.1, b.1)
}

/// Two positions are close when their squared distance is below two: they are equal
/// or differ by one step along exactly one axis (diagonals are excluded).
pub open spec fn close(a: ChartedCoordinate, b: ChartedCoordinate) -> bool {
    distance_sq(a, b) < 2
}

/// `b` is one of the four neighbours of `a`.
pub open spec fn adjacent(a: ChartedCoordinate, b: ChartedCoordinate) -> bool {
    close(a, b) && a != b
}

/// The differences of both axes are at most one in absolute value and not both nonzero.
pub proof fn lemma_close_iff(a: ChartedCoordinate, b: ChartedCoordinate)
    ensures
        close(a, b) <==> ((a.0 == b.0 && -1 <= delta(a.1, b.1) <= 1) || (a.1 == b.1 && -1 <= delta(
            a.0,
            b.0,
        ) <= 1)),
{
    let dr = delta(a.0, b.0);
    let dc = delta(a.1, b.1);
    assert(dr * dr >= 0) by (nonlinear_arith);
    assert(dc * dc >= 0) by (nonlinear_arith);
    assert((dr >= 2 || dr <= -2) ==> dr * dr >= 4) by (nonlinear_arith);
    assert((dc >= 2 || dc <= -2) ==> dc * dc >= 4) by (nonlinear_arith);
    assert((dr != 0) ==> dr * dr >= 1) by (nonlinear_arith);
    assert((dc != 0) ==> dc * dc >= 1) by (nonlinear_arith);
    assert((-1 <= dr <= 1) ==> dr * dr <= 1) by (nonlinear_arith);
    assert((-1 <= dc <= 1) ==> dc * dc <= 1) by (nonlinear_arith);
    assert(dr == 0 ==> dr * dr == 0) by (nonlinear_arith);
    assert(dc == 0 ==> dc * dc == 0) by (nonlinear_arith);
    if close(a, b) {
        assert(dr == 0 || dc == 0);
    }
}

impl ChartedCoordinate {
    pub fn new(row: usize, col: usize) -> (r: Self)
        ensures
            r.0 == row,
            r.1 == col,
    {
        ChartedCoordinate(row, col)
    }

    pub fn get_row(&self) -> (r: usize)
        ensures
            r == self.0,
    {
        self.0
    }

    pub fn get_col(&self) -> (r: usize)
        ensures
            r == self.1,
    {
        self.1
    }

    /// Row and column differences `who - to`; both must fit an `i32`.
    pub fn distance_to(who: &ChartedCoordinate, to: &ChartedCoordinate) -> (r: (i32, i32))
        requires
            i32::MIN <= delta(who.0, to.0) <= i32::MAX,
            i32::MIN <= delta(who.1, to.1) <= i32::MAX,
        ensures
            r.0 == delta(who.0, to.0),
            r.1 == delta(who.1, to.1),
    {
        let dr: i128 = who.0 as i128 - to.0 as i128;
        let dc: i128 = who.1 as i128 - to.1 as i128;
        (dr as i32, dc as i32)
    }

    /// Whether the squared distance between the two positions is below two.
    pub fn is_close_to(who: &ChartedCoordinate, to: &ChartedCoordinate) -> (r: bool)
        ensures
            r == close(*who, *to),
    {
        proof {
            lemma_close_iff(*who, *to);
        }
        if who.0 == to.0 {
            (who.1 <= to.1 || who.1 - to.1 == 1) && (to.1 <= who.1 || to.1 - who.1 == 1)
        } else if who.1 == to.1 {
            (who.0 <= to.0 || who.0 - to.0 == 1) && (to.0 <= who.0 || to.0 - who.0 == 1)
        } else {
            false
        }
    }
}

impl From<(usize, usize)> for ChartedCoordinate {
    fn from(value: (usize, usize)) -> (r: Self)
        ensures
            r.0 == value.0,
            r.1 == value.1,
    {
        ChartedCoordinate(value.0, value.1)
    }
}

impl vstd::std_specs::convert::FromSpecImpl<(usize, usize)> for ChartedCoordinate {
    open spec fn obeys_from_spec() -> bool {
        true
    }

    open spec fn from_spec(value: (usize, usize)) -> ChartedCoordinate {
        ChartedCoordinate(value.0, value.1)
    }
}

impl std::ops::Add for ChartedCoordinate {
    type Output = ChartedCoordinate;

    fn add(self, rhs: ChartedCoordinate) -> (r: ChartedCoordinate) {
        ChartedCoordinate(self.0 + rhs.0, self.1 + rhs.1)
    }
}

/// Componentwise sum; both sums must fit in `usize`.
impl vstd::std_specs::ops::AddSpecImpl for ChartedCoordinate {
    open spec fn obeys_add_spec() -> bool {
        true
    }

    open spec fn add_req(self, rhs: ChartedCoordinate) -> bool {
        self.0 + rhs.0 <= usize::MAX && self.1 + rhs.1 <= usize::MAX
    }

    open spec fn add_spec(self, rhs: ChartedCoordinate) -> ChartedCoordinate {
        ChartedCoordinate((self.0 + rhs.0) as usize, (self.1 + rhs.1) as usize)
    }
}

impl std::ops::Add<(usize, usize)> for ChartedCoordinate {
    type Output = ChartedCoordinate;

    fn add(self, rhs: (usize, usize)) -> (r: ChartedCoordinate) {
        ChartedCoordinate(self.0 + rhs.0, self.1 + rhs.1)
    }
}

/// Componentwise sum with a `(row, column)` pair; both sums must fit in `usize`.
impl vstd::std_specs::ops::AddSpecImpl<(usize, usize)> for ChartedCoordinate {
    open spec fn obeys_add_spec() -> bool {
        true
    }

    open spec fn add_req(self, rhs: (usize, usize)) -> bool {
        self.0 + rhs.0 <= usize::MAX && self.1 + rhs.1 <= usize::MAX
    }

    open spec fn add_spec(self, rhs: (usize, usize)) -> ChartedCoordinate {
        ChartedCoordinate((self.0 + rhs.0) as usize, (self.1 + rhs.1) as usize)
    }
}

impl std::ops::Sub for ChartedCoordinate {
    type Output = ChartedCoordinate;

    fn sub(self, rhs: ChartedCoordinate) -> (r: ChartedCoordinate) {
        ChartedCoordinate(self.0 - rhs.0, self.1 - rhs.1)
    }
}

/// Componentwise difference; neither component may go below zero.
impl vstd::std_specs::ops::SubSpecImpl for ChartedCoordinate {
    open spec fn obeys_sub_spec() -> bool {
        true
    }

    open spec fn sub_req(self, rhs: ChartedCoordinate) -> bool {
        rhs.0 <= self.0 && rhs.1 <= self.1
    }

    open spec fn sub_spec(self, rhs: ChartedCoordinate) -> ChartedCoordinate {
        ChartedCoordinate((self.0 - rhs.0) as usize, (self.1 - rhs.1) as usize)
    }
}

impl std::ops::Sub<(usize, usize)> for ChartedCoordinate {
    type Output = ChartedCoordinate;

    fn sub(self, rhs: (usize, usize)) -> (r: ChartedCoordinate) {
        ChartedCoordinate(self.0 - rhs.0, self.1 - rhs.1)
    }
}

/// Componentwise difference with a `(row, column)` pair; neither component may go below zero.
impl vstd::std_specs::ops::SubSpecImpl<(usize, usize)> for ChartedCoordinate {
    open spec fn obeys_sub_spec() -> bool {
        true
    }

    open spec fn sub_req(self, rhs: (usize, usize)) -> bool {
        rhs.0 <= self.0 && rhs.1 <= self.1
    }

    open spec fn sub_spec(self, rhs: (usize, usize)) -> ChartedCoordinate {
        ChartedCoordinate((self.0 - rhs.0) as usize, (self.1 - rhs.1) as usize)
    }
}

} // verus!
