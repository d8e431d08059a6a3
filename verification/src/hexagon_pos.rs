use vstd::prelude::*;
use core::ops::Add;
use vstd::std_specs::ops::AddSpecImpl;

verus! {

/// A cell of the hexagonal map in offset coordinates: `x` is the column,
/// `y` the row, and odd columns are shifted half a cell along `y`.
#[derive(Clone, Copy, PartialEq, Eq, Structural, Hash, Debug)]
pub struct HexagonPos {
    pub x: i32,
    pub y: i32,
}

/// Both coordinates stay one step away from the limits of `i32`, so that every
/// neighbour of the cell can be represented.
pub open spec fn in_grid(p: HexagonPos) -> bool {
    i32::MIN < p.x < i32::MAX && i32::MIN < p.y < i32::MAX
}

/// The offsets to the six neighbours of a cell in an even column, clockwise from the
/// cell above.
pub open spec fn even_offsets() -> Seq<(int, int)> {
    seq![(0, -1), (1, -1), (1, 0), (0, 1), (-1, 0), (-1, -1)]
}

/// The offsets to the six neighbours of a cell in an odd column.
pub open spec fn odd_offsets() -> Seq<(int, int)> {
    seq![(0, -1), (1, 0), (1, 1), (0, 1), (-1, 1), (-1, 0)]
}

/// The offsets that apply to the column of `p`.
pub open spec fn offsets_of(p: HexagonPos) -> Seq<(int, int)> {
    if p.x % 2 == 0 {
        even_offsets()
    } else {
        odd_offsets()
    }
}

/// The `i`-th neighbour of `p`.
pub open spec fn neighbour_at(p: HexagonPos, i: int) -> HexagonPos {
    HexagonPos { x: (p.x + offsets_of(p)[i].0) as i32, y: (p.y + offsets_of(p)[i].1) as i32 }
}

/// The six neighbours of `p`, in the order in which `neighbours` returns them.
pub open spec fn spec_neighbours(p: HexagonPos) -> Seq<HexagonPos> {
    Seq::new(6, |i: int| neighbour_at(p, i))
}

/// `b` shares a side with `a`.
pub open spec fn adjacent(a: HexagonPos, b: HexagonPos) -> bool {
    spec_neighbours(a).contains(b)
}

/// The Manhattan distance between two cells of the grid.
pub open spec fn spec_manhattan_dist(a: HexagonPos, b: HexagonPos) -> nat {
    (if a.x >= b.x { a.x - b.x } else { b.x - a.x }) as nat + (if a.y >= b.y {
        a.y - b.y
    } else {
        b.y - a.y
    }) as nat
}

/// A number that identifies a cell: the column in the upper half of the 64 bits,
/// the row in the lower half, both shifted to be non-negative.
pub open spec fn pos_key(p: HexagonPos) -> u64 {
    ((p.x + 2147483648) * 4294967296 + (p.y + 2147483648)) as u64
}

/// Two cells with the same key are the same cell.
pub proof fn lemma_pos_key_injective(a: HexagonPos, b: HexagonPos)
    ensures
        pos_key(a) == pos_key(b) <==> a == b,
{
    let ka = (a.x + 2147483648) * 4294967296 + (a.y + 2147483648);
    let kb = (b.x + 2147483648) * 4294967296 + (b.y + 2147483648);
    assert(0 <= ka < 0x1_0000_0000_0000_0000);
    assert(0 <= kb < 0x1_0000_0000_0000_0000);
    if ka == kb {
        assert(a.x == b.x);
        assert(a.y == b.y);
    }
}

impl HexagonPos {
    pub fn new(x: i32, y: i32) -> (res: Self)
        ensures
            res.x == x,
            res.y == y,
    {
        Self { x, y }
    }

    /// Whether the cell is inside the grid (see `in_grid`).
    pub fn is_in_grid(self) -> (res: bool)
        ensures
            res == in_grid(self),
    {
        i32::MIN < self.x && self.x < i32::MAX && i32::MIN < self.y && self.y < i32::MAX
    }

    /// The six neighbours of the cell, clockwise from the one above.
    pub fn neighbours(self) -> (res: [HexagonPos; 6])
        requires
            in_grid(self),
        ensures
            res@ == spec_neighbours(self),
    {
        let res = if self.x % 2 == 0 {
            [
                self + HexagonPos::new(0, -1),
                self + HexagonPos::new(1, -1),
                self + HexagonPos::new(1, 0),
                self + HexagonPos::new(0, 1),
                self + HexagonPos::new(-1, 0),
                self + HexagonPos::new(-1, -1),
            ]
        } else {
            [
                self + HexagonPos::new(0, -1),
                self + HexagonPos::new(1, 0),
                self + HexagonPos::new(1, 1),
                self + HexagonPos::new(0, 1),
                self + HexagonPos::new(-1, 1),
                self + HexagonPos::new(-1, 0),
            ]
        };
        assert(res@ =~= spec_neighbours(self));
        res
    }

    /// The sum of the distances along both axes.
    pub fn manhattan_dist(self, other: HexagonPos) -> (res: u64)
        ensures
            res == spec_manhattan_dist(self, other),
    {
        let dx: i64 = self.x as i64 - other.x as i64;
        let dy: i64 = self.y as i64 - other.y as i64;
        let ax: u64 = if dx >= 0 { dx as u64 } else { (-dx) as u64 };
        let ay: u64 = if dy >= 0 { dy as u64 } else { (-dy) as u64 };
        ax + ay
    }

    /// The number that identifies the cell (see `pos_key`).
    pub fn key(self) -> (res: u64)
        ensures
            res == pos_key(self),
    {
        let kx: u64 = (self.x as i64 + 2147483648i64) as u64;
        let ky: u64 = (self.y as i64 + 2147483648i64) as u64;
        kx * 4294967296 + ky
    }
}

impl Add for HexagonPos {
    type Output = HexagonPos;

    fn add(self, rhs: Self) -> (res: Self::Output) {
        HexagonPos::new(self.x + rhs.x, self.y + rhs.y)
    }
}

impl AddSpecImpl for HexagonPos {
    open spec fn obeys_add_spec() -> bool {
        true
    }

    open spec fn add_req(self, rhs: HexagonPos) -> bool {
        i32::MIN <= self.x + rhs.x <= i32::MAX && i32::MIN <= self.y + rhs.y <= i32::MAX
    }

    open spec fn add_spec(self, rhs: HexagonPos) -> HexagonPos {
        HexagonPos { x: (self.x + rhs.x) as i32, y: (self.y + rhs.y) as i32 }
    }
}

/// Neighbourhood is symmetric: if `b` is a neighbour of `a`, then `a` is a neighbour of `b`.
pub proof fn lemma_adjacent_symmetric(a: HexagonPos, b: HexagonPos)
    requires
        in_grid(a),
        adjacent(a, b),
    ensures
        adjacent(b, a),
{
    let i = choose|i: int| 0 <= i < 6 && spec_neighbours(a)[i] == b;
    assert(spec_neighbours(a)[i] == neighbour_at(a, i));
    if a.x % 2 == 0 {
        if i == 0 {
            assert(spec_neighbours(b)[3] == a);
        } else if i == 1 {
            assert(spec_neighbours(b)[4] == a);
        } else if i == 2 {
            assert(spec_neighbours(b)[5] == a);
        } else if i == 3 {
            assert(spec_neighbours(b)[0] == a);
        } else if i == 4 {
            assert(spec_neighbours(b)[1] == a);
        } else {
            assert(spec_neighbours(b)[2] == a);
        }
    } else {
        if i == 0 {
            assert(spec_neighbours(b)[3] == a);
        } else if i == 1 {
            assert(spec_neighbours(b)[4] == a);
        } else if i == 2 {
            assert(spec_neighbours(b)[5] == a);
        } else if i == 3 {
            assert(spec_neighbours(b)[0] == a);
        } else if i == 4 {
            assert(spec_neighbours(b)[1] == a);
        } else {
            assert(spec_neighbours(b)[2] == a);
        }
    }
}

/// A cell is not its own neighbour, and its six neighbours are six different cells.
pub proof fn lemma_neighbours_distinct(a: HexagonPos)
    requires
        in_grid(a),
    ensures
        !adjacent(a, a),
        spec_neighbours(a).no_duplicates(),
{
    assert forall|i: int, j: int| 0 <= i < 6 && 0 <= j < 6 && i != j implies spec_neighbours(a)[i]
        != spec_neighbours(a)[j] by {
        assert(spec_neighbours(a)[i] == neighbour_at(a, i));
        assert(spec_neighbours(a)[j] == neighbour_at(a, j));
    }
    assert forall|i: int| 0 <= i < 6 implies spec_neighbours(a)[i] != a by {
        assert(spec_neighbours(a)[i] == neighbour_at(a, i));
    }
}

/// The Manhattan distance is symmetric and is zero exactly between a cell and itself.
pub proof fn lemma_manhattan_dist_metric(a: HexagonPos, b: HexagonPos)
    ensures
        spec_manhattan_dist(a, b) == spec_manhattan_dist(b, a),
        spec_manhattan_dist(a, b) == 0 <==> a == b,
{
}

} // verus!
