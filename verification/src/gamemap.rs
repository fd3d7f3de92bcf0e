use vstd::prelude::*;
use vstd::std_specs::cmp::PartialOrdSpecImpl;
use vstd::std_specs::ops::AddSpecImpl;
use vstd::std_specs::ops::SubSpecImpl;

verus! {

/// A cell position: `x` is the column, `y` the row.
#[derive(Copy, Clone, Debug, PartialEq, Eq, Structural, Ord)]
pub struct Coord {
    pub x: i32,
    pub y: i32,
}

/// Whether `v` fits in an `i32`.
pub open spec fn fits_i32(v: int) -> bool {
    i32::MIN <= v <= i32::MAX
}

/// The sum of two coordinates, member by member.
pub open spec fn coord_add(a: Coord, b: Coord) -> Coord {
    Coord { x: (a.x + b.x) as i32, y: (a.y + b.y) as i32 }
}

/// The difference of two coordinates, member by member.
pub open spec fn coord_sub(a: Coord, b: Coord) -> Coord {
    Coord { x: (a.x - b.x) as i32, y: (a.y - b.y) as i32 }
}

/// The strict order of coordinates: by column first, then by row.
pub open spec fn coord_lt(a: Coord, b: Coord) -> bool {
    a.x < b.x || (a.x == b.x && a.y < b.y)
}

/// The three-way order of coordinates: by column first, then by row.
pub open spec fn coord_order(a: Coord, b: Coord) -> core::cmp::Ordering {
    if coord_lt(a, b) {
        core::cmp::Ordering::Less
    } else if a == b {
        core::cmp::Ordering::Equal
    } else {
        core::cmp::Ordering::Greater
    }
}

impl Coord {
    pub fn new(x_: i32, y_: i32) -> (c: Coord)
        ensures
            c.x == x_,
            c.y == y_,
    {
        Coord { x: x_, y: y_ }
    }

    /// Three-way comparison: by column first, then by row.
    pub fn compare(&self, other: &Coord) -> (o: core::cmp::Ordering)
        ensures
            (o == core::cmp::Ordering::Less) <==> coord_lt(*self, *other),
            (o == core::cmp::Ordering::Equal) <==> *self == *other,
            (o == core::cmp::Ordering::Greater) <==> coord_lt(*other, *self),
            o == coord_order(*self, *other),
    {
        if self.x < other.x {
            core::cmp::Ordering::Less
        } else if self.x > other.x {
            core::cmp::Ordering::Greater
        } else if self.y < other.y {
            core::cmp::Ordering::Less
        } else if self.y > other.y {
            core::cmp::Ordering::Greater
        } else {
            core::cmp::Ordering::Equal
        }
    }
}

impl PartialOrd for Coord {
    fn partial_cmp(&self, other: &Coord) -> (o: Option<core::cmp::Ordering>) {
        Some(self.compare(other))
    }
}

impl PartialOrdSpecImpl for Coord {
    open spec fn obeys_partial_cmp_spec() -> bool {
        true
    }

    open spec fn partial_cmp_spec(&self, other: &Coord) -> Option<core::cmp::Ordering> {
        Some(coord_order(*self, *other))
    }
}

impl core::ops::Add for Coord {
    type Output = Coord;

    fn add(self, other: Coord) -> (c: Coord) {
        Coord::new(self.x + other.x, self.y + other.y)
    }
}

impl AddSpecImpl for Coord {
    open spec fn obeys_add_spec() -> bool {
        true
    }

    open spec fn add_req(self, rhs: Coord) -> bool {
        fits_i32(self.x + rhs.x) && fits_i32(self.y + rhs.y)
    }

    open spec fn add_spec(self, rhs: Coord) -> Coord {
        coord_add(self, rhs)
    }
}

impl core::ops::Sub for Coord {
    type Output = Coord;

    fn sub(self, other: Coord) -> (c: Coord) {
        Coord::new(self.x - other.x, self.y - other.y)
    }
}

impl SubSpecImpl for Coord {
    open spec fn obeys_sub_spec() -> bool {
        true
    }

    open spec fn sub_req(self, rhs: Coord) -> bool {
        fits_i32(self.x - rhs.x) && fits_i32(self.y - rhs.y)
    }

    open spec fn sub_spec(self, rhs: Coord) -> Coord {
        coord_sub(self, rhs)
    }
}

/// Adding a step and taking it away again gives back the coordinate.
pub proof fn lemma_add_then_sub(a: Coord, b: Coord)
    requires
        fits_i32(a.x + b.x),
        fits_i32(a.y + b.y),
    ensures
        coord_sub(coord_add(a, b), b) == a,
{
}

/// The order of coordinates is a strict total order: of `a < b`, `a == b` and `b < a`
/// exactly one holds, and `<` is transitive. The three-way comparison says `Equal` exactly
/// of equal coordinates, and `Less` one way exactly when it says `Greater` the other.
pub proof fn lemma_coord_order(a: Coord, b: Coord, c: Coord)
    ensures
        coord_lt(a, b) || a == b || coord_lt(b, a),
        !(coord_lt(a, b) && coord_lt(b, a)),
        !coord_lt(a, a),
        coord_lt(a, b) && coord_lt(b, c) ==> coord_lt(a, c),
        (coord_order(a, b) == core::cmp::Ordering::Equal) <==> a == b,
        (coord_order(a, b) == core::cmp::Ordering::Less) <==> (coord_order(b, a)
            == core::cmp::Ordering::Greater),
{
}

/// After a cell is written, reading it gives what was written, and every other cell
/// reads as before.
pub proof fn lemma_write_then_read<T>(cells: Seq<Seq<T>>, x: int, y: int, v: T, xx: int, yy: int)
    requires
        0 <= y < cells.len(),
        0 <= x < cells[y].len(),
        0 <= yy < cells.len(),
        0 <= xx < cells[yy].len(),
    ensures
        cells.update(y, cells[y].update(x, v))[yy][xx] == (if xx == x && yy == y {
            v
        } else {
            cells[yy][xx]
        }),
{
}

/// A rectangular grid of cells, stored row by row: `data[y][x]`.
#[derive(Clone, Debug, Eq, PartialEq, Hash)]
pub struct Field<T> {
    data: Vec<Vec<T>>,
    height: usize,
    width: usize,
}

impl<T> Field<T> {
    /// The number of rows.
    pub closed spec fn rows(&self) -> nat {
        self.height as nat
    }

    /// The number of columns.
    pub closed spec fn cols(&self) -> nat {
        self.width as nat
    }

    /// The cells, row by row: `self@[y][x]`.
    pub closed spec fn cells(&self) -> Seq<Seq<T>> {
        self.data@.map_values(|r: Vec<T>| r@)
    }

    /// The grid holds `rows()` rows of `cols()` cells each.
    pub open spec fn wf(&self) -> bool {
        &&& self.cells().len() == self.rows()
        &&& forall|i: int| 0 <= i < self.rows() ==> (#[trigger] self.cells()[i]).len() == self.cols()
    }

    /// Whether `(x, y)` is a cell of the grid.
    pub open spec fn in_grid(&self, x: int, y: int) -> bool {
        0 <= x < self.cols() && 0 <= y < self.rows()
    }

    /// The cell at column `x`, row `y`.
    pub open spec fn at(&self, x: int, y: int) -> T {
        self.cells()[y][x]
    }

    pub fn height(&self) -> (h: usize)
        ensures
            h == self.rows(),
    {
        self.height
    }

    pub fn width(&self) -> (w: usize)
        ensures
            w == self.cols(),
    {
        self.width
    }

    /// Whether `id` lies on the grid (the width and height are compared as `i32`).
    pub fn id_ok(&self, id: &Coord) -> (b: bool)
        ensures
            b == (id.x >= 0 && id.y >= 0 && id.x < (self.cols() as i32) && id.y < (
            self.rows() as i32)),
            self.cols() <= i32::MAX && self.rows() <= i32::MAX ==> (b == self.in_grid(
                id.x as int,
                id.y as int,
            )),
    {
        id.x >= 0 && id.y >= 0 && id.x < self.width as i32 && id.y < self.height as i32
    }
}

impl<T: Copy> Field<T> {
    /// A grid of `h` rows and `w` columns, every cell holding `init_num`.
    pub fn new(init_num: T, h: usize, w: usize) -> (f: Field<T>)
        ensures
            f.wf(),
            f.rows() == h,
            f.cols() == w,
            forall|x: int, y: int| f.in_grid(x, y) ==> f.at(x, y) == init_num,
    {
        let mut res: Vec<Vec<T>> = Vec::new();
        let mut i: usize = 0;
        while i < h
            invariant
                i <= h,
                res@.len() == i,
                forall|k: int| 0 <= k < i ==> (#[trigger] res@[k])@.len() == w,
                forall|k: int, j: int| 0 <= k < i && 0 <= j < w ==> res@[k]@[j] == init_num,
            decreases h - i,
        {
            let mut row: Vec<T> = Vec::new();
            let mut j: usize = 0;
            while j < w
                invariant
                    j <= w,
                    row@.len() == j,
                    forall|k: int| 0 <= k < j ==> row@[k] == init_num,
                decreases w - j,
            {
                row.push(init_num);
                j = j + 1;
            }
            res.push(row);
            i = i + 1;
        }
        let f = Field { data: res, height: h, width: w };
        assert(f.cells().len() == h);
        f
    }

    /// The cell at `id`; `id` must lie on the grid.
    pub fn index(&self, id: Coord) -> (v: T)
        requires
            self.wf(),
            self.in_grid(id.x as int, id.y as int),
        ensures
            v == self.at(id.x as int, id.y as int),
    {
        let y = id.y as usize;
        let x = id.x as usize;
        assert(self.data@[y as int]@ == self.cells()[y as int]);
        self.data[y][x]
    }

    /// The cell at column `id.0`, row `id.1`; it must lie on the grid.
    pub fn index_xy(&self, id: (usize, usize)) -> (v: T)
        requires
            self.wf(),
            self.in_grid(id.0 as int, id.1 as int),
        ensures
            v == self.at(id.0 as int, id.1 as int),
    {
        assert(self.data@[id.1 as int]@ == self.cells()[id.1 as int]);
        self.data[id.1][id.0]
    }

    /// Writes `v` into the cell at `id`; `id` must lie on the grid.
    pub fn set(&mut self, id: Coord, v: T)
        requires
            old(self).wf(),
            old(self).in_grid(id.x as int, id.y as int),
        ensures
            final(self).wf(),
            final(self).rows() == old(self).rows(),
            final(self).cols() == old(self).cols(),
            final(self).cells() == old(self).cells().update(
                id.y as int,
                old(self).cells()[id.y as int].update(id.x as int, v),
            ),
            final(self).at(id.x as int, id.y as int) == v,
            forall|x: int, y: int|
                old(self).in_grid(x, y) && !(x == id.x && y == id.y) ==> #[trigger] final(self).at(
                    x,
                    y,
                ) == old(self).at(x, y),
    {
        self.set_xy((id.x as usize, id.y as usize), v);
    }

    /// Writes `v` into the cell at column `id.0`, row `id.1`; it must lie on the grid.
    pub fn set_xy(&mut self, id: (usize, usize), v: T)
        requires
            old(self).wf(),
            old(self).in_grid(id.0 as int, id.1 as int),
        ensures
            final(self).wf(),
            final(self).rows() == old(self).rows(),
            final(self).cols() == old(self).cols(),
            final(self).cells() == old(self).cells().update(
                id.1 as int,
                old(self).cells()[id.1 as int].update(id.0 as int, v),
            ),
            final(self).at(id.0 as int, id.1 as int) == v,
            forall|x: int, y: int|
                old(self).in_grid(x, y) && !(x == id.0 && y == id.1) ==> #[trigger] final(self).at(
                    x,
                    y,
                ) == old(self).at(x, y),
    {
        let (x, y) = id;
        let ghost old_cells = self.cells();
        assert(self.data@[y as int]@ == old_cells[y as int]);
        self.data[y][x] = v;
        assert(self.cells() =~= old_cells.update(y as int, old_cells[y as int].update(x as int, v)));
        assert forall|i: int| 0 <= i < self.rows() implies (#[trigger] self.cells()[i]).len()
            == self.cols() by {
            if i != y {
                assert(self.cells()[i] == old_cells[i]);
            }
        }
    }
}

} // verus!
