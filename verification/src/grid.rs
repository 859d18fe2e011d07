//! The mapping grid, and maps on it.

use vstd::prelude::*;

use crate::consts::{NLAT, NLON};
use crate::double::{dyadic, finite, negative, one, units};

verus! {

/// `bits` is the double `n / 2`.
pub open spec fn is_half(bits: u64, n: int) -> bool {
    finite(bits) && negative(bits) == (n < 0) && units(bits) * 2 == n * one()
}

/// The cell centres of a longitude-latitude grid, in degrees, as doubles.
#[derive(Debug, Clone)]
pub struct GridDef {
    pub lon: Vec<u64>,
    pub lat: Vec<u64>,
}

impl GridDef {
    /// The fixed one-degree mapping grid: longitudes 20.5 to 379.5, latitudes -89.5 to 89.5.
    pub fn mapping() -> (r: Self)
        ensures
            r.lon.len() == NLON,
            r.lat.len() == NLAT,
            forall|i: int| 0 <= i < NLON ==> is_half(#[trigger] r.lon@[i], 2 * i + 41),
            forall|j: int| 0 <= j < NLAT ==> is_half(#[trigger] r.lat@[j], 2 * j - 179),
    {
        proof {
            vstd::arithmetic::power2::lemma2_to64();
        }
        let mut lon: Vec<u64> = Vec::new();
        let mut i: usize = 0;
        while i < NLON
            invariant
                i <= NLON,
                lon.len() == i,
                vstd::arithmetic::power2::pow2(1) == 2,
                forall|k: int| 0 <= k < i ==> is_half(#[trigger] lon@[k], 2 * k + 41),
            decreases NLON - i,
        {
            lon.push(dyadic(2 * i as i64 + 41, 1));
            i = i + 1;
        }
        let mut lat: Vec<u64> = Vec::new();
        let mut j: usize = 0;
        while j < NLAT
            invariant
                j <= NLAT,
                lat.len() == j,
                vstd::arithmetic::power2::pow2(1) == 2,
                forall|k: int| 0 <= k < j ==> is_half(#[trigger] lat@[k], 2 * k - 179),
            decreases NLAT - j,
        {
            lat.push(dyadic(2 * j as i64 - 179, 1));
            j = j + 1;
        }
        GridDef { lon, lat }
    }

    /// How many longitudes there are.
    pub fn nlon(&self) -> (r: usize)
        ensures
            r == self.lon.len(),
    {
        self.lon.len()
    }

    /// How many latitudes there are.
    pub fn nlat(&self) -> (r: usize)
        ensures
            r == self.lat.len(),
    {
        self.lat.len()
    }
}

/// A table of `nrow` by `ncol` cells, row by row. A map has one row per latitude.
#[derive(Debug, Clone)]
pub struct Grid2<T> {
    pub nrow: usize,
    pub ncol: usize,
    pub cells: Vec<T>,
}

/// The place of a cell in a row-by-row table.
pub open spec fn place(ncol: int, j: int, i: int) -> int {
    j * ncol + i
}

/// Cells of a table have distinct places inside it.
pub proof fn lemma_place(nrow: int, ncol: int, j: int, i: int)
    requires
        0 <= j < nrow,
        0 <= i < ncol,
    ensures
        0 <= place(ncol, j, i) < nrow * ncol,
        place(ncol, j, i) / ncol == j,
        place(ncol, j, i) % ncol == i,
        place(ncol, j, i) + ncol - i <= nrow * ncol,
{
    assert(j * ncol + ncol <= nrow * ncol) by (nonlinear_arith)
        requires
            j + 1 <= nrow,
            ncol > 0,
    ;
    assert(j * ncol >= 0) by (nonlinear_arith)
        requires
            j >= 0,
            ncol > 0,
    ;
    assert(j * ncol + i == ncol * j + i) by (nonlinear_arith);
    vstd::arithmetic::div_mod::lemma_fundamental_div_mod_converse(j * ncol + i, ncol, j, i);
}

/// Every place of a table belongs to a cell.
pub proof fn lemma_cell_of(nrow: int, ncol: int, k: int)
    requires
        nrow >= 0,
        ncol >= 0,
        0 <= k < nrow * ncol,
    ensures
        ncol > 0,
        0 <= k / ncol < nrow,
        0 <= k % ncol < ncol,
        place(ncol, k / ncol, k % ncol) == k,
{
    assert(ncol > 0) by (nonlinear_arith)
        requires
            ncol >= 0,
            0 < nrow * ncol,
    ;
    vstd::arithmetic::div_mod::lemma_fundamental_div_mod(k, ncol);
    let q = k / ncol;
    assert(q < nrow) by (nonlinear_arith)
        requires
            ncol * q <= k,
            k < nrow * ncol,
            ncol > 0,
    ;
    assert(q * ncol == ncol * q) by (nonlinear_arith);
    vstd::arithmetic::div_mod::lemma_div_pos_is_pos(k, ncol);
}

impl<T> Grid2<T> {
    /// The table has a cell for every row and column.
    pub open spec fn wf(&self) -> bool {
        self.cells.len() == self.nrow * self.ncol
    }

    /// The table has the given shape.
    pub open spec fn shaped(&self, nrow: int, ncol: int) -> bool {
        self.wf() && self.nrow == nrow && self.ncol == ncol
    }

    /// The cell in row `j` and column `i`.
    pub open spec fn at(&self, j: int, i: int) -> T {
        self.cells@[place(self.ncol as int, j, i)]
    }
}

impl<T: Copy> Grid2<T> {
    /// A table with the same value everywhere.
    pub fn filled(nrow: usize, ncol: usize, value: T) -> (r: Self)
        requires
            nrow * ncol <= usize::MAX,
        ensures
            r.shaped(nrow as int, ncol as int),
            forall|j: int, i: int| 0 <= j < nrow && 0 <= i < ncol ==> #[trigger] r.at(j, i) == value,
    {
        let n: usize = nrow * ncol;
        let mut cells: Vec<T> = Vec::new();
        let mut k: usize = 0;
        while k < n
            invariant
                k <= n,
                cells.len() == k,
                forall|m: int| 0 <= m < k ==> cells@[m] == value,
            decreases n - k,
        {
            cells.push(value);
            k = k + 1;
        }
        let r = Grid2 { nrow, ncol, cells };
        proof {
            assert forall|j: int, i: int| 0 <= j < nrow && 0 <= i < ncol implies #[trigger] r.at(j, i) == value by {
                lemma_place(nrow as int, ncol as int, j, i);
            }
        }
        r
    }

    /// Reads a cell.
    pub fn get(&self, j: usize, i: usize) -> (r: T)
        requires
            self.wf(),
            j < self.nrow,
            i < self.ncol,
        ensures
            r == self.at(j as int, i as int),
    {
        proof {
            lemma_place(self.nrow as int, self.ncol as int, j as int, i as int);
            assert(j * self.ncol >= 0) by (nonlinear_arith)
                requires
                    j >= 0,
                    self.ncol >= 0,
            ;
        }
        self.cells[j * self.ncol + i]
    }

    /// Writes a cell.
    pub fn set(&mut self, j: usize, i: usize, value: T)
        requires
            old(self).wf(),
            j < old(self).nrow,
            i < old(self).ncol,
        ensures
            final(self).shaped(old(self).nrow as int, old(self).ncol as int),
            final(self).cells@ == old(self).cells@.update(place(old(self).ncol as int, j as int, i as int), value),
            forall|b: int, a: int|
                0 <= b < old(self).nrow && 0 <= a < old(self).ncol ==> #[trigger] final(self).at(b, a) == if b == j
                    && a == i {
                    value
                } else {
                    old(self).at(b, a)
                },
    {
        let ncol: usize = self.ncol;
        proof {
            lemma_place(self.nrow as int, ncol as int, j as int, i as int);
            assert(j * ncol >= 0) by (nonlinear_arith)
                requires
                    j >= 0,
                    ncol >= 0,
            ;
        }
        self.cells.set(j * ncol + i, value);
        proof {
            assert forall|b: int, a: int| 0 <= b < old(self).nrow && 0 <= a < old(self).ncol implies #[trigger] self.at(
                b,
                a,
            ) == if b == j && a == i {
                value
            } else {
                old(self).at(b, a)
            } by {
                lemma_place(self.nrow as int, ncol as int, b, a);
            }
        }
    }
}

/// A block of `n0` by `n1` by `n2` cells, the last index running fastest.
#[derive(Debug, Clone)]
pub struct Grid3<T> {
    pub n0: usize,
    pub n1: usize,
    pub n2: usize,
    pub cells: Vec<T>,
}

/// The place of a cell in a block whose last index runs fastest.
pub open spec fn place3(n1: int, n2: int, i: int, j: int, k: int) -> int {
    place(n2, place(n1, i, j), k)
}

/// Cells of a block have places inside it.
pub proof fn lemma_place3(n0: int, n1: int, n2: int, i: int, j: int, k: int)
    requires
        0 <= i < n0,
        0 <= j < n1,
        0 <= k < n2,
    ensures
        0 <= place(n1, i, j) < n0 * n1,
        0 <= place3(n1, n2, i, j, k) < n0 * n1 * n2,
{
    lemma_place(n0, n1, i, j);
    lemma_place(n0 * n1, n2, place(n1, i, j), k);
}

impl<T> Grid3<T> {
    /// The block has a cell for every triple of indices.
    pub open spec fn wf(&self) -> bool {
        self.cells.len() == self.n0 * self.n1 * self.n2
    }

    /// The block has the given shape.
    pub open spec fn shaped(&self, n0: int, n1: int, n2: int) -> bool {
        self.wf() && self.n0 == n0 && self.n1 == n1 && self.n2 == n2
    }

    /// The cell at a triple of indices.
    pub open spec fn at(&self, i: int, j: int, k: int) -> T {
        self.cells@[place3(self.n1 as int, self.n2 as int, i, j, k)]
    }
}

impl<T: Copy> Grid3<T> {
    /// Reads a cell.
    pub fn get(&self, i: usize, j: usize, k: usize) -> (r: T)
        requires
            self.wf(),
            i < self.n0,
            j < self.n1,
            k < self.n2,
        ensures
            r == self.at(i as int, j as int, k as int),
    {
        let (n1, n2) = (self.n1, self.n2);
        proof {
            lemma_place3(self.n0 as int, n1 as int, n2 as int, i as int, j as int, k as int);
            let row = place(n1 as int, i as int, j as int);
            assert(row <= row * n2) by (nonlinear_arith)
                requires
                    row >= 0,
                    n2 >= 1,
            ;
            assert(i * n1 >= 0) by (nonlinear_arith)
                requires
                    i >= 0,
                    n1 >= 0,
            ;
        }
        self.cells[(i * n1 + j) * n2 + k]
    }
}

/// A time series of maps of one shape.
#[derive(Debug, Clone)]
pub struct MapStack {
    pub nlat: usize,
    pub nlon: usize,
    pub maps: Vec<Grid2<u64>>,
}

impl MapStack {
    /// Every map has the shape of the stack.
    pub open spec fn wf(&self) -> bool {
        forall|t: int| 0 <= t < self.maps.len() ==> (#[trigger] self.maps@[t]).shaped(self.nlat as int, self.nlon as int)
    }
}

/// How many cells an array of the given extents has.
pub open spec fn cell_count(dims: Seq<usize>) -> int
    decreases dims.len(),
{
    if dims.len() == 0 {
        1
    } else {
        cell_count(dims.drop_last()) * dims.last()
    }
}

/// An array with an empty extent has no cell.
pub proof fn lemma_empty_extent(dims: Seq<usize>, k: int)
    requires
        0 <= k < dims.len(),
        dims[k] == 0,
    ensures
        cell_count(dims) == 0,
    decreases dims.len(),
{
    if k < dims.len() - 1 {
        lemma_empty_extent(dims.drop_last(), k);
    }
    let (a, b) = (cell_count(dims.drop_last()), dims.last() as int);
    assert(a * b == 0) by (nonlinear_arith)
        requires
            a == 0 || b == 0,
    ;
}

/// A count of cells is not negative.
pub proof fn lemma_count_sign(dims: Seq<usize>)
    ensures
        cell_count(dims) >= 0,
    decreases dims.len(),
{
    if dims.len() > 0 {
        lemma_count_sign(dims.drop_last());
        let (a, b) = (cell_count(dims.drop_last()), dims.last() as int);
        assert(a * b >= 0) by (nonlinear_arith)
            requires
                a >= 0,
                b >= 0,
        ;
    }
}

/// Without an empty extent, further extents take no cell away.
proof fn lemma_count_grows(dims: Seq<usize>, k: int)
    requires
        0 <= k <= dims.len(),
        forall|m: int| 0 <= m < dims.len() ==> #[trigger] dims[m] > 0,
    ensures
        0 < cell_count(dims.take(k)) <= cell_count(dims),
    decreases dims.len(),
{
    if k == dims.len() {
        assert(dims.take(k) == dims);
        if k > 0 {
            lemma_count_grows(dims.drop_last(), k - 1);
            assert(dims.drop_last().take(k - 1) == dims.drop_last());
            let (a, b) = (cell_count(dims.drop_last()), dims.last() as int);
            assert(a * b > 0) by (nonlinear_arith)
                requires
                    a > 0,
                    b > 0,
            ;
        }
    } else {
        lemma_count_grows(dims.drop_last(), k);
        assert(dims.drop_last().take(k) == dims.take(k));
        let (a, b) = (cell_count(dims.drop_last()), dims.last() as int);
        assert(a * b >= a) by (nonlinear_arith)
            requires
                a > 0,
                b > 0,
        ;
    }
}

/// Counts the cells of an array, unless there are more than a machine word counts.
pub fn count_cells(dims: &Vec<usize>) -> (r: Option<usize>)
    ensures
        match r {
            Some(n) => n == cell_count(dims@),
            None => cell_count(dims@) > usize::MAX,
        },
{
    let mut k: usize = 0;
    while k < dims.len()
        invariant
            k <= dims.len(),
            forall|m: int| 0 <= m < k ==> #[trigger] dims@[m] > 0,
        decreases dims.len() - k,
    {
        if dims[k] == 0 {
            proof {
                lemma_empty_extent(dims@, k as int);
            }
            return Some(0);
        }
        k = k + 1;
    }
    let mut n: usize = 1;
    let mut i: usize = 0;
    while i < dims.len()
        invariant
            i <= dims.len(),
            n == cell_count(dims@.take(i as int)),
            forall|m: int| 0 <= m < dims.len() ==> #[trigger] dims@[m] > 0,
        decreases dims.len() - i,
    {
        proof {
            assert(dims@.take(i + 1).drop_last() == dims@.take(i as int));
            lemma_count_grows(dims@, i + 1);
        }
        match n.checked_mul(dims[i]) {
            Some(p) => {
                n = p;
            },
            None => {
                return None;
            },
        }
        i = i + 1;
    }
    assert(dims@.take(i as int) == dims@);
    Some(n)
}

/// The map of cell areas, given the area of a cell at each latitude: it depends on nothing else.
pub fn cell_area(grid: &GridDef, row_areas: &Vec<u64>) -> (r: Grid2<u64>)
    requires
        row_areas.len() == grid.lat.len(),
        grid.lat.len() * grid.lon.len() <= usize::MAX,
    ensures
        r.shaped(grid.lat.len() as int, grid.lon.len() as int),
        forall|j: int, i: int|
            0 <= j < grid.lat.len() && 0 <= i < grid.lon.len() ==> #[trigger] r.at(j, i) == row_areas@[j],
{
    let (nlat, nlon) = (grid.nlat(), grid.nlon());
    let mut r: Grid2<u64> = Grid2::filled(nlat, nlon, 0);
    let mut j: usize = 0;
    while j < nlat
        invariant
            j <= nlat,
            nlat == row_areas.len(),
            r.shaped(nlat as int, nlon as int),
            forall|b: int, a: int| 0 <= b < j && 0 <= a < nlon ==> #[trigger] r.at(b, a) == row_areas@[b],
        decreases nlat - j,
    {
        let mut i: usize = 0;
        while i < nlon
            invariant
                i <= nlon,
                j < nlat,
                nlat == row_areas.len(),
                r.shaped(nlat as int, nlon as int),
                forall|b: int, a: int| 0 <= b < j && 0 <= a < nlon ==> #[trigger] r.at(b, a) == row_areas@[b],
                forall|a: int| 0 <= a < i ==> #[trigger] r.at(j as int, a) == row_areas@[j as int],
            decreases nlon - i,
        {
            r.set(j, i, row_areas[j]);
            i = i + 1;
        }
        j = j + 1;
    }
    r
}

} // verus!
