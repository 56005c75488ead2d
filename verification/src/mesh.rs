//! The mesh: a square grid of surface points and the triangles between them.

use vstd::prelude::*;
use crate::control_points::ControlPoints;
use crate::fixed::{COORD_MAX, ONE, floor_div, lemma_div_exact, lemma_div_monotone};
use crate::point::{Point, SurfacePoint, surface_point};
use crate::triangle::Triangle;
use crate::vector::{UNIT_MAX, Mat3, Matrix, lemma_apply_bounded};

verus! {

/// A place in a grid: a row and a column.
#[derive(Clone, Copy, Debug, PartialEq, Eq, Structural)]
pub struct PosIn2DArr {
    pub row: usize,
    pub col: usize,
}

/// A grid of points, stored row by row.
pub struct Points2DArr {
    data: Vec<Point>,
    rows: usize,
    cols: usize,
}

impl Points2DArr {
    /// The grid holds `rows * cols` points.
    pub closed spec fn wf(&self) -> bool {
        self.data@.len() == self.rows * self.cols && self.rows * self.cols <= usize::MAX
    }

    pub closed spec fn spec_rows(&self) -> usize {
        self.rows
    }

    pub closed spec fn spec_cols(&self) -> usize {
        self.cols
    }

    /// The point in row `row` and column `col`.
    pub closed spec fn point(&self, row: int, col: int) -> Point {
        self.data@[row * self.cols + col]
    }

    /// A grid of `height` rows and `width` columns in which every point is
    /// zero.
    pub fn new(height: usize, width: usize) -> (r: Self)
        requires
            height * width <= usize::MAX,
        ensures
            r.wf(),
            r.rows() == height,
            r.cols() == width,
            forall|i: int, j: int| 0 <= i < height && 0 <= j < width ==> #[trigger] r.point(i, j) == Point::zero_spec(),
    {
        let n: usize = width * height;
        let mut data: Vec<Point> = Vec::new();
        let mut k: usize = 0;
        while k < n
            invariant
                k <= n,
                data@.len() == k,
                forall|t: int| 0 <= t < k ==> #[trigger] data@[t] == Point::zero_spec(),
            decreases n - k,
        {
            data.push(Point::zero());
            k = k + 1;
        }
        let r = Self { data, rows: height, cols: width };
        proof {
            assert(width * height == height * width) by (nonlinear_arith);
            assert forall|i: int, j: int| 0 <= i < height && 0 <= j < width implies #[trigger] r.point(i, j)
                == Point::zero_spec() by {
                lemma_index_in_range(i, j, height as int, width as int);
            }
        }
        r
    }

    /// Where the point in row `row` and column `column` is stored.
    pub fn get_index(&self, row: usize, column: usize) -> (r: usize)
        requires
            self.wf(),
            row < self.rows(),
            column < self.cols(),
        ensures
            r == row * self.cols() + column,
    {
        proof {
            lemma_index_in_range(row as int, column as int, self.rows as int, self.cols as int);
        }
        row * self.cols + column
    }

    pub fn at(&self, row: usize, column: usize) -> (r: &Point)
        requires
            self.wf(),
            row < self.rows(),
            column < self.cols(),
        ensures
            *r == self.point(row as int, column as int),
    {
        proof {
            lemma_index_in_range(row as int, column as int, self.rows as int, self.cols as int);
        }
        &self.data[self.get_index(row, column)]
    }

    pub fn at_pos(&self, pos: PosIn2DArr) -> (r: &Point)
        requires
            self.wf(),
            pos.row < self.rows(),
            pos.col < self.cols(),
        ensures
            *r == self.point(pos.row as int, pos.col as int),
    {
        self.at(pos.row, pos.col)
    }

    /// Puts `point` in row `row` and column `column`; every other point stays.
    pub fn set_at(&mut self, row: usize, column: usize, point: Point)
        requires
            old(self).wf(),
            row < old(self).rows(),
            column < old(self).cols(),
        ensures
            final(self).wf(),
            final(self).rows() == old(self).rows(),
            final(self).cols() == old(self).cols(),
            final(self).point(row as int, column as int) == point,
            forall|i: int, j: int|
                0 <= i < old(self).rows() && 0 <= j < old(self).cols() && (i != row || j != column)
                    ==> #[trigger] final(self).point(i, j) == old(self).point(i, j),
    {
        proof {
            lemma_index_in_range(row as int, column as int, self.rows as int, self.cols as int);
        }
        let id: usize = self.get_index(row, column);
        self.data.set(id, point);
        proof {
            assert forall|i: int, j: int|
                0 <= i < old(self).rows() && 0 <= j < old(self).cols() && (i != row || j != column) implies #[trigger] self.point(
                i,
                j,
            ) == old(self).point(i, j) by {
                lemma_index_in_range(i, j, self.rows as int, self.cols as int);
                lemma_index_injective(i, j, row as int, column as int, self.cols as int);
            }
        }
    }

    /// In every point the positions are bounded by `bp`, the directions by
    /// `bd`, and the parameters lie between zero and one.
    pub open spec fn bounded(&self, bp: int, bd: int) -> bool {
        forall|i: int, j: int|
            0 <= i < self.rows() && 0 <= j < self.cols() ==> {
                let q = #[trigger] self.point(i, j);
                q@.bounded(bp, bd, ONE as int) && 0 <= q.u && 0 <= q.v
            }
    }

    #[verifier::when_used_as_spec(spec_rows)]
    pub fn rows(&self) -> (r: usize)
        ensures
            r == self.rows(),
    {
        self.rows
    }

    #[verifier::when_used_as_spec(spec_cols)]
    pub fn cols(&self) -> (r: usize)
        ensures
            r == self.cols(),
    {
        self.cols
    }
}

/// A place inside a grid is stored inside the grid.
pub proof fn lemma_index_in_range(i: int, j: int, rows: int, cols: int)
    requires
        0 <= i < rows,
        0 <= j < cols,
    ensures
        0 <= i * cols + j < rows * cols,
        0 <= i * cols <= rows * cols,
{
    assert(0 <= i * cols + j < rows * cols && 0 <= i * cols <= rows * cols) by (nonlinear_arith)
        requires
            0 <= i < rows,
            0 <= j < cols,
    ;
}

/// Two different places are stored at different indices.
pub proof fn lemma_index_injective(i: int, j: int, k: int, l: int, cols: int)
    requires
        0 <= j < cols,
        0 <= l < cols,
        i != k || j != l,
    ensures
        i * cols + j != k * cols + l,
{
    assert(i * cols + j != k * cols + l) by (nonlinear_arith)
        requires
            0 <= j < cols,
            0 <= l < cols,
            i != k || j != l,
    ;
}

/// The parameter of sample `i` out of `n` samples spread evenly from zero to
/// one.
pub open spec fn sample_parameter(i: int, n: int) -> int {
    (i * ONE) / (n - 1)
}

/// The point that the mesh holds for the samples `i` and `j` out of `n`: the
/// patch evaluated there, and rotated.
pub open spec fn mesh_point(grid: Seq<crate::vector::Vector>, rotation: Matrix, i: int, j: int, n: int) -> SurfacePoint {
    let u = sample_parameter(i, n);
    let v = sample_parameter(j, n);
    let before = surface_point(grid, u, v);
    SurfacePoint { before, after: before.rotated(rotation), u, v }
}

/// The place in row `row` and column `col`.
pub open spec fn place(row: int, col: int) -> PosIn2DArr {
    PosIn2DArr { row: row as usize, col: col as usize }
}

/// The first triangle of the cell between the rows `i` and `i + 1` and the
/// columns `j - 1` and `j`.
pub open spec fn upper_triangle(i: int, j: int) -> Seq<PosIn2DArr> {
    seq![place(i, j), place(i, j - 1), place(i + 1, j - 1)]
}

/// The second triangle of that cell. Both share the diagonal from
/// `(i, j)` to `(i + 1, j - 1)`.
pub open spec fn bottom_triangle(i: int, j: int) -> Seq<PosIn2DArr> {
    seq![place(i, j), place(i + 1, j), place(i + 1, j - 1)]
}

/// The number of triangles of a grid: two for every cell.
pub open spec fn triangle_count(rows: int, cols: int) -> int {
    if cols == 0 {
        0
    } else {
        2 * ((rows - 1) * (cols - 1))
    }
}

/// Triangle number `k` of a grid with `cols` columns: the cells are counted
/// row by row, and each gives its upper triangle and then its bottom one.
pub open spec fn triangle_at(k: int, cols: int) -> Seq<PosIn2DArr> {
    let cell = k / 2;
    let i = cell / (cols - 1);
    let j = cell % (cols - 1) + 1;
    if k % 2 == 0 {
        upper_triangle(i, j)
    } else {
        bottom_triangle(i, j)
    }
}

/// The samples are spread from zero to one.
pub proof fn lemma_sample_parameter(i: int, n: int)
    requires
        n >= 2,
        0 <= i < n,
    ensures
        0 <= sample_parameter(i, n) <= ONE,
        sample_parameter(0, n) == 0,
        sample_parameter(n - 1, n) == ONE,
{
    assert(0 <= i * ONE <= ONE * (n - 1)) by (nonlinear_arith)
        requires
            0 <= i < n,
    ;
    lemma_div_monotone(0, i * ONE, n - 1);
    lemma_div_monotone(i * ONE, ONE * (n - 1), n - 1);
    lemma_div_exact(ONE as int, n - 1);
    lemma_div_exact(0, n - 1);
    assert((n - 1) * ONE == ONE * (n - 1)) by (nonlinear_arith);
    assert(0 * ONE == 0 * (n - 1));
}

/// A surface: its points on a square grid and the triangles that cover it.
pub struct Mesh {
    triangles: Vec<Triangle>,
    points: Points2DArr,
}

impl Mesh {
    /// The triangles of the mesh.
    pub closed spec fn triangle_list(&self) -> Seq<Triangle> {
        self.triangles@
    }

    /// The grid of points of the mesh.
    pub closed spec fn grid(&self) -> Points2DArr {
        self.points
    }

    /// The grid is square with at least two points a side, no point lies
    /// further out than three times `COORD_MAX`, and the triangles are those
    /// of the grid.
    pub open spec fn wf(&self) -> bool {
        let n = self.grid().rows() as int;
        &&& self.grid().wf()
        &&& self.grid().cols() == n
        &&& n >= 2
        &&& self.grid().bounded(3 * COORD_MAX, UNIT_MAX as int)
        &&& self.triangle_list().len() == 2 * ((n - 1) * (n - 1))
        &&& forall|k: int| 0 <= k < self.triangle_list().len() ==> is_grid_triangle(#[trigger] self.triangle_list()[k], k, n, n)
    }

    /// Samples the patch on a grid of `accuracy` by `accuracy` parameters
    /// spread evenly over the unit square, rotates every sample, and splits
    /// every cell of the grid into two triangles.
    pub fn triangulation(control_points: &ControlPoints, accuracy: usize, rotation: &Mat3) -> (r: Self)
        requires
            control_points.wf(),
            rotation@.bounded(ONE as int),
            accuracy >= 2,
            2 * (accuracy * accuracy) <= usize::MAX,
        ensures
            r.wf(),
            r.grid().rows() == accuracy,
            r.grid().cols() == accuracy,
            forall|i: int, j: int|
                0 <= i < accuracy && 0 <= j < accuracy ==> (#[trigger] r.grid().point(i, j))@ == mesh_point(
                    control_points@,
                    rotation@,
                    i,
                    j,
                    accuracy as int,
                ),
            r.triangle_list().len() == 2 * ((accuracy - 1) * (accuracy - 1)),
            forall|k: int|
                0 <= k < r.triangle_list().len() ==> {
                    let t = #[trigger] r.triangle_list()[k];
                    t@.len() == 3 && t.distinct() && t.in_grid(accuracy as int, accuracy as int)
                },
    {
        let points = Self::generate_points(control_points, accuracy, rotation);
        let triangles = Self::generate_triangles(&points);
        Self { triangles, points }
    }

    pub fn triangles(&self) -> (r: &[Triangle])
        ensures
            r@ == self.triangle_list(),
    {
        self.triangles.as_slice()
    }

    pub fn points(&self) -> (r: &Points2DArr)
        ensures
            *r == self.grid(),
    {
        &self.points
    }

    /// The patch sampled on a grid of `points_count` by `points_count`
    /// parameters, every sample rotated.
    pub fn generate_points(control_points: &ControlPoints, points_count: usize, rotation: &Mat3) -> (r: Points2DArr)
        requires
            control_points.wf(),
            rotation@.bounded(ONE as int),
            points_count >= 2,
            points_count * points_count <= usize::MAX,
        ensures
            r.wf(),
            r.rows() == points_count,
            r.cols() == points_count,
            r.bounded(3 * COORD_MAX, UNIT_MAX as int),
            forall|i: int, j: int|
                0 <= i < points_count && 0 <= j < points_count ==> (#[trigger] r.point(i, j))@ == mesh_point(
                    control_points@,
                    rotation@,
                    i,
                    j,
                    points_count as int,
                ),
    {
        let mut points = Points2DArr::new(points_count, points_count);
        let ghost n = points_count as int;
        let mut i: usize = 0;
        while i < points_count
            invariant
                control_points.wf(),
                rotation@.bounded(ONE as int),
                points_count >= 2,
                n == points_count,
                i <= points_count,
                points.wf(),
                points.rows() == points_count,
                points.cols() == points_count,
                forall|a: int, b: int|
                    0 <= a < i && 0 <= b < n ==> is_mesh_point(#[trigger] points.point(a, b), control_points@, rotation@, a, b, n),
            decreases points_count - i,
        {
            let u: i64 = Self::parameter(i, points_count);
            let mut j: usize = 0;
            while j < points_count
                invariant
                    control_points.wf(),
                    rotation@.bounded(ONE as int),
                    points_count >= 2,
                    n == points_count,
                    i < points_count,
                    j <= points_count,
                    u == sample_parameter(i as int, n),
                    0 <= u <= ONE,
                    points.wf(),
                    points.rows() == points_count,
                    points.cols() == points_count,
                    forall|a: int, b: int|
                        0 <= a < i && 0 <= b < n ==> is_mesh_point(#[trigger] points.point(a, b), control_points@, rotation@, a, b, n),
                    forall|b: int|
                        0 <= b < j ==> is_mesh_point(#[trigger] points.point(i as int, b), control_points@, rotation@, i as int, b, n),
                decreases points_count - j,
            {
                let v: i64 = Self::parameter(j, points_count);
                let mut point = Point::from_control_points(u, v, control_points);
                point.apply_rotation(rotation);
                proof {
                    lemma_apply_bounded(rotation@, point@.before.p, COORD_MAX as int);
                }
                let ghost before = points;
                points.set_at(i, j, point);
                proof {
                    assert(is_mesh_point(points.point(i as int, j as int), control_points@, rotation@, i as int, j as int, n));
                    assert forall|a: int, b: int| 0 <= a < i && 0 <= b < n implies is_mesh_point(
                        #[trigger] points.point(a, b),
                        control_points@,
                        rotation@,
                        a,
                        b,
                        n,
                    ) by {
                        assert(points.point(a, b) == before.point(a, b));
                    }
                    assert forall|b: int| 0 <= b < j + 1 implies is_mesh_point(
                        #[trigger] points.point(i as int, b),
                        control_points@,
                        rotation@,
                        i as int,
                        b,
                        n,
                    ) by {
                        if b < j {
                            assert(points.point(i as int, b) == before.point(i as int, b));
                        }
                    }
                }
                j = j + 1;
            }
            i = i + 1;
        }
        points
    }

    /// The parameter of sample `i` out of `count`.
    fn parameter(i: usize, count: usize) -> (r: i64)
        requires
            count >= 2,
            i < count,
            count * count <= usize::MAX,
        ensures
            r == sample_parameter(i as int, count as int),
            0 <= r <= ONE,
    {
        proof {
            lemma_sample_parameter(i as int, count as int);
            assert(count <= 0x1_0000_0000) by (nonlinear_arith)
                requires
                    count * count <= usize::MAX,
                    usize::MAX <= 0xffff_ffff_ffff_ffff,
            ;
            assert(0 <= i * ONE <= 0x1_0000_0000 * ONE) by (nonlinear_arith)
                requires
                    0 <= i <= 0x1_0000_0000,
            ;
        }
        let q: i128 = floor_div((i as i128) * (ONE as i128), (count - 1) as i128);
        q as i64
    }

    /// Two triangles for every cell of the grid: the cell between the rows
    /// `i` and `i + 1` and the columns `j - 1` and `j` gives the triangle
    /// `(i, j), (i, j - 1), (i + 1, j - 1)` and then the triangle
    /// `(i, j), (i + 1, j), (i + 1, j - 1)`.
    pub fn generate_triangles(points: &Points2DArr) -> (r: Vec<Triangle>)
        requires
            points.wf(),
            points.rows() >= 1,
        ensures
            r@.len() == triangle_count(points.rows() as int, points.cols() as int),
            forall|k: int| 0 <= k < r@.len() ==> (#[trigger] r@[k])@ == triangle_at(k, points.cols() as int),
            forall|k: int|
                0 <= k < r@.len() ==> {
                    let t = #[trigger] r@[k];
                    t@.len() == 3 && t.distinct() && t.in_grid(points.rows() as int, points.cols() as int)
                },
    {
        let rows: usize = points.rows();
        let cols: usize = points.cols();
        let mut triangles: Vec<Triangle> = Vec::new();
        let mut i: usize = 0;
        while i < rows - 1
            invariant
                rows >= 1,
                rows == points.rows(),
                cols == points.cols(),
                i <= rows - 1,
                triangles@.len() == triangle_count(i + 1, cols as int),
                forall|k: int| 0 <= k < triangles@.len() ==> is_grid_triangle(#[trigger] triangles@[k], k, rows as int, cols as int),
            decreases rows - 1 - i,
        {
            let mut j: usize = 1;
            while j < cols
                invariant
                    rows >= 1,
                    i < rows - 1,
                    1 <= j,
                    cols >= 1 ==> j <= cols,
                    cols >= 1 ==> triangles@.len() == 2 * (i * (cols - 1) + (j - 1)),
                    cols == 0 ==> triangles@.len() == 0,
                    forall|k: int| 0 <= k < triangles@.len() ==> is_grid_triangle(#[trigger] triangles@[k], k, rows as int, cols as int),
                decreases cols - j,
            {
                let upper = Triangle::new(
                    [
                        PosIn2DArr { row: i, col: j },
                        PosIn2DArr { row: i, col: j - 1 },
                        PosIn2DArr { row: i + 1, col: j - 1 },
                    ],
                );
                let bottom = Triangle::new(
                    [
                        PosIn2DArr { row: i, col: j },
                        PosIn2DArr { row: i + 1, col: j },
                        PosIn2DArr { row: i + 1, col: j - 1 },
                    ],
                );
                proof {
                    let k = triangles@.len() as int;
                    lemma_cell_of(i as int, j as int, cols as int);
                    assert(upper@ =~= upper_triangle(i as int, j as int));
                    assert(bottom@ =~= bottom_triangle(i as int, j as int));
                    assert(is_grid_triangle(upper, k, rows as int, cols as int));
                    assert(is_grid_triangle(bottom, k + 1, rows as int, cols as int));
                }
                triangles.push(upper);
                triangles.push(bottom);
                j = j + 1;
            }
            proof {
                if cols >= 1 {
                    assert(2 * (i * (cols - 1) + (cols - 1)) == 2 * ((i + 1) * (cols - 1))) by (nonlinear_arith);
                }
                assert(cols == 0 ==> triangles@.len() == 0);
            }
            i = i + 1;
        }
        proof {
            assert(triangle_count(1, cols as int) == 0) by (nonlinear_arith);
        }
        triangles
    }
}

/// The point is the sample `(i, j)` out of `n` by `n`, rotated, and lies
/// within three times `COORD_MAX`.
pub open spec fn is_mesh_point(q: Point, grid: Seq<crate::vector::Vector>, rotation: Matrix, i: int, j: int, n: int) -> bool {
    &&& q@ == mesh_point(grid, rotation, i, j, n)
    &&& q@.bounded(3 * COORD_MAX, UNIT_MAX as int, ONE as int)
    &&& 0 <= q.u
    &&& 0 <= q.v
}

/// The triangle is number `k` of the grid, with three different corners
/// inside the grid.
pub open spec fn is_grid_triangle(t: Triangle, k: int, rows: int, cols: int) -> bool {
    &&& t@ == triangle_at(k, cols)
    &&& t@.len() == 3
    &&& t.distinct()
    &&& t.in_grid(rows, cols)
}

/// The two triangles of the cell `(i, j)` have the numbers
/// `2 * (i * (cols - 1) + j - 1)` and the next.
pub proof fn lemma_cell_of(i: int, j: int, cols: int)
    requires
        0 <= i,
        1 <= j < cols,
    ensures
        triangle_at(2 * (i * (cols - 1) + (j - 1)), cols) == upper_triangle(i, j),
        triangle_at(2 * (i * (cols - 1) + (j - 1)) + 1, cols) == bottom_triangle(i, j),
{
    let cell = i * (cols - 1) + (j - 1);
    assert(cell == (cols - 1) * i + (j - 1)) by (nonlinear_arith)
        requires
            cell == i * (cols - 1) + (j - 1),
    ;
    vstd::arithmetic::div_mod::lemma_fundamental_div_mod_converse(cell, cols - 1, i, j - 1);
    assert((2 * cell) / 2 == cell);
    assert((2 * cell + 1) / 2 == cell);
}

} // verus!
