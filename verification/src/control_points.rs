//! The four by four grid of control points of the patch.

use vstd::prelude::*;
use crate::control_file::{parse_text, rows_of, text_numbers};
use crate::fixed::{COORD_MAX, within};
use crate::vector::{Vec3, Vector};

verus! {

/// The number of control points of a bicubic patch.
pub const CONTROL_POINTS_COUNT: usize = 16;

/// The number of rows of the control grid.
pub const CONTROL_POINT_ROWS: usize = 4;

/// The number of columns of the control grid.
pub const CONTROL_POINT_COLS: usize = 4;

/// Why a list of coordinate lines is no control grid.
#[derive(Clone, Copy, Debug, PartialEq, Eq, Structural)]
pub enum LoadError {
    /// The line with this index does not hold three coordinates.
    InvalidCoords { line: usize },
    /// The line with this index holds a coordinate larger than `COORD_MAX`,
    /// which the arithmetic does not take.
    CoordinateTooLarge { line: usize },
    /// Every line is a point, but there are `got` of them and not sixteen.
    InvalidCount { got: usize },
}

/// A line holds three coordinates of admissible size.
pub open spec fn line_ok(line: Seq<i64>) -> bool {
    &&& line.len() == 3
    &&& within(line[0] as int, COORD_MAX as int)
    &&& within(line[1] as int, COORD_MAX as int)
    &&& within(line[2] as int, COORD_MAX as int)
}

/// The point that a line of three coordinates gives.
pub open spec fn line_point(line: Seq<i64>) -> Vector {
    Vector { x: line[0] as int, y: line[1] as int, z: line[2] as int }
}

/// The index of the first line that is no point, or the number of lines if
/// every line is one.
pub open spec fn first_bad_line(lines: Seq<Seq<i64>>) -> int
    decreases lines.len(),
{
    if lines.len() == 0 {
        0
    } else {
        let before = first_bad_line(lines.drop_last());
        if before < lines.len() - 1 || !line_ok(lines.last()) {
            before
        } else {
            lines.len() as int
        }
    }
}

/// The first line that is no point is no point, and every line before it is
/// one.
pub proof fn lemma_first_bad_line(lines: Seq<Seq<i64>>, i: int)
    requires
        0 <= i <= lines.len(),
        forall|k: int| 0 <= k < i ==> line_ok(#[trigger] lines[k]),
    ensures
        0 <= first_bad_line(lines) <= lines.len(),
        first_bad_line(lines) >= i,
        i < lines.len() && !line_ok(lines[i]) ==> first_bad_line(lines) == i,
    decreases lines.len(),
{
    if lines.len() > 0 {
        let rest = lines.drop_last();
        if i <= rest.len() {
            assert forall|k: int| 0 <= k < i implies line_ok(#[trigger] rest[k]) by {
                assert(rest[k] == lines[k]);
            }
            lemma_first_bad_line(rest, i);
            if i < rest.len() {
                assert(rest[i] == lines[i]);
            }
        } else {
            assert forall|k: int| 0 <= k < rest.len() implies line_ok(#[trigger] rest[k]) by {
                assert(rest[k] == lines[k]);
            }
            lemma_first_bad_line(rest, rest.len() as int);
        }
    }
}

/// The sixteen control points, row by row.
pub struct ControlPoints {
    points: Vec<Vec3>,
}

impl View for ControlPoints {
    type V = Seq<Vector>;

    closed spec fn view(&self) -> Seq<Vector> {
        Seq::new(self.points@.len(), |k: int| self.points@[k]@)
    }
}

impl ControlPoints {
    /// There are sixteen points, none of them further out than `COORD_MAX`.
    pub open spec fn wf(&self) -> bool {
        &&& self@.len() == CONTROL_POINTS_COUNT
        &&& forall|k: int| 0 <= k < CONTROL_POINTS_COUNT ==> (#[trigger] self@[k]).bounded(COORD_MAX as int)
    }

    /// The control point in row `row` and column `col`.
    pub open spec fn grid(&self, row: int, col: int) -> Vector {
        self@[row * 4 + col]
    }

    /// What a list of coordinate lines gives: the grid of the sixteen points,
    /// or the first line that is no point, or, if every line is a point, the
    /// number of lines that is not sixteen.
    pub open spec fn from_lines_spec(lines: Seq<Seq<i64>>) -> Result<Seq<Vector>, LoadError> {
        let bad = first_bad_line(lines);
        if bad < lines.len() {
            if lines[bad].len() == 3 {
                Err(LoadError::CoordinateTooLarge { line: bad as usize })
            } else {
                Err(LoadError::InvalidCoords { line: bad as usize })
            }
        } else if lines.len() != CONTROL_POINTS_COUNT {
            Err(LoadError::InvalidCount { got: lines.len() as usize })
        } else {
            Ok(Seq::new(lines.len(), |i: int| line_point(lines[i])))
        }
    }

    /// Builds the grid from the coordinates read line by line. The first line
    /// that is no point is reported; if every line is a point, their number
    /// has to be sixteen.
    pub fn from_lines(lines: &Vec<Vec<i64>>) -> (r: Result<ControlPoints, LoadError>)
        ensures
            match r {
                Ok(cp) => cp.wf() && ControlPoints::from_lines_spec(rows_of(lines@)) == Ok::<Seq<Vector>, LoadError>(cp@),
                Err(e) => ControlPoints::from_lines_spec(rows_of(lines@)) == Err::<Seq<Vector>, LoadError>(e),
            },
    {
        let ghost rows = rows_of(lines@);
        let mut points: Vec<Vec3> = Vec::new();
        let mut i: usize = 0;
        while i < lines.len()
            invariant
                i <= lines@.len(),
                points@.len() == i,
                rows == rows_of(lines@),
                forall|k: int| 0 <= k < i ==> line_ok(#[trigger] rows[k]),
                forall|k: int| 0 <= k < i ==> (#[trigger] points@[k])@ == line_point(rows[k]),
            decreases lines@.len() - i,
        {
            let line: &Vec<i64> = &lines[i];
            proof {
                lemma_first_bad_line(rows, i as int);
                assert(rows[i as int] == line@);
            }
            if line.len() != 3 {
                return Err(LoadError::InvalidCoords { line: i });
            }
            let x: i64 = line[0];
            let y: i64 = line[1];
            let z: i64 = line[2];
            if !(in_range(x) && in_range(y) && in_range(z)) {
                return Err(LoadError::CoordinateTooLarge { line: i });
            }
            points.push(Vec3 { x, y, z });
            i = i + 1;
        }
        proof {
            lemma_first_bad_line(rows, rows.len() as int);
        }
        if points.len() != CONTROL_POINTS_COUNT {
            return Err(LoadError::InvalidCount { got: points.len() });
        }
        let cp = ControlPoints { points };
        proof {
            assert forall|k: int| 0 <= k < CONTROL_POINTS_COUNT implies (#[trigger] cp@[k]).bounded(
                COORD_MAX as int,
            ) by {
                assert(line_ok(rows[k]));
                assert(cp.points@[k]@ == line_point(rows[k]));
            }
            assert(cp@ =~= Seq::new(rows.len(), |i: int| line_point(rows[i])));
        }
        Ok(cp)
    }

    /// Reads the grid from the text of a file: sixteen lines, each with the
    /// three coordinates of a point as decimal numbers, with an exponent or
    /// without, separated by blanks.
    /// A line that holds anything else, or a number above `COORD_MAX`, is
    /// reported with its index; if every line is a point, their number has
    /// to be sixteen.
    pub fn load_from_file(file: &[u8]) -> (r: Result<ControlPoints, LoadError>)
        ensures
            match r {
                Ok(cp) => cp.wf() && ControlPoints::from_lines_spec(text_numbers(file@)) == Ok::<Seq<Vector>, LoadError>(cp@),
                Err(e) => ControlPoints::from_lines_spec(text_numbers(file@)) == Err::<Seq<Vector>, LoadError>(e),
            },
    {
        let rows: Vec<Vec<i64>> = parse_text(file);
        ControlPoints::from_lines(&rows)
    }

    /// The control point in row `row` and column `col`.
    pub fn at(&self, row: usize, col: usize) -> (r: Vec3)
        requires
            self.wf(),
            row < CONTROL_POINT_ROWS,
            col < CONTROL_POINT_COLS,
        ensures
            r@ == self.grid(row as int, col as int),
            r@.bounded(COORD_MAX as int),
    {
        self.get(row * CONTROL_POINT_COLS + col)
    }

    /// The control point with index `k`, counting row by row.
    pub fn get(&self, k: usize) -> (r: Vec3)
        requires
            self.wf(),
            k < CONTROL_POINTS_COUNT,
        ensures
            r@ == self@[k as int],
            r@.bounded(COORD_MAX as int),
    {
        assert(self@[k as int].bounded(COORD_MAX as int));
        self.points[k]
    }
}

/// Whether a coordinate is of admissible size.
pub fn in_range(a: i64) -> (r: bool)
    ensures
        r == within(a as int, COORD_MAX as int),
{
    -COORD_MAX <= a && a <= COORD_MAX
}

} // verus!
