//! Nail and canvas geometry.
//!
//! Nails are the points of a discretized circle, in traversal order.  The
//! canvas is the solid disk interior: the same circle tracing at a smaller
//! radius, with every horizontal gap between outline points of a row filled
//! in, ordered by row and then by column so each pixel has a stable index.
//! A dense grid map gives O(1) coordinate-to-index lookup and is rebuilt
//! together with the tables whenever the resolution changes.

use vstd::prelude::*;
use crate::DiskError;
use crate::indexing::{pixel_of, coords_of, lemma_coords_of_pixel_of, lemma_pixel_of_coords_of};

verus! {

/// Marks an unoccupied cell of the dense coordinate-to-index grid.
pub const EMPTY_CELL: u32 = 0xFFFF_FFFF;

/// The points of the discretized circle of radius `r` around `(cx, cy)`, in
/// the order the circle tracing yields them.
pub uninterp spec fn circle_points(cx: int, cy: int, r: int) -> Seq<(i32, i32)>;

/// Relies on `line_drawing::BresenhamCircle`: an integer midpoint circle
/// tracing whose points depend only on the center and radius.  Its iterator
/// yields nothing for a non-positive radius (it starts with `x = -radius`
/// and stops as soon as `x >= 0`), and for a positive radius it yields at
/// least one point per quadrant before the first state update.  The bounds
/// on the arguments keep its internal arithmetic far from overflow.
#[verifier::external_body]
fn bresenham_circle(cx: i32, cy: i32, r: i32) -> (pts: Vec<(i32, i32)>)
    requires
        0 <= cx <= 0x2_0000,
        0 <= cy <= 0x2_0000,
        -0x2_0000 <= r <= 0x2_0000,
    ensures
        pts@ == circle_points(cx as int, cy as int, r as int),
        r >= 1 ==> pts@.len() >= 4,
        r <= 0 ==> pts@.len() == 0,
{
    line_drawing::BresenhamCircle::new(cx, cy, r).collect()
}

/// A grid cell index stays inside the grid and decodes back to its
/// coordinates.
proof fn lemma_grid_cell(x: int, y: int, side: int)
    requires
        0 <= x < side,
        0 <= y < side,
    ensures
        0 <= pixel_of(x, y, side) < side * side,
        coords_of(pixel_of(x, y, side), side) == (x, y),
{
    lemma_coords_of_pixel_of(x, y, side);
    assert(0 <= y * side + x < side * side) by (nonlinear_arith)
        requires
            0 <= x < side,
            0 <= y < side,
    ;
}

/// Some traced point has exactly the coordinates `(x, y)`.
pub open spec fn pts_contains(pts: Seq<(i32, i32)>, x: int, y: int) -> bool {
    exists|i: int| 0 <= i < pts.len() && pts[i].0 == x && pts[i].1 == y
}

/// `(x, y)` lies on row `y` between two traced outline points: the row-fill
/// rule that turns the outline into a solid disk.
pub open spec fn in_filled_row(pts: Seq<(i32, i32)>, x: int, y: int) -> bool {
    exists|xl: int, xr: int|
        pts_contains(pts, xl, y) && pts_contains(pts, xr, y) && xl <= x <= xr
}

/// Strict row-major order: `p` comes before `q` when its row is above, or on
/// the same row when its column is to the left.
pub open spec fn row_before(p: (i32, i32), q: (i32, i32)) -> bool {
    p.1 < q.1 || (p.1 == q.1 && p.0 < q.0)
}

/// Every traced point fits the canvas grid.
pub open spec fn all_in_grid(pts: Seq<(i32, i32)>, side: int) -> bool {
    forall|i: int|
        0 <= i < pts.len() ==> 0 <= (#[trigger] pts[i]).0 < side && 0 <= pts[i].1 < side
}

/// Number of nails among which the selection algorithms choose; nail
/// indices must fit the pair type.
pub const MAX_NAILS: u32 = 0xFFFF;

/// Magnitude bound on nail coordinates; keeps rasterization arithmetic far
/// from any overflow.
pub const NAIL_COORD_BOUND: i32 = 0x4_0000;

/// Every point lies within the nail coordinate box.
pub open spec fn nails_in_box(pts: Seq<(i32, i32)>) -> bool {
    forall|i: int|
        0 <= i < pts.len() ==> -NAIL_COORD_BOUND <= (#[trigger] pts[i]).0 <= NAIL_COORD_BOUND
            && -NAIL_COORD_BOUND <= pts[i].1 <= NAIL_COORD_BOUND
}

/// Every point lies in the bounding box of the circle of radius `c` around
/// `(c, c)`: coordinates between `0` and `2 * c`.
pub open spec fn nails_in_circle_box(pts: Seq<(i32, i32)>, c: int) -> bool {
    forall|i: int|
        0 <= i < pts.len() ==> 0 <= (#[trigger] pts[i]).0 <= 2 * c && 0 <= pts[i].1 <= 2 * c
}

/// Nail coordinates: the discretized circle of radius
/// `(radius + padding) / pixel_size`, centered on the grid so the circle's
/// bounding box starts at the origin.  A zero pixel size is rejected, as is
/// a tracing with fewer than two nails (nothing to connect), more nails
/// than a nail index can hold, or a point outside the circle's bounding
/// box.
pub fn build_nails(radius: u32, pixel_size: u32, padding: u32) -> (r: Result<
    Vec<(i32, i32)>,
    DiskError,
>)
    requires
        radius <= 0x7FFF,
        padding <= 0x7FFF,
    ensures
        match r {
            Ok(nails) => {
                &&& pixel_size >= 1
                &&& {
                    let c = (radius + padding) / (pixel_size as int);
                    &&& nails@ == circle_points(c, c, c)
                    &&& 2 <= nails@.len() <= MAX_NAILS as int
                    &&& nails_in_circle_box(nails@, c)
                    &&& nails_in_box(nails@)
                }
            },
            Err(e) => {
                &&& e == DiskError::InvalidConfiguration
                &&& (pixel_size == 0 || {
                    let c = (radius + padding) / (pixel_size as int);
                    !(2 <= circle_points(c, c, c).len() <= MAX_NAILS as int)
                        || !nails_in_circle_box(circle_points(c, c, c), c)
                })
            },
        },
{
    if pixel_size == 0 {
        return Err(DiskError::InvalidConfiguration);
    }
    let c: u32 = (radius + padding) / pixel_size;
    let nails = bresenham_circle(c as i32, c as i32, c as i32);
    if nails.len() < 2 || nails.len() > MAX_NAILS as usize {
        return Err(DiskError::InvalidConfiguration);
    }
    let mut i: usize = 0;
    while i < nails.len()
        invariant
            i <= nails@.len(),
            pixel_size >= 1,
            c == (radius + padding) / (pixel_size as int),
            c <= 0xFFFE,
            nails@ == circle_points(c as int, c as int, c as int),
            2 <= nails@.len() <= MAX_NAILS as int,
            forall|k: int|
                0 <= k < i ==> 0 <= (#[trigger] nails@[k]).0 <= 2 * c && 0 <= nails@[k].1 <= 2 * c,
        decreases nails@.len() - i,
    {
        let (x, y) = nails[i];
        if x < 0 || x > 2 * (c as i32) || y < 0 || y > 2 * (c as i32) {
            proof {
                assert(nails@[i as int] == (x, y));
                assert(!nails_in_circle_box(nails@, c as int));
            }
            return Err(DiskError::InvalidConfiguration);
        }
        i = i + 1;
    }
    Ok(nails)
}

/// The canvas: the pixels of the disk interior in row-major order, with a
/// dense grid mapping coordinates back to pixel indices.
pub struct Canvas {
    /// Side length of the square grid the disk is embedded in.
    pub side: u32,
    /// Disk pixels in strict row-major order.
    pub pixels: Vec<(i32, i32)>,
    /// Dense map: cell `y * side + x` holds the pixel index of `(x, y)`, or
    /// `EMPTY_CELL` when `(x, y)` is outside the disk.
    pub lookup: Vec<u32>,
}

impl Canvas {
    /// Well-formedness: tables sized to the grid, pixels inside the grid in
    /// strict row-major order, and the lookup grid inverse to the pixel
    /// table in both directions.
    pub open spec fn wf(self) -> bool {
        &&& 1 <= self.side <= 0x1000
        &&& self.lookup@.len() == self.side * self.side
        &&& self.pixels@.len() <= self.side * self.side
        &&& forall|k: int|
            0 <= k < self.pixels@.len() ==> 0 <= (#[trigger] self.pixels@[k]).0 < self.side && 0
                <= self.pixels@[k].1 < self.side
        &&& forall|k: int, l: int|
            0 <= k < l < self.pixels@.len() ==> row_before(
                #[trigger] self.pixels@[k],
                #[trigger] self.pixels@[l],
            )
        &&& forall|k: int|
            0 <= k < self.pixels@.len() ==> self.lookup@[pixel_of(
                (#[trigger] self.pixels@[k]).0 as int,
                self.pixels@[k].1 as int,
                self.side as int,
            )] == k
        &&& forall|g: int|
            0 <= g < self.lookup@.len() && (#[trigger] self.lookup@[g]) != EMPTY_CELL
                ==> self.lookup@[g] < self.pixels@.len() && pixel_of(
                self.pixels@[self.lookup@[g] as int].0 as int,
                self.pixels@[self.lookup@[g] as int].1 as int,
                self.side as int,
            ) == g
    }

    /// Number of canvas pixels.
    pub fn pixel_count(&self) -> (n: usize)
        ensures
            n == self.pixels@.len(),
    {
        self.pixels.len()
    }

    /// Two distinct pixel indices never share coordinates.
    pub proof fn lemma_pixels_injective(self)
        requires
            self.wf(),
        ensures
            forall|k: int, l: int|
                0 <= k < self.pixels@.len() && 0 <= l < self.pixels@.len() && (
                #[trigger] self.pixels@[k]) == (#[trigger] self.pixels@[l]) ==> k == l,
    {
        assert forall|k: int, l: int|
            0 <= k < self.pixels@.len() && 0 <= l < self.pixels@.len() && (
            #[trigger] self.pixels@[k]) == (#[trigger] self.pixels@[l]) implies k == l by {
            assert(self.lookup@[pixel_of(
                self.pixels@[k].0 as int,
                self.pixels@[k].1 as int,
                self.side as int,
            )] == k);
            assert(self.lookup@[pixel_of(
                self.pixels@[l].0 as int,
                self.pixels@[l].1 as int,
                self.side as int,
            )] == l);
        }
    }

    /// Index of the pixel at `(x, y)`, or `None` when `(x, y)` is not a
    /// canvas pixel.
    pub fn coord_index(&self, x: i32, y: i32) -> (r: Option<usize>)
        requires
            self.wf(),
        ensures
            match r {
                Some(i) => i < self.pixels@.len() && self.pixels@[i as int] == (x, y),
                None => forall|i: int|
                    0 <= i < self.pixels@.len() ==> #[trigger] self.pixels@[i] != (x, y),
            },
    {
        if x < 0 || y < 0 || x >= self.side as i32 || y >= self.side as i32 {
            return None;
        }
        proof {
            lemma_grid_cell(x as int, y as int, self.side as int);
            assert(self.side * self.side <= 0x100_0000) by (nonlinear_arith)
                requires
                    self.side <= 0x1000,
            ;
        }
        let g: usize = (y as usize) * (self.side as usize) + (x as usize);
        let cell: u32 = self.lookup[g];
        if cell == EMPTY_CELL {
            proof {
                assert forall|i: int| 0 <= i < self.pixels@.len() implies #[trigger] self.pixels@[i]
                    != (x, y) by {
                    if self.pixels@[i] == (x, y) {
                        assert(self.lookup@[pixel_of(
                            self.pixels@[i].0 as int,
                            self.pixels@[i].1 as int,
                            self.side as int,
                        )] == i);
                        assert(self.lookup@[g as int] == i);
                    }
                }
            }
            None
        } else {
            proof {
                let k = self.lookup@[g as int] as int;
                lemma_coords_of_pixel_of(
                    self.pixels@[k].0 as int,
                    self.pixels@[k].1 as int,
                    self.side as int,
                );
            }
            Some(cell as usize)
        }
    }
}

/// Two strictly row-major-sorted pixel tables with the same membership are
/// the same table.
proof fn lemma_sorted_pixels_unique(s1: Seq<(i32, i32)>, s2: Seq<(i32, i32)>)
    requires
        forall|k: int, l: int| 0 <= k < l < s1.len() ==> row_before(#[trigger] s1[k], #[trigger] s1[l]),
        forall|k: int, l: int| 0 <= k < l < s2.len() ==> row_before(#[trigger] s2[k], #[trigger] s2[l]),
        forall|x: int, y: int| canvas_has(s1, x, y) <==> #[trigger] canvas_has(s2, x, y),
    ensures
        s1 == s2,
    decreases s1.len(),
{
    if s1.len() == 0 {
        if s2.len() > 0 {
            assert(canvas_has(s2, s2[0].0 as int, s2[0].1 as int));
            assert(canvas_has(s1, s2[0].0 as int, s2[0].1 as int));
        }
        assert(s1 =~= s2);
    } else {
        assert(canvas_has(s1, s1[0].0 as int, s1[0].1 as int));
        assert(canvas_has(s2, s1[0].0 as int, s1[0].1 as int));
        let j = choose|j: int|
            0 <= j < s2.len() && (#[trigger] s2[j]).0 == s1[0].0 && s2[j].1 == s1[0].1;
        assert(canvas_has(s2, s2[0].0 as int, s2[0].1 as int));
        assert(canvas_has(s1, s2[0].0 as int, s2[0].1 as int));
        let i = choose|i: int|
            0 <= i < s1.len() && (#[trigger] s1[i]).0 == s2[0].0 && s1[i].1 == s2[0].1;
        // The heads coincide: each head occurs in the other table, and a
        // strictly sorted table starts with its least element.
        assert(s1[0] == s2[0]) by {
            if i > 0 {
                assert(row_before(s1[0], s1[i]));
                if j > 0 {
                    assert(row_before(s2[0], s2[j]));
                }
            }
        }
        let t1 = s1.subrange(1, s1.len() as int);
        let t2 = s2.subrange(1, s2.len() as int);
        // The tails again have equal membership: the head cannot reappear
        // in either tail, strict order forbids repeats.
        assert forall|x: int, y: int| canvas_has(t1, x, y) <==> #[trigger] canvas_has(t2, x, y) by {
            if canvas_has(t1, x, y) {
                let k = choose|k: int|
                    0 <= k < t1.len() && (#[trigger] t1[k]).0 == x && t1[k].1 == y;
                assert(s1[k + 1] == t1[k]);
                assert(canvas_has(s1, x, y));
                assert(canvas_has(s2, x, y));
                let m = choose|m: int|
                    0 <= m < s2.len() && (#[trigger] s2[m]).0 == x && s2[m].1 == y;
                assert(row_before(s1[0], s1[k + 1]));
                assert(m != 0);
                assert(t2[m - 1] == s2[m]);
                assert(canvas_has(t2, x, y));
            }
            if canvas_has(t2, x, y) {
                let k = choose|k: int|
                    0 <= k < t2.len() && (#[trigger] t2[k]).0 == x && t2[k].1 == y;
                assert(s2[k + 1] == t2[k]);
                assert(canvas_has(s2, x, y));
                assert(canvas_has(s1, x, y));
                let m = choose|m: int|
                    0 <= m < s1.len() && (#[trigger] s1[m]).0 == x && s1[m].1 == y;
                assert(row_before(s2[0], s2[k + 1]));
                assert(m != 0);
                assert(t1[m - 1] == s1[m]);
                assert(canvas_has(t1, x, y));
            }
        }
        lemma_sorted_pixels_unique(t1, t2);
        assert(s1.len() == s2.len());
        assert forall|k: int| 0 <= k < s1.len() implies s1[k] == s2[k] by {
            if k > 0 {
                assert(s1[k] == t1[k - 1]);
                assert(s2[k] == t2[k - 1]);
            }
        }
        assert(s1 =~= s2);
    }
}

impl Canvas {
    /// A well-formed canvas is fully determined by its side length and by
    /// which coordinates are pixels: the pixel table and the lookup grid
    /// both follow.
    pub proof fn lemma_determined(c1: Canvas, c2: Canvas)
        requires
            c1.wf(),
            c2.wf(),
            c1.side == c2.side,
            forall|x: int, y: int|
                canvas_has(c1.pixels@, x, y) <==> #[trigger] canvas_has(c2.pixels@, x, y),
        ensures
            c1.pixels@ == c2.pixels@,
            c1.lookup@ == c2.lookup@,
    {
        lemma_sorted_pixels_unique(c1.pixels@, c2.pixels@);
        assert forall|g: int| 0 <= g < c1.lookup@.len() implies c1.lookup@[g] == c2.lookup@[g] by {
            if c1.lookup@[g] != EMPTY_CELL {
                let k = c1.lookup@[g] as int;
                assert(c2.lookup@[pixel_of(
                    c2.pixels@[k].0 as int,
                    c2.pixels@[k].1 as int,
                    c2.side as int,
                )] == k);
            }
            if c2.lookup@[g] != EMPTY_CELL {
                let k = c2.lookup@[g] as int;
                assert(c1.lookup@[pixel_of(
                    c1.pixels@[k].0 as int,
                    c1.pixels@[k].1 as int,
                    c1.side as int,
                )] == k);
            }
        }
        assert(c1.lookup@ =~= c2.lookup@);
    }
}

/// Marks each traced point on a `side * side` grid of cells; rejects a
/// point outside the grid.
fn mark_points(pts: &Vec<(i32, i32)>, side: u32) -> (r: Result<Vec<bool>, DiskError>)
    requires
        1 <= side <= 0x1000,
    ensures
        match r {
            Ok(marks) => {
                &&& marks@.len() == side * side
                &&& all_in_grid(pts@, side as int)
                &&& forall|g: int|
                    0 <= g < marks@.len() ==> (#[trigger] marks@[g] <==> pts_contains(
                        pts@,
                        coords_of(g, side as int).0,
                        coords_of(g, side as int).1,
                    ))
            },
            Err(e) => e == DiskError::InvalidConfiguration && !all_in_grid(pts@, side as int),
        },
{
    proof {
        assert(side * side <= 0x100_0000) by (nonlinear_arith)
            requires
                side <= 0x1000,
        ;
    }
    let cells: usize = (side as usize) * (side as usize);
    let mut marks: Vec<bool> = Vec::new();
    let mut i: usize = 0;
    while i < cells
        invariant
            i <= cells,
            marks@.len() == i,
            forall|g: int| 0 <= g < i ==> !(#[trigger] marks@[g]),
        decreases cells - i,
    {
        marks.push(false);
        i = i + 1;
    }
    let mut j: usize = 0;
    while j < pts.len()
        invariant
            j <= pts@.len(),
            marks@.len() == side * side,
            side >= 1,
            side <= 0x1000,
            cells == side * side,
            forall|k: int|
                0 <= k < j ==> 0 <= (#[trigger] pts@[k]).0 < side && 0 <= pts@[k].1 < side,
            forall|g: int|
                0 <= g < marks@.len() ==> (#[trigger] marks@[g] <==> exists|k: int|
                    0 <= k < j && (#[trigger] pts@[k]).0 == coords_of(g, side as int).0 && pts@[k].1
                        == coords_of(g, side as int).1),
        decreases pts@.len() - j,
    {
        let (x, y) = pts[j];
        if x < 0 || y < 0 || x >= side as i32 || y >= side as i32 {
            return Err(DiskError::InvalidConfiguration);
        }
        proof {
            lemma_coords_of_pixel_of(x as int, y as int, side as int);
            assert(y * side + x < side * side) by (nonlinear_arith)
                requires
                    0 <= x < side,
                    0 <= y < side,
            ;
        }
        let g: usize = (y as usize) * (side as usize) + (x as usize);
        marks.set(g, true);
        proof {
            let ghost old_marks = marks@.update(g as int, marks@[g as int]);
            assert forall|g2: int| 0 <= g2 < marks@.len() implies (#[trigger] marks@[g2]
                <==> exists|k: int|
                0 <= k < j + 1 && (#[trigger] pts@[k]).0 == coords_of(g2, side as int).0 && pts@[k].1
                    == coords_of(g2, side as int).1) by {
                if g2 == g {
                    assert(pts@[j as int].0 == coords_of(g2, side as int).0 && pts@[j as int].1
                        == coords_of(g2, side as int).1);
                } else {
                    if exists|k: int|
                        0 <= k < j + 1 && (#[trigger] pts@[k]).0 == coords_of(g2, side as int).0
                            && pts@[k].1 == coords_of(g2, side as int).1 {
                        let k = choose|k: int|
                            0 <= k < j + 1 && (#[trigger] pts@[k]).0 == coords_of(g2, side as int).0
                                && pts@[k].1 == coords_of(g2, side as int).1;
                        if k == j {
                            lemma_pixel_of_coords_of(g2, side as int);
                        }
                    }
                }
            }
        }
        j = j + 1;
    }
    Ok(marks)
}

/// First marked column of row `y`, if any: scanning left to right.
fn find_row_min(marks: &Vec<bool>, side: u32, y: u32) -> (r: Option<u32>)
    requires
        1 <= side <= 0x1000,
        y < side,
        marks@.len() == side * side,
    ensures
        match r {
            Some(x) => {
                &&& x < side
                &&& marks@[pixel_of(x as int, y as int, side as int)]
                &&& forall|g: int|
                    y * side <= g < pixel_of(x as int, y as int, side as int)
                        ==> !(#[trigger] marks@[g])
            },
            None => forall|g: int| y * side <= g < y * side + side ==> !(#[trigger] marks@[g]),
        },
{
    proof {
        assert(y * side + side <= side * side && side * side <= 0x100_0000) by (nonlinear_arith)
            requires
                y < side <= 0x1000,
        ;
    }
    let row: usize = (y as usize) * (side as usize);
    let mut x: u32 = 0;
    while x < side
        invariant
            x <= side,
            1 <= side <= 0x1000,
            y < side,
            marks@.len() == side * side,
            row == y * side,
            y * side + side <= side * side,
            side * side <= 0x100_0000,
            forall|g: int| y * side <= g < y * side + x ==> !(#[trigger] marks@[g]),
        decreases side - x,
    {
        if marks[row + x as usize] {
            return Some(x);
        }
        x = x + 1;
    }
    None
}

/// Last marked column of row `y`, given that column `lo` is marked:
/// scanning right to left stops at the latest by `lo`.
fn find_row_max(marks: &Vec<bool>, side: u32, y: u32, lo: u32) -> (x: u32)
    requires
        1 <= side <= 0x1000,
        y < side,
        lo < side,
        marks@.len() == side * side,
        marks@[pixel_of(lo as int, y as int, side as int)],
    ensures
        lo <= x < side,
        marks@[pixel_of(x as int, y as int, side as int)],
        forall|g: int|
            pixel_of(x as int, y as int, side as int) < g < y * side + side
                ==> !(#[trigger] marks@[g]),
{
    proof {
        assert(y * side + side <= side * side && side * side <= 0x100_0000) by (nonlinear_arith)
            requires
                y < side <= 0x1000,
        ;
        lemma_grid_cell(lo as int, y as int, side as int);
    }
    let row: usize = (y as usize) * (side as usize);
    let mut x: u32 = side - 1;
    while !marks[row + x as usize]
        invariant
            lo <= x < side,
            1 <= side <= 0x1000,
            y < side,
            lo < side,
            marks@.len() == side * side,
            row == y * side,
            y * side + side <= side * side,
            side * side <= 0x100_0000,
            marks@[pixel_of(lo as int, y as int, side as int)],
            forall|g: int| y * side + x < g < y * side + side ==> !(#[trigger] marks@[g]),
        decreases x,
    {
        proof {
            // The marked column `lo` stops the scan, so the loop never
            // walks past it.
            if x == lo {
                assert(marks@[y * side + x]);
            }
        }
        x = x - 1;
    }
    x
}

/// Builds the canvas for the disk of radius `radius / pixel_size`: traces
/// the disk outline, then fills every horizontal gap of each row, ordering
/// pixels by row and then column, and builds the dense coordinate-to-index
/// grid alongside.  Rejected: a zero pixel size, a disk smaller than one
/// pixel, and an outline point outside the expected grid.
pub fn build_canvas(radius: u32, pixel_size: u32) -> (r: Result<Canvas, DiskError>)
    requires
        radius <= 0x7FF,
    ensures
        match r {
            Ok(c) => {
                &&& pixel_size >= 1
                &&& radius / pixel_size >= 1
                &&& c.wf()
                &&& c.side == 2 * (radius / pixel_size) + 1
                &&& {
                    let cr = (radius / pixel_size) as int;
                    let pts = circle_points(cr, cr, cr);
                    &&& all_in_grid(pts, 2 * cr + 1)
                    &&& forall|x: int, y: int|
                        canvas_has(c.pixels@, x, y) <==> #[trigger] in_filled_row(pts, x, y)
                }
            },
            Err(e) => {
                &&& e == DiskError::InvalidConfiguration
                &&& (pixel_size == 0 || radius / pixel_size == 0 || {
                    let cr = (radius / pixel_size) as int;
                    !all_in_grid(circle_points(cr, cr, cr), 2 * cr + 1)
                })
            },
        },
{
    if pixel_size == 0 {
        return Err(DiskError::InvalidConfiguration);
    }
    let cr: u32 = radius / pixel_size;
    if cr == 0 {
        return Err(DiskError::InvalidConfiguration);
    }
    let side: u32 = 2 * cr + 1;
    let pts = bresenham_circle(cr as i32, cr as i32, cr as i32);
    let ghost gpts = pts@;
    let marks = match mark_points(&pts, side) {
        Ok(m) => m,
        Err(e) => {
            return Err(e);
        },
    };
    proof {
        assert(side * side <= 0x100_0000) by (nonlinear_arith)
            requires
                side <= 0x1000,
        ;
    }
    let cells: usize = (side as usize) * (side as usize);
    let mut lookup: Vec<u32> = Vec::new();
    let mut i: usize = 0;
    while i < cells
        invariant
            i <= cells,
            lookup@.len() == i,
            forall|g: int| 0 <= g < i ==> #[trigger] lookup@[g] == EMPTY_CELL,
        decreases cells - i,
    {
        lookup.push(EMPTY_CELL);
        i = i + 1;
    }
    let mut pixels: Vec<(i32, i32)> = Vec::new();
    let mut y: u32 = 0;
    while y < side
        invariant
            y <= side,
            1 <= side <= 0x1000,
            cells == side * side,
            lookup@.len() == side * side,
            pixels@.len() <= y * side,
            marks@.len() == side * side,
            all_in_grid(gpts, side as int),
            forall|g: int|
                0 <= g < marks@.len() ==> (#[trigger] marks@[g] <==> pts_contains(
                    gpts,
                    coords_of(g, side as int).0,
                    coords_of(g, side as int).1,
                )),
            forall|k: int|
                0 <= k < pixels@.len() ==> 0 <= (#[trigger] pixels@[k]).0 < side && 0
                    <= pixels@[k].1 < y,
            forall|k: int|
                0 <= k < pixels@.len() ==> #[trigger] in_filled_row(
                    gpts,
                    pixels@[k].0 as int,
                    pixels@[k].1 as int,
                ),
            forall|k: int, l: int|
                0 <= k < l < pixels@.len() ==> row_before(
                    #[trigger] pixels@[k],
                    #[trigger] pixels@[l],
                ),
            forall|k: int|
                0 <= k < pixels@.len() ==> #[trigger] lookup@[pixel_of(
                    pixels@[k].0 as int,
                    pixels@[k].1 as int,
                    side as int,
                )] == k,
            forall|g: int|
                0 <= g < lookup@.len() && (#[trigger] lookup@[g]) != EMPTY_CELL ==> lookup@[g]
                    < pixels@.len() && pixel_of(
                    pixels@[lookup@[g] as int].0 as int,
                    pixels@[lookup@[g] as int].1 as int,
                    side as int,
                ) == g,
            forall|x: int, yy: int|
                0 <= yy < y && #[trigger] in_filled_row(gpts, x, yy) ==> canvas_has(
                    pixels@,
                    x,
                    yy,
                ),
        decreases side - y,
    {
        let lo_opt = find_row_min(&marks, side, y);
        proof {
            assert(y * side + side <= side * side) by (nonlinear_arith)
                requires
                    y < side,
            ;
        }
        match lo_opt {
            None => {
                proof {
                    lemma_empty_row(gpts, marks@, side as int, y as int);
                    assert((y + 1) * side == y * side + side) by (nonlinear_arith);
                }
            },
            Some(lo) => {
                let hi = find_row_max(&marks, side, y, lo);
                let ghost pixels_at_row_start = pixels@;
                let mut x: u32 = lo;
                proof {
                    lemma_coords_of_pixel_of(lo as int, y as int, side as int);
                    lemma_coords_of_pixel_of(hi as int, y as int, side as int);
                    assert(pts_contains(gpts, lo as int, y as int));
                    assert(pts_contains(gpts, hi as int, y as int));
                }
                while x <= hi
                    invariant
                        lo <= x <= hi + 1,
                        lo <= hi < side,
                        y < side,
                        1 <= side <= 0x1000,
                        cells == side * side,
                        lookup@.len() == side * side,
                        marks@.len() == side * side,
                        all_in_grid(gpts, side as int),
                        pts_contains(gpts, lo as int, y as int),
                        pts_contains(gpts, hi as int, y as int),
                        pixels@.len() == pixels_at_row_start.len() + (x - lo),
                        pixels_at_row_start.len() <= y * side,
                        y * side + side <= side * side,
                        pixels@ =~= pixels_at_row_start + Seq::new(
                            (x - lo) as nat,
                            |m: int| (((lo + m) as i32), (y as i32)),
                        ),
                        forall|k: int|
                            0 <= k < pixels@.len() ==> 0 <= (#[trigger] pixels@[k]).0 < side && 0
                                <= pixels@[k].1 <= y,
                        forall|k: int|
                            0 <= k < pixels_at_row_start.len() ==> (
                            #[trigger] pixels@[k]).1 < y,
                        forall|k: int|
                            0 <= k < pixels@.len() ==> #[trigger] in_filled_row(
                                gpts,
                                pixels@[k].0 as int,
                                pixels@[k].1 as int,
                            ),
                        forall|k: int, l: int|
                            0 <= k < l < pixels@.len() ==> row_before(
                                #[trigger] pixels@[k],
                                #[trigger] pixels@[l],
                            ),
                        forall|k: int|
                            0 <= k < pixels@.len() ==> #[trigger] lookup@[pixel_of(
                                pixels@[k].0 as int,
                                pixels@[k].1 as int,
                                side as int,
                            )] == k,
                        forall|g: int|
                            0 <= g < lookup@.len() && (#[trigger] lookup@[g]) != EMPTY_CELL
                                ==> lookup@[g] < pixels@.len() && pixel_of(
                                pixels@[lookup@[g] as int].0 as int,
                                pixels@[lookup@[g] as int].1 as int,
                                side as int,
                            ) == g,
                    decreases hi + 1 - x,
                {
                    proof {
                        lemma_grid_cell(x as int, y as int, side as int);
                        assert(side * side <= 0x100_0000) by (nonlinear_arith)
                            requires
                                side <= 0x1000,
                        ;
                    }
                    let g: usize = (y as usize) * (side as usize) + (x as usize);
                    let idx: u32 = pixels.len() as u32;
                    pixels.push((x as i32, y as i32));
                    lookup.set(g, idx);
                    proof {
                        assert(in_filled_row(gpts, x as int, y as int));
                        let side_i = side as int;
                        let gi = g as int;
                        let newlen = pixels@.len() as int;
                        assert forall|k: int| 0 <= k < pixels@.len() implies #[trigger] lookup@[pixel_of(
                            pixels@[k].0 as int,
                            pixels@[k].1 as int,
                            side_i,
                        )] == k by {
                            lemma_grid_cell(pixels@[k].0 as int, pixels@[k].1 as int, side_i);
                            if k < newlen - 1 && pixel_of(
                                pixels@[k].0 as int,
                                pixels@[k].1 as int,
                                side_i,
                            ) == gi {
                                // An earlier pixel cannot share the freshly
                                // written grid cell: its coordinates differ.
                                assert(coords_of(gi, side_i) == (x as int, y as int));
                                if k < pixels_at_row_start.len() {
                                    assert(pixels@[k].1 < y);
                                } else {
                                    assert(pixels@[k] == (((lo + (k
                                        - pixels_at_row_start.len())) as i32), (y as i32)));
                                }
                            }
                        }
                        assert forall|g2: int|
                            0 <= g2 < lookup@.len() && (#[trigger] lookup@[g2]) != EMPTY_CELL
                            implies lookup@[g2] < pixels@.len() && pixel_of(
                            pixels@[lookup@[g2] as int].0 as int,
                            pixels@[lookup@[g2] as int].1 as int,
                            side_i,
                        ) == g2 by {
                            if g2 != gi {
                                assert(lookup@[g2] < newlen - 1);
                            }
                        }
                        assert forall|k: int, l: int| 0 <= k < l < pixels@.len() implies row_before(
                            #[trigger] pixels@[k],
                            #[trigger] pixels@[l],
                        ) by {
                            if l == newlen - 1 {
                                if k >= pixels_at_row_start.len() {
                                    assert(pixels@[k] == (((lo + (k
                                        - pixels_at_row_start.len())) as i32), (y as i32)));
                                }
                            }
                        }
                    }
                    x = x + 1;
                }
                proof {
                    lemma_full_row(
                        gpts,
                        marks@,
                        pixels@,
                        side as int,
                        y as int,
                        lo as int,
                        hi as int,
                        pixels_at_row_start.len() as int,
                    );
                    assert(pixels@.len() <= (y + 1) * side) by (nonlinear_arith)
                        requires
                            pixels@.len() <= y * side + side,
                    ;
                    assert forall|x2: int, yy: int|
                        0 <= yy < y + 1 && #[trigger] in_filled_row(gpts, x2, yy) implies
                        canvas_has(pixels@, x2, yy) by {
                        if yy < y {
                            assert(canvas_has(pixels_at_row_start, x2, yy));
                            let k = choose|k: int|
                                0 <= k < pixels_at_row_start.len() && (
                                #[trigger] pixels_at_row_start[k]).0 == x2
                                    && pixels_at_row_start[k].1 == yy;
                            assert(pixels@[k] == pixels_at_row_start[k]);
                        }
                    }
                }
            },
        }
        y = y + 1;
    }
    let canvas = Canvas { side, pixels, lookup };
    proof {
        assert forall|x: int, yy: int|
            canvas_has(canvas.pixels@, x, yy) <==> #[trigger] in_filled_row(gpts, x, yy) by {
            if canvas_has(canvas.pixels@, x, yy) {
                let k = choose|k: int|
                    0 <= k < canvas.pixels@.len() && (#[trigger] canvas.pixels@[k]).0 == x
                        && canvas.pixels@[k].1 == yy;
                assert(in_filled_row(gpts, x, yy));
            }
            if in_filled_row(gpts, x, yy) {
                lemma_filled_row_in_grid(gpts, side as int, x, yy);
            }
        }
    }
    Ok(canvas)
}

/// Some pixel of the table has exactly the coordinates `(x, y)`.
pub open spec fn canvas_has(pixels: Seq<(i32, i32)>, x: int, y: int) -> bool {
    exists|k: int| 0 <= k < pixels.len() && (#[trigger] pixels[k]).0 == x && pixels[k].1 == y
}

/// A row-fill position inherits the grid bounds of its flanking outline
/// points.
proof fn lemma_filled_row_in_grid(pts: Seq<(i32, i32)>, side: int, x: int, y: int)
    requires
        all_in_grid(pts, side),
        in_filled_row(pts, x, y),
    ensures
        0 <= x < side,
        0 <= y < side,
{
    let (xl, xr) = choose|xl: int, xr: int|
        pts_contains(pts, xl, y) && pts_contains(pts, xr, y) && xl <= x <= xr;
    let i = choose|i: int| 0 <= i < pts.len() && pts[i].0 == xl && pts[i].1 == y;
    let j = choose|j: int| 0 <= j < pts.len() && pts[j].0 == xr && pts[j].1 == y;
    assert(0 <= pts[i].0 < side && 0 <= pts[i].1 < side);
    assert(0 <= pts[j].0 < side && 0 <= pts[j].1 < side);
}

/// A row with no marked cell holds no filled-row positions.
proof fn lemma_empty_row(pts: Seq<(i32, i32)>, marks: Seq<bool>, side: int, y: int)
    requires
        1 <= side,
        0 <= y < side,
        marks.len() == side * side,
        all_in_grid(pts, side),
        forall|g: int|
            0 <= g < marks.len() ==> (#[trigger] marks[g] <==> pts_contains(
                pts,
                coords_of(g, side).0,
                coords_of(g, side).1,
            )),
        forall|g: int| y * side <= g < y * side + side ==> !(#[trigger] marks[g]),
    ensures
        forall|x: int| !in_filled_row(pts, x, y),
{
    assert(y * side + side <= side * side) by (nonlinear_arith)
        requires
            0 <= y < side,
    ;
    assert forall|x: int| !in_filled_row(pts, x, y) by {
        if in_filled_row(pts, x, y) {
            let (xl, xr) = choose|xl: int, xr: int|
                pts_contains(pts, xl, y) && pts_contains(pts, xr, y) && xl <= x <= xr;
            let i = choose|i: int| 0 <= i < pts.len() && pts[i].0 == xl && pts[i].1 == y;
            assert(0 <= xl < side);
            lemma_coords_of_pixel_of(xl, y, side);
            assert(marks[pixel_of(xl, y, side)]);
        }
    }
}

/// After pushing the run `lo ..= hi` of row `y`, the row's filled positions
/// are exactly the pushed pixels.
proof fn lemma_full_row(
    pts: Seq<(i32, i32)>,
    marks: Seq<bool>,
    pixels: Seq<(i32, i32)>,
    side: int,
    y: int,
    lo: int,
    hi: int,
    row_start_len: int,
)
    requires
        1 <= side,
        0 <= y < side,
        0 <= lo <= hi < side,
        marks.len() == side * side,
        all_in_grid(pts, side),
        forall|g: int|
            0 <= g < marks.len() ==> (#[trigger] marks[g] <==> pts_contains(
                pts,
                coords_of(g, side).0,
                coords_of(g, side).1,
            )),
        forall|g: int| y * side <= g < pixel_of(lo, y, side) ==> !(#[trigger] marks[g]),
        forall|g: int| pixel_of(hi, y, side) < g < y * side + side ==> !(#[trigger] marks[g]),
        0 <= row_start_len,
        pixels.len() == row_start_len + (hi - lo + 1),
        forall|m: int|
            0 <= m <= hi - lo ==> #[trigger] pixels[row_start_len + m] == (((lo + m) as i32), (
            y as i32)),
    ensures
        forall|x: int| in_filled_row(pts, x, y) ==> canvas_has(pixels, x, y),
{
    assert(y * side + side <= side * side) by (nonlinear_arith)
        requires
            0 <= y < side,
    ;
    assert forall|x: int| in_filled_row(pts, x, y) implies canvas_has(pixels, x, y) by {
        let (xl, xr) = choose|xl: int, xr: int|
            pts_contains(pts, xl, y) && pts_contains(pts, xr, y) && xl <= x <= xr;
        let i = choose|i: int| 0 <= i < pts.len() && pts[i].0 == xl && pts[i].1 == y;
        let j = choose|j: int| 0 <= j < pts.len() && pts[j].0 == xr && pts[j].1 == y;
        assert(0 <= xl < side);
        assert(0 <= xr < side);
        lemma_coords_of_pixel_of(xl, y, side);
        lemma_coords_of_pixel_of(xr, y, side);
        assert(marks[pixel_of(xl, y, side)]);
        assert(marks[pixel_of(xr, y, side)]);
        // The scans saw nothing marked left of `lo` or right of `hi`.
        assert(xl >= lo);
        assert(xr <= hi);
        assert(pixels[row_start_len + (x - lo)] == ((x as i32), (y as i32)));
    }
}

} // verus!
