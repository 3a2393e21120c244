//! The drawing disk: configuration, geometry tables, the target image, the
//! residual, and the string set, with the operations that rebuild and reset
//! them.  The selection algorithms that mutate the residual and string set
//! live in the walk and scan modules.

use vstd::prelude::*;
use crate::{DiskError, RADIUS, PADDING, MARGIN, STARTING_PIXEL_SIZE};
use crate::geometry::{
    Canvas, build_nails, build_canvas, circle_points, canvas_has, in_filled_row, nails_in_box,
    nails_in_circle_box, all_in_grid, MAX_NAILS,
};
use crate::residual::{as_ints, RES_BOUND, WEIGHT_BOUND, LEN_BOUND};

verus! {

/// Residual units per intensity level: a black target pixel (255) weighs
/// `255 * RESID_SCALE`, so the anti-aliased brightness constant keeps the
/// empirically observed ratio of one line's weight to full blackness.
pub const RESID_SCALE: i64 = 100;

/// Where a greedy walk stands.
#[derive(Clone, Copy, Debug, PartialEq, Eq, Structural)]
pub enum Phase {
    /// No walk has been started since the last reset or rebuild.
    Idle,
    /// A walk is in progress; stepping may accept further strings.
    Walking,
    /// The walk found no improving candidate; stepping changes nothing.
    Done,
}

/// The mathematical state a selection algorithm works on: the accepted
/// string set, the residual, the nail the walk stands on, and the phase.
#[verifier::ext_equal]
pub struct SelectState {
    /// Accepted nail pairs, in acceptance order.
    pub strings: Seq<(int, int)>,
    /// Signed unexplained intensity per canvas pixel.
    pub residual: Seq<int>,
    /// The nail the greedy walk continues from.
    pub last: int,
    /// Where the greedy walk stands.
    pub phase: Phase,
}

/// The string set never holds a nail paired with itself, never repeats an
/// unordered pair, and only names nails below `n`.
pub open spec fn strings_ok(strings: Seq<(int, int)>, n: int) -> bool {
    &&& forall|k: int|
        0 <= k < strings.len() ==> 0 <= (#[trigger] strings[k]).0 < n && 0 <= strings[k].1 < n
            && strings[k].0 != strings[k].1
    &&& forall|k: int, l: int|
        0 <= k < l < strings.len() ==> (#[trigger] strings[k]) != (#[trigger] strings[l]) && (
        strings[k].1, strings[k].0) != strings[l]
}

/// The target intensity vector in residual units.
pub open spec fn scaled_target(image: Seq<u8>) -> Seq<int> {
    image.map_values(|v: u8| v * (RESID_SCALE as int))
}

/// Magnitude bound on every residual entry after `accepted` strings: the
/// scaled target plus at most one weight bound per accepted string.
pub open spec fn residual_bound(accepted: int) -> int {
    255 * (RESID_SCALE as int) + (WEIGHT_BOUND as int) * accepted
}

/// Side of the fixed square grid on which brushed bitmaps are sampled.
pub open spec fn import_grid() -> int {
    (2 * (RADIUS as int)) / (STARTING_PIXEL_SIZE as int)
}

/// `p` lies within Euclidean distance `r` of `(x, y)`.
pub open spec fn in_brush(p: (i32, i32), x: int, y: int, r: int) -> bool {
    (p.0 - x) * (p.0 - x) + (p.1 - y) * (p.1 - y) <= r * r
}

/// What a successful geometry rebuild leaves behind for the given
/// configuration: the nail table is exactly the circle tracing inside its
/// bounding box, the canvas holds exactly the filled rows of the inner
/// tracing, both derived vectors are resized to the new pixel count and
/// reset to zero, the string set is empty, and the walk stands idle on
/// nail zero.
pub open spec fn rebuilt(d: Disk, radius: u32, pixel_size: u32, antialias: bool) -> bool {
    let c = (radius + PADDING) / (pixel_size as int);
    let cr = (radius / pixel_size) as int;
    &&& d.wf()
    &&& d.pixel_size == pixel_size
    &&& d.radius == radius
    &&& d.antialias == antialias
    &&& d.strings@.len() == 0
    &&& d.last_nail == 0
    &&& d.phase == Phase::Idle
    &&& d.nails@ == circle_points(c, c, c)
    &&& nails_in_circle_box(d.nails@, c)
    &&& cr >= 1
    &&& all_in_grid(circle_points(cr, cr, cr), 2 * cr + 1)
    &&& forall|x: int, y: int|
        canvas_has(d.canvas.pixels@, x, y) <==> #[trigger] in_filled_row(
            circle_points(cr, cr, cr),
            x,
            y,
        )
    &&& forall|i: int| 0 <= i < d.image@.len() ==> #[trigger] d.image@[i] == 0
    &&& forall|i: int| 0 <= i < d.b@.len() ==> #[trigger] d.b@[i] == 0
}

/// The exact conditions under which a geometry rebuild is refused: a zero
/// pixel size, a nail tracing without at least two nails or beyond the
/// nail index type or outside its bounding box, or a canvas disk smaller
/// than one pixel or traced outside its grid.
pub open spec fn rebuild_rejected(radius: u32, pixel_size: u32) -> bool {
    pixel_size == 0 || {
        let c = (radius + PADDING) / (pixel_size as int);
        let cr = (radius / pixel_size) as int;
        ||| !(2 <= circle_points(c, c, c).len() <= MAX_NAILS as int)
        ||| !nails_in_circle_box(circle_points(c, c, c), c)
        ||| cr == 0
        ||| !all_in_grid(circle_points(cr, cr, cr), 2 * cr + 1)
    }
}

/// Geometry is a pure function of the configuration: two disks rebuilt for
/// the same radius and pixel size carry the same nail table, canvas,
/// lookup grid, target image and residual — so rebuilding without a
/// configuration change is an identity on all of them.
pub proof fn lemma_rebuild_deterministic(d1: Disk, d2: Disk, radius: u32, pixel_size: u32)
    requires
        rebuilt(d1, radius, pixel_size, d1.antialias),
        rebuilt(d2, radius, pixel_size, d2.antialias),
    ensures
        d1.nails@ == d2.nails@,
        d1.canvas.side == d2.canvas.side,
        d1.canvas.pixels@ == d2.canvas.pixels@,
        d1.canvas.lookup@ == d2.canvas.lookup@,
        d1.image@ == d2.image@,
        d1.b@ == d2.b@,
{
    let cr = (radius / pixel_size) as int;
    assert forall|x: int, y: int|
        canvas_has(d1.canvas.pixels@, x, y) <==> #[trigger] canvas_has(
            d2.canvas.pixels@,
            x,
            y,
        ) by {
        assert(canvas_has(d1.canvas.pixels@, x, y) <==> in_filled_row(
            circle_points(cr, cr, cr),
            x,
            y,
        ));
        assert(canvas_has(d2.canvas.pixels@, x, y) <==> in_filled_row(
            circle_points(cr, cr, cr),
            x,
            y,
        ));
    }
    Canvas::lemma_determined(d1.canvas, d2.canvas);
    assert(d1.image@ =~= d2.image@);
    assert(d1.b@ =~= d2.b@);
}

/// The drawing disk.
pub struct Disk {
    /// Side of one canvas pixel in screen units; the resolution knob.
    pub pixel_size: u32,
    /// Disk radius in screen units.
    pub radius: u32,
    /// Accepted strings: each entry connects two nail indices.
    pub strings: Vec<(u16, u16)>,
    /// Nail coordinates, by nail index.
    pub nails: Vec<(i32, i32)>,
    /// Canvas pixels and their coordinate-to-index map.
    pub canvas: Canvas,
    /// Target intensity per canvas pixel: 0 white, 255 black.
    pub image: Vec<u8>,
    /// Residual per canvas pixel, in residual units; signed.
    pub b: Vec<i64>,
    /// The nail the greedy walk continues from.
    pub last_nail: usize,
    /// Where the greedy walk stands.
    pub phase: Phase,
    /// Rasterization policy: anti-aliased when set, binary otherwise.
    pub antialias: bool,
}

impl Disk {
    /// Well-formedness: geometry tables consistent with the configuration,
    /// derived vectors sized to the canvas, the string set sound, and every
    /// residual entry within the bound earned by the accepted count.
    pub open spec fn wf(self) -> bool {
        &&& 1 <= self.pixel_size
        &&& self.radius <= 0x7FF
        &&& self.canvas.wf()
        &&& self.canvas.side == 2 * ((self.radius / self.pixel_size) as int) + 1
        &&& self.canvas.pixels@.len() <= LEN_BOUND
        &&& 2 <= self.nails@.len() <= MAX_NAILS
        &&& nails_in_box(self.nails@)
        &&& self.image@.len() == self.canvas.pixels@.len()
        &&& self.b@.len() == self.canvas.pixels@.len()
        &&& self.last_nail < self.nails@.len()
        &&& strings_ok(self.strings_view(), self.nails@.len() as int)
        &&& self.strings@.len() <= 0x1_0000_0000
        &&& forall|i: int|
            0 <= i < self.b@.len() ==> -residual_bound(self.strings@.len() as int) <= (
            #[trigger] self.b@[i]) <= residual_bound(self.strings@.len() as int)
    }

    /// The string set as mathematical pairs.
    pub open spec fn strings_view(self) -> Seq<(int, int)> {
        self.strings@.map_values(|p: (u16, u16)| (p.0 as int, p.1 as int))
    }

    /// The state the selection algorithms read and write.
    pub open spec fn sel_view(self) -> SelectState {
        SelectState {
            strings: self.strings_view(),
            residual: as_ints(self.b@),
            last: self.last_nail as int,
            phase: self.phase,
        }
    }

    /// Everything a selection run must not touch: configuration and
    /// geometry, and the target image.
    pub open spec fn same_geometry(self, other: Disk) -> bool {
        &&& self.pixel_size == other.pixel_size
        &&& self.radius == other.radius
        &&& self.nails@ == other.nails@
        &&& self.canvas == other.canvas
        &&& self.image@ == other.image@
        &&& self.antialias == other.antialias
    }

    /// Residual entries stay within the objective evaluator's bound.
    pub proof fn lemma_residual_in_range(self)
        requires
            self.wf(),
        ensures
            forall|i: int| 0 <= i < self.b@.len() ==> -RES_BOUND <= #[trigger] self.b@[i] <= RES_BOUND,
    {
        assert(residual_bound(self.strings@.len() as int) <= RES_BOUND) by {
            assert(255 * (RESID_SCALE as int) + (WEIGHT_BOUND as int) * 0x1_0000_0000
                < RES_BOUND);
            assert((WEIGHT_BOUND as int) * (self.strings@.len() as int) <= (WEIGHT_BOUND as int)
                * 0x1_0000_0000) by (nonlinear_arith)
                requires
                    0 <= self.strings@.len() <= 0x1_0000_0000,
            ;
        }
    }

    /// A fresh disk at the default radius and resolution, with its geometry
    /// built, an all-white target, no strings, and the walk idle.
    pub fn new() -> (r: Result<Disk, DiskError>)
        ensures
            match r {
                Ok(d) => d.antialias && rebuilt(d, RADIUS, STARTING_PIXEL_SIZE, true),
                Err(e) => e == DiskError::InvalidConfiguration && rebuild_rejected(
                    RADIUS,
                    STARTING_PIXEL_SIZE,
                ),
            },
    {
        let mut disk = Disk {
            pixel_size: STARTING_PIXEL_SIZE,
            radius: RADIUS,
            strings: Vec::new(),
            nails: Vec::new(),
            canvas: Canvas { side: 1, pixels: Vec::new(), lookup: Vec::new() },
            image: Vec::new(),
            b: Vec::new(),
            last_nail: 0,
            phase: Phase::Idle,
            antialias: true,
        };
        match disk.rebuild() {
            Ok(()) => Ok(disk),
            Err(e) => Err(e),
        }
    }

    /// Rebuilds nails, canvas and the coordinate map for the current radius
    /// and pixel size, and resets every derived vector to the new length:
    /// the target becomes all white, the residual zero, the string set
    /// empty, the walk idle.  Must be called after every resolution change;
    /// never called while a walk is in progress.
    fn rebuild(&mut self) -> (r: Result<(), DiskError>)
        requires
            old(self).radius <= 0x7FF,
        ensures
            match r {
                Ok(()) => rebuilt(
                    *final(self),
                    old(self).radius,
                    old(self).pixel_size,
                    old(self).antialias,
                ),
                Err(e) => {
                    &&& e == DiskError::InvalidConfiguration
                    &&& *final(self) == *old(self)
                    &&& rebuild_rejected(old(self).radius, old(self).pixel_size)
                },
            },
    {
        let nails = match build_nails(self.radius, self.pixel_size, PADDING) {
            Ok(n) => n,
            Err(e) => {
                return Err(e);
            },
        };
        let canvas = match build_canvas(self.radius, self.pixel_size) {
            Ok(c) => c,
            Err(e) => {
                return Err(e);
            },
        };
        let count: usize = canvas.pixel_count();
        proof {
            assert(canvas.side * canvas.side <= 0x100_0000) by (nonlinear_arith)
                requires
                    canvas.side <= 0x1000,
            ;
        }
        let mut image: Vec<u8> = Vec::new();
        let mut b: Vec<i64> = Vec::new();
        let mut i: usize = 0;
        while i < count
            invariant
                i <= count,
                image@.len() == i,
                b@.len() == i,
                forall|k: int| 0 <= k < i ==> #[trigger] image@[k] == 0,
                forall|k: int| 0 <= k < i ==> #[trigger] b@[k] == 0,
            decreases count - i,
        {
            image.push(0);
            b.push(0);
            i = i + 1;
        }
        self.nails = nails;
        self.canvas = canvas;
        self.image = image;
        self.b = b;
        self.strings = Vec::new();
        self.last_nail = 0;
        self.phase = Phase::Idle;
        Ok(())
    }

    /// Rebuilds the geometry after a configuration change.  Refused with
    /// `GeometryStale` while a walk is in progress: finish or discard the
    /// run first, then resize.
    pub fn resize(&mut self) -> (r: Result<(), DiskError>)
        requires
            old(self).radius <= 0x7FF,
        ensures
            match r {
                Ok(()) => old(self).phase != Phase::Walking && rebuilt(
                    *final(self),
                    old(self).radius,
                    old(self).pixel_size,
                    old(self).antialias,
                ),
                Err(e) => *final(self) == *old(self) && (if old(self).phase == Phase::Walking {
                    e == DiskError::GeometryStale
                } else {
                    e == DiskError::InvalidConfiguration && rebuild_rejected(
                        old(self).radius,
                        old(self).pixel_size,
                    )
                }),
            },
    {
        match self.phase {
            Phase::Walking => Err(DiskError::GeometryStale),
            _ => self.rebuild(),
        }
    }

    /// Sets the resolution and rebuilds the geometry.  A zero size is
    /// rejected before use; a resize during a walk is refused as stale.
    pub fn set_pixel_size(&mut self, size: u32) -> (r: Result<(), DiskError>)
        requires
            old(self).radius <= 0x7FF,
        ensures
            match r {
                Ok(()) => old(self).phase != Phase::Walking && rebuilt(
                    *final(self),
                    old(self).radius,
                    size,
                    old(self).antialias,
                ),
                Err(e) => {
                    &&& (if old(self).phase == Phase::Walking {
                        e == DiskError::GeometryStale
                    } else {
                        e == DiskError::InvalidConfiguration && rebuild_rejected(
                            old(self).radius,
                            size,
                        )
                    })
                    &&& *final(self) == *old(self)
                },
            },
    {
        match self.phase {
            Phase::Walking => Err(DiskError::GeometryStale),
            _ => {
                if size == 0 {
                    return Err(DiskError::InvalidConfiguration);
                }
                let before: u32 = self.pixel_size;
                self.pixel_size = size;
                match self.rebuild() {
                    Ok(()) => Ok(()),
                    Err(e) => {
                        self.pixel_size = before;
                        Err(e)
                    },
                }
            },
        }
    }

    /// Clears the drawing: target all black (ready for the user to brush
    /// away), no strings, residual zero, walk idle.
    pub fn reset(&mut self)
        requires
            old(self).wf(),
        ensures
            final(self).wf(),
            final(self).pixel_size == old(self).pixel_size,
            final(self).radius == old(self).radius,
            final(self).nails@ == old(self).nails@,
            final(self).canvas == old(self).canvas,
            final(self).antialias == old(self).antialias,
            final(self).strings@.len() == 0,
            final(self).last_nail == 0,
            final(self).phase == Phase::Idle,
            final(self).image@.len() == old(self).image@.len(),
            forall|i: int| 0 <= i < final(self).image@.len() ==> #[trigger] final(self).image@[i] == 255,
            final(self).b@.len() == old(self).b@.len(),
            forall|i: int| 0 <= i < final(self).b@.len() ==> #[trigger] final(self).b@[i] == 0,
    {
        let count: usize = self.image.len();
        let mut image: Vec<u8> = Vec::new();
        let mut b: Vec<i64> = Vec::new();
        let mut i: usize = 0;
        while i < count
            invariant
                i <= count,
                image@.len() == i,
                b@.len() == i,
                forall|k: int| 0 <= k < i ==> #[trigger] image@[k] == 255,
                forall|k: int| 0 <= k < i ==> #[trigger] b@[k] == 0,
            decreases count - i,
        {
            image.push(255);
            b.push(0);
            i = i + 1;
        }
        self.image = image;
        self.b = b;
        self.strings = Vec::new();
        self.last_nail = 0;
        self.phase = Phase::Idle;
    }

    /// Starts a greedy walk: the residual is captured from the target
    /// image, the string set cleared, and stepping enabled.
    pub fn initialize_drawing_strings(&mut self)
        requires
            old(self).wf(),
        ensures
            final(self).wf(),
            final(self).pixel_size == old(self).pixel_size,
            final(self).radius == old(self).radius,
            final(self).nails@ == old(self).nails@,
            final(self).canvas == old(self).canvas,
            final(self).image@ == old(self).image@,
            final(self).antialias == old(self).antialias,
            final(self).strings@.len() == 0,
            final(self).last_nail == old(self).last_nail,
            final(self).phase == Phase::Walking,
            as_ints(final(self).b@) == scaled_target(old(self).image@),
    {
        let count: usize = self.image.len();
        let mut b: Vec<i64> = Vec::new();
        let mut i: usize = 0;
        while i < count
            invariant
                i <= count,
                count == self.image@.len(),
                b@.len() == i,
                forall|k: int|
                    0 <= k < i ==> #[trigger] b@[k] == self.image@[k] * (RESID_SCALE as int),
            decreases count - i,
        {
            b.push((self.image[i] as i64) * RESID_SCALE);
            i = i + 1;
        }
        self.b = b;
        self.strings = Vec::new();
        self.phase = Phase::Walking;
        proof {
            assert(as_ints(self.b@) =~= scaled_target(self.image@));
            assert(forall|k: int|
                0 <= k < self.b@.len() ==> -residual_bound(0) <= (#[trigger] self.b@[k])
                    <= residual_bound(0));
        }
    }

    /// Loads a target intensity vector: it becomes the image and, scaled,
    /// the residual.  Fails when its length is not the canvas pixel count.
    pub fn load_target(&mut self, target: &Vec<u8>) -> (r: Result<(), DiskError>)
        requires
            old(self).wf(),
        ensures
            match r {
                Ok(()) => {
                    &&& final(self).wf()
                    &&& target@.len() == old(self).canvas.pixels@.len()
                    &&& final(self).pixel_size == old(self).pixel_size
                    &&& final(self).radius == old(self).radius
                    &&& final(self).nails@ == old(self).nails@
                    &&& final(self).canvas == old(self).canvas
                    &&& final(self).antialias == old(self).antialias
                    &&& final(self).strings@ == old(self).strings@
                    &&& final(self).last_nail == old(self).last_nail
                    &&& final(self).phase == old(self).phase
                    &&& final(self).image@ == target@
                    &&& as_ints(final(self).b@) == scaled_target(target@)
                },
                Err(e) => e == DiskError::LengthMismatch && *final(self) == *old(self) && target@.len()
                    != old(self).canvas.pixels@.len(),
            },
    {
        if target.len() != self.canvas.pixel_count() {
            return Err(DiskError::LengthMismatch);
        }
        let count: usize = target.len();
        let mut image: Vec<u8> = Vec::new();
        let mut b: Vec<i64> = Vec::new();
        let mut i: usize = 0;
        while i < count
            invariant
                i <= count,
                count == target@.len(),
                image@.len() == i,
                b@.len() == i,
                forall|k: int| 0 <= k < i ==> #[trigger] image@[k] == target@[k],
                forall|k: int|
                    0 <= k < i ==> #[trigger] b@[k] == target@[k] * (RESID_SCALE as int),
            decreases count - i,
        {
            let v: u8 = target[i];
            image.push(v);
            b.push((v as i64) * RESID_SCALE);
            i = i + 1;
        }
        self.image = image;
        self.b = b;
        proof {
            assert(self.image@ =~= target@);
            assert(as_ints(self.b@) =~= scaled_target(target@));
            assert(forall|k: int|
                0 <= k < self.b@.len() ==> -residual_bound(self.strings@.len() as int) <= (
                #[trigger] self.b@[k]) <= residual_bound(self.strings@.len() as int));
        }
        Ok(())
    }

    /// Marks every canvas pixel within Euclidean distance `radius` of
    /// `(x, y)` fully dark in the target image: a round brush stroke.
    pub fn paint_region(&mut self, x: i32, y: i32, radius: u32)
        requires
            old(self).wf(),
        ensures
            final(self).wf(),
            final(self).pixel_size == old(self).pixel_size,
            final(self).radius == old(self).radius,
            final(self).nails@ == old(self).nails@,
            final(self).canvas == old(self).canvas,
            final(self).antialias == old(self).antialias,
            final(self).strings@ == old(self).strings@,
            final(self).last_nail == old(self).last_nail,
            final(self).phase == old(self).phase,
            final(self).b@ == old(self).b@,
            final(self).image@.len() == old(self).image@.len(),
            forall|k: int|
                0 <= k < final(self).image@.len() ==> #[trigger] final(self).image@[k] == (if
                in_brush(old(self).canvas.pixels@[k], x as int, y as int, radius as int) {
                    255u8
                } else {
                    old(self).image@[k]
                }),
    {
        let ghost old_image = self.image@;
        let ghost gcanvas = self.canvas;
        let count: usize = self.image.len();
        let mut k: usize = 0;
        while k < count
            invariant
                k <= count,
                self.wf(),
                count == self.image@.len(),
                self.canvas == gcanvas,
                self.pixel_size == old(self).pixel_size,
                self.radius == old(self).radius,
                self.nails@ == old(self).nails@,
                self.antialias == old(self).antialias,
                self.strings@ == old(self).strings@,
                self.last_nail == old(self).last_nail,
                self.phase == old(self).phase,
                self.b@ == old(self).b@,
                old_image == old(self).image@,
                self.image@.len() == old_image.len(),
                forall|j: int|
                    0 <= j < self.image@.len() ==> #[trigger] self.image@[j] == (if j < k
                        && in_brush(gcanvas.pixels@[j], x as int, y as int, radius as int) {
                        255u8
                    } else {
                        old_image[j]
                    }),
            decreases count - k,
        {
            let (px, py) = self.canvas.pixels[k];
            let dx: i128 = px as i128 - x as i128;
            let dy: i128 = py as i128 - y as i128;
            proof {
                assert(0 <= (radius as i128) * (radius as i128) <= 0x1_0000_0000_0000_0000)
                    by (nonlinear_arith)
                    requires
                        0 <= radius <= 0x1_0000_0000,
                ;
            }
            let rr: i128 = (radius as i128) * (radius as i128);
            proof {
                assert(dx * dx == (px - x) * (px - x) && dy * dy == (py - y) * (py - y) && (
                radius as i128) * (radius as i128) == (radius as int) * (radius as int))
                    by (nonlinear_arith)
                    requires
                        dx == px - x,
                        dy == py - y,
                ;
                assert(0 <= dx * dx <= 0x1_0000_0000_0000_0000 && 0 <= dy * dy
                    <= 0x1_0000_0000_0000_0000) by (nonlinear_arith)
                    requires
                        -0x1_0000_0000 <= dx <= 0x1_0000_0000,
                        -0x1_0000_0000 <= dy <= 0x1_0000_0000,
                ;
            }
            if dx * dx + dy * dy <= rr {
                self.image.set(k, 255);
            }
            k = k + 1;
        }
    }

    /// Marks the canvas pixel at `(x, y)` fully dark in the target image; a
    /// coordinate outside the canvas is ignored.
    pub fn paint(&mut self, x: i32, y: i32)
        requires
            old(self).wf(),
        ensures
            final(self).wf(),
            final(self).pixel_size == old(self).pixel_size,
            final(self).radius == old(self).radius,
            final(self).nails@ == old(self).nails@,
            final(self).canvas == old(self).canvas,
            final(self).antialias == old(self).antialias,
            final(self).strings@ == old(self).strings@,
            final(self).last_nail == old(self).last_nail,
            final(self).phase == old(self).phase,
            final(self).b@ == old(self).b@,
            final(self).image@.len() == old(self).image@.len(),
            forall|k: int|
                0 <= k < final(self).image@.len() ==> #[trigger] final(self).image@[k] == (if old(
                    self,
                ).canvas.pixels@[k] == (x, y) {
                    255u8
                } else {
                    old(self).image@[k]
                }),
    {
        let idx_opt = self.canvas.coord_index(x, y);
        match idx_opt {
            Some(idx) => {
                self.image.set(idx, 255);
                proof {
                    self.canvas.lemma_pixels_injective();
                }
            },
            None => {},
        }
    }

    /// Imports a brushed bitmap sampled on the fixed
    /// `2 * RADIUS / STARTING_PIXEL_SIZE` grid: each sample lands on the
    /// canvas pixel with its coordinates, samples outside the canvas are
    /// dropped.  Fails when the vector is not exactly that grid.
    pub fn process_pixels(&mut self, pixels: &Vec<u8>) -> (r: Result<(), DiskError>)
        requires
            old(self).wf(),
        ensures
            match r {
                Ok(()) => {
                    &&& final(self).wf()
                    &&& pixels@.len() == import_grid() * import_grid()
                    &&& final(self).pixel_size == old(self).pixel_size
                    &&& final(self).radius == old(self).radius
                    &&& final(self).nails@ == old(self).nails@
                    &&& final(self).canvas == old(self).canvas
                    &&& final(self).antialias == old(self).antialias
                    &&& final(self).strings@ == old(self).strings@
                    &&& final(self).last_nail == old(self).last_nail
                    &&& final(self).phase == old(self).phase
                    &&& final(self).b@ == old(self).b@
                    &&& final(self).image@.len() == old(self).image@.len()
                    &&& {
                        let grid = import_grid();
                        forall|k: int|
                            0 <= k < final(self).image@.len() ==> #[trigger] final(self).image@[k]
                                == {
                                let px = old(self).canvas.pixels@[k].0 as int;
                                let py = old(self).canvas.pixels@[k].1 as int;
                                if 0 <= px < grid && 0 <= py < grid {
                                    pixels@[py * grid + px]
                                } else {
                                    old(self).image@[k]
                                }
                            }
                    }
                },
                Err(e) => e == DiskError::LengthMismatch && *final(self) == *old(self) && pixels@.len()
                    != import_grid() * import_grid(),
            },
    {
        let grid: u32 = 2 * RADIUS / STARTING_PIXEL_SIZE;
        proof {
            assert(grid == 64) by {
                vstd::arithmetic::div_mod::lemma_fundamental_div_mod_converse_div(
                    1024,
                    16,
                    64,
                    0,
                );
            }
        }
        let expected: usize = (grid as usize) * (grid as usize);
        if pixels.len() != expected {
            return Err(DiskError::LengthMismatch);
        }
        let ghost old_image = self.image@;
        let ghost gcanvas = self.canvas;
        let mut i: usize = 0;
        while i < expected
            invariant
                i <= expected,
                self.wf(),
                grid == import_grid(),
                grid == 64,
                expected == grid * grid,
                pixels@.len() == expected,
                self.canvas == gcanvas,
                self.pixel_size == old(self).pixel_size,
                self.radius == old(self).radius,
                self.nails@ == old(self).nails@,
                self.antialias == old(self).antialias,
                self.strings@ == old(self).strings@,
                self.last_nail == old(self).last_nail,
                self.phase == old(self).phase,
                self.b@ == old(self).b@,
                old_image == old(self).image@,
                self.image@.len() == old_image.len(),
                forall|k: int|
                    0 <= k < self.image@.len() ==> #[trigger] self.image@[k] == {
                        let px = gcanvas.pixels@[k].0 as int;
                        let py = gcanvas.pixels@[k].1 as int;
                        if 0 <= px < grid && 0 <= py < grid && py * grid + px < i {
                            pixels@[py * (grid as int) + px]
                        } else {
                            old_image[k]
                        }
                    },
            decreases expected - i,
        {
            proof {
                crate::indexing::lemma_pixel_of_coords_of(i as int, grid as int);
            }
            let grid_us: usize = grid as usize;
            let x: usize = i % grid_us;
            let y: usize = i / grid_us;
            let idx_opt = self.canvas.coord_index(x as i32, y as i32);
            match idx_opt {
                Some(idx) => {
                    self.image.set(idx, pixels[i]);
                    proof {
                        self.canvas.lemma_pixels_injective();
                        assert forall|k: int| 0 <= k < self.image@.len() implies #[trigger] self.image@[k]
                            == {
                            let px = gcanvas.pixels@[k].0 as int;
                            let py = gcanvas.pixels@[k].1 as int;
                            if 0 <= px < grid && 0 <= py < grid && py * grid + px < i + 1 {
                                pixels@[py * (grid as int) + px]
                            } else {
                                old_image[k]
                            }
                        } by {
                            let px = gcanvas.pixels@[k].0 as int;
                            let py = gcanvas.pixels@[k].1 as int;
                            if k == idx {
                                assert(px == x && py == y);
                                assert(py * (grid as int) + px == i);
                            } else {
                                assert(gcanvas.pixels@[k] != (x as i32, y as i32));
                                if 0 <= px < grid && 0 <= py < grid {
                                    crate::indexing::lemma_coords_of_pixel_of(
                                        px,
                                        py,
                                        grid as int,
                                    );
                                    assert(py * (grid as int) + px != i);
                                }
                            }
                        }
                    }
                },
                None => {
                    proof {
                        assert forall|k: int| 0 <= k < self.image@.len() implies #[trigger] self.image@[k]
                            == {
                            let px = gcanvas.pixels@[k].0 as int;
                            let py = gcanvas.pixels@[k].1 as int;
                            if 0 <= px < grid && 0 <= py < grid && py * grid + px < i + 1 {
                                pixels@[py * (grid as int) + px]
                            } else {
                                old_image[k]
                            }
                        } by {
                            let px = gcanvas.pixels@[k].0 as int;
                            let py = gcanvas.pixels@[k].1 as int;
                            if 0 <= px < grid && 0 <= py < grid && py * (grid as int) + px == i {
                                crate::indexing::lemma_coords_of_pixel_of(px, py, grid as int);
                                assert(gcanvas.pixels@[k] == (x as i32, y as i32));
                            }
                        }
                    }
                },
            }
            i = i + 1;
        }
        Ok(())
    }

    /// The disk radius in screen units.
    pub fn get_radius(&self) -> (r: u32)
        ensures
            r == self.radius,
    {
        self.radius
    }

    /// Distance from the top-left screen corner to the disk center.
    pub fn get_center(&self) -> (c: u32)
        requires
            self.radius <= 0x7FF,
        ensures
            c == self.radius + PADDING + MARGIN,
    {
        self.radius + PADDING + MARGIN
    }

    /// Selects the rasterization policy for subsequent selection runs.
    pub fn set_antialias(&mut self, antialias: bool)
        requires
            old(self).wf(),
        ensures
            final(self).wf(),
            final(self).antialias == antialias,
            final(self).pixel_size == old(self).pixel_size,
            final(self).radius == old(self).radius,
            final(self).nails@ == old(self).nails@,
            final(self).canvas == old(self).canvas,
            final(self).image@ == old(self).image@,
            final(self).strings@ == old(self).strings@,
            final(self).b@ == old(self).b@,
            final(self).last_nail == old(self).last_nail,
            final(self).phase == old(self).phase,
    {
        self.antialias = antialias;
    }

    /// Moves the greedy walk's current nail, e.g. to a randomly chosen
    /// starting nail before a walk.
    pub fn set_start_nail(&mut self, nail: usize) -> (r: Result<(), DiskError>)
        requires
            old(self).wf(),
        ensures
            match r {
                Ok(()) => {
                    &&& nail < old(self).nails@.len()
                    &&& final(self).wf()
                    &&& final(self).last_nail == nail
                    &&& final(self).pixel_size == old(self).pixel_size
                    &&& final(self).radius == old(self).radius
                    &&& final(self).nails@ == old(self).nails@
                    &&& final(self).canvas == old(self).canvas
                    &&& final(self).image@ == old(self).image@
                    &&& final(self).antialias == old(self).antialias
                    &&& final(self).strings@ == old(self).strings@
                    &&& final(self).b@ == old(self).b@
                    &&& final(self).phase == old(self).phase
                },
                Err(e) => e == DiskError::IndexOutOfRange && *final(self) == *old(self) && nail
                    >= old(self).nails@.len(),
            },
    {
        if nail >= self.nails.len() {
            return Err(DiskError::IndexOutOfRange);
        }
        self.last_nail = nail;
        Ok(())
    }

    /// Number of nails.
    pub fn nail_count(&self) -> (n: usize)
        ensures
            n == self.nails@.len(),
    {
        self.nails.len()
    }

    /// Coordinates of a nail.
    pub fn nail_at(&self, i: usize) -> (r: Result<(i32, i32), DiskError>)
        ensures
            match r {
                Ok(p) => i < self.nails@.len() && p == self.nails@[i as int],
                Err(e) => e == DiskError::IndexOutOfRange && i >= self.nails@.len(),
            },
    {
        if i >= self.nails.len() {
            return Err(DiskError::IndexOutOfRange);
        }
        Ok(self.nails[i])
    }

    /// Number of canvas pixels.
    pub fn canvas_pixel_count(&self) -> (n: usize)
        ensures
            n == self.canvas.pixels@.len(),
    {
        self.canvas.pixel_count()
    }

    /// Coordinates of a canvas pixel.
    pub fn canvas_at(&self, i: usize) -> (r: Result<(i32, i32), DiskError>)
        ensures
            match r {
                Ok(p) => i < self.canvas.pixels@.len() && p == self.canvas.pixels@[i as int],
                Err(e) => e == DiskError::IndexOutOfRange && i >= self.canvas.pixels@.len(),
            },
    {
        if i >= self.canvas.pixels.len() {
            return Err(DiskError::IndexOutOfRange);
        }
        Ok(self.canvas.pixels[i])
    }

    /// Number of accepted strings.
    pub fn string_count(&self) -> (n: usize)
        ensures
            n == self.strings@.len(),
    {
        self.strings.len()
    }

    /// An accepted string, as its two nail indices, in acceptance order.
    pub fn string_at(&self, i: usize) -> (r: Result<(u16, u16), DiskError>)
        ensures
            match r {
                Ok(p) => i < self.strings@.len() && p == self.strings@[i as int],
                Err(e) => e == DiskError::IndexOutOfRange && i >= self.strings@.len(),
            },
    {
        if i >= self.strings.len() {
            return Err(DiskError::IndexOutOfRange);
        }
        Ok(self.strings[i])
    }

    /// Target intensity of a canvas pixel.
    pub fn image_at(&self, i: usize) -> (r: Result<u8, DiskError>)
        ensures
            match r {
                Ok(v) => i < self.image@.len() && v == self.image@[i as int],
                Err(e) => e == DiskError::IndexOutOfRange && i >= self.image@.len(),
            },
    {
        if i >= self.image.len() {
            return Err(DiskError::IndexOutOfRange);
        }
        Ok(self.image[i])
    }

    /// Residual value of a canvas pixel, in residual units.
    pub fn residual_at(&self, i: usize) -> (r: Result<i64, DiskError>)
        ensures
            match r {
                Ok(v) => i < self.b@.len() && v == self.b@[i as int],
                Err(e) => e == DiskError::IndexOutOfRange && i >= self.b@.len(),
            },
    {
        if i >= self.b.len() {
            return Err(DiskError::IndexOutOfRange);
        }
        Ok(self.b[i])
    }

    /// Squared norm of the whole residual: the unexplained error.
    pub fn residual_norm_sq(&self) -> (n: i128)
        requires
            self.wf(),
        ensures
            n == crate::residual::norm_sq(as_ints(self.b@)),
    {
        proof {
            self.lemma_residual_in_range();
        }
        crate::residual::norm_sq_value(&self.b)
    }

    /// Where the greedy walk stands.
    pub fn get_phase(&self) -> (p: Phase)
        ensures
            p == self.phase,
    {
        self.phase
    }
}

} // verus!
