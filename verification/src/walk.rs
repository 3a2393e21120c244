//! The greedy walk selector.
//!
//! From the nail the walk stands on, every other nail not yet connected to
//! it is tried: the candidate line is rasterized, and the squared-error
//! objective compared with and without the line.  The candidate with the
//! strictly largest positive improvement is accepted: its pair joins the
//! string set, its weights leave the residual, and the walk moves to its
//! far nail.  When no candidate improves, the walk is done and stays done.
//! Stepping happens in bounded batches so an interactive host can
//! interleave it with rendering.

use vstd::prelude::*;
use crate::geometry::{Canvas, NAIL_COORD_BOUND};
use crate::raster::{
    mode_samples, weight_at, raster_line_aa, raster_line_binary, lemma_weight_at_bound, BRIGHTNESS,
};
use crate::residual::{
    as_ints, masked_sq, with_line_sq, seq_sub, eval_line, subtract_line, WEIGHT_BOUND,
};
use crate::disk::{Disk, Phase, SelectState, strings_ok, residual_bound};

verus! {

/// Number of walk steps one call performs before yielding to the host.
pub const WALK_BATCH: usize = 20;

/// The weight vector of the line between nails `c` and `e`: per canvas
/// pixel, the weight the chosen rasterization assigns to its coordinates.
pub open spec fn line_vec_spec(
    nails: Seq<(i32, i32)>,
    pixels: Seq<(i32, i32)>,
    antialias: bool,
    c: int,
    e: int,
) -> Seq<int> {
    let samples = mode_samples(
        antialias,
        nails[c].0 as int,
        nails[c].1 as int,
        nails[e].0 as int,
        nails[e].1 as int,
    );
    Seq::new(pixels.len(), |p: int| weight_at(samples, (pixels[p].0 as int, pixels[p].1 as int)))
}

/// The unordered pair `{a, b}` already appears in the string set.
pub open spec fn pair_used(strings: Seq<(int, int)>, a: int, b: int) -> bool {
    exists|k: int|
        0 <= k < strings.len() && ((#[trigger] strings[k]) == (a, b) || strings[k] == (b, a))
}

/// How much drawing the line lowers the objective: without-line minus
/// with-line squared error over the line's pixels.
pub open spec fn improvement(residual: Seq<int>, w: Seq<int>) -> int {
    masked_sq(residual, w) - with_line_sq(residual, w)
}

/// Scans candidate end nails from `e` upward, carrying the best candidate
/// found so far as `(end, improvement)`: a candidate replaces the carried
/// one only with a strictly larger positive improvement, so the earliest
/// maximizer wins.  Skipped: the nail itself and pairs already drawn.
pub open spec fn best_from(
    nails: Seq<(i32, i32)>,
    pixels: Seq<(i32, i32)>,
    antialias: bool,
    st: SelectState,
    e: int,
    acc: Option<(int, int)>,
) -> Option<(int, int)>
    decreases nails.len() - e,
{
    if e < 0 || e >= nails.len() {
        acc
    } else {
        let acc2 = if e == st.last || pair_used(st.strings, st.last, e) {
            acc
        } else {
            let imp = improvement(st.residual, line_vec_spec(nails, pixels, antialias, st.last, e));
            if imp > 0 && (acc is None || imp > (acc->0).1) {
                Some((e, imp))
            } else {
                acc
            }
        };
        best_from(nails, pixels, antialias, st, e + 1, acc2)
    }
}

/// One step of the greedy walk: accept the best candidate from the current
/// nail and move there, or, when no candidate improves, finish.  Outside
/// the walking phase a step changes nothing.
pub open spec fn walk_step(
    nails: Seq<(i32, i32)>,
    pixels: Seq<(i32, i32)>,
    antialias: bool,
    st: SelectState,
) -> SelectState {
    if st.phase != Phase::Walking {
        st
    } else {
        match best_from(nails, pixels, antialias, st, 0, None) {
            None => SelectState { strings: st.strings, residual: st.residual, last: st.last, phase: Phase::Done },
            Some((e, imp)) => SelectState {
                strings: st.strings.push((st.last, e)),
                residual: seq_sub(
                    st.residual,
                    line_vec_spec(nails, pixels, antialias, st.last, e),
                ),
                last: e,
                phase: Phase::Walking,
            },
        }
    }
}

/// Up to `k` walk steps; stops early once the walk leaves the walking
/// phase.
pub open spec fn walk_batch(
    nails: Seq<(i32, i32)>,
    pixels: Seq<(i32, i32)>,
    antialias: bool,
    st: SelectState,
    k: int,
) -> SelectState
    decreases k,
{
    if k <= 0 || st.phase != Phase::Walking {
        st
    } else {
        walk_batch(nails, pixels, antialias, walk_step(nails, pixels, antialias, st), k - 1)
    }
}

/// Whether the unordered pair `{a, b}` already appears in the string set.
fn pair_used_exec(strings: &Vec<(u16, u16)>, a: usize, b: usize) -> (r: bool)
    requires
        a <= 0xFFFF,
        b <= 0xFFFF,
    ensures
        r == pair_used(
            strings@.map_values(|p: (u16, u16)| (p.0 as int, p.1 as int)),
            a as int,
            b as int,
        ),
{
    let ghost gs = strings@.map_values(|p: (u16, u16)| (p.0 as int, p.1 as int));
    let mut k: usize = 0;
    while k < strings.len()
        invariant
            k <= strings@.len(),
            gs == strings@.map_values(|p: (u16, u16)| (p.0 as int, p.1 as int)),
            a <= 0xFFFF,
            b <= 0xFFFF,
            forall|j: int|
                0 <= j < k ==> (#[trigger] gs[j]) != (a as int, b as int) && gs[j] != (
                b as int,
                a as int,
            ),
        decreases strings@.len() - k,
    {
        let (x, y) = strings[k];
        if (x as usize == a && y as usize == b) || (x as usize == b && y as usize == a) {
            proof {
                assert(gs[k as int] == (x as int, y as int));
            }
            return true;
        }
        k = k + 1;
    }
    false
}

/// The weight vector of the segment from `p0` to `p1` over the canvas:
/// rasterizes with the chosen policy and places each sample's weight at its
/// pixel's index; samples outside the canvas are dropped.
pub fn line_vector(canvas: &Canvas, antialias: bool, p0: (i32, i32), p1: (i32, i32)) -> (v: Vec<
    i64,
>)
    requires
        canvas.wf(),
        -NAIL_COORD_BOUND <= p0.0 <= NAIL_COORD_BOUND,
        -NAIL_COORD_BOUND <= p0.1 <= NAIL_COORD_BOUND,
        -NAIL_COORD_BOUND <= p1.0 <= NAIL_COORD_BOUND,
        -NAIL_COORD_BOUND <= p1.1 <= NAIL_COORD_BOUND,
    ensures
        v@.len() == canvas.pixels@.len(),
        forall|p: int|
            0 <= p < v@.len() ==> #[trigger] v@[p] == weight_at(
                mode_samples(antialias, p0.0 as int, p0.1 as int, p1.0 as int, p1.1 as int),
                (canvas.pixels@[p].0 as int, canvas.pixels@[p].1 as int),
            ),
        forall|p: int| 0 <= p < v@.len() ==> 0 <= #[trigger] v@[p] <= WEIGHT_BOUND,
{
    let ghost gsamples = mode_samples(
        antialias,
        p0.0 as int,
        p0.1 as int,
        p1.0 as int,
        p1.1 as int,
    );
    proof {
        assert(BRIGHTNESS <= WEIGHT_BOUND);
    }
    let samples: Vec<((i32, i32), u32)> = if antialias {
        raster_line_aa(p0, p1)
    } else {
        let pts = raster_line_binary(p0, p1);
        let mut s: Vec<((i32, i32), u32)> = Vec::new();
        let mut t: usize = 0;
        while t < pts.len()
            invariant
                t <= pts@.len(),
                s@.len() == t,
                forall|j: int|
                    0 <= j < t ==> #[trigger] s@[j] == (pts@[j], 1u32),
            decreases pts@.len() - t,
        {
            s.push((pts[t], 1));
            t = t + 1;
        }
        s
    };
    proof {
        assert forall|j: int| 0 <= j < samples@.len() implies ((
        (#[trigger] samples@[j]).0.0 as int,
        samples@[j].0.1 as int,
        ), samples@[j].1 as int) == (gsamples[j].0, gsamples[j].1) by {}
        assert(samples@.len() == gsamples.len());
        assert forall|j: int| 0 <= j < gsamples.len() implies 0 <= (#[trigger] gsamples[j]).1
            <= WEIGHT_BOUND by {
            if antialias {
                crate::raster::lemma_aa_weight_range(
                    p0.0 as int,
                    p0.1 as int,
                    p1.0 as int,
                    p1.1 as int,
                    j,
                );
            }
        }
    }
    let count: usize = canvas.pixel_count();
    let mut v: Vec<i64> = Vec::new();
    let mut i: usize = 0;
    while i < count
        invariant
            i <= count,
            v@.len() == i,
            forall|p: int| 0 <= p < i ==> #[trigger] v@[p] == 0,
        decreases count - i,
    {
        v.push(0);
        i = i + 1;
    }
    proof {
        assert(gsamples.take(0) =~= Seq::<((int, int), int)>::empty());
    }
    let mut j: usize = 0;
    while j < samples.len()
        invariant
            j <= samples@.len(),
            canvas.wf(),
            count == canvas.pixels@.len(),
            v@.len() == count,
            samples@.len() == gsamples.len(),
            forall|l: int|
                0 <= l < samples@.len() ==> (((#[trigger] samples@[l]).0.0 as int, samples@[
                l].0.1 as int), samples@[l].1 as int) == (gsamples[l].0, gsamples[l].1),
            forall|l: int| 0 <= l < gsamples.len() ==> 0 <= (#[trigger] gsamples[l]).1 <= WEIGHT_BOUND,
            forall|p: int|
                0 <= p < v@.len() ==> #[trigger] v@[p] == weight_at(
                    gsamples.take(j as int),
                    (canvas.pixels@[p].0 as int, canvas.pixels@[p].1 as int),
                ),
            forall|p: int| 0 <= p < v@.len() ==> 0 <= #[trigger] v@[p] <= WEIGHT_BOUND,
        decreases samples@.len() - j,
    {
        let ((sx, sy), w) = samples[j];
        let idx_opt = canvas.coord_index(sx, sy);
        proof {
            assert(gsamples.take(j + 1).drop_last() =~= gsamples.take(j as int));
            assert(gsamples.take(j + 1).last() == gsamples[j as int]);
            assert(gsamples[j as int].0 == (sx as int, sy as int));
            lemma_weight_at_bound(
                gsamples.take(j + 1),
                gsamples[j as int].0,
                WEIGHT_BOUND as int,
            );
        }
        match idx_opt {
            Some(idx) => {
                v.set(idx, w as i64);
                proof {
                    canvas.lemma_pixels_injective();
                    assert forall|p: int| 0 <= p < v@.len() implies #[trigger] v@[p] == weight_at(
                        gsamples.take(j + 1),
                        (canvas.pixels@[p].0 as int, canvas.pixels@[p].1 as int),
                    ) by {
                        if p != idx {
                            assert(canvas.pixels@[p] != canvas.pixels@[idx as int]);
                        }
                    }
                }
            },
            None => {
                proof {
                    assert forall|p: int| 0 <= p < v@.len() implies #[trigger] v@[p] == weight_at(
                        gsamples.take(j + 1),
                        (canvas.pixels@[p].0 as int, canvas.pixels@[p].1 as int),
                    ) by {
                        assert(canvas.pixels@[p] != (sx, sy));
                    }
                }
            },
        }
        j = j + 1;
    }
    proof {
        assert(gsamples.take(gsamples.len() as int) =~= gsamples);
    }
    v
}

impl Disk {
    /// Performs up to one batch of greedy walk steps, exactly as the
    /// mathematical batch function describes: each step accepts the best
    /// strictly improving unused candidate from the current nail, subtracts
    /// its line from the residual and moves there, or finishes the walk.
    /// Outside the walking phase the call changes nothing.
    pub fn draw_strings(&mut self)
        requires
            old(self).wf(),
        ensures
            final(self).wf(),
            final(self).same_geometry(*old(self)),
            final(self).sel_view() == walk_batch(
                old(self).nails@,
                old(self).canvas.pixels@,
                old(self).antialias,
                old(self).sel_view(),
                WALK_BATCH as int,
            ),
            strings_ok(final(self).strings_view(), old(self).nails@.len() as int),
    {
        let ghost g_nails = self.nails@;
        let ghost g_pixels = self.canvas.pixels@;
        let ghost g_aa = self.antialias;
        let ghost st0 = self.sel_view();
        let n: usize = self.nails.len();
        let mut iter: usize = 0;
        let mut walking: bool = match self.phase {
            Phase::Walking => true,
            _ => false,
        };
        while iter < WALK_BATCH && walking
            invariant
                iter <= WALK_BATCH,
                self.wf(),
                self.same_geometry(*old(self)),
                g_nails == self.nails@,
                g_pixels == self.canvas.pixels@,
                g_aa == self.antialias,
                n == self.nails@.len(),
                st0 == old(self).sel_view(),
                walking == (self.phase == Phase::Walking),
                walk_batch(g_nails, g_pixels, g_aa, st0, WALK_BATCH as int) == walk_batch(
                    g_nails,
                    g_pixels,
                    g_aa,
                    self.sel_view(),
                    WALK_BATCH - iter,
                ),
            decreases WALK_BATCH - iter,
        {
            let ghost st = self.sel_view();
            let c: usize = self.last_nail;
            let cpt: (i32, i32) = self.nails[c];
            let mut best_e: usize = 0;
            let mut best_imp: i128 = 0;
            let mut best_vec: Vec<i64> = Vec::new();
            let mut have: bool = false;
            let mut e: usize = 0;
            proof {
                self.lemma_residual_in_range();
            }
            while e < n
                invariant
                    e <= n,
                    self.wf(),
                    g_nails == self.nails@,
                    g_pixels == self.canvas.pixels@,
                    g_aa == self.antialias,
                    n == self.nails@.len(),
                    st == self.sel_view(),
                    c == self.last_nail,
                    cpt == self.nails@[c as int],
                    c < n,
                    forall|i: int|
                        0 <= i < self.b@.len() ==> -crate::residual::RES_BOUND <= (
                        #[trigger] self.b@[i]) <= crate::residual::RES_BOUND,
                    best_from(g_nails, g_pixels, g_aa, st, 0, None) == best_from(
                        g_nails,
                        g_pixels,
                        g_aa,
                        st,
                        e as int,
                        if have {
                            Some((best_e as int, best_imp as int))
                        } else {
                            None
                        },
                    ),
                    have ==> {
                        &&& best_e < n
                        &&& best_e != c
                        &&& !pair_used(st.strings, c as int, best_e as int)
                        &&& best_imp == improvement(
                            st.residual,
                            line_vec_spec(g_nails, g_pixels, g_aa, c as int, best_e as int),
                        )
                        &&& best_imp > 0
                        &&& as_ints(best_vec@) == line_vec_spec(
                            g_nails,
                            g_pixels,
                            g_aa,
                            c as int,
                            best_e as int,
                        )
                        &&& best_vec@.len() == self.b@.len()
                        &&& forall|p: int|
                            0 <= p < best_vec@.len() ==> 0 <= #[trigger] best_vec@[p]
                                <= WEIGHT_BOUND
                    },
                decreases n - e,
            {
                let skip: bool = e == c || pair_used_exec(&self.strings, c, e);
                if !skip {
                    let ept: (i32, i32) = self.nails[e];
                    let line = line_vector(&self.canvas, self.antialias, cpt, ept);
                    proof {
                        assert(as_ints(line@) =~= line_vec_spec(
                            g_nails,
                            g_pixels,
                            g_aa,
                            c as int,
                            e as int,
                        ));
                    }
                    let (without, with_line) = eval_line(&self.b, &line);
                    let imp: i128 = without - with_line;
                    proof {
                        assert(imp == improvement(
                            st.residual,
                            line_vec_spec(g_nails, g_pixels, g_aa, c as int, e as int),
                        ));
                    }
                    if imp > 0 && (!have || imp > best_imp) {
                        have = true;
                        best_e = e;
                        best_imp = imp;
                        best_vec = line;
                    }
                }
                e = e + 1;
            }
            if !have {
                self.phase = Phase::Done;
                walking = false;
                proof {
                    assert(walk_step(g_nails, g_pixels, g_aa, st) == self.sel_view());
                    assert(walk_batch(g_nails, g_pixels, g_aa, st, WALK_BATCH - iter)
                        == walk_batch(
                        g_nails,
                        g_pixels,
                        g_aa,
                        self.sel_view(),
                        WALK_BATCH - iter - 1,
                    ));
                }
            } else {
                let ghost old_strings = self.strings@;
                self.strings.push((c as u16, best_e as u16));
                subtract_line(&mut self.b, &best_vec);
                self.last_nail = best_e;
                proof {
                    let stv = self.sel_view();
                    let stepped = walk_step(g_nails, g_pixels, g_aa, st);
                    assert(stv.strings =~= st.strings.push((c as int, best_e as int)));
                    assert(stv.residual =~= stepped.residual);
                    assert(stv == stepped);
                    assert(walk_batch(g_nails, g_pixels, g_aa, st, WALK_BATCH - iter)
                        == walk_batch(g_nails, g_pixels, g_aa, stv, WALK_BATCH - iter - 1));
                    // The string set stays sound: the new pair is fresh in
                    // both orientations and connects two distinct nails.
                    assert forall|k: int, l: int|
                        0 <= k < l < stv.strings.len() implies (#[trigger] stv.strings[k]) != (
                        #[trigger] stv.strings[l]) && (stv.strings[k].1, stv.strings[k].0)
                            != stv.strings[l] by {
                        if l == stv.strings.len() - 1 {
                            assert(!(st.strings[k] == (c as int, best_e as int) || st.strings[k]
                                == (best_e as int, c as int)));
                        }
                    }
                    assert(strings_ok(stv.strings, n as int));
                    lemma_strings_len_bound(stv.strings, n as int);
                    assert((n as int) * (n as int) <= 0xFFFF * 0xFFFF) by (nonlinear_arith)
                        requires
                            0 <= n <= 0xFFFF,
                    ;
                    // Residual entries moved by at most one weight bound.
                    assert(residual_bound(self.strings@.len() as int) == residual_bound(
                        old_strings.len() as int,
                    ) + WEIGHT_BOUND) by (nonlinear_arith)
                        requires
                            self.strings@.len() == old_strings.len() + 1,
                    ;
                }
            }
            iter = iter + 1;
        }
        proof {
            if walking {
                assert(walk_batch(g_nails, g_pixels, g_aa, self.sel_view(), WALK_BATCH - iter)
                    == self.sel_view());
            }
        }
    }
}

/// A sound string set over `n` nails cannot repeat pairs, so it holds fewer
/// than `n * n` strings.
pub proof fn lemma_strings_len_bound(strings: Seq<(int, int)>, n: int)
    requires
        n >= 0,
        strings_ok(strings, n),
    ensures
        strings.len() <= n * n,
{
    let enc = |p: (int, int)| p.0 * n + p.1;
    let t = strings.map_values(enc);
    assert forall|i: int, j: int| 0 <= i < j < t.len() implies t[i] != t[j] by {
        if t[i] == t[j] {
            let (a1, b1) = strings[i];
            let (a2, b2) = strings[j];
            vstd::arithmetic::div_mod::lemma_fundamental_div_mod_converse_div(
                a1 * n + b1,
                n,
                a1,
                b1,
            );
            vstd::arithmetic::div_mod::lemma_fundamental_div_mod_converse_mod(
                a1 * n + b1,
                n,
                a1,
                b1,
            );
            vstd::arithmetic::div_mod::lemma_fundamental_div_mod_converse_div(
                a2 * n + b2,
                n,
                a2,
                b2,
            );
            vstd::arithmetic::div_mod::lemma_fundamental_div_mod_converse_mod(
                a2 * n + b2,
                n,
                a2,
                b2,
            );
            assert(strings[i] == strings[j]);
        }
    }
    assert(t.no_duplicates());
    t.unique_seq_to_set();
    assert forall|x: int| t.to_set().contains(x) implies vstd::set_lib::set_int_range(
        0,
        n * n,
    ).contains(x) by {
        let i = choose|i: int| 0 <= i < t.len() && t[i] == x;
        let (a, b) = strings[i];
        assert(0 <= a * n + b < n * n) by (nonlinear_arith)
            requires
                0 <= a < n,
                0 <= b < n,
        ;
    }
    vstd::set_lib::lemma_int_range(0, n * n);
    assert(n * n >= 0) by (nonlinear_arith);
    vstd::set_lib::lemma_len_subset(
        t.to_set(),
        vstd::set_lib::set_int_range(0, n * n),
    );
}

/// The candidate the scan settles on is always a usable one: an unused
/// partner distinct from the current nail, with a strictly positive
/// improvement, namely the improvement its own line yields; and with no
/// usable accumulator to start from, `None` means every candidate was
/// unusable or not improving.
pub proof fn lemma_best_from_props(
    nails: Seq<(i32, i32)>,
    pixels: Seq<(i32, i32)>,
    antialias: bool,
    st: SelectState,
    e: int,
    acc: Option<(int, int)>,
)
    requires
        0 <= e <= nails.len(),
        acc is Some ==> {
            let (a, imp) = acc->0;
            &&& 0 <= a < nails.len()
            &&& a != st.last
            &&& !pair_used(st.strings, st.last, a)
            &&& imp > 0
            &&& imp == improvement(
                st.residual,
                line_vec_spec(nails, pixels, antialias, st.last, a),
            )
        },
    ensures
        best_from(nails, pixels, antialias, st, e, acc) is Some ==> {
            let (a, imp) = best_from(nails, pixels, antialias, st, e, acc)->0;
            &&& 0 <= a < nails.len()
            &&& a != st.last
            &&& !pair_used(st.strings, st.last, a)
            &&& imp > 0
            &&& imp == improvement(
                st.residual,
                line_vec_spec(nails, pixels, antialias, st.last, a),
            )
        },
    decreases nails.len() - e,
{
    if e < nails.len() {
        let acc2 = if e == st.last || pair_used(st.strings, st.last, e) {
            acc
        } else {
            let imp = improvement(st.residual, line_vec_spec(nails, pixels, antialias, st.last, e));
            if imp > 0 && (acc is None || imp > (acc->0).1) {
                Some((e, imp))
            } else {
                acc
            }
        };
        lemma_best_from_props(nails, pixels, antialias, st, e + 1, acc2);
    }
}

/// Greedy walk progress: a step taken while walking either finishes the
/// walk or accepts exactly one fresh string; and the sound string set stays
/// below the square of the nail count.  Repeated stepping therefore
/// reaches the done phase after at most `n * n` acceptances.
pub proof fn lemma_walk_step_progress(
    nails: Seq<(i32, i32)>,
    pixels: Seq<(i32, i32)>,
    antialias: bool,
    st: SelectState,
)
    requires
        st.phase == Phase::Walking,
        0 <= st.last < nails.len(),
        strings_ok(st.strings, nails.len() as int),
    ensures
        walk_step(nails, pixels, antialias, st).phase == Phase::Done ==> walk_step(
            nails,
            pixels,
            antialias,
            st,
        ).strings == st.strings,
        walk_step(nails, pixels, antialias, st).phase == Phase::Walking ==> {
            let st2 = walk_step(nails, pixels, antialias, st);
            &&& st2.strings.len() == st.strings.len() + 1
            &&& strings_ok(st2.strings, nails.len() as int)
            &&& st2.strings.len() <= nails.len() * nails.len()
        },
{
    let n = nails.len() as int;
    lemma_best_from_props(nails, pixels, antialias, st, 0, None);
    let r = best_from(nails, pixels, antialias, st, 0, None);
    if r is Some {
        let (a, imp) = r->0;
        let st2 = walk_step(nails, pixels, antialias, st);
        assert forall|k: int, l: int|
            0 <= k < l < st2.strings.len() implies (#[trigger] st2.strings[k]) != (
            #[trigger] st2.strings[l]) && (st2.strings[k].1, st2.strings[k].0) != st2.strings[l] by {
            if l == st2.strings.len() - 1 {
                assert(!(st.strings[k] == (st.last, a) || st.strings[k] == (a, st.last)));
            }
        }
        assert(strings_ok(st2.strings, n));
        lemma_strings_len_bound(st2.strings, n);
    }
}

/// A line's weight vector assigns every pixel a weight between zero and
/// the weight bound.
pub proof fn lemma_line_vec_bounds(
    nails: Seq<(i32, i32)>,
    pixels: Seq<(i32, i32)>,
    antialias: bool,
    c: int,
    e: int,
)
    ensures
        line_vec_spec(nails, pixels, antialias, c, e).len() == pixels.len(),
        forall|p: int|
            0 <= p < pixels.len() ==> 0 <= #[trigger] line_vec_spec(
                nails,
                pixels,
                antialias,
                c,
                e,
            )[p] <= WEIGHT_BOUND,
{
    let samples = mode_samples(
        antialias,
        nails[c].0 as int,
        nails[c].1 as int,
        nails[e].0 as int,
        nails[e].1 as int,
    );
    assert forall|l: int| 0 <= l < samples.len() implies 0 <= (#[trigger] samples[l]).1
        <= WEIGHT_BOUND by {
        if antialias {
            crate::raster::lemma_aa_weight_range(
                nails[c].0 as int,
                nails[c].1 as int,
                nails[e].0 as int,
                nails[e].1 as int,
                l,
            );
        }
    }
    assert forall|p: int| 0 <= p < pixels.len() implies 0 <= #[trigger] line_vec_spec(
        nails,
        pixels,
        antialias,
        c,
        e,
    )[p] <= WEIGHT_BOUND by {
        lemma_weight_at_bound(
            samples,
            (pixels[p].0 as int, pixels[p].1 as int),
            WEIGHT_BOUND as int,
        );
    }
}

/// Residual monotonicity of the greedy walk: a step never grows the
/// residual's squared norm, and an accepting step strictly shrinks it,
/// since acceptance demands a strictly positive improvement.
pub proof fn lemma_walk_step_monotone(
    nails: Seq<(i32, i32)>,
    pixels: Seq<(i32, i32)>,
    antialias: bool,
    st: SelectState,
)
    requires
        st.residual.len() == pixels.len(),
    ensures
        crate::residual::norm_sq(walk_step(nails, pixels, antialias, st).residual)
            <= crate::residual::norm_sq(st.residual),
        st.phase == Phase::Walking && best_from(nails, pixels, antialias, st, 0, None) is Some
            ==> crate::residual::norm_sq(walk_step(nails, pixels, antialias, st).residual)
            < crate::residual::norm_sq(st.residual),
{
    if st.phase == Phase::Walking {
        let r = best_from(nails, pixels, antialias, st, 0, None);
        if r is Some {
            lemma_best_from_props(nails, pixels, antialias, st, 0, None);
            let (a, imp) = r->0;
            let w = line_vec_spec(nails, pixels, antialias, st.last, a);
            lemma_line_vec_bounds(nails, pixels, antialias, st.last, a);
            crate::residual::lemma_acceptance_shrinks_residual(st.residual, w);
        }
    }
}

/// Lifted over a whole batch: stepping the greedy walk only ever lowers
/// the residual's squared norm, since every acceptance does.
pub proof fn lemma_walk_batch_monotone(
    nails: Seq<(i32, i32)>,
    pixels: Seq<(i32, i32)>,
    antialias: bool,
    st: SelectState,
    k: int,
)
    requires
        st.residual.len() == pixels.len(),
    ensures
        crate::residual::norm_sq(walk_batch(nails, pixels, antialias, st, k).residual)
            <= crate::residual::norm_sq(st.residual),
        walk_batch(nails, pixels, antialias, st, k).residual.len() == pixels.len(),
    decreases k,
{
    if k <= 0 || st.phase != Phase::Walking {
    } else {
        lemma_walk_step_monotone(nails, pixels, antialias, st);
        lemma_walk_batch_monotone(
            nails,
            pixels,
            antialias,
            walk_step(nails, pixels, antialias, st),
            k - 1,
        );
    }
}

/// Greedy walk termination: every step taken while walking accepts a fresh
/// pair or finishes, and fewer than `n * n` pairs exist, so a batch of more
/// steps than there are unused pair slots always ends with the walk done.
pub proof fn lemma_walk_terminates(
    nails: Seq<(i32, i32)>,
    pixels: Seq<(i32, i32)>,
    antialias: bool,
    st: SelectState,
    k: int,
)
    requires
        st.phase == Phase::Walking,
        0 <= st.last < nails.len(),
        strings_ok(st.strings, nails.len() as int),
        k > nails.len() * nails.len() - st.strings.len(),
    ensures
        walk_batch(nails, pixels, antialias, st, k).phase == Phase::Done,
    decreases k,
{
    let n = nails.len() as int;
    lemma_strings_len_bound(st.strings, n);
    let st2 = walk_step(nails, pixels, antialias, st);
    lemma_walk_step_progress(nails, pixels, antialias, st);
    if st2.phase == Phase::Done {
        lemma_walk_done_stalls(nails, pixels, antialias, st2, k - 1);
    } else {
        lemma_best_from_props(nails, pixels, antialias, st, 0, None);
        lemma_walk_terminates(nails, pixels, antialias, st2, k - 1);
    }
}

/// Once the walk is done, further stepping is a no-op: any batch leaves the
/// state unchanged.
pub proof fn lemma_walk_done_stalls(
    nails: Seq<(i32, i32)>,
    pixels: Seq<(i32, i32)>,
    antialias: bool,
    st: SelectState,
    k: int,
)
    requires
        st.phase != Phase::Walking,
    ensures
        walk_batch(nails, pixels, antialias, st, k) == st,
{
}

} // verus!
