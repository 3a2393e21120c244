//! The exhaustive scan selector.
//!
//! One pass over every unordered nail pair in index order, against a fresh
//! residual captured from the target image: each candidate line is
//! rasterized and accepted exactly when drawing it lowers the squared error
//! over its own pixels, in which case the residual is updated immediately,
//! so later pairs in the same pass see already-explained pixels.  Unlike
//! the greedy walk this may produce disconnected pairs.

use vstd::prelude::*;
use crate::residual::{as_ints, masked_sq, with_line_sq, seq_sub, eval_line, subtract_line,
    WEIGHT_BOUND};
use crate::disk::{Disk, Phase, SelectState, strings_ok, scaled_target, residual_bound};
use crate::walk::{line_vec_spec, line_vector, lemma_strings_len_bound};
use crate::DiskError;

verus! {

/// The rest of an exhaustive pass, starting at the unordered pair
/// `(a, b)`: the pair is accepted exactly when its with-line squared error
/// is below its without-line squared error, the residual then updated at
/// once, and the pass continues in index order.
pub open spec fn scan_from(
    nails: Seq<(i32, i32)>,
    pixels: Seq<(i32, i32)>,
    antialias: bool,
    st: SelectState,
    a: int,
    b: int,
) -> SelectState
    decreases nails.len() - a, nails.len() - b,
{
    if a < 0 || b <= a || a >= nails.len() - 1 {
        st
    } else if b >= nails.len() {
        scan_from(nails, pixels, antialias, st, a + 1, a + 2)
    } else {
        let w = line_vec_spec(nails, pixels, antialias, a, b);
        let st2 = if with_line_sq(st.residual, w) < masked_sq(st.residual, w) {
            SelectState {
                strings: st.strings.push((a, b)),
                residual: seq_sub(st.residual, w),
                last: st.last,
                phase: st.phase,
            }
        } else {
            st
        };
        scan_from(nails, pixels, antialias, st2, a, b + 1)
    }
}

/// The state an exhaustive pass starts from: no strings, the residual
/// captured from the target image, the walk idle.
pub open spec fn scan_start(image: Seq<u8>, last: int) -> SelectState {
    SelectState {
        strings: Seq::empty(),
        residual: scaled_target(image),
        last,
        phase: Phase::Idle,
    }
}

/// Residual monotonicity of the exhaustive scan with immediate update:
/// accepting the pair `(a, b)` — which happens exactly when its with-line
/// squared error is below its without-line squared error — strictly
/// shrinks the residual's squared norm, so the norm never increases over a
/// pass.
pub proof fn lemma_scan_acceptance_monotone(
    nails: Seq<(i32, i32)>,
    pixels: Seq<(i32, i32)>,
    antialias: bool,
    st: SelectState,
    a: int,
    b: int,
)
    requires
        st.residual.len() == pixels.len(),
        with_line_sq(st.residual, line_vec_spec(nails, pixels, antialias, a, b)) < masked_sq(
            st.residual,
            line_vec_spec(nails, pixels, antialias, a, b),
        ),
    ensures
        crate::residual::norm_sq(
            seq_sub(st.residual, line_vec_spec(nails, pixels, antialias, a, b)),
        ) < crate::residual::norm_sq(st.residual),
{
    let w = line_vec_spec(nails, pixels, antialias, a, b);
    crate::walk::lemma_line_vec_bounds(nails, pixels, antialias, a, b);
    crate::residual::lemma_acceptance_shrinks_residual(st.residual, w);
}

/// Lifted over a whole pass: from any point on, the exhaustive scan only
/// ever lowers the residual's squared norm, since every acceptance does.
pub proof fn lemma_scan_pass_monotone(
    nails: Seq<(i32, i32)>,
    pixels: Seq<(i32, i32)>,
    antialias: bool,
    st: SelectState,
    a: int,
    b: int,
)
    requires
        st.residual.len() == pixels.len(),
    ensures
        crate::residual::norm_sq(scan_from(nails, pixels, antialias, st, a, b).residual)
            <= crate::residual::norm_sq(st.residual),
        scan_from(nails, pixels, antialias, st, a, b).residual.len() == pixels.len(),
    decreases nails.len() - a, nails.len() - b,
{
    if a < 0 || b <= a || a >= nails.len() - 1 {
    } else if b >= nails.len() {
        lemma_scan_pass_monotone(nails, pixels, antialias, st, a + 1, a + 2);
    } else {
        let w = line_vec_spec(nails, pixels, antialias, a, b);
        let st2 = if with_line_sq(st.residual, w) < masked_sq(st.residual, w) {
            SelectState {
                strings: st.strings.push((a, b)),
                residual: seq_sub(st.residual, w),
                last: st.last,
                phase: st.phase,
            }
        } else {
            st
        };
        if with_line_sq(st.residual, w) < masked_sq(st.residual, w) {
            lemma_scan_acceptance_monotone(nails, pixels, antialias, st, a, b);
        }
        lemma_scan_pass_monotone(nails, pixels, antialias, st2, a, b + 1);
    }
}

impl Disk {
    /// Runs one full exhaustive pass over all nail pairs against the
    /// current target image, replacing the string set and residual with
    /// the pass's outcome.  Refused while a greedy walk is in progress.
    pub fn exhaustive_scan(&mut self) -> (r: Result<(), DiskError>)
        requires
            old(self).wf(),
        ensures
            match r {
                Ok(()) => {
                    &&& final(self).wf()
                    &&& final(self).same_geometry(*old(self))
                    &&& old(self).phase != Phase::Walking
                    &&& final(self).sel_view() == scan_from(
                        old(self).nails@,
                        old(self).canvas.pixels@,
                        old(self).antialias,
                        scan_start(old(self).image@, old(self).last_nail as int),
                        0,
                        1,
                    )
                    &&& strings_ok(final(self).strings_view(), old(self).nails@.len() as int)
                },
                Err(e) => e == DiskError::GeometryStale && *final(self) == *old(self) && old(
                    self,
                ).phase == Phase::Walking,
            },
    {
        match self.phase {
            Phase::Walking => {
                return Err(DiskError::GeometryStale);
            },
            _ => {},
        }
        let ghost g_nails = self.nails@;
        let ghost g_pixels = self.canvas.pixels@;
        let ghost g_aa = self.antialias;
        // Capture the residual from the target and clear the string set,
        // then return to the idle phase: the scan runs to completion here.
        self.initialize_drawing_strings();
        self.phase = Phase::Idle;
        let ghost st0 = self.sel_view();
        proof {
            assert(st0 =~~= scan_start(old(self).image@, old(self).last_nail as int));
        }
        let n: usize = self.nails.len();
        let mut a: usize = 0;
        while a < n - 1
            invariant
                a <= n - 1,
                self.wf(),
                self.same_geometry(*old(self)),
                g_nails == self.nails@,
                g_pixels == self.canvas.pixels@,
                g_aa == self.antialias,
                n == self.nails@.len(),
                2 <= n <= 0xFFFF,
                self.phase == st0.phase,
                self.last_nail == old(self).last_nail,
                forall|k: int|
                    0 <= k < self.strings@.len() ==> ((#[trigger] self.strings@[k]).0 as int) < (
                    self.strings@[k].1 as int) && ((self.strings@[k].0 as int) < a || (
                    self.strings@[k].0 == a && (self.strings@[k].1 as int) < a + 1)),
                scan_from(g_nails, g_pixels, g_aa, st0, 0, 1) == scan_from(
                    g_nails,
                    g_pixels,
                    g_aa,
                    self.sel_view(),
                    a as int,
                    a as int + 1,
                ),
            decreases n - a,
        {
            let apt: (i32, i32) = self.nails[a];
            let mut b: usize = a + 1;
            while b < n
                invariant
                    a < n - 1,
                    a + 1 <= b <= n,
                    self.wf(),
                    self.same_geometry(*old(self)),
                    g_nails == self.nails@,
                    g_pixels == self.canvas.pixels@,
                    g_aa == self.antialias,
                    n == self.nails@.len(),
                    2 <= n <= 0xFFFF,
                    self.phase == st0.phase,
                    self.last_nail == old(self).last_nail,
                    apt == self.nails@[a as int],
                    forall|k: int|
                        0 <= k < self.strings@.len() ==> ((#[trigger] self.strings@[k]).0 as int)
                            < (self.strings@[k].1 as int) && ((self.strings@[k].0 as int) < a || (
                        self.strings@[k].0 == a && (self.strings@[k].1 as int) < b)),
                    scan_from(g_nails, g_pixels, g_aa, st0, 0, 1) == scan_from(
                        g_nails,
                        g_pixels,
                        g_aa,
                        self.sel_view(),
                        a as int,
                        b as int,
                    ),
                decreases n - b,
            {
                let ghost st = self.sel_view();
                let bpt: (i32, i32) = self.nails[b];
                let line = line_vector(&self.canvas, self.antialias, apt, bpt);
                proof {
                    assert(as_ints(line@) =~= line_vec_spec(
                        g_nails,
                        g_pixels,
                        g_aa,
                        a as int,
                        b as int,
                    ));
                    self.lemma_residual_in_range();
                }
                let (without, with_line) = eval_line(&self.b, &line);
                if with_line < without {
                    let ghost old_strings_len = self.strings@.len();
                    self.strings.push((a as u16, b as u16));
                    subtract_line(&mut self.b, &line);
                    proof {
                        let stv = self.sel_view();
                        assert(stv.strings =~= st.strings.push((a as int, b as int)));
                        assert(stv.residual =~= seq_sub(
                            st.residual,
                            line_vec_spec(g_nails, g_pixels, g_aa, a as int, b as int),
                        ));
                        // Soundness of the grown string set: every earlier
                        // pair is lexicographically smaller in its ordered
                        // form, so the new pair is fresh in both
                        // orientations.
                        assert forall|k: int, l: int|
                            0 <= k < l < stv.strings.len() implies (#[trigger] stv.strings[k])
                            != (#[trigger] stv.strings[l]) && (stv.strings[k].1,
                            stv.strings[k].0) != stv.strings[l] by {}
                        assert(strings_ok(stv.strings, n as int));
                        lemma_strings_len_bound(stv.strings, n as int);
                        assert((n as int) * (n as int) <= 0xFFFF * 0xFFFF) by (nonlinear_arith)
                            requires
                                0 <= n <= 0xFFFF,
                        ;
                        assert(residual_bound(self.strings@.len() as int) == residual_bound(
                            old_strings_len as int,
                        ) + WEIGHT_BOUND) by (nonlinear_arith)
                            requires
                                self.strings@.len() == old_strings_len + 1,
                        ;
                    }
                }
                b = b + 1;
            }
            a = a + 1;
        }
        Ok(())
    }
}

} // verus!
