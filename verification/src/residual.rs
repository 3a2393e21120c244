//! The residual image and the squared-error objective.
//!
//! The residual starts as the target intensity vector and has a line's
//! weight vector subtracted each time a string is accepted; it may go
//! negative, representing signed unexplained error.  A candidate line is
//! judged by comparing the squared norm of the residual restricted to the
//! line's pixels (`without`) against the squared norm of the difference
//! between that restriction and the line (`with`): drawing the line
//! replaces the one by the other inside the total squared norm.

use vstd::prelude::*;

verus! {

/// Upper magnitude bound on any single line weight.
pub const WEIGHT_BOUND: i64 = 255;

/// Upper magnitude bound on any residual entry; reached only after about
/// four billion accepted strings, more than distinct nail pairs can exist.
pub const RES_BOUND: i64 = 0x200_0000_0000;

/// Upper bound on the number of canvas pixels.
pub const LEN_BOUND: usize = 0x100_0000;

/// Bound on one summand of a squared-norm sum over in-bounds entries.
pub const TERM_BOUND: i128 = 0x10_0000_0000_0000_0000_0000;

/// Bound on a whole objective sum: one term bound per possible pixel.
pub const SUM_BOUND: i128 = 0x1000_0000_0000_0000_0000_0000_0000;

/// The mathematical values of a machine-integer vector.
pub open spec fn as_ints(s: Seq<i64>) -> Seq<int> {
    s.map_values(|x: i64| x as int)
}

/// Sum of the squares of all entries.
pub open spec fn norm_sq(s: Seq<int>) -> int
    decreases s.len(),
{
    if s.len() == 0 {
        0
    } else {
        norm_sq(s.drop_last()) + s.last() * s.last()
    }
}

/// Squared norm of the residual masked to the line's pixels: the entries
/// where the line has positive weight, everything else dropped.  This is
/// the objective value if the line is not drawn.
pub open spec fn masked_sq(r: Seq<int>, w: Seq<int>) -> int
    recommends
        r.len() == w.len(),
    decreases r.len(),
{
    if r.len() == 0 {
        0
    } else {
        masked_sq(r.drop_last(), w.drop_last()) + if w[r.len() - 1] > 0 {
            r.last() * r.last()
        } else {
            0
        }
    }
}

/// Squared norm of the masked residual minus the line: the objective value
/// if the line is drawn.
pub open spec fn with_line_sq(r: Seq<int>, w: Seq<int>) -> int
    recommends
        r.len() == w.len(),
    decreases r.len(),
{
    if r.len() == 0 {
        0
    } else {
        with_line_sq(r.drop_last(), w.drop_last()) + if w[r.len() - 1] > 0 {
            (r.last() - w[r.len() - 1]) * (r.last() - w[r.len() - 1])
        } else {
            0
        }
    }
}

/// Element-wise difference.
pub open spec fn seq_sub(r: Seq<int>, w: Seq<int>) -> Seq<int> {
    Seq::new(r.len(), |i: int| r[i] - w[i])
}

/// Subtracting a non-negative line vector exchanges, inside the total
/// squared norm, the masked squared norm for the with-line squared norm;
/// pixels the line does not touch contribute unchanged.
pub proof fn lemma_norm_decomposition(r: Seq<int>, w: Seq<int>)
    requires
        r.len() == w.len(),
        forall|i: int| 0 <= i < w.len() ==> #[trigger] w[i] >= 0,
    ensures
        norm_sq(seq_sub(r, w)) == norm_sq(r) - masked_sq(r, w) + with_line_sq(r, w),
    decreases r.len(),
{
    if r.len() == 0 {
        assert(seq_sub(r, w) =~= Seq::<int>::empty());
    } else {
        lemma_norm_decomposition(r.drop_last(), w.drop_last());
        assert(seq_sub(r, w).drop_last() =~= seq_sub(r.drop_last(), w.drop_last()));
        let a = r.last();
        let b = w[r.len() - 1];
        assert(seq_sub(r, w).last() == a - b);
        if b <= 0 {
            assert(b == 0);
            assert((a - b) * (a - b) == a * a) by (nonlinear_arith)
                requires
                    b == 0,
            ;
        }
    }
}

/// Residual monotonicity: accepting a line whose with-line objective is no
/// worse than its without-line objective cannot grow the residual's squared
/// norm, and a strictly better objective strictly shrinks it.
pub proof fn lemma_acceptance_shrinks_residual(r: Seq<int>, w: Seq<int>)
    requires
        r.len() == w.len(),
        forall|i: int| 0 <= i < w.len() ==> #[trigger] w[i] >= 0,
    ensures
        with_line_sq(r, w) <= masked_sq(r, w) ==> norm_sq(seq_sub(r, w)) <= norm_sq(r),
        with_line_sq(r, w) < masked_sq(r, w) ==> norm_sq(seq_sub(r, w)) < norm_sq(r),
{
    lemma_norm_decomposition(r, w);
}

/// Both objective values of a candidate line against the current residual:
/// `r.0` is the squared norm of the masked residual (line not drawn),
/// `r.1` the squared norm of the masked residual minus the line (line
/// drawn).
pub fn eval_line(residual: &Vec<i64>, line: &Vec<i64>) -> (r: (i128, i128))
    requires
        residual@.len() == line@.len(),
        residual@.len() <= LEN_BOUND,
        forall|i: int|
            0 <= i < residual@.len() ==> -RES_BOUND <= #[trigger] residual@[i] <= RES_BOUND,
        forall|i: int| 0 <= i < line@.len() ==> 0 <= #[trigger] line@[i] <= WEIGHT_BOUND,
    ensures
        r.0 == masked_sq(as_ints(residual@), as_ints(line@)),
        r.1 == with_line_sq(as_ints(residual@), as_ints(line@)),
        0 <= r.0 <= SUM_BOUND,
        0 <= r.1 <= SUM_BOUND,
{
    let ghost gr = as_ints(residual@);
    let ghost gw = as_ints(line@);
    let mut without: i128 = 0;
    let mut with_line: i128 = 0;
    let mut i: usize = 0;
    while i < residual.len()
        invariant
            i <= residual@.len(),
            residual@.len() == line@.len(),
            residual@.len() <= LEN_BOUND,
            gr == as_ints(residual@),
            gw == as_ints(line@),
            forall|k: int|
                0 <= k < residual@.len() ==> -RES_BOUND <= #[trigger] residual@[k] <= RES_BOUND,
            forall|k: int| 0 <= k < line@.len() ==> 0 <= #[trigger] line@[k] <= WEIGHT_BOUND,
            without == masked_sq(gr.take(i as int), gw.take(i as int)),
            with_line == with_line_sq(gr.take(i as int), gw.take(i as int)),
            0 <= without <= i * TERM_BOUND,
            0 <= with_line <= i * TERM_BOUND,
        decreases residual@.len() - i,
    {
        let a: i64 = residual[i];
        let b: i64 = line[i];
        proof {
            assert(gr.take(i + 1).drop_last() =~= gr.take(i as int));
            assert(gw.take(i + 1).drop_last() =~= gw.take(i as int));
            assert(0 <= (a as i128) * (a as i128) <= TERM_BOUND) by (nonlinear_arith)
                requires
                    -RES_BOUND <= a <= RES_BOUND,
            ;
            assert(0 <= ((a - b) as i128) * ((a - b) as i128) <= TERM_BOUND) by (nonlinear_arith)
                requires
                    -RES_BOUND <= a <= RES_BOUND,
                    0 <= b <= WEIGHT_BOUND,
            ;
            assert((i + 1) * TERM_BOUND == i * TERM_BOUND + TERM_BOUND) by (nonlinear_arith);
            assert(i * TERM_BOUND <= LEN_BOUND * TERM_BOUND) by (nonlinear_arith)
                requires
                    0 <= i <= LEN_BOUND,
            ;
        }
        if b > 0 {
            without = without + (a as i128) * (a as i128);
            let d: i128 = (a - b) as i128;
            with_line = with_line + d * d;
        }
        i = i + 1;
    }
    proof {
        assert(gr.take(residual@.len() as int) =~= gr);
        assert(gw.take(line@.len() as int) =~= gw);
        assert(i * TERM_BOUND <= LEN_BOUND * TERM_BOUND) by (nonlinear_arith)
            requires
                0 <= i <= LEN_BOUND,
        ;
    }
    (without, with_line)
}

/// Subtracts the line's weights from the residual, element-wise; no
/// clamping, the residual may go negative.
pub fn subtract_line(residual: &mut Vec<i64>, line: &Vec<i64>)
    requires
        old(residual)@.len() == line@.len(),
        forall|i: int|
            0 <= i < old(residual)@.len() ==> -RES_BOUND <= #[trigger] old(residual)@[i]
                <= RES_BOUND,
        forall|i: int| 0 <= i < line@.len() ==> 0 <= #[trigger] line@[i] <= WEIGHT_BOUND,
    ensures
        final(residual)@.len() == old(residual)@.len(),
        forall|i: int|
            0 <= i < final(residual)@.len() ==> #[trigger] final(residual)@[i] == old(
                residual,
            )@[i] - line@[i],
        as_ints(final(residual)@) == seq_sub(as_ints(old(residual)@), as_ints(line@)),
{
    let n: usize = residual.len();
    let mut i: usize = 0;
    while i < n
        invariant
            i <= n,
            n == residual@.len(),
            residual@.len() == old(residual)@.len(),
            old(residual)@.len() == line@.len(),
            forall|k: int|
                0 <= k < old(residual)@.len() ==> -RES_BOUND <= #[trigger] old(residual)@[k]
                    <= RES_BOUND,
            forall|k: int| 0 <= k < line@.len() ==> 0 <= #[trigger] line@[k] <= WEIGHT_BOUND,
            forall|k: int|
                i <= k < residual@.len() ==> #[trigger] residual@[k] == old(residual)@[k],
            forall|k: int|
                0 <= k < i ==> #[trigger] residual@[k] == old(residual)@[k] - line@[k],
        decreases n - i,
    {
        let v: i64 = residual[i] - line[i];
        residual.set(i, v);
        i = i + 1;
    }
    proof {
        assert(as_ints(residual@) =~= seq_sub(as_ints(old(residual)@), as_ints(line@)));
    }
}

/// The squared norm of a whole vector, for inspecting how much error an
/// accepted string set leaves unexplained.
pub fn norm_sq_value(v: &Vec<i64>) -> (n: i128)
    requires
        v@.len() <= LEN_BOUND,
        forall|i: int| 0 <= i < v@.len() ==> -RES_BOUND <= #[trigger] v@[i] <= RES_BOUND,
    ensures
        n == norm_sq(as_ints(v@)),
{
    let ghost gv = as_ints(v@);
    let mut acc: i128 = 0;
    let mut i: usize = 0;
    while i < v.len()
        invariant
            i <= v@.len(),
            v@.len() <= LEN_BOUND,
            gv == as_ints(v@),
            forall|k: int| 0 <= k < v@.len() ==> -RES_BOUND <= #[trigger] v@[k] <= RES_BOUND,
            acc == norm_sq(gv.take(i as int)),
            0 <= acc <= i * TERM_BOUND,
        decreases v@.len() - i,
    {
        let a: i64 = v[i];
        proof {
            assert(gv.take(i + 1).drop_last() =~= gv.take(i as int));
            assert(0 <= (a as i128) * (a as i128) <= TERM_BOUND) by (nonlinear_arith)
                requires
                    -RES_BOUND <= a <= RES_BOUND,
            ;
            assert((i + 1) * TERM_BOUND == i * TERM_BOUND + TERM_BOUND) by (nonlinear_arith);
            assert(i * TERM_BOUND <= LEN_BOUND * TERM_BOUND) by (nonlinear_arith)
                requires
                    0 <= i <= LEN_BOUND,
            ;
        }
        acc = acc + (a as i128) * (a as i128);
        i = i + 1;
    }
    proof {
        assert(gv.take(v@.len() as int) =~= gv);
    }
    acc
}

} // verus!
