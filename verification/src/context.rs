use vstd::prelude::*;

use crate::fixed::{exp_fx_spec, ln_fx_spec, LN2_FX, SCALE, STATE_BOUND, WEIGHT_BOUND};

verus! {

/// Longest sequence a lattice admits.
pub const MAX_SEQ: usize = 1000;

/// Largest label alphabet a lattice admits.
pub const MAX_LABELS: usize = 1000;

/// Bound on one Viterbi cell: position scores and one transition per step.
pub const CELL_BOUND: i64 = 1_000_010_000_000_000;

/// The rows of a matrix as mathematical sequences.
pub open spec fn rows(m: Vec<Vec<i64>>) -> Seq<Seq<i64>> {
    m@.map_values(|r: Vec<i64>| r@)
}

/// A `rows x cols` matrix whose entries all lie within `bound`.
pub open spec fn wf_matrix(m: Seq<Seq<i64>>, nrows: int, ncols: int, bound: i64) -> bool {
    &&& m.len() == nrows
    &&& forall|i: int| 0 <= i < nrows ==> (#[trigger] m[i]).len() == ncols
    &&& forall|i: int, j: int|
        0 <= i < nrows && 0 <= j < ncols ==> -bound <= #[trigger] m[i][j] <= bound
}

/// A label sequence of length `t` over an alphabet of `l` labels.
pub open spec fn valid_path(ys: Seq<int>, t: int, l: int) -> bool {
    &&& ys.len() == t
    &&& forall|i: int| 0 <= i < t ==> 0 <= #[trigger] ys[i] < l
}

/// Total score of the first `t` positions of the label sequence `ys`: the
/// state score at every position plus the transition score between every
/// adjacent pair.
pub open spec fn path_score_prefix(
    state: Seq<Seq<i64>>,
    trans: Seq<Seq<i64>>,
    ys: Seq<int>,
    t: int,
) -> int
    decreases t,
{
    if t <= 0 {
        0
    } else if t == 1 {
        state[0][ys[0]] as int
    } else {
        path_score_prefix(state, trans, ys, t - 1) + trans[ys[t - 2]][ys[t - 1]]
            + state[t - 1][ys[t - 1]]
    }
}

/// Total score of the label sequence `ys` against the lattice.
pub open spec fn path_score(state: Seq<Seq<i64>>, trans: Seq<Seq<i64>>, ys: Seq<int>) -> int {
    path_score_prefix(state, trans, ys, ys.len() as int)
}

/// Best score reachable by arriving at label `y` from any predecessor label
/// below `l`, given the previous Viterbi row.
pub open spec fn best_prev_score(
    prev: Seq<int>,
    trans: Seq<Seq<i64>>,
    y: int,
    l: int,
) -> int
    decreases l,
{
    if l <= 1 {
        prev[0] + trans[0][y]
    } else {
        let rest = best_prev_score(prev, trans, y, l - 1);
        let cand = prev[l - 1] + trans[l - 1][y];
        if cand > rest {
            cand
        } else {
            rest
        }
    }
}

/// The predecessor label that attains `best_prev_score`; on ties the
/// first-encountered (lowest) label wins.
pub open spec fn best_prev_arg(prev: Seq<int>, trans: Seq<Seq<i64>>, y: int, l: int) -> int
    decreases l,
{
    if l <= 1 {
        0
    } else {
        let rest = best_prev_score(prev, trans, y, l - 1);
        let cand = prev[l - 1] + trans[l - 1][y];
        if cand > rest {
            l - 1
        } else {
            best_prev_arg(prev, trans, y, l - 1)
        }
    }
}

/// Row `t` of the Viterbi table: the best score of any path over positions
/// `0..=t` that ends in each label.
pub open spec fn vit_row(state: Seq<Seq<i64>>, trans: Seq<Seq<i64>>, l: int, t: int) -> Seq<int>
    decreases t,
{
    if t <= 0 {
        Seq::new(l as nat, |y: int| state[0][y] as int)
    } else {
        let prev = vit_row(state, trans, l, t - 1);
        Seq::new(l as nat, |y: int| best_prev_score(prev, trans, y, l) + state[t][y])
    }
}

/// First-encountered maximum of a Viterbi row among labels below `l`.
pub open spec fn best_last(row: Seq<int>, l: int) -> int
    decreases l,
{
    if l <= 1 {
        0
    } else {
        let rest = best_last(row, l - 1);
        if row[l - 1] > row[rest] {
            l - 1
        } else {
            rest
        }
    }
}

/// The label sequence recovered by backtracking from label `y` at position
/// `t`: the unique path the backpointers name.
pub open spec fn vit_path_to(
    state: Seq<Seq<i64>>,
    trans: Seq<Seq<i64>>,
    l: int,
    t: int,
    y: int,
) -> Seq<int>
    decreases t,
{
    if t <= 0 {
        seq![y]
    } else {
        let prev = vit_row(state, trans, l, t - 1);
        vit_path_to(state, trans, l, t - 1, best_prev_arg(prev, trans, y, l)).push(y)
    }
}

/// The Viterbi decode of a lattice of `tt >= 1` positions: backtrack from the
/// first-encountered maximum of the last row.
pub open spec fn vit_path(state: Seq<Seq<i64>>, trans: Seq<Seq<i64>>, l: int, tt: int) -> Seq<
    int,
> {
    let last = vit_row(state, trans, l, tt - 1);
    vit_path_to(state, trans, l, tt - 1, best_last(last, l))
}

/// A prefix score reads only the first `t` labels, so sequences that agree
/// there score alike.
pub proof fn lemma_path_score_depends_on_prefix(
    state: Seq<Seq<i64>>,
    trans: Seq<Seq<i64>>,
    ys1: Seq<int>,
    ys2: Seq<int>,
    t: int,
)
    requires
        forall|i: int| 0 <= i < t ==> ys1[i] == ys2[i],
    ensures
        path_score_prefix(state, trans, ys1, t) == path_score_prefix(state, trans, ys2, t),
    decreases t,
{
    if t > 1 {
        lemma_path_score_depends_on_prefix(state, trans, ys1, ys2, t - 1);
    }
}

/// What the best-predecessor recursion guarantees: the chosen predecessor is
/// in range, attains the best score, every candidate is dominated, and every
/// earlier candidate is strictly below (so the lowest label wins ties).
pub proof fn lemma_best_prev(prev: Seq<int>, trans: Seq<Seq<i64>>, y: int, l: int)
    requires
        1 <= l <= prev.len(),
    ensures
        0 <= best_prev_arg(prev, trans, y, l) < l,
        best_prev_score(prev, trans, y, l) == prev[best_prev_arg(prev, trans, y, l)]
            + trans[best_prev_arg(prev, trans, y, l)][y],
        forall|p: int|
            0 <= p < l ==> #[trigger] prev[p] + trans[p][y] <= best_prev_score(prev, trans, y, l),
        forall|p: int|
            0 <= p < best_prev_arg(prev, trans, y, l) ==> #[trigger] prev[p] + trans[p][y]
                < best_prev_score(prev, trans, y, l),
    decreases l,
{
    if l > 1 {
        lemma_best_prev(prev, trans, y, l - 1);
    }
}

/// What the last-row argmax recursion guarantees.
pub proof fn lemma_best_last(row: Seq<int>, l: int)
    requires
        1 <= l <= row.len(),
    ensures
        0 <= best_last(row, l) < l,
        forall|p: int| 0 <= p < l ==> #[trigger] row[p] <= row[best_last(row, l)],
        forall|p: int| 0 <= p < best_last(row, l) ==> #[trigger] row[p] < row[best_last(row, l)],
    decreases l,
{
    if l > 1 {
        lemma_best_last(row, l - 1);
    }
}

/// Every Viterbi cell is bounded by the number of positions seen times the
/// per-position bound, so the dynamic program never leaves `i64`.
pub proof fn lemma_vit_row_bound(state: Seq<Seq<i64>>, trans: Seq<Seq<i64>>, l: int, t: int)
    requires
        1 <= l,
        0 <= t < state.len(),
        wf_matrix(state, state.len() as int, l, STATE_BOUND),
        wf_matrix(trans, l, l, WEIGHT_BOUND),
    ensures
        forall|y: int|
            0 <= y < l ==> -(t + 1) * CELL_BOUND <= #[trigger] vit_row(state, trans, l, t)[y]
                <= (t + 1) * CELL_BOUND,
    decreases t,
{
    if t == 0 {
    } else {
        lemma_vit_row_bound(state, trans, l, t - 1);
        let prev = vit_row(state, trans, l, t - 1);
        assert forall|y: int|
            0 <= y < l implies -(t + 1) * CELL_BOUND <= #[trigger] vit_row(
            state,
            trans,
            l,
            t,
        )[y] <= (t + 1) * CELL_BOUND by {
            lemma_best_prev(prev, trans, y, l);
            let a = best_prev_arg(prev, trans, y, l);
            assert(prev[a] <= t * CELL_BOUND);
            assert(-(t) * CELL_BOUND <= prev[a]);
        }
    }
}

/// The backtracked path has the right length, stays inside the alphabet, ends
/// where the backtracking started, and scores exactly its Viterbi cell.
pub proof fn lemma_vit_path_exact(
    state: Seq<Seq<i64>>,
    trans: Seq<Seq<i64>>,
    l: int,
    t: int,
    y: int,
)
    requires
        1 <= l,
        0 <= t < state.len(),
        0 <= y < l,
        wf_matrix(state, state.len() as int, l, STATE_BOUND),
        wf_matrix(trans, l, l, WEIGHT_BOUND),
    ensures
        valid_path(vit_path_to(state, trans, l, t, y), t + 1, l),
        vit_path_to(state, trans, l, t, y)[t] == y,
        path_score_prefix(state, trans, vit_path_to(state, trans, l, t, y), t + 1) == vit_row(
            state,
            trans,
            l,
            t,
        )[y],
    decreases t,
{
    if t == 0 {
    } else {
        let prev = vit_row(state, trans, l, t - 1);
        lemma_best_prev(prev, trans, y, l);
        let a = best_prev_arg(prev, trans, y, l);
        lemma_vit_path_exact(state, trans, l, t - 1, a);
        let p_prev = vit_path_to(state, trans, l, t - 1, a);
        let p = vit_path_to(state, trans, l, t, y);
        assert(p == p_prev.push(y));
        lemma_path_score_depends_on_prefix(state, trans, p_prev, p, t);
        assert(p[t - 1] == a);
        assert(p[t] == y);
    }
}

/// No valid label sequence over the first `t + 1` positions scores above the
/// Viterbi cell of its final label.
pub proof fn lemma_vit_row_optimal(
    state: Seq<Seq<i64>>,
    trans: Seq<Seq<i64>>,
    l: int,
    t: int,
    ys: Seq<int>,
)
    requires
        1 <= l,
        0 <= t < state.len(),
        t + 1 <= ys.len(),
        forall|i: int| 0 <= i <= t ==> 0 <= #[trigger] ys[i] < l,
        wf_matrix(state, state.len() as int, l, STATE_BOUND),
        wf_matrix(trans, l, l, WEIGHT_BOUND),
    ensures
        path_score_prefix(state, trans, ys, t + 1) <= vit_row(state, trans, l, t)[ys[t]],
    decreases t,
{
    if t == 0 {
    } else {
        lemma_vit_row_optimal(state, trans, l, t - 1, ys);
        let prev = vit_row(state, trans, l, t - 1);
        lemma_best_prev(prev, trans, ys[t], l);
        assert(prev[ys[t - 1]] + trans[ys[t - 1]][ys[t]] <= best_prev_score(
            prev,
            trans,
            ys[t],
            l,
        ));
    }
}

/// Saturation bound of the forward recurrence: values are clamped here so the
/// fixed-point dynamic program stays inside `i64` whatever the weights.
pub const SAT_BOUND: i64 = 1_000_000_000_000_000_000;

/// Largest argument magnitude the log-sum-exp helper admits.
pub const LSE_ARG_BOUND: i64 = 2_100_000_000_000_000_000;

/// Largest value the fixed-point logarithm can hand back here.
pub const LN_OUT_BOUND: i64 = 32 * LN2_FX + 2 * SCALE;

/// Clamp into the saturation range.
pub open spec fn sat(x: int) -> int {
    if x < -SAT_BOUND {
        -SAT_BOUND as int
    } else if x > SAT_BOUND {
        SAT_BOUND as int
    } else {
        x
    }
}

/// Largest entry among the first `l` of a row.
pub open spec fn row_max(xs: Seq<int>, l: int) -> int
    decreases l,
{
    if l <= 1 {
        xs[0]
    } else {
        let m = row_max(xs, l - 1);
        if xs[l - 1] > m {
            xs[l - 1]
        } else {
            m
        }
    }
}

/// Sum of fixed-point exponentials of the first `l` entries, each first
/// shifted down by `mx`.
pub open spec fn sum_exp(xs: Seq<int>, mx: int, l: int) -> int
    decreases l,
{
    if l <= 0 {
        0
    } else {
        sum_exp(xs, mx, l - 1) + exp_fx_spec(xs[l - 1] - mx)
    }
}

/// Fixed-point log-sum-exp of the first `l` entries of a row: shift by the
/// row maximum, exponentiate, sum, and take the logarithm back.
pub open spec fn lse_spec(xs: Seq<int>, l: int) -> int {
    row_max(xs, l) + ln_fx_spec(sum_exp(xs, row_max(xs, l), l))
}

/// Row `t` of the forward table before rescaling: the log-domain mass of all
/// paths over positions `0..=t` ending in each label, accumulated through the
/// fixed-point log-sum-exp and clamped at the saturation bound.
pub open spec fn fwd_v_row(state: Seq<Seq<i64>>, trans: Seq<Seq<i64>>, l: int, t: int) -> Seq<
    int,
>
    decreases t, 0int,
{
    if t <= 0 {
        Seq::new(l as nat, |y: int| state[0][y] as int)
    } else {
        let ga = fwd_ga_row(state, trans, l, t - 1);
        Seq::new(
            l as nat,
            |y: int|
                sat(
                    state[t][y] + lse_spec(Seq::new(l as nat, |p: int| ga[p] + trans[p][y]), l),
                ),
        )
    }
}

/// Row `t` of the forward table after rescaling by its maximum: every entry is
/// non-positive and the maximum entry is zero.
pub open spec fn fwd_ga_row(state: Seq<Seq<i64>>, trans: Seq<Seq<i64>>, l: int, t: int) -> Seq<
    int,
>
    decreases t, 1int,
{
    let v = fwd_v_row(state, trans, l, t);
    Seq::new(l as nat, |y: int| v[y] - row_max(v, l))
}

/// Running (clamped) sum of the scale factors of the first `t` forward rows.
pub open spec fn scale_sum(state: Seq<Seq<i64>>, trans: Seq<Seq<i64>>, l: int, t: int) -> int
    decreases t,
{
    if t <= 0 {
        0
    } else {
        sat(scale_sum(state, trans, l, t - 1) + row_max(fwd_v_row(state, trans, l, t - 1), l))
    }
}

/// The log partition value of the lattice: the scale factors reapplied to the
/// logarithm of the summed final forward row.  An empty lattice has log Z zero.
pub open spec fn log_z_spec(state: Seq<Seq<i64>>, trans: Seq<Seq<i64>>, l: int, tt: int) -> int {
    if tt <= 0 {
        0
    } else {
        sat(
            scale_sum(state, trans, l, tt) + ln_fx_spec(
                sum_exp(fwd_ga_row(state, trans, l, tt - 1), 0, l),
            ),
        )
    }
}

/// The probability the lattice assigns to a label sequence: the exponential of
/// its score less the log partition value, capped at one unit.  The empty
/// sequence has probability one.
pub open spec fn prob_spec(state: Seq<Seq<i64>>, trans: Seq<Seq<i64>>, l: int, ys: Seq<int>) -> int {
    if ys.len() == 0 {
        SCALE as int
    } else {
        let d = path_score(state, trans, ys) - log_z_spec(state, trans, l, ys.len() as int);
        exp_fx_spec(
            if d <= 0 {
                d
            } else {
                0
            },
        )
    }
}

/// Row `t` of the backward table before rescaling: the log-domain mass of all
/// path suffixes leaving position `t` in each label, through the same
/// fixed-point log-sum-exp, clamped at the saturation bound.  The final row is
/// zero.
pub open spec fn bwd_v_row(
    state: Seq<Seq<i64>>,
    trans: Seq<Seq<i64>>,
    l: int,
    tt: int,
    t: int,
) -> Seq<int>
    decreases tt - t, 0int,
{
    if t >= tt - 1 || t < 0 {
        Seq::new(l as nat, |y: int| 0int)
    } else {
        let gb = bwd_gb_row(state, trans, l, tt, t + 1);
        Seq::new(
            l as nat,
            |y: int|
                sat(
                    lse_spec(
                        Seq::new(l as nat, |p: int| trans[y][p] + state[t + 1][p] + gb[p]),
                        l,
                    ),
                ),
        )
    }
}

/// Row `t` of the backward table after rescaling by its maximum.
pub open spec fn bwd_gb_row(
    state: Seq<Seq<i64>>,
    trans: Seq<Seq<i64>>,
    l: int,
    tt: int,
    t: int,
) -> Seq<int>
    decreases tt - t, 1int,
{
    let v = bwd_v_row(state, trans, l, tt, t);
    Seq::new(l as nat, |y: int| v[y] - row_max(v, l))
}

/// Running (clamped) sum of the backward scale factors from row `t` to the
/// end.
pub open spec fn bscale_sum(
    state: Seq<Seq<i64>>,
    trans: Seq<Seq<i64>>,
    l: int,
    tt: int,
    t: int,
) -> int
    decreases tt - t,
{
    if t >= tt || t < 0 {
        0
    } else {
        sat(bscale_sum(state, trans, l, tt, t + 1) + row_max(bwd_v_row(state, trans, l, tt, t), l))
    }
}

/// The marginal probability that position `t` carries label `y`: the forward
/// and backward masses of `(t, y)` with their scale factors reapplied, less
/// the log partition value, exponentiated.  Differences far below the range of
/// the fixed-point exponential are floored first; the result is zero either
/// way.
pub open spec fn marginal_spec(
    state: Seq<Seq<i64>>,
    trans: Seq<Seq<i64>>,
    l: int,
    tt: int,
    t: int,
    y: int,
) -> int {
    let la = fwd_ga_row(state, trans, l, t)[y] + scale_sum(state, trans, l, t + 1);
    let lb = bwd_gb_row(state, trans, l, tt, t)[y] + bscale_sum(state, trans, l, tt, t);
    let d0 = la + lb - log_z_spec(state, trans, l, tt);
    let d = if d0 > 0 {
        0int
    } else if d0 < -0x4000_0000_0000_0000 {
        -0x4000_0000_0000_0000
    } else {
        d0
    };
    exp_fx_spec(d)
}

/// Backward rows stay inside the saturation range, and rescaled rows are
/// non-positive and at least twice the saturation bound below zero.
pub proof fn lemma_bwd_rows_bound(
    state: Seq<Seq<i64>>,
    trans: Seq<Seq<i64>>,
    l: int,
    tt: int,
    t: int,
)
    requires
        1 <= l,
        0 <= t < tt,
        wf_matrix(state, state.len() as int, l, STATE_BOUND),
        wf_matrix(trans, l, l, WEIGHT_BOUND),
    ensures
        forall|y: int|
            0 <= y < l ==> -SAT_BOUND <= #[trigger] bwd_v_row(state, trans, l, tt, t)[y]
                <= SAT_BOUND,
        forall|y: int|
            0 <= y < l ==> -2 * SAT_BOUND <= #[trigger] bwd_gb_row(state, trans, l, tt, t)[y]
                <= 0,
        -SAT_BOUND <= row_max(bwd_v_row(state, trans, l, tt, t), l) <= SAT_BOUND,
{
    let v = bwd_v_row(state, trans, l, tt, t);
    assert forall|y: int| 0 <= y < l implies -SAT_BOUND <= #[trigger] v[y] <= SAT_BOUND by {
        if t >= tt - 1 {
            assert(v[y] == 0);
        }
    }
    lemma_row_max(v, l);
    let w = choose|p: int| 0 <= p < l && #[trigger] v[p] == row_max(v, l);
}

/// The row maximum dominates every entry and is attained by one of them.
pub proof fn lemma_row_max(xs: Seq<int>, l: int)
    requires
        1 <= l <= xs.len(),
    ensures
        forall|p: int| 0 <= p < l ==> #[trigger] xs[p] <= row_max(xs, l),
        exists|p: int| 0 <= p < l && #[trigger] xs[p] == row_max(xs, l),
    decreases l,
{
    if l <= 1 {
        assert(xs[0] == row_max(xs, l));
    } else {
        lemma_row_max(xs, l - 1);
        if xs[l - 1] > row_max(xs, l - 1) {
            assert(xs[l - 1] == row_max(xs, l));
        } else {
            let p = choose|p: int| 0 <= p < l - 1 && #[trigger] xs[p] == row_max(xs, l - 1);
            assert(xs[p] == row_max(xs, l));
        }
    }
}

/// Each summand of `sum_exp` lies in `[0, SCALE]`, so the sum lies in
/// `[0, l * SCALE]`.
pub proof fn lemma_sum_exp_bounds(xs: Seq<int>, mx: int, l: int)
    requires
        0 <= l <= xs.len(),
        forall|p: int| 0 <= p < l ==> #[trigger] xs[p] <= mx,
    ensures
        0 <= sum_exp(xs, mx, l) <= l * SCALE,
    decreases l,
{
    if l > 0 {
        lemma_sum_exp_bounds(xs, mx, l - 1);
        crate::fixed::lemma_exp_fx_spec_range(xs[l - 1] - mx);
    }
}

/// When some entry attains the shift, its exponential alone contributes one
/// whole unit, so the sum is at least `SCALE`.
pub proof fn lemma_sum_exp_attained(xs: Seq<int>, mx: int, l: int, w: int)
    requires
        0 <= w < l <= xs.len(),
        xs[w] == mx,
        forall|p: int| 0 <= p < l ==> #[trigger] xs[p] <= mx,
    ensures
        sum_exp(xs, mx, l) >= SCALE,
    decreases l,
{
    if w == l - 1 {
        lemma_sum_exp_bounds(xs, mx, l - 1);
        crate::fixed::lemma_exp_fx_spec_range(0);
    } else {
        lemma_sum_exp_attained(xs, mx, l - 1, w);
        crate::fixed::lemma_exp_fx_spec_range(xs[l - 1] - mx);
    }
}

/// Forward rows stay inside the saturation range, and rescaled rows are
/// non-positive and at least twice the saturation bound below zero.
pub proof fn lemma_fwd_rows_bound(state: Seq<Seq<i64>>, trans: Seq<Seq<i64>>, l: int, t: int)
    requires
        1 <= l,
        0 <= t < state.len(),
        wf_matrix(state, state.len() as int, l, STATE_BOUND),
        wf_matrix(trans, l, l, WEIGHT_BOUND),
    ensures
        forall|y: int|
            0 <= y < l ==> -SAT_BOUND <= #[trigger] fwd_v_row(state, trans, l, t)[y]
                <= SAT_BOUND,
        forall|y: int|
            0 <= y < l ==> -2 * SAT_BOUND <= #[trigger] fwd_ga_row(state, trans, l, t)[y] <= 0,
        -SAT_BOUND <= row_max(fwd_v_row(state, trans, l, t), l) <= SAT_BOUND,
{
    let v = fwd_v_row(state, trans, l, t);
    assert forall|y: int| 0 <= y < l implies -SAT_BOUND <= #[trigger] v[y] <= SAT_BOUND by {
        if t <= 0 {
            assert(v[y] == state[0][y] as int);
        }
    }
    lemma_row_max(v, l);
    let w = choose|p: int| 0 <= p < l && #[trigger] v[p] == row_max(v, l);
    assert(-SAT_BOUND <= row_max(v, l) <= SAT_BOUND);
}

/// A row of fixed-point scores as mathematical integers.
pub open spec fn row_view(v: Seq<i64>) -> Seq<int> {
    v.map_values(|x: i64| x as int)
}

/// A label sequence as mathematical integers.
pub open spec fn path_view(p: Seq<usize>) -> Seq<int> {
    p.map_values(|x: usize| x as int)
}

/// Indexing a matrix view reaches the underlying vector rows.
pub proof fn lemma_rows_bridge(m: Vec<Vec<i64>>)
    ensures
        rows(m).len() == m@.len(),
        forall|i: int| 0 <= i < m@.len() ==> rows(m)[i] == #[trigger] m@[i]@,
{
}

/// Indexing a row view reaches the underlying fixed-point entries.
pub proof fn lemma_row_view_bridge(v: Seq<i64>)
    ensures
        row_view(v).len() == v.len(),
        forall|i: int| 0 <= i < v.len() ==> row_view(v)[i] == #[trigger] v[i] as int,
{
}

/// Indexing a path view reaches the underlying labels.
pub proof fn lemma_path_view_bridge(p: Seq<usize>)
    ensures
        path_view(p).len() == p.len(),
        forall|i: int| 0 <= i < p.len() ==> path_view(p)[i] == #[trigger] p[i] as int,
{
}

/// The per-sequence scoring lattice: one state-score row per position and one
/// shared transition matrix, both in the fixed-point log domain.  A Context is
/// built for one instance, queried, and discarded.
pub struct Context {
    pub num_labels: usize,
    pub state: Vec<Vec<i64>>,
    pub trans: Vec<Vec<i64>>,
    pub alpha: Vec<Vec<i64>>,
    pub scale: Vec<i64>,
    pub beta: Vec<Vec<i64>>,
    pub bscale: Vec<i64>,
}

impl Context {
    /// Number of labels in the alphabet.
    pub open spec fn l(&self) -> int {
        self.num_labels as int
    }

    /// Number of positions in the scored sequence.
    pub open spec fn t(&self) -> int {
        self.state@.len() as int
    }

    /// The state-score matrix as mathematical rows.
    pub open spec fn st(&self) -> Seq<Seq<i64>> {
        rows(self.state)
    }

    /// The transition matrix as mathematical rows.
    pub open spec fn tr(&self) -> Seq<Seq<i64>> {
        rows(self.trans)
    }

    /// A well-formed lattice: a non-empty alphabet within the admitted sizes,
    /// and score matrices of the right shape with bounded entries.
    pub open spec fn wf(&self) -> bool {
        &&& 1 <= self.num_labels <= MAX_LABELS
        &&& self.st().len() <= MAX_SEQ
        &&& wf_matrix(self.st(), self.t(), self.l(), STATE_BOUND)
        &&& wf_matrix(self.tr(), self.l(), self.l(), WEIGHT_BOUND)
    }

    pub fn new(num_labels: usize, state: Vec<Vec<i64>>, trans: Vec<Vec<i64>>) -> (c: Context)
        requires
            1 <= num_labels <= MAX_LABELS,
            state@.len() <= MAX_SEQ,
            wf_matrix(rows(state), state@.len() as int, num_labels as int, STATE_BOUND),
            wf_matrix(rows(trans), num_labels as int, num_labels as int, WEIGHT_BOUND),
        ensures
            c.wf(),
            c.num_labels == num_labels,
            c.st() == rows(state),
            c.tr() == rows(trans),
    {
        Context {
            num_labels,
            state,
            trans,
            alpha: Vec::new(),
            scale: Vec::new(),
            beta: Vec::new(),
            bscale: Vec::new(),
        }
    }

    /// Viterbi decode: the highest-scoring label sequence for this lattice,
    /// and its score.  Ties are broken toward the first-encountered maximum,
    /// so the lowest label id wins.  The score is maximal over every label
    /// sequence of this length, and the returned path attains it.
    pub fn viterbi(&self) -> (r: (Vec<usize>, i64))
        requires
            self.wf(),
        ensures
            r.0@.len() == self.t(),
            forall|i: int| 0 <= i < self.t() ==> #[trigger] r.0@[i] < self.num_labels,
            self.t() == 0 ==> r.1 == 0,
            self.t() > 0 ==> path_view(r.0@) == vit_path(self.st(), self.tr(), self.l(), self.t()),
            r.1 == path_score(self.st(), self.tr(), path_view(r.0@)),
            forall|ys: Seq<int>|
                valid_path(ys, self.t(), self.l()) ==> path_score(self.st(), self.tr(), ys)
                    <= r.1,
    {
        let tt = self.state.len();
        let l = self.num_labels;
        let ghost st = self.st();
        let ghost tr = self.tr();
        if tt == 0 {
            let out: Vec<usize> = Vec::new();
            proof {
                assert(path_view(out@) =~= Seq::<int>::empty());
            }
            return (out, 0);
        }
        // forward pass: row 0 of the dynamic program
        let mut prev: Vec<i64> = Vec::new();
        for y in 0..l
            invariant
                self.wf(),
                l == self.num_labels,
                0 < tt == self.t(),
                prev@.len() == y,
                forall|j: int| 0 <= j < y ==> prev@[j] == self.st()[0][j],
        {
            proof {
                lemma_rows_bridge(self.state);
            }
            prev.push(self.state[0][y]);
        }
        proof {
            lemma_row_view_bridge(prev@);
            lemma_rows_bridge(self.state);
            assert(row_view(prev@) =~= vit_row(st, tr, l as int, 0));
        }
        // forward pass: later rows, recording a backpointer per cell
        let mut bp: Vec<Vec<usize>> = Vec::new();
        let mut t: usize = 1;
        while t < tt
            invariant
                self.wf(),
                l == self.num_labels,
                0 < tt == self.t(),
                st == self.st(),
                tr == self.tr(),
                1 <= t <= tt,
                prev@.len() == l,
                row_view(prev@) == vit_row(st, tr, l as int, t - 1),
                bp@.len() == t - 1,
                forall|u: int| 0 <= u < t - 1 ==> (#[trigger] bp@[u])@.len() == l,
                forall|u: int, y: int|
                    0 <= u < t - 1 && 0 <= y < l ==> (#[trigger] bp@[u]@[y]) as int
                        == best_prev_arg(vit_row(st, tr, l as int, u), tr, y, l as int),
            decreases tt - t,
        {
            proof {
                lemma_rows_bridge(self.state);
                lemma_rows_bridge(self.trans);
                lemma_row_view_bridge(prev@);
                lemma_vit_row_bound(st, tr, l as int, t - 1);
            }
            let mut cur: Vec<i64> = Vec::new();
            let mut bprow: Vec<usize> = Vec::new();
            for y in 0..l
                invariant
                    self.wf(),
                    l == self.num_labels,
                    0 < tt == self.t(),
                    st == self.st(),
                    tr == self.tr(),
                    1 <= t < tt,
                    prev@.len() == l,
                    row_view(prev@) == vit_row(st, tr, l as int, t - 1),
                    forall|j: int|
                        0 <= j < l ==> -1000 * CELL_BOUND <= #[trigger] prev@[j]
                            <= 1000 * CELL_BOUND,
                    cur@.len() == y,
                    bprow@.len() == y,
                    forall|j: int|
                        0 <= j < y ==> #[trigger] cur@[j] as int == vit_row(
                            st,
                            tr,
                            l as int,
                            t as int,
                        )[j],
                    forall|j: int|
                        0 <= j < y ==> (#[trigger] bprow@[j]) as int == best_prev_arg(
                            vit_row(st, tr, l as int, t - 1),
                            tr,
                            j,
                            l as int,
                        ),
            {
                let ghost prow = vit_row(st, tr, l as int, t - 1);
                proof {
                    lemma_rows_bridge(self.state);
                    lemma_rows_bridge(self.trans);
                    lemma_row_view_bridge(prev@);
                }
                let mut best: i64 = prev[0] + self.trans[0][y];
                let mut arg: usize = 0;
                for p in 1..l
                    invariant
                        self.wf(),
                        l == self.num_labels,
                        st == self.st(),
                        tr == self.tr(),
                        1 <= t < tt == self.t(),
                        0 <= y < l,
                        prev@.len() == l,
                        row_view(prev@) == prow,
                        prow == vit_row(st, tr, l as int, t - 1),
                        forall|j: int|
                            0 <= j < l ==> -1000 * CELL_BOUND <= #[trigger] prev@[j]
                                <= 1000 * CELL_BOUND,
                        1 <= p <= l,
                        arg < l,
                        best as int == best_prev_score(prow, tr, y as int, p as int),
                        arg as int == best_prev_arg(prow, tr, y as int, p as int),
                {
                    proof {
                        lemma_rows_bridge(self.trans);
                        lemma_row_view_bridge(prev@);
                    }
                    let cand = prev[p] + self.trans[p][y];
                    if cand > best {
                        best = cand;
                        arg = p;
                    }
                }
                proof {
                    lemma_rows_bridge(self.state);
                    lemma_row_view_bridge(prev@);
                    lemma_best_prev(prow, tr, y as int, l as int);
                }
                let val = best + self.state[t][y];
                cur.push(val);
                bprow.push(arg);
            }
            proof {
                lemma_row_view_bridge(cur@);
                assert(row_view(cur@) =~= vit_row(st, tr, l as int, t as int));
            }
            prev = cur;
            bp.push(bprow);
            t = t + 1;
        }
        // first-encountered maximum of the last row
        proof {
            lemma_vit_row_bound(st, tr, l as int, tt - 1);
        }
        let ghost lastrow = vit_row(st, tr, l as int, tt - 1);
        let mut last: usize = 0;
        for p in 1..l
            invariant
                self.wf(),
                l == self.num_labels,
                0 < tt == self.t(),
                st == self.st(),
                tr == self.tr(),
                prev@.len() == l,
                row_view(prev@) == lastrow,
                lastrow == vit_row(st, tr, l as int, tt - 1),
                last < l,
                last as int == best_last(lastrow, p as int),
        {
            proof {
                lemma_row_view_bridge(prev@);
            }
            if prev[p] > prev[last] {
                last = p;
            }
        }
        let score: i64 = prev[last];
        // backtrack along the recorded pointers
        let ghost full = vit_path(st, tr, l as int, tt as int);
        proof {
            lemma_best_last(lastrow, l as int);
            lemma_vit_path_exact(st, tr, l as int, tt - 1, last as int);
            assert(full.take(tt as int) =~= full);
        }
        let mut out: Vec<usize> = Vec::new();
        for i in 0..tt
            invariant
                out@.len() == i,
                forall|j: int| 0 <= j < i ==> (#[trigger] out@[j]) == 0,
        {
            out.push(0);
        }
        let mut cur_y: usize = last;
        proof {
            lemma_row_view_bridge(prev@);
            assert(last as int == best_last(lastrow, l as int));
            assert(full[tt - 1] == best_last(lastrow, l as int));
        }
        out.set(tt - 1, last);
        let mut u: usize = tt - 1;
        while u >= 1
            invariant
                self.wf(),
                l == self.num_labels,
                0 < tt == self.t(),
                st == self.st(),
                tr == self.tr(),
                full == vit_path(st, tr, l as int, tt as int),
                full.len() == tt,
                valid_path(full, tt as int, l as int),
                bp@.len() == tt - 1,
                forall|w: int| 0 <= w < tt - 1 ==> (#[trigger] bp@[w])@.len() == l,
                forall|w: int, y: int|
                    0 <= w < tt - 1 && 0 <= y < l ==> (#[trigger] bp@[w]@[y]) as int
                        == best_prev_arg(vit_row(st, tr, l as int, w), tr, y, l as int),
                u < tt,
                cur_y < l,
                cur_y as int == full[u as int],
                vit_path_to(st, tr, l as int, u as int, cur_y as int) == full.take(u + 1),
                out@.len() == tt,
                forall|i: int| u <= i < tt ==> (#[trigger] out@[i]) as int == full[i],
                forall|i: int| 0 <= i < tt ==> (#[trigger] out@[i]) < l,
            decreases u,
        {
            let ghost prow = vit_row(st, tr, l as int, u - 1);
            proof {
                lemma_best_prev(prow, tr, cur_y as int, l as int);
            }
            let a: usize = bp[u - 1][cur_y];
            proof {
                let ghost ai = best_prev_arg(prow, tr, cur_y as int, l as int);
                lemma_vit_path_exact(st, tr, l as int, u - 1, ai);
                assert(vit_path_to(st, tr, l as int, u as int, cur_y as int)
                    == vit_path_to(st, tr, l as int, u - 1, ai).push(cur_y as int));
                assert(vit_path_to(st, tr, l as int, u - 1, ai) =~= full.take(u as int)) by {
                    assert(full.take(u + 1).drop_last() =~= full.take(u as int));
                    assert(vit_path_to(st, tr, l as int, u - 1, ai).push(cur_y as int).drop_last()
                        =~= vit_path_to(st, tr, l as int, u - 1, ai));
                }
                assert(vit_path_to(st, tr, l as int, u - 1, ai)[u - 1] == ai);
                assert(full[u - 1] == ai);
            }
            out.set(u - 1, a);
            cur_y = a;
            u = u - 1;
        }
        proof {
            lemma_path_view_bridge(out@);
            assert(path_view(out@) =~= full);
            // the decoded path scores exactly its final Viterbi cell
            lemma_vit_path_exact(st, tr, l as int, tt - 1, best_last(lastrow, l as int));
            assert(score as int == path_score(st, tr, path_view(out@)));
            // and no valid sequence scores above it
            assert forall|ys: Seq<int>|
                valid_path(ys, tt as int, l as int) implies path_score(st, tr, ys)
                <= score as int by {
                lemma_vit_row_optimal(st, tr, l as int, tt - 1, ys);
                lemma_best_last(lastrow, l as int);
            }
        }
        (out, score)
    }

    /// Clamp a fixed-point value into the saturation range.
    fn sat_i64(x: i64) -> (r: i64)
        ensures
            r as int == sat(x as int),
    {
        if x < -SAT_BOUND {
            -SAT_BOUND
        } else if x > SAT_BOUND {
            SAT_BOUND
        } else {
            x
        }
    }

    /// Fixed-point log-sum-exp of a row: the row is shifted by its maximum so
    /// the exponentials stay in range, then summed and taken back through the
    /// logarithm.
    fn lse(xs: &Vec<i64>) -> (r: i64)
        requires
            1 <= xs@.len() <= MAX_LABELS,
            forall|i: int|
                0 <= i < xs@.len() ==> -LSE_ARG_BOUND <= #[trigger] xs@[i] <= LSE_ARG_BOUND,
        ensures
            r as int == lse_spec(row_view(xs@), xs@.len() as int),
            row_max(row_view(xs@), xs@.len() as int) <= r as int <= row_max(
                row_view(xs@),
                xs@.len() as int,
            ) + LN_OUT_BOUND,
    {
        let n = xs.len();
        let mut mx: i64 = xs[0];
        proof {
            lemma_row_view_bridge(xs@);
        }
        for p in 1..n
            invariant
                n == xs@.len(),
                1 <= n <= MAX_LABELS,
                forall|i: int|
                    0 <= i < n ==> -LSE_ARG_BOUND <= #[trigger] xs@[i] <= LSE_ARG_BOUND,
                1 <= p <= n,
                mx as int == row_max(row_view(xs@), p as int),
                -LSE_ARG_BOUND <= mx <= LSE_ARG_BOUND,
        {
            proof {
                lemma_row_view_bridge(xs@);
            }
            if xs[p] > mx {
                mx = xs[p];
            }
        }
        proof {
            lemma_row_max(row_view(xs@), n as int);
            lemma_row_view_bridge(xs@);
        }
        let mut sum: i64 = 0;
        for i in 0..n
            invariant
                n == xs@.len(),
                1 <= n <= MAX_LABELS,
                forall|j: int|
                    0 <= j < n ==> -LSE_ARG_BOUND <= #[trigger] xs@[j] <= LSE_ARG_BOUND,
                forall|j: int| 0 <= j < n ==> #[trigger] row_view(xs@)[j] <= mx as int,
                -LSE_ARG_BOUND <= mx <= LSE_ARG_BOUND,
                mx as int == row_max(row_view(xs@), n as int),
                sum as int == sum_exp(row_view(xs@), mx as int, i as int),
                0 <= sum <= i * (SCALE as int),
        {
            proof {
                lemma_row_view_bridge(xs@);
            }
            let e = crate::fixed::exp_fx(xs[i] - mx);
            sum = sum + e;
        }
        proof {
            let xv = row_view(xs@);
            let w = choose|p: int| 0 <= p < n && #[trigger] xv[p] == mx as int;
            lemma_sum_exp_attained(xv, mx as int, n as int, w);
        }
        let lnv = crate::fixed::ln_fx(sum);
        mx + lnv
    }

    /// Whether the forward pass has filled the alpha matrix and scale factors
    /// for this lattice.
    pub open spec fn forward_done(&self) -> bool {
        &&& self.alpha@.len() == self.t()
        &&& self.scale@.len() == self.t()
        &&& forall|t: int|
            0 <= t < self.t() ==> row_view((#[trigger] self.alpha@[t])@) == fwd_ga_row(
                self.st(),
                self.tr(),
                self.l(),
                t,
            )
        &&& forall|t: int|
            0 <= t < self.t() ==> (#[trigger] self.scale@[t]) as int == row_max(
                fwd_v_row(self.st(), self.tr(), self.l(), t),
                self.l(),
            )
    }

    /// Forward pass: fills one rescaled log-domain row per position and the
    /// scale factor (the row maximum) taken out of each.
    pub fn forward(&mut self)
        requires
            old(self).wf(),
        ensures
            final(self).wf(),
            final(self).num_labels == old(self).num_labels,
            final(self).state@ == old(self).state@,
            final(self).trans@ == old(self).trans@,
            final(self).forward_done(),
    {
        let tt = self.state.len();
        let l = self.num_labels;
        let ghost st = self.st();
        let ghost tr = self.tr();
        let mut alpha: Vec<Vec<i64>> = Vec::new();
        let mut scale: Vec<i64> = Vec::new();
        let mut t: usize = 0;
        while t < tt
            invariant
                self.wf(),
                l == self.num_labels,
                tt == self.t(),
                st == self.st(),
                tr == self.tr(),
                t <= tt,
                alpha@.len() == t,
                scale@.len() == t,
                forall|u: int|
                    0 <= u < t ==> row_view((#[trigger] alpha@[u])@) == fwd_ga_row(
                        st,
                        tr,
                        l as int,
                        u,
                    ),
                forall|u: int|
                    0 <= u < t ==> (#[trigger] alpha@[u])@.len() == l,
                forall|u: int|
                    0 <= u < t ==> (#[trigger] scale@[u]) as int == row_max(
                        fwd_v_row(st, tr, l as int, u),
                        l as int,
                    ),
            decreases tt - t,
        {
            proof {
                lemma_rows_bridge(self.state);
                lemma_rows_bridge(self.trans);
                if t >= 1 {
                    lemma_fwd_rows_bound(st, tr, l as int, t - 1);
                }
            }
            // the unscaled row for this position
            let mut v: Vec<i64> = Vec::new();
            if t == 0 {
                for y in 0..l
                    invariant
                        self.wf(),
                        l == self.num_labels,
                        0 < tt == self.t(),
                        st == self.st(),
                        v@.len() == y,
                        forall|j: int| 0 <= j < y ==> #[trigger] v@[j] == st[0][j],
                {
                    proof {
                        lemma_rows_bridge(self.state);
                    }
                    v.push(self.state[0][y]);
                }
                proof {
                    lemma_row_view_bridge(v@);
                    assert(row_view(v@) =~= fwd_v_row(st, tr, l as int, 0));
                }
            } else {
                let ghost ga_prev = fwd_ga_row(st, tr, l as int, t - 1);
                for y in 0..l
                    invariant
                        self.wf(),
                        l == self.num_labels,
                        1 <= t < tt == self.t(),
                        st == self.st(),
                        tr == self.tr(),
                        alpha@.len() == t,
                        (#[trigger] alpha@[t - 1])@.len() == l,
                        row_view(alpha@[t - 1]@) == ga_prev,
                        ga_prev == fwd_ga_row(st, tr, l as int, t - 1),
                        forall|p: int| 0 <= p < l ==> -2 * SAT_BOUND <= #[trigger] ga_prev[p] <= 0,
                        v@.len() == y,
                        forall|j: int|
                            0 <= j < y ==> #[trigger] v@[j] as int == fwd_v_row(
                                st,
                                tr,
                                l as int,
                                t as int,
                            )[j],
                {
                    let mut args: Vec<i64> = Vec::new();
                    for p in 0..l
                        invariant
                            self.wf(),
                            l == self.num_labels,
                            1 <= t < tt == self.t(),
                            tr == self.tr(),
                            0 <= y < l,
                            alpha@.len() == t,
                            (#[trigger] alpha@[t - 1])@.len() == l,
                            row_view(alpha@[t - 1]@) == ga_prev,
                            forall|j: int|
                                0 <= j < l ==> -2 * SAT_BOUND <= #[trigger] ga_prev[j] <= 0,
                            args@.len() == p,
                            forall|j: int|
                                0 <= j < p ==> #[trigger] args@[j] as int == ga_prev[j] + tr[j][
                                    y as int
                                ],
                    {
                        proof {
                            lemma_rows_bridge(self.trans);
                            lemma_row_view_bridge(alpha@[t - 1]@);
                        }
                        args.push(alpha[t - 1][p] + self.trans[p][y]);
                    }
                    proof {
                        lemma_row_view_bridge(args@);
                        assert(row_view(args@) =~= Seq::new(
                            l as nat,
                            |p: int| ga_prev[p] + tr[p][y as int],
                        ));
                    }
                    let e = Self::lse(&args);
                    proof {
                        lemma_rows_bridge(self.state);
                        lemma_row_max(row_view(args@), l as int);
                    }
                    let val = Self::sat_i64(self.state[t][y] + e);
                    v.push(val);
                }
                proof {
                    lemma_row_view_bridge(v@);
                    assert(row_view(v@) =~= fwd_v_row(st, tr, l as int, t as int));
                }
            }
            proof {
                lemma_fwd_rows_bound(st, tr, l as int, t as int);
                lemma_row_view_bridge(v@);
            }
            // the scale factor is the row maximum; take it out of the row
            let mut rmax: i64 = v[0];
            for p in 1..l
                invariant
                    v@.len() == l,
                    1 <= l,
                    row_view(v@) == fwd_v_row(st, tr, l as int, t as int),
                    forall|j: int| 0 <= j < l ==> -SAT_BOUND <= #[trigger] v@[j] <= SAT_BOUND,
                    1 <= p <= l,
                    rmax as int == row_max(row_view(v@), p as int),
                    -SAT_BOUND <= rmax <= SAT_BOUND,
            {
                proof {
                    lemma_row_view_bridge(v@);
                }
                if v[p] > rmax {
                    rmax = v[p];
                }
            }
            let mut ga: Vec<i64> = Vec::new();
            for y in 0..l
                invariant
                    v@.len() == l,
                    1 <= l,
                    row_view(v@) == fwd_v_row(st, tr, l as int, t as int),
                    forall|j: int| 0 <= j < l ==> -SAT_BOUND <= #[trigger] v@[j] <= SAT_BOUND,
                    -SAT_BOUND <= rmax <= SAT_BOUND,
                    rmax as int == row_max(row_view(v@), l as int),
                    ga@.len() == y,
                    forall|j: int|
                        0 <= j < y ==> #[trigger] ga@[j] as int == fwd_ga_row(
                            st,
                            tr,
                            l as int,
                            t as int,
                        )[j],
            {
                proof {
                    lemma_row_view_bridge(v@);
                }
                ga.push(v[y] - rmax);
            }
            proof {
                lemma_row_view_bridge(ga@);
                assert(row_view(ga@) =~= fwd_ga_row(st, tr, l as int, t as int));
            }
            alpha.push(ga);
            scale.push(rmax);
            t = t + 1;
        }
        self.alpha = alpha;
        self.scale = scale;
    }

    /// The log partition value `log Z`: the clamped sum of the scale factors
    /// plus the logarithm of the summed final forward row.  Zero for an empty
    /// lattice, so the empty sequence has probability one.
    pub fn log_partition(&self) -> (r: i64)
        requires
            self.wf(),
            self.forward_done(),
        ensures
            r as int == log_z_spec(self.st(), self.tr(), self.l(), self.t()),
            -SAT_BOUND <= r as int <= 2 * SAT_BOUND,
    {
        let tt = self.state.len();
        let l = self.num_labels;
        let ghost st = self.st();
        let ghost tr = self.tr();
        if tt == 0 {
            return 0;
        }
        let mut acc: i64 = 0;
        for t in 0..tt
            invariant
                self.wf(),
                self.forward_done(),
                l == self.num_labels,
                0 < tt == self.t(),
                st == self.st(),
                tr == self.tr(),
                acc as int == scale_sum(st, tr, l as int, t as int),
                -SAT_BOUND <= acc <= SAT_BOUND,
        {
            proof {
                lemma_fwd_rows_bound(st, tr, l as int, t as int);
            }
            acc = Self::sat_i64(acc + self.scale[t]);
        }
        // sum the exponentials of the final rescaled row
        let ghost ga_last = fwd_ga_row(st, tr, l as int, tt - 1);
        proof {
            lemma_fwd_rows_bound(st, tr, l as int, tt - 1);
        }
        let mut sum: i64 = 0;
        for i in 0..l
            invariant
                self.wf(),
                self.forward_done(),
                l == self.num_labels,
                0 < tt == self.t(),
                st == self.st(),
                tr == self.tr(),
                ga_last == fwd_ga_row(st, tr, l as int, tt - 1),
                forall|j: int| 0 <= j < l ==> -2 * SAT_BOUND <= #[trigger] ga_last[j] <= 0,
                sum as int == sum_exp(ga_last, 0, i as int),
                0 <= sum <= i * (SCALE as int),
        {
            proof {
                lemma_row_view_bridge(self.alpha@[tt - 1]@);
            }
            let e = crate::fixed::exp_fx(self.alpha[tt - 1][i]);
            sum = sum + e;
        }
        proof {
            let v = fwd_v_row(st, tr, l as int, tt - 1);
            lemma_row_max(v, l as int);
            let w = choose|p: int| 0 <= p < l && #[trigger] v[p] == row_max(v, l as int);
            assert(ga_last[w] == 0);
            lemma_sum_exp_attained(ga_last, 0, l as int, w);
        }
        let lnv = crate::fixed::ln_fx(sum);
        Self::sat_i64(acc + lnv)
    }

/// Whether the backward pass has filled the beta matrix and its scale
    /// factors for this lattice.
    pub open spec fn backward_done(&self) -> bool {
        &&& self.beta@.len() == self.t()
        &&& self.bscale@.len() == self.t()
        &&& forall|t: int|
            0 <= t < self.t() ==> row_view((#[trigger] self.beta@[t])@) == bwd_gb_row(
                self.st(),
                self.tr(),
                self.l(),
                self.t(),
                t,
            )
        &&& forall|t: int|
            0 <= t < self.t() ==> (#[trigger] self.bscale@[t]) as int == row_max(
                bwd_v_row(self.st(), self.tr(), self.l(), self.t(), t),
                self.l(),
            )
    }

    /// Backward pass: fills one rescaled log-domain row per position, from the
    /// last position towards the first, and the scale factor taken out of each
    /// row.
    pub fn backward(&mut self)
        requires
            old(self).wf(),
        ensures
            final(self).wf(),
            final(self).num_labels == old(self).num_labels,
            final(self).state@ == old(self).state@,
            final(self).trans@ == old(self).trans@,
            final(self).alpha@ == old(self).alpha@,
            final(self).scale@ == old(self).scale@,
            final(self).backward_done(),
    {
        let tt = self.state.len();
        let l = self.num_labels;
        let ghost st = self.st();
        let ghost tr = self.tr();
        let mut beta: Vec<Vec<i64>> = Vec::new();
        let mut bscale: Vec<i64> = Vec::new();
        for i in 0..tt
            invariant
                beta@.len() == i,
                bscale@.len() == i,
        {
            beta.push(Vec::new());
            bscale.push(0);
        }
        let mut t: usize = tt;
        while t > 0
            invariant
                self.wf(),
                l == self.num_labels,
                tt == self.t(),
                st == self.st(),
                tr == self.tr(),
                t <= tt,
                beta@.len() == tt,
                bscale@.len() == tt,
                forall|u: int|
                    t <= u < tt ==> row_view((#[trigger] beta@[u])@) == bwd_gb_row(
                        st,
                        tr,
                        l as int,
                        tt as int,
                        u,
                    ),
                forall|u: int| t <= u < tt ==> (#[trigger] beta@[u])@.len() == l,
                forall|u: int|
                    t <= u < tt ==> (#[trigger] bscale@[u]) as int == row_max(
                        bwd_v_row(st, tr, l as int, tt as int, u),
                        l as int,
                    ),
            decreases t,
        {
            let ti = t - 1;
            proof {
                lemma_rows_bridge(self.state);
                lemma_rows_bridge(self.trans);
                if ti + 1 < tt {
                    lemma_bwd_rows_bound(st, tr, l as int, tt as int, ti + 1);
                }
            }
            // the unscaled row for this position
            let mut v: Vec<i64> = Vec::new();
            if ti == tt - 1 {
                for y in 0..l
                    invariant
                        v@.len() == y,
                        forall|j: int| 0 <= j < y ==> #[trigger] v@[j] == 0i64,
                {
                    v.push(0);
                }
                proof {
                    lemma_row_view_bridge(v@);
                    assert(row_view(v@) =~= bwd_v_row(st, tr, l as int, tt as int, ti as int));
                }
            } else {
                let ghost gb_next = bwd_gb_row(st, tr, l as int, tt as int, ti + 1);
                for y in 0..l
                    invariant
                        self.wf(),
                        l == self.num_labels,
                        tt == self.t(),
                        st == self.st(),
                        tr == self.tr(),
                        t == ti + 1,
                        1 <= t < tt,
                        beta@.len() == tt,
                        (#[trigger] beta@[ti + 1])@.len() == l,
                        row_view(beta@[ti + 1]@) == gb_next,
                        gb_next == bwd_gb_row(st, tr, l as int, tt as int, ti + 1),
                        forall|p: int| 0 <= p < l ==> -2 * SAT_BOUND <= #[trigger] gb_next[p] <= 0,
                        v@.len() == y,
                        forall|j: int|
                            0 <= j < y ==> #[trigger] v@[j] as int == bwd_v_row(
                                st,
                                tr,
                                l as int,
                                tt as int,
                                ti as int,
                            )[j],
                {
                    let mut args: Vec<i64> = Vec::new();
                    for p in 0..l
                        invariant
                            self.wf(),
                            l == self.num_labels,
                            tt == self.t(),
                            st == self.st(),
                            tr == self.tr(),
                            t == ti + 1,
                            1 <= t < tt,
                            0 <= y < l,
                            beta@.len() == tt,
                            (#[trigger] beta@[ti + 1])@.len() == l,
                            row_view(beta@[ti + 1]@) == gb_next,
                            forall|j: int|
                                0 <= j < l ==> -2 * SAT_BOUND <= #[trigger] gb_next[j] <= 0,
                            args@.len() == p,
                            forall|j: int|
                                0 <= j < p ==> #[trigger] args@[j] as int == tr[y as int][j] + st[
                                    ti + 1
                                ][j] + gb_next[j],
                    {
                        proof {
                            lemma_rows_bridge(self.state);
                            lemma_rows_bridge(self.trans);
                            lemma_row_view_bridge(beta@[ti + 1]@);
                        }
                        args.push(self.trans[y][p] + self.state[ti + 1][p] + beta[ti + 1][p]);
                    }
                    proof {
                        lemma_row_view_bridge(args@);
                        assert(row_view(args@) =~= Seq::new(
                            l as nat,
                            |p: int| tr[y as int][p] + st[ti + 1][p] + gb_next[p],
                        ));
                    }
                    let e = Self::lse(&args);
                    proof {
                        lemma_row_max(row_view(args@), l as int);
                    }
                    let val = Self::sat_i64(e);
                    v.push(val);
                }
                proof {
                    lemma_row_view_bridge(v@);
                    assert(row_view(v@) =~= bwd_v_row(st, tr, l as int, tt as int, ti as int));
                }
            }
            proof {
                lemma_bwd_rows_bound(st, tr, l as int, tt as int, ti as int);
                lemma_row_view_bridge(v@);
            }
            // the scale factor is the row maximum; take it out of the row
            let mut rmax: i64 = v[0];
            for p in 1..l
                invariant
                    v@.len() == l,
                    1 <= l,
                    row_view(v@) == bwd_v_row(st, tr, l as int, tt as int, ti as int),
                    forall|j: int| 0 <= j < l ==> -SAT_BOUND <= #[trigger] v@[j] <= SAT_BOUND,
                    1 <= p <= l,
                    rmax as int == row_max(row_view(v@), p as int),
                    -SAT_BOUND <= rmax <= SAT_BOUND,
            {
                proof {
                    lemma_row_view_bridge(v@);
                }
                if v[p] > rmax {
                    rmax = v[p];
                }
            }
            let mut gb: Vec<i64> = Vec::new();
            for y in 0..l
                invariant
                    v@.len() == l,
                    1 <= l,
                    row_view(v@) == bwd_v_row(st, tr, l as int, tt as int, ti as int),
                    forall|j: int| 0 <= j < l ==> -SAT_BOUND <= #[trigger] v@[j] <= SAT_BOUND,
                    -SAT_BOUND <= rmax <= SAT_BOUND,
                    rmax as int == row_max(row_view(v@), l as int),
                    gb@.len() == y,
                    forall|j: int|
                        0 <= j < y ==> #[trigger] gb@[j] as int == bwd_gb_row(
                            st,
                            tr,
                            l as int,
                            tt as int,
                            ti as int,
                        )[j],
            {
                proof {
                    lemma_row_view_bridge(v@);
                }
                gb.push(v[y] - rmax);
            }
            proof {
                lemma_row_view_bridge(gb@);
                assert(row_view(gb@) =~= bwd_gb_row(st, tr, l as int, tt as int, ti as int));
            }
            beta.set(ti, gb);
            bscale.set(ti, rmax);
            t = ti;
        }
        self.beta = beta;
        self.bscale = bscale;
    }

    /// The marginal probability that position `t` carries label `y`, as a
    /// fixed-point value in `[0, SCALE]`: the forward and backward masses of
    /// `(t, y)` with their scale factors reapplied, less the log partition
    /// value, exponentiated.
    pub fn marginal(&self, t: usize, y: usize) -> (r: i64)
        requires
            self.wf(),
            self.forward_done(),
            self.backward_done(),
            t < self.t(),
            y < self.num_labels,
        ensures
            r as int == marginal_spec(self.st(), self.tr(), self.l(), self.t(), t as int, y as int),
            0 <= r <= SCALE,
    {
        let tt = self.state.len();
        let l = self.num_labels;
        let ghost st = self.st();
        let ghost tr = self.tr();
        // reapply the forward scale factors up to position t
        let mut acc: i64 = 0;
        for u in 0..(t + 1)
            invariant
                self.wf(),
                self.forward_done(),
                l == self.num_labels,
                tt == self.t(),
                t < tt,
                st == self.st(),
                tr == self.tr(),
                acc as int == scale_sum(st, tr, l as int, u as int),
                -SAT_BOUND <= acc <= SAT_BOUND,
        {
            proof {
                lemma_fwd_rows_bound(st, tr, l as int, u as int);
            }
            acc = Self::sat_i64(acc + self.scale[u]);
        }
        // reapply the backward scale factors from position t to the end
        let mut bacc: i64 = 0;
        let mut u: usize = tt;
        while u > t
            invariant
                self.wf(),
                self.backward_done(),
                l == self.num_labels,
                tt == self.t(),
                t < tt,
                t <= u <= tt,
                st == self.st(),
                tr == self.tr(),
                bacc as int == bscale_sum(st, tr, l as int, tt as int, u as int),
                -SAT_BOUND <= bacc <= SAT_BOUND,
            decreases u,
        {
            let un = u - 1;
            proof {
                lemma_bwd_rows_bound(st, tr, l as int, tt as int, un as int);
            }
            bacc = Self::sat_i64(bacc + self.bscale[un]);
            u = un;
        }
        proof {
            lemma_fwd_rows_bound(st, tr, l as int, t as int);
            lemma_bwd_rows_bound(st, tr, l as int, tt as int, t as int);
            lemma_row_view_bridge(self.alpha@[t as int]@);
            lemma_row_view_bridge(self.beta@[t as int]@);
        }
        let la = self.alpha[t][y] + acc;
        let lb = self.beta[t][y] + bacc;
        let logz = self.log_partition();
        let d0 = la + lb - logz;
        let d: i64 = if d0 > 0 {
            0
        } else if d0 < -0x4000_0000_0000_0000i64 {
            -0x4000_0000_0000_0000
        } else {
            d0
        };
        crate::fixed::exp_fx(d)
    }

    /// The total lattice score of a given label sequence: state scores along
    /// the path plus the transition between each adjacent pair.
    pub fn score_path(&self, ys: &Vec<usize>) -> (r: i64)
        requires
            self.wf(),
            ys@.len() == self.t(),
            forall|i: int| 0 <= i < ys@.len() ==> (#[trigger] ys@[i]) < self.num_labels,
        ensures
            r as int == path_score(self.st(), self.tr(), path_view(ys@)),
            -1000 * CELL_BOUND <= r as int <= 1000 * CELL_BOUND,
    {
        let tt = self.state.len();
        let ghost st = self.st();
        let ghost tr = self.tr();
        let ghost pv = path_view(ys@);
        proof {
            lemma_path_view_bridge(ys@);
        }
        if tt == 0 {
            return 0;
        }
        proof {
            lemma_rows_bridge(self.state);
        }
        let mut acc: i64 = self.state[0][ys[0]];
        for t in 1..tt
            invariant
                self.wf(),
                0 < tt == self.t(),
                st == self.st(),
                tr == self.tr(),
                ys@.len() == tt,
                forall|i: int| 0 <= i < tt ==> (#[trigger] ys@[i]) < self.num_labels,
                pv == path_view(ys@),
                acc as int == path_score_prefix(st, tr, pv, t as int),
                -(t as int) * CELL_BOUND <= acc as int <= (t as int) * CELL_BOUND,
        {
            proof {
                lemma_rows_bridge(self.state);
                lemma_rows_bridge(self.trans);
                lemma_path_view_bridge(ys@);
            }
            acc = acc + self.trans[ys[t - 1]][ys[t]] + self.state[t][ys[t]];
        }
        acc
    }

    /// The probability this lattice assigns to a label sequence, as a
    /// fixed-point value in `[0, SCALE]`: the exponential of the sequence
    /// score less the log partition value, capped at one unit.  An empty
    /// sequence has probability one.
    pub fn sequence_probability(&self, ys: &Vec<usize>) -> (r: i64)
        requires
            self.wf(),
            self.forward_done(),
            ys@.len() == self.t(),
            forall|i: int| 0 <= i < ys@.len() ==> (#[trigger] ys@[i]) < self.num_labels,
        ensures
            r as int == prob_spec(self.st(), self.tr(), self.l(), path_view(ys@)),
            0 <= r <= SCALE,
    {
        let tt = self.state.len();
        proof {
            lemma_path_view_bridge(ys@);
        }
        if tt == 0 {
            proof {
                assert(path_view(ys@).len() == 0);
            }
            return SCALE;
        }
        let score = self.score_path(ys);
        let logz = self.log_partition();
        let mut d: i64 = score - logz;
        if d > 0 {
            d = 0;
        }
        let r = crate::fixed::exp_fx(d);
        r
    }
}

} // verus!
