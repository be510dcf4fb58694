use vstd::prelude::*;

use crate::context::{path_view, vit_path, MAX_LABELS, MAX_SEQ};
use crate::data::{AttrVal, Dataset, Instance, Item, MAX_INSTANCES};
use crate::dict::Dictionary;
use crate::errors::CrfError;
use crate::features::{ds_state_count, ds_trans_count, FeatureCatalog, MAX_ATTRS};
use crate::fixed::{floor_div_i128, MAX_ITEM_ATTRS, SCALE, VALUE_BOUND, WEIGHT_BOUND};
use crate::model::{
    build_lattice, items_view, state_mat_of, trans_mat_of, weights_ok, Model,
};

verus! {

/// Largest number of passes a trainer admits.
pub const MAX_EPOCHS: usize = 1000;

/// Clamp a weight into the admitted range; updates saturate at the range edge.
pub open spec fn clamp_w(x: int) -> int {
    if x < -WEIGHT_BOUND {
        -WEIGHT_BOUND as int
    } else if x > WEIGHT_BOUND {
        WEIGHT_BOUND as int
    } else {
        x
    }
}

/// Add `delta` to one weight, saturating at the range edge.
pub open spec fn bump(w: Seq<i64>, idx: int, delta: int) -> Seq<i64> {
    w.update(idx, clamp_w(w[idx] + delta) as i64)
}

/// Apply one item's state-feature counts along label `y`, scaled by `sign`,
/// to the weight vector; features the catalog did not admit are skipped.
pub open spec fn upd_item(
    cat: FeatureCatalog,
    w: Seq<i64>,
    attrs: Seq<AttrVal>,
    y: int,
    k: int,
    sign: int,
) -> Seq<i64>
    decreases k,
{
    if k <= 0 {
        w
    } else {
        let w1 = upd_item(cat, w, attrs, y, k - 1, sign);
        let a = attrs[k - 1];
        if cat.has_state(y, a.id as int) {
            bump(w1, cat.state_index(y, a.id as int), sign * a.value)
        } else {
            w1
        }
    }
}

/// Apply the state-feature counts of a whole path over the first `t`
/// positions.
pub open spec fn upd_states(
    cat: FeatureCatalog,
    w: Seq<i64>,
    items: Seq<Item>,
    path: Seq<int>,
    t: int,
    sign: int,
) -> Seq<i64>
    decreases t,
{
    if t <= 0 {
        w
    } else {
        let w1 = upd_states(cat, w, items, path, t - 1, sign);
        upd_item(cat, w1, items[t - 1].attrs@, path[t - 1], items[t - 1].attrs@.len() as int, sign)
    }
}

/// Apply the transition counts of a path over the first `t` positions, one
/// unit per adjacent pair.
pub open spec fn upd_trans(
    cat: FeatureCatalog,
    w: Seq<i64>,
    path: Seq<int>,
    t: int,
    sign: int,
) -> Seq<i64>
    decreases t,
{
    if t <= 1 {
        w
    } else {
        let w1 = upd_trans(cat, w, path, t - 1, sign);
        if cat.has_trans(path[t - 2], path[t - 1]) {
            bump(
                w1,
                cat.sf().len() + cat.trans_index(path[t - 2], path[t - 1]),
                sign * SCALE,
            )
        } else {
            w1
        }
    }
}

/// Gold label ids as mathematical integers.
pub open spec fn gold_view(g: Seq<usize>) -> Seq<int> {
    g.map_values(|x: usize| x as int)
}

/// One averaged-perceptron step: Viterbi-decode the instance under the
/// current weights; when the prediction disagrees with gold, add the gold
/// feature counts and subtract the predicted ones.
pub open spec fn percep_step(cat: FeatureCatalog, nl: int, w: Seq<i64>, inst: Instance) -> Seq<
    i64,
> {
    let tt = inst.items@.len() as int;
    if tt == 0 {
        w
    } else {
        let st = state_mat_of(cat, w, nl, items_view(inst.items@));
        let tr = trans_mat_of(cat, w, nl);
        let pred = vit_path(st, tr, nl, tt);
        let gold = gold_view(inst.gold@);
        if pred == gold {
            w
        } else {
            let w1 = upd_states(cat, w, inst.items@, gold, tt, 1);
            let w2 = upd_trans(cat, w1, gold, tt, 1);
            let w3 = upd_states(cat, w2, inst.items@, pred, tt, -1);
            upd_trans(cat, w3, pred, tt, -1)
        }
    }
}

/// Add a weight vector into the running sum kept for averaging.
pub open spec fn acc_add(acc: Seq<int>, w: Seq<i64>) -> Seq<int> {
    Seq::new(acc.len(), |k: int| acc[k] + w[k])
}

/// One pass over the first `i` instances, carrying the running sum.
pub open spec fn percep_pass(
    cat: FeatureCatalog,
    nl: int,
    w: Seq<i64>,
    acc: Seq<int>,
    instances: Seq<Instance>,
    i: int,
) -> (Seq<i64>, Seq<int>)
    decreases i,
{
    if i <= 0 {
        (w, acc)
    } else {
        let (w1, a1) = percep_pass(cat, nl, w, acc, instances, i - 1);
        let w2 = percep_step(cat, nl, w1, instances[i - 1]);
        (w2, acc_add(a1, w2))
    }
}

/// `e` passes over the whole dataset.
pub open spec fn percep_epochs(
    cat: FeatureCatalog,
    nl: int,
    w: Seq<i64>,
    acc: Seq<int>,
    instances: Seq<Instance>,
    e: int,
) -> (Seq<i64>, Seq<int>)
    decreases e,
{
    if e <= 0 {
        (w, acc)
    } else {
        let r = percep_epochs(cat, nl, w, acc, instances, e - 1);
        percep_pass(cat, nl, r.0, r.1, instances, instances.len() as int)
    }
}

/// A zero weight vector.
pub open spec fn zeros(n: nat) -> Seq<i64> {
    Seq::new(n, |k: int| 0i64)
}

/// A zero running sum.
pub open spec fn zeros_int(n: nat) -> Seq<int> {
    Seq::new(n, |k: int| 0int)
}

/// The averaged-perceptron result: the time-average of the weight vector over
/// every update step, which lowers the variance of the raw trajectory.
pub open spec fn percep_result(
    cat: FeatureCatalog,
    nl: int,
    instances: Seq<Instance>,
    epochs: int,
) -> Seq<i64> {
    let f = (cat.sf().len() + cat.tf().len()) as nat;
    let r = percep_epochs(cat, nl, zeros(f), zeros_int(f), instances, epochs);
    let steps = epochs * instances.len();
    if steps <= 0 {
        r.0
    } else {
        Seq::new(f, |k: int| (r.1[k] / steps) as i64)
    }
}

/// What a training run demands of its inputs.
pub open spec fn trainable(
    attrs: Seq<Seq<u8>>,
    labels: Seq<Seq<u8>>,
    ds: Dataset,
    epochs: int,
) -> bool {
    &&& 1 <= labels.len() <= MAX_LABELS
    &&& attrs.len() <= MAX_ATTRS
    &&& ds.wf(attrs.len() as int, labels.len() as int)
    &&& epochs <= MAX_EPOCHS
}

/// Saturating updates keep the vector fitting its catalog.
pub proof fn lemma_bump_ok(
    cat: FeatureCatalog,
    w: Seq<i64>,
    nl: int,
    na: int,
    idx: int,
    delta: int,
)
    requires
        weights_ok(cat, w, nl, na),
        0 <= idx < w.len(),
    ensures
        weights_ok(cat, bump(w, idx, delta), nl, na),
        bump(w, idx, delta).len() == w.len(),
{
}

/// Item updates keep the vector fitting its catalog.
pub proof fn lemma_upd_item_ok(
    cat: FeatureCatalog,
    w: Seq<i64>,
    nl: int,
    na: int,
    attrs: Seq<AttrVal>,
    y: int,
    k: int,
    sign: int,
)
    requires
        weights_ok(cat, w, nl, na),
    ensures
        weights_ok(cat, upd_item(cat, w, attrs, y, k, sign), nl, na),
        upd_item(cat, w, attrs, y, k, sign).len() == w.len(),
    decreases k,
{
    if k > 0 {
        lemma_upd_item_ok(cat, w, nl, na, attrs, y, k - 1, sign);
        let w1 = upd_item(cat, w, attrs, y, k - 1, sign);
        let a = attrs[k - 1];
        if cat.has_state(y, a.id as int) {
            let idx = cat.state_index(y, a.id as int);
            assert(0 <= idx < cat.sf().len());
            lemma_bump_ok(cat, w1, nl, na, idx, sign * a.value);
        }
    }
}

/// Path state updates keep the vector fitting its catalog.
pub proof fn lemma_upd_states_ok(
    cat: FeatureCatalog,
    w: Seq<i64>,
    nl: int,
    na: int,
    items: Seq<Item>,
    path: Seq<int>,
    t: int,
    sign: int,
)
    requires
        weights_ok(cat, w, nl, na),
    ensures
        weights_ok(cat, upd_states(cat, w, items, path, t, sign), nl, na),
        upd_states(cat, w, items, path, t, sign).len() == w.len(),
    decreases t,
{
    if t > 0 {
        lemma_upd_states_ok(cat, w, nl, na, items, path, t - 1, sign);
        let w1 = upd_states(cat, w, items, path, t - 1, sign);
        lemma_upd_item_ok(
            cat,
            w1,
            nl,
            na,
            items[t - 1].attrs@,
            path[t - 1],
            items[t - 1].attrs@.len() as int,
            sign,
        );
    }
}

/// Path transition updates keep the vector fitting its catalog.
pub proof fn lemma_upd_trans_ok(
    cat: FeatureCatalog,
    w: Seq<i64>,
    nl: int,
    na: int,
    path: Seq<int>,
    t: int,
    sign: int,
)
    requires
        weights_ok(cat, w, nl, na),
    ensures
        weights_ok(cat, upd_trans(cat, w, path, t, sign), nl, na),
        upd_trans(cat, w, path, t, sign).len() == w.len(),
    decreases t,
{
    if t > 1 {
        lemma_upd_trans_ok(cat, w, nl, na, path, t - 1, sign);
        let w1 = upd_trans(cat, w, path, t - 1, sign);
        if cat.has_trans(path[t - 2], path[t - 1]) {
            let idx = cat.trans_index(path[t - 2], path[t - 1]);
            assert(0 <= idx < cat.tf().len());
            lemma_bump_ok(cat, w1, nl, na, cat.sf().len() + idx, sign * SCALE);
        }
    }
}

/// Clamp a weight into the admitted range.
fn clamp_weight(x: i64) -> (r: i64)
    ensures
        r as int == clamp_w(x as int),
{
    if x < -WEIGHT_BOUND {
        -WEIGHT_BOUND
    } else if x > WEIGHT_BOUND {
        WEIGHT_BOUND
    } else {
        x
    }
}

/// Whether two label sequences are the same labelling.
fn paths_eq(a: &Vec<usize>, b: &Vec<usize>) -> (r: bool)
    ensures
        r <==> path_view(a@) == gold_view(b@),
{
    proof {
        crate::context::lemma_path_view_bridge(a@);
    }
    if a.len() != b.len() {
        proof {
            assert(path_view(a@).len() != gold_view(b@).len());
        }
        return false;
    }
    let n = a.len();
    for i in 0..n
        invariant
            n == a@.len() == b@.len(),
            forall|j: int| 0 <= j < i ==> a@[j] == b@[j],
    {
        if a[i] != b[i] {
            proof {
                assert(path_view(a@)[i as int] != gold_view(b@)[i as int]);
            }
            return false;
        }
    }
    proof {
        assert(path_view(a@) =~= gold_view(b@));
    }
    true
}

/// Applies one item's state-feature counts to the weights.
fn apply_item(
    cat: &FeatureCatalog,
    w: &mut Vec<i64>,
    item: &Item,
    y: usize,
    sign: i64,
    Ghost(nl): Ghost<int>,
    Ghost(na): Ghost<int>,
)
    requires
        weights_ok(*cat, old(w)@, nl, na),
        (y as int) < nl,
        item.wf(na),
        sign == 1i64 || sign == -1i64,
    ensures
        final(w)@ == upd_item(
            *cat,
            old(w)@,
            item.attrs@,
            y as int,
            item.attrs@.len() as int,
            sign as int,
        ),
        weights_ok(*cat, final(w)@, nl, na),
{
    let n = item.attrs.len();
    for k in 0..n
        invariant
            weights_ok(*cat, w@, nl, na),
            n == item.attrs@.len(),
            item.wf(na),
            (y as int) < nl,
            sign == 1i64 || sign == -1i64,
            w@ == upd_item(*cat, old(w)@, item.attrs@, y as int, k as int, sign as int),
            w@.len() == old(w)@.len(),
    {
        let a = item.attrs[k];
        match cat.state_feature_id(y, a.id, Ghost(nl), Ghost(na)) {
            Some(f) => {
                let nv = clamp_weight(w[f] + sign * a.value);
                w.set(f, nv);
                proof {
                    assert(w@ =~= bump(
                        upd_item(*cat, old(w)@, item.attrs@, y as int, k as int, sign as int),
                        cat.state_index(y as int, a.id as int),
                        sign as int * a.value,
                    ));
                }
            },
            None => {
            },
        }
    }
}

/// Applies a path's state-feature counts to the weights.
fn apply_states(
    cat: &FeatureCatalog,
    w: &mut Vec<i64>,
    items: &Vec<Item>,
    path: &Vec<usize>,
    sign: i64,
    Ghost(nl): Ghost<int>,
    Ghost(na): Ghost<int>,
)
    requires
        weights_ok(*cat, old(w)@, nl, na),
        crate::data::wf_items(items@, na),
        path@.len() == items@.len(),
        forall|i: int| 0 <= i < path@.len() ==> ((#[trigger] path@[i]) as int) < nl,
        sign == 1i64 || sign == -1i64,
    ensures
        final(w)@ == upd_states(
            *cat,
            old(w)@,
            items@,
            path_view(path@),
            items@.len() as int,
            sign as int,
        ),
        weights_ok(*cat, final(w)@, nl, na),
{
    let n = items.len();
    proof {
        crate::context::lemma_path_view_bridge(path@);
    }
    for t in 0..n
        invariant
            weights_ok(*cat, w@, nl, na),
            n == items@.len() == path@.len(),
            crate::data::wf_items(items@, na),
            forall|i: int| 0 <= i < path@.len() ==> ((#[trigger] path@[i]) as int) < nl,
            sign == 1i64 || sign == -1i64,
            w@ == upd_states(*cat, old(w)@, items@, path_view(path@), t as int, sign as int),
    {
        proof {
            crate::context::lemma_path_view_bridge(path@);
        }
        apply_item(cat, w, &items[t], path[t], sign, Ghost(nl), Ghost(na));
    }
}

/// Applies a path's transition counts to the weights.
fn apply_trans(
    cat: &FeatureCatalog,
    w: &mut Vec<i64>,
    path: &Vec<usize>,
    sign: i64,
    Ghost(nl): Ghost<int>,
    Ghost(na): Ghost<int>,
)
    requires
        weights_ok(*cat, old(w)@, nl, na),
        forall|i: int| 0 <= i < path@.len() ==> ((#[trigger] path@[i]) as int) < nl,
        sign == 1i64 || sign == -1i64,
    ensures
        final(w)@ == upd_trans(*cat, old(w)@, path_view(path@), path@.len() as int, sign as int),
        weights_ok(*cat, final(w)@, nl, na),
{
    let n = path.len();
    proof {
        crate::context::lemma_path_view_bridge(path@);
    }
    if n <= 1 {
        return ;
    }
    for u in 1..n
        invariant
            weights_ok(*cat, w@, nl, na),
            n == path@.len(),
            forall|i: int| 0 <= i < path@.len() ==> ((#[trigger] path@[i]) as int) < nl,
            sign == 1i64 || sign == -1i64,
            w@ == upd_trans(*cat, old(w)@, path_view(path@), u as int, sign as int),
    {
        proof {
            crate::context::lemma_path_view_bridge(path@);
        }
        match cat.trans_feature_id(path[u - 1], path[u], Ghost(nl), Ghost(na)) {
            Some(f) => {
                let nv = clamp_weight(w[f] + sign * SCALE);
                w.set(f, nv);
                proof {
                    assert(w@ =~= bump(
                        upd_trans(*cat, old(w)@, path_view(path@), u as int, sign as int),
                        cat.sf().len() + cat.trans_index(
                            path@[u - 1] as int,
                            path@[u as int] as int,
                        ),
                        sign as int * SCALE,
                    ));
                }
            },
            None => {
            },
        }
    }
}

/// Whether the dataset is well formed against the dictionary sizes.
fn check_dataset(ds: &Dataset, na: usize, nl: usize) -> (r: bool)
    ensures
        r == ds.wf(na as int, nl as int),
{
    let n = ds.instances.len();
    if n > MAX_INSTANCES {
        return false;
    }
    for i in 0..n
        invariant
            n == ds.instances@.len() <= MAX_INSTANCES,
            forall|u: int|
                0 <= u < i ==> (#[trigger] ds.instances@[u]).wf(na as int, nl as int),
    {
        let inst = &ds.instances[i];
        let tt = inst.items.len();
        if tt > MAX_SEQ || inst.gold.len() != tt {
            proof {
                assert(!ds.instances@[i as int].wf(na as int, nl as int));
            }
            return false;
        }
        for t in 0..tt
            invariant
                n == ds.instances@.len(),
                i < n,
                *inst == ds.instances@[i as int],
                tt == inst.items@.len() == inst.gold@.len(),
                tt <= MAX_SEQ,
                forall|u: int| 0 <= u < t ==> (#[trigger] inst.items@[u]).wf(na as int),
                forall|u: int| 0 <= u < t ==> (#[trigger] inst.gold@[u]) < nl,
        {
            if inst.gold[t] >= nl {
                proof {
                    assert(!ds.instances@[i as int].wf(na as int, nl as int));
                }
                return false;
            }
            let m = inst.items[t].attrs.len();
            if m > MAX_ITEM_ATTRS {
                proof {
                    assert(!ds.instances@[i as int].items@[t as int].wf(na as int));
                    assert(!ds.instances@[i as int].wf(na as int, nl as int));
                }
                return false;
            }
            for k in 0..m
                invariant
                    n == ds.instances@.len(),
                    i < n,
                    *inst == ds.instances@[i as int],
                    m == inst.items@[t as int].attrs@.len() <= MAX_ITEM_ATTRS,
                    t < tt == inst.items@.len(),
                    forall|u: int|
                        0 <= u < k ==> (#[trigger] inst.items@[t as int].attrs@[u]).id < na && 0
                            <= inst.items@[t as int].attrs@[u].value <= VALUE_BOUND,
            {
                let a = inst.items[t].attrs[k];
                if a.id >= na || a.value < 0 || a.value > VALUE_BOUND {
                    proof {
                        assert(!ds.instances@[i as int].items@[t as int].wf(na as int));
                        assert(!ds.instances@[i as int].wf(na as int, nl as int));
                    }
                    return false;
                }
            }
        }
    }
    true
}

/// Trains a model by the averaged perceptron: features are generated from the
/// dataset with the given cutoff; each pass Viterbi-decodes every instance
/// and applies error-driven updates; the returned weights are the running
/// average over all steps.
pub fn train_averaged_perceptron(
    attrs: Dictionary,
    labels: Dictionary,
    ds: &Dataset,
    epochs: usize,
    min_freq: u64,
) -> (r: Result<Model, CrfError>)
    requires
        attrs.wf(),
        labels.wf(),
    ensures
        match r {
            Ok(m) => {
                &&& trainable(attrs@, labels@, *ds, epochs as int)
                &&& m.attrs@ == attrs@
                &&& m.labels@ == labels@
                &&& m.wf()
                &&& forall|y: int, a: int|
                    0 <= y < labels@.len() && 0 <= a < attrs@.len() ==> (
                    #[trigger] m.catalog.has_state(y, a) <==> ds_state_count(
                        ds.instances@,
                        y,
                        a,
                        ds.instances@.len() as int,
                    ) >= min_freq)
                &&& forall|i: int, j: int|
                    0 <= i < labels@.len() && 0 <= j < labels@.len() ==> (
                    #[trigger] m.catalog.has_trans(i, j) <==> ds_trans_count(
                        ds.instances@,
                        i,
                        j,
                        ds.instances@.len() as int,
                    ) >= min_freq)
                &&& m.weights@ == percep_result(
                    m.catalog,
                    labels@.len() as int,
                    ds.instances@,
                    epochs as int,
                )
            },
            Err(e) => e == CrfError::TrainingDiverged && !trainable(
                attrs@,
                labels@,
                *ds,
                epochs as int,
            ),
        },
{
    let nl = labels.count();
    let na = attrs.count();
    if nl < 1 || nl > MAX_LABELS || na > MAX_ATTRS || epochs > MAX_EPOCHS {
        return Err(CrfError::TrainingDiverged);
    }
    if !check_dataset(ds, na, nl) {
        return Err(CrfError::TrainingDiverged);
    }
    let cat = FeatureCatalog::generate(ds, nl, na, min_freq);
    let ghost gnl = nl as int;
    let ghost gna = na as int;
    let nf = cat.num_features(Ghost(gnl), Ghost(gna));
    let mut w: Vec<i64> = Vec::new();
    let mut acc: Vec<i128> = Vec::new();
    for k in 0..nf
        invariant
            w@.len() == k,
            acc@.len() == k,
            forall|u: int| 0 <= u < k ==> #[trigger] w@[u] == 0i64,
            forall|u: int| 0 <= u < k ==> #[trigger] acc@[u] == 0i128,
    {
        w.push(0);
        acc.push(0);
    }
    let ghost f = (cat.sf().len() + cat.tf().len()) as nat;
    proof {
        assert(w@ =~= zeros(f));
        assert(acc@.map_values(|x: i128| x as int) =~= zeros_int(f));
    }
    let n = ds.instances.len();
    let ghost insts = ds.instances@;
    let mut e: usize = 0;
    while e < epochs
        invariant
            weights_ok(cat, w@, gnl, gna),
            acc@.len() == w@.len() == f,
            nf == f,
            cat.wf(gnl, gna),
            1 <= nl <= MAX_LABELS,
            na <= MAX_ATTRS,
            gnl == nl as int,
            gna == na as int,
            epochs <= MAX_EPOCHS,
            n == insts.len() <= MAX_INSTANCES,
            insts == ds.instances@,
            ds.wf(gna, gnl),
            e <= epochs,
            (w@, acc@.map_values(|x: i128| x as int)) =~= percep_epochs(
                cat,
                gnl,
                zeros(f),
                zeros_int(f),
                insts,
                e as int,
            ),
            forall|u: int|
                0 <= u < f ==> -(((e * n) as int) * WEIGHT_BOUND) <= (#[trigger] acc@[u]) as int
                    <= ((e * n) as int) * WEIGHT_BOUND,
        decreases epochs - e,
    {
        let ghost we = w@;
        let ghost ae = acc@.map_values(|x: i128| x as int);
        let mut i: usize = 0;
        while i < n
            invariant
                weights_ok(cat, w@, gnl, gna),
                acc@.len() == w@.len() == f,
                nf == f,
                cat.wf(gnl, gna),
                1 <= nl <= MAX_LABELS,
                na <= MAX_ATTRS,
                gnl == nl as int,
                gna == na as int,
                epochs <= MAX_EPOCHS,
                e < epochs,
                n == insts.len() <= MAX_INSTANCES,
                insts == ds.instances@,
                ds.wf(gna, gnl),
                i <= n,
                (w@, acc@.map_values(|x: i128| x as int)) =~= percep_pass(
                    cat,
                    gnl,
                    we,
                    ae,
                    insts,
                    i as int,
                ),
                (we, ae) == percep_epochs(cat, gnl, zeros(f), zeros_int(f), insts, e as int),
                forall|u: int|
                    0 <= u < f ==> -(((e * n + i) as int) * WEIGHT_BOUND) <= (
                    #[trigger] acc@[u]) as int <= ((e * n + i) as int) * WEIGHT_BOUND,
            decreases n - i,
        {
            let inst = &ds.instances[i];
            proof {
                assert(insts[i as int].wf(gna, gnl));
            }
            let tt = inst.items.len();
            if tt > 0 {
                let ctx = build_lattice(&cat, &w, nl, &inst.items, Ghost(gna));
                let vr = ctx.viterbi();
                let pred = vr.0;
                if !paths_eq(&pred, &inst.gold) {
                    proof {
                        crate::context::lemma_path_view_bridge(pred@);
                        crate::context::lemma_path_view_bridge(inst.gold@);
                    }
                    apply_states(&cat, &mut w, &inst.items, &inst.gold, 1, Ghost(gnl), Ghost(gna));
                    apply_trans(&cat, &mut w, &inst.gold, 1, Ghost(gnl), Ghost(gna));
                    apply_states(&cat, &mut w, &inst.items, &pred, -1, Ghost(gnl), Ghost(gna));
                    apply_trans(&cat, &mut w, &pred, -1, Ghost(gnl), Ghost(gna));
                }
            }
            proof {
                assert(w@ == percep_step(cat, gnl, percep_pass(cat, gnl, we, ae, insts, i as int).0, insts[i as int]));
            }
            // accumulate for averaging
            let ghost acc_before = acc@.map_values(|x: i128| x as int);
            let mut k: usize = 0;
            while k < nf
                invariant
                    acc@.len() == f,
                    w@.len() == f,
                    nf == f,
                    weights_ok(cat, w@, gnl, gna),
                    k <= nf,
                    epochs <= MAX_EPOCHS,
                    e < epochs,
                    i < n <= MAX_INSTANCES,
                    forall|u: int|
                        0 <= u < f ==> -(((e * n + i) as int) * WEIGHT_BOUND) <= (
                        #[trigger] acc_before[u]) <= ((e * n + i) as int) * WEIGHT_BOUND,
                    forall|u: int|
                        k <= u < f ==> (#[trigger] acc@[u]) as int == acc_before[u],
                    forall|u: int|
                        0 <= u < k ==> (#[trigger] acc@[u]) as int == acc_before[u] + w@[u],
                decreases nf - k,
            {
                proof {
                    assert(-(((e * n + i) as int) * WEIGHT_BOUND) <= acc@[k as int] as int
                        <= ((e * n + i) as int) * WEIGHT_BOUND);
                    assert(((e * n + i) as int) * WEIGHT_BOUND + WEIGHT_BOUND
                        == ((e * n + i + 1) as int) * WEIGHT_BOUND) by (nonlinear_arith);
                    assert(((e * n + i + 1) as int) <= 1_000_000_001_000int) by (nonlinear_arith)
                        requires
                            0 <= e < 1001,
                            0 <= i < n <= 1_000_000int,
                    ;
                }
                let v = acc[k] + (w[k] as i128);
                acc.set(k, v);
                k = k + 1;
            }
            proof {
                assert(acc@.map_values(|x: i128| x as int) =~= acc_add(acc_before, w@));
                assert((e * n + i + 1) as int * WEIGHT_BOUND
                    >= (e * n + i) as int * WEIGHT_BOUND) by (nonlinear_arith)
                    requires WEIGHT_BOUND > 0, e * n + i >= 0,
                ;
            }
            i = i + 1;
        }
        proof {
            assert((e + 1) * n == e * n + n) by (nonlinear_arith);
        }
        e = e + 1;
    }
    // average over all steps
    proof {
        vstd::arithmetic::mul::lemma_mul_upper_bound(
            epochs as int,
            MAX_EPOCHS as int,
            n as int,
            MAX_INSTANCES as int,
        );
        vstd::arithmetic::mul::lemma_mul_nonnegative(epochs as int, n as int);
    }
    let steps: usize = epochs * n;
    if steps > 0 {
        let mut k: usize = 0;
        let ghost accv = acc@.map_values(|x: i128| x as int);
        let ghost wfin = w@;
        while k < nf
            invariant
                acc@.len() == f,
                w@.len() == f,
                nf == f,
                steps == epochs * n,
                1 <= steps <= 1_000_000_000,
                accv == acc@.map_values(|x: i128| x as int),
                k <= nf,
                forall|u: int|
                    0 <= u < f ==> -((steps as int) * WEIGHT_BOUND) <= #[trigger] accv[u]
                        <= (steps as int) * WEIGHT_BOUND,
                forall|u: int|
                    k <= u < f ==> #[trigger] w@[u] == wfin[u],
                forall|u: int|
                    0 <= u < k ==> (#[trigger] w@[u]) as int == accv[u] / (steps as int),
                weights_ok(cat, w@, gnl, gna),
            decreases nf - k,
        {
            proof {
                assert((steps as int) * WEIGHT_BOUND <= 1_000_000_000int * WEIGHT_BOUND) by {
                    vstd::arithmetic::mul::lemma_mul_inequality(
                        steps as int,
                        1_000_000_000int,
                        WEIGHT_BOUND as int,
                    );
                }
                assert(1_000_000_000int * 10_000_000_000int == 10_000_000_000_000_000_000int)
                    by (nonlinear_arith);
                assert(accv[k as int] == acc@[k as int] as int);
                assert(-10_000_000_000_000_000_000int <= acc@[k as int] as int
                    <= 10_000_000_000_000_000_000int);
            }
            let q = floor_div_i128(acc[k], steps as i128);
            proof {
                vstd::arithmetic::div_mod::lemma_div_is_ordered(
                    accv[k as int],
                    (steps as int) * WEIGHT_BOUND,
                    steps as int,
                );
                vstd::arithmetic::div_mod::lemma_div_is_ordered(
                    -((steps as int) * WEIGHT_BOUND),
                    accv[k as int],
                    steps as int,
                );
                assert(((steps as int) * WEIGHT_BOUND) / (steps as int) == WEIGHT_BOUND) by {
                    vstd::arithmetic::div_mod::lemma_div_multiples_vanish(
                        WEIGHT_BOUND as int,
                        steps as int,
                    );
                }
                assert((-((steps as int) * WEIGHT_BOUND)) / (steps as int) == -WEIGHT_BOUND) by {
                    vstd::arithmetic::div_mod::lemma_div_multiples_vanish(
                        -WEIGHT_BOUND as int,
                        steps as int,
                    );
                    assert((steps as int) * (-WEIGHT_BOUND as int)
                        == -((steps as int) * WEIGHT_BOUND)) by (nonlinear_arith);
                }
            }
            w.set(k, q as i64);
            k = k + 1;
        }
    }
    let m = Model { attrs, labels, catalog: cat, weights: w };
    proof {
        assert(m.weights@ =~= percep_result(cat, gnl, insts, epochs as int));
    }
    Ok(m)
}

/// Add `delta` to one running feature count (counts are not clamped).
pub open spec fn cadd(v: Seq<int>, idx: int, delta: int) -> Seq<int> {
    v.update(idx, v[idx] + delta)
}

/// Accumulate one item's state-feature counts along label `y`, scaled by
/// `sign`, into a count vector; features the catalog did not admit are
/// skipped.
pub open spec fn cnt_item(
    cat: FeatureCatalog,
    v: Seq<int>,
    attrs: Seq<AttrVal>,
    y: int,
    k: int,
    sign: int,
) -> Seq<int>
    decreases k,
{
    if k <= 0 {
        v
    } else {
        let v1 = cnt_item(cat, v, attrs, y, k - 1, sign);
        let a = attrs[k - 1];
        if cat.has_state(y, a.id as int) {
            cadd(v1, cat.state_index(y, a.id as int), sign * a.value)
        } else {
            v1
        }
    }
}

/// Accumulate the state-feature counts of a path over the first `t` positions.
pub open spec fn cnt_states(
    cat: FeatureCatalog,
    v: Seq<int>,
    items: Seq<Item>,
    path: Seq<int>,
    t: int,
    sign: int,
) -> Seq<int>
    decreases t,
{
    if t <= 0 {
        v
    } else {
        let v1 = cnt_states(cat, v, items, path, t - 1, sign);
        cnt_item(cat, v1, items[t - 1].attrs@, path[t - 1], items[t - 1].attrs@.len() as int, sign)
    }
}

/// Accumulate the transition counts of a path over the first `t` positions.
pub open spec fn cnt_trans(
    cat: FeatureCatalog,
    v: Seq<int>,
    path: Seq<int>,
    t: int,
    sign: int,
) -> Seq<int>
    decreases t,
{
    if t <= 1 {
        v
    } else {
        let v1 = cnt_trans(cat, v, path, t - 1, sign);
        if cat.has_trans(path[t - 2], path[t - 1]) {
            cadd(v1, cat.sf().len() + cat.trans_index(path[t - 2], path[t - 1]), sign * SCALE)
        } else {
            v1
        }
    }
}

/// The feature-count difference between the gold path and the prediction.
pub open spec fn phi_diff(
    cat: FeatureCatalog,
    inst: Instance,
    pred: Seq<int>,
    f: nat,
) -> Seq<int> {
    let tt = inst.items@.len() as int;
    let gold = gold_view(inst.gold@);
    let v1 = cnt_states(cat, zeros_int(f), inst.items@, gold, tt, 1);
    let v2 = cnt_trans(cat, v1, gold, tt, 1);
    let v3 = cnt_states(cat, v2, inst.items@, pred, tt, -1);
    cnt_trans(cat, v3, pred, tt, -1)
}

/// Positions where two labellings disagree, over the first `t` positions.
pub open spec fn hamming(a: Seq<int>, b: Seq<int>, t: int) -> int
    decreases t,
{
    if t <= 0 {
        0
    } else {
        hamming(a, b, t - 1) + if a[t - 1] == b[t - 1] {
            0int
        } else {
            1int
        }
    }
}

/// The rescaled sum of squares of the first `k` entries of a count vector.
pub open spec fn sum_sq_scaled(d: Seq<int>, k: int) -> int
    decreases k,
{
    if k <= 0 {
        0
    } else {
        sum_sq_scaled(d, k - 1) + (d[k - 1] * d[k - 1]) / (SCALE as int)
    }
}

/// Largest magnitude one entry of a path count difference can reach.
pub const DIFF_BOUND: i64 = 300_000_000_000_000;

/// Largest admitted aggressiveness bound.
pub const C_MAX: i64 = 1_000_000_000_000;

/// One passive-aggressive step: decode the instance; when the prediction
/// disagrees with gold and the margin constraint is violated, move the
/// weights along the feature-count difference by the minimal-norm step, with
/// the step size capped at the aggressiveness bound `c`.  The margin uses the
/// Hamming cost of the prediction.
pub open spec fn pa_step(
    cat: FeatureCatalog,
    nl: int,
    c: int,
    w: Seq<i64>,
    inst: Instance,
) -> Seq<i64> {
    let tt = inst.items@.len() as int;
    let f = w.len();
    if tt == 0 {
        w
    } else {
        let st = state_mat_of(cat, w, nl, items_view(inst.items@));
        let tr = trans_mat_of(cat, w, nl);
        let pred = vit_path(st, tr, nl, tt);
        let gold = gold_view(inst.gold@);
        if pred == gold {
            w
        } else {
            let cost = SCALE * hamming(pred, gold, tt);
            let loss = crate::context::path_score(st, tr, pred) - crate::context::path_score(
                st,
                tr,
                gold,
            ) + cost;
            if loss <= 0 {
                w
            } else {
                let d = phi_diff(cat, inst, pred, f);
                let n2 = sum_sq_scaled(d, f as int);
                if n2 <= 0 {
                    w
                } else {
                    let tau0 = (loss * SCALE) / n2;
                    let tau = if tau0 > c {
                        c
                    } else {
                        tau0
                    };
                    Seq::new(f, |k: int| clamp_w(w[k] + (tau * d[k]) / (SCALE as int)) as i64)
                }
            }
        }
    }
}

/// One pass over the first `i` instances.
pub open spec fn pa_pass(
    cat: FeatureCatalog,
    nl: int,
    c: int,
    w: Seq<i64>,
    instances: Seq<Instance>,
    i: int,
) -> Seq<i64>
    decreases i,
{
    if i <= 0 {
        w
    } else {
        pa_step(cat, nl, c, pa_pass(cat, nl, c, w, instances, i - 1), instances[i - 1])
    }
}

/// `e` passes over the whole dataset.
pub open spec fn pa_epochs(
    cat: FeatureCatalog,
    nl: int,
    c: int,
    w: Seq<i64>,
    instances: Seq<Instance>,
    e: int,
) -> Seq<i64>
    decreases e,
{
    if e <= 0 {
        w
    } else {
        pa_pass(cat, nl, c, pa_epochs(cat, nl, c, w, instances, e - 1), instances, instances.len() as int)
    }
}

/// The passive-aggressive result: the weights after all passes, starting from
/// zero.
pub open spec fn pa_result(
    cat: FeatureCatalog,
    nl: int,
    c: int,
    instances: Seq<Instance>,
    epochs: int,
) -> Seq<i64> {
    let f = (cat.sf().len() + cat.tf().len()) as nat;
    pa_epochs(cat, nl, c, zeros(f), instances, epochs)
}

/// Count updates keep the vector's length and grow each entry by at most one
/// value bound per observation.
pub proof fn lemma_cnt_item_bound(
    cat: FeatureCatalog,
    v: Seq<int>,
    attrs: Seq<AttrVal>,
    y: int,
    k: int,
    sign: int,
    b: int,
)
    requires
        sign == 1 || sign == -1,
        forall|u: int| 0 <= u < attrs.len() ==> 0 <= (#[trigger] attrs[u]).value <= VALUE_BOUND,
        0 <= k <= attrs.len(),
        v.len() == cat.sf().len() + cat.tf().len(),
        forall|j: int| 0 <= j < v.len() ==> -b <= #[trigger] v[j] <= b,
    ensures
        cnt_item(cat, v, attrs, y, k, sign).len() == v.len(),
        forall|j: int|
            0 <= j < v.len() ==> -(b + k * VALUE_BOUND) <= #[trigger] cnt_item(
                cat,
                v,
                attrs,
                y,
                k,
                sign,
            )[j] <= b + k * VALUE_BOUND,
    decreases k,
{
    if k > 0 {
        lemma_cnt_item_bound(cat, v, attrs, y, k - 1, sign, b);
    }
}

/// Path state counts keep the length and grow each entry by at most one
/// item's worth of values per position.
pub proof fn lemma_cnt_states_bound(
    cat: FeatureCatalog,
    v: Seq<int>,
    items: Seq<Item>,
    path: Seq<int>,
    t: int,
    sign: int,
    b: int,
    na: int,
)
    requires
        sign == 1 || sign == -1,
        0 <= t <= items.len(),
        forall|u: int| 0 <= u < items.len() ==> (#[trigger] items[u]).wf(na),
        v.len() == cat.sf().len() + cat.tf().len(),
        forall|j: int| 0 <= j < v.len() ==> -b <= #[trigger] v[j] <= b,
    ensures
        cnt_states(cat, v, items, path, t, sign).len() == v.len(),
        forall|j: int|
            0 <= j < v.len() ==> -(b + t * 100_000_000_000) <= #[trigger] cnt_states(
                cat,
                v,
                items,
                path,
                t,
                sign,
            )[j] <= b + t * 100_000_000_000,
    decreases t,
{
    if t > 0 {
        lemma_cnt_states_bound(cat, v, items, path, t - 1, sign, b, na);
        let v1 = cnt_states(cat, v, items, path, t - 1, sign);
        let attrs = items[t - 1].attrs@;
        lemma_cnt_item_bound(
            cat,
            v1,
            attrs,
            path[t - 1],
            attrs.len() as int,
            sign,
            b + (t - 1) * 100_000_000_000,
        );
        assert(attrs.len() as int * VALUE_BOUND <= 100_000_000_000) by {
            vstd::arithmetic::mul::lemma_mul_inequality(
                attrs.len() as int,
                MAX_ITEM_ATTRS as int,
                VALUE_BOUND as int,
            );
        }
    }
}

/// Path transition counts keep the length and grow each entry by at most one
/// unit per position.
pub proof fn lemma_cnt_trans_bound(
    cat: FeatureCatalog,
    v: Seq<int>,
    path: Seq<int>,
    t: int,
    sign: int,
    b: int,
)
    requires
        sign == 1 || sign == -1,
        0 <= t,
        v.len() == cat.sf().len() + cat.tf().len(),
        forall|j: int| 0 <= j < v.len() ==> -b <= #[trigger] v[j] <= b,
    ensures
        cnt_trans(cat, v, path, t, sign).len() == v.len(),
        forall|j: int|
            0 <= j < v.len() ==> -(b + t * (SCALE as int)) <= #[trigger] cnt_trans(
                cat,
                v,
                path,
                t,
                sign,
            )[j] <= b + t * (SCALE as int),
    decreases t,
{
    if t > 1 {
        lemma_cnt_trans_bound(cat, v, path, t - 1, sign, b);
    }
}

/// A feature-count difference stays within `DIFF_BOUND` per entry.
pub proof fn lemma_phi_diff_bound(cat: FeatureCatalog, inst: Instance, pred: Seq<int>, f: nat, na: int)
    requires
        inst.items@.len() <= MAX_SEQ,
        forall|u: int| 0 <= u < inst.items@.len() ==> (#[trigger] inst.items@[u]).wf(na),
        f == cat.sf().len() + cat.tf().len(),
    ensures
        phi_diff(cat, inst, pred, f).len() == f,
        forall|j: int|
            0 <= j < f ==> -DIFF_BOUND <= #[trigger] phi_diff(cat, inst, pred, f)[j]
                <= DIFF_BOUND,
{
    let tt = inst.items@.len() as int;
    let gold = gold_view(inst.gold@);
    let z = zeros_int(f);
    assert(forall|j: int| 0 <= j < z.len() ==> -0 <= #[trigger] z[j] <= 0);
    lemma_cnt_states_bound(cat, z, inst.items@, gold, tt, 1, 0, na);
    let v1 = cnt_states(cat, z, inst.items@, gold, tt, 1);
    lemma_cnt_trans_bound(cat, v1, gold, tt, 1, tt * 100_000_000_000);
    let v2 = cnt_trans(cat, v1, gold, tt, 1);
    lemma_cnt_states_bound(
        cat,
        v2,
        inst.items@,
        pred,
        tt,
        -1,
        tt * 100_000_000_000 + tt * (SCALE as int),
        na,
    );
    let v3 = cnt_states(cat, v2, inst.items@, pred, tt, -1);
    lemma_cnt_trans_bound(
        cat,
        v3,
        pred,
        tt,
        -1,
        2 * (tt * 100_000_000_000) + tt * (SCALE as int),
    );
}

/// Clamp a wider intermediate value into the admitted weight range.
fn clamp_weight_wide(x: i128) -> (r: i64)
    ensures
        r as int == clamp_w(x as int),
{
    if x < -(WEIGHT_BOUND as i128) {
        -WEIGHT_BOUND
    } else if x > WEIGHT_BOUND as i128 {
        WEIGHT_BOUND
    } else {
        x as i64
    }
}

/// Accumulates one item's state-feature counts into a count vector.
fn add_cnt_item(
    cat: &FeatureCatalog,
    d: &mut Vec<i64>,
    item: &Item,
    y: usize,
    sign: i64,
    Ghost(nl): Ghost<int>,
    Ghost(na): Ghost<int>,
    Ghost(b): Ghost<int>,
)
    requires
        cat.wf(nl, na),
        old(d)@.len() == cat.sf().len() + cat.tf().len(),
        (y as int) < nl,
        item.wf(na),
        sign == 1i64 || sign == -1i64,
        0 <= b,
        b + 100_000_000_000 <= DIFF_BOUND,
        forall|j: int| 0 <= j < old(d)@.len() ==> -b <= #[trigger] old(d)@[j] <= b,
    ensures
        crate::context::row_view(final(d)@) == cnt_item(
            *cat,
            crate::context::row_view(old(d)@),
            item.attrs@,
            y as int,
            item.attrs@.len() as int,
            sign as int,
        ),
        final(d)@.len() == old(d)@.len(),
        forall|j: int|
            0 <= j < final(d)@.len() ==> -(b + 100_000_000_000) <= #[trigger] final(d)@[j] <= b
                + 100_000_000_000,
{
    let n = item.attrs.len();
    let ghost d0 = crate::context::row_view(old(d)@);
    proof {
        crate::context::lemma_row_view_bridge(d@);
    }
    for k in 0..n
        invariant
            cat.wf(nl, na),
            n == item.attrs@.len(),
            item.wf(na),
            (y as int) < nl,
            sign == 1i64 || sign == -1i64,
            0 <= b,
            b + 100_000_000_000 <= DIFF_BOUND,
            d@.len() == old(d)@.len() == cat.sf().len() + cat.tf().len(),
            d0 == crate::context::row_view(old(d)@),
            crate::context::row_view(d@) == cnt_item(
                *cat,
                d0,
                item.attrs@,
                y as int,
                k as int,
                sign as int,
            ),
            forall|j: int|
                0 <= j < d@.len() ==> -(b + (k as int) * VALUE_BOUND) <= #[trigger] d@[j] <= b + (
                k as int) * VALUE_BOUND,
            (n as int) * VALUE_BOUND <= 100_000_000_000,
    {
        proof {
            crate::context::lemma_row_view_bridge(d@);
        }
        let a = item.attrs[k];
        match cat.state_feature_id(y, a.id, Ghost(nl), Ghost(na)) {
            Some(idx) => {
                let nv = d[idx] + sign * a.value;
                d.set(idx, nv);
                proof {
                    crate::context::lemma_row_view_bridge(d@);
                    assert(crate::context::row_view(d@) =~= cadd(
                        cnt_item(*cat, d0, item.attrs@, y as int, k as int, sign as int),
                        cat.state_index(y as int, a.id as int),
                        sign as int * a.value,
                    ));
                }
            },
            None => {
            },
        }
        proof {
            vstd::arithmetic::mul::lemma_mul_inequality(
                k as int + 1,
                n as int,
                VALUE_BOUND as int,
            );
        }
    }
    proof {
        vstd::arithmetic::mul::lemma_mul_inequality(n as int, MAX_ITEM_ATTRS as int, VALUE_BOUND as int);
    }
}

/// Accumulates a path's state-feature counts into a count vector.
fn add_cnt_states(
    cat: &FeatureCatalog,
    d: &mut Vec<i64>,
    items: &Vec<Item>,
    path: &Vec<usize>,
    sign: i64,
    Ghost(nl): Ghost<int>,
    Ghost(na): Ghost<int>,
    Ghost(b): Ghost<int>,
)
    requires
        cat.wf(nl, na),
        old(d)@.len() == cat.sf().len() + cat.tf().len(),
        crate::data::wf_items(items@, na),
        path@.len() == items@.len(),
        forall|i: int| 0 <= i < path@.len() ==> ((#[trigger] path@[i]) as int) < nl,
        sign == 1i64 || sign == -1i64,
        0 <= b,
        b + (items@.len() as int) * 100_000_000_000 <= DIFF_BOUND,
        forall|j: int| 0 <= j < old(d)@.len() ==> -b <= #[trigger] old(d)@[j] <= b,
    ensures
        crate::context::row_view(final(d)@) == cnt_states(
            *cat,
            crate::context::row_view(old(d)@),
            items@,
            path_view(path@),
            items@.len() as int,
            sign as int,
        ),
        final(d)@.len() == old(d)@.len(),
        forall|j: int|
            0 <= j < final(d)@.len() ==> -(b + (items@.len() as int) * 100_000_000_000)
                <= #[trigger] final(d)@[j] <= b + (items@.len() as int) * 100_000_000_000,
{
    let n = items.len();
    let ghost d0 = crate::context::row_view(old(d)@);
    proof {
        crate::context::lemma_path_view_bridge(path@);
    }
    for t in 0..n
        invariant
            cat.wf(nl, na),
            n == items@.len() == path@.len(),
            crate::data::wf_items(items@, na),
            forall|i: int| 0 <= i < path@.len() ==> ((#[trigger] path@[i]) as int) < nl,
            sign == 1i64 || sign == -1i64,
            0 <= b,
            b + (n as int) * 100_000_000_000 <= DIFF_BOUND,
            d@.len() == old(d)@.len() == cat.sf().len() + cat.tf().len(),
            d0 == crate::context::row_view(old(d)@),
            crate::context::row_view(d@) == cnt_states(
                *cat,
                d0,
                items@,
                path_view(path@),
                t as int,
                sign as int,
            ),
            forall|j: int|
                0 <= j < d@.len() ==> -(b + (t as int) * 100_000_000_000) <= #[trigger] d@[j] <= b
                    + (t as int) * 100_000_000_000,
    {
        proof {
            crate::context::lemma_path_view_bridge(path@);
            vstd::arithmetic::mul::lemma_mul_inequality(
                t as int + 1,
                n as int,
                100_000_000_000int,
            );
        }
        add_cnt_item(
            cat,
            d,
            &items[t],
            path[t],
            sign,
            Ghost(nl),
            Ghost(na),
            Ghost(b + (t as int) * 100_000_000_000),
        );
    }
}

/// Accumulates a path's transition counts into a count vector.
fn add_cnt_trans(
    cat: &FeatureCatalog,
    d: &mut Vec<i64>,
    path: &Vec<usize>,
    sign: i64,
    Ghost(nl): Ghost<int>,
    Ghost(na): Ghost<int>,
    Ghost(b): Ghost<int>,
)
    requires
        cat.wf(nl, na),
        old(d)@.len() == cat.sf().len() + cat.tf().len(),
        forall|i: int| 0 <= i < path@.len() ==> ((#[trigger] path@[i]) as int) < nl,
        sign == 1i64 || sign == -1i64,
        0 <= b,
        b + (path@.len() as int) * (SCALE as int) <= DIFF_BOUND,
        forall|j: int| 0 <= j < old(d)@.len() ==> -b <= #[trigger] old(d)@[j] <= b,
    ensures
        crate::context::row_view(final(d)@) == cnt_trans(
            *cat,
            crate::context::row_view(old(d)@),
            path_view(path@),
            path@.len() as int,
            sign as int,
        ),
        final(d)@.len() == old(d)@.len(),
        forall|j: int|
            0 <= j < final(d)@.len() ==> -(b + (path@.len() as int) * (SCALE as int))
                <= #[trigger] final(d)@[j] <= b + (path@.len() as int) * (SCALE as int),
{
    let n = path.len();
    let ghost d0 = crate::context::row_view(old(d)@);
    proof {
        crate::context::lemma_path_view_bridge(path@);
        crate::context::lemma_row_view_bridge(d@);
    }
    if n <= 1 {
        return ;
    }
    for u in 1..n
        invariant
            cat.wf(nl, na),
            n == path@.len(),
            forall|i: int| 0 <= i < path@.len() ==> ((#[trigger] path@[i]) as int) < nl,
            sign == 1i64 || sign == -1i64,
            0 <= b,
            b + (n as int) * (SCALE as int) <= DIFF_BOUND,
            d@.len() == old(d)@.len() == cat.sf().len() + cat.tf().len(),
            d0 == crate::context::row_view(old(d)@),
            crate::context::row_view(d@) == cnt_trans(
                *cat,
                d0,
                path_view(path@),
                u as int,
                sign as int,
            ),
            forall|j: int|
                0 <= j < d@.len() ==> -(b + (u as int) * (SCALE as int)) <= #[trigger] d@[j] <= b
                    + (u as int) * (SCALE as int),
    {
        proof {
            crate::context::lemma_path_view_bridge(path@);
            crate::context::lemma_row_view_bridge(d@);
            vstd::arithmetic::mul::lemma_mul_inequality(u as int + 1, n as int, SCALE as int);
        }
        match cat.trans_feature_id(path[u - 1], path[u], Ghost(nl), Ghost(na)) {
            Some(idx) => {
                let nv = d[idx] + sign * SCALE;
                d.set(idx, nv);
                proof {
                    crate::context::lemma_row_view_bridge(d@);
                    assert(crate::context::row_view(d@) =~= cadd(
                        cnt_trans(*cat, d0, path_view(path@), u as int, sign as int),
                        cat.sf().len() + cat.trans_index(
                            path@[u - 1] as int,
                            path@[u as int] as int,
                        ),
                        sign as int * SCALE,
                    ));
                }
            },
            None => {
            },
        }
    }
}

/// Applies one passive-aggressive step to the weights.
fn pa_instance(
    cat: &FeatureCatalog,
    w: &mut Vec<i64>,
    inst: &Instance,
    num_labels: usize,
    c: i64,
    Ghost(na): Ghost<int>,
)
    requires
        weights_ok(*cat, old(w)@, num_labels as int, na),
        1 <= num_labels <= MAX_LABELS,
        0 <= na <= MAX_ATTRS as int,
        inst.wf(na, num_labels as int),
        1 <= c <= C_MAX,
    ensures
        final(w)@ == pa_step(*cat, num_labels as int, c as int, old(w)@, *inst),
        weights_ok(*cat, final(w)@, num_labels as int, na),
{
    let ghost nl = num_labels as int;
    let tt = inst.items.len();
    if tt == 0 {
        return ;
    }
    let ctx = build_lattice(cat, w, num_labels, &inst.items, Ghost(na));
    let vr = ctx.viterbi();
    let pred = vr.0;
    if paths_eq(&pred, &inst.gold) {
        return ;
    }
    proof {
        crate::context::lemma_path_view_bridge(pred@);
        crate::context::lemma_path_view_bridge(inst.gold@);
    }
    let pred_score = ctx.score_path(&pred);
    let gold_score = ctx.score_path(&inst.gold);
    // Hamming cost of the prediction against gold
    let mut mism: i64 = 0;
    for t in 0..tt
        invariant
            tt == pred@.len() == inst.gold@.len(),
            tt <= MAX_SEQ,
            mism as int == hamming(path_view(pred@), gold_view(inst.gold@), t as int),
            0 <= mism <= t,
    {
        proof {
            crate::context::lemma_path_view_bridge(pred@);
            crate::context::lemma_path_view_bridge(inst.gold@);
        }
        if pred[t] != inst.gold[t] {
            mism = mism + 1;
        }
    }
    let cost = mism * SCALE;
    let loss = pred_score - gold_score + cost;
    if loss <= 0 {
        return ;
    }
    // the feature-count difference between gold and the prediction
    let nf = w.len();
    let mut d: Vec<i64> = Vec::new();
    for k in 0..nf
        invariant
            d@.len() == k,
            forall|j: int| 0 <= j < k ==> #[trigger] d@[j] == 0i64,
    {
        d.push(0);
    }
    let ghost f = (cat.sf().len() + cat.tf().len()) as nat;
    proof {
        crate::context::lemma_row_view_bridge(d@);
        assert(crate::context::row_view(d@) =~= zeros_int(f));
        vstd::arithmetic::mul::lemma_mul_inequality(
            inst.items@.len() as int,
            MAX_SEQ as int,
            100_000_000_000int,
        );
        vstd::arithmetic::mul::lemma_mul_inequality(
            inst.items@.len() as int,
            MAX_SEQ as int,
            SCALE as int,
        );
    }
    add_cnt_states(cat, &mut d, &inst.items, &inst.gold, 1, Ghost(nl), Ghost(na), Ghost(0));
    add_cnt_trans(
        cat,
        &mut d,
        &inst.gold,
        1,
        Ghost(nl),
        Ghost(na),
        Ghost((inst.items@.len() as int) * 100_000_000_000),
    );
    add_cnt_states(
        cat,
        &mut d,
        &inst.items,
        &pred,
        -1,
        Ghost(nl),
        Ghost(na),
        Ghost(
            (inst.items@.len() as int) * 100_000_000_000 + (inst.items@.len() as int) * (
            SCALE as int),
        ),
    );
    add_cnt_trans(
        cat,
        &mut d,
        &pred,
        -1,
        Ghost(nl),
        Ghost(na),
        Ghost(
            2 * ((inst.items@.len() as int) * 100_000_000_000) + (inst.items@.len() as int) * (
            SCALE as int),
        ),
    );
    let ghost dv = crate::context::row_view(d@);
    proof {
        assert(dv == phi_diff(*cat, *inst, path_view(pred@), f));
        assert(forall|j: int| 0 <= j < dv.len() ==> -DIFF_BOUND <= #[trigger] dv[j] <= DIFF_BOUND);
        // the catalog is a set of grid points, so the feature count is small
        crate::features::lemma_sf_len_bound(cat.sf(), nl, na);
        crate::features::lemma_tf_len_bound(cat.tf(), nl);
        vstd::arithmetic::mul::lemma_mul_upper_bound(
            nl,
            MAX_LABELS as int,
            na,
            crate::features::MAX_ATTRS as int,
        );
        vstd::arithmetic::mul::lemma_mul_upper_bound(nl, MAX_LABELS as int, nl, MAX_LABELS as int);
        assert(nf <= 2_100_000_000);
    }
    // the squared norm of the difference, rescaled
    let mut n2: i128 = 0;
    let mut k: usize = 0;
    while k < nf
        invariant
            d@.len() == nf == f,
            nf <= 2_100_000_000,
            dv == crate::context::row_view(d@),
            forall|j: int| 0 <= j < dv.len() ==> -DIFF_BOUND <= #[trigger] dv[j] <= DIFF_BOUND,
            k <= nf,
            n2 == sum_sq_scaled(dv, k as int),
            0 <= n2 <= (k as int) * 90_000_000_000_000_000_000_000int,
        decreases nf - k,
    {
        proof {
            crate::context::lemma_row_view_bridge(d@);
        }
        let di = d[k];
        proof {
            assert(0 <= di as int * di as int <= 90_000_000_000_000_000_000_000_000_000int)
                by (nonlinear_arith)
                requires
                    -300_000_000_000_000int <= di as int <= 300_000_000_000_000int,
            ;
        }
        let p: i128 = (di as i128) * (di as i128);
        let q = floor_div_i128(p, SCALE as i128);
        proof {
            vstd::arithmetic::div_mod::lemma_div_pos_is_pos(p as int, SCALE as int);
            vstd::arithmetic::div_mod::lemma_div_is_ordered(
                p as int,
                90_000_000_000_000_000_000_000_000_000int,
                SCALE as int,
            );
        }
        n2 = n2 + q;
        k = k + 1;
    }
    if n2 <= 0 {
        return ;
    }
    // the capped minimal-norm step size
    proof {
        assert(0 < loss as int * SCALE as int <= 3_000_000_000_000_000_000_000_000int)
            by (nonlinear_arith)
            requires
                0 < loss as int <= 3_000_000_000_000_000_000int,
                SCALE == 1_000_000i64,
        ;
    }
    let lp: i128 = (loss as i128) * (SCALE as i128);
    let tau0 = floor_div_i128(lp, n2);
    proof {
        vstd::arithmetic::div_mod::lemma_div_pos_is_pos(lp as int, n2 as int);
    }
    let tau: i64 = if tau0 > c as i128 {
        c
    } else {
        tau0 as i64
    };
    // move the weights along the difference
    let ghost w0 = w@;
    let mut k: usize = 0;
    while k < nf
        invariant
            w@.len() == nf == f == w0.len(),
            d@.len() == nf,
            dv == crate::context::row_view(d@),
            forall|j: int| 0 <= j < dv.len() ==> -DIFF_BOUND <= #[trigger] dv[j] <= DIFF_BOUND,
            0 <= tau <= C_MAX,
            k <= nf,
            forall|j: int| 0 <= j < w0.len() ==> -WEIGHT_BOUND <= #[trigger] w0[j] <= WEIGHT_BOUND,
            forall|j: int|
                0 <= j < k ==> (#[trigger] w@[j]) as int == clamp_w(
                    w0[j] + (tau as int * dv[j]) / (SCALE as int),
                ),
            forall|j: int| k <= j < nf ==> #[trigger] w@[j] == w0[j],
        decreases nf - k,
    {
        proof {
            crate::context::lemma_row_view_bridge(d@);
            assert(-300_000_000_000_000_000_000_000_000int <= tau as int * (d@[k as int] as int)
                <= 300_000_000_000_000_000_000_000_000int) by (nonlinear_arith)
                requires
                    0 <= tau as int <= 1_000_000_000_000int,
                    -300_000_000_000_000int <= d@[k as int] as int <= 300_000_000_000_000int,
            ;
        }
        let prod: i128 = (tau as i128) * (d[k] as i128);
        let delta = floor_div_i128(prod, SCALE as i128);
        proof {
            vstd::arithmetic::div_mod::lemma_div_is_ordered(
                prod as int,
                300_000_000_000_000_000_000_000_000int,
                SCALE as int,
            );
            vstd::arithmetic::div_mod::lemma_div_is_ordered(
                -300_000_000_000_000_000_000_000_000int,
                prod as int,
                SCALE as int,
            );
            crate::fixed::lemma_div_neg(300_000_000_000_000_000_000_000_000int, SCALE as int);
        }
        let nv = clamp_weight_wide((w[k] as i128) + delta);
        w.set(k, nv);
        k = k + 1;
    }
    proof {
        assert(w@ =~= pa_step(*cat, nl, c as int, w0, *inst));
    }
}

/// Trains a model by the passive-aggressive rule: features are generated from
/// the dataset with the given cutoff; each pass decodes every instance and,
/// when the margin constraint is violated, applies the minimal-norm correction
/// with the step size capped at the aggressiveness bound `c`.
pub fn train_passive_aggressive(
    attrs: Dictionary,
    labels: Dictionary,
    ds: &Dataset,
    epochs: usize,
    min_freq: u64,
    c: i64,
) -> (r: Result<Model, CrfError>)
    requires
        attrs.wf(),
        labels.wf(),
    ensures
        match r {
            Ok(m) => {
                &&& trainable(attrs@, labels@, *ds, epochs as int)
                &&& 1 <= c <= C_MAX
                &&& m.attrs@ == attrs@
                &&& m.labels@ == labels@
                &&& m.wf()
                &&& forall|y: int, a: int|
                    0 <= y < labels@.len() && 0 <= a < attrs@.len() ==> (
                    #[trigger] m.catalog.has_state(y, a) <==> ds_state_count(
                        ds.instances@,
                        y,
                        a,
                        ds.instances@.len() as int,
                    ) >= min_freq)
                &&& forall|i: int, j: int|
                    0 <= i < labels@.len() && 0 <= j < labels@.len() ==> (
                    #[trigger] m.catalog.has_trans(i, j) <==> ds_trans_count(
                        ds.instances@,
                        i,
                        j,
                        ds.instances@.len() as int,
                    ) >= min_freq)
                &&& m.weights@ == pa_result(
                    m.catalog,
                    labels@.len() as int,
                    c as int,
                    ds.instances@,
                    epochs as int,
                )
            },
            Err(e) => e == CrfError::TrainingDiverged && !(trainable(
                attrs@,
                labels@,
                *ds,
                epochs as int,
            ) && 1 <= c <= C_MAX),
        },
{
    let nl = labels.count();
    let na = attrs.count();
    if nl < 1 || nl > MAX_LABELS || na > MAX_ATTRS || epochs > MAX_EPOCHS {
        return Err(CrfError::TrainingDiverged);
    }
    if c < 1 || c > C_MAX {
        return Err(CrfError::TrainingDiverged);
    }
    if !check_dataset(ds, na, nl) {
        return Err(CrfError::TrainingDiverged);
    }
    let cat = FeatureCatalog::generate(ds, nl, na, min_freq);
    let ghost gnl = nl as int;
    let ghost gna = na as int;
    let nf = cat.num_features(Ghost(gnl), Ghost(gna));
    let mut w: Vec<i64> = Vec::new();
    for k in 0..nf
        invariant
            w@.len() == k,
            forall|u: int| 0 <= u < k ==> #[trigger] w@[u] == 0i64,
    {
        w.push(0);
    }
    let ghost f = (cat.sf().len() + cat.tf().len()) as nat;
    proof {
        assert(w@ =~= zeros(f));
    }
    let n = ds.instances.len();
    let ghost insts = ds.instances@;
    let mut e: usize = 0;
    while e < epochs
        invariant
            weights_ok(cat, w@, gnl, gna),
            w@.len() == f,
            nf == f,
            cat.wf(gnl, gna),
            1 <= nl <= MAX_LABELS,
            na <= MAX_ATTRS,
            gnl == nl as int,
            gna == na as int,
            1 <= c <= C_MAX,
            epochs <= MAX_EPOCHS,
            n == insts.len(),
            insts == ds.instances@,
            ds.wf(gna, gnl),
            e <= epochs,
            w@ == pa_epochs(cat, gnl, c as int, zeros(f), insts, e as int),
        decreases epochs - e,
    {
        let ghost we = w@;
        let mut i: usize = 0;
        while i < n
            invariant
                weights_ok(cat, w@, gnl, gna),
                w@.len() == f,
                nf == f,
                cat.wf(gnl, gna),
                1 <= nl <= MAX_LABELS,
                na <= MAX_ATTRS,
                gnl == nl as int,
                gna == na as int,
                1 <= c <= C_MAX,
                n == insts.len(),
                insts == ds.instances@,
                ds.wf(gna, gnl),
                i <= n,
                w@ == pa_pass(cat, gnl, c as int, we, insts, i as int),
                we == pa_epochs(cat, gnl, c as int, zeros(f), insts, e as int),
            decreases n - i,
        {
            proof {
                assert(insts[i as int].wf(gna, gnl));
            }
            pa_instance(&cat, &mut w, &ds.instances[i], nl, c, Ghost(gna));
            i = i + 1;
        }
        e = e + 1;
    }
    Ok(Model { attrs, labels, catalog: cat, weights: w })
}

/// Smallest admitted variance parameter for confidence-weighted updates.
pub const AROW_R_MIN: i64 = 1_000_000;

/// Largest admitted variance parameter for confidence-weighted updates.
pub const AROW_R_MAX: i64 = 1_000_000_000_000;

/// Clamp a confidence into `[0, SCALE]`.
pub open spec fn clamp_cv(x: int) -> int {
    if x < 0 {
        0
    } else if x > SCALE {
        SCALE as int
    } else {
        x
    }
}

/// A confidence vector: one value per feature, each within one unit.
pub open spec fn cv_ok(cv: Seq<i64>, f: nat) -> bool {
    &&& cv.len() == f
    &&& forall|k: int| 0 <= k < cv.len() ==> 0 <= #[trigger] cv[k] <= SCALE
}

/// A fresh confidence vector: full confidence for every feature.
pub open spec fn ones_cv(n: nat) -> Seq<i64> {
    Seq::new(n, |k: int| SCALE)
}

/// The confidence-weighted squared norm of a count difference, over the first
/// `k` features.
pub open spec fn vsum_spec(cv: Seq<i64>, d: Seq<int>, k: int) -> int
    decreases k,
{
    if k <= 0 {
        0
    } else {
        vsum_spec(cv, d, k - 1) + (cv[k - 1] * ((d[k - 1] * d[k - 1]) / (SCALE as int))) / (
        SCALE as int)
    }
}

/// One confidence-weighted step: decode the instance; on a margin violation,
/// move each weight along the difference scaled by its confidence, and shrink
/// the confidence of every touched feature, so frequently updated features
/// change more conservatively over time.
pub open spec fn arow_step(
    cat: FeatureCatalog,
    nl: int,
    r: int,
    w: Seq<i64>,
    cv: Seq<i64>,
    inst: Instance,
) -> (Seq<i64>, Seq<i64>) {
    let tt = inst.items@.len() as int;
    let f = w.len();
    if tt == 0 {
        (w, cv)
    } else {
        let st = state_mat_of(cat, w, nl, items_view(inst.items@));
        let tr = trans_mat_of(cat, w, nl);
        let pred = vit_path(st, tr, nl, tt);
        let gold = gold_view(inst.gold@);
        if pred == gold {
            (w, cv)
        } else {
            let cost = SCALE * hamming(pred, gold, tt);
            let loss = crate::context::path_score(st, tr, pred) - crate::context::path_score(
                st,
                tr,
                gold,
            ) + cost;
            if loss <= 0 {
                (w, cv)
            } else {
                let d = phi_diff(cat, inst, pred, f);
                let denom = vsum_spec(cv, d, f as int) + r;
                let alpha = (loss * SCALE) / denom;
                let w2 = Seq::new(
                    f,
                    |k: int|
                        clamp_w(
                            w[k] + (alpha * ((cv[k] * d[k]) / (SCALE as int))) / (SCALE as int),
                        ) as i64,
                );
                let cv2 = Seq::new(
                    f,
                    |k: int|
                        clamp_cv(
                            cv[k] - (((cv[k] * cv[k]) / (SCALE as int)) * ((d[k] * d[k]) / (
                            SCALE as int))) / denom,
                        ) as i64,
                );
                (w2, cv2)
            }
        }
    }
}

/// One pass over the first `i` instances, threading weights and confidences.
pub open spec fn arow_pass(
    cat: FeatureCatalog,
    nl: int,
    r: int,
    w: Seq<i64>,
    cv: Seq<i64>,
    instances: Seq<Instance>,
    i: int,
) -> (Seq<i64>, Seq<i64>)
    decreases i,
{
    if i <= 0 {
        (w, cv)
    } else {
        let p = arow_pass(cat, nl, r, w, cv, instances, i - 1);
        arow_step(cat, nl, r, p.0, p.1, instances[i - 1])
    }
}

/// `e` passes over the whole dataset.
pub open spec fn arow_epochs(
    cat: FeatureCatalog,
    nl: int,
    r: int,
    w: Seq<i64>,
    cv: Seq<i64>,
    instances: Seq<Instance>,
    e: int,
) -> (Seq<i64>, Seq<i64>)
    decreases e,
{
    if e <= 0 {
        (w, cv)
    } else {
        let p = arow_epochs(cat, nl, r, w, cv, instances, e - 1);
        arow_pass(cat, nl, r, p.0, p.1, instances, instances.len() as int)
    }
}

/// The confidence-weighted result: the weights after all passes, starting
/// from zero weights and full confidence.
pub open spec fn arow_result(
    cat: FeatureCatalog,
    nl: int,
    r: int,
    instances: Seq<Instance>,
    epochs: int,
) -> Seq<i64> {
    let f = (cat.sf().len() + cat.tf().len()) as nat;
    arow_epochs(cat, nl, r, zeros(f), ones_cv(f), instances, epochs).0
}

/// Clamp a wider intermediate value into the confidence range.
fn clamp_cv_wide(x: i128) -> (r: i64)
    ensures
        r as int == clamp_cv(x as int),
{
    if x < 0 {
        0
    } else if x > SCALE as i128 {
        SCALE
    } else {
        x as i64
    }
}

/// Applies one confidence-weighted step to the weights and confidences.
fn arow_instance(
    cat: &FeatureCatalog,
    w: &mut Vec<i64>,
    cv: &mut Vec<i64>,
    inst: &Instance,
    num_labels: usize,
    rparam: i64,
    Ghost(na): Ghost<int>,
)
    requires
        weights_ok(*cat, old(w)@, num_labels as int, na),
        cv_ok(old(cv)@, old(w)@.len()),
        1 <= num_labels <= MAX_LABELS,
        0 <= na <= MAX_ATTRS as int,
        inst.wf(na, num_labels as int),
        AROW_R_MIN <= rparam <= AROW_R_MAX,
    ensures
        (final(w)@, final(cv)@) == arow_step(
            *cat,
            num_labels as int,
            rparam as int,
            old(w)@,
            old(cv)@,
            *inst,
        ),
        weights_ok(*cat, final(w)@, num_labels as int, na),
        cv_ok(final(cv)@, final(w)@.len()),
{
    let ghost nl = num_labels as int;
    let tt = inst.items.len();
    if tt == 0 {
        return ;
    }
    let ctx = build_lattice(cat, w, num_labels, &inst.items, Ghost(na));
    let vr = ctx.viterbi();
    let pred = vr.0;
    if paths_eq(&pred, &inst.gold) {
        return ;
    }
    proof {
        crate::context::lemma_path_view_bridge(pred@);
        crate::context::lemma_path_view_bridge(inst.gold@);
    }
    let pred_score = ctx.score_path(&pred);
    let gold_score = ctx.score_path(&inst.gold);
    let mut mism: i64 = 0;
    for t in 0..tt
        invariant
            tt == pred@.len() == inst.gold@.len(),
            tt <= MAX_SEQ,
            mism as int == hamming(path_view(pred@), gold_view(inst.gold@), t as int),
            0 <= mism <= t,
    {
        proof {
            crate::context::lemma_path_view_bridge(pred@);
            crate::context::lemma_path_view_bridge(inst.gold@);
        }
        if pred[t] != inst.gold[t] {
            mism = mism + 1;
        }
    }
    let cost = mism * SCALE;
    let loss = pred_score - gold_score + cost;
    if loss <= 0 {
        return ;
    }
    let nf = w.len();
    let mut d: Vec<i64> = Vec::new();
    for k in 0..nf
        invariant
            d@.len() == k,
            forall|j: int| 0 <= j < k ==> #[trigger] d@[j] == 0i64,
    {
        d.push(0);
    }
    let ghost f = (cat.sf().len() + cat.tf().len()) as nat;
    proof {
        crate::context::lemma_row_view_bridge(d@);
        assert(crate::context::row_view(d@) =~= zeros_int(f));
        vstd::arithmetic::mul::lemma_mul_inequality(
            inst.items@.len() as int,
            MAX_SEQ as int,
            100_000_000_000int,
        );
        vstd::arithmetic::mul::lemma_mul_inequality(
            inst.items@.len() as int,
            MAX_SEQ as int,
            SCALE as int,
        );
    }
    add_cnt_states(cat, &mut d, &inst.items, &inst.gold, 1, Ghost(nl), Ghost(na), Ghost(0));
    add_cnt_trans(
        cat,
        &mut d,
        &inst.gold,
        1,
        Ghost(nl),
        Ghost(na),
        Ghost((inst.items@.len() as int) * 100_000_000_000),
    );
    add_cnt_states(
        cat,
        &mut d,
        &inst.items,
        &pred,
        -1,
        Ghost(nl),
        Ghost(na),
        Ghost(
            (inst.items@.len() as int) * 100_000_000_000 + (inst.items@.len() as int) * (
            SCALE as int),
        ),
    );
    add_cnt_trans(
        cat,
        &mut d,
        &pred,
        -1,
        Ghost(nl),
        Ghost(na),
        Ghost(
            2 * ((inst.items@.len() as int) * 100_000_000_000) + (inst.items@.len() as int) * (
            SCALE as int),
        ),
    );
    let ghost dv = crate::context::row_view(d@);
    proof {
        assert(dv == phi_diff(*cat, *inst, path_view(pred@), f));
        assert(forall|j: int| 0 <= j < dv.len() ==> -DIFF_BOUND <= #[trigger] dv[j] <= DIFF_BOUND);
        crate::features::lemma_sf_len_bound(cat.sf(), nl, na);
        crate::features::lemma_tf_len_bound(cat.tf(), nl);
        vstd::arithmetic::mul::lemma_mul_upper_bound(
            nl,
            MAX_LABELS as int,
            na,
            crate::features::MAX_ATTRS as int,
        );
        vstd::arithmetic::mul::lemma_mul_upper_bound(nl, MAX_LABELS as int, nl, MAX_LABELS as int);
        assert(nf <= 2_100_000_000);
    }
    // the confidence-weighted squared norm
    let mut vsum: i128 = 0;
    let mut k: usize = 0;
    while k < nf
        invariant
            d@.len() == nf == f,
            cv@.len() == nf,
            cv_ok(cv@, f),
            nf <= 2_100_000_000,
            dv == crate::context::row_view(d@),
            forall|j: int| 0 <= j < dv.len() ==> -DIFF_BOUND <= #[trigger] dv[j] <= DIFF_BOUND,
            k <= nf,
            vsum == vsum_spec(cv@, dv, k as int),
            0 <= vsum <= (k as int) * 90_000_000_000_000_000_000_000int,
        decreases nf - k,
    {
        proof {
            crate::context::lemma_row_view_bridge(d@);
        }
        let di = d[k];
        proof {
            assert(0 <= di as int * di as int <= 90_000_000_000_000_000_000_000_000_000int)
                by (nonlinear_arith)
                requires
                    -300_000_000_000_000int <= di as int <= 300_000_000_000_000int,
            ;
        }
        let p: i128 = (di as i128) * (di as i128);
        let q2 = floor_div_i128(p, SCALE as i128);
        proof {
            vstd::arithmetic::div_mod::lemma_div_pos_is_pos(p as int, SCALE as int);
            vstd::arithmetic::div_mod::lemma_div_is_ordered(
                p as int,
                90_000_000_000_000_000_000_000_000_000int,
                SCALE as int,
            );
            assert(0 <= cv@[k as int] as int * q2 as int
                <= 90_000_000_000_000_000_000_000_000_000int) by (nonlinear_arith)
                requires
                    0 <= cv@[k as int] as int <= 1_000_000int,
                    0 <= q2 as int <= 90_000_000_000_000_000_000_000int,
            ;
        }
        let cq: i128 = (cv[k] as i128) * q2;
        let term = floor_div_i128(cq, SCALE as i128);
        proof {
            vstd::arithmetic::div_mod::lemma_div_pos_is_pos(cq as int, SCALE as int);
            vstd::arithmetic::div_mod::lemma_div_is_ordered(
                cq as int,
                90_000_000_000_000_000_000_000_000_000int,
                SCALE as int,
            );
        }
        vsum = vsum + term;
        k = k + 1;
    }
    let denom: i128 = vsum + (rparam as i128);
    proof {
        assert(0 < loss as int * SCALE as int <= 3_000_000_000_000_000_000_000_000int)
            by (nonlinear_arith)
            requires
                0 < loss as int <= 3_000_000_000_000_000_000int,
                SCALE == 1_000_000i64,
        ;
    }
    let lp: i128 = (loss as i128) * (SCALE as i128);
    let alpha = floor_div_i128(lp, denom);
    proof {
        vstd::arithmetic::div_mod::lemma_div_pos_is_pos(lp as int, denom as int);
        vstd::arithmetic::div_mod::lemma_div_is_ordered(
            lp as int,
            3_000_000_000_000_000_000_000_000int,
            denom as int,
        );
        assert(3_000_000_000_000_000_000_000_000int / (denom as int)
            <= 3_000_000_000_000_000_000int) by {
            vstd::arithmetic::div_mod::lemma_div_is_ordered_by_denominator(
                3_000_000_000_000_000_000_000_000int,
                1_000_000int,
                denom as int,
            );
        }
    }
    // move the weights and shrink the confidences
    let ghost w0 = w@;
    let ghost cv0 = cv@;
    let mut k: usize = 0;
    while k < nf
        invariant
            w@.len() == nf == f == w0.len(),
            cv@.len() == nf == cv0.len(),
            d@.len() == nf,
            dv == crate::context::row_view(d@),
            forall|j: int| 0 <= j < dv.len() ==> -DIFF_BOUND <= #[trigger] dv[j] <= DIFF_BOUND,
            forall|j: int| 0 <= j < cv0.len() ==> 0 <= #[trigger] cv0[j] <= SCALE,
            0 <= alpha <= 3_000_000_000_000_000_000i128,
            1_000_000 <= denom <= 200_000_000_000_000_000_000_000_000_000_000i128,
            k <= nf,
            forall|j: int| 0 <= j < w0.len() ==> -WEIGHT_BOUND <= #[trigger] w0[j] <= WEIGHT_BOUND,
            forall|j: int|
                0 <= j < k ==> (#[trigger] w@[j]) as int == clamp_w(
                    w0[j] + (alpha as int * ((cv0[j] * dv[j]) / (SCALE as int))) / (SCALE as int),
                ),
            forall|j: int| k <= j < nf ==> #[trigger] w@[j] == w0[j],
            forall|j: int|
                0 <= j < k ==> (#[trigger] cv@[j]) as int == clamp_cv(
                    cv0[j] - (((cv0[j] * cv0[j]) / (SCALE as int)) * ((dv[j] * dv[j]) / (
                    SCALE as int))) / (denom as int),
                ),
            forall|j: int| k <= j < nf ==> #[trigger] cv@[j] == cv0[j],
        decreases nf - k,
    {
        proof {
            crate::context::lemma_row_view_bridge(d@);
            assert(-300_000_000_000_000_000_000int <= cv@[k as int] as int * (d@[k as int] as int)
                <= 300_000_000_000_000_000_000int) by (nonlinear_arith)
                requires
                    0 <= cv@[k as int] as int <= 1_000_000int,
                    -300_000_000_000_000int <= d@[k as int] as int <= 300_000_000_000_000int,
            ;
        }
        let cd: i128 = (cv[k] as i128) * (d[k] as i128);
        let t1 = floor_div_i128(cd, SCALE as i128);
        proof {
            vstd::arithmetic::div_mod::lemma_div_is_ordered(
                cd as int,
                300_000_000_000_000_000_000int,
                SCALE as int,
            );
            vstd::arithmetic::div_mod::lemma_div_is_ordered(
                -300_000_000_000_000_000_000int,
                cd as int,
                SCALE as int,
            );
            crate::fixed::lemma_div_neg(300_000_000_000_000_000_000int, SCALE as int);
            assert(-900_000_000_000_000_000_000_000_000_000_000int <= alpha as int * (t1 as int)
                <= 900_000_000_000_000_000_000_000_000_000_000int) by (nonlinear_arith)
                requires
                    0 <= alpha as int <= 3_000_000_000_000_000_000int,
                    -300_000_000_000_000int <= t1 as int <= 300_000_000_000_000int,
            ;
        }
        let at: i128 = alpha * t1;
        let delta = floor_div_i128(at, SCALE as i128);
        let nv = clamp_weight_wide((w[k] as i128) + delta);
        w.set(k, nv);
        // confidence shrink
        proof {
            assert(0 <= cv@[k as int] as int * (cv@[k as int] as int)
                <= 1_000_000_000_000int) by (nonlinear_arith)
                requires
                    0 <= cv@[k as int] as int <= 1_000_000int,
            ;
        }
        let cc: i128 = (cv[k] as i128) * (cv[k] as i128);
        let q1 = floor_div_i128(cc, SCALE as i128);
        proof {
            vstd::arithmetic::div_mod::lemma_div_pos_is_pos(cc as int, SCALE as int);
            vstd::arithmetic::div_mod::lemma_div_is_ordered(
                cc as int,
                1_000_000_000_000int,
                SCALE as int,
            );
            assert(0 <= (d@[k as int] as int) * (d@[k as int] as int)
                <= 90_000_000_000_000_000_000_000_000_000int) by (nonlinear_arith)
                requires
                    -300_000_000_000_000int <= d@[k as int] as int <= 300_000_000_000_000int,
            ;
        }
        let dd: i128 = (d[k] as i128) * (d[k] as i128);
        let q2 = floor_div_i128(dd, SCALE as i128);
        proof {
            vstd::arithmetic::div_mod::lemma_div_pos_is_pos(dd as int, SCALE as int);
            vstd::arithmetic::div_mod::lemma_div_is_ordered(
                dd as int,
                90_000_000_000_000_000_000_000_000_000int,
                SCALE as int,
            );
            assert(0 <= q1 as int * (q2 as int)
                <= 90_000_000_000_000_000_000_000_000_000_000int) by (nonlinear_arith)
                requires
                    0 <= q1 as int <= 1_000_000int,
                    0 <= q2 as int <= 90_000_000_000_000_000_000_000int,
            ;
        }
        let qq: i128 = q1 * q2;
        let dec = floor_div_i128(qq, denom);
        proof {
            vstd::arithmetic::div_mod::lemma_div_pos_is_pos(qq as int, denom as int);
            vstd::arithmetic::div_mod::lemma_div_is_ordered(
                qq as int,
                90_000_000_000_000_000_000_000_000_000_000int,
                denom as int,
            );
        }
        let ncv = clamp_cv_wide((cv[k] as i128) - dec);
        cv.set(k, ncv);
        k = k + 1;
    }
    proof {
        assert(w@ =~= arow_step(*cat, nl, rparam as int, w0, cv0, *inst).0);
        assert(cv@ =~= arow_step(*cat, nl, rparam as int, w0, cv0, *inst).1);
    }
}

/// Trains a model by confidence-weighted updates: features are generated from
/// the dataset with the given cutoff; each pass decodes every instance and,
/// on a margin violation, moves the weights along the feature-count
/// difference scaled by each feature's confidence, which shrinks as the
/// feature is updated.
pub fn train_arow(
    attrs: Dictionary,
    labels: Dictionary,
    ds: &Dataset,
    epochs: usize,
    min_freq: u64,
    variance: i64,
) -> (r: Result<Model, CrfError>)
    requires
        attrs.wf(),
        labels.wf(),
    ensures
        match r {
            Ok(m) => {
                &&& trainable(attrs@, labels@, *ds, epochs as int)
                &&& AROW_R_MIN <= variance <= AROW_R_MAX
                &&& m.attrs@ == attrs@
                &&& m.labels@ == labels@
                &&& m.wf()
                &&& forall|y: int, a: int|
                    0 <= y < labels@.len() && 0 <= a < attrs@.len() ==> (
                    #[trigger] m.catalog.has_state(y, a) <==> ds_state_count(
                        ds.instances@,
                        y,
                        a,
                        ds.instances@.len() as int,
                    ) >= min_freq)
                &&& forall|i: int, j: int|
                    0 <= i < labels@.len() && 0 <= j < labels@.len() ==> (
                    #[trigger] m.catalog.has_trans(i, j) <==> ds_trans_count(
                        ds.instances@,
                        i,
                        j,
                        ds.instances@.len() as int,
                    ) >= min_freq)
                &&& m.weights@ == arow_result(
                    m.catalog,
                    labels@.len() as int,
                    variance as int,
                    ds.instances@,
                    epochs as int,
                )
            },
            Err(e) => e == CrfError::TrainingDiverged && !(trainable(
                attrs@,
                labels@,
                *ds,
                epochs as int,
            ) && AROW_R_MIN <= variance <= AROW_R_MAX),
        },
{
    let nl = labels.count();
    let na = attrs.count();
    if nl < 1 || nl > MAX_LABELS || na > MAX_ATTRS || epochs > MAX_EPOCHS {
        return Err(CrfError::TrainingDiverged);
    }
    if variance < AROW_R_MIN || variance > AROW_R_MAX {
        return Err(CrfError::TrainingDiverged);
    }
    if !check_dataset(ds, na, nl) {
        return Err(CrfError::TrainingDiverged);
    }
    let cat = FeatureCatalog::generate(ds, nl, na, min_freq);
    let ghost gnl = nl as int;
    let ghost gna = na as int;
    let nf = cat.num_features(Ghost(gnl), Ghost(gna));
    let mut w: Vec<i64> = Vec::new();
    let mut cv: Vec<i64> = Vec::new();
    for k in 0..nf
        invariant
            w@.len() == k,
            cv@.len() == k,
            forall|u: int| 0 <= u < k ==> #[trigger] w@[u] == 0i64,
            forall|u: int| 0 <= u < k ==> #[trigger] cv@[u] == SCALE,
    {
        w.push(0);
        cv.push(SCALE);
    }
    let ghost f = (cat.sf().len() + cat.tf().len()) as nat;
    proof {
        assert(w@ =~= zeros(f));
        assert(cv@ =~= ones_cv(f));
    }
    let n = ds.instances.len();
    let ghost insts = ds.instances@;
    let mut e: usize = 0;
    while e < epochs
        invariant
            weights_ok(cat, w@, gnl, gna),
            cv_ok(cv@, f),
            w@.len() == f,
            nf == f,
            cat.wf(gnl, gna),
            1 <= nl <= MAX_LABELS,
            na <= MAX_ATTRS,
            gnl == nl as int,
            gna == na as int,
            AROW_R_MIN <= variance <= AROW_R_MAX,
            epochs <= MAX_EPOCHS,
            n == insts.len(),
            insts == ds.instances@,
            ds.wf(gna, gnl),
            e <= epochs,
            (w@, cv@) == arow_epochs(cat, gnl, variance as int, zeros(f), ones_cv(f), insts, e as int),
        decreases epochs - e,
    {
        let ghost we = w@;
        let ghost cve = cv@;
        let mut i: usize = 0;
        while i < n
            invariant
                weights_ok(cat, w@, gnl, gna),
                cv_ok(cv@, f),
                w@.len() == f,
                nf == f,
                cat.wf(gnl, gna),
                1 <= nl <= MAX_LABELS,
                na <= MAX_ATTRS,
                gnl == nl as int,
                gna == na as int,
                AROW_R_MIN <= variance <= AROW_R_MAX,
                n == insts.len(),
                insts == ds.instances@,
                ds.wf(gna, gnl),
                i <= n,
                (w@, cv@) == arow_pass(cat, gnl, variance as int, we, cve, insts, i as int),
                (we, cve) == arow_epochs(
                    cat,
                    gnl,
                    variance as int,
                    zeros(f),
                    ones_cv(f),
                    insts,
                    e as int,
                ),
            decreases n - i,
        {
            proof {
                assert(insts[i as int].wf(gna, gnl));
            }
            arow_instance(&cat, &mut w, &mut cv, &ds.instances[i], nl, variance, Ghost(gna));
            i = i + 1;
        }
        e = e + 1;
    }
    Ok(Model { attrs, labels, catalog: cat, weights: w })
}

} // verus!
