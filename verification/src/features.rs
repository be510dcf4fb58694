use vstd::prelude::*;

use crate::data::{AttrVal, Dataset, Instance, Item};
use crate::fixed::MAX_ITEM_ATTRS;
use crate::context::{MAX_LABELS, MAX_SEQ};

verus! {

/// Largest attribute alphabet the catalog generator admits; keeps feature ids
/// inside `usize` on every platform.
pub const MAX_ATTRS: usize = 2_000_000;

/// A candidate state feature: a label paired with an attribute.
#[derive(Clone, Copy, PartialEq, Eq, Structural, Debug)]
pub struct StateFeature {
    pub label: usize,
    pub attr: usize,
}

/// A candidate transition feature: a source label paired with a target label.
#[derive(Clone, Copy, PartialEq, Eq, Structural, Debug)]
pub struct TransFeature {
    pub from: usize,
    pub to: usize,
}

/// Lexicographic order on state features: by label, then attribute.
pub open spec fn sf_lt(x: StateFeature, y: StateFeature) -> bool {
    x.label < y.label || (x.label == y.label && x.attr < y.attr)
}

/// Lexicographic order on transition features: by source, then target.
pub open spec fn tf_lt(x: TransFeature, y: TransFeature) -> bool {
    x.from < y.from || (x.from == y.from && x.to < y.to)
}

/// Occurrences of attribute `a` among the first `k` observations of an item.
pub open spec fn item_attr_count(attrs: Seq<AttrVal>, a: int, k: int) -> nat
    decreases k,
{
    if k <= 0 {
        0
    } else {
        item_attr_count(attrs, a, k - 1) + if attrs[k - 1].id == a {
            1nat
        } else {
            0nat
        }
    }
}

/// State observations of `(y, a)` over the first `t` positions of an instance:
/// occurrences of attribute `a` at positions whose gold label is `y`.
pub open spec fn inst_state_count(
    items: Seq<Item>,
    gold: Seq<usize>,
    y: int,
    a: int,
    t: int,
) -> nat
    decreases t,
{
    if t <= 0 {
        0
    } else {
        inst_state_count(items, gold, y, a, t - 1) + if gold[t - 1] == y {
            item_attr_count(items[t - 1].attrs@, a, items[t - 1].attrs@.len() as int)
        } else {
            0nat
        }
    }
}

/// State observations of `(y, a)` over the first `i` instances of a dataset.
pub open spec fn ds_state_count(instances: Seq<Instance>, y: int, a: int, i: int) -> nat
    decreases i,
{
    if i <= 0 {
        0
    } else {
        ds_state_count(instances, y, a, i - 1) + inst_state_count(
            instances[i - 1].items@,
            instances[i - 1].gold@,
            y,
            a,
            instances[i - 1].items@.len() as int,
        )
    }
}

/// Adjacent gold pairs `(i, j)` over the first `t` positions of an instance.
pub open spec fn inst_trans_count(gold: Seq<usize>, i: int, j: int, t: int) -> nat
    decreases t,
{
    if t <= 1 {
        0
    } else {
        inst_trans_count(gold, i, j, t - 1) + if gold[t - 2] == i && gold[t - 1] == j {
            1nat
        } else {
            0nat
        }
    }
}

/// Adjacent gold pairs `(i, j)` over the first `n` instances of a dataset.
pub open spec fn ds_trans_count(instances: Seq<Instance>, i: int, j: int, n: int) -> nat
    decreases n,
{
    if n <= 0 {
        0
    } else {
        ds_trans_count(instances, i, j, n - 1) + inst_trans_count(
            instances[n - 1].gold@,
            i,
            j,
            instances[n - 1].gold@.len() as int,
        )
    }
}

/// An item yields at most one observation per entry.
pub proof fn lemma_item_attr_count_bound(attrs: Seq<AttrVal>, a: int, k: int)
    requires
        0 <= k,
    ensures
        item_attr_count(attrs, a, k) <= k,
    decreases k,
{
    if k > 0 {
        lemma_item_attr_count_bound(attrs, a, k - 1);
    }
}

/// An instance yields at most `MAX_ITEM_ATTRS` state observations per position.
pub proof fn lemma_inst_state_count_bound(
    items: Seq<Item>,
    gold: Seq<usize>,
    y: int,
    a: int,
    t: int,
    num_attrs: int,
)
    requires
        0 <= t <= items.len(),
        forall|u: int| 0 <= u < items.len() ==> (#[trigger] items[u]).wf(num_attrs),
    ensures
        inst_state_count(items, gold, y, a, t) <= t * MAX_ITEM_ATTRS,
    decreases t,
{
    if t > 0 {
        lemma_inst_state_count_bound(items, gold, y, a, t - 1, num_attrs);
        lemma_item_attr_count_bound(items[t - 1].attrs@, a, items[t - 1].attrs@.len() as int);
    }
}

/// An instance yields at most one transition observation per position.
pub proof fn lemma_inst_trans_count_bound(gold: Seq<usize>, i: int, j: int, t: int)
    requires
        0 <= t,
    ensures
        inst_trans_count(gold, i, j, t) <= t,
    decreases t,
{
    if t > 1 {
        lemma_inst_trans_count_bound(gold, i, j, t - 1);
    }
}

/// Well-formed feature tables against `l` labels and `na` attributes: both in
/// strict lexicographic order (hence duplicate-free), every id in range.
pub open spec fn wf_tables(sf: Seq<StateFeature>, tf: Seq<TransFeature>, l: int, na: int) -> bool {
    &&& forall|k1: int, k2: int|
        0 <= k1 < k2 < sf.len() ==> sf_lt(#[trigger] sf[k1], #[trigger] sf[k2])
    &&& forall|k: int|
        0 <= k < sf.len() ==> (#[trigger] sf[k]).label < l && sf[k].attr < na
    &&& forall|k1: int, k2: int|
        0 <= k1 < k2 < tf.len() ==> tf_lt(#[trigger] tf[k1], #[trigger] tf[k2])
    &&& forall|k: int|
        0 <= k < tf.len() ==> (#[trigger] tf[k]).from < l && tf[k].to < l
    &&& sf.len() + tf.len() <= usize::MAX
}

/// Positions in a strictly ordered state table grow at least as fast as the
/// lexicographic code of their entries.
proof fn lemma_sf_code_grows(sf: Seq<StateFeature>, na: int, k: int)
    requires
        forall|k1: int, k2: int|
            0 <= k1 < k2 < sf.len() ==> sf_lt(#[trigger] sf[k1], #[trigger] sf[k2]),
        forall|u: int| 0 <= u < sf.len() ==> (#[trigger] sf[u]).attr < na,
        0 < na,
        0 <= k < sf.len(),
    ensures
        k <= sf[k].label * na + sf[k].attr,
    decreases k,
{
    if k > 0 {
        lemma_sf_code_grows(sf, na, k - 1);
        assert(sf_lt(sf[k - 1], sf[k]));
        assert(sf[k - 1].label * na + sf[k - 1].attr < sf[k].label * na + sf[k].attr)
            by (nonlinear_arith)
            requires
                0 < na,
                sf[k - 1].attr < na,
                sf[k].attr < na,
                sf[k - 1].label < sf[k].label || (sf[k - 1].label == sf[k].label
                    && sf[k - 1].attr < sf[k].attr),
        ;
    }
}

/// A strictly ordered state table over `l` labels and `na` attributes holds at
/// most one entry per grid point.
pub proof fn lemma_sf_len_bound(sf: Seq<StateFeature>, l: int, na: int)
    requires
        forall|k1: int, k2: int|
            0 <= k1 < k2 < sf.len() ==> sf_lt(#[trigger] sf[k1], #[trigger] sf[k2]),
        forall|u: int|
            0 <= u < sf.len() ==> (#[trigger] sf[u]).label < l && sf[u].attr < na,
        0 <= l,
        0 <= na,
    ensures
        sf.len() <= l * na,
{
    if sf.len() > 0 {
        assert(sf[0].attr < na);
        let k = sf.len() - 1;
        lemma_sf_code_grows(sf, na, k as int);
        assert(sf[k as int].label * na + sf[k as int].attr < l * na) by (nonlinear_arith)
            requires
                0 < na,
                sf[k as int].label < l,
                0 <= sf[k as int].label,
                0 <= sf[k as int].attr < na,
        ;
    }
}

/// Positions in a strictly ordered transition table grow at least as fast as
/// the lexicographic code of their entries.
proof fn lemma_tf_code_grows(tf: Seq<TransFeature>, l: int, k: int)
    requires
        forall|k1: int, k2: int|
            0 <= k1 < k2 < tf.len() ==> tf_lt(#[trigger] tf[k1], #[trigger] tf[k2]),
        forall|u: int| 0 <= u < tf.len() ==> (#[trigger] tf[u]).to < l,
        0 < l,
        0 <= k < tf.len(),
    ensures
        k <= tf[k].from * l + tf[k].to,
    decreases k,
{
    if k > 0 {
        lemma_tf_code_grows(tf, l, k - 1);
        assert(tf_lt(tf[k - 1], tf[k]));
        assert(tf[k - 1].from * l + tf[k - 1].to < tf[k].from * l + tf[k].to)
            by (nonlinear_arith)
            requires
                0 < l,
                tf[k - 1].to < l,
                tf[k].to < l,
                tf[k - 1].from < tf[k].from || (tf[k - 1].from == tf[k].from && tf[k - 1].to
                    < tf[k].to),
        ;
    }
}

/// A strictly ordered transition table over `l` labels holds at most one
/// entry per label pair.
pub proof fn lemma_tf_len_bound(tf: Seq<TransFeature>, l: int)
    requires
        forall|k1: int, k2: int|
            0 <= k1 < k2 < tf.len() ==> tf_lt(#[trigger] tf[k1], #[trigger] tf[k2]),
        forall|u: int| 0 <= u < tf.len() ==> (#[trigger] tf[u]).from < l && tf[u].to < l,
        0 <= l,
    ensures
        tf.len() <= l * l,
{
    if tf.len() > 0 {
        assert(tf[0].to < l);
        let k = tf.len() - 1;
        lemma_tf_code_grows(tf, l, k as int);
        assert(tf[k as int].from * l + tf[k as int].to < l * l) by (nonlinear_arith)
            requires
                0 < l,
                tf[k as int].from < l,
                0 <= tf[k as int].from,
                0 <= tf[k as int].to < l,
        ;
    }
}

/// A table whose adjacent entries are strictly ordered is strictly ordered
/// throughout.
pub proof fn lemma_sf_adjacent_sorted(sf: Seq<StateFeature>, k1: int, k2: int)
    requires
        forall|k: int| 0 <= k < sf.len() - 1 ==> sf_lt(#[trigger] sf[k], sf[k + 1]),
        0 <= k1 < k2 < sf.len(),
    ensures
        sf_lt(sf[k1], sf[k2]),
    decreases k2 - k1,
{
    if k2 > k1 + 1 {
        lemma_sf_adjacent_sorted(sf, k1, k2 - 1);
        assert(sf_lt(sf[k2 - 1], sf[k2]));
    }
}

/// A table whose adjacent entries are strictly ordered is strictly ordered
/// throughout.
pub proof fn lemma_tf_adjacent_sorted(tf: Seq<TransFeature>, k1: int, k2: int)
    requires
        forall|k: int| 0 <= k < tf.len() - 1 ==> tf_lt(#[trigger] tf[k], tf[k + 1]),
        0 <= k1 < k2 < tf.len(),
    ensures
        tf_lt(tf[k1], tf[k2]),
    decreases k2 - k1,
{
    if k2 > k1 + 1 {
        lemma_tf_adjacent_sorted(tf, k1, k2 - 1);
        assert(tf_lt(tf[k2 - 1], tf[k2]));
    }
}

/// The feature table: every admitted state feature, then every admitted
/// transition feature, each in strict lexicographic order.  The dense id of
/// state feature `k` is `k`; the dense id of transition feature `k` is
/// `state_feats.len() + k`, so ids partition into a contiguous state range
/// followed by a contiguous transition range.
pub struct FeatureCatalog {
    pub state_feats: Vec<StateFeature>,
    pub trans_feats: Vec<TransFeature>,
}

impl FeatureCatalog {
    pub open spec fn sf(&self) -> Seq<StateFeature> {
        self.state_feats@
    }

    pub open spec fn tf(&self) -> Seq<TransFeature> {
        self.trans_feats@
    }

    /// Well-formed against `l` labels and `na` attributes: both tables are in
    /// strict lexicographic order (hence duplicate-free) and every id is in
    /// range.
    pub open spec fn wf(&self, l: int, na: int) -> bool {
        wf_tables(self.sf(), self.tf(), l, na)
    }

    /// Whether a state feature for `(y, a)` was admitted.
    pub open spec fn has_state(&self, y: int, a: int) -> bool {
        exists|k: int|
            0 <= k < self.sf().len() && (#[trigger] self.sf()[k]).label == y && self.sf()[k].attr
                == a
    }

    /// The dense id of the state feature for `(y, a)`.
    pub open spec fn state_index(&self, y: int, a: int) -> int {
        choose|k: int|
            0 <= k < self.sf().len() && (#[trigger] self.sf()[k]).label == y && self.sf()[k].attr
                == a
    }

    /// Whether a transition feature for `(i, j)` was admitted.
    pub open spec fn has_trans(&self, i: int, j: int) -> bool {
        exists|k: int|
            0 <= k < self.tf().len() && (#[trigger] self.tf()[k]).from == i && self.tf()[k].to == j
    }

    /// The position of the transition feature for `(i, j)` within the
    /// transition range.
    pub open spec fn trans_index(&self, i: int, j: int) -> int {
        choose|k: int|
            0 <= k < self.tf().len() && (#[trigger] self.tf()[k]).from == i && self.tf()[k].to == j
    }

    /// Total number of features; also the length a weight vector must have.
    pub open spec fn num_features_spec(&self) -> int {
        self.sf().len() as int + self.tf().len() as int
    }

    /// The weight of the state feature for `(y, a)` under a weight vector, or
    /// zero when no such feature was admitted.
    pub open spec fn state_weight(&self, w: Seq<i64>, y: int, a: int) -> int {
        if self.has_state(y, a) {
            w[self.state_index(y, a)] as int
        } else {
            0
        }
    }

    /// The weight of the transition feature for `(i, j)` under a weight
    /// vector, or zero when no such feature was admitted.
    pub open spec fn trans_weight(&self, w: Seq<i64>, i: int, j: int) -> int {
        if self.has_trans(i, j) {
            w[self.sf().len() + self.trans_index(i, j)] as int
        } else {
            0
        }
    }

    /// A strictly ordered table holds each pair at most once.
    pub proof fn lemma_state_index_unique(&self, l: int, na: int, y: int, a: int, k: int)
        requires
            self.wf(l, na),
            0 <= k < self.sf().len(),
            self.sf()[k].label == y,
            self.sf()[k].attr == a,
        ensures
            self.has_state(y, a),
            self.state_index(y, a) == k,
    {
        let k2 = self.state_index(y, a);
        if k2 != k {
            if k2 < k {
                assert(sf_lt(self.sf()[k2], self.sf()[k]));
            } else {
                assert(sf_lt(self.sf()[k], self.sf()[k2]));
            }
        }
    }

    /// A strictly ordered table holds each pair at most once.
    pub proof fn lemma_trans_index_unique(&self, l: int, na: int, i: int, j: int, k: int)
        requires
            self.wf(l, na),
            0 <= k < self.tf().len(),
            self.tf()[k].from == i,
            self.tf()[k].to == j,
        ensures
            self.has_trans(i, j),
            self.trans_index(i, j) == k,
    {
        let k2 = self.trans_index(i, j);
        if k2 != k {
            if k2 < k {
                assert(tf_lt(self.tf()[k2], self.tf()[k]));
            } else {
                assert(tf_lt(self.tf()[k], self.tf()[k2]));
            }
        }
    }

    /// Total number of features.
    pub fn num_features(&self, Ghost(l): Ghost<int>, Ghost(na): Ghost<int>) -> (n: usize)
        requires
            self.wf(l, na),
        ensures
            n == self.num_features_spec(),
    {
        self.state_feats.len() + self.trans_feats.len()
    }

    /// The dense id of the state feature for `(y, a)`, if one was admitted.
    pub fn state_feature_id(&self, y: usize, a: usize, Ghost(l): Ghost<int>, Ghost(na): Ghost<
        int,
    >) -> (r: Option<usize>)
        requires
            self.wf(l, na),
        ensures
            match r {
                Some(k) => self.has_state(y as int, a as int) && k == self.state_index(
                    y as int,
                    a as int,
                ) && k < self.sf().len(),
                None => !self.has_state(y as int, a as int),
            },
    {
        let n = self.state_feats.len();
        for k in 0..n
            invariant
                n == self.sf().len(),
                self.wf(l, na),
                forall|u: int|
                    0 <= u < k ==> !((#[trigger] self.sf()[u]).label == y && self.sf()[u].attr
                        == a),
        {
            let f = self.state_feats[k];
            if f.label == y && f.attr == a {
                proof {
                    self.lemma_state_index_unique(l, na, y as int, a as int, k as int);
                }
                return Some(k);
            }
        }
        None
    }

    /// The dense id of the transition feature for `(i, j)`, if one was
    /// admitted: its position within the transition range, offset by the size
    /// of the state range.
    pub fn trans_feature_id(&self, i: usize, j: usize, Ghost(l): Ghost<int>, Ghost(na): Ghost<
        int,
    >) -> (r: Option<usize>)
        requires
            self.wf(l, na),
        ensures
            match r {
                Some(k) => self.has_trans(i as int, j as int) && k == self.sf().len()
                    + self.trans_index(i as int, j as int) && k < self.num_features_spec(),
                None => !self.has_trans(i as int, j as int),
            },
    {
        let n = self.trans_feats.len();
        for k in 0..n
            invariant
                n == self.tf().len(),
                self.wf(l, na),
                forall|u: int|
                    0 <= u < k ==> !((#[trigger] self.tf()[u]).from == i && self.tf()[u].to == j),
        {
            let f = self.trans_feats[k];
            if f.from == i && f.to == j {
                proof {
                    self.lemma_trans_index_unique(l, na, i as int, j as int, k as int);
                }
                return Some(self.state_feats.len() + k);
            }
        }
        None
    }
}

/// Counts occurrences of attribute `a` in one item.
fn count_attr_in_item(item: &Item, a: usize) -> (c: u64)
    requires
        item.attrs@.len() <= MAX_ITEM_ATTRS,
    ensures
        c == item_attr_count(item.attrs@, a as int, item.attrs@.len() as int),
        c <= MAX_ITEM_ATTRS,
{
    let n = item.attrs.len();
    let mut c: u64 = 0;
    for k in 0..n
        invariant
            n == item.attrs@.len() <= MAX_ITEM_ATTRS,
            c == item_attr_count(item.attrs@, a as int, k as int),
            c <= k,
    {
        proof {
            lemma_item_attr_count_bound(item.attrs@, a as int, k as int);
        }
        if item.attrs[k].id == a {
            c = c + 1;
        }
    }
    c
}

/// Counts state observations of `(y, a)` in one instance.
fn count_state_in_instance(inst: &Instance, y: usize, a: usize, Ghost(na): Ghost<int>, Ghost(
    nl,
): Ghost<int>) -> (c: u64)
    requires
        inst.wf(na, nl),
    ensures
        c == inst_state_count(inst.items@, inst.gold@, y as int, a as int, inst.items@.len() as int),
        c <= 1_000_000,
{
    let n = inst.items.len();
    let mut c: u64 = 0;
    for t in 0..n
        invariant
            inst.wf(na, nl),
            n == inst.items@.len() <= MAX_SEQ,
            c == inst_state_count(inst.items@, inst.gold@, y as int, a as int, t as int),
            c <= t * MAX_ITEM_ATTRS,
    {
        if inst.gold[t] == y {
            let d = count_attr_in_item(&inst.items[t], a);
            c = c + d;
        }
    }
    c
}

/// Counts state observations of `(y, a)` over a whole dataset.
fn count_state_in_dataset(ds: &Dataset, y: usize, a: usize, Ghost(na): Ghost<int>, Ghost(
    nl,
): Ghost<int>) -> (c: u64)
    requires
        ds.wf(na, nl),
    ensures
        c == ds_state_count(ds.instances@, y as int, a as int, ds.instances@.len() as int),
{
    let n = ds.instances.len();
    let mut c: u64 = 0;
    for i in 0..n
        invariant
            ds.wf(na, nl),
            n == ds.instances@.len(),
            c == ds_state_count(ds.instances@, y as int, a as int, i as int),
            c <= i as u64 * 1_000_000u64,
    {
        let d = count_state_in_instance(&ds.instances[i], y, a, Ghost(na), Ghost(nl));
        c = c + d;
    }
    c
}

/// Counts adjacent gold pairs `(i, j)` in one instance.
fn count_trans_in_instance(inst: &Instance, i: usize, j: usize) -> (c: u64)
    requires
        inst.gold@.len() <= MAX_SEQ,
    ensures
        c == inst_trans_count(inst.gold@, i as int, j as int, inst.gold@.len() as int),
        c <= MAX_SEQ,
{
    let n = inst.gold.len();
    let mut c: u64 = 0;
    if n <= 1 {
        return 0;
    }
    let mut t: usize = 2;
    proof {
        assert(inst_trans_count(inst.gold@, i as int, j as int, 1) == 0);
    }
    c = if inst.gold[0] == i && inst.gold[1] == j {
        1
    } else {
        0
    };
    while t < n
        invariant
            n == inst.gold@.len() <= MAX_SEQ,
            2 <= t <= n,
            c == inst_trans_count(inst.gold@, i as int, j as int, t as int),
            c <= t,
        decreases n - t,
    {
        if inst.gold[t - 1] == i && inst.gold[t] == j {
            c = c + 1;
        }
        t = t + 1;
    }
    c
}

/// Counts adjacent gold pairs `(i, j)` over a whole dataset.
fn count_trans_in_dataset(ds: &Dataset, i: usize, j: usize, Ghost(na): Ghost<int>, Ghost(
    nl,
): Ghost<int>) -> (c: u64)
    requires
        ds.wf(na, nl),
    ensures
        c == ds_trans_count(ds.instances@, i as int, j as int, ds.instances@.len() as int),
{
    let n = ds.instances.len();
    let mut c: u64 = 0;
    for u in 0..n
        invariant
            ds.wf(na, nl),
            n == ds.instances@.len(),
            c == ds_trans_count(ds.instances@, i as int, j as int, u as int),
            c <= u as u64 * 1000u64,
    {
        proof {
            assert(ds.instances@[u as int].wf(na, nl));
            assert(ds.instances@[u as int].gold@.len() <= MAX_SEQ);
            lemma_inst_trans_count_bound(
                ds.instances@[u as int].gold@,
                i as int,
                j as int,
                ds.instances@[u as int].gold@.len() as int,
            );
        }
        let d = count_trans_in_instance(&ds.instances[u], i, j);
        c = c + d;
    }
    c
}

impl FeatureCatalog {
    /// Scans a dataset and builds the feature table: a state feature for every
    /// `(label, attribute)` pair observed at least `cutoff` times, and a
    /// transition feature for every adjacent gold label pair observed at least
    /// `cutoff` times.  State features come first, grouped by label and then
    /// attribute; transition features follow, grouped by source label.
    pub fn generate(ds: &Dataset, num_labels: usize, num_attrs: usize, cutoff: u64) -> (cat:
        FeatureCatalog)
        requires
            num_labels <= MAX_LABELS,
            num_attrs <= MAX_ATTRS,
            ds.wf(num_attrs as int, num_labels as int),
        ensures
            cat.wf(num_labels as int, num_attrs as int),
            forall|y: int, a: int|
                0 <= y < num_labels && 0 <= a < num_attrs ==> (#[trigger] cat.has_state(y, a)
                    <==> ds_state_count(ds.instances@, y, a, ds.instances@.len() as int)
                    >= cutoff),
            forall|i: int, j: int|
                0 <= i < num_labels && 0 <= j < num_labels ==> (#[trigger] cat.has_trans(i, j)
                    <==> ds_trans_count(ds.instances@, i, j, ds.instances@.len() as int)
                    >= cutoff),
    {
        let ghost ilen = ds.instances@.len() as int;
        let mut sf: Vec<StateFeature> = Vec::new();
        for y in 0..num_labels
            invariant
                num_labels <= MAX_LABELS,
                num_attrs <= MAX_ATTRS,
                ds.wf(num_attrs as int, num_labels as int),
                ilen == ds.instances@.len() as int,
                sf@.len() <= y * num_attrs,
                forall|k1: int, k2: int|
                    0 <= k1 < k2 < sf@.len() ==> sf_lt(#[trigger] sf@[k1], #[trigger] sf@[k2]),
                forall|k: int|
                    0 <= k < sf@.len() ==> (#[trigger] sf@[k]).label < y && sf@[k].attr
                        < num_attrs,
                forall|yy: int, aa: int|
                    0 <= yy < y && 0 <= aa < num_attrs ==> ((exists|k: int|
                        0 <= k < sf@.len() && (#[trigger] sf@[k]).label == yy && sf@[k].attr
                            == aa) <==> ds_state_count(ds.instances@, yy, aa, ilen) >= cutoff),
        {
            for a in 0..num_attrs
                invariant
                    num_labels <= MAX_LABELS,
                    num_attrs <= MAX_ATTRS,
                    ds.wf(num_attrs as int, num_labels as int),
                    ilen == ds.instances@.len() as int,
                    y < num_labels,
                    sf@.len() <= y * num_attrs + a,
                    forall|k1: int, k2: int|
                        0 <= k1 < k2 < sf@.len() ==> sf_lt(#[trigger] sf@[k1], #[trigger] sf@[k2]),
                    forall|k: int|
                        0 <= k < sf@.len() ==> ((#[trigger] sf@[k]).label < y || (sf@[k].label
                            == y && sf@[k].attr < a)) && sf@[k].attr < num_attrs && sf@[k].label
                            < num_labels,
                    forall|yy: int, aa: int|
                        0 <= yy < num_labels && 0 <= aa < num_attrs && (yy < y || (yy == y && aa
                            < a)) ==> ((exists|k: int|
                            0 <= k < sf@.len() && (#[trigger] sf@[k]).label == yy && sf@[k].attr
                                == aa) <==> ds_state_count(ds.instances@, yy, aa, ilen)
                            >= cutoff),
            {
                let ghost entry_sf = sf@;
                let c = count_state_in_dataset(
                    ds,
                    y,
                    a,
                    Ghost(num_attrs as int),
                    Ghost(num_labels as int),
                );
                if c >= cutoff {
                    sf.push(StateFeature { label: y, attr: a });
                    proof {
                        assert(sf@[sf@.len() - 1] == (StateFeature { label: y, attr: a }));
                        assert forall|k1: int, k2: int|
                            0 <= k1 < k2 < sf@.len() implies sf_lt(
                            #[trigger] sf@[k1],
                            #[trigger] sf@[k2],
                        ) by {
                            if k2 < sf@.len() - 1 {
                                assert(sf@[k1] == entry_sf[k1] && sf@[k2] == entry_sf[k2]);
                            } else {
                                assert(sf@[k1] == entry_sf[k1]);
                            }
                        }
                    }
                }
                proof {
                    assert forall|yy: int, aa: int|
                        0 <= yy < num_labels && 0 <= aa < num_attrs && (yy < y || (yy == y && aa
                            < a + 1)) implies ((exists|k: int|
                        0 <= k < sf@.len() && (#[trigger] sf@[k]).label == yy && sf@[k].attr
                            == aa) <==> ds_state_count(ds.instances@, yy, aa, ilen)
                        >= cutoff) by {
                        if yy == y && aa == a {
                            if c >= cutoff {
                                assert(sf@[sf@.len() - 1].label == yy && sf@[sf@.len() - 1].attr
                                    == aa);
                            } else {
                                if exists|k: int|
                                    0 <= k < sf@.len() && (#[trigger] sf@[k]).label == yy
                                        && sf@[k].attr == aa {
                                    let k = choose|k: int|
                                        0 <= k < sf@.len() && (#[trigger] sf@[k]).label == yy
                                            && sf@[k].attr == aa;
                                    assert(sf@[k] == entry_sf[k]);
                                    assert(false);
                                }
                            }
                        } else {
                            if ds_state_count(ds.instances@, yy, aa, ilen) >= cutoff {
                                let k = choose|k: int|
                                    0 <= k < entry_sf.len() && (#[trigger] entry_sf[k]).label
                                        == yy && entry_sf[k].attr == aa;
                                assert(sf@[k] == entry_sf[k]);
                                assert(sf@[k].label == yy && sf@[k].attr == aa);
                            } else {
                                if exists|k: int|
                                    0 <= k < sf@.len() && (#[trigger] sf@[k]).label == yy
                                        && sf@[k].attr == aa {
                                    let k = choose|k: int|
                                        0 <= k < sf@.len() && (#[trigger] sf@[k]).label == yy
                                            && sf@[k].attr == aa;
                                    if k < entry_sf.len() {
                                        assert(sf@[k] == entry_sf[k]);
                                    }
                                    assert(false);
                                }
                            }
                        }
                    }
                }
            }
            proof {
                assert((y + 1) * num_attrs == y * num_attrs + num_attrs) by (nonlinear_arith);
            }
        }
        let mut tf: Vec<TransFeature> = Vec::new();
        for i in 0..num_labels
            invariant
                num_labels <= MAX_LABELS,
                num_attrs <= MAX_ATTRS,
                ds.wf(num_attrs as int, num_labels as int),
                ilen == ds.instances@.len() as int,
                tf@.len() <= i * num_labels,
                forall|k1: int, k2: int|
                    0 <= k1 < k2 < tf@.len() ==> tf_lt(#[trigger] tf@[k1], #[trigger] tf@[k2]),
                forall|k: int|
                    0 <= k < tf@.len() ==> (#[trigger] tf@[k]).from < i && tf@[k].to < num_labels,
                forall|ii: int, jj: int|
                    0 <= ii < i && 0 <= jj < num_labels ==> ((exists|k: int|
                        0 <= k < tf@.len() && (#[trigger] tf@[k]).from == ii && tf@[k].to == jj)
                        <==> ds_trans_count(ds.instances@, ii, jj, ilen) >= cutoff),
        {
            for j in 0..num_labels
                invariant
                    num_labels <= MAX_LABELS,
                    num_attrs <= MAX_ATTRS,
                    ds.wf(num_attrs as int, num_labels as int),
                    ilen == ds.instances@.len() as int,
                    i < num_labels,
                    tf@.len() <= i * num_labels + j,
                    forall|k1: int, k2: int|
                        0 <= k1 < k2 < tf@.len() ==> tf_lt(#[trigger] tf@[k1], #[trigger] tf@[k2]),
                    forall|k: int|
                        0 <= k < tf@.len() ==> ((#[trigger] tf@[k]).from < i || (tf@[k].from == i
                            && tf@[k].to < j)) && tf@[k].to < num_labels && tf@[k].from
                            < num_labels,
                    forall|ii: int, jj: int|
                        0 <= ii < num_labels && 0 <= jj < num_labels && (ii < i || (ii == i && jj
                            < j)) ==> ((exists|k: int|
                            0 <= k < tf@.len() && (#[trigger] tf@[k]).from == ii && tf@[k].to
                                == jj) <==> ds_trans_count(ds.instances@, ii, jj, ilen)
                            >= cutoff),
            {
                let ghost entry_tf = tf@;
                let c = count_trans_in_dataset(
                    ds,
                    i,
                    j,
                    Ghost(num_attrs as int),
                    Ghost(num_labels as int),
                );
                if c >= cutoff {
                    tf.push(TransFeature { from: i, to: j });
                    proof {
                        assert(tf@[tf@.len() - 1] == (TransFeature { from: i, to: j }));
                        assert forall|k1: int, k2: int|
                            0 <= k1 < k2 < tf@.len() implies tf_lt(
                            #[trigger] tf@[k1],
                            #[trigger] tf@[k2],
                        ) by {
                            if k2 < tf@.len() - 1 {
                                assert(tf@[k1] == entry_tf[k1] && tf@[k2] == entry_tf[k2]);
                            } else {
                                assert(tf@[k1] == entry_tf[k1]);
                            }
                        }
                    }
                }
                proof {
                    assert forall|ii: int, jj: int|
                        0 <= ii < num_labels && 0 <= jj < num_labels && (ii < i || (ii == i && jj
                            < j + 1)) implies ((exists|k: int|
                        0 <= k < tf@.len() && (#[trigger] tf@[k]).from == ii && tf@[k].to == jj)
                        <==> ds_trans_count(ds.instances@, ii, jj, ilen) >= cutoff) by {
                        if ii == i && jj == j {
                            if c >= cutoff {
                                assert(tf@[tf@.len() - 1].from == ii && tf@[tf@.len() - 1].to
                                    == jj);
                            } else {
                                if exists|k: int|
                                    0 <= k < tf@.len() && (#[trigger] tf@[k]).from == ii
                                        && tf@[k].to == jj {
                                    let k = choose|k: int|
                                        0 <= k < tf@.len() && (#[trigger] tf@[k]).from == ii
                                            && tf@[k].to == jj;
                                    assert(tf@[k] == entry_tf[k]);
                                    assert(false);
                                }
                            }
                        } else {
                            if ds_trans_count(ds.instances@, ii, jj, ilen) >= cutoff {
                                let k = choose|k: int|
                                    0 <= k < entry_tf.len() && (#[trigger] entry_tf[k]).from
                                        == ii && entry_tf[k].to == jj;
                                assert(tf@[k] == entry_tf[k]);
                                assert(tf@[k].from == ii && tf@[k].to == jj);
                            } else {
                                if exists|k: int|
                                    0 <= k < tf@.len() && (#[trigger] tf@[k]).from == ii
                                        && tf@[k].to == jj {
                                    let k = choose|k: int|
                                        0 <= k < tf@.len() && (#[trigger] tf@[k]).from == ii
                                            && tf@[k].to == jj;
                                    if k < entry_tf.len() {
                                        assert(tf@[k] == entry_tf[k]);
                                    }
                                    assert(false);
                                }
                            }
                        }
                    }
                }
            }
            proof {
                assert((i + 1) * num_labels == i * num_labels + num_labels) by (nonlinear_arith);
            }
        }
        proof {
            // the two tables stay well inside the index range
            vstd::arithmetic::mul::lemma_mul_upper_bound(
                num_labels as int,
                MAX_LABELS as int,
                num_attrs as int,
                MAX_ATTRS as int,
            );
            vstd::arithmetic::mul::lemma_mul_upper_bound(
                num_labels as int,
                MAX_LABELS as int,
                num_labels as int,
                MAX_LABELS as int,
            );
        }
        FeatureCatalog { state_feats: sf, trans_feats: tf }
    }
}

} // verus!
