use vstd::prelude::*;

use crate::context::{path_view, prob_spec, rows, vit_path, Context, MAX_LABELS, MAX_SEQ};
use crate::data::{AttrVal, Attribute, Item};
use crate::dict::{copy_bytes, distinct_names, lemma_name_id_unique, name_id, Dictionary};
use crate::errors::CrfError;
use crate::features::{FeatureCatalog, MAX_ATTRS};
use crate::fixed::{
    contrib_spec, fx_contrib, lemma_contrib_spec_bound, CONTRIB_BOUND, MAX_ITEM_ATTRS, SCALE,
    STATE_BOUND, VALUE_BOUND, WEIGHT_BOUND,
};

verus! {

/// The items of a sequence as mathematical rows of observations.
pub open spec fn items_view(items: Seq<Item>) -> Seq<Seq<AttrVal>> {
    items.map_values(|it: Item| it.attrs@)
}

/// One interning step of item conversion: attributes whose names the model
/// knows keep their interned id; unknown attributes are silently skipped and
/// contribute no feature.
pub open spec fn conv_item(dict: Seq<Seq<u8>>, input: Seq<Attribute>, k: int) -> Seq<AttrVal>
    decreases k,
{
    if k <= 0 {
        Seq::empty()
    } else {
        let rest = conv_item(dict, input, k - 1);
        let at = input[k - 1];
        if dict.contains(at.name@) {
            rest.push(AttrVal { id: name_id(dict, at.name@) as usize, value: at.value })
        } else {
            rest
        }
    }
}

/// Whether one input item is admissible: every attribute the model knows
/// carries a value in range, and the kept observations fit in one item.
pub open spec fn item_ok(dict: Seq<Seq<u8>>, input: Seq<Attribute>) -> bool {
    &&& conv_item(dict, input, input.len() as int).len() <= MAX_ITEM_ATTRS
    &&& forall|k: int|
        0 <= k < input.len() ==> (dict.contains((#[trigger] input[k]).name@) ==> 0
            <= input[k].value <= VALUE_BOUND)
}

/// What a model's parts must satisfy, stated over their mathematical views:
/// distinct names in both dictionaries, an admitted number of labels and
/// attributes, well-formed feature tables, and one bounded weight per feature.
pub open spec fn admissible(
    attrs: Seq<Seq<u8>>,
    labels: Seq<Seq<u8>>,
    sf: Seq<crate::features::StateFeature>,
    tf: Seq<crate::features::TransFeature>,
    ws: Seq<i64>,
) -> bool {
    &&& distinct_names(attrs)
    &&& distinct_names(labels)
    &&& 1 <= labels.len() <= MAX_LABELS
    &&& attrs.len() <= MAX_ATTRS
    &&& crate::features::wf_tables(sf, tf, labels.len() as int, attrs.len() as int)
    &&& ws.len() == sf.len() + tf.len()
    &&& forall|k: int| 0 <= k < ws.len() ==> -WEIGHT_BOUND <= #[trigger] ws[k] <= WEIGHT_BOUND
}

/// Whether a weight vector fits a catalog: one bounded weight per feature of a
/// well-formed table.
pub open spec fn weights_ok(cat: FeatureCatalog, w: Seq<i64>, nl: int, na: int) -> bool {
    &&& cat.wf(nl, na)
    &&& w.len() == cat.num_features_spec()
    &&& forall|k: int| 0 <= k < w.len() ==> -WEIGHT_BOUND <= #[trigger] w[k] <= WEIGHT_BOUND
}

/// The state score of the first `k` observations of an item under label `y`:
/// the sum of each observation's weighted contribution.
pub open spec fn item_score_of(
    cat: FeatureCatalog,
    w: Seq<i64>,
    attrs: Seq<AttrVal>,
    y: int,
    k: int,
) -> int
    decreases k,
{
    if k <= 0 {
        0
    } else {
        item_score_of(cat, w, attrs, y, k - 1) + contrib_spec(
            cat.state_weight(w, y, attrs[k - 1].id as int),
            attrs[k - 1].value as int,
        )
    }
}

/// The state-score matrix a weight vector assigns to a converted sequence.
pub open spec fn state_mat_of(
    cat: FeatureCatalog,
    w: Seq<i64>,
    nl: int,
    citems: Seq<Seq<AttrVal>>,
) -> Seq<Seq<i64>> {
    Seq::new(
        citems.len(),
        |t: int|
            Seq::new(
                nl as nat,
                |y: int| item_score_of(cat, w, citems[t], y, citems[t].len() as int) as i64,
            ),
    )
}

/// The transition-score matrix of a weight vector.
pub open spec fn trans_mat_of(cat: FeatureCatalog, w: Seq<i64>, nl: int) -> Seq<Seq<i64>> {
    Seq::new(
        nl as nat,
        |i: int| Seq::new(nl as nat, |j: int| cat.trans_weight(w, i, j) as i64),
    )
}

/// Every weight a catalog can hand out of a fitting vector is bounded.
pub proof fn lemma_lookup_bound(
    cat: FeatureCatalog,
    w: Seq<i64>,
    nl: int,
    na: int,
    y: int,
    a: int,
    i: int,
    j: int,
)
    requires
        weights_ok(cat, w, nl, na),
    ensures
        -WEIGHT_BOUND <= cat.state_weight(w, y, a) <= WEIGHT_BOUND,
        -WEIGHT_BOUND <= cat.trans_weight(w, i, j) <= WEIGHT_BOUND,
{
    if cat.has_state(y, a) {
        let k = cat.state_index(y, a);
        assert(0 <= k < cat.sf().len());
    }
    if cat.has_trans(i, j) {
        let k = cat.trans_index(i, j);
        assert(0 <= k < cat.tf().len());
    }
}

/// An item's state score grows by at most one contribution per observation.
pub proof fn lemma_item_score_of_bound(
    cat: FeatureCatalog,
    w: Seq<i64>,
    nl: int,
    na: int,
    attrs: Seq<AttrVal>,
    y: int,
    k: int,
)
    requires
        weights_ok(cat, w, nl, na),
        0 <= k <= attrs.len(),
        forall|u: int| 0 <= u < attrs.len() ==> 0 <= (#[trigger] attrs[u]).value <= VALUE_BOUND,
    ensures
        -k * CONTRIB_BOUND <= item_score_of(cat, w, attrs, y, k) <= k * CONTRIB_BOUND,
    decreases k,
{
    if k > 0 {
        lemma_item_score_of_bound(cat, w, nl, na, attrs, y, k - 1);
        lemma_lookup_bound(cat, w, nl, na, y, attrs[k - 1].id as int, 0, 0);
        lemma_contrib_spec_bound(
            cat.state_weight(w, y, attrs[k - 1].id as int),
            attrs[k - 1].value as int,
        );
    }
}

/// Builds the scoring lattice a weight vector assigns to a sequence of items:
/// one state-score row per item and the shared transition matrix.
pub fn build_lattice(
    cat: &FeatureCatalog,
    weights: &Vec<i64>,
    num_labels: usize,
    items: &Vec<Item>,
    Ghost(na): Ghost<int>,
) -> (c: Context)
    requires
        1 <= num_labels <= MAX_LABELS,
        weights_ok(*cat, weights@, num_labels as int, na),
        crate::data::wf_items(items@, na),
    ensures
        c.wf(),
        c.num_labels == num_labels,
        c.t() == items@.len(),
        c.st() == state_mat_of(*cat, weights@, num_labels as int, items_view(items@)),
        c.tr() == trans_mat_of(*cat, weights@, num_labels as int),
{
    let l = num_labels;
    let ghost nl = num_labels as int;
    // transition matrix
    let mut trans: Vec<Vec<i64>> = Vec::new();
    for i in 0..l
        invariant
            weights_ok(*cat, weights@, nl, na),
            l == num_labels,
            nl == num_labels as int,
            trans@.len() == i,
            forall|u: int| 0 <= u < i ==> (#[trigger] trans@[u])@.len() == l,
            forall|u: int, j: int|
                0 <= u < i && 0 <= j < l ==> (#[trigger] trans@[u]@[j]) as int
                    == cat.trans_weight(weights@, u, j),
    {
        let mut row: Vec<i64> = Vec::new();
        for j in 0..l
            invariant
                weights_ok(*cat, weights@, nl, na),
                l == num_labels,
                nl == num_labels as int,
                i < l,
                row@.len() == j,
                forall|u: int|
                    0 <= u < j ==> (#[trigger] row@[u]) as int == cat.trans_weight(
                        weights@,
                        i as int,
                        u,
                    ),
        {
            let w: i64 = match cat.trans_feature_id(i, j, Ghost(nl), Ghost(na)) {
                Some(k) => weights[k],
                None => 0,
            };
            row.push(w);
        }
        trans.push(row);
    }
    // state matrix
    let tt = items.len();
    let mut state: Vec<Vec<i64>> = Vec::new();
    for t in 0..tt
        invariant
            weights_ok(*cat, weights@, nl, na),
            l == num_labels,
            nl == num_labels as int,
            tt == items@.len(),
            crate::data::wf_items(items@, na),
            state@.len() == t,
            forall|u: int| 0 <= u < t ==> (#[trigger] state@[u])@.len() == l,
            forall|u: int, y: int|
                0 <= u < t && 0 <= y < l ==> (#[trigger] state@[u]@[y]) as int == item_score_of(
                    *cat,
                    weights@,
                    items@[u].attrs@,
                    y,
                    items@[u].attrs@.len() as int,
                ),
    {
        let mut row: Vec<i64> = Vec::new();
        let n = items[t].attrs.len();
        for y in 0..l
            invariant
                weights_ok(*cat, weights@, nl, na),
                l == num_labels,
                nl == num_labels as int,
                tt == items@.len(),
                crate::data::wf_items(items@, na),
                t < tt,
                n == items@[t as int].attrs@.len(),
                row@.len() == y,
                forall|u: int|
                    0 <= u < y ==> (#[trigger] row@[u]) as int == item_score_of(
                        *cat,
                        weights@,
                        items@[t as int].attrs@,
                        u,
                        n as int,
                    ),
        {
            let mut acc: i64 = 0;
            for k in 0..n
                invariant
                    weights_ok(*cat, weights@, nl, na),
                    l == num_labels,
                    nl == num_labels as int,
                    tt == items@.len(),
                    crate::data::wf_items(items@, na),
                    t < tt,
                    y < l,
                    n == items@[t as int].attrs@.len() <= MAX_ITEM_ATTRS,
                    acc as int == item_score_of(
                        *cat,
                        weights@,
                        items@[t as int].attrs@,
                        y as int,
                        k as int,
                    ),
                    -(k as int) * CONTRIB_BOUND <= acc as int <= (k as int) * CONTRIB_BOUND,
            {
                let av = items[t].attrs[k];
                let w: i64 = match cat.state_feature_id(y, av.id, Ghost(nl), Ghost(na)) {
                    Some(f) => weights[f],
                    None => 0,
                };
                proof {
                    assert(items@[t as int].wf(na));
                    assert(0 <= av.value <= VALUE_BOUND);
                    lemma_contrib_spec_bound(w as int, av.value as int);
                }
                let cb = fx_contrib(w, av.value);
                acc = acc + cb;
            }
            row.push(acc);
        }
        state.push(row);
    }
    proof {
        crate::context::lemma_rows_bridge(state);
        crate::context::lemma_rows_bridge(trans);
        assert forall|u: int| 0 <= u < tt implies rows(state)[u] =~= state_mat_of(
            *cat,
            weights@,
            nl,
            items_view(items@),
        )[u] by {}
        assert(rows(state) =~= state_mat_of(*cat, weights@, nl, items_view(items@)));
        assert forall|u: int| 0 <= u < l implies rows(trans)[u] =~= trans_mat_of(
            *cat,
            weights@,
            nl,
        )[u] by {}
        assert(rows(trans) =~= trans_mat_of(*cat, weights@, nl));
        assert forall|u: int, y: int|
            0 <= u < tt && 0 <= y < l implies -STATE_BOUND <= #[trigger] rows(state)[u][y]
            <= STATE_BOUND by {
            lemma_item_score_of_bound(
                *cat,
                weights@,
                nl,
                na,
                items@[u].attrs@,
                y,
                items@[u].attrs@.len() as int,
            );
        }
        assert forall|u: int, y: int|
            0 <= u < l && 0 <= y < l implies -WEIGHT_BOUND <= #[trigger] rows(trans)[u][y]
            <= WEIGHT_BOUND by {
            lemma_lookup_bound(*cat, weights@, nl, na, 0, 0, u, y);
        }
    }
    Context::new(l, state, trans)
}

/// A trained or loaded model: the two interning tables, the feature table,
/// and one weight per feature.  Immutable once built.
pub struct Model {
    pub attrs: Dictionary,
    pub labels: Dictionary,
    pub catalog: FeatureCatalog,
    pub weights: Vec<i64>,
}

impl Model {
    /// Number of interned attributes.
    pub open spec fn na(&self) -> int {
        self.attrs@.len() as int
    }

    /// Number of interned labels.
    pub open spec fn nl(&self) -> int {
        self.labels@.len() as int
    }

    /// A well-formed model: well-formed dictionaries of admitted sizes, a
    /// feature table in range, and one bounded weight per feature.
    pub open spec fn wf(&self) -> bool {
        admissible(self.attrs@, self.labels@, self.catalog.sf(), self.catalog.tf(), self.weights@)
    }

    /// The weight of the state feature for label `y` and attribute `a`.
    pub open spec fn sw(&self, y: int, a: int) -> int {
        self.catalog.state_weight(self.weights@, y, a)
    }

    /// The weight of the transition feature from label `i` to label `j`.
    pub open spec fn tw(&self, i: int, j: int) -> int {
        self.catalog.trans_weight(self.weights@, i, j)
    }

    /// The state score of the first `k` observations of an item under label
    /// `y`.
    pub open spec fn item_score(&self, attrs: Seq<AttrVal>, y: int, k: int) -> int {
        item_score_of(self.catalog, self.weights@, attrs, y, k)
    }

    /// The state-score matrix this model assigns to a converted sequence.
    pub open spec fn state_mat(&self, citems: Seq<Seq<AttrVal>>) -> Seq<Seq<i64>> {
        state_mat_of(self.catalog, self.weights@, self.nl(), citems)
    }

    /// The transition-score matrix of this model.
    pub open spec fn trans_mat(&self) -> Seq<Seq<i64>> {
        trans_mat_of(self.catalog, self.weights@, self.nl())
    }

    /// Builds the per-sequence scoring lattice: one state-score row per item
    /// and the shared transition matrix.
    pub fn build_context(&self, items: &Vec<Item>) -> (c: Context)
        requires
            self.wf(),
            crate::data::wf_items(items@, self.na()),
        ensures
            c.wf(),
            c.num_labels as int == self.nl(),
            c.t() == items@.len(),
            c.st() == self.state_mat(items_view(items@)),
            c.tr() == self.trans_mat(),
    {
        build_lattice(&self.catalog, &self.weights, self.labels.count(), items, Ghost(self.na()))
    }

    /// Converts one input item: known attribute names keep their interned id,
    /// unknown ones are skipped; a value out of range or an oversized item is
    /// a numeric-range failure.
    pub(crate) fn convert_item(&self, input: &Vec<Attribute>) -> (r: Result<Item, CrfError>)
        requires
            self.wf(),
        ensures
            match r {
                Ok(it) => {
                    &&& it.attrs@ == conv_item(self.attrs@, input@, input@.len() as int)
                    &&& it.wf(self.na())
                    &&& item_ok(self.attrs@, input@)
                },
                Err(e) => e == CrfError::TrainingDiverged && !item_ok(self.attrs@, input@),
            },
    {
        let n = input.len();
        let mut attrs: Vec<AttrVal> = Vec::new();
        for k in 0..n
            invariant
                self.wf(),
                n == input@.len(),
                attrs@ == conv_item(self.attrs@, input@, k as int),
                forall|u: int|
                    0 <= u < k ==> (self.attrs@.contains((#[trigger] input@[u]).name@) ==> 0
                        <= input@[u].value <= VALUE_BOUND),
                forall|u: int|
                    0 <= u < attrs@.len() ==> (#[trigger] attrs@[u]).id < self.na() && 0
                        <= attrs@[u].value <= VALUE_BOUND,
        {
            match self.attrs.id_of(&input[k].name) {
                Ok(id) => {
                    let v = input[k].value;
                    if v < 0 || v > VALUE_BOUND {
                        return Err(CrfError::TrainingDiverged);
                    }
                    proof {
                        lemma_name_id_unique(self.attrs@, input@[k as int].name@, id as int);
                    }
                    attrs.push(AttrVal { id, value: v });
                },
                Err(_) => {
                },
            }
        }
        if attrs.len() > MAX_ITEM_ATTRS {
            return Err(CrfError::TrainingDiverged);
        }
        Ok(Item { attrs })
    }

    /// Whether a whole input sequence is admissible for this model.
    pub open spec fn input_ok(&self, input: Seq<Vec<Attribute>>) -> bool {
        &&& input.len() <= MAX_SEQ
        &&& forall|t: int| 0 <= t < input.len() ==> item_ok(self.attrs@, (#[trigger] input[t])@)
    }

    /// The converted observations of a whole input sequence.
    pub open spec fn conv_input(&self, input: Seq<Vec<Attribute>>) -> Seq<Seq<AttrVal>> {
        Seq::new(input.len(), |t: int| conv_item(self.attrs@, input[t]@, input[t]@.len() as int))
    }

    /// The label names the Viterbi decode assigns to an input sequence.
    pub open spec fn tag_spec(&self, input: Seq<Vec<Attribute>>) -> Seq<Seq<u8>> {
        if input.len() == 0 {
            Seq::empty()
        } else {
            let st = self.state_mat(self.conv_input(input));
            let tr = self.trans_mat();
            vit_path(st, tr, self.nl(), input.len() as int).map_values(
                |y: int| self.labels@[y],
            )
        }
    }

    /// Converts the input, builds the lattice, and Viterbi-decodes it into
    /// label names.  Unknown attributes contribute nothing; an inadmissible
    /// input (too long, oversized items, values out of range) is rejected.
    pub fn tag(&self, input: &Vec<Vec<Attribute>>) -> (r: Result<Vec<Vec<u8>>, CrfError>)
        requires
            self.wf(),
        ensures
            match r {
                Ok(out) => self.input_ok(input@) && out@.map_values(|n: Vec<u8>| n@)
                    == self.tag_spec(input@),
                Err(e) => e == CrfError::TrainingDiverged && !self.input_ok(input@),
            },
    {
        let tt = input.len();
        if tt > MAX_SEQ {
            return Err(CrfError::TrainingDiverged);
        }
        let mut items: Vec<Item> = Vec::new();
        for t in 0..tt
            invariant
                self.wf(),
                tt == input@.len() <= MAX_SEQ,
                items@.len() == t,
                forall|u: int|
                    0 <= u < t ==> (#[trigger] items@[u]).attrs@ == conv_item(
                        self.attrs@,
                        input@[u]@,
                        input@[u]@.len() as int,
                    ),
                forall|u: int| 0 <= u < t ==> (#[trigger] items@[u]).wf(self.na()),
                forall|u: int| 0 <= u < t ==> item_ok(self.attrs@, (#[trigger] input@[u])@),
        {
            match self.convert_item(&input[t]) {
                Ok(it) => {
                    items.push(it);
                },
                Err(e) => {
                    return Err(e);
                },
            }
        }
        proof {
            assert(items_view(items@) =~= self.conv_input(input@));
        }
        let ctx = self.build_context(&items);
        let (path, _score) = ctx.viterbi();
        let mut out: Vec<Vec<u8>> = Vec::new();
        let ghost tspec = self.tag_spec(input@);
        proof {
            crate::context::lemma_path_view_bridge(path@);
            if tt > 0 {
                assert(tspec == path_view(path@).map_values(|y: int| self.labels@[y]));
            }
        }
        for i in 0..path.len()
            invariant
                self.wf(),
                path@.len() == tt == input@.len(),
                forall|u: int| 0 <= u < tt ==> (#[trigger] path@[u]) < self.nl(),
                tspec == self.tag_spec(input@),
                tt > 0 ==> tspec == path_view(path@).map_values(|y: int| self.labels@[y]),
                out@.len() == i,
                forall|u: int|
                    0 <= u < i ==> (#[trigger] out@[u])@ == self.labels@[path@[u] as int],
        {
            let name = copy_bytes(self.labels.name_at(path[i]));
            out.push(name);
        }
        proof {
            crate::context::lemma_path_view_bridge(path@);
            assert(out@.map_values(|n: Vec<u8>| n@) =~= tspec);
        }
        Ok(out)
    }

    /// Whether every candidate label name is one this model knows.
    pub open spec fn labels_ok(&self, cand: Seq<Vec<u8>>) -> bool {
        forall|i: int| 0 <= i < cand.len() ==> self.labels@.contains((#[trigger] cand[i])@)
    }

    /// The candidate label names as interned ids.
    pub open spec fn conv_labels(&self, cand: Seq<Vec<u8>>) -> Seq<int> {
        Seq::new(cand.len(), |i: int| name_id(self.labels@, cand[i]@))
    }

    /// The probability this model assigns to a candidate labelling of an
    /// input sequence.
    pub open spec fn prob_of(&self, input: Seq<Vec<Attribute>>, cand: Seq<Vec<u8>>) -> int {
        prob_spec(
            self.state_mat(self.conv_input(input)),
            self.trans_mat(),
            self.nl(),
            self.conv_labels(cand),
        )
    }

    /// The probability of a candidate label sequence for an input sequence:
    /// `exp(score(path) - log Z)` in the fixed-point domain, a value in
    /// `[0, SCALE]`.  An empty sequence has probability one.  A candidate of
    /// the wrong length, an unknown label name, and an inadmissible input are
    /// three distinct failures.
    pub fn probability(&self, input: &Vec<Vec<Attribute>>, cand: &Vec<Vec<u8>>) -> (r: Result<
        i64,
        CrfError,
    >)
        requires
            self.wf(),
        ensures
            match r {
                Ok(p) => {
                    &&& cand@.len() == input@.len()
                    &&& self.labels_ok(cand@)
                    &&& self.input_ok(input@)
                    &&& p == self.prob_of(input@, cand@)
                    &&& 0 <= p <= SCALE
                },
                Err(e) => {
                    ||| (e == CrfError::LengthMismatch && cand@.len() != input@.len())
                    ||| (e == CrfError::DictionaryLookupFailed && cand@.len() == input@.len()
                        && !self.labels_ok(cand@))
                    ||| (e == CrfError::TrainingDiverged && cand@.len() == input@.len()
                        && self.labels_ok(cand@) && !self.input_ok(input@))
                },
            },
    {
        let tt = input.len();
        if cand.len() != tt {
            return Err(CrfError::LengthMismatch);
        }
        let mut ys: Vec<usize> = Vec::new();
        for i in 0..tt
            invariant
                self.wf(),
                tt == input@.len() == cand@.len(),
                ys@.len() == i,
                forall|u: int| 0 <= u < i ==> self.labels@.contains((#[trigger] cand@[u])@),
                forall|u: int|
                    0 <= u < i ==> (#[trigger] ys@[u]) < self.nl() && ys@[u] as int == name_id(
                        self.labels@,
                        cand@[u]@,
                    ),
        {
            match self.labels.id_of(&cand[i]) {
                Ok(id) => {
                    proof {
                        lemma_name_id_unique(self.labels@, cand@[i as int]@, id as int);
                    }
                    ys.push(id);
                },
                Err(e) => {
                    return Err(CrfError::DictionaryLookupFailed);
                },
            }
        }
        if tt > MAX_SEQ {
            return Err(CrfError::TrainingDiverged);
        }
        let mut items: Vec<Item> = Vec::new();
        for t in 0..tt
            invariant
                self.wf(),
                tt == input@.len() <= MAX_SEQ,
                cand@.len() == tt,
                self.labels_ok(cand@),
                items@.len() == t,
                forall|u: int|
                    0 <= u < t ==> (#[trigger] items@[u]).attrs@ == conv_item(
                        self.attrs@,
                        input@[u]@,
                        input@[u]@.len() as int,
                    ),
                forall|u: int| 0 <= u < t ==> (#[trigger] items@[u]).wf(self.na()),
                forall|u: int| 0 <= u < t ==> item_ok(self.attrs@, (#[trigger] input@[u])@),
        {
            match self.convert_item(&input[t]) {
                Ok(it) => {
                    items.push(it);
                },
                Err(e) => {
                    return Err(e);
                },
            }
        }
        proof {
            assert(items_view(items@) =~= self.conv_input(input@));
        }
        let mut ctx = self.build_context(&items);
        ctx.forward();
        proof {
            crate::context::lemma_path_view_bridge(ys@);
            assert(path_view(ys@) =~= self.conv_labels(cand@));
        }
        let p = ctx.sequence_probability(&ys);
        Ok(p)
    }

    /// The ordered list of label names, by id.
    pub fn label_names(&self) -> (r: Vec<Vec<u8>>)
        ensures
            r@.map_values(|n: Vec<u8>| n@) == self.labels@,
    {
        let n = self.labels.count();
        let mut r: Vec<Vec<u8>> = Vec::new();
        for i in 0..n
            invariant
                n == self.labels@.len(),
                r@.len() == i,
                forall|u: int| 0 <= u < i ==> (#[trigger] r@[u])@ == self.labels@[u],
        {
            r.push(copy_bytes(self.labels.name_at(i)));
        }
        proof {
            assert(r@.map_values(|nm: Vec<u8>| nm@) =~= self.labels@);
        }
        r
    }
}

} // verus!
