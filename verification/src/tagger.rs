use vstd::prelude::*;

use crate::context::{path_view, prob_spec, vit_path};
use crate::data::{Attribute, Item};
use crate::dict::{copy_bytes, lemma_name_id_unique, name_id};
use crate::errors::CrfError;
use crate::fixed::SCALE;
use crate::model::{admissible, conv_item, item_ok, items_view, Model};
use crate::serial::dec_model;

verus! {

/// The label names the Viterbi decode assigns to a converted sequence.
pub open spec fn decode_spec(m: Model, items: Seq<Item>) -> Seq<Seq<u8>> {
    if items.len() == 0 {
        Seq::empty()
    } else {
        let st = m.state_mat(items_view(items));
        let tr = m.trans_mat();
        vit_path(st, tr, m.nl(), items.len() as int).map_values(|y: int| m.labels@[y])
    }
}

/// The probability a model assigns to a labelling of a converted sequence.
pub open spec fn prob_of_items(m: Model, items: Seq<Item>, ys: Seq<int>) -> int {
    prob_spec(m.state_mat(items_view(items)), m.trans_mat(), m.nl(), ys)
}

/// A loaded model together with the sequence most recently handed to `set`:
/// the stateful query surface over one instance at a time.
pub struct Tagger {
    model: Model,
    items: Vec<Item>,
}

impl Tagger {
    /// The model this tagger queries.
    pub closed spec fn m(&self) -> Model {
        self.model
    }

    /// The converted observations of the current sequence.
    pub closed spec fn cur(&self) -> Seq<Item> {
        self.items@
    }

    /// A well-formed tagger: a well-formed model and a current sequence whose
    /// observations fit it.
    pub open spec fn wf(&self) -> bool {
        &&& self.m().wf()
        &&& crate::data::wf_items(self.cur(), self.m().na())
    }

    /// Loads a model from a serialized container; the current sequence starts
    /// empty.
    pub fn create_from_memory(data: Vec<u8>) -> (r: Result<Tagger, CrfError>)
        ensures
            match r {
                Ok(t) => {
                    &&& t.wf()
                    &&& dec_model(data@) == Some(
                        (
                            t.m().attrs@,
                            t.m().labels@,
                            t.m().catalog.sf(),
                            t.m().catalog.tf(),
                            t.m().weights@,
                        ),
                    )
                    &&& t.cur().len() == 0
                },
                Err(e) => e == CrfError::CorruptModel && match dec_model(data@) {
                    None => true,
                    Some(parts) => !admissible(parts.0, parts.1, parts.2, parts.3, parts.4),
                },
            },
    {
        match Model::load(&data) {
            Ok(model) => Ok(Tagger { model, items: Vec::new() }),
            Err(e) => Err(e),
        }
    }

    /// The model's label names, in id order.
    pub fn labels(&self) -> (r: Vec<Vec<u8>>)
        ensures
            r@.map_values(|n: Vec<u8>| n@) == self.m().labels@,
    {
        self.model.label_names()
    }

    /// Converts and stores a sequence for the following queries.  Unknown
    /// attributes are skipped; an inadmissible input is rejected and the
    /// current sequence kept.
    pub fn set(&mut self, input: &Vec<Vec<Attribute>>) -> (r: Result<(), CrfError>)
        requires
            old(self).wf(),
        ensures
            final(self).wf(),
            final(self).m() == old(self).m(),
            match r {
                Ok(u) => {
                    &&& old(self).m().input_ok(input@)
                    &&& items_view(final(self).cur()) == old(self).m().conv_input(input@)
                    &&& final(self).cur().len() == input@.len()
                },
                Err(e) => {
                    &&& e == CrfError::TrainingDiverged
                    &&& !old(self).m().input_ok(input@)
                    &&& final(self).cur() == old(self).cur()
                },
            },
    {
        let tt = input.len();
        if tt > crate::context::MAX_SEQ {
            return Err(CrfError::TrainingDiverged);
        }
        let mut items: Vec<Item> = Vec::new();
        for t in 0..tt
            invariant
                self.wf(),
                tt == input@.len() <= crate::context::MAX_SEQ,
                items@.len() == t,
                forall|u: int|
                    0 <= u < t ==> (#[trigger] items@[u]).attrs@ == conv_item(
                        self.m().attrs@,
                        input@[u]@,
                        input@[u]@.len() as int,
                    ),
                forall|u: int| 0 <= u < t ==> (#[trigger] items@[u]).wf(self.m().na()),
                forall|u: int| 0 <= u < t ==> item_ok(self.m().attrs@, (#[trigger] input@[u])@),
        {
            match self.model.convert_item(&input[t]) {
                Ok(it) => {
                    items.push(it);
                },
                Err(e) => {
                    return Err(e);
                },
            }
        }
        proof {
            assert(items_view(items@) =~= self.m().conv_input(input@));
        }
        self.items = items;
        Ok(())
    }

    /// The most probable labelling of the current sequence, as label names.
    pub fn viterbi(&self) -> (r: Vec<Vec<u8>>)
        requires
            self.wf(),
        ensures
            r@.map_values(|n: Vec<u8>| n@) == decode_spec(self.m(), self.cur()),
            r@.len() == self.cur().len(),
    {
        let ctx = self.model.build_context(&self.items);
        let vr = ctx.viterbi();
        let path = vr.0;
        let mut out: Vec<Vec<u8>> = Vec::new();
        let ghost dspec = decode_spec(self.m(), self.cur());
        proof {
            crate::context::lemma_path_view_bridge(path@);
            if self.cur().len() > 0 {
                assert(dspec == path_view(path@).map_values(|y: int| self.m().labels@[y]));
            }
        }
        for i in 0..path.len()
            invariant
                self.wf(),
                path@.len() == self.cur().len(),
                forall|u: int| 0 <= u < path@.len() ==> (#[trigger] path@[u]) < self.m().nl(),
                dspec == decode_spec(self.m(), self.cur()),
                self.cur().len() > 0 ==> dspec == path_view(path@).map_values(
                    |y: int| self.m().labels@[y],
                ),
                out@.len() == i,
                forall|u: int|
                    0 <= u < i ==> (#[trigger] out@[u])@ == self.m().labels@[path@[u] as int],
        {
            out.push(copy_bytes(self.model.labels.name_at(path[i])));
        }
        proof {
            crate::context::lemma_path_view_bridge(path@);
            assert(out@.map_values(|n: Vec<u8>| n@) =~= dspec);
        }
        out
    }

    /// Sets a sequence and decodes it in one call.
    pub fn tag(&mut self, input: &Vec<Vec<Attribute>>) -> (r: Result<Vec<Vec<u8>>, CrfError>)
        requires
            old(self).wf(),
        ensures
            final(self).wf(),
            final(self).m() == old(self).m(),
            match r {
                Ok(out) => old(self).m().input_ok(input@) && out@.map_values(|n: Vec<u8>| n@)
                    == old(self).m().tag_spec(input@),
                Err(e) => e == CrfError::TrainingDiverged && !old(self).m().input_ok(input@),
            },
    {
        match self.set(input) {
            Ok(u) => {
            },
            Err(e) => {
                return Err(e);
            },
        }
        let out = self.viterbi();
        proof {
            if input@.len() > 0 {
                assert(decode_spec(self.m(), self.cur()) == self.m().tag_spec(input@));
            } else {
                assert(decode_spec(self.m(), self.cur()) =~= self.m().tag_spec(input@));
            }
        }
        Ok(out)
    }

    /// The probability the model assigns to a candidate labelling of the
    /// current sequence: `exp(score(path) - log Z)` in the fixed-point domain,
    /// a value in `[0, SCALE]`.  The empty sequence has probability one.
    pub fn probability(&self, tags: &Vec<Vec<u8>>) -> (r: Result<i64, CrfError>)
        requires
            self.wf(),
        ensures
            match r {
                Ok(p) => {
                    &&& tags@.len() == self.cur().len()
                    &&& self.m().labels_ok(tags@)
                    &&& p == prob_of_items(self.m(), self.cur(), self.m().conv_labels(tags@))
                    &&& 0 <= p <= SCALE
                },
                Err(e) => {
                    ||| (e == CrfError::LengthMismatch && tags@.len() != self.cur().len())
                    ||| (e == CrfError::DictionaryLookupFailed && tags@.len()
                        == self.cur().len() && !self.m().labels_ok(tags@))
                },
            },
    {
        let tt = self.items.len();
        if tags.len() != tt {
            return Err(CrfError::LengthMismatch);
        }
        let mut ys: Vec<usize> = Vec::new();
        for i in 0..tt
            invariant
                self.wf(),
                tt == self.cur().len() == tags@.len(),
                ys@.len() == i,
                forall|u: int| 0 <= u < i ==> self.m().labels@.contains((#[trigger] tags@[u])@),
                forall|u: int|
                    0 <= u < i ==> (#[trigger] ys@[u]) < self.m().nl() && ys@[u] as int == name_id(
                        self.m().labels@,
                        tags@[u]@,
                    ),
        {
            match self.model.labels.id_of(&tags[i]) {
                Ok(id) => {
                    proof {
                        lemma_name_id_unique(self.m().labels@, tags@[i as int]@, id as int);
                    }
                    ys.push(id);
                },
                Err(e) => {
                    return Err(CrfError::DictionaryLookupFailed);
                },
            }
        }
        let mut ctx = self.model.build_context(&self.items);
        ctx.forward();
        proof {
            crate::context::lemma_path_view_bridge(ys@);
            assert(path_view(ys@) =~= self.m().conv_labels(tags@));
        }
        Ok(ctx.sequence_probability(&ys))
    }
}

} // verus!
