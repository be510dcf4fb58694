use vstd::prelude::*;

use crate::context::MAX_LABELS;
use crate::dict::{distinct_names, vecs_eq, Dictionary};
use crate::errors::CrfError;
use crate::features::{
    lemma_sf_adjacent_sorted, lemma_tf_adjacent_sorted, sf_lt, tf_lt, FeatureCatalog,
    StateFeature, TransFeature, MAX_ATTRS,
};
use crate::fixed::WEIGHT_BOUND;
use crate::model::{admissible, Model};

verus! {

/// Magic number at the head of a model container ("CRFXMOD1" in bytes).
pub const MODEL_MAGIC: u64 = 0x31444F4D58465243;

/// Chunk kinds of the container, in the order they are laid out: attribute
/// dictionary, label dictionary, feature table, weight vector.
pub const CHUNK_ATTRS: u64 = 1;

pub const CHUNK_LABELS: u64 = 2;

pub const CHUNK_FEATURES: u64 = 3;

pub const CHUNK_WEIGHTS: u64 = 4;

/// Number of bytes before the first chunk: the magic and four index entries of
/// three words each.
pub const HEADER_LEN: usize = 104;

/// A 64-bit value as eight little-endian bytes.
#[verifier::opaque]
pub open spec fn le_bytes(v: u64) -> Seq<u8> {
    seq![
        (v & 0xff) as u8,
        ((v >> 8) & 0xff) as u8,
        ((v >> 16) & 0xff) as u8,
        ((v >> 24) & 0xff) as u8,
        ((v >> 32) & 0xff) as u8,
        ((v >> 40) & 0xff) as u8,
        ((v >> 48) & 0xff) as u8,
        ((v >> 56) & 0xff) as u8,
    ]
}

/// The 64-bit value eight little-endian bytes stand for.
#[verifier::opaque]
pub open spec fn le_val(b: Seq<u8>) -> u64 {
    (b[0] as u64) | ((b[1] as u64) << 8) | ((b[2] as u64) << 16) | ((b[3] as u64) << 24) | ((
    b[4] as u64) << 32) | ((b[5] as u64) << 40) | ((b[6] as u64) << 48) | ((b[7] as u64) << 56)
}

/// Eight little-endian bytes decode to the value they were made from.
pub proof fn lemma_le_round_trip(v: u64)
    ensures
        le_bytes(v).len() == 8,
        le_val(le_bytes(v)) == v,
{
    reveal(le_bytes);
    reveal(le_val);
    assert(((v & 0xff) as u8 as u64) | (((v >> 8) & 0xff) as u8 as u64) << 8 | (((v >> 16)
        & 0xff) as u8 as u64) << 16 | (((v >> 24) & 0xff) as u8 as u64) << 24 | (((v >> 32)
        & 0xff) as u8 as u64) << 32 | (((v >> 40) & 0xff) as u8 as u64) << 40 | (((v >> 48)
        & 0xff) as u8 as u64) << 48 | (((v >> 56) & 0xff) as u8 as u64) << 56 == v)
        by (bit_vector);
}

/// A length-prefixed byte string.
pub open spec fn enc_name(n: Seq<u8>) -> Seq<u8> {
    le_bytes(n.len() as u64) + n
}

/// The names of a dictionary, one length-prefixed string each.
pub open spec fn enc_names(names: Seq<Seq<u8>>) -> Seq<u8>
    decreases names.len(),
{
    if names.len() == 0 {
        Seq::empty()
    } else {
        enc_name(names[0]) + enc_names(names.skip(1))
    }
}

/// A dictionary chunk: the count, then the names.
pub open spec fn enc_dict(d: Seq<Seq<u8>>) -> Seq<u8> {
    le_bytes(d.len() as u64) + enc_names(d)
}

/// The state features, two words each.
pub open spec fn enc_sfeats(fs: Seq<StateFeature>) -> Seq<u8>
    decreases fs.len(),
{
    if fs.len() == 0 {
        Seq::empty()
    } else {
        le_bytes(fs[0].label as u64) + le_bytes(fs[0].attr as u64) + enc_sfeats(fs.skip(1))
    }
}

/// The transition features, two words each.
pub open spec fn enc_tfeats(fs: Seq<TransFeature>) -> Seq<u8>
    decreases fs.len(),
{
    if fs.len() == 0 {
        Seq::empty()
    } else {
        le_bytes(fs[0].from as u64) + le_bytes(fs[0].to as u64) + enc_tfeats(fs.skip(1))
    }
}

/// The feature chunk: both counts, then both tables.
pub open spec fn enc_features(sf: Seq<StateFeature>, tf: Seq<TransFeature>) -> Seq<u8> {
    le_bytes(sf.len() as u64) + le_bytes(tf.len() as u64) + enc_sfeats(sf) + enc_tfeats(tf)
}

/// The weights, one word each in two's complement.
pub open spec fn enc_wvals(ws: Seq<i64>) -> Seq<u8>
    decreases ws.len(),
{
    if ws.len() == 0 {
        Seq::empty()
    } else {
        le_bytes(ws[0] as u64) + enc_wvals(ws.skip(1))
    }
}

/// The weight chunk: the count, then the weights.
pub open spec fn enc_weights(ws: Seq<i64>) -> Seq<u8> {
    le_bytes(ws.len() as u64) + enc_wvals(ws)
}

/// One index entry: the chunk kind, its offset from the start of the
/// container, and its length in bytes.
pub open spec fn enc_entry(kind: u64, off: u64, len: u64) -> Seq<u8> {
    le_bytes(kind) + le_bytes(off) + le_bytes(len)
}

/// A whole model container: the magic, an index entry per chunk, then the
/// four chunks laid out back to back.
pub open spec fn enc_model(
    attrs: Seq<Seq<u8>>,
    labels: Seq<Seq<u8>>,
    sf: Seq<StateFeature>,
    tf: Seq<TransFeature>,
    ws: Seq<i64>,
) -> Seq<u8> {
    let c1 = enc_dict(attrs);
    let c2 = enc_dict(labels);
    let c3 = enc_features(sf, tf);
    let c4 = enc_weights(ws);
    let o1 = HEADER_LEN as int;
    let o2 = o1 + c1.len();
    let o3 = o2 + c2.len();
    let o4 = o3 + c3.len();
    le_bytes(MODEL_MAGIC) + enc_entry(CHUNK_ATTRS, o1 as u64, c1.len() as u64) + enc_entry(
        CHUNK_LABELS,
        o2 as u64,
        c2.len() as u64,
    ) + enc_entry(CHUNK_FEATURES, o3 as u64, c3.len() as u64) + enc_entry(
        CHUNK_WEIGHTS,
        o4 as u64,
        c4.len() as u64,
    ) + c1 + c2 + c3 + c4
}

/// Reads one word off the front of a byte stream.
pub open spec fn dec_u64(b: Seq<u8>) -> Option<(u64, Seq<u8>)> {
    if b.len() >= 8 {
        Some((le_val(b.take(8)), b.skip(8)))
    } else {
        None
    }
}

/// Reads one length-prefixed byte string off the front.
pub open spec fn dec_name(b: Seq<u8>) -> Option<(Seq<u8>, Seq<u8>)> {
    match dec_u64(b) {
        None => None,
        Some((n, r)) => if r.len() >= n {
            Some((r.take(n as int), r.skip(n as int)))
        } else {
            None
        },
    }
}

/// Reads `count` names off the front.
pub open spec fn dec_names(b: Seq<u8>, count: nat) -> Option<(Seq<Seq<u8>>, Seq<u8>)>
    decreases count,
{
    if count == 0 {
        Some((Seq::empty(), b))
    } else {
        match dec_name(b) {
            None => None,
            Some((nm, r)) => match dec_names(r, (count - 1) as nat) {
                None => None,
                Some((rest, r2)) => Some((seq![nm] + rest, r2)),
            },
        }
    }
}

/// Reads a dictionary chunk off the front.
pub open spec fn dec_dict(b: Seq<u8>) -> Option<(Seq<Seq<u8>>, Seq<u8>)> {
    match dec_u64(b) {
        None => None,
        Some((n, r)) => dec_names(r, n as nat),
    }
}

/// Reads `count` state features off the front.
pub open spec fn dec_sfeats(b: Seq<u8>, count: nat) -> Option<(Seq<StateFeature>, Seq<u8>)>
    decreases count,
{
    if count == 0 {
        Some((Seq::empty(), b))
    } else {
        match dec_u64(b) {
            None => None,
            Some((label, r)) => match dec_u64(r) {
                None => None,
                Some((attr, r2)) => if label > usize::MAX as u64 || attr > usize::MAX as u64 {
                    None
                } else {
                    match dec_sfeats(r2, (count - 1) as nat) {
                        None => None,
                        Some((rest, r3)) => Some(
                            (
                                seq![
                                    StateFeature { label: label as usize, attr: attr as usize },
                                ] + rest,
                                r3,
                            ),
                        ),
                    }
                },
            },
        }
    }
}

/// Reads `count` transition features off the front.
pub open spec fn dec_tfeats(b: Seq<u8>, count: nat) -> Option<(Seq<TransFeature>, Seq<u8>)>
    decreases count,
{
    if count == 0 {
        Some((Seq::empty(), b))
    } else {
        match dec_u64(b) {
            None => None,
            Some((from, r)) => match dec_u64(r) {
                None => None,
                Some((to, r2)) => if from > usize::MAX as u64 || to > usize::MAX as u64 {
                    None
                } else {
                    match dec_tfeats(r2, (count - 1) as nat) {
                        None => None,
                        Some((rest, r3)) => Some(
                            (
                                seq![TransFeature { from: from as usize, to: to as usize }]
                                    + rest,
                                r3,
                            ),
                        ),
                    }
                },
            },
        }
    }
}

/// Reads a feature chunk off the front.
pub open spec fn dec_features(b: Seq<u8>) -> Option<((Seq<StateFeature>, Seq<TransFeature>), Seq<u8>)> {
    match dec_u64(b) {
        None => None,
        Some((s, r)) => match dec_u64(r) {
            None => None,
            Some((t, r2)) => match dec_sfeats(r2, s as nat) {
                None => None,
                Some((sf, r3)) => match dec_tfeats(r3, t as nat) {
                    None => None,
                    Some((tf, r4)) => Some(((sf, tf), r4)),
                },
            },
        },
    }
}

/// Reads `count` weights off the front.
pub open spec fn dec_wvals(b: Seq<u8>, count: nat) -> Option<(Seq<i64>, Seq<u8>)>
    decreases count,
{
    if count == 0 {
        Some((Seq::empty(), b))
    } else {
        match dec_u64(b) {
            None => None,
            Some((w, r)) => match dec_wvals(r, (count - 1) as nat) {
                None => None,
                Some((rest, r2)) => Some((seq![w as i64] + rest, r2)),
            },
        }
    }
}

/// Reads a weight chunk off the front.
pub open spec fn dec_weights(b: Seq<u8>) -> Option<(Seq<i64>, Seq<u8>)> {
    match dec_u64(b) {
        None => None,
        Some((n, r)) => dec_wvals(r, n as nat),
    }
}

/// Parses a whole container: the magic must match, the index must name the
/// four chunk kinds in order with consistent offsets and lengths, the chunks
/// must parse, and nothing may trail the last chunk.
pub open spec fn dec_model(b: Seq<u8>) -> Option<
    (Seq<Seq<u8>>, Seq<Seq<u8>>, Seq<StateFeature>, Seq<TransFeature>, Seq<i64>),
> {
    if b.len() < HEADER_LEN {
        None
    } else if le_val(b.subrange(0, 8)) != MODEL_MAGIC {
        None
    } else {
        let k1 = le_val(b.subrange(8, 16));
        let o1 = le_val(b.subrange(16, 24));
        let n1 = le_val(b.subrange(24, 32));
        let k2 = le_val(b.subrange(32, 40));
        let o2 = le_val(b.subrange(40, 48));
        let n2 = le_val(b.subrange(48, 56));
        let k3 = le_val(b.subrange(56, 64));
        let o3 = le_val(b.subrange(64, 72));
        let n3 = le_val(b.subrange(72, 80));
        let k4 = le_val(b.subrange(80, 88));
        let o4 = le_val(b.subrange(88, 96));
        let n4 = le_val(b.subrange(96, 104));
        if k1 != CHUNK_ATTRS || k2 != CHUNK_LABELS || k3 != CHUNK_FEATURES || k4 != CHUNK_WEIGHTS {
            None
        } else if o1 != HEADER_LEN || o2 != o1 + n1 || o3 != o2 + n2 || o4 != o3 + n3 || o4 + n4
            != b.len() {
            None
        } else {
            match dec_dict(b.skip(HEADER_LEN as int)) {
                None => None,
                Some((attrs, r1)) => match dec_dict(r1) {
                    None => None,
                    Some((labels, r2)) => match dec_features(r2) {
                        None => None,
                        Some(((sf, tf), r3)) => match dec_weights(r3) {
                            None => None,
                            Some((ws, r4)) => if r4.len() == 0 && r1.len() == b.len() - o2
                                && r2.len() == b.len() - o3 && r3.len() == b.len() - o4 {
                                Some((attrs, labels, sf, tf, ws))
                            } else {
                                None
                            },
                        },
                    },
                },
            }
        }
    }
}

/// What these encodings admit: every count and every offset fits in a word.
pub open spec fn enc_fits(
    attrs: Seq<Seq<u8>>,
    labels: Seq<Seq<u8>>,
    sf: Seq<StateFeature>,
    tf: Seq<TransFeature>,
    ws: Seq<i64>,
) -> bool {
    &&& forall|i: int| 0 <= i < attrs.len() ==> (#[trigger] attrs[i]).len() <= u64::MAX
    &&& forall|i: int| 0 <= i < labels.len() ==> (#[trigger] labels[i]).len() <= u64::MAX
    &&& attrs.len() <= u64::MAX
    &&& labels.len() <= u64::MAX
    &&& sf.len() <= u64::MAX
    &&& tf.len() <= u64::MAX
    &&& ws.len() <= u64::MAX
    &&& enc_model(attrs, labels, sf, tf, ws).len() <= u64::MAX
}

/// A word read off an encoded word recovers it and leaves the tail.
pub proof fn lemma_dec_u64_enc(v: u64, tail: Seq<u8>)
    ensures
        dec_u64(le_bytes(v) + tail) == Some((v, tail)),
{
    lemma_le_round_trip(v);
    let b = le_bytes(v) + tail;
    assert(b.take(8) =~= le_bytes(v));
    assert(b.skip(8) =~= tail);
}

/// A name read off an encoded name recovers it and leaves the tail.
pub proof fn lemma_dec_name_enc(n: Seq<u8>, tail: Seq<u8>)
    requires
        n.len() <= u64::MAX,
    ensures
        dec_name(enc_name(n) + tail) == Some((n, tail)),
{
    assert(enc_name(n) + tail =~= le_bytes(n.len() as u64) + (n + tail));
    lemma_dec_u64_enc(n.len() as u64, n + tail);
    assert((n + tail).take(n.len() as int) =~= n);
    assert((n + tail).skip(n.len() as int) =~= tail);
}

/// Names read off encoded names recover them and leave the tail.
#[verifier::rlimit(100)]
pub proof fn lemma_dec_names_enc(names: Seq<Seq<u8>>, tail: Seq<u8>)
    requires
        forall|i: int| 0 <= i < names.len() ==> (#[trigger] names[i]).len() <= u64::MAX,
    ensures
        dec_names(enc_names(names) + tail, names.len()) == Some((names, tail)),
    decreases names.len(),
{
    if names.len() == 0 {
        assert(enc_names(names) + tail =~= tail);
        assert(dec_names(tail, 0) == Some((Seq::<Seq<u8>>::empty(), tail)));
        assert(Seq::<Seq<u8>>::empty() =~= names);
    } else {
        let rest = names.skip(1);
        assert(enc_names(names) + tail =~= enc_name(names[0]) + (enc_names(rest) + tail));
        lemma_dec_name_enc(names[0], enc_names(rest) + tail);
        assert(forall|i: int| 0 <= i < rest.len() ==> (#[trigger] rest[i]).len() <= u64::MAX);
        lemma_dec_names_enc(rest, tail);
        assert(seq![names[0]] + rest =~= names);
    }
}

/// A dictionary chunk read off an encoded dictionary recovers it.
pub proof fn lemma_dec_dict_enc(d: Seq<Seq<u8>>, tail: Seq<u8>)
    requires
        d.len() <= u64::MAX,
        forall|i: int| 0 <= i < d.len() ==> (#[trigger] d[i]).len() <= u64::MAX,
    ensures
        dec_dict(enc_dict(d) + tail) == Some((d, tail)),
{
    assert(enc_dict(d) + tail =~= le_bytes(d.len() as u64) + (enc_names(d) + tail));
    lemma_dec_u64_enc(d.len() as u64, enc_names(d) + tail);
    lemma_dec_names_enc(d, tail);
}

/// State features read off their encoding recover them.
pub proof fn lemma_dec_sfeats_enc(fs: Seq<StateFeature>, tail: Seq<u8>)
    ensures
        dec_sfeats(enc_sfeats(fs) + tail, fs.len()) == Some((fs, tail)),
    decreases fs.len(),
{
    if fs.len() == 0 {
        assert(enc_sfeats(fs) + tail =~= tail);
        assert(Seq::<StateFeature>::empty() =~= fs);
    } else {
        let rest = fs.skip(1);
        assert(enc_sfeats(fs) + tail =~= le_bytes(fs[0].label as u64) + (le_bytes(
            fs[0].attr as u64,
        ) + (enc_sfeats(rest) + tail)));
        lemma_dec_u64_enc(fs[0].label as u64, le_bytes(fs[0].attr as u64) + (enc_sfeats(rest) + tail));
        lemma_dec_u64_enc(fs[0].attr as u64, enc_sfeats(rest) + tail);
        lemma_dec_sfeats_enc(rest, tail);
        assert((fs[0].label as u64) as usize == fs[0].label);
        assert((fs[0].attr as u64) as usize == fs[0].attr);
        assert(seq![fs[0]] + rest =~= fs);
    }
}

/// Transition features read off their encoding recover them.
pub proof fn lemma_dec_tfeats_enc(fs: Seq<TransFeature>, tail: Seq<u8>)
    ensures
        dec_tfeats(enc_tfeats(fs) + tail, fs.len()) == Some((fs, tail)),
    decreases fs.len(),
{
    if fs.len() == 0 {
        assert(enc_tfeats(fs) + tail =~= tail);
        assert(Seq::<TransFeature>::empty() =~= fs);
    } else {
        let rest = fs.skip(1);
        assert(enc_tfeats(fs) + tail =~= le_bytes(fs[0].from as u64) + (le_bytes(fs[0].to as u64)
            + (enc_tfeats(rest) + tail)));
        lemma_dec_u64_enc(fs[0].from as u64, le_bytes(fs[0].to as u64) + (enc_tfeats(rest) + tail));
        lemma_dec_u64_enc(fs[0].to as u64, enc_tfeats(rest) + tail);
        lemma_dec_tfeats_enc(rest, tail);
        assert((fs[0].from as u64) as usize == fs[0].from);
        assert((fs[0].to as u64) as usize == fs[0].to);
        assert(seq![fs[0]] + rest =~= fs);
    }
}

/// The feature chunk read off its encoding recovers both tables.
pub proof fn lemma_dec_features_enc(sf: Seq<StateFeature>, tf: Seq<TransFeature>, tail: Seq<u8>)
    requires
        sf.len() <= u64::MAX,
        tf.len() <= u64::MAX,
    ensures
        dec_features(enc_features(sf, tf) + tail) == Some(((sf, tf), tail)),
{
    assert(enc_features(sf, tf) + tail =~= le_bytes(sf.len() as u64) + (le_bytes(tf.len() as u64)
        + (enc_sfeats(sf) + (enc_tfeats(tf) + tail))));
    lemma_dec_u64_enc(
        sf.len() as u64,
        le_bytes(tf.len() as u64) + (enc_sfeats(sf) + (enc_tfeats(tf) + tail)),
    );
    lemma_dec_u64_enc(tf.len() as u64, enc_sfeats(sf) + (enc_tfeats(tf) + tail));
    lemma_dec_sfeats_enc(sf, enc_tfeats(tf) + tail);
    lemma_dec_tfeats_enc(tf, tail);
}

/// A weight value survives the two's-complement word round trip.
pub proof fn lemma_weight_cast(w: i64)
    ensures
        ((w as u64) as i64) == w,
{
    assert((w as u64) as i64 == w) by (bit_vector);
}

/// Weights read off their encoding recover them.
pub proof fn lemma_dec_wvals_enc(ws: Seq<i64>, tail: Seq<u8>)
    ensures
        dec_wvals(enc_wvals(ws) + tail, ws.len()) == Some((ws, tail)),
    decreases ws.len(),
{
    if ws.len() == 0 {
        assert(enc_wvals(ws) + tail =~= tail);
        assert(Seq::<i64>::empty() =~= ws);
    } else {
        let rest = ws.skip(1);
        assert(enc_wvals(ws) + tail =~= le_bytes(ws[0] as u64) + (enc_wvals(rest) + tail));
        lemma_dec_u64_enc(ws[0] as u64, enc_wvals(rest) + tail);
        lemma_dec_wvals_enc(rest, tail);
        lemma_weight_cast(ws[0]);
        assert(seq![ws[0]] + rest =~= ws);
    }
}

/// The weight chunk read off its encoding recovers the weights.
pub proof fn lemma_dec_weights_enc(ws: Seq<i64>, tail: Seq<u8>)
    requires
        ws.len() <= u64::MAX,
    ensures
        dec_weights(enc_weights(ws) + tail) == Some((ws, tail)),
{
    assert(enc_weights(ws) + tail =~= le_bytes(ws.len() as u64) + (enc_wvals(ws) + tail));
    lemma_dec_u64_enc(ws.len() as u64, enc_wvals(ws) + tail);
    lemma_dec_wvals_enc(ws, tail);
}

/// Round trip: parsing a serialized model recovers its dictionaries, feature
/// tables, and weights exactly.
#[verifier::rlimit(100)]
#[verifier::spinoff_prover]
pub proof fn lemma_model_round_trip(
    attrs: Seq<Seq<u8>>,
    labels: Seq<Seq<u8>>,
    sf: Seq<StateFeature>,
    tf: Seq<TransFeature>,
    ws: Seq<i64>,
)
    requires
        enc_fits(attrs, labels, sf, tf, ws),
    ensures
        dec_model(enc_model(attrs, labels, sf, tf, ws)) == Some((attrs, labels, sf, tf, ws)),
{
    let c1 = enc_dict(attrs);
    let c2 = enc_dict(labels);
    let c3 = enc_features(sf, tf);
    let c4 = enc_weights(ws);
    let o1 = HEADER_LEN as int;
    let o2 = o1 + c1.len();
    let o3 = o2 + c2.len();
    let o4 = o3 + c3.len();
    let b = enc_model(attrs, labels, sf, tf, ws);
    lemma_le_round_trip(MODEL_MAGIC);
    lemma_le_round_trip(CHUNK_ATTRS);
    lemma_le_round_trip(CHUNK_LABELS);
    lemma_le_round_trip(CHUNK_FEATURES);
    lemma_le_round_trip(CHUNK_WEIGHTS);
    lemma_le_round_trip(o1 as u64);
    lemma_le_round_trip(o2 as u64);
    lemma_le_round_trip(o3 as u64);
    lemma_le_round_trip(o4 as u64);
    lemma_le_round_trip(c1.len() as u64);
    lemma_le_round_trip(c2.len() as u64);
    lemma_le_round_trip(c3.len() as u64);
    lemma_le_round_trip(c4.len() as u64);
    assert(b.len() == o4 + c4.len());
    assert(b.subrange(0, 8) =~= le_bytes(MODEL_MAGIC));
    assert(b.subrange(8, 16) =~= le_bytes(CHUNK_ATTRS));
    assert(b.subrange(16, 24) =~= le_bytes(o1 as u64));
    assert(b.subrange(24, 32) =~= le_bytes(c1.len() as u64));
    assert(b.subrange(32, 40) =~= le_bytes(CHUNK_LABELS));
    assert(b.subrange(40, 48) =~= le_bytes(o2 as u64));
    assert(b.subrange(48, 56) =~= le_bytes(c2.len() as u64));
    assert(b.subrange(56, 64) =~= le_bytes(CHUNK_FEATURES));
    assert(b.subrange(64, 72) =~= le_bytes(o3 as u64));
    assert(b.subrange(72, 80) =~= le_bytes(c3.len() as u64));
    assert(b.subrange(80, 88) =~= le_bytes(CHUNK_WEIGHTS));
    assert(b.subrange(88, 96) =~= le_bytes(o4 as u64));
    assert(b.subrange(96, 104) =~= le_bytes(c4.len() as u64));
    assert(b.skip(HEADER_LEN as int) =~= c1 + (c2 + (c3 + (c4 + Seq::<u8>::empty()))));
    assert(c1 + (c2 + (c3 + (c4 + Seq::<u8>::empty()))) =~= enc_dict(attrs) + (c2 + (c3 + c4)));
    lemma_dec_dict_enc(attrs, c2 + (c3 + c4));
    assert(c2 + (c3 + c4) =~= enc_dict(labels) + (c3 + c4));
    lemma_dec_dict_enc(labels, c3 + c4);
    assert(c3 + c4 =~= enc_features(sf, tf) + (c4 + Seq::<u8>::empty()));
    lemma_dec_features_enc(sf, tf, c4 + Seq::<u8>::empty());
    assert(c4 + Seq::<u8>::empty() =~= enc_weights(ws) + Seq::<u8>::empty());
    lemma_dec_weights_enc(ws, Seq::<u8>::empty());
}

/// Splices a decoded prefix onto the front of a remaining decode result.
pub open spec fn prepend<T>(a: Seq<T>, r: Option<(Seq<T>, Seq<u8>)>) -> Option<(Seq<T>, Seq<u8>)> {
    match r {
        None => None,
        Some((s, rest)) => Some((a + s, rest)),
    }
}

/// Encoding names piece by piece agrees with encoding them at once.
pub proof fn lemma_enc_names_append(a: Seq<Seq<u8>>, b: Seq<Seq<u8>>)
    ensures
        enc_names(a + b) == enc_names(a) + enc_names(b),
    decreases a.len(),
{
    if a.len() == 0 {
        assert(a + b =~= b);
        assert(enc_names(a) + enc_names(b) =~= enc_names(b));
    } else {
        assert((a + b).skip(1) =~= a.skip(1) + b);
        lemma_enc_names_append(a.skip(1), b);
        assert(enc_names(a + b) =~= enc_names(a) + enc_names(b));
    }
}

/// One more name extends the encoding by one length-prefixed string.
pub proof fn lemma_enc_names_snoc(s: Seq<Seq<u8>>, i: int)
    requires
        0 <= i < s.len(),
    ensures
        enc_names(s.take(i + 1)) == enc_names(s.take(i)) + enc_name(s[i]),
{
    assert(s.take(i + 1) =~= s.take(i) + seq![s[i]]);
    lemma_enc_names_append(s.take(i), seq![s[i]]);
    assert(seq![s[i]].skip(1) =~= Seq::<Seq<u8>>::empty());
    assert(enc_names(seq![s[i]]) == enc_name(s[i]) + enc_names(seq![s[i]].skip(1)));
    assert(enc_names(Seq::<Seq<u8>>::empty()) == Seq::<u8>::empty());
    assert(enc_names(seq![s[i]]) =~= enc_name(s[i]));
}

/// Encoding state features piece by piece agrees with encoding them at once.
pub proof fn lemma_enc_sfeats_append(a: Seq<StateFeature>, b: Seq<StateFeature>)
    ensures
        enc_sfeats(a + b) == enc_sfeats(a) + enc_sfeats(b),
    decreases a.len(),
{
    if a.len() == 0 {
        assert(a + b =~= b);
        assert(enc_sfeats(a) + enc_sfeats(b) =~= enc_sfeats(b));
    } else {
        assert((a + b).skip(1) =~= a.skip(1) + b);
        lemma_enc_sfeats_append(a.skip(1), b);
        assert(enc_sfeats(a + b) =~= enc_sfeats(a) + enc_sfeats(b));
    }
}

/// One more state feature extends the encoding by two words.
pub proof fn lemma_enc_sfeats_snoc(s: Seq<StateFeature>, i: int)
    requires
        0 <= i < s.len(),
    ensures
        enc_sfeats(s.take(i + 1)) == enc_sfeats(s.take(i)) + le_bytes(s[i].label as u64)
            + le_bytes(s[i].attr as u64),
{
    assert(s.take(i + 1) =~= s.take(i) + seq![s[i]]);
    lemma_enc_sfeats_append(s.take(i), seq![s[i]]);
    assert(seq![s[i]].skip(1) =~= Seq::<StateFeature>::empty());
    assert(enc_sfeats(seq![s[i]]) == le_bytes(s[i].label as u64) + le_bytes(s[i].attr as u64)
        + enc_sfeats(seq![s[i]].skip(1)));
    assert(enc_sfeats(Seq::<StateFeature>::empty()) == Seq::<u8>::empty());
    assert(enc_sfeats(seq![s[i]]) =~= le_bytes(s[i].label as u64) + le_bytes(s[i].attr as u64));
    assert(enc_sfeats(s.take(i)) + enc_sfeats(seq![s[i]]) =~= enc_sfeats(s.take(i)) + le_bytes(
        s[i].label as u64,
    ) + le_bytes(s[i].attr as u64));
}

/// Encoding transition features piece by piece agrees with encoding them at
/// once.
pub proof fn lemma_enc_tfeats_append(a: Seq<TransFeature>, b: Seq<TransFeature>)
    ensures
        enc_tfeats(a + b) == enc_tfeats(a) + enc_tfeats(b),
    decreases a.len(),
{
    if a.len() == 0 {
        assert(a + b =~= b);
        assert(enc_tfeats(a) + enc_tfeats(b) =~= enc_tfeats(b));
    } else {
        assert((a + b).skip(1) =~= a.skip(1) + b);
        lemma_enc_tfeats_append(a.skip(1), b);
        assert(enc_tfeats(a + b) =~= enc_tfeats(a) + enc_tfeats(b));
    }
}

/// One more transition feature extends the encoding by two words.
pub proof fn lemma_enc_tfeats_snoc(s: Seq<TransFeature>, i: int)
    requires
        0 <= i < s.len(),
    ensures
        enc_tfeats(s.take(i + 1)) == enc_tfeats(s.take(i)) + le_bytes(s[i].from as u64)
            + le_bytes(s[i].to as u64),
{
    assert(s.take(i + 1) =~= s.take(i) + seq![s[i]]);
    lemma_enc_tfeats_append(s.take(i), seq![s[i]]);
    assert(seq![s[i]].skip(1) =~= Seq::<TransFeature>::empty());
    assert(enc_tfeats(seq![s[i]]) == le_bytes(s[i].from as u64) + le_bytes(s[i].to as u64)
        + enc_tfeats(seq![s[i]].skip(1)));
    assert(enc_tfeats(Seq::<TransFeature>::empty()) == Seq::<u8>::empty());
    assert(enc_tfeats(seq![s[i]]) =~= le_bytes(s[i].from as u64) + le_bytes(s[i].to as u64));
    assert(enc_tfeats(s.take(i)) + enc_tfeats(seq![s[i]]) =~= enc_tfeats(s.take(i)) + le_bytes(
        s[i].from as u64,
    ) + le_bytes(s[i].to as u64));
}

/// Encoding weights piece by piece agrees with encoding them at once.
pub proof fn lemma_enc_wvals_append(a: Seq<i64>, b: Seq<i64>)
    ensures
        enc_wvals(a + b) == enc_wvals(a) + enc_wvals(b),
    decreases a.len(),
{
    if a.len() == 0 {
        assert(a + b =~= b);
        assert(enc_wvals(a) + enc_wvals(b) =~= enc_wvals(b));
    } else {
        assert((a + b).skip(1) =~= a.skip(1) + b);
        lemma_enc_wvals_append(a.skip(1), b);
        assert(enc_wvals(a + b) =~= enc_wvals(a) + enc_wvals(b));
    }
}

/// One more weight extends the encoding by one word.
pub proof fn lemma_enc_wvals_snoc(s: Seq<i64>, i: int)
    requires
        0 <= i < s.len(),
    ensures
        enc_wvals(s.take(i + 1)) == enc_wvals(s.take(i)) + le_bytes(s[i] as u64),
{
    assert(s.take(i + 1) =~= s.take(i) + seq![s[i]]);
    lemma_enc_wvals_append(s.take(i), seq![s[i]]);
    assert(seq![s[i]].skip(1) =~= Seq::<i64>::empty());
    assert(enc_wvals(seq![s[i]]) == le_bytes(s[i] as u64) + enc_wvals(seq![s[i]].skip(1)));
    assert(enc_wvals(Seq::<i64>::empty()) == Seq::<u8>::empty());
    assert(enc_wvals(seq![s[i]]) =~= le_bytes(s[i] as u64));
}

/// Appends one word, little-endian.
fn push_u64(out: &mut Vec<u8>, v: u64)
    ensures
        final(out)@ == old(out)@ + le_bytes(v),
{
    out.push((v & 0xff) as u8);
    out.push(((v >> 8) & 0xff) as u8);
    out.push(((v >> 16) & 0xff) as u8);
    out.push(((v >> 24) & 0xff) as u8);
    out.push(((v >> 32) & 0xff) as u8);
    out.push(((v >> 40) & 0xff) as u8);
    out.push(((v >> 48) & 0xff) as u8);
    out.push(((v >> 56) & 0xff) as u8);
    proof {
        reveal(le_bytes);
        assert(out@ =~= old(out)@ + le_bytes(v));
    }
}

/// Appends a byte string.
fn push_bytes(out: &mut Vec<u8>, b: &Vec<u8>)
    ensures
        final(out)@ == old(out)@ + b@,
{
    let n = b.len();
    for i in 0..n
        invariant
            n == b@.len(),
            out@ == old(out)@ + b@.take(i as int),
    {
        out.push(b[i]);
        proof {
            assert(out@ =~= old(out)@ + b@.take(i as int + 1));
        }
    }
    proof {
        assert(b@.take(n as int) =~= b@);
    }
}

/// Encodes one dictionary chunk.
fn encode_dict(d: &Dictionary) -> (r: Vec<u8>)
    ensures
        r@ == enc_dict(d@),
{
    let mut out: Vec<u8> = Vec::new();
    let n = d.count();
    push_u64(&mut out, n as u64);
    proof {
        assert(d@.take(0) =~= Seq::<Seq<u8>>::empty());
        assert(out@ =~= le_bytes(n as u64) + enc_names(d@.take(0)));
    }
    for i in 0..n
        invariant
            n == d@.len(),
            out@ == le_bytes(n as u64) + enc_names(d@.take(i as int)),
    {
        let name = d.name_at(i);
        push_u64(&mut out, name.len() as u64);
        push_bytes(&mut out, name);
        proof {
            lemma_enc_names_snoc(d@, i as int);
            assert(out@ =~= le_bytes(n as u64) + enc_names(d@.take(i as int + 1)));
        }
    }
    proof {
        assert(d@.take(n as int) =~= d@);
    }
    out
}

/// Encodes the feature chunk.
fn encode_features(cat: &FeatureCatalog) -> (r: Vec<u8>)
    ensures
        r@ == enc_features(cat.sf(), cat.tf()),
{
    let mut out: Vec<u8> = Vec::new();
    let s = cat.state_feats.len();
    let t = cat.trans_feats.len();
    push_u64(&mut out, s as u64);
    push_u64(&mut out, t as u64);
    let ghost head = le_bytes(s as u64) + le_bytes(t as u64);
    proof {
        assert(cat.sf().take(0) =~= Seq::<StateFeature>::empty());
        assert(out@ =~= head + enc_sfeats(cat.sf().take(0)));
    }
    for i in 0..s
        invariant
            s == cat.sf().len(),
            head == le_bytes(s as u64) + le_bytes(t as u64),
            out@ == head + enc_sfeats(cat.sf().take(i as int)),
    {
        let f = cat.state_feats[i];
        push_u64(&mut out, f.label as u64);
        push_u64(&mut out, f.attr as u64);
        proof {
            lemma_enc_sfeats_snoc(cat.sf(), i as int);
            assert(out@ =~= head + enc_sfeats(cat.sf().take(i as int + 1)));
        }
    }
    proof {
        assert(cat.sf().take(s as int) =~= cat.sf());
        assert(cat.tf().take(0) =~= Seq::<TransFeature>::empty());
        assert(out@ =~= head + enc_sfeats(cat.sf()) + enc_tfeats(cat.tf().take(0)));
    }
    for i in 0..t
        invariant
            s == cat.sf().len(),
            t == cat.tf().len(),
            head == le_bytes(s as u64) + le_bytes(t as u64),
            out@ == head + enc_sfeats(cat.sf()) + enc_tfeats(cat.tf().take(i as int)),
    {
        let f = cat.trans_feats[i];
        push_u64(&mut out, f.from as u64);
        push_u64(&mut out, f.to as u64);
        proof {
            lemma_enc_tfeats_snoc(cat.tf(), i as int);
            assert(out@ =~= head + enc_sfeats(cat.sf()) + enc_tfeats(cat.tf().take(i as int + 1)));
        }
    }
    proof {
        assert(cat.tf().take(t as int) =~= cat.tf());
        assert(out@ =~= enc_features(cat.sf(), cat.tf()));
    }
    out
}

/// Encodes the weight chunk.
fn encode_weights(ws: &Vec<i64>) -> (r: Vec<u8>)
    ensures
        r@ == enc_weights(ws@),
{
    let mut out: Vec<u8> = Vec::new();
    let n = ws.len();
    push_u64(&mut out, n as u64);
    proof {
        assert(ws@.take(0) =~= Seq::<i64>::empty());
        assert(out@ =~= le_bytes(n as u64) + enc_wvals(ws@.take(0)));
    }
    for i in 0..n
        invariant
            n == ws@.len(),
            out@ == le_bytes(n as u64) + enc_wvals(ws@.take(i as int)),
    {
        push_u64(&mut out, ws[i] as u64);
        proof {
            lemma_enc_wvals_snoc(ws@, i as int);
            assert(out@ =~= le_bytes(n as u64) + enc_wvals(ws@.take(i as int + 1)));
        }
    }
    proof {
        assert(ws@.take(n as int) =~= ws@);
    }
    out
}

impl Model {
    /// Serializes the model into one chunked container: magic, index, then the
    /// attribute dictionary, label dictionary, feature table, and weight
    /// vector.  Fails only when the container would not fit the index words.
    pub fn serialize(&self) -> (r: Result<Vec<u8>, CrfError>)
        ensures
            match r {
                Ok(out) => {
                    &&& out@ == enc_model(
                        self.attrs@,
                        self.labels@,
                        self.catalog.sf(),
                        self.catalog.tf(),
                        self.weights@,
                    )
                    &&& enc_fits(
                        self.attrs@,
                        self.labels@,
                        self.catalog.sf(),
                        self.catalog.tf(),
                        self.weights@,
                    )
                },
                Err(e) => e == CrfError::TrainingDiverged && enc_model(
                    self.attrs@,
                    self.labels@,
                    self.catalog.sf(),
                    self.catalog.tf(),
                    self.weights@,
                ).len() > u64::MAX,
            },
    {
        let c1 = encode_dict(&self.attrs);
        let c2 = encode_dict(&self.labels);
        let c3 = encode_features(&self.catalog);
        let c4 = encode_weights(&self.weights);
        let ghost sf = self.catalog.sf();
        let ghost tf = self.catalog.tf();
        let ghost encoded = enc_model(self.attrs@, self.labels@, sf, tf, self.weights@);
        proof {
            lemma_le_round_trip(MODEL_MAGIC);
            lemma_le_round_trip(CHUNK_ATTRS);
            lemma_le_round_trip(CHUNK_LABELS);
            lemma_le_round_trip(CHUNK_FEATURES);
            lemma_le_round_trip(CHUNK_WEIGHTS);
            lemma_le_round_trip(((HEADER_LEN + c1@.len()) as u64));
            lemma_le_round_trip(((HEADER_LEN + c1@.len() + c2@.len()) as u64));
            lemma_le_round_trip(((HEADER_LEN + c1@.len() + c2@.len() + c3@.len()) as u64));
            lemma_le_round_trip((HEADER_LEN as u64));
            lemma_le_round_trip((c1@.len() as u64));
            lemma_le_round_trip((c2@.len() as u64));
            lemma_le_round_trip((c3@.len() as u64));
            lemma_le_round_trip((c4@.len() as u64));
            assert(encoded.len() == HEADER_LEN + c1@.len() + c2@.len() + c3@.len() + c4@.len());
            self.attrs.lemma_name_lens();
            self.labels.lemma_name_lens();
            assert(sf.len() == vstd::std_specs::vec::spec_vec_len(&self.catalog.state_feats));
            assert(tf.len() == vstd::std_specs::vec::spec_vec_len(&self.catalog.trans_feats));
            assert(self.weights@.len() == vstd::std_specs::vec::spec_vec_len(&self.weights));
        }
        let total: u128 = (HEADER_LEN as u128) + (c1.len() as u128) + (c2.len() as u128) + (
        c3.len() as u128) + (c4.len() as u128);
        if total > u64::MAX as u128 {
            return Err(CrfError::TrainingDiverged);
        }
        let o1: u64 = HEADER_LEN as u64;
        let o2: u64 = o1 + c1.len() as u64;
        let o3: u64 = o2 + c2.len() as u64;
        let o4: u64 = o3 + c3.len() as u64;
        let mut out: Vec<u8> = Vec::new();
        push_u64(&mut out, MODEL_MAGIC);
        push_u64(&mut out, CHUNK_ATTRS);
        push_u64(&mut out, o1);
        push_u64(&mut out, c1.len() as u64);
        push_u64(&mut out, CHUNK_LABELS);
        push_u64(&mut out, o2);
        push_u64(&mut out, c2.len() as u64);
        push_u64(&mut out, CHUNK_FEATURES);
        push_u64(&mut out, o3);
        push_u64(&mut out, c3.len() as u64);
        push_u64(&mut out, CHUNK_WEIGHTS);
        push_u64(&mut out, o4);
        push_u64(&mut out, c4.len() as u64);
        push_bytes(&mut out, &c1);
        push_bytes(&mut out, &c2);
        push_bytes(&mut out, &c3);
        push_bytes(&mut out, &c4);
        proof {
            assert(out@ =~= encoded);
        }
        Ok(out)
    }
}

/// Reads one word at `pos`, little-endian.
fn read_u64(b: &Vec<u8>, pos: usize) -> (r: Option<(u64, usize)>)
    requires
        pos <= b@.len(),
    ensures
        match r {
            Some(vp) => {
                &&& dec_u64(b@.skip(pos as int)) == Some((vp.0, b@.skip(vp.1 as int)))
                &&& vp.1 == pos + 8
                &&& vp.1 <= b@.len()
            },
            None => dec_u64(b@.skip(pos as int)) is None,
        },
{
    if b.len() - pos < 8 {
        return None;
    }
    let v: u64 = (b[pos] as u64) | ((b[pos + 1] as u64) << 8) | ((b[pos + 2] as u64) << 16) | ((
    b[pos + 3] as u64) << 24) | ((b[pos + 4] as u64) << 32) | ((b[pos + 5] as u64) << 40) | ((
    b[pos + 6] as u64) << 48) | ((b[pos + 7] as u64) << 56);
    proof {
        reveal(le_val);
        let t = b@.skip(pos as int).take(8);
        assert(t.len() == 8);
        assert(t[0] == b@[pos as int] && t[1] == b@[pos as int + 1] && t[2] == b@[pos as int + 2]
            && t[3] == b@[pos as int + 3] && t[4] == b@[pos as int + 4] && t[5] == b@[
        pos as int + 5] && t[6] == b@[pos as int + 6] && t[7] == b@[pos as int + 7]);
        assert(v == le_val(t));
        assert(b@.skip(pos as int).skip(8) =~= b@.skip(pos as int + 8));
    }
    Some((v, pos + 8))
}

/// Reads one length-prefixed byte string at `pos`.
fn read_name(b: &Vec<u8>, pos: usize) -> (r: Option<(Vec<u8>, usize)>)
    requires
        pos <= b@.len(),
    ensures
        match r {
            Some(np) => {
                &&& dec_name(b@.skip(pos as int)) == Some((np.0@, b@.skip(np.1 as int)))
                &&& np.1 <= b@.len()
            },
            None => dec_name(b@.skip(pos as int)) is None,
        },
{
    match read_u64(b, pos) {
        None => None,
        Some((n, p)) => {
            if ((b.len() - p) as u64) < n {
                return None;
            }
            let ln: usize = n as usize;
            proof {
                assert(b@.len() == vstd::std_specs::vec::spec_vec_len(b));
                assert(ln == n);
                assert(p + ln <= b@.len());
            }
            let mut nm: Vec<u8> = Vec::new();
            for i in 0..ln
                invariant
                    p + ln <= b@.len() <= usize::MAX,
                    nm@.len() == i,
                    forall|j: int| 0 <= j < i ==> #[trigger] nm@[j] == b@[p + j],
            {
                nm.push(b[p + i]);
            }
            proof {
                assert(nm@ =~= b@.skip(p as int).take(n as int));
                assert(b@.skip(p as int).skip(n as int) =~= b@.skip(p as int + n));
            }
            Some((nm, p + ln))
        },
    }
}

/// Reads `count` names starting at `pos`.
fn read_names(b: &Vec<u8>, pos: usize, count: u64) -> (r: Option<(Vec<Vec<u8>>, usize)>)
    requires
        pos <= b@.len(),
    ensures
        match r {
            Some(np) => {
                &&& dec_names(b@.skip(pos as int), count as nat) == Some(
                    (np.0@.map_values(|x: Vec<u8>| x@), b@.skip(np.1 as int)),
                )
                &&& np.1 <= b@.len()
            },
            None => dec_names(b@.skip(pos as int), count as nat) is None,
        },
{
    let mut names: Vec<Vec<u8>> = Vec::new();
    let mut p: usize = pos;
    let mut i: u64 = 0;
    proof {
        assert(names@.map_values(|x: Vec<u8>| x@) =~= Seq::<Seq<u8>>::empty());
    }
    while i < count
        invariant
            i <= count,
            p <= b@.len(),
            dec_names(b@.skip(pos as int), count as nat) == prepend(
                names@.map_values(|x: Vec<u8>| x@),
                dec_names(b@.skip(p as int), (count - i) as nat),
            ),
        decreases count - i,
    {
        match read_name(b, p) {
            None => {
                return None;
            },
            Some((nm, p2)) => {
                let ghost acc = names@.map_values(|x: Vec<u8>| x@);
                names.push(nm);
                proof {
                    assert(names@.map_values(|x: Vec<u8>| x@) =~= acc + seq![nm@]);
                    let rest = dec_names(b@.skip(p2 as int), (count - i - 1) as nat);
                    match rest {
                        None => {},
                        Some((s, r2)) => {
                            assert((acc + seq![nm@]) + s =~= acc + (seq![nm@] + s));
                        },
                    }
                }
                p = p2;
                i = i + 1;
            },
        }
    }
    Some((names, p))
}

/// Reads `count` state features starting at `pos`.
fn read_sfeats(b: &Vec<u8>, pos: usize, count: u64) -> (r: Option<(Vec<StateFeature>, usize)>)
    requires
        pos <= b@.len(),
    ensures
        match r {
            Some(np) => {
                &&& dec_sfeats(b@.skip(pos as int), count as nat) == Some(
                    (np.0@, b@.skip(np.1 as int)),
                )
                &&& np.1 <= b@.len()
            },
            None => dec_sfeats(b@.skip(pos as int), count as nat) is None,
        },
{
    let mut fs: Vec<StateFeature> = Vec::new();
    let mut p: usize = pos;
    let mut i: u64 = 0;
    proof {
        assert(fs@ =~= Seq::<StateFeature>::empty());
    }
    while i < count
        invariant
            i <= count,
            p <= b@.len(),
            dec_sfeats(b@.skip(pos as int), count as nat) == prepend(
                fs@,
                dec_sfeats(b@.skip(p as int), (count - i) as nat),
            ),
        decreases count - i,
    {
        let r1 = read_u64(b, p);
        match r1 {
            None => {
                return None;
            },
            Some((label, p1)) => {
                match read_u64(b, p1) {
                    None => {
                        return None;
                    },
                    Some((attr, p2)) => {
                        if label > usize::MAX as u64 || attr > usize::MAX as u64 {
                            // an id beyond the platform's index range cannot
                            // name a dictionary entry: malformed
                            return None;
                        }
                        let ghost acc = fs@;
                        let f = StateFeature { label: label as usize, attr: attr as usize };
                        fs.push(f);
                        proof {
                            assert(fs@ =~= acc + seq![f]);
                            let rest = dec_sfeats(b@.skip(p2 as int), (count - i - 1) as nat);
                            match rest {
                                None => {},
                                Some((s, r2)) => {
                                    assert((acc + seq![f]) + s =~= acc + (seq![f] + s));
                                },
                            }
                        }
                        p = p2;
                        i = i + 1;
                    },
                }
            },
        }
    }
    Some((fs, p))
}

/// Reads `count` transition features starting at `pos`.
fn read_tfeats(b: &Vec<u8>, pos: usize, count: u64) -> (r: Option<(Vec<TransFeature>, usize)>)
    requires
        pos <= b@.len(),
    ensures
        match r {
            Some(np) => {
                &&& dec_tfeats(b@.skip(pos as int), count as nat) == Some(
                    (np.0@, b@.skip(np.1 as int)),
                )
                &&& np.1 <= b@.len()
            },
            None => dec_tfeats(b@.skip(pos as int), count as nat) is None,
        },
{
    let mut fs: Vec<TransFeature> = Vec::new();
    let mut p: usize = pos;
    let mut i: u64 = 0;
    proof {
        assert(fs@ =~= Seq::<TransFeature>::empty());
    }
    while i < count
        invariant
            i <= count,
            p <= b@.len(),
            dec_tfeats(b@.skip(pos as int), count as nat) == prepend(
                fs@,
                dec_tfeats(b@.skip(p as int), (count - i) as nat),
            ),
        decreases count - i,
    {
        match read_u64(b, p) {
            None => {
                return None;
            },
            Some((from, p1)) => {
                match read_u64(b, p1) {
                    None => {
                        return None;
                    },
                    Some((to, p2)) => {
                        if from > usize::MAX as u64 || to > usize::MAX as u64 {
                            // an id beyond the platform's index range cannot
                            // name a dictionary entry: malformed
                            return None;
                        }
                        let ghost acc = fs@;
                        let f = TransFeature { from: from as usize, to: to as usize };
                        fs.push(f);
                        proof {
                            assert(fs@ =~= acc + seq![f]);
                            let rest = dec_tfeats(b@.skip(p2 as int), (count - i - 1) as nat);
                            match rest {
                                None => {},
                                Some((s, r2)) => {
                                    assert((acc + seq![f]) + s =~= acc + (seq![f] + s));
                                },
                            }
                        }
                        p = p2;
                        i = i + 1;
                    },
                }
            },
        }
    }
    Some((fs, p))
}

/// Reads `count` weights starting at `pos`.
fn read_wvals(b: &Vec<u8>, pos: usize, count: u64) -> (r: Option<(Vec<i64>, usize)>)
    requires
        pos <= b@.len(),
    ensures
        match r {
            Some(np) => {
                &&& dec_wvals(b@.skip(pos as int), count as nat) == Some(
                    (np.0@, b@.skip(np.1 as int)),
                )
                &&& np.1 <= b@.len()
            },
            None => dec_wvals(b@.skip(pos as int), count as nat) is None,
        },
{
    let mut ws: Vec<i64> = Vec::new();
    let mut p: usize = pos;
    let mut i: u64 = 0;
    proof {
        assert(ws@ =~= Seq::<i64>::empty());
    }
    while i < count
        invariant
            i <= count,
            p <= b@.len(),
            dec_wvals(b@.skip(pos as int), count as nat) == prepend(
                ws@,
                dec_wvals(b@.skip(p as int), (count - i) as nat),
            ),
        decreases count - i,
    {
        match read_u64(b, p) {
            None => {
                return None;
            },
            Some((w, p1)) => {
                let ghost acc = ws@;
                ws.push(w as i64);
                proof {
                    assert(ws@ =~= acc + seq![w as i64]);
                    let rest = dec_wvals(b@.skip(p1 as int), (count - i - 1) as nat);
                    match rest {
                        None => {},
                        Some((s, r2)) => {
                            assert((acc + seq![w as i64]) + s =~= acc + (seq![w as i64] + s));
                        },
                    }
                }
                p = p1;
                i = i + 1;
            },
        }
    }
    Some((ws, p))
}

/// Reads one dictionary chunk starting at `pos`.
fn read_dict(b: &Vec<u8>, pos: usize) -> (r: Option<(Vec<Vec<u8>>, usize)>)
    requires
        pos <= b@.len(),
    ensures
        match r {
            Some(np) => {
                &&& dec_dict(b@.skip(pos as int)) == Some(
                    (np.0@.map_values(|x: Vec<u8>| x@), b@.skip(np.1 as int)),
                )
                &&& np.1 <= b@.len()
            },
            None => dec_dict(b@.skip(pos as int)) is None,
        },
{
    match read_u64(b, pos) {
        None => None,
        Some((n, p)) => read_names(b, p, n),
    }
}

/// Reads one header word at a fixed position.
fn read_header_word(b: &Vec<u8>, pos: usize) -> (v: u64)
    requires
        pos + 8 <= b@.len(),
    ensures
        v == le_val(b@.subrange(pos as int, pos as int + 8)),
{
    match read_u64(b, pos) {
        Some((v, _p)) => {
            proof {
                assert(b@.skip(pos as int).take(8) =~= b@.subrange(pos as int, pos as int + 8));
            }
            v
        },
        None => {
            proof {
                assert(false);
            }
            0
        },
    }
}

/// Parses a container into its five raw parts, exactly when the specification
/// parser accepts the bytes.
fn parse(b: &Vec<u8>) -> (r: Option<
    (Vec<Vec<u8>>, Vec<Vec<u8>>, Vec<StateFeature>, Vec<TransFeature>, Vec<i64>),
>)
    ensures
        match r {
            Some(p) => dec_model(b@) == Some(
                (
                    p.0@.map_values(|x: Vec<u8>| x@),
                    p.1@.map_values(|x: Vec<u8>| x@),
                    p.2@,
                    p.3@,
                    p.4@,
                ),
            ),
            None => dec_model(b@) is None,
        },
{
    let n = b.len();
    if n < HEADER_LEN {
        return None;
    }
    let magic = read_header_word(b, 0);
    if magic != MODEL_MAGIC {
        return None;
    }
    let k1 = read_header_word(b, 8);
    let o1 = read_header_word(b, 16);
    let n1 = read_header_word(b, 24);
    let k2 = read_header_word(b, 32);
    let o2 = read_header_word(b, 40);
    let n2 = read_header_word(b, 48);
    let k3 = read_header_word(b, 56);
    let o3 = read_header_word(b, 64);
    let n3 = read_header_word(b, 72);
    let k4 = read_header_word(b, 80);
    let o4 = read_header_word(b, 88);
    let n4 = read_header_word(b, 96);
    if k1 != CHUNK_ATTRS || k2 != CHUNK_LABELS || k3 != CHUNK_FEATURES || k4 != CHUNK_WEIGHTS {
        return None;
    }
    if o1 != HEADER_LEN as u64 {
        return None;
    }
    if (o2 as u128) != (o1 as u128) + (n1 as u128) {
        return None;
    }
    if (o3 as u128) != (o2 as u128) + (n2 as u128) {
        return None;
    }
    if (o4 as u128) != (o3 as u128) + (n3 as u128) {
        return None;
    }
    if (o4 as u128) + (n4 as u128) != (n as u128) {
        return None;
    }
    let (attrs, p1) = match read_dict(b, HEADER_LEN) {
        Some(x) => x,
        None => {
            return None;
        },
    };
    let (labels, p2) = match read_dict(b, p1) {
        Some(x) => x,
        None => {
            return None;
        },
    };
    let (s_count, pf) = match read_u64(b, p2) {
        Some(x) => x,
        None => {
            return None;
        },
    };
    let (t_count, pf2) = match read_u64(b, pf) {
        Some(x) => x,
        None => {
            return None;
        },
    };
    let (sfv, pf3) = match read_sfeats(b, pf2, s_count) {
        Some(x) => x,
        None => {
            return None;
        },
    };
    let (tfv, p3) = match read_tfeats(b, pf3, t_count) {
        Some(x) => x,
        None => {
            return None;
        },
    };
    let (w_count, pw) = match read_u64(b, p3) {
        Some(x) => x,
        None => {
            return None;
        },
    };
    let (wsv, p4) = match read_wvals(b, pw, w_count) {
        Some(x) => x,
        None => {
            return None;
        },
    };
    if p4 != n {
        return None;
    }
    if (p1 as u128) != (o2 as u128) {
        return None;
    }
    if (p2 as u128) != (o3 as u128) {
        return None;
    }
    if (p3 as u128) != (o4 as u128) {
        return None;
    }
    Some((attrs, labels, sfv, tfv, wsv))
}

/// Whether no name occurs twice.
fn names_distinct(names: &Vec<Vec<u8>>) -> (r: bool)
    ensures
        r == distinct_names(names@.map_values(|x: Vec<u8>| x@)),
{
    let n = names.len();
    for i in 0..n
        invariant
            n == names@.len(),
            forall|u: int, v: int|
                0 <= u < v < n && u < i ==> (#[trigger] names@[u])@ != (#[trigger] names@[v])@,
    {
        let mut j = i + 1;
        while j < n
            invariant
                n == names@.len(),
                i < j <= n || (i + 1 > n && j == i + 1),
                i < n,
                forall|v: int| i < v < j ==> names@[i as int]@ != (#[trigger] names@[v])@,
            decreases n - j,
        {
            if vecs_eq(&names[i], &names[j]) {
                proof {
                    let mv = names@.map_values(|x: Vec<u8>| x@);
                    assert(mv[i as int] == mv[j as int]);
                }
                return false;
            }
            j = j + 1;
        }
    }
    proof {
        let mv = names@.map_values(|x: Vec<u8>| x@);
        assert forall|u: int, v: int| 0 <= u < v < mv.len() implies mv[u] != mv[v] by {
            assert(names@[u]@ != names@[v]@);
        }
    }
    true
}

/// Whether the state-feature table is strictly ordered with ids in range.
fn sfeats_ok(sf: &Vec<StateFeature>, nl: usize, na: usize) -> (r: bool)
    ensures
        r == ({
            &&& forall|k1: int, k2: int|
                0 <= k1 < k2 < sf@.len() ==> sf_lt(#[trigger] sf@[k1], #[trigger] sf@[k2])
            &&& forall|k: int|
                0 <= k < sf@.len() ==> (#[trigger] sf@[k]).label < nl && sf@[k].attr < na
        }),
{
    let n = sf.len();
    for k in 0..n
        invariant
            n == sf@.len(),
            forall|u: int| 0 <= u < k ==> (#[trigger] sf@[u]).label < nl && sf@[u].attr < na,
            forall|u: int| 0 <= u < k - 1 ==> sf_lt(#[trigger] sf@[u], sf@[u + 1]),
    {
        let f = sf[k];
        if f.label >= nl || f.attr >= na {
            return false;
        }
        if k > 0 {
            let p = sf[k - 1];
            if !(p.label < f.label || (p.label == f.label && p.attr < f.attr)) {
                proof {
                    assert(!sf_lt(sf@[k - 1], sf@[k as int]));
                }
                return false;
            }
        }
    }
    proof {
        assert forall|k1: int, k2: int|
            0 <= k1 < k2 < sf@.len() implies sf_lt(#[trigger] sf@[k1], #[trigger] sf@[k2]) by {
            lemma_sf_adjacent_sorted(sf@, k1, k2);
        }
    }
    true
}

/// Whether the transition-feature table is strictly ordered with ids in range.
fn tfeats_ok(tf: &Vec<TransFeature>, nl: usize) -> (r: bool)
    ensures
        r == ({
            &&& forall|k1: int, k2: int|
                0 <= k1 < k2 < tf@.len() ==> tf_lt(#[trigger] tf@[k1], #[trigger] tf@[k2])
            &&& forall|k: int|
                0 <= k < tf@.len() ==> (#[trigger] tf@[k]).from < nl && tf@[k].to < nl
        }),
{
    let n = tf.len();
    for k in 0..n
        invariant
            n == tf@.len(),
            forall|u: int| 0 <= u < k ==> (#[trigger] tf@[u]).from < nl && tf@[u].to < nl,
            forall|u: int| 0 <= u < k - 1 ==> tf_lt(#[trigger] tf@[u], tf@[u + 1]),
    {
        let f = tf[k];
        if f.from >= nl || f.to >= nl {
            return false;
        }
        if k > 0 {
            let p = tf[k - 1];
            if !(p.from < f.from || (p.from == f.from && p.to < f.to)) {
                proof {
                    assert(!tf_lt(tf@[k - 1], tf@[k as int]));
                }
                return false;
            }
        }
    }
    proof {
        assert forall|k1: int, k2: int|
            0 <= k1 < k2 < tf@.len() implies tf_lt(#[trigger] tf@[k1], #[trigger] tf@[k2]) by {
            lemma_tf_adjacent_sorted(tf@, k1, k2);
        }
    }
    true
}

/// Whether every weight lies within the admitted range.
fn weights_bounded(ws: &Vec<i64>) -> (r: bool)
    ensures
        r == (forall|k: int|
            0 <= k < ws@.len() ==> -WEIGHT_BOUND <= #[trigger] ws@[k] <= WEIGHT_BOUND),
{
    let n = ws.len();
    for k in 0..n
        invariant
            n == ws@.len(),
            forall|u: int| 0 <= u < k ==> -WEIGHT_BOUND <= #[trigger] ws@[u] <= WEIGHT_BOUND,
    {
        let w = ws[k];
        if w < -WEIGHT_BOUND || w > WEIGHT_BOUND {
            return false;
        }
    }
    true
}

impl Model {
    /// Loads a model from a serialized container.  The container is parsed
    /// and structurally validated (magic, index consistency, chunk bounds,
    /// distinct names, ordered feature tables, one bounded weight per
    /// feature); any violation is a distinct corrupt-model failure.
    pub fn load(bytes: &Vec<u8>) -> (r: Result<Model, CrfError>)
        ensures
            match r {
                Ok(m) => {
                    &&& dec_model(bytes@) == Some(
                        (m.attrs@, m.labels@, m.catalog.sf(), m.catalog.tf(), m.weights@),
                    )
                    &&& m.wf()
                },
                Err(e) => e == CrfError::CorruptModel && match dec_model(bytes@) {
                    None => true,
                    Some(parts) => !admissible(parts.0, parts.1, parts.2, parts.3, parts.4),
                },
            },
    {
        let parsed = match parse(bytes) {
            Some(x) => x,
            None => {
                return Err(CrfError::CorruptModel);
            },
        };
        let (attr_names, label_names, sfv, tfv, wsv) = parsed;
        if !names_distinct(&attr_names) {
            return Err(CrfError::CorruptModel);
        }
        if !names_distinct(&label_names) {
            return Err(CrfError::CorruptModel);
        }
        let nl = label_names.len();
        let na = attr_names.len();
        if nl < 1 || nl > MAX_LABELS {
            return Err(CrfError::CorruptModel);
        }
        if na > MAX_ATTRS {
            return Err(CrfError::CorruptModel);
        }
        if !sfeats_ok(&sfv, nl, na) {
            return Err(CrfError::CorruptModel);
        }
        if !tfeats_ok(&tfv, nl) {
            return Err(CrfError::CorruptModel);
        }
        if (sfv.len() as u128) + (tfv.len() as u128) != (wsv.len() as u128) {
            return Err(CrfError::CorruptModel);
        }
        if !weights_bounded(&wsv) {
            return Err(CrfError::CorruptModel);
        }
        let attrs = Dictionary::from_names(attr_names);
        let labels = Dictionary::from_names(label_names);
        let catalog = FeatureCatalog { state_feats: sfv, trans_feats: tfv };
        Ok(Model { attrs, labels, catalog, weights: wsv })
    }
}

} // verus!
