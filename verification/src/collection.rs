//! A named space of embeddings sharing a dimension and a distance metric.

use vstd::prelude::*;
use crate::distance::Distance;
use crate::embedding::{
    Embedding, EmbeddingView, spec_matches_string, spec_meta_lookup,
};
use crate::error::Error;
use crate::score::{number_matches, spec_number_matches, spec_score_key, MetadataEqualities};
use crate::topk::{spec_topk, top_k};

verus! {

/// A collection of embeddings. Every vector has length `dimension`, ids are
/// unique, and both `dimension` and `distance` are immutable after creation.
pub struct Collection {
    /// Dimension of the vectors in the collection.
    pub dimension: usize,
    /// Distance metric used for querying.
    pub distance: Distance,
    /// Embeddings in the collection, in insertion order.
    pub embeddings: Vec<Embedding>,
}

/// The mathematical value of a [`Collection`].
pub ghost struct CollectionView {
    pub dimension: nat,
    pub distance: Distance,
    pub embeddings: Seq<EmbeddingView>,
}

/// The values of a list of embeddings, in order.
pub open spec fn spec_views(s: Seq<Embedding>) -> Seq<EmbeddingView> {
    s.map_values(|e: Embedding| e@)
}

impl View for Collection {
    type V = CollectionView;

    open spec fn view(&self) -> CollectionView {
        CollectionView {
            dimension: self.dimension as nat,
            distance: self.distance,
            embeddings: spec_views(self.embeddings@),
        }
    }
}

/// No two embeddings share an id.
pub open spec fn spec_ids_unique(s: Seq<EmbeddingView>) -> bool {
    forall|i: int, j: int| 0 <= i < j < s.len() ==> (#[trigger] s[i]).id != (#[trigger] s[j]).id
}

/// Some embedding carries the id.
pub open spec fn spec_has_id(s: Seq<EmbeddingView>, id: Seq<char>) -> bool {
    exists|i: int| 0 <= i < s.len() && (#[trigger] s[i]).id == id
}

impl CollectionView {
    /// The collection's invariant: every vector has the collection's
    /// dimension, ids are unique, and each embedding is well-formed.
    pub open spec fn wf(self) -> bool {
        &&& forall|i: int|
            0 <= i < self.embeddings.len() ==> (#[trigger] self.embeddings[i]).vector.len()
                == self.dimension
        &&& spec_ids_unique(self.embeddings)
        &&& forall|i: int| 0 <= i < self.embeddings.len() ==> (#[trigger] self.embeddings[i]).wf()
    }
}

/// The embedding list with the first embedding carrying `id` removed, and
/// under unique ids the list without `id` at all.
pub open spec fn spec_remove_id(s: Seq<EmbeddingView>, id: Seq<char>) -> Seq<EmbeddingView>
    decreases s.len(),
{
    if s.len() == 0 {
        s
    } else if s[0].id == id {
        s.drop_first()
    } else {
        seq![s[0]] + spec_remove_id(s.drop_first(), id)
    }
}

/// The embedding list after an upsert of `e`: any embedding with `e`'s id
/// leaves, then `e` is appended.
pub open spec fn spec_upsert(s: Seq<EmbeddingView>, e: EmbeddingView) -> Seq<EmbeddingView> {
    if spec_has_id(s, e.id) {
        spec_remove_id(s, e.id).push(e)
    } else {
        s.push(e)
    }
}

/// The first embedding carrying `id`, if any.
pub open spec fn spec_emb_lookup(s: Seq<EmbeddingView>, id: Seq<char>) -> Option<EmbeddingView>
    decreases s.len(),
{
    if s.len() == 0 {
        Option::None
    } else if s[0].id == id {
        Option::Some(s[0])
    } else {
        spec_emb_lookup(s.drop_first(), id)
    }
}

/// If position `i` holds the first embedding with `id`, the lookup yields it.
pub proof fn lemma_emb_lookup_at(s: Seq<EmbeddingView>, id: Seq<char>, i: int)
    requires
        0 <= i < s.len(),
        s[i].id == id,
        forall|j: int| 0 <= j < i ==> (#[trigger] s[j]).id != id,
    ensures
        spec_emb_lookup(s, id) == Option::Some(s[i]),
    decreases i,
{
    if i > 0 {
        lemma_emb_lookup_at(s.drop_first(), id, i - 1);
    }
}

/// If no embedding carries `id`, the lookup yields nothing.
pub proof fn lemma_emb_lookup_none(s: Seq<EmbeddingView>, id: Seq<char>)
    requires
        forall|j: int| 0 <= j < s.len() ==> (#[trigger] s[j]).id != id,
    ensures
        spec_emb_lookup(s, id) is None,
    decreases s.len(),
{
    if s.len() > 0 {
        lemma_emb_lookup_none(s.drop_first(), id);
    }
}

/// If position `i` holds the first embedding with `id`, removing by id is
/// removing position `i`.
pub proof fn lemma_remove_id_at(s: Seq<EmbeddingView>, id: Seq<char>, i: int)
    requires
        0 <= i < s.len(),
        s[i].id == id,
        forall|j: int| 0 <= j < i ==> (#[trigger] s[j]).id != id,
    ensures
        spec_remove_id(s, id) == s.remove(i),
    decreases i,
{
    if i == 0 {
        assert(spec_remove_id(s, id) =~= s.remove(0));
    } else {
        lemma_remove_id_at(s.drop_first(), id, i - 1);
        assert(seq![s[0]] + s.drop_first().remove(i - 1) =~= s.remove(i));
    }
}

/// The first `k` entries of `s`, or all of `s` if it is shorter.
pub open spec fn spec_take_k<A>(s: Seq<A>, k: nat) -> Seq<A> {
    if s.len() <= k {
        s
    } else {
        s.take(k as int)
    }
}

/// Which embeddings a string metadata query keeps.
pub open spec fn spec_string_pred(key: Seq<char>, value: Seq<char>) -> spec_fn(EmbeddingView) -> bool {
    |e: EmbeddingView| spec_matches_string(e, key, value)
}

/// An embedding paired with the parsed numeric value of one of its metadata
/// entries, as the caller parsed it.
pub open spec fn spec_num_zip(
    embs: Seq<EmbeddingView>,
    parsed: Seq<Option<u32>>,
) -> Seq<(EmbeddingView, Option<u32>)> {
    Seq::new(embs.len(), |i: int| (embs[i], parsed[i]))
}

/// Which (embedding, parsed value) pairs a numeric metadata query keeps.
pub open spec fn spec_number_pred(value: u32, equality: MetadataEqualities) -> spec_fn(
    (EmbeddingView, Option<u32>),
) -> bool {
    |p: (EmbeddingView, Option<u32>)| p.1 matches Some(b) && spec_number_matches(b, value, equality)
}

/// A metadata filter returns a prefix of the filtered sequence: at most `k`
/// entries, every one satisfying the predicate, in their original order.
pub proof fn lemma_metadata_filter_prefix<A>(s: Seq<A>, pred: spec_fn(A) -> bool, k: nat)
    ensures
        spec_take_k(s.filter(pred), k).len() <= k,
        spec_take_k(s.filter(pred), k).is_prefix_of(s.filter(pred)),
        forall|i: int|
            0 <= i < spec_take_k(s.filter(pred), k).len() ==> pred(
                #[trigger] spec_take_k(s.filter(pred), k)[i],
            ),
{
    broadcast use vstd::seq_lib::group_filter_ensures;

    let f = s.filter(pred);
    assert(spec_take_k(f, k).is_prefix_of(f));
}

impl Collection {
    /// The first embedding carrying `id`, copied, if any.
    pub fn get_id(&self, id: &String) -> (r: Option<Embedding>)
        ensures
            r is Some <==> spec_has_id(self@.embeddings, id@),
            match spec_emb_lookup(self@.embeddings, id@) {
                Option::None => r is None,
                Option::Some(ev) => r matches Some(e) && e@ == ev,
            },
    {
        let n = self.embeddings.len();
        for i in 0..n
            invariant
                n == self.embeddings@.len(),
                forall|j: int| 0 <= j < i ==> (#[trigger] spec_views(self.embeddings@)[j]).id != id@,
        {
            if self.embeddings[i].id == *id {
                let e = self.embeddings[i].clone();
                proof {
                    assert(self@.embeddings[i as int] == e@);
                    lemma_emb_lookup_at(self@.embeddings, id@, i as int);
                }
                return Option::Some(e);
            }
        }
        proof {
            lemma_emb_lookup_none(self@.embeddings, id@);
        }
        Option::None
    }

    /// Removes and returns the first embedding carrying `id`, or reports
    /// `IDNotFound` and leaves the collection unchanged.
    pub fn delete_id(&mut self, id: &String) -> (r: Result<Embedding, Error>)
        ensures
            r is Ok <==> spec_has_id(old(self)@.embeddings, id@),
            match r {
                Result::Ok(e) => exists|i: int|
                    {
                        &&& 0 <= i < old(self)@.embeddings.len()
                        &&& e@ == #[trigger] old(self)@.embeddings[i]
                        &&& e@.id == id@
                        &&& (forall|j: int|
                            0 <= j < i ==> (#[trigger] old(self)@.embeddings[j]).id != id@)
                        &&& final(self)@.embeddings == old(self)@.embeddings.remove(i)
                    },
                Result::Err(er) => er == Error::IDNotFound && final(self)@ == old(self)@,
            },
            final(self)@.dimension == old(self)@.dimension,
            final(self)@.distance == old(self)@.distance,
    {
        let n = self.embeddings.len();
        for i in 0..n
            invariant
                n == self.embeddings@.len(),
                *self == *old(self),
                forall|j: int| 0 <= j < i ==> (#[trigger] spec_views(self.embeddings@)[j]).id != id@,
        {
            if self.embeddings[i].id == *id {
                let e = self.embeddings.remove(i);
                proof {
                    assert(final(self)@.embeddings =~= old(self)@.embeddings.remove(i as int));
                    assert(e@ == old(self)@.embeddings[i as int]);
                }
                return Result::Ok(e);
            }
        }
        Result::Err(Error::IDNotFound)
    }

    /// Upserts `embedding`: any stored embedding with the same id leaves
    /// first, then `embedding` is appended. Preserves the invariant when
    /// the new embedding is well-formed and has the right dimension.
    pub fn upsert(&mut self, embedding: Embedding)
        ensures
            final(self)@.embeddings == spec_upsert(old(self)@.embeddings, embedding@),
            final(self)@.dimension == old(self)@.dimension,
            final(self)@.distance == old(self)@.distance,
            old(self)@.wf() && embedding@.wf() && embedding@.vector.len() == old(self)@.dimension
                ==> final(self)@.wf(),
    {
        let ghost s0 = self@.embeddings;
        let mut found: bool = false;
        let n = self.embeddings.len();
        for i in 0..n
            invariant
                n == self.embeddings@.len(),
                *self == *old(self),
                s0 == self@.embeddings,
                found <==> exists|j: int|
                    0 <= j < i && (#[trigger] s0[j]).id == embedding@.id,
        {
            let eq = self.embeddings[i].id == embedding.id;
            proof {
                assert(s0[i as int] == self.embeddings@[i as int]@);
            }
            if eq {
                found = true;
            }
        }
        if found {
            proof {
                assert(spec_has_id(s0, embedding@.id));
            }
            let removed = self.delete_id(&embedding.id);
            proof {
                let i = choose|i: int|
                    {
                        &&& 0 <= i < s0.len()
                        &&& removed matches Result::Ok(e) && e@ == s0[i]
                        &&& s0[i].id == embedding@.id
                        &&& (forall|j: int| 0 <= j < i ==> (#[trigger] s0[j]).id != embedding@.id)
                        &&& self@.embeddings == s0.remove(i)
                    };
                lemma_remove_id_at(s0, embedding@.id, i);
            }
        } else {
            proof {
                assert(!spec_has_id(s0, embedding@.id));
            }
        }
        let ghost s1 = self@.embeddings;
        self.embeddings.push(embedding);
        proof {
            assert(self@.embeddings =~= s1.push(embedding@));
            if old(self)@.wf() && embedding@.wf() && embedding@.vector.len()
                == old(self)@.dimension {
                if spec_has_id(s0, embedding@.id) {
                    let i = choose|i: int|
                        0 <= i < s0.len() && s1 == s0.remove(i) && (#[trigger] s0[i]).id
                            == embedding@.id && (forall|j: int|
                            0 <= j < i ==> (#[trigger] s0[j]).id != embedding@.id);
                    assert(forall|j: int|
                        0 <= j < s1.len() ==> (#[trigger] s1[j]).id != embedding@.id) by {
                        assert(forall|j: int|
                            0 <= j < s0.len() && j != i ==> (#[trigger] s0[j]).id
                                != embedding@.id);
                    }
                    assert(final(self)@.wf());
                } else {
                    assert(forall|j: int|
                        0 <= j < s1.len() ==> (#[trigger] s1[j]).id != embedding@.id);
                    assert(final(self)@.wf());
                }
            }
        }
    }

    /// The first `k` embeddings, in insertion order, whose metadata maps
    /// `key` to exactly `value`.
    pub fn get_metadata_string(&self, key: &String, value: &String, k: usize) -> (r: Vec<Embedding>)
        ensures
            spec_views(r@) == spec_take_k(
                self@.embeddings.filter(spec_string_pred(key@, value@)),
                k as nat,
            ),
    {
        let ghost pred = spec_string_pred(key@, value@);
        let ghost embs = self@.embeddings;
        let mut out: Vec<Embedding> = Vec::new();
        let n = self.embeddings.len();
        proof {
            reveal(Seq::filter);
            assert(embs.take(0) =~= Seq::<EmbeddingView>::empty());
            assert(spec_views(out@) =~= spec_take_k(embs.take(0).filter(pred), k as nat));
        }
        for i in 0..n
            invariant
                n == self.embeddings@.len(),
                embs == self@.embeddings,
                pred == spec_string_pred(key@, value@),
                spec_views(out@) == spec_take_k(embs.take(i as int).filter(pred), k as nat),
                out@.len() <= k,
        {
            let e = &self.embeddings[i];
            let matches = e.matches_string(key, value);
            proof {
                reveal(Seq::filter);
                assert(embs.take(i + 1).drop_last() =~= embs.take(i as int));
                assert(embs.take(i + 1).last() == embs[i as int]);
                assert(embs.take(i + 1).filter(pred) == if pred(embs[i as int]) {
                    embs.take(i as int).filter(pred).push(embs[i as int])
                } else {
                    embs.take(i as int).filter(pred)
                });
                embs.take(i as int).lemma_filter_len(pred);
            }
            if matches && out.len() < k {
                let ghost out0 = out@;
                out.push(e.clone());
                proof {
                    assert(spec_views(out@) =~= spec_views(out0).push(embs[i as int]));
                    assert(spec_views(out@) =~= spec_take_k(
                        embs.take(i + 1).filter(pred),
                        k as nat,
                    ));
                }
            } else {
                proof {
                    if pred(embs[i as int]) {
                        let f0 = embs.take(i as int).filter(pred);
                        assert(f0.len() >= k);
                        assert(f0.push(embs[i as int]).take(k as int) =~= f0.take(k as int));
                    }
                    assert(spec_views(out@) =~= spec_take_k(
                        embs.take(i + 1).filter(pred),
                        k as nat,
                    ));
                }
            }
        }
        proof {
            assert(embs.take(n as int) =~= embs);
        }
        out
    }

    /// The values this collection's embeddings store for metadata key
    /// `key`, by position; `None` where an embedding lacks the key or has
    /// no metadata. The caller parses these for numeric queries.
    pub fn metadata_values(&self, key: &String) -> (r: Vec<Option<String>>)
        ensures
            r@.len() == self@.embeddings.len(),
            forall|i: int|
                0 <= i < r@.len() ==> match (#[trigger] self@.embeddings[i]).metadata {
                    Option::None => r@[i] is None,
                    Option::Some(m) => match spec_meta_lookup(m, key@) {
                        Option::None => r@[i] is None,
                        Option::Some(v) => r@[i] matches Some(s) && s@ == v,
                    },
                },
    {
        let mut out: Vec<Option<String>> = Vec::new();
        let n = self.embeddings.len();
        for i in 0..n
            invariant
                n == self.embeddings@.len(),
                out@.len() == i,
                forall|j: int|
                    0 <= j < i ==> match (#[trigger] self@.embeddings[j]).metadata {
                        Option::None => out@[j] is None,
                        Option::Some(m) => match spec_meta_lookup(m, key@) {
                            Option::None => out@[j] is None,
                            Option::Some(v) => out@[j] matches Some(s) && s@ == v,
                        },
                    },
        {
            out.push(self.embeddings[i].metadata_value(key));
        }
        out
    }

    /// The first `k` embeddings, in insertion order, whose parsed metadata
    /// value stands in relation `equality` to `value`. `parsed` holds, by
    /// position, the bit pattern of each embedding's parsed metadata value,
    /// or `None` where the key is missing or its value is not numeric.
    pub fn get_metadata_number(
        &self,
        parsed: &Vec<Option<u32>>,
        value: u32,
        equality: MetadataEqualities,
        k: usize,
    ) -> (r: Vec<Embedding>)
        requires
            parsed@.len() == self@.embeddings.len(),
        ensures
            spec_views(r@) == spec_take_k(
                spec_num_zip(self@.embeddings, parsed@).filter(spec_number_pred(value, equality))
                    .map_values(|p: (EmbeddingView, Option<u32>)| p.0),
                k as nat,
            ),
    {
        let ghost pred = spec_number_pred(value, equality);
        let ghost zipped = spec_num_zip(self@.embeddings, parsed@);
        let mut out: Vec<Embedding> = Vec::new();
        let n = self.embeddings.len();
        proof {
            reveal(Seq::filter);
            assert(zipped.take(0) =~= Seq::<(EmbeddingView, Option<u32>)>::empty());
            assert(spec_views(out@) =~= spec_take_k(
                zipped.take(0).filter(pred).map_values(|p: (EmbeddingView, Option<u32>)| p.0),
                k as nat,
            ));
        }
        for i in 0..n
            invariant
                n == self.embeddings@.len(),
                parsed@.len() == n,
                zipped == spec_num_zip(self@.embeddings, parsed@),
                pred == spec_number_pred(value, equality),
                spec_views(out@) == spec_take_k(
                    zipped.take(i as int).filter(pred).map_values(
                        |p: (EmbeddingView, Option<u32>)| p.0,
                    ),
                    k as nat,
                ),
                out@.len() <= k,
        {
            let matches = match parsed[i] {
                Option::Some(b) => number_matches(b, value, equality),
                Option::None => false,
            };
            proof {
                reveal(Seq::filter);
                assert(zipped.take(i + 1).drop_last() =~= zipped.take(i as int));
                assert(zipped.take(i + 1).last() == zipped[i as int]);
                assert(zipped.take(i + 1).filter(pred) == if pred(zipped[i as int]) {
                    zipped.take(i as int).filter(pred).push(zipped[i as int])
                } else {
                    zipped.take(i as int).filter(pred)
                });
                zipped.take(i as int).lemma_filter_len(pred);
                assert(matches == pred(zipped[i as int]));
            }
            let ghost fst = |p: (EmbeddingView, Option<u32>)| p.0;
            if matches && out.len() < k {
                let ghost out0 = out@;
                let e = &self.embeddings[i];
                out.push(e.clone());
                proof {
                    let f0 = zipped.take(i as int).filter(pred);
                    assert(f0.push(zipped[i as int]).map_values(fst) =~= f0.map_values(fst).push(
                        zipped[i as int].0,
                    ));
                    assert(spec_views(out@) =~= spec_views(out0).push(self@.embeddings[i as int]));
                    assert(spec_views(out@) =~= spec_take_k(
                        zipped.take(i + 1).filter(pred).map_values(fst),
                        k as nat,
                    ));
                }
            } else {
                proof {
                    if pred(zipped[i as int]) {
                        let f0 = zipped.take(i as int).filter(pred);
                        assert(f0.map_values(fst).len() >= k);
                        assert(f0.push(zipped[i as int]).map_values(fst) =~= f0.map_values(
                            fst,
                        ).push(zipped[i as int].0));
                        assert(f0.push(zipped[i as int]).map_values(fst).take(k as int) =~= f0.map_values(
                            fst,
                        ).take(k as int));
                    }
                    assert(spec_views(out@) =~= spec_take_k(
                        zipped.take(i + 1).filter(pred).map_values(fst),
                        k as nat,
                    ));
                }
            }
        }
        proof {
            assert(zipped.take(n as int) =~= zipped);
        }
        out
    }
}

/// A scored embedding returned by a similarity query; the embedding is a
/// copy, so later mutations of the collection cannot change it.
pub struct SimilarityResult {
    /// The score's bit pattern.
    pub score: u32,
    /// A copy of the scored embedding.
    pub embedding: Embedding,
}

impl Collection {
    /// The `k` best-scoring embeddings for the given per-embedding scores,
    /// ascending by score key with ties broken by position: entry `i` of
    /// the result carries the score and a copy of the embedding at position
    /// `spec_topk(scores, k)[i].1`.
    pub fn get_similarity(&self, scores: &Vec<u32>, k: usize) -> (r: Vec<SimilarityResult>)
        requires
            scores@.len() == self@.embeddings.len(),
        ensures
            r@.len() == spec_topk(scores@, k as nat).len(),
            forall|i: int|
                0 <= i < r@.len() ==> {
                    let p = spec_topk(scores@, k as nat)[i];
                    &&& (#[trigger] r@[i]).score == scores@[p.1]
                    &&& spec_score_key(r@[i].score) == p.0
                    &&& r@[i].embedding@ == self@.embeddings[p.1]
                },
    {
        let selected = top_k(scores, k);
        let ghost tk = spec_topk(scores@, k as nat);
        let mut out: Vec<SimilarityResult> = Vec::new();
        let n = selected.len();
        for i in 0..n
            invariant
                n == selected@.len(),
                scores@.len() == self@.embeddings.len(),
                tk == spec_topk(scores@, k as nat),
                crate::topk::spec_pairs_of(selected@) == tk,
                forall|j: int|
                    0 <= j < n ==> (#[trigger] selected@[j]).index < scores@.len()
                        && selected@[j].score == scores@[selected@[j].index as int],
                out@.len() == i,
                forall|j: int|
                    0 <= j < i ==> {
                        let p = tk[j];
                        &&& (#[trigger] out@[j]).score == scores@[p.1]
                        &&& spec_score_key(out@[j].score) == p.0
                        &&& out@[j].embedding@ == self@.embeddings[p.1]
                    },
        {
            let si = &selected[i];
            let e = self.embeddings[si.index].clone();
            proof {
                assert(tk[i as int] == crate::topk::pair_of(selected@[i as int]));
            }
            out.push(SimilarityResult { score: si.score, embedding: e });
        }
        out
    }
}

/// Upserting preserves id uniqueness, and afterwards the upserted id is
/// present.
pub proof fn lemma_upsert_ids_unique(s: Seq<EmbeddingView>, e: EmbeddingView)
    requires
        spec_ids_unique(s),
    ensures
        spec_ids_unique(spec_upsert(s, e)),
        spec_has_id(spec_upsert(s, e), e.id),
        spec_upsert(s, e).len() == if spec_has_id(s, e.id) {
            s.len()
        } else {
            s.len() + 1
        },
        spec_emb_lookup(spec_upsert(s, e), e.id) == Option::Some(e),
{
    let t = spec_upsert(s, e);
    if spec_has_id(s, e.id) {
        let i = choose|i: int| 0 <= i < s.len() && (#[trigger] s[i]).id == e.id;
        assert(forall|j: int| 0 <= j < i ==> (#[trigger] s[j]).id != e.id);
        lemma_remove_id_at(s, e.id, i);
        let rem = s.remove(i);
        assert(forall|j: int| 0 <= j < rem.len() ==> (#[trigger] rem[j]).id != e.id) by {
            assert(forall|j: int|
                0 <= j < s.len() && j != i ==> (#[trigger] s[j]).id != e.id);
        }
        assert(t == rem.push(e));
        lemma_emb_lookup_at(t, e.id, t.len() - 1);
        assert(t[t.len() - 1].id == e.id);
    } else {
        assert(forall|j: int| 0 <= j < s.len() ==> (#[trigger] s[j]).id != e.id);
        lemma_emb_lookup_at(t, e.id, t.len() - 1);
        assert(t[t.len() - 1].id == e.id);
    }
}

/// The upsert law: after inserting `e1` and then `e2` with the same id into
/// a collection with unique ids, looking the id up finds exactly `e2`, and
/// the second insert does not change the number of embeddings.
pub proof fn lemma_upsert_upsert(s: Seq<EmbeddingView>, e1: EmbeddingView, e2: EmbeddingView)
    requires
        spec_ids_unique(s),
        e1.id == e2.id,
    ensures
        spec_emb_lookup(spec_upsert(spec_upsert(s, e1), e2), e2.id) == Option::Some(e2),
        spec_upsert(spec_upsert(s, e1), e2).len() == spec_upsert(s, e1).len(),
{
    let s1 = spec_upsert(s, e1);
    lemma_upsert_ids_unique(s, e1);
    lemma_upsert_ids_unique(s1, e2);
}

impl Clone for Collection {
    /// A clone carries the same value.
    fn clone(&self) -> (res: Self)
        ensures
            res@ == self@,
    {
        let mut embeddings: Vec<Embedding> = Vec::new();
        let n = self.embeddings.len();
        for i in 0..n
            invariant
                n == self.embeddings@.len(),
                embeddings@.len() == i,
                forall|j: int|
                    0 <= j < i ==> (#[trigger] embeddings@[j])@ == self.embeddings@[j]@,
        {
            embeddings.push(self.embeddings[i].clone());
        }
        proof {
            assert(spec_views(embeddings@) =~= spec_views(self.embeddings@));
        }
        Collection { dimension: self.dimension, distance: self.distance, embeddings }
    }
}

impl Collection {
    /// Decides whether this collection is well-formed: every vector has the
    /// collection's dimension, ids are pairwise distinct, and every
    /// embedding is well-formed.
    pub fn is_wf(&self) -> (b: bool)
        ensures
            b == self@.wf(),
    {
        let ghost evs = self@.embeddings;
        let n = self.embeddings.len();
        for i in 0..n
            invariant
                n == self.embeddings@.len(),
                evs == self@.embeddings,
                forall|a: int|
                    0 <= a < i ==> (#[trigger] evs[a]).vector.len() == self@.dimension
                        && evs[a].wf(),
        {
            let e = &self.embeddings[i];
            proof {
                assert(evs[i as int] == self.embeddings@[i as int]@);
            }
            if e.vector.len() != self.dimension {
                return false;
            }
            if !e.is_wf() {
                return false;
            }
        }
        for i in 0..n
            invariant
                n == self.embeddings@.len(),
                evs == self@.embeddings,
                forall|a: int|
                    0 <= a < evs.len() ==> (#[trigger] evs[a]).vector.len() == self@.dimension
                        && evs[a].wf(),
                forall|a: int, b: int|
                    0 <= a < b < evs.len() && a < i ==> (#[trigger] evs[a]).id != (
                    #[trigger] evs[b]).id,
        {
            for j in (i + 1)..n
                invariant
                    i < n == self.embeddings@.len(),
                    evs == self@.embeddings,
                    forall|b: int| i < b < j ==> evs[i as int].id != (#[trigger] evs[b]).id,
            {
                let eq = self.embeddings[i].id == self.embeddings[j].id;
                proof {
                    assert(evs[i as int] == self.embeddings@[i as int]@);
                    assert(evs[j as int] == self.embeddings@[j as int]@);
                }
                if eq {
                    return false;
                }
            }
        }
        true
    }
}

} // verus!
