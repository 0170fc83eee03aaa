//! The unit of storage: an identified vector with optional string metadata.

use vstd::prelude::*;

verus! {

/// An identified point in a fixed-dimensional vector space. The vector is
/// carried as IEEE-754 single-precision bit patterns; metadata is an
/// optional list of key-value pairs with pairwise distinct keys.
pub struct Embedding {
    /// Identifier, unique within its collection.
    pub id: String,
    /// The vector's components, as `f32` bit patterns, in order.
    pub vector: Vec<u32>,
    /// Optional string metadata; keys are unique, order carries no meaning.
    pub metadata: Option<Vec<(String, String)>>,
}

/// The mathematical value of an [`Embedding`].
pub ghost struct EmbeddingView {
    pub id: Seq<char>,
    pub vector: Seq<u32>,
    pub metadata: Option<Seq<(Seq<char>, Seq<char>)>>,
}

/// The value of a metadata pair list.
pub open spec fn spec_meta_view(pairs: Seq<(String, String)>) -> Seq<(Seq<char>, Seq<char>)> {
    pairs.map_values(|p: (String, String)| (p.0@, p.1@))
}

impl View for Embedding {
    type V = EmbeddingView;

    open spec fn view(&self) -> EmbeddingView {
        EmbeddingView {
            id: self.id@,
            vector: self.vector@,
            metadata: match self.metadata {
                Option::None => Option::None,
                Option::Some(m) => Option::Some(spec_meta_view(m@)),
            },
        }
    }
}

/// The value of the first metadata entry for `key`, if any. With distinct
/// keys this is the value of the one entry for `key`.
pub open spec fn spec_meta_lookup(
    pairs: Seq<(Seq<char>, Seq<char>)>,
    key: Seq<char>,
) -> Option<Seq<char>>
    decreases pairs.len(),
{
    if pairs.len() == 0 {
        Option::None
    } else if pairs[0].0 == key {
        Option::Some(pairs[0].1)
    } else {
        spec_meta_lookup(pairs.drop_first(), key)
    }
}

/// If `pairs[i]` is the first entry whose key is `key`, the lookup yields
/// its value.
pub proof fn lemma_meta_lookup_at(pairs: Seq<(Seq<char>, Seq<char>)>, key: Seq<char>, i: int)
    requires
        0 <= i < pairs.len(),
        pairs[i].0 == key,
        forall|j: int| 0 <= j < i ==> (#[trigger] pairs[j]).0 != key,
    ensures
        spec_meta_lookup(pairs, key) == Option::Some(pairs[i].1),
    decreases i,
{
    if i > 0 {
        lemma_meta_lookup_at(pairs.drop_first(), key, i - 1);
    }
}

/// If no entry has key `key`, the lookup yields nothing.
pub proof fn lemma_meta_lookup_none(pairs: Seq<(Seq<char>, Seq<char>)>, key: Seq<char>)
    requires
        forall|j: int| 0 <= j < pairs.len() ==> (#[trigger] pairs[j]).0 != key,
    ensures
        spec_meta_lookup(pairs, key) is None,
    decreases pairs.len(),
{
    if pairs.len() > 0 {
        lemma_meta_lookup_none(pairs.drop_first(), key);
    }
}

/// Whether the embedding has a metadata entry for `key` whose value is
/// exactly `value`.
pub open spec fn spec_matches_string(e: EmbeddingView, key: Seq<char>, value: Seq<char>) -> bool {
    match e.metadata {
        Option::None => false,
        Option::Some(m) => spec_meta_lookup(m, key) == Option::Some(value),
    }
}

/// Metadata keys are pairwise distinct.
pub open spec fn spec_keys_unique(m: Seq<(Seq<char>, Seq<char>)>) -> bool {
    forall|i: int, j: int| 0 <= i < j < m.len() ==> (#[trigger] m[i]).0 != (#[trigger] m[j]).0
}

impl EmbeddingView {
    /// Metadata keys are pairwise distinct.
    pub open spec fn wf(self) -> bool {
        match self.metadata {
            Option::None => true,
            Option::Some(m) => spec_keys_unique(m),
        }
    }
}

impl Embedding {
    /// Whether this embedding's metadata maps `key` to exactly `value`.
    pub fn matches_string(&self, key: &String, value: &String) -> (b: bool)
        ensures
            b == spec_matches_string(self@, key@, value@),
    {
        match self.metadata {
            Option::None => false,
            Option::Some(ref pairs) => {
                let ghost m = spec_meta_view(pairs@);
                let n = pairs.len();
                for i in 0..n
                    invariant
                        n == pairs@.len(),
                        m == spec_meta_view(pairs@),
                        self@.metadata == Option::Some(m),
                        forall|j: int| 0 <= j < i ==> (#[trigger] m[j]).0 != key@,
                {
                    let p = &pairs[i];
                    if p.0 == *key {
                        let r = p.1 == *value;
                        proof {
                            assert(m[i as int] == (pairs@[i as int].0@, pairs@[i as int].1@));
                            lemma_meta_lookup_at(m, key@, i as int);
                        }
                        return r;
                    }
                }
                proof {
                    lemma_meta_lookup_none(m, key@);
                }
                false
            },
        }
    }

    /// The metadata value stored for `key`, if any.
    pub fn metadata_value(&self, key: &String) -> (r: Option<String>)
        ensures
            match self@.metadata {
                Option::None => r is None,
                Option::Some(m) => match spec_meta_lookup(m, key@) {
                    Option::None => r is None,
                    Option::Some(v) => r matches Some(s) && s@ == v,
                },
            },
    {
        match self.metadata {
            Option::None => Option::None,
            Option::Some(ref pairs) => {
                let ghost m = spec_meta_view(pairs@);
                let n = pairs.len();
                for i in 0..n
                    invariant
                        n == pairs@.len(),
                        m == spec_meta_view(pairs@),
                        self@.metadata == Option::Some(m),
                        forall|j: int| 0 <= j < i ==> (#[trigger] m[j]).0 != key@,
                {
                    let p = &pairs[i];
                    if p.0 == *key {
                        proof {
                            assert(m[i as int] == (pairs@[i as int].0@, pairs@[i as int].1@));
                            lemma_meta_lookup_at(m, key@, i as int);
                        }
                        return Option::Some(p.1.clone());
                    }
                }
                proof {
                    lemma_meta_lookup_none(m, key@);
                }
                Option::None
            },
        }
    }
}

impl Clone for Embedding {
    /// A clone carries the same value.
    fn clone(&self) -> (res: Self)
        ensures
            res@ == self@,
    {
        let vector = self.vector.clone();
        let metadata = match self.metadata {
            Option::None => Option::None,
            Option::Some(ref pairs) => {
                let mut out: Vec<(String, String)> = Vec::new();
                let n = pairs.len();
                for i in 0..n
                    invariant
                        n == pairs@.len(),
                        out@.len() == i,
                        forall|j: int|
                            0 <= j < i ==> (#[trigger] out@[j]).0@ == pairs@[j].0@ && out@[j].1@
                                == pairs@[j].1@,
                {
                    let p = &pairs[i];
                    out.push((p.0.clone(), p.1.clone()));
                }
                proof {
                    assert(spec_meta_view(out@) =~= spec_meta_view(pairs@));
                }
                Option::Some(out)
            },
        };
        proof {
            assert(vector@ =~= self.vector@);
        }
        Embedding { id: self.id.clone(), vector, metadata }
    }
}

impl Embedding {
    /// Decides whether this embedding is well-formed: metadata keys are
    /// pairwise distinct.
    pub fn is_wf(&self) -> (b: bool)
        ensures
            b == self@.wf(),
    {
        match self.metadata {
            Option::None => true,
            Option::Some(ref pairs) => {
                let ghost m = spec_meta_view(pairs@);
                let n = pairs.len();
                for i in 0..n
                    invariant
                        n == pairs@.len(),
                        m == spec_meta_view(pairs@),
                        self@.metadata == Option::Some(m),
                        forall|a: int, b: int|
                            0 <= a < b < m.len() && a < i ==> (#[trigger] m[a]).0 != (
                            #[trigger] m[b]).0,
                {
                    for j in (i + 1)..n
                        invariant
                            i < n == pairs@.len(),
                            m == spec_meta_view(pairs@),
                            self@.metadata == Option::Some(m),
                            forall|b: int| i < b < j ==> m[i as int].0 != (#[trigger] m[b]).0,
                    {
                        let eq = pairs[i].0 == pairs[j].0;
                        proof {
                            assert(m[i as int] == (pairs@[i as int].0@, pairs@[i as int].1@));
                            assert(m[j as int] == (pairs@[j as int].0@, pairs@[j as int].1@));
                        }
                        if eq {
                            proof {
                                assert(self@.wf() == spec_keys_unique(m));
                                if spec_keys_unique(m) {
                                    assert(m[i as int].0 != m[j as int].0);
                                }
                            }
                            return false;
                        }
                    }
                }
                true
            },
        }
    }
}

} // verus!
