//! The database: a mapping from collection name to collection.
//!
//! Collections are kept in creation order; names are unique. Persistence
//! and locking sit outside this type: callers snapshot the database through
//! the codec after each successful mutation.

use vstd::prelude::*;
use crate::collection::{
    Collection, CollectionView, spec_has_id, spec_remove_id, spec_upsert,
};
use crate::distance::Distance;
use crate::embedding::Embedding;
use crate::error::Error;

verus! {

/// The whole database: collection names and their collections, in creation
/// order, with unique names.
pub struct Db {
    /// The named collections, in creation order.
    pub collections: Vec<(String, Collection)>,
}

/// The mathematical value of a [`Db`].
pub ghost struct DbView {
    pub collections: Seq<(Seq<char>, CollectionView)>,
}

impl View for Db {
    type V = DbView;

    open spec fn view(&self) -> DbView {
        DbView {
            collections: self.collections@.map_values(
                |p: (String, Collection)| (p.0@, p.1@),
            ),
        }
    }
}

/// No two collections share a name.
pub open spec fn spec_names_unique(s: Seq<(Seq<char>, CollectionView)>) -> bool {
    forall|i: int, j: int| 0 <= i < j < s.len() ==> (#[trigger] s[i]).0 != (#[trigger] s[j]).0
}

/// Some collection carries the name.
pub open spec fn spec_has_name(s: Seq<(Seq<char>, CollectionView)>, name: Seq<char>) -> bool {
    exists|i: int| 0 <= i < s.len() && (#[trigger] s[i]).0 == name
}

/// The first collection registered under `name`, if any.
pub open spec fn spec_db_lookup(
    s: Seq<(Seq<char>, CollectionView)>,
    name: Seq<char>,
) -> Option<CollectionView>
    decreases s.len(),
{
    if s.len() == 0 {
        Option::None
    } else if s[0].0 == name {
        Option::Some(s[0].1)
    } else {
        spec_db_lookup(s.drop_first(), name)
    }
}

/// If position `i` holds the first collection named `name`, the lookup
/// yields it.
pub proof fn lemma_db_lookup_at(s: Seq<(Seq<char>, CollectionView)>, name: Seq<char>, i: int)
    requires
        0 <= i < s.len(),
        s[i].0 == name,
        forall|j: int| 0 <= j < i ==> (#[trigger] s[j]).0 != name,
    ensures
        spec_db_lookup(s, name) == Option::Some(s[i].1),
    decreases i,
{
    if i > 0 {
        lemma_db_lookup_at(s.drop_first(), name, i - 1);
    }
}

/// If no collection carries `name`, the lookup yields nothing.
pub proof fn lemma_db_lookup_none(s: Seq<(Seq<char>, CollectionView)>, name: Seq<char>)
    requires
        forall|j: int| 0 <= j < s.len() ==> (#[trigger] s[j]).0 != name,
    ensures
        spec_db_lookup(s, name) is None,
    decreases s.len(),
{
    if s.len() > 0 {
        lemma_db_lookup_none(s.drop_first(), name);
    }
}

impl DbView {
    /// The database's invariant: names are unique and every collection is
    /// well-formed.
    pub open spec fn wf(self) -> bool {
        &&& spec_names_unique(self.collections)
        &&& forall|i: int|
            0 <= i < self.collections.len() ==> (#[trigger] self.collections[i]).1.wf()
    }
}

impl Db {
    /// The position of the collection named `name`, or the length of the
    /// collection list if there is none.
    fn find_index(&self, name: &String) -> (idx: usize)
        ensures
            idx <= self@.collections.len(),
            idx < self@.collections.len() ==> self@.collections[idx as int].0 == name@ && (
            forall|j: int| 0 <= j < idx ==> (#[trigger] self@.collections[j]).0 != name@),
            idx == self@.collections.len() ==> forall|j: int|
                0 <= j < self@.collections.len() ==> (#[trigger] self@.collections[j]).0 != name@,
    {
        let ghost s0 = self@.collections;
        let n = self.collections.len();
        for i in 0..n
            invariant
                n == self.collections@.len(),
                s0 == self@.collections,
                forall|j: int| 0 <= j < i ==> (#[trigger] s0[j]).0 != name@,
        {
            let eq = self.collections[i].0 == *name;
            proof {
                assert(s0[i as int].0 == self.collections@[i as int].0@);
            }
            if eq {
                return i;
            }
        }
        n
    }
}

impl Db {
    /// An empty database.
    pub fn new() -> (r: Db)
        ensures
            r@.collections == Seq::<(Seq<char>, CollectionView)>::empty(),
            r@.wf(),
    {
        let r = Db { collections: Vec::new() };
        proof {
            assert(r@.collections =~= Seq::<(Seq<char>, CollectionView)>::empty());
        }
        r
    }

    /// Creates an empty collection under `name`, or reports
    /// `UniqueViolation` if the name is taken. On success returns a copy of
    /// the new collection.
    pub fn create_collection(&mut self, name: String, dimension: usize, distance: Distance) -> (r:
        Result<Collection, Error>)
        ensures
            r is Ok <==> !spec_has_name(old(self)@.collections, name@),
            match r {
                Result::Ok(c) => {
                    &&& c@ == (CollectionView {
                        dimension: dimension as nat,
                        distance,
                        embeddings: Seq::<crate::embedding::EmbeddingView>::empty(),
                    })
                    &&& final(self)@.collections == old(self)@.collections.push((name@, c@))
                },
                Result::Err(e) => e == Error::UniqueViolation && final(self)@ == old(self)@,
            },
            old(self)@.wf() ==> final(self)@.wf(),
    {
        let ghost s0 = self@.collections;
        let n = self.collections.len();
        for i in 0..n
            invariant
                n == self.collections@.len(),
                *self == *old(self),
                s0 == self@.collections,
                forall|j: int| 0 <= j < i ==> (#[trigger] s0[j]).0 != name@,
        {
            let eq = self.collections[i].0 == name;
            proof {
                assert(s0[i as int].0 == self.collections@[i as int].0@);
            }
            if eq {
                return Result::Err(Error::UniqueViolation);
            }
        }
        let ghost nm = name@;
        let collection = Collection { dimension, distance, embeddings: Vec::new() };
        let copy = collection.clone();
        proof {
            assert(collection@.embeddings =~= Seq::<crate::embedding::EmbeddingView>::empty());
        }
        self.collections.push((name, collection));
        proof {
            assert(self@.collections =~= s0.push((nm, copy@)));
            if old(self)@.wf() {
                assert(final(self)@.wf());
            }
        }
        Result::Ok(copy)
    }

    /// Removes the collection named `name` and everything in it, or
    /// reports `NotFound`.
    pub fn delete_collection(&mut self, name: &String) -> (r: Result<(), Error>)
        ensures
            r is Ok <==> spec_has_name(old(self)@.collections, name@),
            match r {
                Result::Ok(u) => exists|i: int|
                    {
                        &&& 0 <= i < old(self)@.collections.len()
                        &&& (#[trigger] old(self)@.collections[i]).0 == name@
                        &&& final(self)@.collections == old(self)@.collections.remove(i)
                    },
                Result::Err(e) => e == Error::NotFound && final(self)@ == old(self)@,
            },
            old(self)@.wf() ==> final(self)@.wf(),
    {
        let ghost s0 = self@.collections;
        let n = self.collections.len();
        for i in 0..n
            invariant
                n == self.collections@.len(),
                *self == *old(self),
                s0 == self@.collections,
                forall|j: int| 0 <= j < i ==> (#[trigger] s0[j]).0 != name@,
        {
            let eq = self.collections[i].0 == *name;
            proof {
                assert(s0[i as int].0 == self.collections@[i as int].0@);
            }
            if eq {
                let _ = self.collections.remove(i);
                proof {
                    assert(final(self)@.collections =~= s0.remove(i as int));
                    if old(self)@.wf() {
                        assert(final(self)@.wf());
                    }
                }
                return Result::Ok(());
            }
        }
        Result::Err(Error::NotFound)
    }

    /// A shared view of the collection named `name`, if any.
    pub fn get_collection(&self, name: &String) -> (r: Option<&Collection>)
        ensures
            r is Some <==> spec_has_name(self@.collections, name@),
            match spec_db_lookup(self@.collections, name@) {
                Option::None => r is None,
                Option::Some(cv) => r matches Some(c) && c@ == cv,
            },
    {
        let ghost s0 = self@.collections;
        let n = self.collections.len();
        for i in 0..n
            invariant
                n == self.collections@.len(),
                s0 == self@.collections,
                forall|j: int| 0 <= j < i ==> (#[trigger] s0[j]).0 != name@,
        {
            let eq = self.collections[i].0 == *name;
            proof {
                assert(s0[i as int].0 == self.collections@[i as int].0@);
            }
            if eq {
                proof {
                    lemma_db_lookup_at(s0, name@, i as int);
                }
                return Option::Some(&self.collections[i].1);
            }
        }
        proof {
            lemma_db_lookup_none(s0, name@);
        }
        Option::None
    }

    /// Upserts `embedding` into the collection named `collection_name`:
    /// reports `NotFound` for an unknown name and `DimensionMismatch` when
    /// the vector's length differs from the collection's dimension;
    /// otherwise any stored embedding with the same id leaves and the new
    /// one is appended. For cosine collections the caller normalizes the
    /// vector before inserting.
    pub fn insert_into_collection(&mut self, collection_name: &String, embedding: Embedding) -> (r:
        Result<(), Error>)
        ensures
            match spec_db_lookup(old(self)@.collections, collection_name@) {
                Option::None => r == Result::<(), Error>::Err(Error::NotFound) && final(self)@
                    == old(self)@,
                Option::Some(c) => {
                    if embedding@.vector.len() != c.dimension {
                        r == Result::<(), Error>::Err(Error::DimensionMismatch) && final(self)@
                            == old(self)@
                    } else {
                        &&& r is Ok
                        &&& exists|i: int|
                            {
                                &&& 0 <= i < old(self)@.collections.len()
                                &&& (#[trigger] old(self)@.collections[i]).0 == collection_name@
                                &&& old(self)@.collections[i].1 == c
                                &&& final(self)@.collections == old(self)@.collections.update(
                                    i,
                                    (
                                        collection_name@,
                                        CollectionView {
                                            embeddings: spec_upsert(c.embeddings, embedding@),
                                            ..c
                                        },
                                    ),
                                )
                            }
                    }
                },
            },
            old(self)@.wf() && embedding@.wf() ==> final(self)@.wf(),
    {
        let ghost s0 = self@.collections;
        let idx = self.find_index(collection_name);
        if idx == self.collections.len() {
            proof {
                lemma_db_lookup_none(s0, collection_name@);
            }
            return Result::Err(Error::NotFound);
        }
        proof {
            lemma_db_lookup_at(s0, collection_name@, idx as int);
        }
        if embedding.vector.len() != self.collections[idx].1.dimension {
            return Result::Err(Error::DimensionMismatch);
        }
        let (nm, mut coll) = self.collections.remove(idx);
        let ghost c0 = coll@;
        coll.upsert(embedding);
        self.collections.insert(idx, (nm, coll));
        proof {
            assert(final(self)@.collections =~= s0.update(
                idx as int,
                (
                    collection_name@,
                    CollectionView { embeddings: spec_upsert(c0.embeddings, embedding@), ..c0 },
                ),
            ));
            if old(self)@.wf() && embedding@.wf() {
                assert(final(self)@.wf());
            }
        }
        Result::Ok(())
    }

    /// Removes the embedding with id `id` from the collection named
    /// `collection_name`, returning it; reports `NotFound` for an unknown
    /// collection and `IDNotFound` for an unknown id.
    pub fn collection_delete_id(&mut self, collection_name: &String, id: &String) -> (r: Result<
        Embedding,
        Error,
    >)
        ensures
            match spec_db_lookup(old(self)@.collections, collection_name@) {
                Option::None => r == Result::<Embedding, Error>::Err(Error::NotFound)
                    && final(self)@ == old(self)@,
                Option::Some(c) => {
                    if !spec_has_id(c.embeddings, id@) {
                        r == Result::<Embedding, Error>::Err(Error::IDNotFound) && final(self)@
                            == old(self)@
                    } else {
                        &&& r matches Ok(e) && e@.id == id@ && c.embeddings.contains(e@)
                        &&& exists|i: int|
                            {
                                &&& 0 <= i < old(self)@.collections.len()
                                &&& (#[trigger] old(self)@.collections[i]).0 == collection_name@
                                &&& old(self)@.collections[i].1 == c
                                &&& final(self)@.collections == old(self)@.collections.update(
                                    i,
                                    (
                                        collection_name@,
                                        CollectionView {
                                            embeddings: spec_remove_id(c.embeddings, id@),
                                            ..c
                                        },
                                    ),
                                )
                            }
                    }
                },
            },
            old(self)@.wf() ==> final(self)@.wf(),
    {
        let ghost s0 = self@.collections;
        let idx = self.find_index(collection_name);
        if idx == self.collections.len() {
            proof {
                lemma_db_lookup_none(s0, collection_name@);
            }
            return Result::Err(Error::NotFound);
        }
        proof {
            lemma_db_lookup_at(s0, collection_name@, idx as int);
        }
        let (nm, mut coll) = self.collections.remove(idx);
        let ghost c0 = coll@;
        let deleted = coll.delete_id(id);
        match deleted {
            Result::Ok(e) => {
                self.collections.insert(idx, (nm, coll));
                proof {
                    let i = choose|i: int|
                        {
                            &&& 0 <= i < c0.embeddings.len()
                            &&& e@ == #[trigger] c0.embeddings[i]
                            &&& e@.id == id@
                            &&& (forall|j: int|
                                0 <= j < i ==> (#[trigger] c0.embeddings[j]).id != id@)
                            &&& coll@.embeddings == c0.embeddings.remove(i)
                        };
                    crate::collection::lemma_remove_id_at(c0.embeddings, id@, i);
                    assert(c0.embeddings.contains(e@));
                    assert(final(self)@.collections =~= s0.update(
                        idx as int,
                        (
                            collection_name@,
                            CollectionView { embeddings: spec_remove_id(c0.embeddings, id@), ..c0 },
                        ),
                    ));
                    if old(self)@.wf() {
                        assert(forall|j: int|
                            0 <= j < coll@.embeddings.len() ==> (#[trigger] coll@.embeddings[j])
                                == c0.embeddings.remove(i)[j]);
                        assert(final(self)@.wf());
                    }
                }
                Result::Ok(e)
            },
            Result::Err(er) => {
                self.collections.insert(idx, (nm, coll));
                proof {
                    assert(final(self)@.collections =~= s0);
                }
                Result::Err(er)
            },
        }
    }
}

impl Db {
    /// Decides whether the database is well-formed: collection names are
    /// pairwise distinct and every collection is well-formed. A decoded
    /// snapshot that fails this check is rejected at startup.
    pub fn is_wf(&self) -> (b: bool)
        ensures
            b == self@.wf(),
    {
        let ghost cs = self@.collections;
        let n = self.collections.len();
        for i in 0..n
            invariant
                n == self.collections@.len(),
                cs == self@.collections,
                forall|a: int| 0 <= a < i ==> (#[trigger] cs[a]).1.wf(),
        {
            proof {
                assert(cs[i as int] == (self.collections@[i as int].0@, self.collections@[i as int].1@));
            }
            if !self.collections[i].1.is_wf() {
                return false;
            }
        }
        for i in 0..n
            invariant
                n == self.collections@.len(),
                cs == self@.collections,
                forall|a: int| 0 <= a < cs.len() ==> (#[trigger] cs[a]).1.wf(),
                forall|a: int, b: int|
                    0 <= a < b < cs.len() && a < i ==> (#[trigger] cs[a]).0 != (#[trigger] cs[b]).0,
        {
            for j in (i + 1)..n
                invariant
                    i < n == self.collections@.len(),
                    cs == self@.collections,
                    forall|b: int| i < b < j ==> cs[i as int].0 != (#[trigger] cs[b]).0,
            {
                let eq = self.collections[i].0 == self.collections[j].0;
                proof {
                    assert(cs[i as int].0 == self.collections@[i as int].0@);
                    assert(cs[j as int].0 == self.collections@[j as int].0@);
                }
                if eq {
                    return false;
                }
            }
        }
        true
    }
}

} // verus!
