//! The snapshot codec: the whole database as one little-endian byte image.
//!
//! Layout, all integers little-endian: the database is a `u64` collection
//! count followed by each collection; a collection is its name, a `u64`
//! dimension, a one-byte distance tag, a `u64` embedding count, and each
//! embedding; an embedding is its id, a `u64` component count with each
//! component as four bytes, and a metadata marker byte (0 = none,
//! 1 = present) followed, when present, by a `u64` pair count and the
//! pairs; every string is a `u64` UTF-8 byte length followed by its UTF-8
//! bytes. Decoding inverts encoding exactly; nothing else is accepted.

use vstd::prelude::*;
use vstd::bytes::{
    spec_u32_to_le_bytes, spec_u32_from_le_bytes, spec_u64_to_le_bytes, spec_u64_from_le_bytes,
    u32_from_le_bytes, u32_to_le_bytes, u64_from_le_bytes, u64_to_le_bytes,
    lemma_auto_spec_u32_to_from_le_bytes, lemma_auto_spec_u64_to_from_le_bytes,
};
use vstd::utf8::{valid_utf8, decode_utf8, encode_utf8};
use crate::collection::{Collection, CollectionView, spec_views};
use crate::db::{Db, DbView};
use crate::distance::{Distance, spec_distance_tag, spec_distance_from_tag};
use crate::embedding::{Embedding, EmbeddingView, spec_meta_view};

verus! {

/// The largest length the format can record.
pub open spec fn spec_len_max() -> nat {
    0xffff_ffff_ffff_ffff as nat
}

/// The encoding of a string: UTF-8 byte length, then UTF-8 bytes.
pub open spec fn spec_enc_str(s: Seq<char>) -> Seq<u8> {
    spec_u64_to_le_bytes(encode_utf8(s).len() as u64) + encode_utf8(s)
}

/// The encoding of vector components, four bytes each.
pub open spec fn spec_enc_u32s(v: Seq<u32>) -> Seq<u8>
    decreases v.len(),
{
    if v.len() == 0 {
        Seq::<u8>::empty()
    } else {
        spec_u32_to_le_bytes(v[0]) + spec_enc_u32s(v.drop_first())
    }
}

/// The encoding of a vector: component count, then the components.
pub open spec fn spec_enc_vector(v: Seq<u32>) -> Seq<u8> {
    spec_u64_to_le_bytes(v.len() as u64) + spec_enc_u32s(v)
}

/// The encoding of metadata pairs: each key then value.
pub open spec fn spec_enc_pairs(ps: Seq<(Seq<char>, Seq<char>)>) -> Seq<u8>
    decreases ps.len(),
{
    if ps.len() == 0 {
        Seq::<u8>::empty()
    } else {
        spec_enc_str(ps[0].0) + spec_enc_str(ps[0].1) + spec_enc_pairs(ps.drop_first())
    }
}

/// The encoding of optional metadata: a marker byte, then the pairs.
pub open spec fn spec_enc_meta(m: Option<Seq<(Seq<char>, Seq<char>)>>) -> Seq<u8> {
    match m {
        Option::None => seq![0u8],
        Option::Some(ps) => seq![1u8] + spec_u64_to_le_bytes(ps.len() as u64) + spec_enc_pairs(ps),
    }
}

/// The encoding of one embedding: id, vector, metadata.
pub open spec fn spec_enc_embedding(e: EmbeddingView) -> Seq<u8> {
    spec_enc_str(e.id) + spec_enc_vector(e.vector) + spec_enc_meta(e.metadata)
}

/// The encoding of an embedding list, in order.
pub open spec fn spec_enc_embeddings(es: Seq<EmbeddingView>) -> Seq<u8>
    decreases es.len(),
{
    if es.len() == 0 {
        Seq::<u8>::empty()
    } else {
        spec_enc_embedding(es[0]) + spec_enc_embeddings(es.drop_first())
    }
}

/// The encoding of one named collection: name, dimension, distance tag,
/// embedding count, embeddings.
pub open spec fn spec_enc_collection(p: (Seq<char>, CollectionView)) -> Seq<u8> {
    spec_enc_str(p.0) + spec_u64_to_le_bytes(p.1.dimension as u64) + seq![
        spec_distance_tag(p.1.distance),
    ] + spec_u64_to_le_bytes(p.1.embeddings.len() as u64) + spec_enc_embeddings(p.1.embeddings)
}

/// The encoding of the collection list, in order.
pub open spec fn spec_enc_collections(cs: Seq<(Seq<char>, CollectionView)>) -> Seq<u8>
    decreases cs.len(),
{
    if cs.len() == 0 {
        Seq::<u8>::empty()
    } else {
        spec_enc_collection(cs[0]) + spec_enc_collections(cs.drop_first())
    }
}

/// The encoding of the whole database: collection count, then collections.
pub open spec fn spec_enc_db(v: DbView) -> Seq<u8> {
    spec_u64_to_le_bytes(v.collections.len() as u64) + spec_enc_collections(v.collections)
}

/// Appends the encoding of a string to `out`.
fn enc_str_into(out: &mut Vec<u8>, s: &String)
    ensures
        final(out)@ == old(out)@ + spec_enc_str(s@),
{
    let bytes = s.as_str().as_bytes_vec();
    let len = bytes.len();
    let mut lenb = u64_to_le_bytes(len as u64);
    out.append(&mut lenb);
    let mut b = bytes;
    out.append(&mut b);
    proof {
        assert(out@ =~= old(out)@ + spec_enc_str(s@));
    }
}

/// Appends the encoding of a vector to `out`.
fn enc_vector_into(out: &mut Vec<u8>, v: &Vec<u32>)
    ensures
        final(out)@ == old(out)@ + spec_enc_vector(v@),
{
    let len = v.len();
    let mut lenb = u64_to_le_bytes(len as u64);
    out.append(&mut lenb);
    let ghost base = out@;
    for i in 0..len
        invariant
            len == v@.len(),
            out@ == base + spec_enc_u32s(v@.take(i as int)),
    {
        let mut cb = u32_to_le_bytes(v[i]);
        out.append(&mut cb);
        proof {
            lemma_enc_u32s_snoc(v@.take(i as int), v@[i as int]);
            assert(v@.take(i + 1) =~= v@.take(i as int).push(v@[i as int]));
            assert(out@ =~= base + spec_enc_u32s(v@.take(i + 1)));
        }
    }
    proof {
        assert(v@.take(len as int) =~= v@);
        assert(out@ =~= old(out)@ + spec_enc_vector(v@));
    }
}

/// Encoding one more component appends its four bytes.
proof fn lemma_enc_u32s_snoc(v: Seq<u32>, x: u32)
    ensures
        spec_enc_u32s(v.push(x)) == spec_enc_u32s(v) + spec_u32_to_le_bytes(x),
    decreases v.len(),
{
    let w = v.push(x);
    if v.len() == 0 {
        assert(w.drop_first() =~= Seq::<u32>::empty());
        assert(spec_enc_u32s(Seq::<u32>::empty()) == Seq::<u8>::empty());
        assert(spec_enc_u32s(w) =~= spec_enc_u32s(v) + spec_u32_to_le_bytes(x));
    } else {
        assert(w.drop_first() =~= v.drop_first().push(x));
        lemma_enc_u32s_snoc(v.drop_first(), x);
        assert(spec_enc_u32s(w) =~= spec_enc_u32s(v) + spec_u32_to_le_bytes(x));
    }
}

/// Encoding one more pair appends its encoding.
proof fn lemma_enc_pairs_snoc(ps: Seq<(Seq<char>, Seq<char>)>, p: (Seq<char>, Seq<char>))
    ensures
        spec_enc_pairs(ps.push(p)) == spec_enc_pairs(ps) + (spec_enc_str(p.0) + spec_enc_str(p.1)),
    decreases ps.len(),
{
    let w = ps.push(p);
    if ps.len() == 0 {
        assert(w.drop_first() =~= Seq::<(Seq<char>, Seq<char>)>::empty());
        assert(spec_enc_pairs(Seq::<(Seq<char>, Seq<char>)>::empty()) == Seq::<u8>::empty());
        assert(spec_enc_pairs(w) =~= spec_enc_pairs(ps) + (spec_enc_str(p.0) + spec_enc_str(p.1)));
    } else {
        assert(w.drop_first() =~= ps.drop_first().push(p));
        lemma_enc_pairs_snoc(ps.drop_first(), p);
        assert(spec_enc_pairs(w) =~= spec_enc_pairs(ps) + (spec_enc_str(p.0) + spec_enc_str(p.1)));
    }
}

/// Encoding one more embedding appends its encoding.
proof fn lemma_enc_embeddings_snoc(es: Seq<EmbeddingView>, e: EmbeddingView)
    ensures
        spec_enc_embeddings(es.push(e)) == spec_enc_embeddings(es) + spec_enc_embedding(e),
    decreases es.len(),
{
    let w = es.push(e);
    if es.len() == 0 {
        assert(w.drop_first() =~= Seq::<EmbeddingView>::empty());
        assert(spec_enc_embeddings(Seq::<EmbeddingView>::empty()) == Seq::<u8>::empty());
        assert(spec_enc_embeddings(w) =~= spec_enc_embeddings(es) + spec_enc_embedding(e));
    } else {
        assert(w.drop_first() =~= es.drop_first().push(e));
        lemma_enc_embeddings_snoc(es.drop_first(), e);
        assert(spec_enc_embeddings(w) =~= spec_enc_embeddings(es) + spec_enc_embedding(e));
    }
}

/// Encoding one more collection appends its encoding.
proof fn lemma_enc_collections_snoc(
    cs: Seq<(Seq<char>, CollectionView)>,
    c: (Seq<char>, CollectionView),
)
    ensures
        spec_enc_collections(cs.push(c)) == spec_enc_collections(cs) + spec_enc_collection(c),
    decreases cs.len(),
{
    let w = cs.push(c);
    if cs.len() == 0 {
        assert(w.drop_first() =~= Seq::<(Seq<char>, CollectionView)>::empty());
        assert(spec_enc_collections(Seq::<(Seq<char>, CollectionView)>::empty()) == Seq::<u8>::empty());
        assert(spec_enc_collections(w) =~= spec_enc_collections(cs) + spec_enc_collection(c));
    } else {
        assert(w.drop_first() =~= cs.drop_first().push(c));
        lemma_enc_collections_snoc(cs.drop_first(), c);
        assert(spec_enc_collections(w) =~= spec_enc_collections(cs) + spec_enc_collection(c));
    }
}

/// Appends the encoding of an embedding to `out`.
fn enc_embedding_into(out: &mut Vec<u8>, e: &Embedding)
    ensures
        final(out)@ == old(out)@ + spec_enc_embedding(e@),
{
    enc_str_into(out, &e.id);
    enc_vector_into(out, &e.vector);
    match e.metadata {
        Option::None => {
            out.push(0u8);
            proof {
                assert(out@ =~= old(out)@ + spec_enc_embedding(e@));
            }
        },
        Option::Some(ref pairs) => {
            out.push(1u8);
            let len = pairs.len();
            let mut lenb = u64_to_le_bytes(len as u64);
            out.append(&mut lenb);
            let ghost base = out@;
            let ghost mv = spec_meta_view(pairs@);
            for i in 0..len
                invariant
                    len == pairs@.len(),
                    mv == spec_meta_view(pairs@),
                    out@ == base + spec_enc_pairs(mv.take(i as int)),
            {
                let p = &pairs[i];
                enc_str_into(out, &p.0);
                enc_str_into(out, &p.1);
                proof {
                    assert(mv[i as int] == (pairs@[i as int].0@, pairs@[i as int].1@));
                    lemma_enc_pairs_snoc(mv.take(i as int), mv[i as int]);
                    assert(mv.take(i + 1) =~= mv.take(i as int).push(mv[i as int]));
                    assert(out@ =~= base + spec_enc_pairs(mv.take(i + 1)));
                }
            }
            proof {
                assert(mv.take(len as int) =~= mv);
                assert(out@ =~= old(out)@ + spec_enc_embedding(e@));
            }
        },
    }
}

/// Appends the encoding of a named collection to `out`.
fn enc_collection_into(out: &mut Vec<u8>, name: &String, c: &Collection)
    ensures
        final(out)@ == old(out)@ + spec_enc_collection((name@, c@)),
{
    enc_str_into(out, name);
    let mut dimb = u64_to_le_bytes(c.dimension as u64);
    out.append(&mut dimb);
    out.push(c.distance.tag());
    let len = c.embeddings.len();
    let mut lenb = u64_to_le_bytes(len as u64);
    out.append(&mut lenb);
    let ghost base = out@;
    let ghost evs = spec_views(c.embeddings@);
    for i in 0..len
        invariant
            len == c.embeddings@.len(),
            evs == spec_views(c.embeddings@),
            out@ == base + spec_enc_embeddings(evs.take(i as int)),
    {
        enc_embedding_into(out, &c.embeddings[i]);
        proof {
            assert(evs[i as int] == c.embeddings@[i as int]@);
            lemma_enc_embeddings_snoc(evs.take(i as int), evs[i as int]);
            assert(evs.take(i + 1) =~= evs.take(i as int).push(evs[i as int]));
            assert(out@ =~= base + spec_enc_embeddings(evs.take(i + 1)));
        }
    }
    proof {
        assert(evs.take(len as int) =~= evs);
        assert(out@ =~= old(out)@ + spec_enc_collection((name@, c@)));
    }
}

/// Encodes the whole database into its snapshot image.
pub fn encode_db(db: &Db) -> (r: Vec<u8>)
    ensures
        r@ == spec_enc_db(db@),
{
    let mut out: Vec<u8> = Vec::new();
    let len = db.collections.len();
    let mut lenb = u64_to_le_bytes(len as u64);
    out.append(&mut lenb);
    let ghost base = out@;
    let ghost cvs = db@.collections;
    for i in 0..len
        invariant
            len == db.collections@.len(),
            cvs == db@.collections,
            out@ == base + spec_enc_collections(cvs.take(i as int)),
    {
        let p = &db.collections[i];
        enc_collection_into(&mut out, &p.0, &p.1);
        proof {
            assert(cvs[i as int] == (db.collections@[i as int].0@, db.collections@[i as int].1@));
            lemma_enc_collections_snoc(cvs.take(i as int), cvs[i as int]);
            assert(cvs.take(i + 1) =~= cvs.take(i as int).push(cvs[i as int]));
            assert(out@ =~= base + spec_enc_collections(cvs.take(i + 1)));
        }
    }
    proof {
        assert(cvs.take(len as int) =~= cvs);
        assert(out@ =~= spec_enc_db(db@));
    }
    out
}

/// The decoding of a `u64`: eight bytes, little-endian.
pub open spec fn spec_dec_u64(b: Seq<u8>) -> Option<(u64, Seq<u8>)> {
    if b.len() >= 8 {
        Option::Some((spec_u64_from_le_bytes(b.take(8)), b.skip(8)))
    } else {
        Option::None
    }
}

/// The decoding of a `u32`: four bytes, little-endian.
pub open spec fn spec_dec_u32(b: Seq<u8>) -> Option<(u32, Seq<u8>)> {
    if b.len() >= 4 {
        Option::Some((spec_u32_from_le_bytes(b.take(4)), b.skip(4)))
    } else {
        Option::None
    }
}

/// The decoding of a single byte.
pub open spec fn spec_dec_byte(b: Seq<u8>) -> Option<(u8, Seq<u8>)> {
    if b.len() >= 1 {
        Option::Some((b[0], b.skip(1)))
    } else {
        Option::None
    }
}

/// The decoding of a string: byte length, then that many valid UTF-8 bytes.
pub open spec fn spec_dec_str(b: Seq<u8>) -> Option<(Seq<char>, Seq<u8>)> {
    match spec_dec_u64(b) {
        Option::None => Option::None,
        Option::Some((len, r)) => if r.len() >= len && valid_utf8(r.take(len as int)) {
            Option::Some((decode_utf8(r.take(len as int)), r.skip(len as int)))
        } else {
            Option::None
        },
    }
}

/// The decoding of `count` vector components.
pub open spec fn spec_dec_u32s(b: Seq<u8>, count: nat) -> Option<(Seq<u32>, Seq<u8>)>
    decreases count,
{
    if count == 0 {
        Option::Some((Seq::<u32>::empty(), b))
    } else {
        match spec_dec_u32(b) {
            Option::None => Option::None,
            Option::Some((x, r)) => match spec_dec_u32s(r, (count - 1) as nat) {
                Option::None => Option::None,
                Option::Some((v, r2)) => Option::Some((seq![x] + v, r2)),
            },
        }
    }
}

/// The decoding of a vector: component count, then the components.
pub open spec fn spec_dec_vector(b: Seq<u8>) -> Option<(Seq<u32>, Seq<u8>)> {
    match spec_dec_u64(b) {
        Option::None => Option::None,
        Option::Some((len, r)) => spec_dec_u32s(r, len as nat),
    }
}

/// The decoding of `count` metadata pairs.
pub open spec fn spec_dec_pairs(b: Seq<u8>, count: nat) -> Option<
    (Seq<(Seq<char>, Seq<char>)>, Seq<u8>),
>
    decreases count,
{
    if count == 0 {
        Option::Some((Seq::<(Seq<char>, Seq<char>)>::empty(), b))
    } else {
        match spec_dec_str(b) {
            Option::None => Option::None,
            Option::Some((k, r)) => match spec_dec_str(r) {
                Option::None => Option::None,
                Option::Some((v, r2)) => match spec_dec_pairs(r2, (count - 1) as nat) {
                    Option::None => Option::None,
                    Option::Some((ps, r3)) => Option::Some((seq![(k, v)] + ps, r3)),
                },
            },
        }
    }
}

/// The decoding of optional metadata: the marker byte, then the pairs.
pub open spec fn spec_dec_meta(b: Seq<u8>) -> Option<
    (Option<Seq<(Seq<char>, Seq<char>)>>, Seq<u8>),
> {
    match spec_dec_byte(b) {
        Option::None => Option::None,
        Option::Some((flag, r)) => if flag == 0 {
            Option::Some((Option::None, r))
        } else if flag == 1 {
            match spec_dec_u64(r) {
                Option::None => Option::None,
                Option::Some((len, r2)) => match spec_dec_pairs(r2, len as nat) {
                    Option::None => Option::None,
                    Option::Some((ps, r3)) => Option::Some((Option::Some(ps), r3)),
                },
            }
        } else {
            Option::None
        },
    }
}

/// The decoding of one embedding: id, vector, metadata.
pub open spec fn spec_dec_embedding(b: Seq<u8>) -> Option<(EmbeddingView, Seq<u8>)> {
    match spec_dec_str(b) {
        Option::None => Option::None,
        Option::Some((id, r)) => match spec_dec_vector(r) {
            Option::None => Option::None,
            Option::Some((vector, r2)) => match spec_dec_meta(r2) {
                Option::None => Option::None,
                Option::Some((metadata, r3)) => Option::Some(
                    (EmbeddingView { id, vector, metadata }, r3),
                ),
            },
        },
    }
}

/// The decoding of `count` embeddings.
pub open spec fn spec_dec_embeddings(b: Seq<u8>, count: nat) -> Option<
    (Seq<EmbeddingView>, Seq<u8>),
>
    decreases count,
{
    if count == 0 {
        Option::Some((Seq::<EmbeddingView>::empty(), b))
    } else {
        match spec_dec_embedding(b) {
            Option::None => Option::None,
            Option::Some((e, r)) => match spec_dec_embeddings(r, (count - 1) as nat) {
                Option::None => Option::None,
                Option::Some((es, r2)) => Option::Some((seq![e] + es, r2)),
            },
        }
    }
}

/// The decoding of a collection's fields after its name and dimension.
pub open spec fn spec_dec_collection_rest(name: Seq<char>, dim: u64, r2: Seq<u8>) -> Option<
    ((Seq<char>, CollectionView), Seq<u8>),
> {
    match spec_dec_byte(r2) {
        Option::None => Option::None,
        Option::Some((tag, r3)) => match spec_distance_from_tag(tag) {
            Option::None => Option::None,
            Option::Some(distance) => spec_dec_collection_embs(name, dim, distance, r3),
        },
    }
}

/// The decoding of a collection's embedding count and embeddings.
pub open spec fn spec_dec_collection_embs(
    name: Seq<char>,
    dim: u64,
    distance: Distance,
    r3: Seq<u8>,
) -> Option<((Seq<char>, CollectionView), Seq<u8>)> {
    match spec_dec_u64(r3) {
        Option::None => Option::None,
        Option::Some((cnt, r4)) => match spec_dec_embeddings(r4, cnt as nat) {
            Option::None => Option::None,
            Option::Some((embeddings, r5)) => Option::Some(
                (
                    (name, CollectionView { dimension: dim as nat, distance, embeddings }),
                    r5,
                ),
            ),
        },
    }
}

/// The decoding of one named collection: name, dimension (which must fit a
/// machine word), distance tag, embedding count, embeddings.
pub open spec fn spec_dec_collection(b: Seq<u8>) -> Option<
    ((Seq<char>, CollectionView), Seq<u8>),
> {
    match spec_dec_str(b) {
        Option::None => Option::None,
        Option::Some((name, r)) => match spec_dec_u64(r) {
            Option::None => Option::None,
            Option::Some((dim, r2)) => if dim > usize::MAX as u64 {
                Option::None
            } else {
                spec_dec_collection_rest(name, dim, r2)
            },
        },
    }
}

/// The decoding of `count` collections.
pub open spec fn spec_dec_collections(b: Seq<u8>, count: nat) -> Option<
    (Seq<(Seq<char>, CollectionView)>, Seq<u8>),
>
    decreases count,
{
    if count == 0 {
        Option::Some((Seq::<(Seq<char>, CollectionView)>::empty(), b))
    } else {
        match spec_dec_collection(b) {
            Option::None => Option::None,
            Option::Some((c, r)) => match spec_dec_collections(r, (count - 1) as nat) {
                Option::None => Option::None,
                Option::Some((cs, r2)) => Option::Some((seq![c] + cs, r2)),
            },
        }
    }
}

/// The decoding of the whole image: collection count, collections, and
/// nothing left over.
pub open spec fn spec_dec_db(b: Seq<u8>) -> Option<DbView> {
    match spec_dec_u64(b) {
        Option::None => Option::None,
        Option::Some((cnt, r)) => match spec_dec_collections(r, cnt as nat) {
            Option::None => Option::None,
            Option::Some((cs, r2)) => if r2.len() == 0 {
                Option::Some(DbView { collections: cs })
            } else {
                Option::None
            },
        },
    }
}

/// Whether the format can record this string: its UTF-8 form fits a `u64`
/// length field.
pub open spec fn spec_str_fits(s: Seq<char>) -> bool {
    encode_utf8(s).len() <= spec_len_max()
}

/// Whether the format can record this metadata.
pub open spec fn spec_meta_fits(m: Option<Seq<(Seq<char>, Seq<char>)>>) -> bool {
    match m {
        Option::None => true,
        Option::Some(ps) => ps.len() <= spec_len_max() && forall|i: int|
            0 <= i < ps.len() ==> spec_str_fits((#[trigger] ps[i]).0) && spec_str_fits(ps[i].1),
    }
}

/// Whether the format can record this embedding.
pub open spec fn spec_emb_fits(e: EmbeddingView) -> bool {
    spec_str_fits(e.id) && e.vector.len() <= spec_len_max() && spec_meta_fits(e.metadata)
}

/// Whether the format can record this named collection.
pub open spec fn spec_coll_fits(p: (Seq<char>, CollectionView)) -> bool {
    &&& spec_str_fits(p.0)
    &&& p.1.dimension <= usize::MAX as nat
    &&& p.1.embeddings.len() <= spec_len_max()
    &&& forall|i: int| 0 <= i < p.1.embeddings.len() ==> spec_emb_fits(#[trigger] p.1.embeddings[i])
}

/// Whether the format can record this database.
pub open spec fn spec_db_fits(v: DbView) -> bool {
    v.collections.len() <= spec_len_max() && forall|i: int|
        0 <= i < v.collections.len() ==> spec_coll_fits(#[trigger] v.collections[i])
}

/// Decoding inverts encoding for a `u64`.
proof fn lemma_dec_enc_u64(x: u64, rest: Seq<u8>)
    ensures
        spec_dec_u64(spec_u64_to_le_bytes(x) + rest) == Option::Some((x, rest)),
{
    lemma_auto_spec_u64_to_from_le_bytes();
    let b = spec_u64_to_le_bytes(x) + rest;
    assert(b.take(8) =~= spec_u64_to_le_bytes(x));
    assert(b.skip(8) =~= rest);
}

/// Decoding inverts encoding for a `u32`.
proof fn lemma_dec_enc_u32(x: u32, rest: Seq<u8>)
    ensures
        spec_dec_u32(spec_u32_to_le_bytes(x) + rest) == Option::Some((x, rest)),
{
    lemma_auto_spec_u32_to_from_le_bytes();
    let b = spec_u32_to_le_bytes(x) + rest;
    assert(b.take(4) =~= spec_u32_to_le_bytes(x));
    assert(b.skip(4) =~= rest);
}

/// Decoding inverts encoding for a string.
proof fn lemma_dec_enc_str(s: Seq<char>, rest: Seq<u8>)
    requires
        spec_str_fits(s),
    ensures
        spec_dec_str(spec_enc_str(s) + rest) == Option::Some((s, rest)),
{
    let u = encode_utf8(s);
    let n = u.len() as u64;
    let b = spec_enc_str(s) + rest;
    assert(b =~= spec_u64_to_le_bytes(n) + (u + rest));
    lemma_dec_enc_u64(n, u + rest);
    let r = u + rest;
    assert(r.take(n as int) =~= u);
    assert(r.skip(n as int) =~= rest);
    vstd::utf8::encode_utf8_valid_utf8(s);
    vstd::utf8::encode_utf8_decode_utf8(s);
}

/// Decoding inverts encoding for vector components.
proof fn lemma_dec_enc_u32s(v: Seq<u32>, rest: Seq<u8>)
    ensures
        spec_dec_u32s(spec_enc_u32s(v) + rest, v.len()) == Option::Some((v, rest)),
    decreases v.len(),
{
    if v.len() == 0 {
        assert(spec_enc_u32s(v) + rest =~= rest);
    } else {
        let tail = v.drop_first();
        assert(spec_enc_u32s(v) + rest =~= spec_u32_to_le_bytes(v[0]) + (spec_enc_u32s(tail)
            + rest));
        lemma_dec_enc_u32(v[0], spec_enc_u32s(tail) + rest);
        lemma_dec_enc_u32s(tail, rest);
        assert(seq![v[0]] + tail =~= v);
    }
}

/// Decoding inverts encoding for a vector.
proof fn lemma_dec_enc_vector(v: Seq<u32>, rest: Seq<u8>)
    requires
        v.len() <= spec_len_max(),
    ensures
        spec_dec_vector(spec_enc_vector(v) + rest) == Option::Some((v, rest)),
{
    let n = v.len() as u64;
    assert(spec_enc_vector(v) + rest =~= spec_u64_to_le_bytes(n) + (spec_enc_u32s(v) + rest));
    lemma_dec_enc_u64(n, spec_enc_u32s(v) + rest);
    lemma_dec_enc_u32s(v, rest);
}

/// Decoding inverts encoding for metadata pairs.
proof fn lemma_dec_enc_pairs(ps: Seq<(Seq<char>, Seq<char>)>, rest: Seq<u8>)
    requires
        forall|i: int|
            0 <= i < ps.len() ==> spec_str_fits((#[trigger] ps[i]).0) && spec_str_fits(ps[i].1),
    ensures
        spec_dec_pairs(spec_enc_pairs(ps) + rest, ps.len()) == Option::Some((ps, rest)),
    decreases ps.len(),
{
    if ps.len() == 0 {
        assert(spec_enc_pairs(ps) + rest =~= rest);
    } else {
        let tail = ps.drop_first();
        let k = ps[0].0;
        let v = ps[0].1;
        assert(spec_enc_pairs(ps) + rest =~= spec_enc_str(k) + (spec_enc_str(v) + (spec_enc_pairs(
            tail,
        ) + rest)));
        lemma_dec_enc_str(k, spec_enc_str(v) + (spec_enc_pairs(tail) + rest));
        lemma_dec_enc_str(v, spec_enc_pairs(tail) + rest);
        lemma_dec_enc_pairs(tail, rest);
        assert(seq![(k, v)] + tail =~= ps);
    }
}

/// Decoding inverts encoding for optional metadata.
proof fn lemma_dec_enc_meta(m: Option<Seq<(Seq<char>, Seq<char>)>>, rest: Seq<u8>)
    requires
        spec_meta_fits(m),
    ensures
        spec_dec_meta(spec_enc_meta(m) + rest) == Option::Some((m, rest)),
{
    match m {
        Option::None => {
            let b = spec_enc_meta(m) + rest;
            assert(b[0] == 0u8);
            assert(b.skip(1) =~= rest);
        },
        Option::Some(ps) => {
            let n = ps.len() as u64;
            let b = spec_enc_meta(m) + rest;
            assert(b[0] == 1u8);
            assert(b.skip(1) =~= spec_u64_to_le_bytes(n) + (spec_enc_pairs(ps) + rest));
            lemma_dec_enc_u64(n, spec_enc_pairs(ps) + rest);
            lemma_dec_enc_pairs(ps, rest);
        },
    }
}

/// Decoding inverts encoding for one embedding.
proof fn lemma_dec_enc_embedding(e: EmbeddingView, rest: Seq<u8>)
    requires
        spec_emb_fits(e),
    ensures
        spec_dec_embedding(spec_enc_embedding(e) + rest) == Option::Some((e, rest)),
{
    assert(spec_enc_embedding(e) + rest =~= spec_enc_str(e.id) + (spec_enc_vector(e.vector) + (
    spec_enc_meta(e.metadata) + rest)));
    lemma_dec_enc_str(e.id, spec_enc_vector(e.vector) + (spec_enc_meta(e.metadata) + rest));
    lemma_dec_enc_vector(e.vector, spec_enc_meta(e.metadata) + rest);
    lemma_dec_enc_meta(e.metadata, rest);
}

/// Decoding inverts encoding for a list of embeddings.
proof fn lemma_dec_enc_embeddings(es: Seq<EmbeddingView>, rest: Seq<u8>)
    requires
        forall|i: int| 0 <= i < es.len() ==> spec_emb_fits(#[trigger] es[i]),
    ensures
        spec_dec_embeddings(spec_enc_embeddings(es) + rest, es.len()) == Option::Some((es, rest)),
    decreases es.len(),
{
    if es.len() == 0 {
        assert(spec_enc_embeddings(es) + rest =~= rest);
    } else {
        let tail = es.drop_first();
        assert(spec_enc_embeddings(es) + rest =~= spec_enc_embedding(es[0]) + (spec_enc_embeddings(
            tail,
        ) + rest));
        lemma_dec_enc_embedding(es[0], spec_enc_embeddings(tail) + rest);
        lemma_dec_enc_embeddings(tail, rest);
        assert(seq![es[0]] + tail =~= es);
    }
}

/// Decoding inverts encoding for one named collection.
proof fn lemma_dec_enc_collection(p: (Seq<char>, CollectionView), rest: Seq<u8>)
    requires
        spec_coll_fits(p),
    ensures
        spec_dec_collection(spec_enc_collection(p) + rest) == Option::Some((p, rest)),
{
    let dim = p.1.dimension as u64;
    let cnt = p.1.embeddings.len() as u64;
    let tag = spec_distance_tag(p.1.distance);
    let after_cnt = spec_enc_embeddings(p.1.embeddings) + rest;
    let after_tag = spec_u64_to_le_bytes(cnt) + after_cnt;
    let after_dim = seq![tag] + after_tag;
    let after_name = spec_u64_to_le_bytes(dim) + after_dim;
    assert(spec_enc_collection(p) + rest =~= spec_enc_str(p.0) + after_name);
    lemma_dec_enc_str(p.0, after_name);
    lemma_dec_enc_u64(dim, after_dim);
    assert(after_dim[0] == tag);
    assert(after_dim.skip(1) =~= after_tag);
    lemma_dec_enc_u64(cnt, after_cnt);
    lemma_dec_enc_embeddings(p.1.embeddings, rest);
    assert(spec_distance_from_tag(tag) == Option::Some(p.1.distance));
    assert((CollectionView { dimension: dim as nat, distance: p.1.distance, embeddings: p.1.embeddings }) == p.1);
}

/// Decoding inverts encoding for a list of collections.
proof fn lemma_dec_enc_collections(cs: Seq<(Seq<char>, CollectionView)>, rest: Seq<u8>)
    requires
        forall|i: int| 0 <= i < cs.len() ==> spec_coll_fits(#[trigger] cs[i]),
    ensures
        spec_dec_collections(spec_enc_collections(cs) + rest, cs.len()) == Option::Some(
            (cs, rest),
        ),
    decreases cs.len(),
{
    if cs.len() == 0 {
        assert(spec_enc_collections(cs) + rest =~= rest);
    } else {
        let tail = cs.drop_first();
        assert(spec_enc_collections(cs) + rest =~= spec_enc_collection(cs[0]) + (
        spec_enc_collections(tail) + rest));
        lemma_dec_enc_collection(cs[0], spec_enc_collections(tail) + rest);
        lemma_dec_enc_collections(tail, rest);
        assert(seq![cs[0]] + tail =~= cs);
    }
}

/// The round-trip law: decoding an encoded database yields the database
/// back, for every database value the format can record.
pub proof fn lemma_codec_round_trip(v: DbView)
    requires
        spec_db_fits(v),
    ensures
        spec_dec_db(spec_enc_db(v)) == Option::Some(v),
{
    let n = v.collections.len() as u64;
    assert(spec_enc_db(v) =~= spec_u64_to_le_bytes(n) + (spec_enc_collections(v.collections)
        + Seq::<u8>::empty()));
    lemma_dec_enc_u64(n, spec_enc_collections(v.collections) + Seq::<u8>::empty());
    lemma_dec_enc_collections(v.collections, Seq::<u8>::empty());
}

/// Relies on String::from_utf8: it succeeds exactly on valid UTF-8 input
/// and returns the string of those bytes.
#[verifier::external_body]
fn string_from_utf8(bytes: Vec<u8>) -> (r: Option<String>)
    ensures
        r is Some <==> valid_utf8(bytes@),
        r matches Some(s) ==> s@ == decode_utf8(bytes@),
{
    String::from_utf8(bytes).ok()
}

/// Reads a `u64` at `pos`.
fn dec_u64_at(bytes: &Vec<u8>, pos: usize) -> (r: Option<(u64, usize)>)
    requires
        pos <= bytes@.len(),
    ensures
        match r {
            Option::None => spec_dec_u64(bytes@.skip(pos as int)) is None,
            Option::Some((x, np)) => pos <= np <= bytes@.len() && spec_dec_u64(
                bytes@.skip(pos as int),
            ) == Option::Some((x, bytes@.skip(np as int))),
        },
{
    if bytes.len() - pos >= 8 {
        let sl = vstd::slice::slice_subrange(bytes.as_slice(), pos, pos + 8);
        let x = u64_from_le_bytes(sl);
        proof {
            assert(bytes@.skip(pos as int).take(8) =~= bytes@.subrange(pos as int, pos + 8));
            assert(bytes@.skip(pos as int).skip(8) =~= bytes@.skip(pos + 8));
        }
        Option::Some((x, pos + 8))
    } else {
        Option::None
    }
}

/// Reads a `u32` at `pos`.
fn dec_u32_at(bytes: &Vec<u8>, pos: usize) -> (r: Option<(u32, usize)>)
    requires
        pos <= bytes@.len(),
    ensures
        match r {
            Option::None => spec_dec_u32(bytes@.skip(pos as int)) is None,
            Option::Some((x, np)) => pos <= np <= bytes@.len() && spec_dec_u32(
                bytes@.skip(pos as int),
            ) == Option::Some((x, bytes@.skip(np as int))),
        },
{
    if bytes.len() - pos >= 4 {
        let sl = vstd::slice::slice_subrange(bytes.as_slice(), pos, pos + 4);
        let x = u32_from_le_bytes(sl);
        proof {
            assert(bytes@.skip(pos as int).take(4) =~= bytes@.subrange(pos as int, pos + 4));
            assert(bytes@.skip(pos as int).skip(4) =~= bytes@.skip(pos + 4));
        }
        Option::Some((x, pos + 4))
    } else {
        Option::None
    }
}

/// Reads one byte at `pos`.
fn dec_byte_at(bytes: &Vec<u8>, pos: usize) -> (r: Option<(u8, usize)>)
    requires
        pos <= bytes@.len(),
    ensures
        match r {
            Option::None => spec_dec_byte(bytes@.skip(pos as int)) is None,
            Option::Some((x, np)) => pos <= np <= bytes@.len() && spec_dec_byte(
                bytes@.skip(pos as int),
            ) == Option::Some((x, bytes@.skip(np as int))),
        },
{
    if bytes.len() - pos >= 1 {
        let x = bytes[pos];
        proof {
            assert(bytes@.skip(pos as int)[0] == bytes@[pos as int]);
            assert(bytes@.skip(pos as int).skip(1) =~= bytes@.skip(pos + 1));
        }
        Option::Some((x, pos + 1))
    } else {
        Option::None
    }
}

/// Reads a string at `pos`.
fn dec_str_at(bytes: &Vec<u8>, pos: usize) -> (r: Option<(String, usize)>)
    requires
        pos <= bytes@.len(),
    ensures
        match r {
            Option::None => spec_dec_str(bytes@.skip(pos as int)) is None,
            Option::Some((s, np)) => pos <= np <= bytes@.len() && spec_dec_str(
                bytes@.skip(pos as int),
            ) == Option::Some((s@, bytes@.skip(np as int))),
        },
{
    let (len, p1) = match dec_u64_at(bytes, pos) {
        Option::None => {
            return Option::None;
        },
        Option::Some(x) => x,
    };
    let remaining = bytes.len() - p1;
    if len > remaining as u64 {
        return Option::None;
    }
    let l = len as usize;
    let sl = vstd::slice::slice_subrange(bytes.as_slice(), p1, p1 + l);
    let byts = vstd::slice::slice_to_vec(sl);
    proof {
        assert(byts@ =~= bytes@.skip(p1 as int).take(len as int));
        assert(bytes@.skip(p1 as int).skip(len as int) =~= bytes@.skip(p1 + l));
    }
    match string_from_utf8(byts) {
        Option::None => Option::None,
        Option::Some(s) => Option::Some((s, p1 + l)),
    }
}

/// Joins already-decoded items with the rest of a count-prefixed decode.
pub open spec fn spec_join<T>(prefix: Seq<T>, r: Option<(Seq<T>, Seq<u8>)>) -> Option<
    (Seq<T>, Seq<u8>),
> {
    match r {
        Option::None => Option::None,
        Option::Some((v, rest)) => Option::Some((prefix + v, rest)),
    }
}

/// Reads a vector at `pos`.
fn dec_vector_at(bytes: &Vec<u8>, pos: usize) -> (r: Option<(Vec<u32>, usize)>)
    requires
        pos <= bytes@.len(),
    ensures
        match r {
            Option::None => spec_dec_vector(bytes@.skip(pos as int)) is None,
            Option::Some((v, np)) => pos <= np <= bytes@.len() && spec_dec_vector(
                bytes@.skip(pos as int),
            ) == Option::Some((v@, bytes@.skip(np as int))),
        },
{
    let (cnt, p1) = match dec_u64_at(bytes, pos) {
        Option::None => {
            return Option::None;
        },
        Option::Some(x) => x,
    };
    let mut out: Vec<u32> = Vec::new();
    let mut p: usize = p1;
    let mut i: u64 = 0;
    proof {
        assert(out@ + Seq::<u32>::empty() =~= out@);
    }
    while i < cnt
        invariant
            i <= cnt,
            pos <= p1 <= p <= bytes@.len(),
            spec_dec_u64(bytes@.skip(pos as int)) == Option::Some((cnt, bytes@.skip(p1 as int))),
            spec_dec_u32s(bytes@.skip(p1 as int), cnt as nat) == spec_join(
                out@,
                spec_dec_u32s(bytes@.skip(p as int), (cnt - i) as nat),
            ),
        decreases cnt - i,
    {
        let (x, np) = match dec_u32_at(bytes, p) {
            Option::None => {
                return Option::None;
            },
            Option::Some(x) => x,
        };
        let ghost out0 = out@;
        out.push(x);
        proof {
            let cur = bytes@.skip(p as int);
            let nxt = bytes@.skip(np as int);
            assert(spec_dec_u32s(cur, (cnt - i) as nat) == spec_join(
                seq![x],
                spec_dec_u32s(nxt, (cnt - i - 1) as nat),
            ));
            match spec_dec_u32s(nxt, (cnt - i - 1) as nat) {
                Option::None => {},
                Option::Some((v2, r2)) => {
                    assert(out0 + (seq![x] + v2) =~= out@ + v2);
                },
            }
        }
        p = np;
        i = i + 1;
    }
    proof {
        assert(out@ + Seq::<u32>::empty() =~= out@);
    }
    Option::Some((out, p))
}

/// Reads optional metadata at `pos`.
fn dec_meta_at(bytes: &Vec<u8>, pos: usize) -> (r: Option<
    (Option<Vec<(String, String)>>, usize),
>)
    requires
        pos <= bytes@.len(),
    ensures
        match r {
            Option::None => spec_dec_meta(bytes@.skip(pos as int)) is None,
            Option::Some((m, np)) => pos <= np <= bytes@.len() && spec_dec_meta(
                bytes@.skip(pos as int),
            ) == Option::Some(
                (
                    match m {
                        Option::None => Option::None,
                        Option::Some(ps) => Option::Some(spec_meta_view(ps@)),
                    },
                    bytes@.skip(np as int),
                ),
            ),
        },
{
    let (flag, p0) = match dec_byte_at(bytes, pos) {
        Option::None => {
            return Option::None;
        },
        Option::Some(x) => x,
    };
    if flag == 0 {
        return Option::Some((Option::None, p0));
    }
    if flag != 1 {
        return Option::None;
    }
    let (cnt, p1) = match dec_u64_at(bytes, p0) {
        Option::None => {
            return Option::None;
        },
        Option::Some(x) => x,
    };
    let mut out: Vec<(String, String)> = Vec::new();
    let mut p: usize = p1;
    let mut i: u64 = 0;
    proof {
        assert(spec_meta_view(out@) =~= Seq::<(Seq<char>, Seq<char>)>::empty());
        assert(spec_meta_view(out@) + Seq::<(Seq<char>, Seq<char>)>::empty() =~= spec_meta_view(
            out@,
        ));
    }
    while i < cnt
        invariant
            i <= cnt,
            pos <= p0 <= p1 <= p <= bytes@.len(),
            spec_dec_byte(bytes@.skip(pos as int)) == Option::Some((1u8, bytes@.skip(p0 as int))),
            spec_dec_u64(bytes@.skip(p0 as int)) == Option::Some((cnt, bytes@.skip(p1 as int))),
            spec_dec_pairs(bytes@.skip(p1 as int), cnt as nat) == spec_join(
                spec_meta_view(out@),
                spec_dec_pairs(bytes@.skip(p as int), (cnt - i) as nat),
            ),
        decreases cnt - i,
    {
        let (k, pk) = match dec_str_at(bytes, p) {
            Option::None => {
                return Option::None;
            },
            Option::Some(x) => x,
        };
        let (v, pv) = match dec_str_at(bytes, pk) {
            Option::None => {
                return Option::None;
            },
            Option::Some(x) => x,
        };
        let ghost out0 = out@;
        let ghost kk = k@;
        let ghost vv = v@;
        out.push((k, v));
        proof {
            let cur = bytes@.skip(p as int);
            let nxt = bytes@.skip(pv as int);
            assert(spec_dec_pairs(cur, (cnt - i) as nat) == spec_join(
                seq![(kk, vv)],
                spec_dec_pairs(nxt, (cnt - i - 1) as nat),
            ));
            assert(spec_meta_view(out@) =~= spec_meta_view(out0) + seq![(kk, vv)]);
            match spec_dec_pairs(nxt, (cnt - i - 1) as nat) {
                Option::None => {},
                Option::Some((v2, r2)) => {
                    assert(spec_meta_view(out0) + (seq![(kk, vv)] + v2) =~= spec_meta_view(out@)
                        + v2);
                },
            }
        }
        p = pv;
        i = i + 1;
    }
    proof {
        assert(spec_meta_view(out@) + Seq::<(Seq<char>, Seq<char>)>::empty() =~= spec_meta_view(
            out@,
        ));
    }
    Option::Some((Option::Some(out), p))
}

/// Reads one embedding at `pos`.
fn dec_embedding_at(bytes: &Vec<u8>, pos: usize) -> (r: Option<(Embedding, usize)>)
    requires
        pos <= bytes@.len(),
    ensures
        match r {
            Option::None => spec_dec_embedding(bytes@.skip(pos as int)) is None,
            Option::Some((e, np)) => pos <= np <= bytes@.len() && spec_dec_embedding(
                bytes@.skip(pos as int),
            ) == Option::Some((e@, bytes@.skip(np as int))),
        },
{
    let (id, p1) = match dec_str_at(bytes, pos) {
        Option::None => {
            return Option::None;
        },
        Option::Some(x) => x,
    };
    let (vector, p2) = match dec_vector_at(bytes, p1) {
        Option::None => {
            return Option::None;
        },
        Option::Some(x) => x,
    };
    let (metadata, p3) = match dec_meta_at(bytes, p2) {
        Option::None => {
            return Option::None;
        },
        Option::Some(x) => x,
    };
    Option::Some((Embedding { id, vector, metadata }, p3))
}

/// Reads one named collection at `pos`.
fn dec_collection_at(bytes: &Vec<u8>, pos: usize) -> (r: Option<((String, Collection), usize)>)
    requires
        pos <= bytes@.len(),
    ensures
        match r {
            Option::None => spec_dec_collection(bytes@.skip(pos as int)) is None,
            Option::Some((c, np)) => pos <= np <= bytes@.len() && spec_dec_collection(
                bytes@.skip(pos as int),
            ) == Option::Some(((c.0@, c.1@), bytes@.skip(np as int))),
        },
{
    let (name, p1) = match dec_str_at(bytes, pos) {
        Option::None => {
            return Option::None;
        },
        Option::Some(x) => x,
    };
    let (dim, p2) = match dec_u64_at(bytes, p1) {
        Option::None => {
            return Option::None;
        },
        Option::Some(x) => x,
    };
    if dim > usize::MAX as u64 {
        return Option::None;
    }
    let (tag, p3) = match dec_byte_at(bytes, p2) {
        Option::None => {
            return Option::None;
        },
        Option::Some(x) => x,
    };
    let distance = match Distance::from_tag(tag) {
        Option::None => {
            return Option::None;
        },
        Option::Some(d) => d,
    };
    let (cnt, p4) = match dec_u64_at(bytes, p3) {
        Option::None => {
            return Option::None;
        },
        Option::Some(x) => x,
    };
    let ghost namev = name@;
    let mut out: Vec<Embedding> = Vec::new();
    let mut p: usize = p4;
    let mut i: u64 = 0;
    proof {
        assert(spec_views(out@) =~= Seq::<EmbeddingView>::empty());
        assert(spec_views(out@) + Seq::<EmbeddingView>::empty() =~= spec_views(out@));
    }
    while i < cnt
        invariant
            i <= cnt,
            pos <= p1 <= p2 <= p3 <= p4 <= p <= bytes@.len(),
            namev == name@,
            spec_dec_str(bytes@.skip(pos as int)) == Option::Some((namev, bytes@.skip(p1 as int))),
            spec_dec_u64(bytes@.skip(p1 as int)) == Option::Some((dim, bytes@.skip(p2 as int))),
            dim <= usize::MAX as u64,
            spec_dec_byte(bytes@.skip(p2 as int)) == Option::Some((tag, bytes@.skip(p3 as int))),
            spec_distance_from_tag(tag) == Option::Some(distance),
            spec_dec_u64(bytes@.skip(p3 as int)) == Option::Some((cnt, bytes@.skip(p4 as int))),
            spec_dec_embeddings(bytes@.skip(p4 as int), cnt as nat) == spec_join(
                spec_views(out@),
                spec_dec_embeddings(bytes@.skip(p as int), (cnt - i) as nat),
            ),
        decreases cnt - i,
    {
        let (e, np) = match dec_embedding_at(bytes, p) {
            Option::None => {
                return Option::None;
            },
            Option::Some(x) => x,
        };
        let ghost out0 = out@;
        let ghost ev = e@;
        out.push(e);
        proof {
            let cur = bytes@.skip(p as int);
            let nxt = bytes@.skip(np as int);
            assert(spec_dec_embeddings(cur, (cnt - i) as nat) == spec_join(
                seq![ev],
                spec_dec_embeddings(nxt, (cnt - i - 1) as nat),
            ));
            assert(spec_views(out@) =~= spec_views(out0) + seq![ev]);
            match spec_dec_embeddings(nxt, (cnt - i - 1) as nat) {
                Option::None => {},
                Option::Some((v2, r2)) => {
                    assert(spec_views(out0) + (seq![ev] + v2) =~= spec_views(out@) + v2);
                },
            }
        }
        p = np;
        i = i + 1;
    }
    proof {
        assert(spec_views(out@) + Seq::<EmbeddingView>::empty() =~= spec_views(out@));
    }
    Option::Some(((name, Collection { dimension: dim as usize, distance, embeddings: out }), p))
}

/// Decodes a snapshot image back into a database. Exactly the images that
/// `spec_dec_db` accepts decode; everything else yields `None`.
pub fn decode_db(bytes: &Vec<u8>) -> (r: Option<Db>)
    ensures
        match spec_dec_db(bytes@) {
            Option::None => r is None,
            Option::Some(v) => r matches Some(db) && db@ == v,
        },
{
    proof {
        assert(bytes@.skip(0) =~= bytes@);
    }
    let (cnt, p0) = match dec_u64_at(bytes, 0) {
        Option::None => {
            return Option::None;
        },
        Option::Some(x) => x,
    };
    let ghost dbcs = |out: Seq<(String, Collection)>|
        out.map_values(|q: (String, Collection)| (q.0@, q.1@));
    let mut out: Vec<(String, Collection)> = Vec::new();
    let mut p: usize = p0;
    let mut i: u64 = 0;
    proof {
        assert(dbcs(out@) =~= Seq::<(Seq<char>, CollectionView)>::empty());
        assert(dbcs(out@) + Seq::<(Seq<char>, CollectionView)>::empty() =~= dbcs(out@));
    }
    while i < cnt
        invariant
            i <= cnt,
            p0 <= p <= bytes@.len(),
            dbcs == (|out: Seq<(String, Collection)>|
                out.map_values(|q: (String, Collection)| (q.0@, q.1@))),
            spec_dec_u64(bytes@) == Option::Some((cnt, bytes@.skip(p0 as int))),
            spec_dec_collections(bytes@.skip(p0 as int), cnt as nat) == spec_join(
                dbcs(out@),
                spec_dec_collections(bytes@.skip(p as int), (cnt - i) as nat),
            ),
        decreases cnt - i,
    {
        let (c, np) = match dec_collection_at(bytes, p) {
            Option::None => {
                return Option::None;
            },
            Option::Some(x) => x,
        };
        let ghost out0 = out@;
        let ghost cv = (c.0@, c.1@);
        out.push(c);
        proof {
            let cur = bytes@.skip(p as int);
            let nxt = bytes@.skip(np as int);
            assert(spec_dec_collections(cur, (cnt - i) as nat) == spec_join(
                seq![cv],
                spec_dec_collections(nxt, (cnt - i - 1) as nat),
            ));
            assert(dbcs(out@) =~= dbcs(out0) + seq![cv]);
            match spec_dec_collections(nxt, (cnt - i - 1) as nat) {
                Option::None => {},
                Option::Some((v2, r2)) => {
                    assert(dbcs(out0) + (seq![cv] + v2) =~= dbcs(out@) + v2);
                },
            }
        }
        p = np;
        i = i + 1;
    }
    if p != bytes.len() {
        return Option::None;
    }
    proof {
        assert(dbcs(out@) + Seq::<(Seq<char>, CollectionView)>::empty() =~= dbcs(out@));
        assert(bytes@.skip(p as int).len() == 0);
    }
    Option::Some(Db { collections: out })
}

} // verus!
