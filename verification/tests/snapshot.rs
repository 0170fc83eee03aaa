use tinyvector::codec::{decode_db, encode_db};
use tinyvector::db::Db;
use tinyvector::distance::Distance;
use tinyvector::embedding::Embedding;

fn bits(v: &[f32]) -> Vec<u32> {
    v.iter().map(|x| x.to_bits()).collect()
}

fn emb_meta(id: &str, v: &[f32], meta: Option<&[(&str, &str)]>) -> Embedding {
    Embedding {
        id: String::from(id),
        vector: bits(v),
        metadata: meta.map(|m| {
            m.iter().map(|(k, w)| (String::from(*k), String::from(*w))).collect()
        }),
    }
}

fn sample_db() -> Db {
    let mut db = Db::new();
    db.create_collection(String::from("first"), 3, Distance::Euclidean).unwrap();
    db.create_collection(String::from("second"), 2, Distance::Cosine).unwrap();
    db.insert_into_collection(
        &String::from("first"),
        emb_meta("x", &[1.0, -2.5, 0.125], Some(&[("kind", "probe"), ("rank", "1")])),
    )
    .unwrap();
    db.insert_into_collection(&String::from("first"), emb_meta("y", &[0.0, 0.5, 3.25], None))
        .unwrap();
    db.insert_into_collection(&String::from("second"), emb_meta("a", &[0.6, 0.8], Some(&[])))
        .unwrap();
    db
}

fn assert_same(a: &Db, b: &Db) {
    assert_eq!(a.collections.len(), b.collections.len());
    for (pa, pb) in a.collections.iter().zip(b.collections.iter()) {
        assert_eq!(pa.0, pb.0);
        assert_eq!(pa.1.dimension, pb.1.dimension);
        assert_eq!(pa.1.distance, pb.1.distance);
        assert_eq!(pa.1.embeddings.len(), pb.1.embeddings.len());
        for (ea, eb) in pa.1.embeddings.iter().zip(pb.1.embeddings.iter()) {
            assert_eq!(ea.id, eb.id);
            // Vectors come back bit-identical.
            assert_eq!(ea.vector, eb.vector);
            assert_eq!(ea.metadata, eb.metadata);
        }
    }
}

#[test]
fn snapshot_round_trip() {
    let db = sample_db();
    let bytes = encode_db(&db);
    let back = decode_db(&bytes).expect("an encoded snapshot decodes");
    assert_same(&db, &back);
    assert!(back.is_wf());
}

#[test]
fn snapshot_round_trip_empty() {
    let db = Db::new();
    let bytes = encode_db(&db);
    let back = decode_db(&bytes).expect("an empty snapshot decodes");
    assert_eq!(back.collections.len(), 0);
}

#[test]
fn snapshot_round_trip_non_ascii() {
    // Exercises UTF-8 decoding: a reversed or garbled byte run would not
    // give these characters back.
    let mut db = Db::new();
    db.create_collection(String::from("\u{00e9}t\u{00e9}"), 1, Distance::DotProduct).unwrap();
    db.insert_into_collection(
        &String::from("\u{00e9}t\u{00e9}"),
        emb_meta("\u{03b1}\u{03b2}", &[2.0], Some(&[("gr\u{00fc}n", "\u{2713}")])),
    )
    .unwrap();
    let bytes = encode_db(&db);
    let back = decode_db(&bytes).expect("a non-ASCII snapshot decodes");
    assert_same(&db, &back);
    let c = back.get_collection(&String::from("\u{00e9}t\u{00e9}")).unwrap();
    let e = c.get_id(&String::from("\u{03b1}\u{03b2}")).unwrap();
    assert_eq!(e.metadata.unwrap()[0], (String::from("gr\u{00fc}n"), String::from("\u{2713}")));
}

#[test]
fn truncated_snapshot_rejected() {
    let db = sample_db();
    let mut bytes = encode_db(&db);
    bytes.pop();
    assert!(decode_db(&bytes).is_none());
}

#[test]
fn trailing_bytes_rejected() {
    let db = sample_db();
    let mut bytes = encode_db(&db);
    bytes.push(0);
    assert!(decode_db(&bytes).is_none());
}

#[test]
fn invalid_utf8_rejected() {
    // One collection whose name claims one byte that is not valid UTF-8.
    let mut bytes: Vec<u8> = Vec::new();
    bytes.extend_from_slice(&1u64.to_le_bytes());
    bytes.extend_from_slice(&1u64.to_le_bytes());
    bytes.push(0xff);
    assert!(decode_db(&bytes).is_none());
}

#[test]
fn unknown_distance_tag_rejected() {
    // One collection, empty name, dimension one, distance tag out of range.
    let mut bytes: Vec<u8> = Vec::new();
    bytes.extend_from_slice(&1u64.to_le_bytes());
    bytes.extend_from_slice(&0u64.to_le_bytes());
    bytes.extend_from_slice(&1u64.to_le_bytes());
    bytes.push(9);
    bytes.extend_from_slice(&0u64.to_le_bytes());
    assert!(decode_db(&bytes).is_none());
}

#[test]
fn well_formedness_check() {
    let db = sample_db();
    assert!(db.is_wf());
    let mut bad = Db::new();
    bad.collections.push((
        String::from("A"),
        tinyvector::collection::Collection {
            dimension: 2,
            distance: Distance::Euclidean,
            embeddings: vec![emb_meta("a", &[1.0], None)],
        },
    ));
    // A vector shorter than the dimension violates the invariant.
    assert!(!bad.is_wf());
}
