use tinyvector::collection::Collection;
use tinyvector::db::Db;
use tinyvector::distance::Distance;
use tinyvector::embedding::Embedding;
use tinyvector::error::Error;
use tinyvector::score::{number_matches, score_key, MetadataEqualities};
use tinyvector::topk::top_k;

fn bits(v: &[f32]) -> Vec<u32> {
    v.iter().map(|x| x.to_bits()).collect()
}

fn emb(id: &str, v: &[f32]) -> Embedding {
    Embedding { id: String::from(id), vector: bits(v), metadata: None }
}

fn emb_meta(id: &str, v: &[f32], meta: &[(&str, &str)]) -> Embedding {
    Embedding {
        id: String::from(id),
        vector: bits(v),
        metadata: Some(
            meta.iter().map(|(k, w)| (String::from(*k), String::from(*w))).collect(),
        ),
    }
}

fn squared_l2(a: &[f32], b: &[f32]) -> f32 {
    a.iter().zip(b.iter()).map(|(x, y)| (x - y) * (x - y)).sum()
}

fn normalize(v: &[f32]) -> Vec<f32> {
    let norm: f32 = v.iter().map(|x| x * x).sum::<f32>().sqrt();
    if norm == 0.0 {
        v.iter().map(|x| x * 0.0).collect()
    } else {
        v.iter().map(|x| x / norm).collect()
    }
}

#[test]
fn score_key_orders_like_floats() {
    let samples: [f32; 8] = [-3.5, -0.0, 0.0, 0.25, 1.0, 2.0, f32::INFINITY, f32::NEG_INFINITY];
    for &a in samples.iter() {
        for &b in samples.iter() {
            let ka = score_key(a.to_bits());
            let kb = score_key(b.to_bits());
            assert_eq!(a < b, ka < kb, "order mismatch for {a} vs {b}");
            assert_eq!(a == b, ka == kb, "equality mismatch for {a} vs {b}");
        }
    }
    // NaN ranks after every other value.
    let knan = score_key(f32::NAN.to_bits());
    for &a in samples.iter() {
        assert!(score_key(a.to_bits()) < knan);
    }
}

#[test]
fn top_k_picks_smallest_scores_in_order() {
    let scores = bits(&[5.0, 1.0, 3.0, 0.5, 4.0]);
    let r = top_k(&scores, 3);
    let picked: Vec<usize> = r.iter().map(|si| si.index).collect();
    assert_eq!(picked, vec![3, 1, 2]);
    assert_eq!(r[0].score, (0.5f32).to_bits());
}

#[test]
fn top_k_breaks_ties_by_index() {
    let scores = bits(&[2.0, 1.0, 2.0, 1.0]);
    let r = top_k(&scores, 4);
    let picked: Vec<usize> = r.iter().map(|si| si.index).collect();
    assert_eq!(picked, vec![1, 3, 0, 2]);
}

#[test]
fn top_k_evicts_nan_last() {
    let scores = bits(&[f32::NAN, 1.0, f32::NAN, 0.0]);
    let r = top_k(&scores, 2);
    let picked: Vec<usize> = r.iter().map(|si| si.index).collect();
    assert_eq!(picked, vec![3, 1]);
}

#[test]
fn top_k_clamps_k() {
    let scores = bits(&[1.0, 2.0]);
    // k = 0 is clamped up to one result.
    assert_eq!(top_k(&scores, 0).len(), 1);
    // k beyond the population returns everything.
    assert_eq!(top_k(&scores, 10).len(), 2);
    // An empty population yields no results.
    assert_eq!(top_k(&Vec::new(), 3).len(), 0);
}

#[test]
fn create_insert_query_round_trip() {
    // Euclidean collection of dimension three, queried for the two nearest.
    let mut db = Db::new();
    assert!(db.create_collection(String::from("A"), 3, Distance::Euclidean).is_ok());
    assert!(db.insert_into_collection(&String::from("A"), emb("x", &[1.0, 0.0, 0.0])).is_ok());
    assert!(db.insert_into_collection(&String::from("A"), emb("y", &[0.0, 1.0, 0.0])).is_ok());
    assert!(db.insert_into_collection(&String::from("A"), emb("z", &[0.0, 0.0, 1.0])).is_ok());

    let coll = db.get_collection(&String::from("A")).unwrap();
    let query = [1.0f32, 0.0, 0.0];
    let vectors = [[1.0f32, 0.0, 0.0], [0.0, 1.0, 0.0], [0.0, 0.0, 1.0]];
    let scores: Vec<u32> = vectors.iter().map(|v| squared_l2(v, &query).to_bits()).collect();
    let results = coll.get_similarity(&scores, 2);
    assert_eq!(results.len(), 2);
    assert_eq!(results[0].embedding.id, "x");
    assert_eq!(f32::from_bits(results[0].score), 0.0);
    // The tie between y and z breaks toward the earlier insertion.
    assert_eq!(results[1].embedding.id, "y");
    assert_eq!(f32::from_bits(results[1].score), 2.0);
}

#[test]
fn similarity_returns_copies() {
    let mut db = Db::new();
    db.create_collection(String::from("A"), 1, Distance::Euclidean).unwrap();
    db.insert_into_collection(&String::from("A"), emb("a", &[1.0])).unwrap();
    let results = {
        let coll = db.get_collection(&String::from("A")).unwrap();
        coll.get_similarity(&bits(&[0.0]), 1)
    };
    // Mutating the collection afterwards leaves the returned copy alone.
    db.collection_delete_id(&String::from("A"), &String::from("a")).unwrap();
    assert_eq!(results[0].embedding.id, "a");
}

#[test]
fn cosine_normalization_scenario() {
    // The caller normalizes on insert, as the cosine metric demands.
    let mut db = Db::new();
    db.create_collection(String::from("A"), 2, Distance::Cosine).unwrap();
    let stored = normalize(&[3.0, 4.0]);
    db.insert_into_collection(&String::from("A"), emb("a", &stored)).unwrap();

    let coll = db.get_collection(&String::from("A")).unwrap();
    let e = coll.get_id(&String::from("a")).unwrap();
    let v: Vec<f32> = e.vector.iter().map(|b| f32::from_bits(*b)).collect();
    let norm: f32 = v.iter().map(|x| x * x).sum::<f32>().sqrt();
    assert!((norm - 1.0).abs() < 1e-6);

    // Querying with [10, 0] scores 1 - 3/5.
    let q = normalize(&[10.0, 0.0]);
    let score = 1.0 - (q[0] * v[0] + q[1] * v[1]);
    let results = coll.get_similarity(&vec![score.to_bits()], 1);
    assert_eq!(results.len(), 1);
    assert!((f32::from_bits(results[0].score) - 0.4).abs() < 1e-6);
}

#[test]
fn zero_vector_under_cosine_scores_one() {
    // Normalizing a zero vector yields zero, and the dot product with it
    // is zero, so the score is exactly one: maximum distance.
    let mut db = Db::new();
    db.create_collection(String::from("A"), 2, Distance::Cosine).unwrap();
    let stored = normalize(&[0.0, 0.0]);
    db.insert_into_collection(&String::from("A"), emb("zero", &stored)).unwrap();
    let coll = db.get_collection(&String::from("A")).unwrap();
    let q = normalize(&[1.0, 0.0]);
    let v: Vec<f32> = coll.embeddings[0].vector.iter().map(|b| f32::from_bits(*b)).collect();
    let score = 1.0 - (q[0] * v[0] + q[1] * v[1]);
    let results = coll.get_similarity(&vec![score.to_bits()], 1);
    assert_eq!(f32::from_bits(results[0].score), 1.0);
}

#[test]
fn dimension_mismatch_rejected() {
    let mut db = Db::new();
    db.create_collection(String::from("A"), 4, Distance::Euclidean).unwrap();
    let r = db.insert_into_collection(&String::from("A"), emb("a", &[1.0, 2.0, 3.0]));
    assert_eq!(r, Err(Error::DimensionMismatch));
    assert_eq!(db.get_collection(&String::from("A")).unwrap().embeddings.len(), 0);
}

#[test]
fn upsert_replaces_and_keeps_count() {
    let mut db = Db::new();
    db.create_collection(String::from("A"), 2, Distance::Euclidean).unwrap();
    db.insert_into_collection(&String::from("A"), emb("u", &[1.0, 0.0])).unwrap();
    db.insert_into_collection(&String::from("A"), emb("u", &[0.0, 1.0])).unwrap();
    let coll = db.get_collection(&String::from("A")).unwrap();
    assert_eq!(coll.embeddings.len(), 1);
    let e = coll.get_id(&String::from("u")).unwrap();
    assert_eq!(e.vector, bits(&[0.0, 1.0]));
}

#[test]
fn duplicate_collection_rejected() {
    let mut db = Db::new();
    db.create_collection(String::from("A"), 2, Distance::Euclidean).unwrap();
    let r = db.create_collection(String::from("A"), 3, Distance::Cosine);
    assert_eq!(r.err(), Some(Error::UniqueViolation));
}

#[test]
fn missing_collection_reported() {
    let mut db = Db::new();
    assert_eq!(db.delete_collection(&String::from("nope")), Err(Error::NotFound));
    assert_eq!(
        db.insert_into_collection(&String::from("nope"), emb("a", &[1.0])),
        Err(Error::NotFound)
    );
    assert!(db.get_collection(&String::from("nope")).is_none());
    assert_eq!(
        db.collection_delete_id(&String::from("nope"), &String::from("a")).err(),
        Some(Error::NotFound)
    );
}

#[test]
fn missing_id_reported() {
    let mut db = Db::new();
    db.create_collection(String::from("A"), 1, Distance::Euclidean).unwrap();
    let r = db.collection_delete_id(&String::from("A"), &String::from("ghost"));
    assert_eq!(r.err(), Some(Error::IDNotFound));
}

#[test]
fn delete_collection_drops_embeddings() {
    let mut db = Db::new();
    db.create_collection(String::from("A"), 1, Distance::Euclidean).unwrap();
    db.insert_into_collection(&String::from("A"), emb("a", &[1.0])).unwrap();
    db.delete_collection(&String::from("A")).unwrap();
    assert!(db.get_collection(&String::from("A")).is_none());
    // The name is free again.
    assert!(db.create_collection(String::from("A"), 1, Distance::Euclidean).is_ok());
}

#[test]
fn error_status_codes() {
    assert_eq!(Error::UniqueViolation.status_code(), 409);
    assert_eq!(Error::NotFound.status_code(), 404);
    assert_eq!(Error::DimensionMismatch.status_code(), 400);
    assert_eq!(Error::IDNotFound.status_code(), 404);
    assert_eq!(Error::NotFound.message(), "Collection doesn't exist");
}

#[test]
fn metadata_string_filter_in_insertion_order() {
    let mut c = Collection { dimension: 1, distance: Distance::Euclidean, embeddings: Vec::new() };
    c.embeddings.push(emb_meta("a", &[1.0], &[("color", "red")]));
    c.embeddings.push(emb_meta("b", &[1.0], &[("color", "blue")]));
    c.embeddings.push(emb_meta("c", &[1.0], &[("color", "red")]));
    c.embeddings.push(emb("d", &[1.0]));
    c.embeddings.push(emb_meta("e", &[1.0], &[("color", "red")]));

    let all = c.get_metadata_string(&String::from("color"), &String::from("red"), 10);
    let ids: Vec<&str> = all.iter().map(|e| e.id.as_str()).collect();
    assert_eq!(ids, vec!["a", "c", "e"]);

    let two = c.get_metadata_string(&String::from("color"), &String::from("red"), 2);
    let ids: Vec<&str> = two.iter().map(|e| e.id.as_str()).collect();
    assert_eq!(ids, vec!["a", "c"]);
}

fn parsed_values(c: &Collection, key: &str) -> Vec<Option<u32>> {
    c.metadata_values(&String::from(key))
        .into_iter()
        .map(|ov| ov.and_then(|s| s.parse::<f32>().ok()).map(|x| x.to_bits()))
        .collect()
}

#[test]
fn numeric_metadata_filter_scenario() {
    let mut c = Collection { dimension: 1, distance: Distance::Euclidean, embeddings: Vec::new() };
    for (id, price) in [("a", "10"), ("b", "20"), ("c", "30"), ("d", "40"), ("e", "50")] {
        c.embeddings.push(emb_meta(id, &[1.0], &[("price", price)]));
    }
    let parsed = parsed_values(&c, "price");
    let r = c.get_metadata_number(&parsed, (25.0f32).to_bits(), MetadataEqualities::GreaterThan, 2);
    let ids: Vec<&str> = r.iter().map(|e| e.id.as_str()).collect();
    assert_eq!(ids, vec!["c", "d"]);
}

#[test]
fn numeric_metadata_filter_skips_bad_values() {
    let mut c = Collection { dimension: 1, distance: Distance::Euclidean, embeddings: Vec::new() };
    c.embeddings.push(emb_meta("a", &[1.0], &[("price", "oops")]));
    c.embeddings.push(emb("b", &[1.0]));
    c.embeddings.push(emb_meta("c", &[1.0], &[("size", "9")]));
    c.embeddings.push(emb_meta("d", &[1.0], &[("price", "7")]));
    let parsed = parsed_values(&c, "price");
    let r = c.get_metadata_number(&parsed, (1.0f32).to_bits(), MetadataEqualities::GreaterEqualThan, 10);
    let ids: Vec<&str> = r.iter().map(|e| e.id.as_str()).collect();
    assert_eq!(ids, vec!["d"]);
}

#[test]
fn number_matches_follows_float_comparisons() {
    let five = (5.0f32).to_bits();
    let three = (3.0f32).to_bits();
    let nan = f32::NAN.to_bits();
    assert!(number_matches(five, three, MetadataEqualities::GreaterThan));
    assert!(!number_matches(three, five, MetadataEqualities::GreaterThan));
    assert!(number_matches(three, five, MetadataEqualities::LesserEqualThan));
    assert!(number_matches(five, five, MetadataEqualities::Equal));
    assert!(!number_matches(nan, five, MetadataEqualities::GreaterEqualThan));
    assert!(!number_matches(five, nan, MetadataEqualities::Equal));
    // Negative and positive zero compare equal.
    assert!(number_matches((-0.0f32).to_bits(), (0.0f32).to_bits(), MetadataEqualities::Equal));
}

#[test]
fn equality_parsing_ignores_ascii_case() {
    assert_eq!(
        MetadataEqualities::from_str("greater_than"),
        Some(MetadataEqualities::GreaterThan)
    );
    assert_eq!(
        MetadataEqualities::from_str("GREATER_EQUAL_THAN"),
        Some(MetadataEqualities::GreaterEqualThan)
    );
    assert_eq!(
        MetadataEqualities::from_str("Lesser_Than"),
        Some(MetadataEqualities::LesserThan)
    );
    assert_eq!(
        MetadataEqualities::from_str("lesser_equal_than"),
        Some(MetadataEqualities::LesserEqualThan)
    );
    assert_eq!(MetadataEqualities::from_str("EQUAL"), Some(MetadataEqualities::Equal));
    assert_eq!(MetadataEqualities::from_str("between"), None);
    assert_eq!(MetadataEqualities::from_str(""), None);
}
