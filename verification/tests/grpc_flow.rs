use vectaraft::state::{DbState, DbStateConfig};

fn bits(v: &[f32]) -> Vec<u32> {
    v.iter().map(|x| x.to_bits()).collect()
}

fn state_with_empty_wal() -> DbState {
    DbState::with_config(DbStateConfig { enable_wal: true, wal_seed: None })
}

fn point(id: &str, v: &[f32], payload: &str) -> vectaraft::catalog::PointWrite {
    vectaraft::catalog::PointWrite {
        id: id.to_string(),
        vector: bits(v),
        payload_json: payload.to_string(),
    }
}

#[test]
fn create_upsert_query_roundtrip() {
    let mut state = state_with_empty_wal();

    state
        .create_collection("demo", 4, "cosine")
        .expect("create collection");

    let points = vec![
        point("", &[1.0, 0.0, 0.0, 0.0], "{\"k\":0}"),
        point("manual", &[0.0, 1.0, 0.0, 0.0], "{\"k\":1}"),
    ];
    let upserted = state.upsert("demo", points).expect("upsert");
    assert_eq!(upserted, 2);

    let hits = state
        .query("demo", bits(&[0.9, 0.1, 0.0, 0.0]), 2, "", true, vec![])
        .expect("query");
    assert_eq!(hits.len(), 2);
    assert!(hits.iter().any(|h| h.id == "manual"));
    assert!(hits.iter().all(|h| !h.payload_json.is_empty()));
    assert!(hits.iter().all(|h| !h.id.is_empty()));
    // The higher-score hit is the one closest to the query.
    assert_eq!(hits[0].payload_json, "{\"k\":0}");

    let filtered = state
        .query(
            "demo",
            bits(&[0.9, 0.1, 0.0, 0.0]),
            5,
            "",
            true,
            vec![("k".to_string(), "1".to_string())],
        )
        .expect("filtered query");
    assert_eq!(filtered.len(), 1);
    assert_eq!(filtered[0].payload_json, "{\"k\":1}");
}

#[test]
fn wal_replay_restores_points() {
    let mut state = state_with_empty_wal();

    state
        .create_collection("demo", 3, "l2")
        .expect("create collection");
    state
        .upsert("demo", vec![point("persist", &[1.0, 1.0, 1.0], "{\"hello\":true}")])
        .expect("upsert");

    let wal_text = state.wal.as_ref().expect("wal").contents.clone();
    drop(state);

    let state = DbState::with_config(DbStateConfig {
        enable_wal: true,
        wal_seed: Some(wal_text),
    });

    let hits = state
        .query("demo", bits(&[1.0, 1.0, 1.0]), 1, "", true, vec![])
        .expect("query after replay");
    assert_eq!(hits.len(), 1);
    assert_eq!(hits[0].id, "persist");
    assert_eq!(hits[0].payload_json, "{\"hello\":true}");
}

#[test]
fn operations_work_without_wal() {
    let mut state = DbState::with_config(DbStateConfig { enable_wal: false, wal_seed: None });
    assert!(state.wal.is_none());

    state
        .create_collection("no-wal", 2, "ip")
        .expect("create collection");

    let upserted = state
        .upsert("no-wal", vec![point("", &[0.5, 0.5], "")])
        .expect("upsert");
    assert_eq!(upserted, 1);

    let hits = state
        .query("no-wal", bits(&[0.5, 0.5]), 1, "", false, vec![])
        .expect("query");
    assert_eq!(hits.len(), 1);
    assert!(!hits[0].id.is_empty());
    // No log is kept at all.
    assert!(state.wal.is_none());
}

#[test]
fn dimension_mismatch_rejected_before_log() {
    let mut state = state_with_empty_wal();
    state.create_collection("demo", 3, "l2").expect("create");
    let lines_before = state.wal.as_ref().unwrap().contents.clone();

    let err = state
        .upsert("demo", vec![point("x", &[1.0, 2.0, 3.0, 4.0], "")])
        .unwrap_err();
    assert_eq!(err, vectaraft::state::DbError::InvalidArgument);

    // Nothing was stored and nothing was logged.
    assert_eq!(state.catalog.total_points(), 0);
    assert_eq!(state.wal.as_ref().unwrap().contents, lines_before);
}

#[test]
fn duplicate_create_keeps_existing() {
    let mut state = state_with_empty_wal();
    state.create_collection("demo", 4, "l2").expect("create");
    let err = state.create_collection("demo", 8, "l2").unwrap_err();
    assert_eq!(err, vectaraft::state::DbError::AlreadyExists);

    // The existing dim=4 collection is unchanged: a 4-vector still fits.
    let upserted = state
        .upsert("demo", vec![point("a", &[1.0, 0.0, 0.0, 0.0], "")])
        .expect("upsert");
    assert_eq!(upserted, 1);

    // Only one creation record was logged.
    let text: String = state.wal.as_ref().unwrap().contents.iter().collect();
    let creates = text
        .lines()
        .filter(|l| l.contains("CreateCollection"))
        .count();
    assert_eq!(creates, 1);
}

#[test]
fn invalid_arguments_rejected() {
    let mut state = state_with_empty_wal();
    assert_eq!(
        state.create_collection("", 4, "l2").unwrap_err(),
        vectaraft::state::DbError::InvalidArgument
    );
    assert_eq!(
        state.create_collection("x", 0, "l2").unwrap_err(),
        vectaraft::state::DbError::InvalidArgument
    );
    assert_eq!(
        state.upsert("missing", vec![point("a", &[1.0], "")]).unwrap_err(),
        vectaraft::state::DbError::NotFound
    );
    assert_eq!(
        state
            .query("missing", bits(&[1.0]), 1, "", true, vec![])
            .unwrap_err(),
        vectaraft::state::DbError::NotFound
    );
}

#[test]
fn filtering_equals_searching_only_the_passing_rows() {
    // A filtered search over all rows returns the same ids and scores as
    // an unfiltered search over a collection holding only the rows whose
    // payloads pass the filter.
    let mut mixed = DbState::with_config(DbStateConfig { enable_wal: false, wal_seed: None });
    mixed.create_collection("c", 2, "ip").expect("create");
    mixed
        .upsert(
            "c",
            vec![
                point("a", &[1.0, 0.0], "{\"tag\":\"x\"}"),
                point("b", &[2.0, 0.0], "{\"tag\":\"y\"}"),
                point("c", &[3.0, 0.0], "{\"tag\":\"x\"}"),
                point("d", &[4.0, 0.0], "not-json"),
            ],
        )
        .expect("upsert");

    let mut only = DbState::with_config(DbStateConfig { enable_wal: false, wal_seed: None });
    only.create_collection("c", 2, "ip").expect("create");
    only.upsert(
        "c",
        vec![
            point("a", &[1.0, 0.0], "{\"tag\":\"x\"}"),
            point("c", &[3.0, 0.0], "{\"tag\":\"x\"}"),
        ],
    )
    .expect("upsert");

    let q = bits(&[1.0, 0.0]);
    let filters = vec![("tag".to_string(), "x".to_string())];
    let filtered = mixed.query("c", q.clone(), 10, "", true, filters).expect("query");
    let plain = only.query("c", q, 10, "", true, vec![]).expect("query");
    assert_eq!(filtered.len(), plain.len());
    for (f, p) in filtered.iter().zip(plain.iter()) {
        assert_eq!(f.id, p.id);
        assert_eq!(f.score, p.score);
        assert_eq!(f.payload_json, p.payload_json);
    }
}

#[test]
fn number_and_bool_filters_use_canonical_text() {
    let mut state = DbState::with_config(DbStateConfig { enable_wal: false, wal_seed: None });
    state.create_collection("c", 1, "ip").expect("create");
    state
        .upsert(
            "c",
            vec![
                point("n", &[1.0], "{\"k\":0}"),
                point("b", &[1.0], "{\"k\":true}"),
                point("s", &[1.0], "{\"k\":\"0\"}"),
                point("z", &[1.0], "{\"k\":null}"),
            ],
        )
        .expect("upsert");
    let q = bits(&[1.0]);
    let hit = |key: &str, equals: &str, state: &DbState| {
        state
            .query("c", q.clone(), 10, "", true, vec![(key.to_string(), equals.to_string())])
            .expect("query")
    };
    let zero = hit("k", "0", &state);
    assert_eq!(zero.len(), 2); // the number 0 and the string "0"
    let tru = hit("k", "true", &state);
    assert_eq!(tru.len(), 1);
    assert_eq!(tru[0].id, "b");
    let null = hit("k", "null", &state);
    assert_eq!(null.len(), 0); // null never matches
}
