use vectaraft::wal::{encode_line, parse_line, Wal, WalError, WalRecord};

fn upsert(collection: &str, id: &str, vector: Vec<u32>, payload: &str, ts: i64) -> WalRecord {
    WalRecord::Upsert {
        collection: collection.to_string(),
        id: id.to_string(),
        vector,
        payload_json: payload.to_string(),
        ts_ms: ts,
    }
}

fn create(name: &str, dim: u32, metric: &str, ts: i64) -> WalRecord {
    WalRecord::CreateCollection {
        name: name.to_string(),
        dim,
        metric: metric.to_string(),
        ts_ms: ts,
    }
}

fn assert_roundtrip(rec: &WalRecord) {
    let line = encode_line(rec);
    let back = parse_line(&line).expect("parse");
    match (rec, &back) {
        (
            WalRecord::Upsert { collection, id, vector, payload_json, ts_ms },
            WalRecord::Upsert {
                collection: c2,
                id: i2,
                vector: v2,
                payload_json: p2,
                ts_ms: t2,
            },
        ) => {
            assert_eq!(collection, c2);
            assert_eq!(id, i2);
            assert_eq!(vector, v2);
            assert_eq!(payload_json, p2);
            assert_eq!(ts_ms, t2);
        },
        (
            WalRecord::CreateCollection { name, dim, metric, ts_ms },
            WalRecord::CreateCollection { name: n2, dim: d2, metric: m2, ts_ms: t2 },
        ) => {
            assert_eq!(name, n2);
            assert_eq!(dim, d2);
            assert_eq!(metric, m2);
            assert_eq!(ts_ms, t2);
        },
        _ => panic!("variant changed in round trip"),
    }
}

#[test]
fn records_round_trip() {
    assert_roundtrip(&create("demo", 4, "cosine", 123));
    assert_roundtrip(&create("", 0, "", -1));
    assert_roundtrip(&create("with \"quotes\" and \\slashes\\", u32::MAX, "l2", i64::MIN));
    assert_roundtrip(&upsert("demo", "persist", vec![0, 1, u32::MAX], "{\"hello\":true}", 7));
    assert_roundtrip(&upsert("demo", "", vec![], "", i64::MAX));
    assert_roundtrip(&upsert(
        "c",
        "line\nbreak\tand\rcontrols\u{1}",
        vec![1065353216],
        "{\"k\":\"va\\l\\\"ue\"}",
        0,
    ));
}

#[test]
fn encoded_lines_are_single_json_lines() {
    let line = encode_line(&upsert("demo", "a\nb", vec![5], "{}", 1));
    let text: String = line.iter().collect();
    assert!(!text.contains('\n'));
    assert!(text.starts_with("{\"type\":\"Upsert\""));
    assert!(text.ends_with('}'));
}

#[test]
fn replay_reads_back_appends_in_order_and_skips_blanks() {
    let mut wal = Wal::open("  \r\n\n".chars().collect());
    wal.append(&create("demo", 3, "l2", 1));
    wal.append(&upsert("demo", "a", vec![1, 2, 3], "{}", 2));
    let recs = wal.replay().expect("replay");
    assert_eq!(recs.len(), 2);
    match &recs[0] {
        WalRecord::CreateCollection { name, dim, .. } => {
            assert_eq!(name, "demo");
            assert_eq!(*dim, 3);
        },
        _ => panic!("first record should be the creation"),
    }
    match &recs[1] {
        WalRecord::Upsert { id, vector, .. } => {
            assert_eq!(id, "a");
            assert_eq!(vector, &vec![1, 2, 3]);
        },
        _ => panic!("second record should be the upsert"),
    }
}

#[test]
fn replay_reports_the_first_corrupt_line() {
    let mut wal = Wal::open(Vec::new());
    wal.append(&create("demo", 3, "l2", 1));
    let mut text = wal.contents.clone();
    text.extend("not json\n".chars());
    let wal = Wal::open(text);
    assert_eq!(wal.replay().unwrap_err(), WalError::CorruptWal(1));
}
