use vectaraft::index::FlatIndex;
use vectaraft::types::Metric;

fn bits(v: &[f32]) -> Vec<u32> {
    v.iter().map(|x| x.to_bits()).collect()
}

fn filled(dim: usize, metric: Metric, rows: &[&[f32]]) -> FlatIndex {
    let mut idx = FlatIndex::new(dim, metric);
    let ids: Vec<String> = (0..rows.len()).map(|i| format!("r{i}")).collect();
    let vecs: Vec<Vec<u32>> = rows.iter().map(|r| bits(r)).collect();
    let payloads: Vec<String> = rows.iter().map(|_| String::new()).collect();
    idx.add_batch(ids, vecs, payloads).expect("add");
    idx
}

#[test]
fn vector_column_length_follows_rows() {
    let idx = filled(3, Metric::L2, &[&[1.0, 0.0, 0.0], &[0.0, 1.0, 0.0]]);
    assert_eq!(idx.len(), 2);
    assert_eq!(idx.vectors.len(), idx.len() * idx.dim);
}

#[test]
fn row_count_never_decreases_under_upserts() {
    let mut idx = FlatIndex::new(2, Metric::IP);
    let mut last = idx.len();
    for i in 0..4 {
        let _ = idx.add_batch(
            vec![format!("{i}")],
            vec![bits(&[i as f32, 1.0])],
            vec![String::new()],
        );
        assert!(idx.len() >= last);
        last = idx.len();
    }
    // A rejected batch changes nothing.
    assert!(idx.add_batch(vec!["x".into()], vec![bits(&[1.0])], vec![String::new()]).is_err());
    assert_eq!(idx.len(), last);
}

#[test]
fn topk_is_sorted_and_cut_to_k() {
    let idx = filled(
        2,
        Metric::IP,
        &[&[1.0, 0.0], &[3.0, 0.0], &[2.0, 0.0], &[5.0, 0.0], &[4.0, 0.0]],
    );
    let q = bits(&[1.0, 0.0]);
    for k in 0..7usize {
        let hits = idx.search_topk(&q, k, None);
        assert_eq!(hits.len(), k.min(idx.len()));
        for w in hits.windows(2) {
            let a = f32::from_bits(w[0].1);
            let b = f32::from_bits(w[1].1);
            assert!(a >= b, "not sorted: {a} then {b}");
        }
    }
    let top = idx.search_topk(&q, 2, None);
    assert_eq!(top[0].0, 3); // 5.0 scores highest
    assert_eq!(top[1].0, 4);
}

#[test]
fn empty_index_and_zero_k_yield_nothing() {
    let idx = FlatIndex::new(2, Metric::L2);
    assert!(idx.search_topk(&bits(&[0.0, 0.0]), 3, None).is_empty());
    let idx = filled(2, Metric::L2, &[&[1.0, 1.0]]);
    assert!(idx.search_topk(&bits(&[0.0, 0.0]), 0, None).is_empty());
}

#[test]
fn ties_break_by_ascending_row_index() {
    // Two identical rows (a duplicate id upserted twice): both stay, the
    // earlier row comes first on a tie.
    let idx = filled(2, Metric::L2, &[&[1.0, 0.0], &[1.0, 0.0]]);
    assert_eq!(idx.len(), 2);
    let hits = idx.search_topk(&bits(&[1.0, 0.0]), 2, None);
    assert_eq!(hits[0].0, 0);
    assert_eq!(hits[1].0, 1);
}

#[test]
fn nan_scores_sink_below_everything() {
    let idx = filled(2, Metric::IP, &[&[f32::NAN, 0.0], &[1.0, 0.0], &[2.0, 0.0]]);
    let hits = idx.search_topk(&bits(&[1.0, 0.0]), 3, None);
    assert_eq!(hits[0].0, 2);
    assert_eq!(hits[1].0, 1);
    assert!(f32::from_bits(hits[2].1).is_nan());
}

#[test]
fn zero_query_under_cosine_scores_zero() {
    let idx = filled(2, Metric::Cosine, &[&[1.0, 2.0], &[3.0, -4.0]]);
    let hits = idx.search_topk(&bits(&[0.0, 0.0]), 2, None);
    for h in hits {
        assert_eq!(f32::from_bits(h.1), 0.0);
    }
}

#[test]
fn metric_override_changes_only_ordering() {
    let rows: &[&[f32]] = &[&[1.0, 0.0], &[10.0, 10.0]];
    let q = bits(&[1.0, 0.0]);
    let a = filled(2, Metric::L2, rows);
    let b = filled(2, Metric::IP, rows);
    // Querying the L2 index with an IP override equals querying an index
    // configured with IP from the start.
    let via_override = a.search_topk(&q, 2, Some(Metric::IP));
    let via_config = b.search_topk(&q, 2, None);
    assert_eq!(via_override, via_config);
    // And the stored data is untouched by the override.
    assert_eq!(a.vectors, b.vectors);
}

#[test]
fn scores_match_hardware_float_kernels() {
    let rows: &[&[f32]] = &[&[0.25, -1.5, 3.0], &[2.0, 2.0, 2.0], &[-1.0, 0.5, 0.125]];
    let qf = [0.9f32, 0.1, -0.4];
    let q = bits(&qf);

    let l2 = |v: &[f32]| {
        let mut s = 0.0f32;
        for i in 0..3 {
            let d = qf[i] - v[i];
            s += d * d;
        }
        -s
    };
    let ip = |v: &[f32]| {
        let mut s = 0.0f32;
        for i in 0..3 {
            s += qf[i] * v[i];
        }
        s
    };
    let cosine = |v: &[f32]| {
        let mut dot = 0.0f32;
        let mut qq = 0.0f32;
        let mut vv = 0.0f32;
        for i in 0..3 {
            dot += qf[i] * v[i];
            qq += qf[i] * qf[i];
            vv += v[i] * v[i];
        }
        let nq = qq.sqrt();
        let nv = vv.sqrt();
        if nq == 0.0 || nv == 0.0 { 0.0 } else { dot / (nq * nv) }
    };

    let idx = filled(3, Metric::L2, rows);
    for (row, score) in idx.search_topk(&q, 3, None) {
        assert_eq!(f32::from_bits(score), l2(rows[row]), "l2 row {row}");
    }
    let idx = filled(3, Metric::IP, rows);
    for (row, score) in idx.search_topk(&q, 3, None) {
        assert_eq!(f32::from_bits(score), ip(rows[row]), "ip row {row}");
    }
    let idx = filled(3, Metric::Cosine, rows);
    for (row, score) in idx.search_topk(&q, 3, None) {
        assert_eq!(f32::from_bits(score), cosine(rows[row]), "cosine row {row}");
    }
}
