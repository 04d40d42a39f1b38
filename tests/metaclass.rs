use metaclass::alphabet::alphabet_size;
use metaclass::model::Model;
use metaclass::parse::parse_database;
use metaclass::rank::{rank, top_ranked};

fn count(m: &Model, ctx: &[u8], b: u8) -> usize {
    for e in m.table.iter() {
        if e.context.as_slice() == ctx {
            return e.counts[b as usize];
        }
    }
    0
}

fn total(m: &Model, ctx: &[u8]) -> usize {
    for e in m.table.iter() {
        if e.context.as_slice() == ctx {
            return e.total;
        }
    }
    0
}

fn nrc(m: &Model, x: &[u8], alpha: f64) -> f64 {
    if x.len() <= m.ko {
        return 0.0;
    }
    let const_term = alpha * m.alphabet_size as f64;
    let mut sum = 0.0;
    for (c, t) in m.position_counts(x) {
        sum += ((c as f64 + alpha) / (t as f64 + const_term)).ln();
    }
    let bits = -sum / std::f64::consts::LN_2;
    let denominator = x.len() as f64 - (alphabet_size(x) as f64).log2();
    if denominator <= 0.0 {
        0.0
    } else {
        bits / denominator
    }
}

#[test]
fn parse_two_records() {
    let r = parse_database(b"@seq1\nAAAA\n@seq2\nCCGT\n");
    assert_eq!(r.len(), 2);
    assert_eq!(r[0], ("seq1".to_string(), b"AAAA".to_vec()));
    assert_eq!(r[1], ("seq2".to_string(), b"CCGT".to_vec()));
}

#[test]
fn parse_without_markers_is_empty() {
    assert!(parse_database(b"ACGT\nACGT\n").is_empty());
    assert!(parse_database(b"").is_empty());
}

#[test]
fn parse_skips_leading_bytes_and_strips_line_breaks() {
    let r = parse_database(b"junk\n@id one\r\nAC\r\nGT\n\n@last");
    assert_eq!(r.len(), 2);
    assert_eq!(r[0], ("id one\r".to_string(), b"ACGT".to_vec()));
    assert_eq!(r[1], ("last".to_string(), Vec::new()));
}

#[test]
fn parse_decodes_invalid_utf8_lossily() {
    let r = parse_database(b"@a\xffb\nAC");
    assert_eq!(r[0].0, "a\u{FFFD}b");
    assert_eq!(r[0].1, b"AC".to_vec());
}

#[test]
fn alphabet_counts_distinct_bytes() {
    assert_eq!(alphabet_size(b""), 0);
    assert_eq!(alphabet_size(b"AAAA"), 1);
    assert_eq!(alphabet_size(b"ACGTACGT"), 4);
    let all: Vec<u8> = (0..=255u8).collect();
    assert_eq!(alphabet_size(&all), 256);
}

#[test]
fn table_counts_successors() {
    let m = Model::new(b"ACGTACGTACGT", 2);
    assert_eq!(m.ko, 2);
    assert_eq!(m.alphabet_size, 4);
    assert_eq!(m.table.len(), 4);
    assert_eq!(count(&m, b"AC", b'G'), 3);
    assert_eq!(total(&m, b"AC"), 3);
    assert_eq!(count(&m, b"TA", b'C'), 2);
    assert_eq!(total(&m, b"TA"), 2);
    assert_eq!(count(&m, b"GT", b'A'), 2);
    assert_eq!(count(&m, b"GT", b'C'), 0);
    assert_eq!(total(&m, b"TT"), 0);
}

#[test]
fn table_totals_equal_sum_of_counts() {
    let m = Model::new(b"ABRACADABRA ABRACADABRA", 1);
    for e in m.table.iter() {
        assert_eq!(e.counts.len(), 256);
        assert_eq!(e.counts.iter().sum::<usize>(), e.total);
    }
    assert_eq!(total(&m, b"A"), 9);
    assert_eq!(count(&m, b"A", b'B'), 4);
}

#[test]
fn short_training_gives_empty_table() {
    assert!(Model::new(b"ACG", 3).table.is_empty());
    assert!(Model::new(b"ACG", 7).table.is_empty());
    assert!(Model::new(b"", 0).table.is_empty());
    assert_eq!(Model::new(b"ACG", 7).alphabet_size, 3);
}

#[test]
fn order_zero_counts_symbols() {
    let m = Model::new(b"AAB", 0);
    assert_eq!(m.table.len(), 1);
    assert_eq!(count(&m, b"", b'A'), 2);
    assert_eq!(total(&m, b""), 3);
}

#[test]
fn position_counts_per_window() {
    let m = Model::new(b"ACGTACGTACGT", 2);
    assert_eq!(m.position_counts(b"ACGTT"), vec![(3, 3), (3, 3), (0, 2)]);
    assert!(m.position_counts(b"AC").is_empty());
    assert_eq!(m.position_counts(b"XYZ"), vec![(0, 0)]);
}

#[test]
fn nrc_of_short_sequence_is_zero() {
    let m = Model::new(b"ACGTACGTACGT", 2);
    assert_eq!(nrc(&m, b"AC", 1.0), 0.0);
    assert_eq!(nrc(&m, b"", 0.5), 0.0);
    let empty = Model::new(b"", 5);
    assert_eq!(nrc(&empty, b"ACGTA", 3.0), 0.0);
}

#[test]
fn nrc_is_not_negative() {
    let m = Model::new(b"ACGTACGTACGT", 2);
    for x in [&b"ACGTACGTACGT"[..], b"TTTTTTTTTTTT", b"GATTACA", b"ACA", b"ZZZZZZ"] {
        for alpha in [0.01, 1.0, 100.0] {
            assert!(nrc(&m, x, alpha) >= 0.0);
        }
    }
}

#[test]
fn end_to_end_self_versus_absent_symbol() {
    let m = Model::new(b"ACGTACGTACGT", 2);
    let same = nrc(&m, b"ACGTACGTACGT", 1.0);
    let other = nrc(&m, b"TTTTTTTTTTTT", 1.0);
    // 6 positions of probability 4/7 and 4 of probability 1/2, over 12 - log2(4).
    let expected = -(6.0 * (4.0f64 / 7.0).ln() + 4.0 * 0.5f64.ln()) / std::f64::consts::LN_2 / 10.0;
    assert!((same - expected).abs() < 1e-12);
    // Every window of the other is unseen: 2 bits at each of 10 positions, over 12 - log2(1).
    assert!((other - 20.0 / 12.0).abs() < 1e-12);
    assert!(same < 1.0);
    assert!(other > 1.5 * same);
}

#[test]
fn self_similarity_beats_high_entropy() {
    let train = b"ACGGTCAACGGTCAACGGTCAACGGTCAACGGTCA";
    let m = Model::new(train, 2);
    let repeated = b"ACGGTCAACGGTCAACGGTCAACGGTCAACGGTCAACGGTCA";
    let mut state: u32 = 12345;
    let mut random = Vec::new();
    for _ in 0..repeated.len() {
        state = state.wrapping_mul(1103515245).wrapping_add(12345);
        random.push(b"ACGT"[((state >> 16) % 4) as usize]);
    }
    assert!(nrc(&m, repeated, 1.0) < 0.5 * nrc(&m, &random, 1.0));
}

#[test]
fn large_alpha_flattens_scores() {
    let m = Model::new(b"ACGTACGTACGT", 2);
    let a = b"ACGTACGTACGT";
    let b = b"AGCTTGCAATCG";
    let small = (nrc(&m, a, 1.0) - nrc(&m, b, 1.0)).abs();
    let large = (nrc(&m, a, 1e9) - nrc(&m, b, 1e9)).abs();
    assert!(large < 1e-6);
    assert!(large < small);
}

#[test]
fn rank_orders_by_key_and_keeps_ties_in_input_order() {
    assert_eq!(rank(&vec![5, 1, 3, 1, 0]), vec![4, 1, 3, 2, 0]);
    assert_eq!(rank(&vec![]), Vec::<usize>::new());
    assert_eq!(rank(&vec![7, 7, 7]), vec![0, 1, 2]);
    assert_eq!(rank(&vec![u64::MAX, 2, u64::MAX, 0]), vec![3, 1, 0, 2]);
}

#[test]
fn rank_twice_gives_same_order() {
    let keys = vec![9, 3, 3, 8, 0, 3, 9];
    assert_eq!(rank(&keys), rank(&keys));
}

#[test]
fn top_ranked_truncates() {
    let keys = vec![5, 1, 3, 1, 0];
    assert_eq!(top_ranked(&keys, 2), vec![4, 1]);
    assert_eq!(top_ranked(&keys, 0), Vec::<usize>::new());
    assert_eq!(top_ranked(&keys, 20), vec![4, 1, 3, 2, 0]);
}
