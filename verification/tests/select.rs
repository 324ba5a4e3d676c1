use spark_model::float_bits::NEG_INFINITY;
use spark_model::index_select::{index_ready, index_selection_if_settled, IndexRequest};
use spark_model::select::{candidate_blocks_if_settled, select_candidate_blocks};

fn bits(v: &[f32]) -> Vec<u32> {
    v.iter().map(|x| x.to_bits()).collect()
}

const NI: f32 = f32::NEG_INFINITY;

fn request() -> IndexRequest {
    IndexRequest {
        m: 3,
        start_pos: 0,
        offset: 3,
        ratio: 1,
        index_topk: 2,
        cand_topk_blocks: 1,
        cand_block: 2,
        is_candidate_source: false,
        uses_candidates: false,
    }
}

#[test]
fn the_newest_block_is_always_a_candidate() {
    let row = bits(&[5.0, 1.0, 0.0, 0.0, 9.0, NI]);
    let keep = select_candidate_blocks(&row, 1, 6, &[3], 2, 2);
    assert_eq!(keep, vec![false, false, true, true, true, true]);
}

#[test]
fn without_a_newest_position_scores_decide() {
    let row = bits(&[5.0, 1.0, 0.0, 0.0, 9.0, NI]);
    let keep = select_candidate_blocks(&row, 1, 6, &[0], 2, 2);
    assert_eq!(keep, vec![true, true, false, false, true, true]);
}

#[test]
fn a_newest_position_behind_the_row_pins_nothing() {
    let row = bits(&[5.0, 1.0, 0.0, 0.0, 9.0, NI]);
    let keep = select_candidate_blocks(&row, 1, 6, &[7], 1, 2);
    assert_eq!(keep, vec![false, false, false, false, true, true]);
}

#[test]
fn blocks_without_any_score_are_no_candidates() {
    let keep = select_candidate_blocks(&[NEG_INFINITY; 6], 1, 6, &[0], 3, 2);
    assert_eq!(keep, vec![false; 6]);
}

#[test]
fn the_last_block_may_be_shorter_and_queries_are_apart() {
    let rows = bits(&[1.0, 2.0, 3.0, 4.0, 5.0, 5.0, 1.0, NI, NI, NI]);
    let keep = select_candidate_blocks(&rows, 2, 5, &[1, 1], 1, 3);
    assert_eq!(
        keep,
        vec![true, true, true, false, false, true, true, true, false, false]
    );
    let two = candidate_blocks_if_settled(&rows, 2, 5, &[1, 1], 2, 3).unwrap();
    assert_eq!(
        two,
        vec![true, true, true, true, true, true, true, true, false, false]
    );
}

#[test]
fn a_prefill_reaches_only_what_is_complete() {
    let score = bits(&[1.0, 9.0, 9.0, 5.0, 4.0, 9.0, 1.0, 2.0, 3.0]);
    let sel = index_selection_if_settled(&score, &request(), &[]).unwrap();
    assert_eq!(sel.topk, 2);
    assert_eq!(sel.idx, vec![3, -1, 3, 4, 4, 5]);
    assert!(sel.candidates.is_none());
}

#[test]
fn at_a_higher_ratio_groups_have_to_be_complete() {
    let req = IndexRequest { ratio: 2, m: 4, index_topk: 5, ..request() };
    // width 2; the queries reach 0, 1, 1 and 2 groups
    let score = bits(&[1.0, 2.0, 3.0, 4.0, 5.0, 6.0, 7.0, 8.0]);
    let sel = index_selection_if_settled(&score, &req, &[]).unwrap();
    assert_eq!(sel.topk, 2);
    assert_eq!(sel.idx, vec![-1, -1, 3, -1, 3, -1, 3, 4]);
}

#[test]
fn a_decode_reaches_all_and_respects_candidates() {
    let req = IndexRequest {
        m: 1,
        start_pos: 3,
        offset: 10,
        uses_candidates: true,
        ..request()
    };
    let score = bits(&[4.0, 3.0, 2.0, 1.0]);
    let sel = index_selection_if_settled(&score, &req, &[false, true, true, false]).unwrap();
    assert_eq!(sel.idx, vec![11, 12]);
}

#[test]
fn a_candidate_source_publishes_and_ignores_older_candidates() {
    let req = IndexRequest {
        m: 1,
        start_pos: 3,
        offset: 10,
        is_candidate_source: true,
        uses_candidates: true,
        ..request()
    };
    let score = bits(&[4.0, 3.0, 2.0, 1.0]);
    let sel = index_selection_if_settled(&score, &req, &[]).unwrap();
    assert_eq!(sel.idx, vec![10, 11]);
    // the newest position is 3, in the second block
    assert_eq!(sel.candidates, Some(vec![false, false, true, true]));
}

#[test]
fn readiness_is_range_and_settling() {
    let score = bits(&[1.0; 9]);
    assert!(index_ready(&score, &request(), &[]));
    assert!(!index_ready(&score[..8], &request(), &[]));
    assert!(!index_ready(&score, &IndexRequest { ratio: 0, ..request() }, &[]));
    assert!(!index_ready(&score, &IndexRequest { index_topk: 0, ..request() }, &[]));
    assert!(!index_ready(&score, &IndexRequest { uses_candidates: true, ..request() }, &[true; 8]));
    assert!(index_ready(&score, &IndexRequest { uses_candidates: true, ..request() }, &[true; 9]));
    let source = IndexRequest { is_candidate_source: true, ..request() };
    assert!(index_ready(&score, &source, &[]));
    assert!(!index_ready(&score, &IndexRequest { cand_block: 0, ..source }, &[]));
    assert!(!index_ready(&score, &IndexRequest { cand_topk_blocks: 0, ..source }, &[]));
    assert!(!index_ready(&score, &IndexRequest { offset: usize::MAX, ..request() }, &[]));
    assert!(!index_ready(&score, &IndexRequest { start_pos: usize::MAX, ..request() }, &[]));
}

#[test]
fn a_selection_that_does_not_settle_is_not_ready() {
    let n = 64usize;
    let k = n / 2;
    let mut row = vec![0f32; n];
    for i in 1..=k {
        if i % 2 == 1 {
            row[i - 1] = i as f32;
            row[i] = (k + i) as f32;
        }
        row[k + i - 1] = (2 * i) as f32;
    }
    let req = IndexRequest {
        m: 1,
        start_pos: n - 1,
        index_topk: 16,
        ..request()
    };
    assert!(!index_ready(&bits(&row), &req, &[]));
    assert!(index_selection_if_settled(&bits(&row), &req, &[]).is_none());
}

#[test]
fn rows_take_the_best_reachable_positions_in_order() {
    let m = 6usize;
    let score: Vec<f32> = (0..m * m).map(|i| ((i * 7 + 3) % 11) as f32).collect();
    let req = IndexRequest { m, offset: 20, index_topk: 3, ..request() };
    let sel = index_selection_if_settled(&bits(&score), &req, &[]).unwrap();
    for t in 0..m {
        let (line, reach) = (&sel.idx[t * 3..(t + 1) * 3], t + 1);
        let taken = reach.min(3);
        assert!(line[..taken].iter().all(|&e| (20..20 + reach as i32).contains(&e)));
        assert!(line[..taken].windows(2).all(|w| w[0] < w[1]));
        assert!(line[taken..].iter().all(|&e| e == -1));
        for p in 0..reach {
            if !line.contains(&(20 + p as i32)) {
                for &e in &line[..taken] {
                    assert!(score[t * m + p] <= score[t * m + (e - 20) as usize]);
                }
            }
        }
    }
}

#[test]
fn a_wide_top_k_takes_all_that_is_reached() {
    let req = IndexRequest { index_topk: 9, uses_candidates: true, ..request() };
    let score = bits(&[NI, 9.0, f32::NAN, 5.0, NI, 9.0, 1.0, 2.0, 3.0]);
    let mask = [false, true, false, true, false, false, true, false, false];
    let sel = index_selection_if_settled(&score, &req, &mask).unwrap();
    assert_eq!(sel.idx, vec![3, -1, -1, 3, 4, -1, 3, 4, 5]);
}

#[test]
fn kept_blocks_are_the_best_within_the_budget() {
    let scores: Vec<f32> = (0..14).map(|i| ((i * 5 + 2) % 13) as f32).collect();
    let best = |b: usize| scores[2 * b..2 * b + 2].iter().fold(NI, |a, &x| a.max(x));
    for budget in 1..=7usize {
        let keep = select_candidate_blocks(&bits(&scores), 1, 14, &[6], budget, 2);
        let kept: Vec<usize> = (0..7).filter(|&b| keep[2 * b]).collect();
        assert!(kept.len() <= budget && kept.contains(&2));
        for b in (0..7).filter(|b| !kept.contains(b)) {
            for &k in kept.iter().filter(|&&k| k != 2) {
                assert!(best(b) <= best(k));
            }
        }
    }
}
