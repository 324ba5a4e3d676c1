use spark_model::compress::{
    attend_window, attention_any, compress_layer, compressor, indexer, indexer_settles, latent_positions, merge_index,
    publish_index_keys, CompAttnCfg, CompressorState, IndexerCfg, LayerAttnState, SharedRuntime,
};
use spark_model::float_bits::NEG_INFINITY;
use spark_model::window::write_window;

fn cfg(ratio: usize) -> CompAttnCfg {
    CompAttnCfg {
        dim: 4,
        n_heads: 1,
        head_dim: 1,
        rope_dim: 0,
        q_rank: 1,
        o_rank: 1,
        groups: 1,
        window: 4,
        eps: 0,
        ratio,
        is_kv_source: true,
        is_index_source: true,
        is_candidate_source: false,
        uses_candidates: false,
    }
}

fn icfg() -> IndexerCfg {
    IndexerCfg {
        n_heads: 1,
        index_hd: 1,
        rope_dim: 0,
        q_rank: 1,
        dim: 4,
        hd: 1,
        index_topk: 2,
        cand_topk_blocks: 1,
        cand_block: 2,
        eps: 0,
    }
}

fn bits(v: &[f32]) -> Vec<u32> {
    v.iter().map(|x| x.to_bits()).collect()
}

#[test]
fn a_short_prefill_goes_to_the_front_of_the_ring() {
    let mut window = vec![0, 0, 0, 0];
    write_window(&mut window, &[10, 11], 2, 0, 4, 1);
    assert_eq!(window, vec![10, 11, 0, 0]);
}

#[test]
fn a_long_prefill_leaves_the_newest_rows_in_their_slots() {
    let mut window = vec![9, 9, 9, 9];
    write_window(&mut window, &[10, 11, 12, 13, 14, 15], 6, 0, 4, 1);
    assert_eq!(window, vec![14, 15, 12, 13]);
    write_window(&mut window, &[16], 1, 6, 4, 1);
    assert_eq!(window, vec![14, 15, 16, 13]);
    write_window(&mut window, &[17], 1, 7, 4, 1);
    assert_eq!(window, vec![14, 15, 16, 17]);
}

#[test]
fn rows_of_more_values_stay_together() {
    let mut window = vec![0; 6];
    write_window(&mut window, &[1, 2, 3, 4, 5, 6, 7, 8], 4, 0, 3, 2);
    assert_eq!(window, vec![7, 8, 3, 4, 5, 6]);
}

#[test]
fn a_compressor_starts_empty() {
    let st = CompressorState::new(2, 3);
    assert_eq!(st.kv_state, vec![0; 6]);
    assert_eq!(st.score_state, vec![NEG_INFINITY; 6]);
}

#[test]
fn a_prefill_leaves_its_incomplete_group_behind() {
    let mut st = CompressorState::new(2, 1);
    let p = compressor(&[1, 2, 3], &[4, 5, 6], 3, 0, 2, 1, &mut st).unwrap();
    assert_eq!((p.kv, p.score, p.groups), (vec![1, 2], vec![4, 5], 1));
    assert_eq!(st.kv_state, vec![3, 0]);
    assert_eq!(st.score_state, vec![6, NEG_INFINITY]);
    // the next position completes the group
    let p = compressor(&[7], &[8], 1, 3, 2, 1, &mut st).unwrap();
    assert_eq!((p.kv, p.score, p.groups), (vec![3, 7], vec![6, 8], 1));
    // and the one after it opens another
    assert!(compressor(&[9], &[9], 1, 4, 2, 1, &mut st).is_none());
    assert_eq!(st.kv_state, vec![9, 7]);
}

#[test]
fn a_prefill_shorter_than_a_group_pools_nothing() {
    let mut st = CompressorState::new(3, 1);
    assert!(compressor(&[1, 2], &[3, 4], 2, 0, 3, 1, &mut st).is_none());
    assert_eq!(st.kv_state, vec![1, 2, 0]);
}

#[test]
fn ratio_one_passes_rows_through() {
    let mut st = CompressorState::new(1, 2);
    let p = compressor(&[1, 2, 3, 4], &[], 2, 0, 1, 2, &mut st).unwrap();
    assert_eq!((p.kv, p.score, p.groups), (vec![1, 2, 3, 4], vec![], 2));
    assert_eq!(st.kv_state, vec![0, 0]);
}

#[test]
fn latents_take_the_first_position_of_their_group() {
    assert_eq!(latent_positions(3, 2, 0), vec![0, 2, 4]);
    assert_eq!(latent_positions(1, 2, 5), vec![4]);
    assert_eq!(latent_positions(1, 1, 5), vec![5]);
}

#[test]
fn state_follows_the_role() {
    let st = LayerAttnState::new(&cfg(2), 9, 3);
    assert_eq!(st.window.len(), 4);
    assert_eq!(st.compressor.unwrap().kv_state.len(), 2);
    assert_eq!(st.compress_kv_cache.unwrap().len(), 4);
    assert_eq!(st.k_cache.unwrap().len(), 12);
    let st = LayerAttnState::new(&CompAttnCfg { is_kv_source: false, ..cfg(2) }, 9, 3);
    assert!(st.compressor.is_none() && st.compress_kv_cache.is_none() && st.k_cache.is_none());
    let st = LayerAttnState::new(&cfg(0), 9, 3);
    assert_eq!(st.compress_kv_cache.unwrap().len(), 0);
    assert_eq!(st.compressor.unwrap().kv_state.len(), 1);
}

#[test]
fn rows_are_merged_per_query() {
    assert_eq!(
        merge_index(&[1, 2, 3, 4], 2, &[5, 6], 1, 2),
        vec![1, 2, 5, 3, 4, 6]
    );
}

#[test]
fn a_layer_through_prefill_and_decode() {
    let c = cfg(2);
    let ic = icfg();
    let mut st = LayerAttnState::new(&c, 8, 1);
    let mut shared = SharedRuntime::default();
    // prefill of five positions: two groups, and one row left over
    let rows = attend_window(&[50, 51, 52, 53, 54], 5, 0, &c, &mut st);
    assert_eq!(rows, vec![50, 51, 52, 53, 54]);
    assert_eq!(st.window, vec![54, 51, 52, 53]);
    let pool = compress_layer(&[1, 2, 3, 4, 5], &[0; 5], 5, 0, &c, &mut st, &mut shared).unwrap();
    assert_eq!(pool.groups, 2);
    let mut keys = st.k_cache.take().unwrap();
    publish_index_keys(&[70, 71], 0, 2, 1, &mut keys, &mut shared);
    assert_eq!(shared.index_k, vec![70, 71, 0, 0]);
    st.k_cache = Some(keys);
    let score = bits(&[1.0, 2.0, 1.0, 2.0, 1.0, 2.0, 1.0, 2.0, 1.0, 2.0]);
    assert!(indexer_settles(&score, 5, 0, 5, 2, &ic, &shared, false, false));
    let sel = indexer(&score, 5, 0, 5, 2, &ic, &mut shared, false, false);
    assert_eq!(sel, (vec![-1, -1, 5, -1, 5, -1, 5, 6, 5, 6], 2));
    let window_idx: Vec<i32> = vec![0, -1, 0, 1, 1, 2, 2, 3, 3, 4];
    let run = attention_any(5, 0, rows, Some(vec![90, 91]), window_idx, 2, sel, &c, &mut st, &mut shared);
    assert_eq!(run.kv_rows, vec![50, 51, 52, 53, 54, 90, 91]);
    assert_eq!(run.topk, 4);
    assert_eq!(&run.idx[..8], &[0, -1, -1, -1, 0, 1, 5, -1]);
    assert_eq!(shared.topk, 2);
    // the sixth position completes the third group
    let rows = attend_window(&[55], 1, 5, &c, &mut st);
    assert_eq!(rows, vec![54, 55, 52, 53]);
    let pool = compress_layer(&[6], &[0], 1, 5, &c, &mut st, &mut shared).unwrap();
    assert_eq!(pool.kv, vec![5, 6]);
    let sel = indexer(&bits(&[3.0, 1.0, 2.0]), 1, 5, 4, 2, &ic, &mut shared, false, false);
    assert_eq!(sel, (vec![4, 6], 2));
    let run = attention_any(1, 5, rows, Some(vec![92]), vec![2, 3], 2, sel, &c, &mut st, &mut shared);
    assert_eq!(run.kv_rows, vec![54, 55, 52, 53, 90, 91, 92]);
    assert_eq!(run.idx, vec![2, 3, 4, 6]);
    assert_eq!(st.compress_kv_cache.unwrap(), vec![90, 91, 92, 0]);
}

#[test]
fn a_layer_between_sources_reuses_what_was_published() {
    let c = CompAttnCfg { is_kv_source: false, is_index_source: false, ..cfg(1) };
    let mut st = LayerAttnState::new(&c, 8, 1);
    let mut shared = SharedRuntime {
        compress_kv: vec![90, 91, 92],
        topk_idxs: vec![2, -1],
        topk: 1,
        ..SharedRuntime::default()
    };
    let run = attention_any(
        2,
        0,
        vec![1, 2],
        None,
        vec![0, 1],
        1,
        (vec![], 0),
        &c,
        &mut st,
        &mut shared,
    );
    assert_eq!(run.kv_rows, vec![1, 2, 90, 91]);
    assert_eq!((run.idx, run.topk), (vec![0, 2, 1, -1], 2));
}

#[test]
fn an_uncompressed_layer_sees_its_window_only() {
    let c = CompAttnCfg { is_kv_source: false, is_index_source: false, ..cfg(0) };
    let mut st = LayerAttnState::new(&c, 8, 1);
    let mut shared = SharedRuntime::default();
    let run = attention_any(1, 0, vec![7], None, vec![0], 1, (vec![], 0), &c, &mut st, &mut shared);
    assert_eq!((run.kv_rows, run.idx, run.topk), (vec![7], vec![0], 1));
}

#[test]
fn candidates_are_published_by_their_source() {
    let ic = icfg();
    let mut shared = SharedRuntime::default();
    let score = bits(&[4.0, 3.0, 2.0, 1.0]);
    let sel = indexer(&score, 1, 3, 4, 1, &ic, &mut shared, true, false);
    assert_eq!(sel, (vec![4, 5], 2));
    assert_eq!(shared.candidates, vec![false, false, true, true]);
    assert_eq!(shared.cand_width, 4);
    let sel = indexer(&score, 1, 3, 4, 1, &ic, &mut shared, false, true);
    assert_eq!(sel, (vec![6, 7], 2));
}

#[test]
fn decodes_behind_a_prefill_pool_as_one_prefill() {
    let hd = 2usize;
    for ratio in [1usize, 2, 3] {
        for len in 1..8usize {
            let kv: Vec<u32> = (0..(len * hd) as u32).map(|i| 100 + i).collect();
            let score: Vec<u32> = kv.iter().map(|x| x * 7).collect();
            let mut st = CompressorState::new(ratio, hd);
            let whole = compressor(&kv, &score, len, 0, ratio, hd, &mut st);
            let want = match whole {
                Some(p) => (p.kv, p.score),
                None => (Vec::new(), Vec::new()),
            };
            for first in 1..=len {
                let mut st = CompressorState::new(ratio, hd);
                let mut got = (Vec::new(), Vec::new());
                let n = first * hd;
                if let Some(p) = compressor(&kv[..n], &score[..n], first, 0, ratio, hd, &mut st) {
                    got = (p.kv, p.score);
                }
                for t in first..len {
                    let at = t * hd..(t + 1) * hd;
                    if let Some(p) = compressor(&kv[at.clone()], &score[at], 1, t, ratio, hd, &mut st) {
                        got.0.extend(p.kv);
                        got.1.extend(p.score);
                    }
                }
                assert_eq!(got, want);
            }
        }
    }
}

#[test]
fn empty_rows_are_taken_where_nothing_is_pooled() {
    let mut st = CompressorState::new(1, 0);
    assert_eq!(compressor(&[], &[], 3, 0, 1, 0, &mut st).unwrap().groups, 3);
    let mut st = CompressorState::new(4, 0);
    assert!(compressor(&[], &[], 3, 0, 4, 0, &mut st).is_none());
}
