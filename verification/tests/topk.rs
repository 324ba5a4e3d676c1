use spark_model::topk::{topk_set_if_settled, torch_cpu_topk_set};

fn bits(v: &[f32]) -> Vec<u32> {
    v.iter().map(|x| x.to_bits()).collect()
}

const NI: f32 = f32::NEG_INFINITY;

/// Values that make every median of three a bad pivot.
fn median_killer(n: usize) -> Vec<f32> {
    let k = n / 2;
    let mut a = vec![0f32; n];
    for i in 1..=k {
        if i % 2 == 1 {
            a[i - 1] = i as f32;
            a[i] = (k + i) as f32;
        }
        a[k + i - 1] = (2 * i) as f32;
    }
    a
}

#[test]
fn three_values_are_sorted() {
    assert_eq!(torch_cpu_topk_set(&bits(&[3.0, 1.0, 2.0]), 2), vec![0, 2]);
}

#[test]
fn ties_come_in_the_order_that_the_partition_leaves() {
    assert_eq!(torch_cpu_topk_set(&bits(&[1.0; 8]), 3), vec![6, 5, 4]);
    assert_eq!(torch_cpu_topk_set(&bits(&[NI; 10]), 4), vec![8, 6, 7, 5]);
    let v = [0.5, NI, 2.0, NI, 2.0, 1.0, NI, 2.0, 0.25, NI];
    assert_eq!(torch_cpu_topk_set(&bits(&v), 5), vec![2, 4, 7, 5, 0]);
}

#[test]
fn nan_is_picked_and_zeros_tie() {
    let v = [1.0, f32::NAN, 3.0, 2.0, -0.0, 0.0, 7.0];
    assert_eq!(torch_cpu_topk_set(&bits(&v), 4), vec![6, 1, 2, 3]);
}

#[test]
fn sorted_rows_in_both_directions() {
    let up: Vec<f32> = (0..16).map(|i| i as f32).collect();
    let down: Vec<f32> = (0..16).map(|i| -(i as f32)).collect();
    assert_eq!(torch_cpu_topk_set(&bits(&up), 4), vec![14, 15, 13, 12]);
    assert_eq!(torch_cpu_topk_set(&bits(&down), 4), vec![1, 0, 2, 3]);
}

#[test]
fn repeated_values_of_a_longer_row() {
    let v: Vec<f32> = (0..32).map(|i| ((i * 7) % 13) as f32).collect();
    assert_eq!(torch_cpu_topk_set(&bits(&v), 6), vec![22, 11, 24, 20, 9, 7]);
}

#[test]
fn all_of_a_row_is_a_permutation() {
    let v: Vec<f32> = (0..50).map(|i| ((i * 37) % 101) as f32).collect();
    let mut picked = torch_cpu_topk_set(&bits(&v), 50);
    picked.sort();
    assert_eq!(picked, (0..50).collect::<Vec<usize>>());
}

#[test]
fn nothing_left_out_is_larger_than_what_was_picked() {
    let mut x: u32 = 12345;
    for n in [1usize, 4, 17, 63, 200] {
        let v: Vec<f32> = (0..n)
            .map(|_| {
                x = x.wrapping_mul(1664525).wrapping_add(1013904223);
                ((x >> 16) % 41) as f32 - 20.0
            })
            .collect();
        for k in [1usize, n.div_ceil(3), n] {
            if k * 64 <= n {
                continue;
            }
            let picked = topk_set_if_settled(&bits(&v), k).unwrap();
            assert_eq!(picked.len(), k);
            let least = picked.iter().map(|&i| v[i]).fold(f32::INFINITY, f32::min);
            for i in 0..n {
                assert!(picked.contains(&i) || v[i] <= least);
            }
        }
    }
}

#[test]
fn rows_that_exhaust_the_rounds_do_not_settle() {
    assert_eq!(topk_set_if_settled(&bits(&median_killer(64)), 16), None);
    assert!(topk_set_if_settled(&bits(&median_killer(64)), 64).is_some());
}

#[test]
fn short_rows_always_settle() {
    for n in 1..=11usize {
        for k in 1..=n {
            assert!(topk_set_if_settled(&bits(&median_killer(n)), k).is_some());
        }
    }
}
