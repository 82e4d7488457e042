use segtree::{LazySegmentTree, SegmentTree};

fn naive_sum(v: &[i64], l: usize, r: usize) -> i64 {
    v[l..r].iter().sum()
}

struct Lcg(u64);

impl Lcg {
    fn next(&mut self, bound: usize) -> usize {
        self.0 = self.0.wrapping_mul(6364136223846793005).wrapping_add(1442695040888963407);
        ((self.0 >> 33) as usize) % bound.max(1)
    }
}

#[test]
fn plain_construction_identity() {
    let v = vec![5, -3, 7, 0, 12, -8, 4];
    let st = SegmentTree::new_from_vec(v.clone());
    for (i, x) in v.iter().enumerate() {
        assert_eq!(st.get(i), *x);
    }
}

#[test]
fn plain_new_with_size_is_zero() {
    let st = SegmentTree::new_with_size(6);
    for i in 0..6 {
        assert_eq!(st.get(i), 0);
    }
    assert_eq!(st.get_all(), 0);
    assert_eq!(st.get_range(0, 6), 0);
}

#[test]
fn plain_range_sums_match_naive() {
    let v = vec![1, 2, 3, 4, 5, 6, 7, 8, 9, 10, 11];
    let st = SegmentTree::new_from_vec(v.clone());
    let w: Vec<i64> = v.iter().map(|&x| x as i64).collect();
    for l in 0..=v.len() {
        for r in l..=v.len() {
            assert_eq!(st.get_range(l, r) as i64, naive_sum(&w, l, r));
        }
    }
}

#[test]
fn plain_empty_range_is_zero() {
    let st = SegmentTree::new_from_vec(vec![4, 5, 6]);
    assert_eq!(st.get_range(0, 0), 0);
    assert_eq!(st.get_range(2, 2), 0);
    assert_eq!(st.get_range(3, 3), 0);
}

#[test]
fn plain_set_then_read() {
    let mut st = SegmentTree::new_from_vec(vec![1, 2, 3, 4, 5]);
    assert_eq!(st.get_range(1, 4), 9);
    st.set(2, 10);
    assert_eq!(st.get(2), 10);
    assert_eq!(st.get_range(1, 4), 16);
    assert_eq!(st.get_all(), 22);
}

#[test]
fn plain_empty_and_single() {
    let st = SegmentTree::new_from_vec(vec![]);
    assert_eq!(st.get_all(), 0);
    assert_eq!(st.get_range(0, 0), 0);
    let mut one = SegmentTree::new_from_vec(vec![42]);
    assert_eq!(one.get(0), 42);
    assert_eq!(one.get_all(), 42);
    one.set(0, -7);
    assert_eq!(one.get_range(0, 1), -7);
    assert_eq!(one.get_all(), -7);
}

#[test]
fn plain_update_keeps_sums() {
    let mut st = SegmentTree::new_from_vec(vec![3, 1, 4, 1, 5]);
    st.update(1);
    st.update(2);
    assert_eq!(st.get_all(), 14);
    assert_eq!(st.get_range(1, 5), 11);
}

#[test]
fn plain_sum_wraps_when_too_large() {
    let st = SegmentTree::new_from_vec(vec![i32::MAX, 1]);
    assert_eq!(st.get_all(), i32::MIN);
    assert_eq!(st.get_range(0, 1), i32::MAX);
}

#[test]
fn plain_random_ops_match_naive() {
    let mut rng = Lcg(7);
    for &n in &[0usize, 1, 2, 5, 8, 13] {
        let init: Vec<i32> = (0..n).map(|_| rng.next(200) as i32 - 100).collect();
        let mut st = SegmentTree::new_from_vec(init.clone());
        let mut model: Vec<i64> = init.iter().map(|&x| x as i64).collect();
        for _ in 0..200 {
            if n > 0 && rng.next(2) == 0 {
                let p = rng.next(n);
                let x = rng.next(200) as i32 - 100;
                st.set(p, x);
                model[p] = x as i64;
            } else {
                let l = rng.next(n + 1);
                let r = l + rng.next(n + 1 - l);
                assert_eq!(st.get_range(l, r) as i64, naive_sum(&model, l, r));
            }
            assert_eq!(st.get_all() as i64, naive_sum(&model, 0, n));
        }
    }
}

#[test]
fn lazy_construction_identity() {
    let v = vec![9, -1, 0, 6, 2];
    let mut st = LazySegmentTree::new_from_vec(v.clone());
    for (i, x) in v.iter().enumerate() {
        assert_eq!(st.get(i), *x);
    }
}

#[test]
fn lazy_new_with_size_is_zero() {
    let mut st = LazySegmentTree::new_with_size(5);
    assert_eq!(st.get_all(), 0);
    assert_eq!(st.get_range(0, 5), 0);
    assert_eq!(st.get(4), 0);
}

#[test]
fn lazy_concrete_scenario() {
    let mut st = LazySegmentTree::new_from_vec(vec![1, 2, 3, 4, 5]);
    assert_eq!(st.get_range(1, 4), 9);
    st.set(2, 10);
    assert_eq!(st.get_range(1, 4), 16);
    assert_eq!(st.get_all(), 22);
    st.apply_range(0, 3, 2);
    assert_eq!(st.get_all(), 28);
    assert_eq!(st.get_range(0, 3), 19);
    assert_eq!(st.get_range(1, 4), 20);
    assert_eq!(st.get(0), 3);
    assert_eq!(st.get(2), 12);
    assert_eq!(st.get(3), 4);
}

#[test]
fn lazy_range_add_scales_with_width() {
    let mut st = LazySegmentTree::new_from_vec(vec![0; 8]);
    st.apply_range(0, 8, 3);
    assert_eq!(st.get_all(), 24);
    st.apply_range(2, 6, -1);
    assert_eq!(st.get_all(), 20);
    assert_eq!(st.get_range(0, 4), 10);
    assert_eq!(st.get(5), 2);
    assert_eq!(st.get(6), 3);
}

#[test]
fn lazy_set_range_adds_one() {
    let mut st = LazySegmentTree::new_from_vec(vec![1, 1, 1, 1, 1, 1]);
    st.set_range(1, 4);
    assert_eq!(st.get_range(0, 6), 9);
    assert_eq!(st.get(0), 1);
    assert_eq!(st.get(1), 2);
    assert_eq!(st.get(3), 2);
    assert_eq!(st.get(4), 1);
}

#[test]
fn lazy_empty_range_is_noop() {
    let mut st = LazySegmentTree::new_from_vec(vec![2, 4, 6]);
    st.apply_range(1, 1, 100);
    assert_eq!(st.get_all(), 12);
    assert_eq!(st.get_range(2, 2), 0);
}

#[test]
fn lazy_reads_repeat() {
    let mut st = LazySegmentTree::new_from_vec(vec![5, 6, 7, 8, 9]);
    st.apply_range(1, 4, 10);
    let a = st.get_range(0, 5);
    let b = st.get_range(0, 5);
    assert_eq!(a, b);
    let c = st.get(2);
    let d = st.get(2);
    assert_eq!(c, d);
    assert_eq!(c, 17);
    assert_eq!(st.get_all(), 65);
}

#[test]
fn lazy_padding_is_not_touched() {
    let mut st = LazySegmentTree::new_from_vec(vec![1, 2, 3, 4, 5]);
    st.apply_range(0, 5, 1);
    st.apply_range(3, 5, 2);
    assert_eq!(st.get_all(), 24);
    assert_eq!(st.get_range(4, 5), 8);
}

#[test]
fn lazy_empty_and_single() {
    let mut st = LazySegmentTree::new_from_vec(vec![]);
    assert_eq!(st.get_all(), 0);
    assert_eq!(st.get_range(0, 0), 0);
    st.apply_range(0, 0, 5);
    assert_eq!(st.get_all(), 0);
    let mut one = LazySegmentTree::new_from_vec(vec![3]);
    one.apply_range(0, 1, 4);
    assert_eq!(one.get(0), 7);
    one.set(0, 1);
    assert_eq!(one.get_all(), 1);
}

#[test]
fn lazy_random_ops_match_naive() {
    let mut rng = Lcg(11);
    for &n in &[0usize, 1, 2, 3, 5, 8, 13, 16] {
        let init: Vec<i32> = (0..n).map(|_| rng.next(200) as i32 - 100).collect();
        let mut st = LazySegmentTree::new_from_vec(init.clone());
        let mut model: Vec<i64> = init.iter().map(|&x| x as i64).collect();
        for _ in 0..300 {
            match rng.next(4) {
                0 if n > 0 => {
                    let p = rng.next(n);
                    let x = rng.next(200) as i32 - 100;
                    st.set(p, x);
                    model[p] = x as i64;
                }
                1 => {
                    let l = rng.next(n + 1);
                    let r = l + rng.next(n + 1 - l);
                    let d = rng.next(21) as i32 - 10;
                    st.apply_range(l, r, d);
                    for v in &mut model[l..r] {
                        *v += d as i64;
                    }
                }
                2 if n > 0 => {
                    let p = rng.next(n);
                    assert_eq!(st.get(p) as i64, model[p]);
                }
                _ => {
                    let l = rng.next(n + 1);
                    let r = l + rng.next(n + 1 - l);
                    assert_eq!(st.get_range(l, r) as i64, naive_sum(&model, l, r));
                }
            }
            assert_eq!(st.get_all() as i64, naive_sum(&model, 0, n));
        }
    }
}
