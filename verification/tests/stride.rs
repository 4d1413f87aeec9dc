use kernel_core::task::stride::Stride;
use kernel_core::task::stride::BIG_STRIDE;
use kernel_core::task::stride_manager::pass_of;
use kernel_core::task::stride_manager::StrideManager;
use kernel_core::task::stride_manager::StrideTask;
use std::cmp::Ordering;

#[test]
fn stride_order_near_the_wrap() {
    assert!(Stride(BIG_STRIDE / 2 - 2) > Stride(BIG_STRIDE));
    assert!(Stride(BIG_STRIDE / 2 + 2) < Stride(BIG_STRIDE));
}

#[test]
fn stride_order_is_antisymmetric_on_samples() {
    let samples = [0usize, 1, 5, BIG_STRIDE / 2, BIG_STRIDE / 2 + 1, BIG_STRIDE - 1, BIG_STRIDE];
    for a in samples {
        for b in samples {
            let ab = Stride(a).partial_cmp(&Stride(b)).unwrap();
            let ba = Stride(b).partial_cmp(&Stride(a)).unwrap();
            assert_eq!(ab, ba.reverse());
            assert_eq!(ab == Ordering::Equal, a == b);
        }
    }
}

#[test]
fn stride_order_of_near_strides_is_the_order_of_numbers() {
    assert_eq!(Stride(10).partial_cmp(&Stride(20)), Some(Ordering::Less));
    assert_eq!(Stride(20).partial_cmp(&Stride(10)), Some(Ordering::Greater));
    assert_eq!(Stride(7).partial_cmp(&Stride(7)), Some(Ordering::Equal));
    assert!(Stride(10).precedes(&Stride(20)));
    assert!(!Stride(20).precedes(&Stride(10)));
    assert!(!Stride(7).precedes(&Stride(7)));
}

#[test]
fn stride_opposite_on_the_circle() {
    // Exactly half of the circle apart: the larger number comes first.
    let half = BIG_STRIDE / 2 + 1;
    assert_eq!(Stride(half).partial_cmp(&Stride(0)), Some(Ordering::Less));
    assert_eq!(Stride(0).partial_cmp(&Stride(half)), Some(Ordering::Greater));
}

#[test]
fn stride_eq_is_never_true() {
    assert!(!(Stride(3) == Stride(3)));
    assert!(Stride(3) != Stride(4));
}

#[test]
fn stride_from_usize() {
    let s: Stride = Stride::from(42);
    assert_eq!(s.0, 42);
}

#[test]
fn stride_add_wraps() {
    let mut s = Stride(BIG_STRIDE - 1);
    s.add(3);
    assert_eq!(s.0, 1);
    let mut t = Stride(5);
    t.add(7);
    assert_eq!(t.0, 12);
}

#[test]
fn stride_after_a_wrap_still_comes_later() {
    let mut s = Stride(BIG_STRIDE - 10);
    let before = Stride(s.0);
    s.add(100);
    assert!(before < s);
    assert!(before.precedes(&s));
}

#[test]
fn pass_of_weight() {
    assert_eq!(pass_of(1), BIG_STRIDE);
    assert_eq!(pass_of(2), BIG_STRIDE / 2);
    assert_eq!(pass_of(16), BIG_STRIDE / 16);
}

#[test]
fn stride_manager_fetches_least_stride_first() {
    let mut m = StrideManager::new();
    m.add(StrideTask { task: 0, stride: 6, pass: 1 });
    m.add(StrideTask { task: 1, stride: 0, pass: 1 });
    m.add(StrideTask { task: 2, stride: 1, pass: 1 });
    assert_eq!(m.len(), 3);
    assert_eq!(m.fetch().unwrap().task, 1);
    assert_eq!(m.fetch().unwrap().task, 2);
    assert_eq!(m.fetch().unwrap().task, 0);
    assert_eq!(m.fetch(), None);
}

#[test]
fn stride_manager_advances_the_selected_task() {
    let mut m = StrideManager::new();
    m.add(StrideTask { task: 3, stride: 10, pass: 5 });
    assert_eq!(m.fetch(), Some(StrideTask { task: 3, stride: 15, pass: 5 }));
    assert_eq!(m.len(), 0);
}

#[test]
fn stride_manager_is_first_come_first_served_among_equals() {
    let mut m = StrideManager::new();
    m.add(StrideTask { task: 7, stride: 4, pass: 1 });
    m.add(StrideTask { task: 8, stride: 4, pass: 1 });
    assert_eq!(m.fetch().unwrap().task, 7);
    assert_eq!(m.fetch().unwrap().task, 8);
}

#[test]
fn stride_fairness_follows_the_weights() {
    // Two tasks whose weights are as 1 to 2. The weights are 2 and 4, so
    // that no pass is longer than half of BIG_STRIDE.
    let mut m = StrideManager::new();
    m.add(StrideTask { task: 0, stride: 0, pass: pass_of(2) });
    m.add(StrideTask { task: 1, stride: 0, pass: pass_of(4) });
    let mut runs = [0i64; 2];
    for _ in 0..3000 {
        let t = m.fetch().unwrap();
        runs[t.task] += 1;
        m.add(t);
    }
    assert_eq!(runs[0] + runs[1], 3000);
    assert!((runs[1] - 2 * runs[0]).abs() <= 3, "runs {:?}", runs);
}

#[test]
fn two_tasks_share_by_their_passes_after_every_round() {
    // The pass of task 0 is twice that of task 1, and the strides start
    // close below the wrap.
    let start = usize::MAX - 100;
    let mut m = StrideManager::new();
    m.add(StrideTask { task: 0, stride: start, pass: 8 });
    m.add(StrideTask { task: 1, stride: start, pass: 4 });
    let mut runs = [0i64; 2];
    for round in 1..=600i64 {
        let t = m.fetch().unwrap();
        runs[t.task] += 1;
        m.add(t);
        assert_eq!(runs[0] + runs[1], round);
        let lead = 2 * runs[0] - runs[1];
        assert!(-1 <= lead && lead <= 2, "round {} runs {:?}", round, runs);
    }
    assert_eq!(runs, [200, 400]);
}

#[test]
fn weights_one_to_two_share_one_to_two_after_every_round() {
    let mut m = StrideManager::new();
    m.add(StrideTask { task: 0, stride: 7, pass: pass_of(3) });
    m.add(StrideTask { task: 1, stride: 7, pass: pass_of(6) });
    let mut runs = [0usize; 2];
    for n in 1..=3000usize {
        let t = m.fetch().unwrap();
        runs[t.task] += 1;
        m.add(t);
        assert_eq!(runs[0] + runs[1], n);
        assert!(n / 3 <= runs[0] && runs[0] <= n / 3 + 1, "round {} runs {:?}", n, runs);
        assert!(2 * n / 3 <= runs[1] + 1 && runs[1] <= 2 * n / 3 + 1, "round {} runs {:?}", n, runs);
    }
    assert_eq!(runs, [1000, 2000]);
}
