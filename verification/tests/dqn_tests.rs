use neonate::dqn::{after_update, ready_to_train};

#[test]
fn training_waits_for_a_full_batch() {
    assert!(!ready_to_train(0, 64));
    assert!(!ready_to_train(63, 64));
    assert!(ready_to_train(64, 64));
    assert!(ready_to_train(50_000, 64));
}

#[test]
fn target_syncs_every_period() {
    assert_eq!(after_update(0, 500), (1, false));
    assert_eq!(after_update(498, 500), (499, false));
    assert_eq!(after_update(499, 500), (500, true));
    assert_eq!(after_update(999, 500), (1000, true));
    assert_eq!(after_update(1000, 500), (1001, false));
}

#[test]
fn zero_period_never_syncs() {
    assert_eq!(after_update(0, 0), (1, false));
    assert_eq!(after_update(41, 0), (42, false));
}

#[test]
fn sync_count_over_a_run() {
    let mut steps = 0u64;
    let mut syncs = 0;
    for _ in 0..1500 {
        let (s, sync) = after_update(steps, 500);
        steps = s;
        if sync {
            syncs += 1;
        }
    }
    assert_eq!(steps, 1500);
    assert_eq!(syncs, 3);
}
