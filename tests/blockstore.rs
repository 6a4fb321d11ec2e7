use slayerfs::blockstore::{patch_object, read_window, BlockKey, BlockStoreConfig, FetchGroup, JoinRole, LeaveOutcome, ReadPlan};

const MIB: u64 = 1024 * 1024;

#[test]
fn scenario_read_plans_and_coalescing() {
    let config = BlockStoreConfig::new(64 * MIB, 2, 10);
    assert_eq!(config.plan_read(1024, 10 * MIB), ReadPlan::Range { offset: 1024, len: 10 * MIB });
    assert_eq!(config.plan_read(0, 32 * MIB), ReadPlan::WholeBlock);

    let key = BlockKey { chunk_id: 42, block_index: 3 };
    let mut group = FetchGroup::new();
    let roles: Vec<JoinRole> = (0..10).map(|_| group.join(key)).collect();
    assert_eq!(roles.iter().filter(|r| **r == JoinRole::Leader).count(), 1);
    assert_eq!(roles[0], JoinRole::Leader);
    assert_eq!(group.finish(key), 10);
    assert_eq!(group.waiters(key), 0);
    assert_eq!(group.join(key), JoinRole::Leader);
}

#[test]
fn threshold_is_inclusive() {
    let config = BlockStoreConfig::new(100, 1, 5);
    assert_eq!(config.plan_read(0, 20), ReadPlan::Range { offset: 0, len: 20 });
    assert_eq!(config.plan_read(0, 21), ReadPlan::WholeBlock);
}

#[test]
fn leaving_waiters_cancel_only_when_last_leaves() {
    let a = BlockKey { chunk_id: 1, block_index: 0 };
    let b = BlockKey { chunk_id: 1, block_index: 1 };
    let mut group = FetchGroup::new();
    assert_eq!(group.join(a), JoinRole::Leader);
    assert_eq!(group.join(a), JoinRole::Follower);
    assert_eq!(group.join(b), JoinRole::Leader);
    assert_eq!(group.leave(a), LeaveOutcome::KeepFetching);
    assert_eq!(group.leave(a), LeaveOutcome::CancelFetch);
    assert_eq!(group.leave(a), LeaveOutcome::NotWaiting);
    assert_eq!(group.waiters(b), 1);
}

#[test]
fn window_is_cut_from_block() {
    let block: Vec<u8> = (0..100u8).collect();
    assert_eq!(read_window(&block, 10, 5), Some(vec![10, 11, 12, 13, 14]));
    assert_eq!(read_window(&block, 98, 5), None);
}

#[test]
fn patch_object_overwrites_and_grows() {
    assert_eq!(patch_object(&[1, 2, 3, 4], 1, &[9, 9]), vec![1, 9, 9, 4]);
    assert_eq!(patch_object(&[1, 2], 4, &[7]), vec![1, 2, 0, 0, 7]);
    assert_eq!(patch_object(&[], 0, &[5, 6]), vec![5, 6]);
}
