use tinysandbox::pools::{reserve, HandleTable, OpenFiles, PoolCapacity, Pools};
use tinysandbox::vfs::Errno;

#[test]
fn zero_capacity_cannot_deadlock_the_work_it_admits() {
    let pools = Pools::new(
        PoolCapacity::default()
            .with_jq_workers(0)
            .with_open_files(0)
            .with_cleanup_threads(0),
    );
    assert_eq!(pools.capacity().jq_workers, 1);
    assert_eq!(pools.capacity().open_files, 1);
    assert_eq!(pools.capacity().cleanup_threads, 1);
}

#[test]
fn separate_pools_account_for_handles_independently() {
    let mut first = Pools::new(PoolCapacity::default().with_open_files(1));
    let mut second = Pools::new(PoolCapacity::default().with_open_files(1));
    assert!(first.acquire_file());
    assert!(!first.acquire_file(), "the ceiling is enforced");
    assert!(second.acquire_file(), "a separate domain keeps its own budget");
    first.release_file();
    assert!(first.acquire_file());
}

#[test]
fn default_capacity_and_builders() {
    let capacity = PoolCapacity::default();
    assert_eq!(capacity.jq_workers, 16);
    assert_eq!(capacity.js_workers, 16);
    assert_eq!(capacity.blocking_vfs_workers, 128);
    assert_eq!(capacity.open_files, 16384);
    assert_eq!(capacity.cleanup_threads, 4);
    let changed = capacity.with_js_workers(3).with_blocking_vfs_workers(7);
    assert_eq!(changed.js_workers, 3);
    assert_eq!(changed.blocking_vfs_workers, 7);
    assert_eq!(changed.jq_workers, 16);
}

#[test]
fn a_refused_reservation_leaves_both_ceilings_as_they_were() {
    let mut pools = Pools::new(PoolCapacity::default().with_open_files(2));
    let mut files = OpenFiles::new(1);
    assert!(reserve(&mut pools, Some(&mut files), false).is_ok());
    let refused = reserve(&mut pools, Some(&mut files), false);
    assert_eq!(refused.unwrap_err().errno(), Errno::ENOSPC);
    assert_eq!(pools.open_files(), 1);
    assert_eq!(files.count(), 1);
    files.release();
    let cancelled = reserve(&mut pools, Some(&mut files), true);
    assert_eq!(cancelled.unwrap_err().errno(), Errno::EIO);
    assert_eq!(pools.open_files(), 1);
    assert!(reserve(&mut pools, None, false).is_ok());
    let full = reserve(&mut pools, None, false);
    assert_eq!(full.unwrap_err().errno(), Errno::ENOSPC);
}

#[test]
fn handles_are_released_once_and_in_order() {
    let mut table = HandleTable::new();
    table.insert(9);
    table.insert(3);
    table.insert(9);
    table.insert(5);
    assert!(table.remove(5).is_ok());
    assert_eq!(table.remove(5).unwrap_err().errno(), Errno::EBADF);
    assert_eq!(table.take_all(), vec![3, 9]);
    assert!(table.take_all().is_empty());
}
