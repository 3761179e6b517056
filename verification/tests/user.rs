use rcore_os::user::{
    hash, raw_sys_fstat, raw_sys_gettime, raw_syscall, xorshift64, ForkTest, ForkTestAction,
    FORKTEST_CHILDREN, SYSCALL_FSTAT, SYSCALL_GETTIMEOFDAY,
};

#[test]
fn xorshift_values() {
    assert_eq!(xorshift64(1), 1082269761);
    assert_eq!(xorshift64(2), 2164539522);
    assert_eq!(xorshift64(12345), 13289605635609);
    assert_eq!(xorshift64(0), 0);
}

#[test]
fn hash_is_xorshift_and_distinct() {
    for x in 0..1000usize {
        assert_eq!(hash(x), xorshift64(x));
    }
    let mut seen: Vec<usize> = (0..1000usize).map(hash).collect();
    seen.sort();
    seen.dedup();
    assert_eq!(seen.len(), 1000);
}

#[test]
fn raw_requests() {
    let r = raw_sys_gettime(0x8000, 0);
    assert_eq!(r.id, SYSCALL_GETTIMEOFDAY);
    assert_eq!(r.args, [0x8000, 0, 0, 0, 0]);
    let r = raw_sys_fstat(3, 0x9000);
    assert_eq!(r.id, SYSCALL_FSTAT);
    assert_eq!(r.args, [3, 0x9000, 0, 0, 0]);
    let r = raw_syscall(402, [1, 2, 3, 4, 5]);
    assert_eq!(r.id, 402);
    assert_eq!(r.args, [1, 2, 3, 4, 5]);
}

#[test]
fn forktest_counts_and_checks() {
    let mut t = ForkTest::new();
    let mut next_pid = 10isize;
    let mut children = Vec::new();
    for i in 0..FORKTEST_CHILDREN {
        assert_eq!(t.next_action(), ForkTestAction::Fork);
        // the child's copy runs with its index
        assert_eq!(t.on_fork(0), Some(i));
        if i % 50 == 49 {
            assert_eq!(t.on_fork(-1), None);
        } else {
            assert_eq!(t.on_fork(next_pid), None);
            children.push(next_pid);
            next_pid += 1;
        }
    }
    assert_eq!(children.len(), FORKTEST_CHILDREN - 4);
    for (n, pid) in children.iter().enumerate() {
        assert_eq!(t.next_action(), ForkTestAction::Wait);
        if n == 0 {
            assert!(!t.on_wait(*pid, 1));
            assert!(!t.on_wait(-1, 0));
        }
        assert!(t.on_wait(*pid, 0));
    }
    assert_eq!(t.next_action(), ForkTestAction::FinalWait);
    assert!(!t.on_wait(5, 0));
    assert!(t.on_wait(-1, 0));
    assert_eq!(t.next_action(), ForkTestAction::Done);
}
