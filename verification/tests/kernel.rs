use rcore_os::mm::PAGE_SIZE;
use rcore_os::syscall::process::{
    mmap_args_ok, sys_exec, sys_exit, sys_fork, sys_get_time, sys_getpid, sys_mmap, sys_munmap,
    sys_set_priority, sys_spawn, sys_waitpid, sys_yield, TimeVal,
};
use rcore_os::task::{Kernel, Processor, TaskManager, TaskStatus};

const SHELL: &[u8] = b"\x7fELF usershell";

fn booted() -> Kernel {
    let mut k = Kernel::new(SHELL);
    k.add_initproc();
    k.run_next();
    k
}

#[test]
fn initproc_runs_first() {
    let mut k = Kernel::new(SHELL);
    assert_eq!(k.initproc(), 0);
    assert!(!k.is_queued(0));
    assert_eq!(k.task_status(0), Some(TaskStatus::Ready));
    assert_eq!(k.program_of(0), Some((SHELL.to_vec(), Vec::new())));
    assert_eq!(k.current_task(), None);
    k.run_next();
    assert_eq!(k.current_task(), None);
    k.add_initproc();
    assert!(k.is_queued(0));
    k.run_next();
    assert_eq!(k.current_task(), Some(0));
    assert_eq!(k.task_status(0), Some(TaskStatus::Running));
    assert!(!k.is_queued(0));
    assert_eq!(sys_getpid(&k), 0);
}

#[test]
fn fork_returns_child_pid_and_queues_it() {
    let mut k = booted();
    assert_eq!(sys_fork(&mut k), 1);
    assert_eq!(sys_fork(&mut k), 2);
    assert_eq!(sys_yield(&mut k), 0);
    assert_eq!(sys_getpid(&k), 1);
    assert_eq!(sys_yield(&mut k), 0);
    assert_eq!(sys_getpid(&k), 2);
    assert_eq!(sys_yield(&mut k), 0);
    assert_eq!(sys_getpid(&k), 0);
}

#[test]
fn parent_reaps_exit_code() {
    let mut k = booted();
    let child = sys_fork(&mut k);
    assert_eq!(child, 1);
    let mut code = 99;
    assert_eq!(sys_waitpid(&mut k, -1, &mut code), -2);
    assert_eq!(code, 99);
    sys_yield(&mut k);
    assert_eq!(sys_getpid(&k), 1);
    sys_exit(&mut k, 7);
    assert_eq!(sys_getpid(&k), 0);
    assert_eq!(sys_waitpid(&mut k, 1, &mut code), 1);
    assert_eq!(code, 7);
    assert_eq!(sys_waitpid(&mut k, -1, &mut code), -1);
    assert_eq!(sys_waitpid(&mut k, 1, &mut code), -1);
}

#[test]
fn waitpid_selects_by_pid() {
    let mut k = booted();
    assert_eq!(sys_fork(&mut k), 1);
    assert_eq!(sys_fork(&mut k), 2);
    sys_yield(&mut k);
    assert_eq!(sys_getpid(&k), 1);
    sys_exit(&mut k, 3);
    assert_eq!(sys_getpid(&k), 2);
    sys_exit(&mut k, 4);
    assert_eq!(sys_getpid(&k), 0);
    let mut code = 0;
    assert_eq!(sys_waitpid(&mut k, 5, &mut code), -1);
    assert_eq!(sys_waitpid(&mut k, -7, &mut code), -1);
    assert_eq!(sys_waitpid(&mut k, 2, &mut code), 2);
    assert_eq!(code, 4);
    assert_eq!(sys_waitpid(&mut k, -1, &mut code), 1);
    assert_eq!(code, 3);
}

#[test]
fn orphans_go_to_initproc() {
    let mut k = booted();
    assert_eq!(sys_fork(&mut k), 1);
    sys_yield(&mut k);
    assert_eq!(sys_getpid(&k), 1);
    assert_eq!(sys_fork(&mut k), 2);
    sys_exit(&mut k, 0);
    // the queue now runs 0, then 2
    assert_eq!(sys_getpid(&k), 0);
    let mut code = 0;
    assert_eq!(sys_waitpid(&mut k, 2, &mut code), -2);
    assert_eq!(sys_waitpid(&mut k, 1, &mut code), 1);
    sys_yield(&mut k);
    assert_eq!(sys_getpid(&k), 2);
    sys_exit(&mut k, 5);
    assert_eq!(sys_getpid(&k), 0);
    assert_eq!(sys_waitpid(&mut k, -1, &mut code), 2);
    assert_eq!(code, 5);
}

#[test]
fn rejected_arguments_need_no_running_task() {
    let mut k = Kernel::new(SHELL);
    assert_eq!(sys_set_priority(&mut k, 1), -1);
    assert_eq!(sys_set_priority(&mut k, 0), -1);
    assert_eq!(sys_set_priority(&mut k, -5), -1);
    assert_eq!(sys_mmap(&mut k, 0, PAGE_SIZE, 0), -1);
    assert_eq!(sys_mmap(&mut k, 0, PAGE_SIZE, 8), -1);
    assert_eq!(sys_mmap(&mut k, 4097, PAGE_SIZE, 3), -1);
    assert_eq!(sys_mmap(&mut k, 4097, usize::MAX, 3), -1);
    assert_eq!(sys_munmap(&mut k, 4097, PAGE_SIZE), -1);
    assert!(mmap_args_ok(0x1000, 7));
    assert!(!mmap_args_ok(0x1000, 0));
    assert!(!mmap_args_ok(0x1001, 1));
}

#[test]
fn fork_child_sees_zero() {
    let mut k = booted();
    assert_eq!(k.return_value(0), Some(0));
    k.set_return_value(0, 42);
    assert_eq!(sys_fork(&mut k), 1);
    assert_eq!(k.return_value(1), Some(0));
    assert_eq!(k.return_value(0), Some(42));
    assert_eq!(k.return_value(2), None);
    assert_eq!(k.program_of(1), Some((SHELL.to_vec(), Vec::new())));
}

#[test]
fn sent_mail_is_read_by_receiver() {
    let mut k = booted();
    assert_eq!(sys_fork(&mut k), 1);
    assert_eq!(k.send_mail_to_pid(1, b"ping"), 4);
    assert_eq!(k.send_mail_to_pid(1, b"second"), 6);
    let mut buf = vec![0u8; 8];
    assert_eq!(k.read_mail(&mut buf), usize::MAX);
    sys_yield(&mut k);
    assert_eq!(sys_getpid(&k), 1);
    let mut empty: Vec<u8> = Vec::new();
    assert_eq!(k.read_mail(&mut empty), 0);
    assert_eq!(k.read_mail(&mut buf), 4);
    assert_eq!(&buf[..4], b"ping");
    let mut small = vec![0u8; 3];
    assert_eq!(k.read_mail(&mut small), 3);
    assert_eq!(&small, b"sec");
    assert_eq!(k.read_mail(&mut buf), usize::MAX);
}

#[test]
fn priority_below_two_is_refused() {
    let mut k = booted();
    assert_eq!(sys_set_priority(&mut k, 1), -1);
    assert_eq!(sys_set_priority(&mut k, -3), -1);
    assert_eq!(sys_set_priority(&mut k, 2), 2);
    assert_eq!(sys_set_priority(&mut k, 100), 100);
}

#[test]
fn mmap_checks_arguments() {
    let mut k = booted();
    assert_eq!(sys_mmap(&mut k, 0x10000, PAGE_SIZE, 0), -1);
    assert_eq!(sys_mmap(&mut k, 0x10000, PAGE_SIZE, 8), -1);
    assert_eq!(sys_mmap(&mut k, 0x10000, PAGE_SIZE, 9), -1);
    assert_eq!(sys_mmap(&mut k, 0x10001, PAGE_SIZE, 3), -1);
    assert_eq!(sys_mmap(&mut k, 0x10000, PAGE_SIZE, 3), 0);
    assert_eq!(sys_mmap(&mut k, 0x10000, PAGE_SIZE, 1), -1);
    assert_eq!(sys_mmap(&mut k, 0x11000, 2 * PAGE_SIZE, 7), 0);
}

#[test]
fn munmap_undoes_mmap() {
    let mut k = booted();
    assert_eq!(sys_munmap(&mut k, 0x20000, PAGE_SIZE), -1);
    assert_eq!(sys_mmap(&mut k, 0x20000, 3 * PAGE_SIZE, 2), 0);
    assert_eq!(sys_munmap(&mut k, 0x20001, PAGE_SIZE), -1);
    assert_eq!(sys_munmap(&mut k, 0x20000, 3 * PAGE_SIZE), 0);
    assert_eq!(sys_munmap(&mut k, 0x20000, PAGE_SIZE), -1);
    assert_eq!(sys_mmap(&mut k, 0x20000, 3 * PAGE_SIZE, 2), 0);
}

#[test]
fn fork_copies_mappings_and_exec_drops_them() {
    let mut k = booted();
    assert_eq!(sys_mmap(&mut k, 0x30000, PAGE_SIZE, 3), 0);
    assert_eq!(sys_fork(&mut k), 1);
    sys_yield(&mut k);
    assert_eq!(sys_getpid(&k), 1);
    assert_eq!(sys_mmap(&mut k, 0x30000, PAGE_SIZE, 3), -1);
    let args = vec![String::from("a"), String::from("b")];
    assert_eq!(sys_exec(&mut k, Some(&[0x7fu8, b'E', b'L', b'F'][..]), args.clone()), 2);
    assert_eq!(k.program_of(1), Some((vec![0x7fu8, b'E', b'L', b'F'], args.clone())));
    assert_eq!(k.program_of(0), Some((SHELL.to_vec(), Vec::new())));
    assert_eq!(sys_mmap(&mut k, 0x30000, PAGE_SIZE, 3), 0);
    assert_eq!(sys_exec(&mut k, None, Vec::new()), -1);
    assert_eq!(k.program_of(1), Some((vec![0x7fu8, b'E', b'L', b'F'], args)));
}

#[test]
fn spawn_starts_child() {
    let mut k = booted();
    assert_eq!(sys_spawn(&mut k, None), -1);
    assert_eq!(sys_mmap(&mut k, 0x40000, PAGE_SIZE, 3), 0);
    assert_eq!(sys_spawn(&mut k, Some(&[1u8, 2, 3][..])), 1);
    assert_eq!(k.program_of(1), Some((vec![1u8, 2, 3], Vec::new())));
    assert_eq!(k.return_value(1), Some(0));
    assert_eq!(k.task_status(1), Some(TaskStatus::Ready));
    assert_eq!(k.program_of(0), Some((SHELL.to_vec(), Vec::new())));
    sys_yield(&mut k);
    assert_eq!(sys_getpid(&k), 1);
    assert_eq!(sys_mmap(&mut k, 0x40000, PAGE_SIZE, 3), 0);
    sys_exit(&mut k, 0);
    let mut code = -1;
    assert_eq!(sys_waitpid(&mut k, 1, &mut code), 1);
    assert_eq!(code, 0);
}

#[test]
fn mail_goes_only_to_queued_tasks() {
    let mut k = booted();
    assert_eq!(k.send_mail_to_pid(0, b"self"), -1);
    assert_eq!(k.send_mail_to_pid(1, b"nobody"), -1);
    assert_eq!(sys_fork(&mut k), 1);
    assert_eq!(k.send_mail_to_pid(1, b"hello"), 5);
    assert_eq!(k.send_mail_to_pid(1, &[]), 0);
    let long = vec![7u8; 1000];
    assert_eq!(k.send_mail_to_pid(1, &long), 256);
}

#[test]
fn full_mailbox_refuses_mail() {
    let mut k = booted();
    assert_eq!(sys_fork(&mut k), 1);
    for i in 0..16u8 {
        assert_eq!(k.send_mail_to_pid(1, &[i]), 1);
    }
    assert_eq!(k.send_mail_to_pid(1, b"x"), -1);
}

#[test]
fn get_time_splits_microseconds() {
    let mut tv = TimeVal { sec: 0, usec: 0 };
    assert_eq!(sys_get_time(1_234_567, 1_234_567, &mut tv), 0);
    assert_eq!(tv.sec, 1);
    assert_eq!(tv.usec, 234_567);
    assert_eq!(sys_get_time(999_999, 999_999, &mut tv), 0);
    assert_eq!((tv.sec, tv.usec), (0, 999_999));
    // the seconds come from the first reading, the microseconds from the second
    assert_eq!(sys_get_time(1_999_999, 2_000_003, &mut tv), 0);
    assert_eq!((tv.sec, tv.usec), (1, 3));
}

#[test]
fn task_manager_is_fifo() {
    let mut m = TaskManager::new();
    assert_eq!(m.fetch(), None);
    m.add(3);
    m.add(1);
    m.add(2);
    assert_eq!(m.len(), 3);
    assert_eq!(m.get(1), 1);
    assert_eq!(m.fetch(), Some(3));
    assert_eq!(m.fetch(), Some(1));
    assert_eq!(m.fetch(), Some(2));
    assert_eq!(m.fetch(), None);
}

#[test]
fn processor_take_current() {
    let mut p = Processor::new();
    assert_eq!(p.current(), None);
    p.set_current(4);
    assert_eq!(p.current(), Some(4));
    assert_eq!(p.take_current(), Some(4));
    assert_eq!(p.current(), None);
}
