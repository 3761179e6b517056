use vstd::prelude::*;

use crate::mm::{map_result, unmap_result, MAP_PERM_R, MAP_PERM_U, MAP_PERM_W, MAP_PERM_X, PAGE_SIZE};
use crate::task::{Kernel, KernelView};

verus! {

/// Microseconds per second.
pub const USEC_PER_SEC: usize = 1_000_000;

/// A point in time as seconds and microseconds.
pub struct TimeVal {
    pub sec: usize,
    pub usec: usize,
}

/// Whether `mmap` accepts a start address and protection: the protection
/// sets some of the bits 0 (read), 1 (write) and 2 (execute) and no other
/// bit, and the start address is page-aligned.
pub open spec fn mmap_args_valid(start: usize, prot: usize) -> bool {
    0 < prot <= 7 && start % PAGE_SIZE == 0
}

/// Whether `mmap` accepts the start address `start` and the protection
/// `prot` (see `mmap_args_valid`).
pub fn mmap_args_ok(start: usize, prot: usize) -> (r: bool)
    ensures
        r == mmap_args_valid(start, prot),
{
    proof {
        assert(prot <= 7 ==> prot & !0x7 == 0) by (bit_vector);
        assert(prot & 0x7 == 0 && prot <= 7 ==> prot == 0) by (bit_vector);
        assert(prot & !0x7 == 0 ==> prot <= 7) by (bit_vector);
        assert(prot & 0x7 != 0 ==> prot != 0) by (bit_vector);
    }
    !((prot & !0x7 != 0) || (prot & 0x7 == 0) || start % PAGE_SIZE != 0)
}

/// The page permission that `mmap` maps with: the protection bits moved up
/// one place (read, write, execute), plus user access.
pub open spec fn mmap_perm(prot: usize) -> u8 {
    (prot * 2 + MAP_PERM_U) as u8
}

/// The running task exits with `exit_code` and the next ready task runs.
pub fn sys_exit(kernel: &mut Kernel, exit_code: i32)
    requires
        old(kernel).wf(),
        old(kernel)@.current is Some,
        old(kernel)@.current != Some(old(kernel)@.initproc),
    ensures
        final(kernel).wf(),
        final(kernel)@ == old(kernel)@.after_exit(exit_code),
{
    kernel.exit_current_and_run_next(exit_code);
}

/// The running task yields the processor; returns 0.
pub fn sys_yield(kernel: &mut Kernel) -> (r: isize)
    requires
        old(kernel).wf(),
        old(kernel)@.current is Some,
    ensures
        final(kernel).wf(),
        final(kernel)@ == old(kernel)@.after_suspend(),
        r == 0,
{
    kernel.suspend_current_and_run_next();
    0
}

/// Stores the time into `time`: the seconds of the clock reading
/// `first_us` and the microseconds within the second of the later reading
/// `second_us` (both in microseconds); returns 0.
pub fn sys_get_time(first_us: usize, second_us: usize, time: &mut TimeVal) -> (r: isize)
    ensures
        final(time).sec == first_us / USEC_PER_SEC,
        final(time).usec == second_us % USEC_PER_SEC,
        final(time).usec < USEC_PER_SEC,
        r == 0,
{
    time.sec = first_us / USEC_PER_SEC;
    time.usec = second_us % USEC_PER_SEC;
    0
}

/// Sets the priority of the running task; priorities below 2 are refused
/// with -1. Returns the new priority.
pub fn sys_set_priority(kernel: &mut Kernel, prio: isize) -> (r: isize)
    requires
        old(kernel).wf(),
        prio >= 2 ==> old(kernel)@.current is Some,
    ensures
        final(kernel).wf(),
        prio < 2 ==> r == -1 && final(kernel)@ == old(kernel)@,
        prio >= 2 ==> r == prio && final(kernel)@ == old(kernel)@.after_set_priority(prio as usize),
        prio >= 2 ==> final(kernel)@.task(old(kernel)@.current->0 as int).priority == prio as usize,
{
    if prio < 2 {
        return -1;
    }
    kernel.set_priority(prio as usize);
    proof {
        crate::task::laws::lemma_set_priority_stores(old(kernel)@, prio as usize);
    }
    prio
}

/// Maps `len` bytes from `start` into the running task with protection
/// `prot`. Returns -1 for a protection outside 1..=7 or an unaligned start,
/// -1 when a page of the range is mapped already, else 0.
pub fn sys_mmap(kernel: &mut Kernel, start: usize, len: usize, prot: usize) -> (r: isize)
    requires
        old(kernel).wf(),
        mmap_args_valid(start, prot) ==> old(kernel)@.current is Some,
        mmap_args_valid(start, prot) ==> start + len <= usize::MAX,
    ensures
        final(kernel).wf(),
        !mmap_args_valid(start, prot) ==> r == -1 && final(kernel)@ == old(kernel)@,
        mmap_args_valid(start, prot) ==> {
            &&& final(kernel)@ == old(kernel)@.after_map(start as int, start + len, mmap_perm(prot))
            &&& r == (if map_result(
                old(kernel)@.task(old(kernel)@.current->0 as int).pages,
                start as int,
                start + len,
                mmap_perm(prot),
            ) is Some {
                0isize
            } else {
                -1isize
            })
        },
{
    if !mmap_args_ok(start, prot) {
        return -1;
    }
    let perm: u8 = ((prot << 1) as u8) | MAP_PERM_U;
    assert(prot <= 7 ==> ((prot << 1) as u8) | 16u8 == (prot * 2 + 16) as u8) by (bit_vector);
    kernel.map_dynamic(start, start + len, perm)
}

/// Unmaps `len` bytes from `start` from the running task. Returns -1 for an
/// unaligned start, -1 when a page of the range is not mapped, else 0.
pub fn sys_munmap(kernel: &mut Kernel, start: usize, len: usize) -> (r: isize)
    requires
        old(kernel).wf(),
        start % PAGE_SIZE == 0 ==> old(kernel)@.current is Some,
        start % PAGE_SIZE == 0 ==> start + len <= usize::MAX,
    ensures
        final(kernel).wf(),
        start % PAGE_SIZE != 0 ==> r == -1 && final(kernel)@ == old(kernel)@,
        start % PAGE_SIZE == 0 ==> {
            &&& final(kernel)@ == old(kernel)@.after_unmap(start as int, start + len)
            &&& r == (if unmap_result(
                old(kernel)@.task(old(kernel)@.current->0 as int).pages,
                start as int,
                start + len,
            ) is Some {
                0isize
            } else {
                -1isize
            })
        },
{
    if start % PAGE_SIZE != 0 {
        return -1;
    }
    kernel.unmap_dynamic(start, start + len)
}

/// The pid of the running task.
pub fn sys_getpid(kernel: &Kernel) -> (r: isize)
    requires
        kernel.wf(),
        kernel@.current is Some,
    ensures
        r == kernel@.current->0,
{
    let c = kernel.current_task().unwrap();
    proof {
        assert(kernel@.live(c as int));
    }
    c as isize
}

/// The running task forks; the child's pending system call returns 0 and
/// the child is queued. Returns the child's pid to the parent, or -1 when no
/// pid is left.
pub fn sys_fork(kernel: &mut Kernel) -> (r: isize)
    requires
        old(kernel).wf(),
        old(kernel)@.current is Some,
    ensures
        final(kernel).wf(),
        old(kernel)@.tasks.len() < isize::MAX ==> {
            let n = old(kernel)@.tasks.len() as usize;
            &&& r == n
            &&& final(kernel)@ == old(kernel)@.after_fork().after_set_return(n as int, 0).after_add_task(n)
            &&& final(kernel)@.task(n as int).trap_a0 == 0
            &&& final(kernel)@.task(n as int).parent == old(kernel)@.current
        },
        old(kernel)@.tasks.len() >= isize::MAX ==> r == -1 && final(kernel)@ == old(kernel)@,
{
    match kernel.fork() {
        Some(pid) => {
            kernel.set_return_value(pid, 0);
            proof {
                lemma_child_not_queued(old(kernel)@);
            }
            kernel.add_task(pid);
            pid as isize
        },
        None => -1,
    }
}

/// A new child is not in the ready queue.
proof fn lemma_child_not_queued(o: KernelView)
    requires
        o.wf(),
        o.current is Some,
        o.tasks.len() < isize::MAX,
    ensures
        !o.ready.contains(o.tasks.len() as usize),
{
    let n = o.tasks.len() as usize;
    if o.ready.contains(n) {
        let i = choose|i: int| 0 <= i < o.ready.len() && o.ready[i] == n;
        assert(o.live(o.ready[i] as int));
    }
}

/// The running task replaces its program with `app` (the program's bytes,
/// `None` when no such program exists) run with the arguments `args`;
/// returns the number of arguments, or -1 when there is no program.
pub fn sys_exec(kernel: &mut Kernel, app: Option<&[u8]>, args: Vec<String>) -> (r: isize)
    requires
        old(kernel).wf(),
        old(kernel)@.current is Some,
        args.len() <= isize::MAX,
    ensures
        final(kernel).wf(),
        app is None ==> r == -1 && final(kernel)@ == old(kernel)@,
        app is Some ==> {
            let c = old(kernel)@.current->0 as int;
            &&& r == args.len()
            &&& final(kernel)@ == old(kernel)@.after_exec(c, app->0@, args@)
            &&& final(kernel)@.task(c).program == app->0@
            &&& final(kernel)@.task(c).args == args@
        },
{
    match app {
        Some(data) => {
            let c = kernel.current_task().unwrap();
            let argc = args.len();
            kernel.exec(c, data, args);
            argc as isize
        },
        None => -1,
    }
}

/// Reaps a child of the running task (see `Kernel::waitpid`); the exit code
/// of a reaped child goes to `exit_code`.
pub fn sys_waitpid(kernel: &mut Kernel, pid: isize, exit_code: &mut i32) -> (r: isize)
    requires
        old(kernel).wf(),
        old(kernel)@.current is Some,
    ensures
        final(kernel).wf(),
        r == old(kernel)@.waitpid_result(pid),
        final(kernel)@ == old(kernel)@.after_waitpid(pid),
        r >= 0 ==> *final(exit_code) == old(kernel)@.waited_exit_code(pid),
        r < 0 ==> *final(exit_code) == *old(exit_code),
{
    kernel.waitpid(pid, exit_code)
}

/// Starts the program `app` (`None` when no such program exists), without
/// arguments, in a new child of the running task, whose pending system call
/// returns 0, and queues the child; returns the child's pid, or -1 when
/// there is no program or no pid is left.
pub fn sys_spawn(kernel: &mut Kernel, app: Option<&[u8]>) -> (r: isize)
    requires
        old(kernel).wf(),
        old(kernel)@.current is Some,
    ensures
        final(kernel).wf(),
        app is None || old(kernel)@.tasks.len() >= isize::MAX ==> r == -1 && final(kernel)@ == old(
            kernel,
        )@,
        app is Some && old(kernel)@.tasks.len() < isize::MAX ==> {
            let n = old(kernel)@.tasks.len() as usize;
            &&& r == n
            &&& final(kernel)@ == old(kernel)@.after_fork().after_set_return(n as int, 0).after_exec(
                n as int,
                app->0@,
                Seq::empty(),
            ).after_add_task(n)
            &&& final(kernel)@.task(n as int).program == app->0@
            &&& final(kernel)@.task(n as int).args == Seq::<String>::empty()
            &&& final(kernel)@.task(n as int).trap_a0 == 0
            &&& final(kernel)@.task(n as int).parent == old(kernel)@.current
        },
{
    match app {
        Some(data) => {
            match kernel.fork() {
                Some(pid) => {
                    kernel.set_return_value(pid, 0);
                    kernel.exec(pid, data, Vec::new());
                    proof {
                        lemma_child_not_queued(old(kernel)@);
                    }
                    kernel.add_task(pid);
                    pid as isize
                },
                None => -1,
            }
        },
        None => -1,
    }
}

/// The permission `mmap` maps with always grants user access, and grants
/// read, write and execute exactly when bits 0, 1 and 2 of the protection
/// are set; it has no other bit.
pub proof fn lemma_mmap_perm_bits(prot: usize)
    requires
        0 < prot <= 7,
    ensures
        mmap_perm(prot) & MAP_PERM_U == MAP_PERM_U,
        (mmap_perm(prot) & MAP_PERM_R != 0) == (prot & 1 != 0),
        (mmap_perm(prot) & MAP_PERM_W != 0) == (prot & 2 != 0),
        (mmap_perm(prot) & MAP_PERM_X != 0) == (prot & 4 != 0),
        mmap_perm(prot) & !(MAP_PERM_R | MAP_PERM_W | MAP_PERM_X | MAP_PERM_U) == 0,
{
    let p = mmap_perm(prot);
    assert(p & 16u8 == 16u8 && ((p & 2u8 != 0) == (prot & 1 != 0)) && ((p & 4u8 != 0) == (prot & 2 != 0))
        && ((p & 8u8 != 0) == (prot & 4 != 0)) && p & !(2u8 | 4u8 | 8u8 | 16u8) == 0) by (bit_vector)
        requires
            0 < prot <= 7,
            p == (prot * 2 + 16) as u8,
    ;
}

} // verus!
