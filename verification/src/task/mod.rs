pub mod laws;
pub mod manager;
pub mod processor;

use vstd::prelude::*;

use crate::fs::mail::{clipped_len, empty_ring, MailBox, MailRingView};
use crate::fs::File;
use vstd::slice::slice_to_vec;
use crate::mm::{map_result, unmap_result, MappedPage, MemorySet};
pub use manager::TaskManager;
pub use processor::Processor;

verus! {

/// The priority a task starts with.
pub const DEFAULT_PRIORITY: usize = 16;

/// Where a task is in its life.
#[derive(PartialEq, Eq, Structural, Clone, Copy, Debug)]
pub enum TaskStatus {
    Ready,
    Running,
    Zombie,
}

/// Abstract state of one task.
#[verifier::ext_equal]
pub struct TaskView {
    pub pid: usize,
    pub status: TaskStatus,
    pub priority: usize,
    pub exit_code: i32,
    pub parent: Option<usize>,
    pub children: Seq<usize>,
    pub pages: Seq<MappedPage>,
    pub mail: MailRingView,
    pub trap_a0: usize,
    pub program: Seq<u8>,
    pub args: Seq<String>,
}

/// A task (process): its pid, status, scheduling priority, exit code,
/// parent and children (by pid), the pages it mapped, its mailbox, the
/// saved value of its return register `a0` (what its pending system call
/// returns), and the program image and arguments it runs.
pub struct TaskControlBlock {
    pid: usize,
    task_status: TaskStatus,
    task_priority: usize,
    exit_code: i32,
    parent: Option<usize>,
    children: Vec<usize>,
    memory_set: MemorySet,
    mailbox: MailBox,
    trap_a0: usize,
    program: Vec<u8>,
    args: Vec<String>,
}

impl View for TaskControlBlock {
    type V = TaskView;

    closed spec fn view(&self) -> TaskView {
        TaskView {
            pid: self.pid,
            status: self.task_status,
            priority: self.task_priority,
            exit_code: self.exit_code,
            parent: self.parent,
            children: self.children@,
            pages: self.memory_set@,
            mail: self.mailbox@,
            trap_a0: self.trap_a0,
            program: self.program@,
            args: self.args@,
        }
    }
}

impl TaskControlBlock {
    /// The task's pid.
    pub fn getpid(&self) -> (pid: usize)
        ensures
            pid == self@.pid,
    {
        self.pid
    }

    /// Whether the task has exited and waits to be reaped.
    pub fn is_zombie(&self) -> (r: bool)
        ensures
            r == (self@.status == TaskStatus::Zombie),
    {
        self.task_status == TaskStatus::Zombie
    }
}

pub open spec fn opt_task_view(o: Option<TaskControlBlock>) -> Option<TaskView> {
    match o {
        Some(t) => Some(t@),
        None => None,
    }
}

pub open spec fn tasks_view(s: Seq<Option<TaskControlBlock>>) -> Seq<Option<TaskView>> {
    Seq::new(s.len(), |i: int| opt_task_view(s[i]))
}

/// Abstract state of the kernel: the task table indexed by pid (`None` for
/// a pid whose task was reaped), the ready queue, the running task and the
/// pid of the initial process.
#[verifier::ext_equal]
pub struct KernelView {
    pub tasks: Seq<Option<TaskView>>,
    pub ready: Seq<usize>,
    pub current: Option<usize>,
    pub initproc: usize,
}

impl KernelView {
    pub open spec fn live(self, p: int) -> bool {
        0 <= p < self.tasks.len() && self.tasks[p] is Some
    }

    pub open spec fn task(self, p: int) -> TaskView {
        self.tasks[p]->0
    }

    /// The well-formedness of the task stored under pid `p`.
    pub open spec fn task_wf(self, p: int) -> bool {
        let t = self.task(p);
        &&& t.pid == p
        &&& t.parent != Some(p as usize)
        &&& t.parent matches Some(pp) ==> self.live(pp as int) && self.task(pp as int).children.contains(
            p as usize,
        )
        &&& t.mail.wf()
        &&& t.children.no_duplicates()
        &&& forall|k: int|
            0 <= k < t.children.len() ==> self.live(#[trigger] t.children[k] as int) && self.task(
                t.children[k] as int,
            ).parent == Some(p as usize)
        &&& t.status == TaskStatus::Zombie ==> t.children.len() == 0
        &&& t.status == TaskStatus::Running ==> self.current == Some(p as usize)
    }

    pub open spec fn wf(self) -> bool {
        &&& self.tasks.len() <= isize::MAX
        &&& self.live(self.initproc as int)
        &&& self.task(self.initproc as int).parent is None
        &&& self.task(self.initproc as int).status != TaskStatus::Zombie
        &&& forall|p: int| self.live(p) ==> #[trigger] self.task_wf(p)
        &&& self.ready.no_duplicates()
        &&& forall|i: int|
            0 <= i < self.ready.len() ==> self.live(#[trigger] self.ready[i] as int) && self.task(
                self.ready[i] as int,
            ).status == TaskStatus::Ready
        &&& self.current matches Some(c) ==> self.live(c as int) && self.task(c as int).status
            == TaskStatus::Running
    }

    /// The state with task `p` replaced by `t`.
    pub open spec fn with_task(self, p: int, t: TaskView) -> KernelView {
        KernelView { tasks: self.tasks.update(p, Some(t)), ..self }
    }

    /// One step of the idle loop: when no task runs, the task at the front
    /// of the ready queue (if any) is taken off it and runs.
    pub open spec fn after_run_next(self) -> KernelView {
        if self.current is None && self.ready.len() > 0 {
            let p = self.ready[0];
            KernelView {
                tasks: self.tasks.update(
                    p as int,
                    Some(TaskView { status: TaskStatus::Running, ..self.task(p as int) }),
                ),
                ready: self.ready.drop_first(),
                current: Some(p),
                initproc: self.initproc,
            }
        } else {
            self
        }
    }

    /// The running task gives up the processor: it becomes ready, joins the
    /// back of the ready queue, and the next task runs.
    pub open spec fn after_suspend(self) -> KernelView {
        let c = self.current->0;
        KernelView {
            tasks: self.tasks.update(
                c as int,
                Some(TaskView { status: TaskStatus::Ready, ..self.task(c as int) }),
            ),
            ready: self.ready.push(c),
            current: None,
            initproc: self.initproc,
        }.after_run_next()
    }

    /// The running task with priority `prio`.
    pub open spec fn after_set_priority(self, prio: usize) -> KernelView {
        let c = self.current->0 as int;
        self.with_task(c, TaskView { priority: prio, ..self.task(c) })
    }

    /// The running task forks: a new task whose pid is the table's length
    /// becomes its last child. It is a copy of the parent (priority, pages,
    /// saved `a0`, program and arguments) with exit code 0, no children and a
    /// fresh mailbox, ready but not yet queued.
    pub open spec fn after_fork(self) -> KernelView {
        let c = self.current->0;
        let n = self.tasks.len();
        let pt = self.task(c as int);
        KernelView {
            tasks: self.tasks.update(
                c as int,
                Some(TaskView { children: pt.children.push(n as usize), ..pt }),
            ).push(
                Some(
                    TaskView {
                        pid: n as usize,
                        status: TaskStatus::Ready,
                        exit_code: 0,
                        parent: Some(c),
                        children: Seq::empty(),
                        mail: empty_ring(),
                        ..pt
                    },
                ),
            ),
            ..self
        }
    }

    /// Task `p` joins the back of the ready queue.
    pub open spec fn after_add_task(self, p: usize) -> KernelView {
        KernelView { ready: self.ready.push(p), ..self }
    }

    /// Task `p` runs the program `program` with the arguments `args`: it
    /// records both, and the pages it mapped itself are gone.
    pub open spec fn after_exec(self, p: int, program: Seq<u8>, args: Seq<String>) -> KernelView {
        self.with_task(p, TaskView { pages: Seq::empty(), program, args, ..self.task(p) })
    }

    /// Task `p`'s saved return register `a0` holds `value`: its pending
    /// system call returns `value`.
    pub open spec fn after_set_return(self, p: int, value: usize) -> KernelView {
        self.with_task(p, TaskView { trap_a0: value, ..self.task(p) })
    }

    /// The task table after the running task `c` exits with `code`, before
    /// the next task is picked: `c` is a zombie with exit code `code`, no
    /// children and no pages; its children, in order, now belong to the
    /// initial process.
    pub open spec fn exit_table(self, code: i32) -> KernelView {
        let c = self.current->0 as int;
        let init = self.initproc as int;
        let ct = self.task(c);
        let it = self.task(init);
        KernelView {
            tasks: Seq::new(
                self.tasks.len(),
                |i: int|
                    if i == c {
                        Some(
                            TaskView {
                                status: TaskStatus::Zombie,
                                exit_code: code,
                                children: Seq::empty(),
                                pages: Seq::empty(),
                                ..ct
                            },
                        )
                    } else if i == init {
                        Some(TaskView { children: it.children + ct.children, ..it })
                    } else if ct.children.contains(i as usize) {
                        Some(TaskView { parent: Some(init as usize), ..self.task(i) })
                    } else {
                        self.tasks[i]
                    },
            ),
            ready: self.ready,
            current: None,
            initproc: self.initproc,
        }
    }

    /// The running task exits with `code` and the next ready task runs.
    pub open spec fn after_exit(self, code: i32) -> KernelView {
        self.exit_table(code).after_run_next()
    }

    /// The index, among the first `n` entries of `kids`, of the first child
    /// that `pid` selects and that has exited; -1 when there is none.
    pub open spec fn first_reapable(self, kids: Seq<usize>, pid: isize, n: int) -> int
        decreases n,
    {
        if n <= 0 {
            -1
        } else {
            let r = self.first_reapable(kids, pid, n - 1);
            if r >= 0 {
                r
            } else if wait_matches(pid, kids[n - 1]) && self.task(kids[n - 1] as int).status
                == TaskStatus::Zombie {
                n - 1
            } else {
                -1
            }
        }
    }

    /// The children of the running task.
    pub open spec fn current_children(self) -> Seq<usize> {
        self.task(self.current->0 as int).children
    }

    /// Whether `pid` selects some child of the running task.
    pub open spec fn has_waitable(self, pid: isize) -> bool {
        exists|k: int|
            0 <= k < self.current_children().len() && wait_matches(
                pid,
                #[trigger] self.current_children()[k],
            )
    }

    /// The position of the child that a wait for `pid` reaps, or -1.
    pub open spec fn wait_index(self, pid: isize) -> int {
        self.first_reapable(self.current_children(), pid, self.current_children().len() as int)
    }

    /// What `waitpid(pid)` returns: -1 when `pid` selects no child of the
    /// running task, -2 when no selected child has exited yet, else the pid
    /// of the first selected child that has exited.
    pub open spec fn waitpid_result(self, pid: isize) -> isize {
        if !self.has_waitable(pid) {
            -1isize
        } else if self.wait_index(pid) < 0 {
            -2isize
        } else {
            self.current_children()[self.wait_index(pid)] as isize
        }
    }

    /// The exit code that a successful `waitpid(pid)` reports.
    pub open spec fn waited_exit_code(self, pid: isize) -> i32 {
        self.task(self.current_children()[self.wait_index(pid)] as int).exit_code
    }

    /// The state after `waitpid(pid)`: a reaped child leaves its parent's
    /// children and the task table.
    pub open spec fn after_waitpid(self, pid: isize) -> KernelView {
        if self.waitpid_result(pid) >= 0 {
            let c = self.current->0 as int;
            let k = self.wait_index(pid);
            let z = self.current_children()[k] as int;
            KernelView {
                tasks: self.tasks.update(
                    c,
                    Some(TaskView { children: self.current_children().remove(k), ..self.task(c) }),
                ).update(z, None),
                ..self
            }
        } else {
            self
        }
    }
    /// The state after the running task maps `[start_va, end_va)` with `perm`.
    pub open spec fn after_map(self, start_va: int, end_va: int, perm: u8) -> KernelView {
        let c = self.current->0 as int;
        match map_result(self.task(c).pages, start_va, end_va, perm) {
            Some(pages) => self.with_task(c, TaskView { pages, ..self.task(c) }),
            None => self,
        }
    }

    /// The state after the running task unmaps `[start_va, end_va)`.
    pub open spec fn after_unmap(self, start_va: int, end_va: int) -> KernelView {
        let c = self.current->0 as int;
        match unmap_result(self.task(c).pages, start_va, end_va) {
            Some(pages) => self.with_task(c, TaskView { pages, ..self.task(c) }),
            None => self,
        }
    }

    /// What sending `data` to task `pid` returns: -1 unless the task waits in
    /// the ready queue with room in its mailbox, else the number of bytes
    /// stored.
    pub open spec fn send_mail_result(self, pid: usize, data: Seq<u8>) -> isize {
        if !self.ready.contains(pid) || self.task(pid as int).mail.is_full() {
            -1isize
        } else {
            clipped_len(data.len() as int) as isize
        }
    }

    /// The mailbox of the running task.
    pub open spec fn current_mail(self) -> MailRingView {
        self.task(self.current->0 as int).mail
    }

    /// The state after the running task takes the oldest datagram out of
    /// its mailbox.
    pub open spec fn after_read_mail(self) -> KernelView {
        let c = self.current->0 as int;
        self.with_task(c, TaskView { mail: self.current_mail().after_read(), ..self.task(c) })
    }

    /// The state after sending `data` to task `pid`.
    pub open spec fn after_send_mail(self, pid: usize, data: Seq<u8>) -> KernelView {
        if self.ready.contains(pid) && !self.task(pid as int).mail.is_full() && data.len() > 0 {
            self.with_task(
                pid as int,
                TaskView { mail: self.task(pid as int).mail.after_write(data), ..self.task(pid as int) },
            )
        } else {
            self
        }
    }
}

/// The whole kernel state: the task table indexed by pid, the ready queue,
/// the processor and the pid of the initial process.
pub struct Kernel {
    tasks: Vec<Option<TaskControlBlock>>,
    manager: TaskManager,
    processor: Processor,
    initproc: usize,
}

impl View for Kernel {
    type V = KernelView;

    closed spec fn view(&self) -> KernelView {
        KernelView {
            tasks: tasks_view(self.tasks@),
            ready: self.manager@,
            current: self.processor@,
            initproc: self.initproc,
        }
    }
}

proof fn lemma_tasks_view_update(s: Seq<Option<TaskControlBlock>>, p: int, x: Option<TaskControlBlock>)
    requires
        0 <= p < s.len(),
    ensures
        tasks_view(s.update(p, x)) == tasks_view(s).update(p, opt_task_view(x)),
{
    assert(tasks_view(s.update(p, x)) =~= tasks_view(s).update(p, opt_task_view(x)));
}

/// A copy of an argument list.
fn copy_args(args: &Vec<String>) -> (out: Vec<String>)
    ensures
        out@ == args@,
{
    let mut out: Vec<String> = Vec::new();
    let mut i: usize = 0;
    while i < args.len()
        invariant
            i <= args@.len(),
            out@ == args@.take(i as int),
        decreases args@.len() - i,
    {
        out.push(args[i].clone());
        i += 1;
        assert(out@ =~= args@.take(i as int));
    }
    assert(args@.take(i as int) =~= args@);
    out
}

/// Whether a wait for `pid` selects the child `child`: -1 selects every
/// child.
pub open spec fn wait_matches(pid: isize, child: usize) -> bool {
    pid == -1 || pid == child as int
}

/// The initial process: pid 0, ready, default priority, no parent, no
/// children, nothing mapped, an empty mailbox, saved `a0` 0, running
/// `program` without arguments.
pub open spec fn initial_task(program: Seq<u8>) -> TaskView {
    TaskView {
        pid: 0,
        status: TaskStatus::Ready,
        priority: DEFAULT_PRIORITY,
        exit_code: 0,
        parent: None,
        children: Seq::empty(),
        pages: Seq::empty(),
        mail: empty_ring(),
        trap_a0: 0,
        program,
        args: Seq::empty(),
    }
}

/// A child of `p` has `p` as parent; so a task is the child of one task at
/// most, and a child of the running task is no child of another task.
proof fn lemma_child_parent(v: KernelView, p: int, x: usize)
    requires
        v.wf(),
        v.live(p),
        v.task(p).children.contains(x),
    ensures
        v.live(x as int),
        v.task(x as int).parent == Some(p as usize),
{
    assert(v.task_wf(p));
    let k = choose|k: int| 0 <= k < v.task(p).children.len() && v.task(p).children[k] == x;
    assert(v.live(v.task(p).children[k] as int));
}

/// Exiting keeps the kernel well-formed.
proof fn lemma_exit_table_wf(o: KernelView, code: i32)
    requires
        o.wf(),
        o.current is Some,
        o.current != Some(o.initproc),
    ensures
        o.exit_table(code).wf(),
{
    let v = o.exit_table(code);
    let c = o.current->0 as int;
    let init = o.initproc as int;
    let ct = o.task(c);
    let it = o.task(init);
    assert(o.task_wf(c));
    assert(o.task_wf(init));
    assert forall|q: int| v.live(q) implies o.live(q) by {}
    assert forall|q: int| o.live(q) implies v.live(q) by {}
    // the children of the exiting task are neither it nor the initial process
    assert(!ct.children.contains(c as usize)) by {
        if ct.children.contains(c as usize) {
            lemma_child_parent(o, c, c as usize);
        }
    }
    assert(!ct.children.contains(init as usize)) by {
        if ct.children.contains(init as usize) {
            lemma_child_parent(o, c, init as usize);
        }
    }
    // a task's parent field stays, unless it was a child of the exiting task
    assert forall|y: int| #![trigger v.task(y)] v.live(y) && !ct.children.contains(y as usize) implies v.task(y).parent == o.task(y).parent by {}
    assert forall|y: int| #![trigger v.task(y)] v.live(y) && ct.children.contains(y as usize) implies v.task(y).parent == Some(init as usize) by {}
    // no task runs any more
    assert forall|q: int| v.live(q) implies v.task(q).status != TaskStatus::Running by {
        assert(o.task_wf(q));
    }
    assert(v.task(init).status != TaskStatus::Zombie);
    // every list of children but that of the exiting task only grows
    assert forall|pp: int, x: usize| #![trigger o.task(pp).children.contains(x)] o.live(pp) && pp != c && o.task(pp).children.contains(x) implies v.task(pp).children.contains(x) by {
        if pp == init {
            let j = choose|j: int| 0 <= j < it.children.len() && it.children[j] == x;
            assert((it.children + ct.children)[j] == x);
        }
    }
    assert forall|q: int| v.live(q) implies #[trigger] v.task_wf(q) by {
        assert(o.task_wf(q));
        let t = v.task(q);
        if ct.children.contains(q as usize) {
            let j = choose|j: int| 0 <= j < ct.children.len() && ct.children[j] == q as usize;
            assert((it.children + ct.children)[it.children.len() + j] == q as usize);
        } else if q != c && q != init {
            if o.task(q).parent is Some {
                let pp = o.task(q).parent->0 as int;
                assert(o.task(pp).children.contains(q as usize));
            }
        } else {
            if o.task(q).parent is Some {
                let pp = o.task(q).parent->0 as int;
                assert(o.task(pp).children.contains(q as usize));
            }
        }
        if q == c {
            assert(t.children.no_duplicates());
        } else if q == init {
            let a = it.children;
            let b = ct.children;
            assert(t.children == a + b);
            assert forall|i: int, j: int| 0 <= i < t.children.len() && 0 <= j < t.children.len() && i != j implies t.children[i] != t.children[j] by {
                if i < a.len() && j >= a.len() {
                    lemma_child_parent(o, init, a[i]);
                    lemma_child_parent(o, c, b[j - a.len()]);
                    assert(t.children[j] == b[j - a.len()]);
                } else if j < a.len() && i >= a.len() {
                    lemma_child_parent(o, init, a[j]);
                    lemma_child_parent(o, c, b[i - a.len()]);
                    assert(t.children[i] == b[i - a.len()]);
                } else if i < a.len() {
                } else {
                    assert(t.children[i] == b[i - a.len()]);
                    assert(t.children[j] == b[j - a.len()]);
                }
            }
            assert forall|k: int| 0 <= k < t.children.len() implies v.live(#[trigger] t.children[k] as int) && v.task(t.children[k] as int).parent == Some(q as usize) by {
                let x = t.children[k];
                if k < a.len() {
                    assert(a[k] == x);
                    assert(a.contains(x));
                    lemma_child_parent(o, init, x);
                    if b.contains(x) {
                        lemma_child_parent(o, c, x);
                    }
                } else {
                    assert(b[k - a.len()] == x);
                    assert(b.contains(x));
                    lemma_child_parent(o, c, x);
                }
            }
        } else {
            assert(t.children == o.task(q).children);
            assert forall|k: int| 0 <= k < t.children.len() implies v.live(#[trigger] t.children[k] as int) && v.task(t.children[k] as int).parent == Some(q as usize) by {
                let x = t.children[k];
                assert(o.task(q).children.contains(x));
                lemma_child_parent(o, q, x);
                if ct.children.contains(x) {
                    lemma_child_parent(o, c, x);
                }
            }
        }
    }
    assert forall|i: int| 0 <= i < v.ready.len() implies v.live(#[trigger] v.ready[i] as int) && v.task(v.ready[i] as int).status == TaskStatus::Ready by {
        assert(o.live(o.ready[i] as int));
    }
}

/// The found child is one of the first `n`, selected by `pid`, and exited.
proof fn lemma_first_reapable_found(v: KernelView, kids: Seq<usize>, pid: isize, n: int)
    requires
        v.first_reapable(kids, pid, n) >= 0,
    ensures
        v.first_reapable(kids, pid, n) < n,
        wait_matches(pid, kids[v.first_reapable(kids, pid, n)]),
        v.task(kids[v.first_reapable(kids, pid, n)] as int).status == TaskStatus::Zombie,
    decreases n,
{
    if n > 0 && v.first_reapable(kids, pid, n - 1) >= 0 {
        lemma_first_reapable_found(v, kids, pid, n - 1);
    }
}

/// Reaping a child keeps the kernel well-formed.
proof fn lemma_reap_wf(o: KernelView, pid: isize)
    requires
        o.wf(),
        o.current is Some,
        o.waitpid_result(pid) >= 0,
    ensures
        o.after_waitpid(pid).wf(),
{
    let v = o.after_waitpid(pid);
    let c = o.current->0 as int;
    let kids = o.current_children();
    let k = o.wait_index(pid);
    lemma_first_reapable_found(o, kids, pid, kids.len() as int);
    let z = kids[k] as int;
    assert(o.task_wf(c));
    assert(kids.contains(z as usize));
    lemma_child_parent(o, c, z as usize);
    assert(o.task_wf(z));
    assert(z != c);
    assert(z != o.initproc as int);
    let nk = kids.remove(k);
    assert forall|j: int| 0 <= j < nk.len() implies #[trigger] nk[j] != z as usize && kids.contains(nk[j]) by {
        if j < k {
            assert(nk[j] == kids[j]);
        } else {
            assert(nk[j] == kids[j + 1]);
        }
    }
    assert(o.task(z).children.len() == 0);
    assert forall|q: int| v.live(q) implies #[trigger] v.task_wf(q) by {
        assert(o.task_wf(q));
        let t = v.task(q);
        if o.task(q).parent is Some {
            let pp = o.task(q).parent->0 as int;
            assert(o.task(pp).children.contains(q as usize));
            if pp == z {
                assert(o.task(z).children.contains(q as usize));
            }
            if pp == c {
                let j = choose|j: int| 0 <= j < kids.len() && kids[j] == q as usize;
                if j < k {
                    assert(nk[j] == q as usize);
                } else {
                    assert(j != k);
                    assert(nk[j - 1] == q as usize);
                }
            }
        }
        if q == c {
            assert(t.children == nk);
            assert forall|i: int, j: int| 0 <= i < nk.len() && 0 <= j < nk.len() && i != j implies nk[i] != nk[j] by {
                let ii = if i < k { i } else { i + 1 };
                let jj = if j < k { j } else { j + 1 };
                assert(nk[i] == kids[ii]);
                assert(nk[j] == kids[jj]);
            }
            assert forall|kk: int| 0 <= kk < t.children.len() implies v.live(#[trigger] t.children[kk] as int) && v.task(t.children[kk] as int).parent == Some(q as usize) by {
                lemma_child_parent(o, c, nk[kk]);
            }
        } else {
            assert forall|kk: int| 0 <= kk < t.children.len() implies v.live(#[trigger] t.children[kk] as int) && v.task(t.children[kk] as int).parent == Some(q as usize) by {
                let x = t.children[kk];
                assert(o.task(q).children.contains(x));
                lemma_child_parent(o, q, x);
            }
        }
    }
    assert forall|i: int| 0 <= i < v.ready.len() implies v.live(#[trigger] v.ready[i] as int) && v.task(v.ready[i] as int).status == TaskStatus::Ready by {
        assert(o.live(o.ready[i] as int));
    }
}

/// A change that keeps every task's pid, parent and children, leaves every
/// mailbox well-formed, makes no task a zombie and lets only the running
/// task run keeps every task well-formed.
proof fn lemma_links_kept_tasks_wf(o: KernelView, v: KernelView)
    requires
        o.wf(),
        v.tasks.len() == o.tasks.len(),
        forall|p: int| #![trigger v.tasks[p]] 0 <= p < o.tasks.len() ==> (o.tasks[p] is Some <==> v.tasks[p] is Some),
        forall|p: int|
            #![trigger v.task(p)]
            o.live(p) ==> {
                &&& v.task(p).pid == o.task(p).pid
                &&& v.task(p).parent == o.task(p).parent
                &&& v.task(p).children == o.task(p).children
                &&& (v.task(p).mail == o.task(p).mail || v.task(p).mail.wf())
                &&& v.task(p).status == TaskStatus::Zombie ==> o.task(p).status == TaskStatus::Zombie
                &&& v.task(p).status == TaskStatus::Running ==> v.current == Some(p as usize)
            },
    ensures
        forall|q: int| v.live(q) ==> #[trigger] v.task_wf(q),
{
    assert forall|q: int| v.live(q) implies #[trigger] v.task_wf(q) by {
        assert(v.tasks[q] is Some);
        assert(o.task_wf(q));
        let t = v.task(q);
        assert forall|k: int| 0 <= k < t.children.len() implies v.live(#[trigger] t.children[k] as int) && v.task(t.children[k] as int).parent == Some(q as usize) by {
            assert(o.live(t.children[k] as int));
            assert(v.tasks[t.children[k] as int] is Some);
        }
        if t.parent is Some {
            assert(v.tasks[t.parent->0 as int] is Some);
        }
    }
}

/// A change that keeps every task's pid, parent, children and status and the
/// queue and the processor, and leaves every mailbox well-formed, keeps the
/// kernel well-formed.
proof fn lemma_same_links_wf(o: KernelView, v: KernelView)
    requires
        o.wf(),
        v.tasks.len() == o.tasks.len(),
        v.ready == o.ready,
        v.current == o.current,
        v.initproc == o.initproc,
        forall|p: int| #![trigger v.tasks[p]] 0 <= p < o.tasks.len() ==> (o.tasks[p] is Some <==> v.tasks[p] is Some),
        forall|p: int|
            #![trigger v.task(p)]
            o.live(p) ==> {
                &&& v.task(p).pid == o.task(p).pid
                &&& v.task(p).parent == o.task(p).parent
                &&& v.task(p).children == o.task(p).children
                &&& v.task(p).status == o.task(p).status
                &&& (v.task(p).mail == o.task(p).mail || v.task(p).mail.wf())
            },
    ensures
        v.wf(),
{
    assert forall|p: int| o.live(p) && v.task(p).status == TaskStatus::Running implies v.current == Some(p as usize) by {
        assert(o.task_wf(p));
    }
    lemma_links_kept_tasks_wf(o, v);
    assert forall|i: int| 0 <= i < v.ready.len() implies v.live(#[trigger] v.ready[i] as int) && v.task(v.ready[i] as int).status == TaskStatus::Ready by {
        assert(o.live(o.ready[i] as int));
        assert(v.tasks[o.ready[i] as int] is Some);
    }
    assert(v.tasks[v.initproc as int] is Some);
    if o.current is Some {
        assert(v.tasks[o.current->0 as int] is Some);
    }
}

impl Kernel {
    pub open spec fn wf(&self) -> bool {
        self@.wf()
    }

    /// A kernel whose only task is the initial process, pid 0, running the
    /// program `initproc_app`, ready but not yet queued.
    pub fn new(initproc_app: &[u8]) -> (k: Kernel)
        ensures
            k.wf(),
            k@.tasks == seq![Some(initial_task(initproc_app@))],
            k@.ready == Seq::<usize>::empty(),
            k@.current is None,
            k@.initproc == 0,
    {
        let init = TaskControlBlock {
            pid: 0,
            task_status: TaskStatus::Ready,
            task_priority: DEFAULT_PRIORITY,
            exit_code: 0,
            parent: None,
            children: Vec::new(),
            memory_set: MemorySet::new_bare(),
            mailbox: MailBox::new(),
            trap_a0: 0,
            program: slice_to_vec(initproc_app),
            args: Vec::new(),
        };
        let mut tasks: Vec<Option<TaskControlBlock>> = Vec::new();
        tasks.push(Some(init));
        let k = Kernel { tasks, manager: TaskManager::new(), processor: Processor::new(), initproc: 0 };
        assert(k@.tasks =~= seq![Some(initial_task(initproc_app@))]);
        assert(k@.task_wf(0));
        k
    }

    fn take_task(&mut self, p: usize) -> (t: TaskControlBlock)
        requires
            p < old(self).tasks@.len(),
            old(self).tasks@[p as int] is Some,
        ensures
            final(self).tasks@ == old(self).tasks@.update(p as int, None),
            final(self)@.tasks == old(self)@.tasks.update(p as int, None),
            Some(t) == old(self).tasks@[p as int],
            Some(t@) == old(self)@.tasks[p as int],
            final(self).manager == old(self).manager,
            final(self).processor == old(self).processor,
            final(self).initproc == old(self).initproc,
    {
        let mut slot: Option<TaskControlBlock> = None;
        self.tasks.set_and_swap(p, &mut slot);
        proof {
            lemma_tasks_view_update(old(self).tasks@, p as int, None);
        }
        slot.unwrap()
    }

    fn put_task(&mut self, p: usize, t: TaskControlBlock)
        requires
            p < old(self).tasks@.len(),
        ensures
            final(self).tasks@ == old(self).tasks@.update(p as int, Some(t)),
            final(self)@.tasks == old(self)@.tasks.update(p as int, Some(t@)),
            final(self).manager == old(self).manager,
            final(self).processor == old(self).processor,
            final(self).initproc == old(self).initproc,
    {
        self.tasks.set(p, Some(t));
        proof {
            lemma_tasks_view_update(old(self).tasks@, p as int, Some(t));
        }
    }

    /// Puts the initial process on the ready queue.
    pub fn add_initproc(&mut self)
        requires
            old(self).wf(),
            !old(self)@.ready.contains(old(self)@.initproc),
            old(self)@.task(old(self)@.initproc as int).status == TaskStatus::Ready,
        ensures
            final(self).wf(),
            final(self)@ == (KernelView { ready: old(self)@.ready.push(old(self)@.initproc), ..old(self)@ }),
    {
        let init = self.initproc;
        self.manager.add(init);
        proof {
            let v = self@;
            assert forall|i: int| 0 <= i < v.ready.len() implies v.live(#[trigger] v.ready[i] as int) && v.task(v.ready[i] as int).status == TaskStatus::Ready by {
                if i < old(self)@.ready.len() {
                    assert(v.ready[i] == old(self)@.ready[i]);
                }
            }
            assert forall|q: int| old(self)@.live(q) implies old(self)@.task_wf(q) by {}
            lemma_links_kept_tasks_wf(old(self)@, v);
        }
    }

    /// The pid of the running task.
    pub fn current_task(&self) -> (pid: Option<usize>)
        ensures
            pid == self@.current,
    {
        self.processor.current()
    }

    /// One step of the idle loop: when no task runs, the task at the front
    /// of the ready queue (if any) starts running.
    pub fn run_next(&mut self)
        requires
            old(self).wf(),
        ensures
            final(self).wf(),
            final(self)@ == old(self)@.after_run_next(),
    {
        if self.processor.current().is_none() {
            match self.manager.fetch() {
                Some(p) => {
                    let mut t = self.take_task(p);
                    t.task_status = TaskStatus::Running;
                    self.put_task(p, t);
                    self.processor.set_current(p);
                    proof {
                        let o = old(self)@;
                        let v = self@;
                        assert(v.tasks =~= o.after_run_next().tasks);
                        assert(v =~= o.after_run_next());
                        assert forall|q: int| o.live(q) && q != p implies o.task(q).status != TaskStatus::Running by {
                            assert(o.task_wf(q));
                        }
                        lemma_links_kept_tasks_wf(o, v);
                        assert forall|i: int| 0 <= i < v.ready.len() implies v.live(#[trigger] v.ready[i] as int) && v.task(v.ready[i] as int).status == TaskStatus::Ready by {
                            assert(v.ready[i] == o.ready[i + 1]);
                            assert(o.ready[i + 1] != o.ready[0]);
                        }
                    }
                },
                None => {},
            }
        }
    }

    /// The running task gives up the processor: it becomes ready, goes to the
    /// back of the ready queue, and the next ready task runs.
    pub fn suspend_current_and_run_next(&mut self)
        requires
            old(self).wf(),
            old(self)@.current is Some,
        ensures
            final(self).wf(),
            final(self)@ == old(self)@.after_suspend(),
    {
        let c = self.processor.take_current().unwrap();
        let mut t = self.take_task(c);
        t.task_status = TaskStatus::Ready;
        self.put_task(c, t);
        self.manager.add(c);
        proof {
            let o = old(self)@;
            let v = self@;
            let mid = KernelView {
                tasks: o.tasks.update(c as int, Some(TaskView { status: TaskStatus::Ready, ..o.task(c as int) })),
                ready: o.ready.push(c),
                current: None,
                initproc: o.initproc,
            };
            assert(v.tasks =~= mid.tasks);
            assert(v =~= mid);
            assert(!o.ready.contains(c)) by {
                if o.ready.contains(c) {
                    let i = choose|i: int| 0 <= i < o.ready.len() && o.ready[i] == c;
                    assert(o.task(o.ready[i] as int).status == TaskStatus::Ready);
                }
            }
            assert forall|q: int| o.live(q) && q != c implies o.task(q).status != TaskStatus::Running by {
                assert(o.task_wf(q));
            }
            lemma_links_kept_tasks_wf(o, v);
            assert forall|i: int| 0 <= i < v.ready.len() implies v.live(#[trigger] v.ready[i] as int) && v.task(v.ready[i] as int).status == TaskStatus::Ready by {
                if i < o.ready.len() {
                    assert(v.ready[i] == o.ready[i]);
                }
            }
        }
        self.run_next();
    }

    /// Sets the priority of the running task.
    pub fn set_priority(&mut self, prio: usize)
        requires
            old(self).wf(),
            old(self)@.current is Some,
        ensures
            final(self).wf(),
            final(self)@ == old(self)@.after_set_priority(prio),
    {
        let c = self.processor.current().unwrap();
        let mut t = self.take_task(c);
        t.task_priority = prio;
        self.put_task(c, t);
        proof {
            let o = old(self)@;
            let v = self@;
            assert(v.tasks =~= o.after_set_priority(prio).tasks);
            assert(v =~= o.after_set_priority(prio));
            lemma_same_links_wf(o, v);
        }
    }

    /// The running task forks. The child gets the next pid, a copy of the
    /// parent's priority, pages, saved `a0`, program and arguments, and a
    /// fresh mailbox; it is ready but not yet queued. No pid is left once the
    /// table holds `isize::MAX` entries.
    pub fn fork(&mut self) -> (child: Option<usize>)
        requires
            old(self).wf(),
            old(self)@.current is Some,
        ensures
            final(self).wf(),
            old(self)@.tasks.len() < isize::MAX ==> child == Some(old(self)@.tasks.len() as usize)
                && final(self)@ == old(self)@.after_fork(),
            old(self)@.tasks.len() >= isize::MAX ==> child is None && final(self)@ == old(self)@,
    {
        let n = self.tasks.len();
        if n >= isize::MAX as usize {
            return None;
        }
        let c = self.processor.current().unwrap();
        let mut t = self.take_task(c);
        let child = TaskControlBlock {
            pid: n,
            task_status: TaskStatus::Ready,
            task_priority: t.task_priority,
            exit_code: 0,
            parent: Some(c),
            children: Vec::new(),
            memory_set: MemorySet::from_existed_user(&t.memory_set),
            mailbox: MailBox::new(),
            trap_a0: t.trap_a0,
            program: slice_to_vec(t.program.as_slice()),
            args: copy_args(&t.args),
        };
        t.children.push(n);
        self.put_task(c, t);
        let ghost before_push = self.tasks@;
        self.tasks.push(Some(child));
        proof {
            let o = old(self)@;
            let v = self@;
            assert(self.tasks@ == before_push.push(Some(child)));
            assert(v.tasks =~= o.after_fork().tasks);
            assert(v =~= o.after_fork());
            assert(o.task_wf(c as int));
            assert(!o.task(c as int).children.contains(n)) by {
                if o.task(c as int).children.contains(n) {
                    let k = choose|k: int| 0 <= k < o.task(c as int).children.len() && o.task(c as int).children[k] == n;
                    assert(o.live(o.task(c as int).children[k] as int));
                }
            }
            assert(v.task(c as int).children[v.task(c as int).children.len() - 1] == n);
            assert forall|q: int| v.live(q) implies #[trigger] v.task_wf(q) by {
                if q < n {
                    assert(o.task_wf(q));
                    if o.task(q).parent is Some {
                        let pp = o.task(q).parent->0 as int;
                        assert(o.task(pp).children.contains(q as usize));
                        if pp == c {
                            let j = choose|j: int| 0 <= j < o.task(c as int).children.len() && o.task(c as int).children[j] == q as usize;
                            assert(v.task(c as int).children[j] == q as usize);
                        }
                    }
                    let t = v.task(q);
                    assert forall|k: int| 0 <= k < t.children.len() implies v.live(#[trigger] t.children[k] as int) && v.task(t.children[k] as int).parent == Some(q as usize) by {
                        if q == c && k == t.children.len() - 1 {
                        } else {
                            assert(o.live(t.children[k] as int));
                        }
                    }
                    if q == c {
                        assert(t.children.no_duplicates());
                    }
                }
            }
            assert forall|i: int| 0 <= i < v.ready.len() implies v.live(#[trigger] v.ready[i] as int) && v.task(v.ready[i] as int).status == TaskStatus::Ready by {
                assert(o.live(o.ready[i] as int));
            }
        }
        Some(n)
    }

    /// Puts ready task `p` at the back of the ready queue.
    pub fn add_task(&mut self, p: usize)
        requires
            old(self).wf(),
            old(self)@.live(p as int),
            old(self)@.task(p as int).status == TaskStatus::Ready,
            !old(self)@.ready.contains(p),
        ensures
            final(self).wf(),
            final(self)@ == old(self)@.after_add_task(p),
    {
        self.manager.add(p);
        proof {
            let o = old(self)@;
            let v = self@;
            assert(v =~= o.after_add_task(p));
            assert forall|i: int| 0 <= i < v.ready.len() implies v.live(#[trigger] v.ready[i] as int) && v.task(v.ready[i] as int).status == TaskStatus::Ready by {
                if i < o.ready.len() {
                    assert(v.ready[i] == o.ready[i]);
                }
            }
            assert forall|q: int| o.live(q) implies o.task_wf(q) by {}
            lemma_links_kept_tasks_wf(o, v);
        }
    }

    /// Task `p` starts running the program `app` with the arguments `args`;
    /// the pages it mapped itself are dropped.
    pub fn exec(&mut self, p: usize, app: &[u8], args: Vec<String>)
        requires
            old(self).wf(),
            old(self)@.live(p as int),
        ensures
            final(self).wf(),
            final(self)@ == old(self)@.after_exec(p as int, app@, args@),
    {
        let mut t = self.take_task(p);
        t.memory_set = MemorySet::new_bare();
        t.program = slice_to_vec(app);
        t.args = args;
        self.put_task(p, t);
        proof {
            let o = old(self)@;
            let v = self@;
            assert(v.tasks =~= o.after_exec(p as int, app@, args@).tasks);
            assert(v =~= o.after_exec(p as int, app@, args@));
            lemma_same_links_wf(o, v);
        }
    }

    /// Sets the saved return register `a0` of task `p`: the value its
    /// pending system call returns.
    pub fn set_return_value(&mut self, p: usize, value: usize)
        requires
            old(self).wf(),
            old(self)@.live(p as int),
        ensures
            final(self).wf(),
            final(self)@ == old(self)@.after_set_return(p as int, value),
    {
        let mut t = self.take_task(p);
        t.trap_a0 = value;
        self.put_task(p, t);
        proof {
            let o = old(self)@;
            let v = self@;
            assert(v.tasks =~= o.after_set_return(p as int, value).tasks);
            assert(v =~= o.after_set_return(p as int, value));
            lemma_same_links_wf(o, v);
        }
    }

    /// The running task exits with `exit_code`: it becomes a zombie that
    /// keeps the code for its parent, its children go to the initial
    /// process, its pages are released, and the next ready task runs. The
    /// initial process itself never exits.
    pub fn exit_current_and_run_next(&mut self, exit_code: i32)
        requires
            old(self).wf(),
            old(self)@.current is Some,
            old(self)@.current != Some(old(self)@.initproc),
        ensures
            final(self).wf(),
            final(self)@ == old(self)@.after_exit(exit_code),
    {
        let ghost o = self@;
        let ghost ot = self.tasks@;
        let c = self.processor.take_current().unwrap();
        let init = self.initproc;
        let mut task = self.take_task(c);
        task.task_status = TaskStatus::Zombie;
        task.exit_code = exit_code;
        let mut init_task = self.take_task(init);
        let ghost kids = task.children@;
        proof {
            assert(o.task_wf(c as int));
            assert(!kids.contains(c)) by {
                if kids.contains(c) {
                    lemma_child_parent(o, c as int, c);
                }
            }
            assert(!kids.contains(init)) by {
                if kids.contains(init) {
                    lemma_child_parent(o, c as int, init);
                }
            }
        }
        let mut k: usize = 0;
        while k < task.children.len()
            invariant
                o.wf(),
                o.current == Some(c),
                c != init,
                init == o.initproc,
                k <= kids.len(),
                task.children@ == kids,
                kids == o.task(c as int).children,
                !kids.contains(c),
                !kids.contains(init),
                self.processor@ is None,
                self.manager@ == o.ready,
                self.initproc == init,
                self.tasks@.len() == ot.len(),
                o.tasks.len() == ot.len(),
                init_task@.children == o.task(init as int).children + kids.take(k as int),
                init_task@ == (TaskView { children: init_task@.children, ..o.task(init as int) }),
                self@.tasks == Seq::new(
                    o.tasks.len(),
                    |i: int|
                        if i == c || i == init {
                            None
                        } else if kids.take(k as int).contains(i as usize) {
                            Some(TaskView { parent: Some(init), ..o.task(i) })
                        } else {
                            o.tasks[i]
                        },
                ),
            decreases kids.len() - k,
        {
            let child = task.children[k];
            proof {
                assert(kids.contains(child));
                assert(o.task_wf(c as int));
                lemma_child_parent(o, c as int, child);
                assert(!kids.take(k as int).contains(child)) by {
                    if kids.take(k as int).contains(child) {
                        let j = choose|j: int| 0 <= j < k && kids.take(k as int)[j] == child;
                        assert(kids[j] == kids[k as int]);
                    }
                }
                assert(self@.tasks[child as int] == o.tasks[child as int]);
                assert(self@.tasks[child as int] == opt_task_view(self.tasks@[child as int]));
            }
            let ghost before = self@.tasks;
            let mut ct = self.take_task(child);
            ct.parent = Some(init);
            assert(ct@ == TaskView { parent: Some(init), ..o.task(child as int) });
            self.put_task(child, ct);
            init_task.children.push(child);
            k += 1;
            proof {
                let cur = kids.take(k as int);
                let prev = kids.take(k - 1);
                assert(cur == prev.push(child));
                assert forall|i: int| 0 <= i < o.tasks.len() implies (#[trigger] cur.contains(i as usize) <==> (prev.contains(i as usize) || i == child)) by {
                    if i == child {
                        assert(cur[k - 1] == child);
                    }
                    if cur.contains(i as usize) {
                        let j = choose|j: int| 0 <= j < cur.len() && cur[j] == i as usize;
                        if j < k - 1 {
                            assert(prev[j] == i as usize);
                        }
                    }
                    if prev.contains(i as usize) {
                        let j = choose|j: int| 0 <= j < prev.len() && prev[j] == i as usize;
                        assert(cur[j] == i as usize);
                    }
                }
                assert(init_task@.children =~= o.task(init as int).children + kids.take(k as int));
                assert(self@.tasks =~= Seq::new(
                    o.tasks.len(),
                    |i: int|
                        if i == c || i == init {
                            None
                        } else if kids.take(k as int).contains(i as usize) {
                            Some(TaskView { parent: Some(init), ..o.task(i) })
                        } else {
                            o.tasks[i]
                        },
                ));
            }
        }
        self.put_task(init, init_task);
        task.children.clear();
        task.memory_set.recycle_data_pages();
        self.put_task(c, task);
        proof {
            assert(kids.take(kids.len() as int) == kids);
            assert(self@.tasks =~= o.exit_table(exit_code).tasks);
            assert(self@ =~= o.exit_table(exit_code));
            lemma_exit_table_wf(o, exit_code);
        }
        self.run_next();
    }

    fn task_ref(&self, p: usize) -> (t: &TaskControlBlock)
        requires
            self@.live(p as int),
        ensures
            Some(*t) == self.tasks@[p as int],
            t@ == self@.task(p as int),
    {
        assert(self@.tasks[p as int] == opt_task_view(self.tasks@[p as int]));
        self.tasks[p].as_ref().unwrap()
    }

    /// Reaps a child of the running task. `pid` -1 selects every child,
    /// another value the child with that pid. Returns -1 when `pid` selects
    /// no child, -2 when no selected child has exited yet; otherwise the first
    /// selected child that has exited leaves the task table, its exit code
    /// goes to `exit_code`, and its pid is returned.
    pub fn waitpid(&mut self, pid: isize, exit_code: &mut i32) -> (r: isize)
        requires
            old(self).wf(),
            old(self)@.current is Some,
        ensures
            final(self).wf(),
            r == old(self)@.waitpid_result(pid),
            final(self)@ == old(self)@.after_waitpid(pid),
            r >= 0 ==> *final(exit_code) == old(self)@.waited_exit_code(pid),
            r < 0 ==> *final(exit_code) == *old(exit_code),
    {
        let ghost o = self@;
        let c = self.processor.current().unwrap();
        let t = self.task_ref(c);
        let ghost kids = t.children@;
        let n = t.children.len();
        let mut any = false;
        let mut found: usize = n;
        let mut i: usize = 0;
        while i < n
            invariant
                o == self@,
                o.wf(),
                o.current == Some(c),
                kids == o.current_children(),
                t.children@ == kids,
                n == kids.len(),
                i <= n,
                any == exists|j: int| 0 <= j < i && wait_matches(pid, #[trigger] kids[j]),
                found == (if o.first_reapable(kids, pid, i as int) >= 0 {
                    o.first_reapable(kids, pid, i as int)
                } else {
                    n as int
                }),
            decreases n - i,
        {
            proof {
                if o.first_reapable(kids, pid, i as int) >= 0 {
                    lemma_first_reapable_found(o, kids, pid, i as int);
                }
            }
            let ch = t.children[i];
            let matches = pid == -1 || (pid >= 0 && pid as usize == ch);
            assert(matches == wait_matches(pid, kids[i as int]));
            if matches {
                any = true;
                if found == n {
                    proof {
                        assert(o.task_wf(c as int));
                        assert(o.live(kids[i as int] as int));
                    }
                    if self.task_ref(ch).is_zombie() {
                        found = i;
                    }
                }
            }
            i += 1;
        }
        proof {
            assert(any == o.has_waitable(pid));
            if o.first_reapable(kids, pid, n as int) >= 0 {
                lemma_first_reapable_found(o, kids, pid, n as int);
            }
        }
        if !any {
            return -1;
        }
        if found == n {
            return -2;
        }
        let mut pt = self.take_task(c);
        let z = pt.children.remove(found);
        self.put_task(c, pt);
        proof {
            lemma_first_reapable_found(o, kids, pid, n as int);
            assert(o.task_wf(c as int));
            assert(kids.contains(z));
            lemma_child_parent(o, c as int, z);
            assert(z != c);
        }
        let zt = self.take_task(z);
        *exit_code = zt.exit_code;
        proof {
            assert(self@.tasks =~= o.after_waitpid(pid).tasks);
            assert(self@ =~= o.after_waitpid(pid));
            lemma_reap_wf(o, pid);
        }
        z as isize
    }

    /// Maps `[start_va, end_va)` with `perm` into the running task; returns 0,
    /// or -1 with nothing changed when a page of the range is mapped.
    pub fn map_dynamic(&mut self, start_va: usize, end_va: usize, perm: u8) -> (r: isize)
        requires
            old(self).wf(),
            old(self)@.current is Some,
            start_va <= end_va,
        ensures
            final(self).wf(),
            final(self)@ == old(self)@.after_map(start_va as int, end_va as int, perm),
            r == (if map_result(old(self)@.task(old(self)@.current->0 as int).pages, start_va as int, end_va as int, perm) is Some {
                0isize
            } else {
                -1isize
            }),
    {
        let c = self.processor.current().unwrap();
        let mut t = self.take_task(c);
        let r = t.memory_set.map_dynamic(start_va, end_va, perm);
        self.put_task(c, t);
        proof {
            let o = old(self)@;
            let v = self@;
            assert(v.tasks =~= o.after_map(start_va as int, end_va as int, perm).tasks);
            assert(v =~= o.after_map(start_va as int, end_va as int, perm));
            lemma_same_links_wf(o, v);
        }
        r
    }

    /// Unmaps `[start_va, end_va)` from the running task; returns 0, or -1
    /// with nothing changed when a page of the range is not mapped.
    pub fn unmap_dynamic(&mut self, start_va: usize, end_va: usize) -> (r: isize)
        requires
            old(self).wf(),
            old(self)@.current is Some,
            start_va <= end_va,
        ensures
            final(self).wf(),
            final(self)@ == old(self)@.after_unmap(start_va as int, end_va as int),
            r == (if unmap_result(old(self)@.task(old(self)@.current->0 as int).pages, start_va as int, end_va as int) is Some {
                0isize
            } else {
                -1isize
            }),
    {
        let c = self.processor.current().unwrap();
        let mut t = self.take_task(c);
        let r = t.memory_set.unmap_dynamic(start_va, end_va);
        self.put_task(c, t);
        proof {
            let o = old(self)@;
            let v = self@;
            assert(v.tasks =~= o.after_unmap(start_va as int, end_va as int).tasks);
            assert(v =~= o.after_unmap(start_va as int, end_va as int));
            lemma_same_links_wf(o, v);
        }
        r
    }

    /// Writes `buf` as a datagram into the mailbox of the task `pid`, which
    /// must wait in the ready queue. Returns the number of bytes stored, or
    /// -1 when no such task waits or its mailbox is full.
    pub fn send_mail_to_pid(&mut self, pid: usize, buf: &[u8]) -> (r: isize)
        requires
            old(self).wf(),
        ensures
            final(self).wf(),
            r == old(self)@.send_mail_result(pid, buf@),
            final(self)@ == old(self)@.after_send_mail(pid, buf@),
            r >= 0 ==> old(self)@.ready.contains(pid),
            !old(self)@.ready.contains(pid) ==> r == -1 && final(self)@ == old(self)@,
    {
        let ghost o = self@;
        let n = self.manager.len();
        let mut i: usize = 0;
        while i < n
            invariant
                o == self@,
                o == old(self)@,
                o.wf(),
                n == o.ready.len(),
                i <= n,
                forall|j: int| 0 <= j < i ==> #[trigger] o.ready[j] != pid,
            decreases n - i,
        {
            if self.manager.get(i) == pid {
                proof {
                    assert(o.ready[i as int] == pid);
                    assert(o.ready.contains(pid));
                    assert(o.live(pid as int));
                }
                let mut t = self.take_task(pid);
                assert(o.task_wf(pid as int));
                assert(t.mailbox.inv());
                assert(t.mailbox@ == o.task(pid as int).mail);
                let w = t.mailbox.write(buf);
                assert(o.task(pid as int).mail.is_full() ==> w == usize::MAX);
                assert(!o.task(pid as int).mail.is_full() ==> w == clipped_len(buf@.len() as int));
                self.put_task(pid, t);
                proof {
                    let v = self@;
                    assert(o.task_wf(pid as int));
                    assert(v.tasks =~= o.after_send_mail(pid, buf@).tasks);
                    assert(v =~= o.after_send_mail(pid, buf@));
                    lemma_same_links_wf(o, v);
                }
                if w == usize::MAX {
                    return -1;
                }
                return w as isize;
            }
            i += 1;
        }
        -1
    }

    /// The running task reads its own mailbox into `buf` (see
    /// `MailBox::read`): an empty mailbox gives `usize::MAX`, an empty
    /// `buf` gives 0, and otherwise the oldest datagram is taken out and
    /// copied, cut to the length of `buf`, to the front of `buf`.
    pub fn read_mail(&mut self, buf: &mut Vec<u8>) -> (n: usize)
        requires
            old(self).wf(),
            old(self)@.current is Some,
        ensures
            final(self).wf(),
            old(self)@.current_mail().is_empty() ==> n == usize::MAX && final(self)@ == old(self)@
                && final(buf)@ == old(buf)@,
            !old(self)@.current_mail().is_empty() && old(buf)@.len() == 0 ==> n == 0
                && final(self)@ == old(self)@ && final(buf)@ == old(buf)@,
            !old(self)@.current_mail().is_empty() && old(buf)@.len() > 0 ==> {
                let m = old(self)@.current_mail();
                &&& n == m.read_len(old(buf)@.len() as int)
                &&& final(self)@ == old(self)@.after_read_mail()
                &&& final(buf)@.len() == old(buf)@.len()
                &&& final(buf)@.take(n as int) == m.read_bytes(old(buf)@.len() as int)
                &&& final(buf)@.skip(n as int) == old(buf)@.skip(n as int)
            },
    {
        let c = self.processor.current().unwrap();
        let mut t = self.take_task(c);
        proof {
            assert(old(self)@.task_wf(c as int));
        }
        assert(t.mailbox.inv());
        let n = t.mailbox.read(buf);
        self.put_task(c, t);
        proof {
            let o = old(self)@;
            let v = self@;
            if !o.current_mail().is_empty() && old(buf)@.len() > 0 {
                assert(v.tasks =~= o.after_read_mail().tasks);
                assert(v =~= o.after_read_mail());
            } else {
                assert(v.tasks =~= o.tasks);
                assert(v =~= o);
            }
            lemma_same_links_wf(o, v);
        }
        n
    }

    /// The pid of the initial process.
    pub fn initproc(&self) -> (p: usize)
        ensures
            p == self@.initproc,
    {
        self.initproc
    }

    /// Whether task `p` waits in the ready queue.
    pub fn is_queued(&self, p: usize) -> (r: bool)
        ensures
            r == self@.ready.contains(p),
    {
        let n = self.manager.len();
        let mut i: usize = 0;
        while i < n
            invariant
                n == self@.ready.len(),
                i <= n,
                forall|j: int| 0 <= j < i ==> #[trigger] self@.ready[j] != p,
            decreases n - i,
        {
            if self.manager.get(i) == p {
                assert(self@.ready[i as int] == p);
                return true;
            }
            i += 1;
        }
        false
    }

    /// The status of task `p`, or `None` when there is no such task.
    pub fn task_status(&self, p: usize) -> (st: Option<TaskStatus>)
        ensures
            self@.live(p as int) ==> st == Some(self@.task(p as int).status),
            !self@.live(p as int) ==> st is None,
    {
        if p < self.tasks.len() {
            assert(self@.tasks[p as int] == opt_task_view(self.tasks@[p as int]));
            match &self.tasks[p] {
                Some(t) => Some(t.task_status),
                None => None,
            }
        } else {
            None
        }
    }

    /// The value the pending system call of task `p` returns (its saved
    /// `a0`), or `None` when there is no such task.
    pub fn return_value(&self, p: usize) -> (a0: Option<usize>)
        ensures
            self@.live(p as int) ==> a0 == Some(self@.task(p as int).trap_a0),
            !self@.live(p as int) ==> a0 is None,
    {
        if p < self.tasks.len() {
            assert(self@.tasks[p as int] == opt_task_view(self.tasks@[p as int]));
            match &self.tasks[p] {
                Some(t) => Some(t.trap_a0),
                None => None,
            }
        } else {
            None
        }
    }

    /// The program image and arguments task `p` runs, or `None` when there
    /// is no such task.
    pub fn program_of(&self, p: usize) -> (r: Option<(Vec<u8>, Vec<String>)>)
        ensures
            self@.live(p as int) ==> (r matches Some((prog, args)) && prog@ == self@.task(
                p as int,
            ).program && args@ == self@.task(p as int).args),
            !self@.live(p as int) ==> r is None,
    {
        if p < self.tasks.len() {
            assert(self@.tasks[p as int] == opt_task_view(self.tasks@[p as int]));
            match &self.tasks[p] {
                Some(t) => Some((slice_to_vec(t.program.as_slice()), copy_args(&t.args))),
                None => None,
            }
        } else {
            None
        }
    }
}

} // verus!
