use vstd::prelude::*;

use super::{
    lemma_child_parent, lemma_exit_table_wf, wait_matches, KernelView, TaskStatus, TaskView,
};
use crate::fs::mail::{clipped_len, lemma_mail_roundtrip};
use crate::mm::map_result;

verus! {

/// A parent that waits for an exited child gets the child's pid and the
/// code the child exited with, as long as its children and the child's
/// record are as the exit left them (running other tasks in between
/// changes neither).
pub proof fn lemma_exit_code_reaches_parent(v: KernelView, code: i32, w: KernelView)
    requires
        v.wf(),
        v.current is Some,
        v.current != Some(v.initproc),
        v.task(v.current->0 as int).parent is Some,
        w.wf(),
        w.current == v.task(v.current->0 as int).parent,
        w.tasks.len() == v.after_exit(code).tasks.len(),
        w.task(w.current->0 as int).children == v.after_exit(code).task(w.current->0 as int).children,
        w.tasks[v.current->0 as int] == v.after_exit(code).tasks[v.current->0 as int],
    ensures
        w.waitpid_result(v.current->0 as isize) == v.current->0 as isize,
        w.waited_exit_code(v.current->0 as isize) == code,
        !w.after_waitpid(v.current->0 as isize).live(v.current->0 as int),
{
    let c = v.current->0;
    let p = v.task(c as int).parent->0;
    let e = v.exit_table(code);
    lemma_exit_table_wf(v, code);
    assert(v.task_wf(c as int));
    assert(v.live(p as int)) by {
        // the running task is a child of its parent
        assert(v.task(c as int).parent == Some(p));
    }
    // c stays among its parent's children
    assert(e.task(p as int).children.contains(c)) by {
        lemma_parent_lists_child(v, c as int);
        if p == v.initproc {
            let a = v.task(p as int).children;
            let k = choose|k: int| 0 <= k < a.len() && a[k] == c;
            assert((a + v.task(c as int).children)[k] == c);
        }
    }
    let u = v.after_exit(code);
    assert(u.tasks[c as int] == e.tasks[c as int]) by {
        if e.current is None && e.ready.len() > 0 {
            assert(e.ready[0] != c) by {
                assert(e.live(e.ready[0] as int));
            }
        }
    }
    assert(u.task(p as int).children == e.task(p as int).children);
    let kids = w.current_children();
    assert(kids.contains(c));
    let k = choose|k: int| 0 <= k < kids.len() && kids[k] == c;
    assert(w.has_waitable(c as isize)) by {
        assert(wait_matches(c as isize, kids[k]));
    }
    assert(w.task_wf(p as int));
    // only the entry for c matches a wait for c
    assert forall|j: int| 0 <= j < kids.len() && j != k implies !wait_matches(c as isize, #[trigger] kids[j]) by {
        assert(kids[j] != kids[k]);
    }
    lemma_first_reapable_is(w, kids, c as isize, k, kids.len() as int);
}

/// A task's parent lists it among its children.
proof fn lemma_parent_lists_child(v: KernelView, x: int)
    requires
        v.wf(),
        v.live(x),
        v.task(x).parent is Some,
        v.live(v.task(x).parent->0 as int),
    ensures
        v.task(v.task(x).parent->0 as int).children.contains(x as usize),
{
    assert(v.task_wf(x));
}

/// When only the entry at `k` is selected and it has exited, the search
/// finds it.
proof fn lemma_first_reapable_is(v: KernelView, kids: Seq<usize>, pid: isize, k: int, n: int)
    requires
        0 <= k < n <= kids.len(),
        wait_matches(pid, kids[k]),
        v.task(kids[k] as int).status == TaskStatus::Zombie,
        forall|j: int| 0 <= j < kids.len() && j != k ==> !wait_matches(pid, #[trigger] kids[j]),
    ensures
        v.first_reapable(kids, pid, n) == k,
    decreases n,
{
    if n - 1 > k {
        lemma_first_reapable_is(v, kids, pid, k, n - 1);
    } else {
        lemma_first_reapable_none(v, kids, pid, k);
    }
}

/// Among entries that `pid` does not select, the search finds nothing.
proof fn lemma_first_reapable_none(v: KernelView, kids: Seq<usize>, pid: isize, n: int)
    requires
        0 <= n <= kids.len(),
        forall|j: int| 0 <= j < n ==> !wait_matches(pid, #[trigger] kids[j]),
    ensures
        v.first_reapable(kids, pid, n) == -1,
    decreases n,
{
    if n > 0 {
        lemma_first_reapable_none(v, kids, pid, n - 1);
    }
}

/// Yielding keeps the set of tasks and everything in them but the status of
/// the task that yields and of the task that runs next.
pub proof fn lemma_suspend_keeps_tasks(v: KernelView)
    requires
        v.wf(),
        v.current is Some,
    ensures
        v.after_suspend().tasks.len() == v.tasks.len(),
        forall|p: int|
            #![trigger v.after_suspend().tasks[p]]
            0 <= p < v.tasks.len() ==> (v.after_suspend().tasks[p] is Some <==> v.tasks[p] is Some),
        forall|p: int|
            #![trigger v.after_suspend().task(p)]
            v.live(p) ==> (TaskView { status: v.task(p).status, ..v.after_suspend().task(p) }) == v.task(p),
{
}

/// Mapping a free range into the running task and then unmapping the same
/// range gives back the kernel state as it was.
pub proof fn lemma_kernel_map_then_unmap(v: KernelView, start_va: int, end_va: int, perm: u8)
    requires
        v.wf(),
        v.current is Some,
        0 <= start_va <= end_va <= usize::MAX,
        map_result(v.task(v.current->0 as int).pages, start_va, end_va, perm) is Some,
    ensures
        v.after_map(start_va, end_va, perm).after_unmap(start_va, end_va) == v,
{
    let c = v.current->0 as int;
    crate::mm::lemma_map_then_unmap(v.task(c).pages, start_va, end_va, perm);
    let m = v.after_map(start_va, end_va, perm);
    let u = m.after_unmap(start_va, end_va);
    assert(u.task(c) =~= v.task(c));
    assert(u.tasks =~= v.tasks);
    assert(u =~= v);
}

/// When a task exits, each of its children becomes a child of the initial
/// process.
pub proof fn lemma_orphans_adopted(v: KernelView, code: i32, x: usize)
    requires
        v.wf(),
        v.current is Some,
        v.current != Some(v.initproc),
        v.task(v.current->0 as int).children.contains(x),
    ensures
        v.after_exit(code).live(x as int),
        v.after_exit(code).task(x as int).parent == Some(v.initproc),
        v.after_exit(code).task(v.initproc as int).children.contains(x),
{
    let c = v.current->0 as int;
    let init = v.initproc as int;
    let e = v.exit_table(code);
    lemma_child_parent(v, c, x);
    assert(x as int != c) by {
        assert(v.task_wf(c));
    }
    assert(x as int != init);
    let a = v.task(init).children;
    let b = v.task(c).children;
    let k = choose|k: int| 0 <= k < b.len() && b[k] == x;
    assert((a + b)[a.len() + k] == x);
    assert(e.task(init).children.contains(x));
}

/// Mail sent to a queued task with an empty mailbox is what that task reads
/// next: the datagram, cut to one slot and to the reader's buffer.
pub proof fn lemma_sent_mail_is_read(v: KernelView, p: usize, data: Seq<u8>, buf_len: int)
    requires
        v.wf(),
        v.ready.contains(p),
        v.task(p as int).mail.is_empty(),
        data.len() > 0,
        buf_len > 0,
    ensures
        ({
            let m = v.after_send_mail(p, data).task(p as int).mail;
            let n = if buf_len < clipped_len(data.len() as int) {
                buf_len
            } else {
                clipped_len(data.len() as int)
            };
            &&& !m.is_empty()
            &&& m.read_len(buf_len) == n
            &&& m.read_bytes(buf_len) == data.take(n)
        }),
{
    let i = choose|i: int| 0 <= i < v.ready.len() && v.ready[i] == p;
    assert(v.live(v.ready[i] as int));
    assert(v.task_wf(p as int));
    lemma_mail_roundtrip(v.task(p as int).mail, data, buf_len);
}

/// What the search for a child to reap finds among the first `n` entries of
/// `kids`: -1 exactly when no entry there is selected by `pid` and has
/// exited, and otherwise the position of the first entry that is.
proof fn lemma_search_prefix(v: KernelView, kids: Seq<usize>, pid: isize, n: int)
    requires
        0 <= n <= kids.len(),
    ensures
        (v.first_reapable(kids, pid, n) == -1) <==> (forall|j: int|
            0 <= j < n ==> !((pid == -1 || pid == #[trigger] kids[j] as int) && v.task(
                kids[j] as int,
            ).status == TaskStatus::Zombie)),
        v.first_reapable(kids, pid, n) != -1 ==> {
            let r = v.first_reapable(kids, pid, n);
            &&& 0 <= r < n
            &&& pid == -1 || pid == kids[r] as int
            &&& v.task(kids[r] as int).status == TaskStatus::Zombie
            &&& forall|j: int|
                0 <= j < r ==> !((pid == -1 || pid == #[trigger] kids[j] as int) && v.task(
                    kids[j] as int,
                ).status == TaskStatus::Zombie)
        },
    decreases n,
{
    if n > 0 {
        lemma_search_prefix(v, kids, pid, n - 1);
    }
}

/// The result of `waitpid(pid)` when the running task has children `kids`
/// (see `lemma_waitpid_reaps_exited_child`).
proof fn lemma_waitpid_result(v: KernelView, pid: isize)
    requires
        v.current is Some,
        forall|j: int|
            0 <= j < v.task(v.current->0 as int).children.len() ==> #[trigger] v.task(
                v.current->0 as int,
            ).children[j] < isize::MAX,
    ensures
        ({
            let kids = v.task(v.current->0 as int).children;
            let r = v.waitpid_result(pid);
            &&& (r == -1) <==> (forall|j: int|
                0 <= j < kids.len() ==> !(pid == -1 || pid == #[trigger] kids[j] as int))
            &&& (r == -2) <==> ((exists|j: int|
                0 <= j < kids.len() && (pid == -1 || pid == #[trigger] kids[j] as int)) && (forall|
                j: int,
            |
                0 <= j < kids.len() && (pid == -1 || pid == #[trigger] kids[j] as int) ==> v.task(
                    kids[j] as int,
                ).status != TaskStatus::Zombie))
            &&& (exists|j: int|
                0 <= j < kids.len() && (pid == -1 || pid == #[trigger] kids[j] as int) && v.task(
                    kids[j] as int,
                ).status == TaskStatus::Zombie) ==> r >= 0
            &&& r >= 0 ==> {
                let k = v.wait_index(pid);
                &&& 0 <= k < kids.len()
                &&& kids[k] as int == r
                &&& pid == -1 || pid == r as int
                &&& v.task(kids[k] as int).status == TaskStatus::Zombie
                &&& forall|j: int|
                    0 <= j < k ==> !((pid == -1 || pid == #[trigger] kids[j] as int) && v.task(
                        kids[j] as int,
                    ).status == TaskStatus::Zombie)
                &&& v.waited_exit_code(pid) == v.task(kids[k] as int).exit_code
            }
        }),
{
    let kids = v.task(v.current->0 as int).children;
    lemma_search_prefix(v, kids, pid, kids.len() as int);
    if exists|j: int|
        0 <= j < kids.len() && (pid == -1 || pid == #[trigger] kids[j] as int) && v.task(
            kids[j] as int,
        ).status == TaskStatus::Zombie {
        let j = choose|j: int|
            0 <= j < kids.len() && (pid == -1 || pid == #[trigger] kids[j] as int) && v.task(
                kids[j] as int,
            ).status == TaskStatus::Zombie;
        assert(wait_matches(pid, v.current_children()[j]));
    }
    if exists|j: int| 0 <= j < kids.len() && (pid == -1 || pid == #[trigger] kids[j] as int) {
        let j = choose|j: int| 0 <= j < kids.len() && (pid == -1 || pid == #[trigger] kids[j] as int);
        assert(wait_matches(pid, v.current_children()[j]));
    }
}

/// `waitpid(pid)` of the running task: -1 exactly when `pid` (-1 selects
/// every child) selects none of its children; -2 exactly when some child is
/// selected but no selected child has exited; whenever a selected child has
/// exited, the result is the pid of the first such child in the list of
/// children, the reported exit code is that child's, and the child leaves
/// the list of children and the task table.
pub proof fn lemma_waitpid_reaps_exited_child(v: KernelView, pid: isize)
    requires
        v.wf(),
        v.current is Some,
    ensures
        ({
            let c = v.current->0 as int;
            let kids = v.task(c).children;
            let r = v.waitpid_result(pid);
            &&& r >= -2
            &&& (r == -1) <==> (forall|j: int|
                0 <= j < kids.len() ==> !(pid == -1 || pid == #[trigger] kids[j] as int))
            &&& (r == -2) <==> ((exists|j: int|
                0 <= j < kids.len() && (pid == -1 || pid == #[trigger] kids[j] as int)) && (forall|
                j: int,
            |
                0 <= j < kids.len() && (pid == -1 || pid == #[trigger] kids[j] as int) ==> v.task(
                    kids[j] as int,
                ).status != TaskStatus::Zombie))
            &&& (exists|j: int|
                0 <= j < kids.len() && (pid == -1 || pid == #[trigger] kids[j] as int) && v.task(
                    kids[j] as int,
                ).status == TaskStatus::Zombie) ==> r >= 0
            &&& r >= 0 ==> exists|k: int|
                0 <= k < kids.len() && #[trigger] kids[k] as int == r && (pid == -1 || pid == r as int)
                    && v.task(r as int).status == TaskStatus::Zombie && (forall|j: int|
                    0 <= j < k ==> !((pid == -1 || pid == #[trigger] kids[j] as int) && v.task(
                        kids[j] as int,
                    ).status == TaskStatus::Zombie)) && v.waited_exit_code(pid) == v.task(
                    r as int,
                ).exit_code && v.after_waitpid(pid).task(c).children == kids.remove(k)
                    && !v.after_waitpid(pid).live(r as int)
        }),
{
    let c = v.current->0 as int;
    let kids = v.task(c).children;
    assert(v.task_wf(c));
    assert forall|j: int| 0 <= j < kids.len() implies #[trigger] kids[j] < isize::MAX by {
        assert(v.live(kids[j] as int));
    }
    lemma_waitpid_result(v, pid);
    let r = v.waitpid_result(pid);
    if r >= 0 {
        let k = v.wait_index(pid);
        assert(v.live(kids[k] as int));
        lemma_reap_removes(v, pid, k);
        assert(kids[k] as int == r);
        assert(0 <= k < kids.len() && kids[k] as int == r && (pid == -1 || pid == r as int) && v.task(
            r as int,
        ).status == TaskStatus::Zombie && (forall|j: int|
            0 <= j < k ==> !((pid == -1 || pid == #[trigger] kids[j] as int) && v.task(
                kids[j] as int,
            ).status == TaskStatus::Zombie)) && v.waited_exit_code(pid) == v.task(r as int).exit_code
            && v.after_waitpid(pid).task(c).children == kids.remove(k) && !v.after_waitpid(pid).live(
            r as int,
        ));
    }
}

/// Reaping the child at position `k` takes it out of the list of children
/// and out of the task table.
proof fn lemma_reap_removes(v: KernelView, pid: isize, k: int)
    requires
        v.current is Some,
        v.waitpid_result(pid) >= 0,
        k == v.wait_index(pid),
        0 <= k < v.task(v.current->0 as int).children.len(),
        v.task(v.current->0 as int).children[k] as int != v.current->0 as int,
        0 <= v.task(v.current->0 as int).children[k] < v.tasks.len(),
        0 <= v.current->0 < v.tasks.len(),
    ensures
        v.after_waitpid(pid).task(v.current->0 as int).children == v.task(
            v.current->0 as int,
        ).children.remove(k),
        !v.after_waitpid(pid).live(v.task(v.current->0 as int).children[k] as int),
{
}

/// Setting the priority stores it in the running task and changes nothing
/// else.
pub proof fn lemma_set_priority_stores(v: KernelView, prio: usize)
    requires
        v.wf(),
        v.current is Some,
    ensures
        ({
            let c = v.current->0 as int;
            let w = v.after_set_priority(prio);
            &&& w.live(c)
            &&& w.task(c).priority == prio
            &&& (TaskView { priority: v.task(c).priority, ..w.task(c) }) == v.task(c)
            &&& w.tasks.len() == v.tasks.len()
            &&& forall|p: int| 0 <= p < v.tasks.len() && p != c ==> #[trigger] w.tasks[p] == v.tasks[p]
            &&& w.ready == v.ready
            &&& w.current == v.current
        }),
{
    let c = v.current->0 as int;
    let w = v.after_set_priority(prio);
    assert((TaskView { priority: v.task(c).priority, ..w.task(c) }) =~= v.task(c));
}

/// Mail reaches only a task that waits in the ready queue: sending to any
/// other pid gives -1 and changes nothing. A queued task whose mailbox has a
/// free slot gets the datagram, cut to 256 bytes, appended to its pending
/// datagrams, and the result is the number of bytes stored; a queued task
/// with all sixteen slots taken gives -1 and nothing changes.
pub proof fn lemma_mail_only_to_queued(v: KernelView, pid: usize, data: Seq<u8>)
    requires
        v.wf(),
    ensures
        v.send_mail_result(pid, data) >= 0 ==> v.ready.contains(pid),
        !v.ready.contains(pid) ==> v.send_mail_result(pid, data) == -1 && v.after_send_mail(pid, data) == v,
        v.ready.contains(pid) && v.task(pid as int).mail.lens.len() >= 16 ==> v.send_mail_result(pid, data)
            == -1 && v.after_send_mail(pid, data) == v,
        v.ready.contains(pid) && v.task(pid as int).mail.lens.len() < 16 ==> {
            let n = if data.len() < 256 {
                data.len() as int
            } else {
                256int
            };
            let w = v.after_send_mail(pid, data);
            &&& v.send_mail_result(pid, data) == n
            &&& data.len() > 0 ==> w.task(pid as int).mail.pending() == v.task(pid as int).mail.pending().push(data.take(n))
            &&& forall|p: int| 0 <= p < v.tasks.len() && p != pid ==> #[trigger] w.tasks[p] == v.tasks[p]
            &&& w.ready == v.ready
            &&& w.current == v.current
        },
{
    if v.ready.contains(pid) {
        let i = choose|i: int| 0 <= i < v.ready.len() && v.ready[i] == pid;
        assert(v.live(v.ready[i] as int));
        assert(v.task_wf(pid as int));
        if v.task(pid as int).mail.lens.len() < 16 {
            crate::fs::mail::lemma_write_appends(v.task(pid as int).mail, data);
        }
    }
}

} // verus!
