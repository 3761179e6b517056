use vstd::prelude::*;

verus! {

pub const SYSCALL_OPENAT: usize = 56;
pub const SYSCALL_CLOSE: usize = 57;
pub const SYSCALL_READ: usize = 63;
pub const SYSCALL_WRITE: usize = 64;
pub const SYSCALL_UNLINKAT: usize = 35;
pub const SYSCALL_LINKAT: usize = 37;
pub const SYSCALL_FSTAT: usize = 80;
pub const SYSCALL_EXIT: usize = 93;
pub const SYSCALL_YIELD: usize = 124;
pub const SYSCALL_GETTIMEOFDAY: usize = 169;
pub const SYSCALL_GETPID: usize = 172;
pub const SYSCALL_FORK: usize = 220;
pub const SYSCALL_EXEC: usize = 221;
pub const SYSCALL_WAITPID: usize = 260;
pub const SYSCALL_SET_PRIORITY: usize = 140;
pub const SYSCALL_MUNMAP: usize = 215;
pub const SYSCALL_MMAP: usize = 222;
pub const SYSCALL_SPAWN: usize = 400;
pub const SYSCALL_MAIL_READ: usize = 401;
pub const SYSCALL_MAIL_WRITE: usize = 402;

/// A system call as the user side issues it: its number and its five
/// argument registers.
pub struct SyscallRequest {
    pub id: usize,
    pub args: [usize; 5],
}

/// The `gettimeofday` call for the time value at address `tx`.
pub fn raw_sys_gettime(tx: usize, tz: usize) -> (req: SyscallRequest)
    ensures
        req.id == SYSCALL_GETTIMEOFDAY,
        req.args@ == seq![tx, tz, 0usize, 0usize, 0usize],
{
    let req = SyscallRequest { id: SYSCALL_GETTIMEOFDAY, args: [tx, tz, 0, 0, 0] };
    assert(req.args@ =~= seq![tx, tz, 0usize, 0usize, 0usize]);
    req
}

/// The `fstat` call on `fd` for the status record at address `st`.
pub fn raw_sys_fstat(fd: usize, st: usize) -> (req: SyscallRequest)
    ensures
        req.id == SYSCALL_FSTAT,
        req.args@ == seq![fd, st, 0usize, 0usize, 0usize],
{
    let req = SyscallRequest { id: SYSCALL_FSTAT, args: [fd, st, 0, 0, 0] };
    assert(req.args@ =~= seq![fd, st, 0usize, 0usize, 0usize]);
    req
}

/// The call `id` with all five arguments as given.
pub fn raw_syscall(id: usize, args: [usize; 5]) -> (req: SyscallRequest)
    ensures
        req.id == id,
        req.args@ == args@,
{
    SyscallRequest { id, args }
}

/// One round of Marsaglia's xorshift on a machine word.
pub open spec fn xorshift_spec(x: usize) -> usize {
    let a = x ^ (x << 13usize);
    let b = a ^ (a >> 7usize);
    b ^ (b << 17usize)
}

/// One round of xorshift: `x ^= x << 13; x ^= x >> 7; x ^= x << 17`.
pub fn xorshift64(x: usize) -> (r: usize)
    ensures
        r == xorshift_spec(x),
{
    let mut x = x;
    x = x ^ x << 13;
    x = x ^ x >> 7;
    x = x ^ x << 17;
    x
}

/// The hash of `x`: one round of xorshift.
pub fn hash(x: usize) -> (r: usize)
    ensures
        r == xorshift_spec(x),
{
    xorshift64(x)
}

/// Each step of xorshift can be undone, so distinct words hash to distinct
/// words, and only 0 hashes to 0.
pub proof fn lemma_xorshift_injective(x: usize, y: usize)
    ensures
        xorshift_spec(x) == xorshift_spec(y) ==> x == y,
        xorshift_spec(0) == 0,
{
    let ax = x ^ (x << 13usize);
    let ay = y ^ (y << 13usize);
    let bx = ax ^ (ax >> 7usize);
    let by = ay ^ (ay >> 7usize);
    assert(bx ^ (bx << 17usize) == by ^ (by << 17usize) ==> bx == by) by (bit_vector);
    assert(ax ^ (ax >> 7usize) == ay ^ (ay >> 7usize) ==> ax == ay) by (bit_vector);
    assert(x ^ (x << 13usize) == y ^ (y << 13usize) ==> x == y) by (bit_vector);
    assert(xorshift_spec(0) == 0) by (bit_vector);
}

/// The number of children the fork test starts.
pub const FORKTEST_CHILDREN: usize = 200;

/// What the fork test asks its driver to do next.
#[derive(PartialEq, Eq, Structural, Clone, Copy, Debug)]
pub enum ForkTestAction {
    /// Call `fork` and report its result with `on_fork`.
    Fork,
    /// Call `wait` for an exited child and report with `on_wait`.
    Wait,
    /// Call `wait` once more, which must find no child, and report with
    /// `on_wait`.
    FinalWait,
    /// The test is over.
    Done,
}

/// Abstract state of the fork test: forks made, forks that succeeded,
/// children waited for, and whether the closing wait happened.
pub struct ForkTestView {
    pub idx: nat,
    pub cnt: nat,
    pub waited: nat,
    pub finished: bool,
}

/// The decisions of the fork test: fork `FORKTEST_CHILDREN` times, counting
/// the forks that succeed; then wait once for each such child, each wait
/// returning a pid with exit code 0; then one more wait must fail. The
/// driver performs the calls; each child runs the test's function with its
/// index and exits with 0.
pub struct ForkTest {
    idx: usize,
    cnt: usize,
    waited: usize,
    finished: bool,
}

impl View for ForkTest {
    type V = ForkTestView;

    closed spec fn view(&self) -> ForkTestView {
        ForkTestView {
            idx: self.idx as nat,
            cnt: self.cnt as nat,
            waited: self.waited as nat,
            finished: self.finished,
        }
    }
}

impl ForkTestView {
    pub open spec fn wf(self) -> bool {
        self.cnt <= self.idx <= FORKTEST_CHILDREN && self.waited <= self.cnt
    }

    pub open spec fn action(self) -> ForkTestAction {
        if self.idx < FORKTEST_CHILDREN {
            ForkTestAction::Fork
        } else if self.waited < self.cnt {
            ForkTestAction::Wait
        } else if !self.finished {
            ForkTestAction::FinalWait
        } else {
            ForkTestAction::Done
        }
    }
}

impl ForkTest {
    pub open spec fn wf(&self) -> bool {
        self@.wf()
    }

    /// A test that has not forked yet.
    pub fn new() -> (t: ForkTest)
        ensures
            t.wf(),
            t@ == (ForkTestView { idx: 0, cnt: 0, waited: 0, finished: false }),
    {
        ForkTest { idx: 0, cnt: 0, waited: 0, finished: false }
    }

    /// The next call the driver makes.
    pub fn next_action(&self) -> (a: ForkTestAction)
        requires
            self.wf(),
        ensures
            a == self@.action(),
    {
        if self.idx < FORKTEST_CHILDREN {
            ForkTestAction::Fork
        } else if self.waited < self.cnt {
            ForkTestAction::Wait
        } else if !self.finished {
            ForkTestAction::FinalWait
        } else {
            ForkTestAction::Done
        }
    }

    /// Reports what `fork` returned. In the child (`pid` 0) the result is the
    /// index the child runs the test's function with, and the child then
    /// exits with 0. In the parent the fork counts as made, and as
    /// succeeded when `pid` is positive.
    pub fn on_fork(&mut self, pid: isize) -> (child: Option<usize>)
        requires
            old(self).wf(),
            old(self)@.action() == ForkTestAction::Fork,
        ensures
            final(self).wf(),
            pid == 0 ==> child == Some(old(self)@.idx as usize) && final(self)@ == old(self)@,
            pid > 0 ==> child is None && final(self)@ == (ForkTestView {
                idx: old(self)@.idx + 1,
                cnt: old(self)@.cnt + 1,
                ..old(self)@
            }),
            pid < 0 ==> child is None && final(self)@ == (ForkTestView {
                idx: old(self)@.idx + 1,
                ..old(self)@
            }),
    {
        if pid == 0 {
            return Some(self.idx);
        }
        if pid > 0 {
            self.cnt += 1;
        }
        self.idx += 1;
        None
    }

    /// Reports what `wait` returned and the exit code it gave. A wait for a
    /// child must return a pid and exit code 0; the closing wait must fail.
    /// Returns whether that held; when it did not, the state is unchanged and
    /// the test has failed.
    pub fn on_wait(&mut self, ret: isize, exit_code: i32) -> (ok: bool)
        requires
            old(self).wf(),
            old(self)@.action() == ForkTestAction::Wait || old(self)@.action()
                == ForkTestAction::FinalWait,
        ensures
            final(self).wf(),
            old(self)@.action() == ForkTestAction::Wait ==> ok == (ret > 0 && exit_code == 0),
            old(self)@.action() == ForkTestAction::FinalWait ==> ok == (ret < 0),
            !ok ==> final(self)@ == old(self)@,
            ok && old(self)@.action() == ForkTestAction::Wait ==> final(self)@ == (ForkTestView {
                waited: old(self)@.waited + 1,
                ..old(self)@
            }),
            ok && old(self)@.action() == ForkTestAction::FinalWait ==> final(self)@ == (
            ForkTestView { finished: true, ..old(self)@ }),
    {
        if self.waited < self.cnt {
            if ret > 0 && exit_code == 0 {
                self.waited += 1;
                true
            } else {
                false
            }
        } else {
            if ret < 0 {
                self.finished = true;
                true
            } else {
                false
            }
        }
    }
}

/// When the test is done, every fork was made and every child that was
/// forked has been waited for.
pub proof fn lemma_forktest_done(v: ForkTestView)
    requires
        v.wf(),
        v.action() == ForkTestAction::Done,
    ensures
        v.idx == FORKTEST_CHILDREN,
        v.waited == v.cnt,
        v.finished,
{
}

} // verus!
