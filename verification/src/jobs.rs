//! Background job table.
//!
//! Each job tracks all its child pids, not just the process group. Children
//! are reaped one at a time, and a job is done only when every pid in it has
//! been reaped. This matters for background pipelines of several commands.

use crate::number::{decimal, push_decimal};
use vstd::prelude::*;

verus! {

#[derive(Debug, Clone, Copy, PartialEq, Eq, Structural)]
pub enum JobState {
    Running,
    Done,
}

#[derive(Debug)]
pub struct Job {
    pub id: i32,
    pub pgid: i32,
    /// the child pids that have not been reaped
    pub pids: Vec<i32>,
    pub cmd: String,
    pub state: JobState,
}

/// The jobs of a shell, and the number that the next one gets.
pub struct JobTable {
    jobs: Vec<Job>,
    next_id: i32,
}

/// The model of a `Job`.
#[verifier::ext_equal]
pub struct JobView {
    pub id: int,
    pub pgid: int,
    pub pids: Seq<i32>,
    pub cmd: Seq<char>,
    pub state: JobState,
}

/// The model of a `JobTable`.
#[verifier::ext_equal]
pub struct TableView {
    pub jobs: Seq<JobView>,
    pub next_id: int,
}

impl View for Job {
    type V = JobView;

    open spec fn view(&self) -> JobView {
        JobView {
            id: self.id as int,
            pgid: self.pgid as int,
            pids: self.pids@,
            cmd: self.cmd@,
            state: self.state,
        }
    }
}

/// The models of a list of jobs.
pub open spec fn job_views(jobs: Seq<Job>) -> Seq<JobView> {
    Seq::new(jobs.len(), |i: int| jobs[i]@)
}

impl View for JobTable {
    type V = TableView;

    closed spec fn view(&self) -> TableView {
        TableView { jobs: job_views(self.jobs@), next_id: self.next_id as int }
    }
}

// ---------------------------------------------------------------------------
// What the operations do
// ---------------------------------------------------------------------------

/// The position of the first `pid` in `pids`, or the length without one.
pub open spec fn pid_at(pids: Seq<i32>, pid: i32) -> int
    decreases pids.len(),
{
    if pids.len() == 0 || pids[0] == pid {
        0
    } else {
        1 + pid_at(pids.skip(1), pid)
    }
}

/// `j` without one `pid`, whose place the last pid takes. Without any pids
/// left, the job is done.
pub open spec fn job_reaped(j: JobView, pid: i32) -> JobView {
    let rest = j.pids.update(pid_at(j.pids, pid), j.pids.last()).drop_last();
    JobView {
        pids: rest,
        state: if rest.len() == 0 {
            JobState::Done
        } else {
            j.state
        },
        ..j
    }
}

/// `jobs` with `pid` taken from the first job that has it.
pub open spec fn reaped(jobs: Seq<JobView>, pid: i32) -> Seq<JobView>
    decreases jobs.len(),
{
    if jobs.len() == 0 {
        jobs
    } else if jobs[0].pids.contains(pid) {
        jobs.update(0, job_reaped(jobs[0], pid))
    } else {
        seq![jobs[0]] + reaped(jobs.skip(1), pid)
    }
}

/// The jobs in state `state`, in order.
pub open spec fn in_state(jobs: Seq<JobView>, state: JobState) -> Seq<JobView>
    decreases jobs.len(),
{
    if jobs.len() == 0 {
        jobs
    } else if jobs.last().state == state {
        in_state(jobs.drop_last(), state).push(jobs.last())
    } else {
        in_state(jobs.drop_last(), state)
    }
}

/// The line that lists a running job.
pub open spec fn running_line(j: JobView) -> Seq<char> {
    "["@ + decimal(j.id) + "]  Running    "@ + j.cmd + " &\n"@
}

/// The line that reports a finished job.
pub open spec fn done_line(j: JobView) -> Seq<char> {
    "["@ + decimal(j.id) + "]+ Done       "@ + j.cmd + "\n"@
}

/// A line for each running job.
pub open spec fn listing(jobs: Seq<JobView>) -> Seq<char>
    decreases jobs.len(),
{
    if jobs.len() == 0 {
        seq![]
    } else if jobs.last().state == JobState::Running {
        listing(jobs.drop_last()) + running_line(jobs.last())
    } else {
        listing(jobs.drop_last())
    }
}

/// A line for each of `jobs`, all of them finished.
pub open spec fn report(jobs: Seq<JobView>) -> Seq<char>
    decreases jobs.len(),
{
    if jobs.len() == 0 {
        seq![]
    } else {
        report(jobs.drop_last()) + done_line(jobs.last())
    }
}

proof fn lemma_pid_at(pids: Seq<i32>, pid: i32, k: int)
    requires
        0 <= k <= pids.len(),
        forall|j: int| 0 <= j < k ==> pids[j] != pid,
        k < pids.len() ==> pids[k] == pid,
    ensures
        pid_at(pids, pid) == k,
        pids.contains(pid) == (k < pids.len()),
    decreases k,
{
    if k > 0 {
        let t = pids.skip(1);
        assert forall|j: int| 0 <= j < k - 1 implies t[j] != pid by {
            assert(t[j] == pids[j + 1]);
        }
        assert(k - 1 < t.len() ==> t[k - 1] == pids[k]);
        lemma_pid_at(t, pid, k - 1);
    }
}

proof fn lemma_reaped(jobs: Seq<JobView>, pid: i32, k: int)
    requires
        0 <= k <= jobs.len(),
        forall|j: int| 0 <= j < k ==> !(#[trigger] jobs[j]).pids.contains(pid),
        k < jobs.len() ==> jobs[k].pids.contains(pid),
    ensures
        reaped(jobs, pid) == (if k < jobs.len() {
            jobs.update(k, job_reaped(jobs[k], pid))
        } else {
            jobs
        }),
    decreases k,
{
    if k > 0 {
        let rest = jobs.skip(1);
        assert(!jobs[0].pids.contains(pid));
        assert forall|j: int| 0 <= j < k - 1 implies !(#[trigger] rest[j]).pids.contains(pid) by {
            assert(rest[j] == jobs[j + 1]);
        }
        assert(k - 1 < rest.len() ==> rest[k - 1] == jobs[k]);
        lemma_reaped(rest, pid, k - 1);
        if k < jobs.len() {
            assert(seq![jobs[0]] + rest.update(k - 1, job_reaped(jobs[k], pid)) =~= jobs.update(
                k,
                job_reaped(jobs[k], pid),
            ));
        } else {
            assert(seq![jobs[0]] + rest =~= jobs);
        }
    }
}

proof fn lemma_job_views_push(jobs: Seq<Job>, j: Job)
    ensures
        job_views(jobs.push(j)) == job_views(jobs).push(j@),
{
    assert(job_views(jobs.push(j)) =~= job_views(jobs).push(j@));
}

// ---------------------------------------------------------------------------
// The operations
// ---------------------------------------------------------------------------

impl JobTable {
    /// A table without jobs, which numbers them from one.
    pub fn new() -> (r: JobTable)
        ensures
            r@ == (TableView { jobs: seq![], next_id: 1 }),
    {
        let r = JobTable { jobs: Vec::new(), next_id: 1 };
        assert(r@ =~= TableView { jobs: seq![], next_id: 1 });
        r
    }

    /// The number that the next job gets.
    pub fn next_id(&self) -> (r: i32)
        ensures
            r == self@.next_id,
    {
        self.next_id
    }
}

/// Adds a running job and gives its number.
pub fn add_job(table: &mut JobTable, pgid: i32, pids: Vec<i32>, cmd: String) -> (id: i32)
    requires
        old(table)@.next_id < i32::MAX,
    ensures
        id == old(table)@.next_id,
        final(table)@ == (TableView {
            jobs: old(table)@.jobs.push(
                JobView {
                    id: old(table)@.next_id,
                    pgid: pgid as int,
                    pids: pids@,
                    cmd: cmd@,
                    state: JobState::Running,
                },
            ),
            next_id: old(table)@.next_id + 1,
        }),
{
    let id: i32 = table.next_id;
    table.next_id = id + 1;
    let job = Job { id, pgid, pids, cmd, state: JobState::Running };
    proof {
        lemma_job_views_push(table.jobs@, job);
    }
    table.jobs.push(job);
    id
}

/// Takes a reaped child from the first job that has it. A job with no children
/// left is done.
pub fn mark_pid_reaped(table: &mut JobTable, pid: i32)
    ensures
        final(table)@ == (TableView { jobs: reaped(old(table)@.jobs, pid), ..old(table)@ }),
{
    let ghost before = table@.jobs;
    let mut i: usize = 0;
    while i < table.jobs.len()
        invariant
            i <= table.jobs@.len(),
            table@ == old(table)@,
            before == table@.jobs,
            forall|j: int| 0 <= j < i ==> !(#[trigger] before[j]).pids.contains(pid),
        decreases table.jobs@.len() - i,
    {
        assert(before[i as int] == table.jobs@[i as int]@);
        let mut k: usize = 0;
        while k < table.jobs[i as usize].pids.len() && table.jobs[i as usize].pids[k] != pid
            invariant
                i < table.jobs@.len(),
                k <= table.jobs@[i as int].pids@.len(),
                forall|j: int| 0 <= j < k ==> table.jobs@[i as int].pids@[j] != pid,
            decreases table.jobs@[i as int].pids@.len() - k,
        {
            k += 1;
        }
        proof {
            lemma_pid_at(table.jobs@[i as int].pids@, pid, k as int);
        }
        if k < table.jobs[i].pids.len() {
            let _ = table.jobs[i].pids.swap_remove(k);
            if table.jobs[i].pids.is_empty() {
                table.jobs[i].state = JobState::Done;
            }
            proof {
                lemma_reaped(before, pid, i as int);
                assert(table.jobs@[i as int]@ =~= job_reaped(before[i as int], pid));
                assert(job_views(table.jobs@) =~= before.update(
                    i as int,
                    job_reaped(before[i as int], pid),
                ));
            }
            return;
        }
        i += 1;
    }
    proof {
        lemma_reaped(before, pid, i as int);
    }
}

/// Takes out the jobs that are done, in order.
pub fn drain_done(table: &mut JobTable) -> (done: Vec<Job>)
    ensures
        job_views(done@) == in_state(old(table)@.jobs, JobState::Done),
        final(table)@ == (TableView {
            jobs: in_state(old(table)@.jobs, JobState::Running),
            ..old(table)@
        }),
{
    let ghost before = table@.jobs;
    let mut all: Vec<Job> = Vec::new();
    std::mem::swap(&mut all, &mut table.jobs);
    let ghost jobs = all@;
    let mut done: Vec<Job> = Vec::new();
    let mut keep: Vec<Job> = Vec::new();
    assert(before.take(0) =~= Seq::<JobView>::empty());
    assert(job_views(done@) =~= Seq::<JobView>::empty());
    assert(job_views(keep@) =~= Seq::<JobView>::empty());
    for j in it: all
        invariant
            it.seq() == jobs,
            before == job_views(jobs),
            job_views(done@) == in_state(before.take(it.index()), JobState::Done),
            job_views(keep@) == in_state(before.take(it.index()), JobState::Running),
    {
        let ghost k = it.index();
        assert(before.take(k + 1).drop_last() =~= before.take(k));
        assert(before.take(k + 1).last() == j@);
        if j.state == JobState::Done {
            proof {
                lemma_job_views_push(done@, j);
            }
            done.push(j);
        } else {
            proof {
                lemma_job_views_push(keep@, j);
            }
            keep.push(j);
        }
    }
    assert(before.take(before.len() as int) =~= before);
    table.jobs = keep;
    done
}

/// A line for each running job.
pub fn list_jobs(table: &JobTable) -> (text: String)
    ensures
        text@ == listing(table@.jobs),
{
    let mut text = String::new();
    let mut i: usize = 0;
    while i < table.jobs.len()
        invariant
            i <= table.jobs@.len() == table@.jobs.len(),
            text@ == listing(table@.jobs.take(i as int)),
        decreases table.jobs@.len() - i,
    {
        let j = &table.jobs[i];
        let ghost before = text@;
        proof {
            let done = table@.jobs.take(i + 1);
            assert(done.drop_last() =~= table@.jobs.take(i as int));
            assert(done.last() == j@);
        }
        if j.state == JobState::Running {
            text.append("[");
            push_decimal(&mut text, j.id as i64);
            text.append("]  Running    ");
            text.append(j.cmd.as_str());
            text.append(" &\n");
            assert(text@ =~= before + running_line(j@));
        }
        i += 1;
    }
    assert(table@.jobs.take(i as int) =~= table@.jobs);
    text
}

/// A line for each of the finished jobs `jobs`.
pub fn report_done(jobs: &[Job]) -> (text: String)
    ensures
        text@ == report(job_views(jobs@)),
{
    let ghost all = job_views(jobs@);
    let mut text = String::new();
    let mut i: usize = 0;
    while i < jobs.len()
        invariant
            i <= jobs@.len() == all.len(),
            all == job_views(jobs@),
            text@ == report(all.take(i as int)),
        decreases jobs@.len() - i,
    {
        let j = &jobs[i];
        let ghost before = text@;
        text.append("[");
        push_decimal(&mut text, j.id as i64);
        text.append("]+ Done       ");
        text.append(j.cmd.as_str());
        text.append("\n");
        proof {
            assert(text@ =~= before + done_line(j@));
            let done = all.take(i + 1);
            assert(done.drop_last() =~= all.take(i as int));
            assert(done.last() == j@);
        }
        i += 1;
    }
    assert(all.take(i as int) =~= all);
    text
}

// ---------------------------------------------------------------------------
// Laws
// ---------------------------------------------------------------------------

/// A job is done exactly if all its children have been reaped.
pub open spec fn job_sound(j: JobView) -> bool {
    (j.state == JobState::Done) == (j.pids.len() == 0)
}

/// Every job is done exactly if all its children have been reaped, and the
/// numbers of the jobs grow and are below the next one.
pub open spec fn sound(t: TableView) -> bool {
    &&& forall|i: int| 0 <= i < t.jobs.len() ==> job_sound(#[trigger] t.jobs[i])
    &&& forall|i: int| 0 <= i < t.jobs.len() ==> (#[trigger] t.jobs[i]).id < t.next_id
    &&& forall|i: int, j: int|
        0 <= i < j < t.jobs.len() ==> (#[trigger] t.jobs[i]).id < (#[trigger] t.jobs[j]).id
}

/// A new table is sound, and adding a job with children keeps a table sound.
pub proof fn adding_keeps_tables_sound(t: TableView, pgid: int, pids: Seq<i32>, cmd: Seq<char>)
    requires
        sound(t),
        pids.len() > 0,
    ensures
        sound(TableView { jobs: seq![], next_id: 1 }),
        sound(
            TableView {
                jobs: t.jobs.push(
                    JobView { id: t.next_id, pgid, pids, cmd, state: JobState::Running },
                ),
                next_id: t.next_id + 1,
            },
        ),
{
}

/// Reaping a child keeps a table sound.
pub proof fn reaping_keeps_tables_sound(t: TableView, pid: i32)
    requires
        sound(t),
    ensures
        sound(TableView { jobs: reaped(t.jobs, pid), ..t }),
{
    let k = lemma_owner(t.jobs, pid);
    lemma_reaped(t.jobs, pid, k);
    if k < t.jobs.len() {
        assert(job_sound(t.jobs[k]));
        assert(job_sound(job_reaped(t.jobs[k], pid)));
    }
}

/// The position of the first job that has `pid`, or the number of jobs.
proof fn lemma_owner(jobs: Seq<JobView>, pid: i32) -> (k: int)
    ensures
        0 <= k <= jobs.len(),
        forall|j: int| 0 <= j < k ==> !(#[trigger] jobs[j]).pids.contains(pid),
        k < jobs.len() ==> jobs[k].pids.contains(pid),
    decreases jobs.len(),
{
    if jobs.len() == 0 || jobs[0].pids.contains(pid) {
        0
    } else {
        let rest = jobs.skip(1);
        let k = lemma_owner(rest, pid);
        assert forall|j: int| 0 <= j < k + 1 implies !(#[trigger] jobs[j]).pids.contains(pid) by {
            if j > 0 {
                assert(jobs[j] == rest[j - 1]);
            }
        }
        k + 1
    }
}

/// Taking out the finished jobs keeps a table sound, and leaves only running
/// ones.
pub proof fn draining_keeps_tables_sound(t: TableView)
    requires
        sound(t),
    ensures
        sound(TableView { jobs: in_state(t.jobs, JobState::Running), ..t }),
        forall|i: int|
            0 <= i < in_state(t.jobs, JobState::Running).len() ==> (#[trigger] in_state(
                t.jobs,
                JobState::Running,
            )[i]).state == JobState::Running,
        forall|i: int|
            0 <= i < in_state(t.jobs, JobState::Done).len() ==> (#[trigger] in_state(
                t.jobs,
                JobState::Done,
            )[i]).pids.len() == 0,
        in_state(t.jobs, JobState::Running).len() + in_state(t.jobs, JobState::Done).len()
            == t.jobs.len(),
    decreases t.jobs.len(),
{
    if t.jobs.len() > 0 {
        let j = t.jobs.last();
        let shorter = TableView { jobs: t.jobs.drop_last(), next_id: j.id };
        assert(job_sound(t.jobs[t.jobs.len() - 1]));
        assert(sound(shorter)) by {
            assert forall|i: int| 0 <= i < shorter.jobs.len() implies job_sound(
                #[trigger] shorter.jobs[i],
            ) && shorter.jobs[i].id < shorter.next_id by {
                assert(shorter.jobs[i] == t.jobs[i]);
                assert(t.jobs[i].id < t.jobs[t.jobs.len() - 1].id);
            }
        }
        draining_keeps_tables_sound(shorter);
        let kept = in_state(shorter.jobs, JobState::Running);
        assert(t.jobs[t.jobs.len() - 1].id < t.next_id);
        assert forall|i: int| 0 <= i < kept.len() implies (#[trigger] kept[i]).id < j.id by {}
    }
}

/// Every job is drained or kept: whatever job a table has is in one of the two
/// lists, and nothing else is.
pub proof fn draining_loses_nothing(jobs: Seq<JobView>, j: JobView)
    ensures
        jobs.contains(j) == (in_state(jobs, JobState::Running).contains(j) || in_state(
            jobs,
            JobState::Done,
        ).contains(j)),
    decreases jobs.len(),
{
    if jobs.len() > 0 {
        let last = jobs.last();
        draining_loses_nothing(jobs.drop_last(), j);
        let r = in_state(jobs.drop_last(), JobState::Running);
        let d = in_state(jobs.drop_last(), JobState::Done);
        lemma_contains_push(jobs.drop_last(), last, j);
        lemma_contains_push(r, last, j);
        lemma_contains_push(d, last, j);
        assert(jobs.drop_last().push(last) =~= jobs);
    }
}

proof fn lemma_contains_push(s: Seq<JobView>, last: JobView, j: JobView)
    ensures
        s.push(last).contains(j) == (s.contains(j) || last == j),
{
    if s.contains(j) {
        let i = choose|i: int| 0 <= i < s.len() && s[i] == j;
        assert(s.push(last)[i] == j);
    }
    assert(s.push(last)[s.len() as int] == last);
}

/// `jobs` after the children `pids` have been reaped one by one.
pub open spec fn all_reaped(jobs: Seq<JobView>, pids: Seq<i32>) -> Seq<JobView>
    decreases pids.len(),
{
    if pids.len() == 0 {
        jobs
    } else {
        all_reaped(reaped(jobs, pids[0]), pids.skip(1))
    }
}

/// Once all children of a job have been reaped, in whatever order, the job is
/// done, and no other job has changed.
pub proof fn reaping_all_children_finishes_a_job(jobs: Seq<JobView>, k: int, pids: Seq<i32>)
    requires
        0 <= k < jobs.len(),
        job_sound(jobs[k]),
        pids.to_multiset() == jobs[k].pids.to_multiset(),
        forall|i: int, p: i32|
            0 <= i < k && pids.contains(p) ==> !#[trigger] jobs[i].pids.contains(p),
    ensures
        all_reaped(jobs, pids) == jobs.update(
            k,
            JobView { pids: seq![], state: JobState::Done, ..jobs[k] },
        ),
    decreases pids.len(),
{
    broadcast use vstd::seq_lib::group_to_multiset_ensures;

    let j = jobs[k];
    assert(pids.len() == pids.to_multiset().len());
    assert(j.pids.len() == j.pids.to_multiset().len());
    if pids.len() == 0 {
        assert(j.pids =~= seq![]);
        assert(jobs.update(k, JobView { pids: seq![], state: JobState::Done, ..j }) =~= jobs);
    } else {
        let p = pids[0];
        assert(pids.contains(p));
        assert(pids.to_multiset().count(p) > 0);
        assert(j.pids.contains(p));
        lemma_reaped(jobs, p, k);
        lemma_job_reaped(j, p);
        let next = reaped(jobs, p);
        let rest = pids.skip(1);
        assert(rest =~= pids.remove(0));
        assert(rest.to_multiset() == pids.to_multiset().remove(p));
        assert forall|i: int, q: i32| 0 <= i < k && rest.contains(q) implies !#[trigger] next[i].pids.contains(
            q,
        ) by {
            let m = choose|m: int| 0 <= m < rest.len() && rest[m] == q;
            assert(pids[m + 1] == q);
            assert(pids.contains(q));
            assert(next[i] == jobs[i]);
        }
        reaping_all_children_finishes_a_job(next, k, rest);
        assert(next.update(k, JobView { pids: seq![], state: JobState::Done, ..next[k] })
            =~= jobs.update(k, JobView { pids: seq![], state: JobState::Done, ..j }));
    }
}

/// Reaping takes one occurrence of the pid and nothing else.
proof fn lemma_job_reaped(j: JobView, pid: i32)
    requires
        j.pids.contains(pid),
        job_sound(j),
    ensures
        job_reaped(j, pid).pids.to_multiset() == j.pids.to_multiset().remove(pid),
        job_sound(job_reaped(j, pid)),
{
    broadcast use vstd::seq_lib::group_to_multiset_ensures;

    let s = j.pids;
    let k = pid_at(s, pid);
    lemma_pid_found(s, pid);
    let last = s.last();
    let moved = s.update(k, last);
    assert(moved.drop_last() =~= moved.remove(moved.len() - 1));
    assert(moved.to_multiset() =~= s.to_multiset().insert(last).remove(s[k]));
    assert(moved[moved.len() - 1] == last);
    assert(job_reaped(j, pid).pids.to_multiset() =~= s.to_multiset().remove(pid));
}

proof fn lemma_pid_found(pids: Seq<i32>, pid: i32)
    requires
        pids.contains(pid),
    ensures
        0 <= pid_at(pids, pid) < pids.len(),
        pids[pid_at(pids, pid)] == pid,
    decreases pids.len(),
{
    if pids[0] != pid {
        let i = choose|i: int| 0 <= i < pids.len() && pids[i] == pid;
        assert(pids.skip(1)[i - 1] == pid);
        lemma_pid_found(pids.skip(1), pid);
    }
}

/// Reaping takes one child of one job: the first job that has it. That job keeps
/// its number, its group and its command, and is done if no child is left; no
/// other job changes, nor does any without such a child.
pub proof fn reaping_takes_one_child_of_one_job(jobs: Seq<JobView>, pid: i32, k: int)
    requires
        0 <= k <= jobs.len(),
        forall|j: int| 0 <= j < k ==> !(#[trigger] jobs[j]).pids.contains(pid),
        k < jobs.len() ==> jobs[k].pids.contains(pid) && job_sound(jobs[k]),
    ensures
        ({
            let after = reaped(jobs, pid);
            &&& after.len() == jobs.len()
            &&& forall|j: int| 0 <= j < jobs.len() && j != k ==> #[trigger] after[j] == jobs[j]
            &&& k < jobs.len() ==> {
                &&& after[k].pids.to_multiset() == jobs[k].pids.to_multiset().remove(pid)
                &&& after[k].pids.len() == jobs[k].pids.len() - 1
                &&& after[k].id == jobs[k].id
                &&& after[k].pgid == jobs[k].pgid
                &&& after[k].cmd == jobs[k].cmd
                &&& after[k].state == (if jobs[k].pids.len() == 1 {
                    JobState::Done
                } else {
                    JobState::Running
                })
            }
        }),
{
    lemma_reaped(jobs, pid, k);
    if k < jobs.len() {
        lemma_job_reaped(jobs[k], pid);
        lemma_pid_found(jobs[k].pids, pid);
        assert(job_reaped(jobs[k], pid).pids.len() == jobs[k].pids.len() - 1);
    }
}

/// The jobs in a state are just those, in the order of the table.
pub proof fn draining_keeps_the_order(jobs: Seq<JobView>, state: JobState)
    ensures
        in_state(jobs, state) == jobs.filter(|j: JobView| j.state == state),
    decreases jobs.len(),
{
    reveal(Seq::filter);
    if jobs.len() > 0 {
        draining_keeps_the_order(jobs.drop_last(), state);
    }
}

/// The jobs are listed one after the other: a running one in a line of its own,
/// and one that is done not at all. Jobs that are done are reported one after
/// the other, each in a line of its own.
pub proof fn jobs_are_listed_one_by_one(a: Seq<JobView>, b: Seq<JobView>, j: JobView)
    ensures
        listing(a + b) == listing(a) + listing(b),
        listing(seq![j]) == (if j.state == JobState::Running {
            "["@ + decimal(j.id) + "]  Running    "@ + j.cmd + " &\n"@
        } else {
            seq![]
        }),
        report(a + b) == report(a) + report(b),
        report(seq![j]) == "["@ + decimal(j.id) + "]+ Done       "@ + j.cmd + "\n"@,
    decreases b.len(),
{
    reveal_with_fuel(listing, 2);
    reveal_with_fuel(report, 2);
    let one = seq![j];
    assert(one.drop_last() =~= Seq::<JobView>::empty());
    assert(listing(one) =~= if j.state == JobState::Running {
        running_line(j)
    } else {
        seq![]
    });
    assert(report(one) =~= done_line(j));
    if b.len() == 0 {
        assert(a + b =~= a);
        assert(listing(a + b) =~= listing(a) + listing(b));
        assert(report(a + b) =~= report(a) + report(b));
    } else {
        assert((a + b).drop_last() =~= a + b.drop_last());
        assert((a + b).last() == b.last());
        jobs_are_listed_one_by_one(a, b.drop_last(), j);
        assert(listing(a + b) =~= listing(a) + listing(b));
        assert(report(a + b) =~= report(a) + report(b));
    }
}

} // verus!
