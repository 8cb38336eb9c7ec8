use vstd::prelude::*;

verus! {

use vstd::arithmetic::mul::lemma_mul_inequality;
use crate::errors::{Error, ValueError};
use crate::repo::{LOG_CAP, Repo, task_models, total_logs};
use crate::task::{Log, Task, TaskModel, sum_durations_between, wf_logs};
use crate::time::{Duration, Timestamp, TS_SPAN_SECS};

/// The task currently logging, if any: the first task in listing order
/// whose last log is open.  With the intended single-active-log discipline
/// there is at most one.
pub fn get_current_log_task(repo: &Repo) -> (r: Option<Task>)
    requires
        repo.wf(),
    ensures
        match r {
            Some(t) => exists|i: int|
                {
                    &&& 0 <= i < repo.tasks@.len()
                    &&& t@ == (#[trigger] repo.tasks@[i])@
                    &&& repo.tasks@[i].spec_is_logging()
                    &&& forall|j: int| 0 <= j < i ==> !(#[trigger] repo.tasks@[j]).spec_is_logging()
                },
            None => forall|i: int|
                0 <= i < repo.tasks@.len() ==> !(#[trigger] repo.tasks@[i]).spec_is_logging(),
        },
{
    match find_logging_index(repo) {
        Some(i) => Some(repo.tasks[i].duplicate()),
        None => None,
    }
}

fn find_logging_index(repo: &Repo) -> (r: Option<usize>)
    requires
        repo.wf(),
    ensures
        match r {
            Some(i) => {
                &&& i < repo.tasks@.len()
                &&& repo.tasks@[i as int].spec_is_logging()
                &&& forall|j: int| 0 <= j < i ==> !(#[trigger] repo.tasks@[j]).spec_is_logging()
            },
            None => forall|i: int|
                0 <= i < repo.tasks@.len() ==> !(#[trigger] repo.tasks@[i]).spec_is_logging(),
        },
{
    let mut i: usize = 0;
    while i < repo.tasks.len()
        invariant
            repo.wf(),
            0 <= i <= repo.tasks@.len(),
            forall|j: int| 0 <= j < i ==> !(#[trigger] repo.tasks@[j]).spec_is_logging(),
        decreases repo.tasks@.len() - i,
    {
        proof {
            assert(repo.tasks@[i as int].wf());
        }
        match repo.tasks[i].status() {
            crate::task::TaskStatus::Logging() => {
                return Some(i);
            },
            crate::task::TaskStatus::Stopped() => {},
        }
        i = i + 1;
    }
    None
}

/// Whether any task of the snapshot is currently logging.  Orchestrating
/// callers check this before opening a new log, since the repository
/// operations themselves deliberately do not.
pub fn has_any_open_log(repo: &Repo) -> (b: bool)
    requires
        repo.wf(),
    ensures
        b == exists|i: int|
            0 <= i < repo.tasks@.len() && (#[trigger] repo.tasks@[i]).spec_is_logging(),
{
    match find_logging_index(repo) {
        Some(_) => true,
        None => false,
    }
}

/// Closes the last log of the currently logging task at `at` and returns
/// the updated task; a value error when no task is logging.
pub fn stop_current_task_at(repo: &mut Repo, at: Timestamp) -> (r: Result<Task, Error>)
    requires
        old(repo).wf(),
        at.wf(),
    ensures
        final(repo).wf(),
        match r {
            Ok(t) => exists|i: int|
                {
                    &&& 0 <= i < old(repo).tasks@.len()
                    &&& (#[trigger] old(repo).tasks@[i]).spec_is_logging()
                    &&& (forall|j: int|
                        0 <= j < i ==> !(#[trigger] old(repo).tasks@[j]).spec_is_logging())
                    &&& final(repo).tasks@.len() == old(repo).tasks@.len()
                    &&& (forall|j: int|
                        0 <= j < old(repo).tasks@.len() && j != i ==> final(repo).tasks@[j] == old(
                            repo,
                        ).tasks@[j])
                    &&& t@ == final(repo).tasks@[i]@
                    &&& t@.id == old(repo).tasks@[i]@.id
                    &&& t@.name == old(repo).tasks@[i]@.name
                    &&& t@.logs == old(repo).tasks@[i].logs@.update(
                        old(repo).tasks@[i].logs@.len() - 1,
                        Log {
                            start: old(repo).tasks@[i].logs@.last().start,
                            end: Some(at),
                        },
                    )
                },
            Err(e) => {
                &&& (e matches Error::Value(_))
                &&& final(repo).tasks@ == old(repo).tasks@
                &&& forall|i: int|
                    0 <= i < old(repo).tasks@.len() ==> !(
                    #[trigger] old(repo).tasks@[i]).spec_is_logging()
            },
        },
{
    let idx = match find_logging_index(repo) {
        Some(i) => i,
        None => {
            return Err(Error::Value(ValueError::new("Not task currently being logged.")));
        },
    };
    let ghost pre = repo.tasks@;
    let mut task = repo.tasks.remove(idx);
    let res = task.close_last_log(at);
    proof {
        assert(pre[idx as int].wf());
        if res is Err {
            assert(false);
        }
    }
    let copy = task.duplicate();
    repo.tasks.insert(idx, task);
    proof {
        assert(repo.tasks@ =~= pre.update(idx as int, repo.tasks@[idx as int]));
        let cur = repo.tasks@;
        assert forall|j: int| 0 <= j < pre.len() && j != idx implies cur[j] == pre[j] by {}
        assert forall|a: int, b: int| 0 <= a < b < cur.len() implies cur[a].id != cur[b].id by {
            assert(cur[a].id == pre[a].id);
            assert(cur[b].id == pre[b].id);
        }
        assert forall|j: int| 0 <= j < cur.len() implies (#[trigger] cur[j]).wf()
            && crate::codec::encodable(cur[j]@) by {
            if j != idx {
                assert(cur[j] == pre[j]);
            } else {
                assert(cur[j].name@ == pre[j].name@);
            }
        }
        lemma_total_logs_update(pre, idx as int, repo.tasks@[idx as int]);
    }
    Ok(copy)
}

/// Replacing one task changes the total log count by the difference of the
/// two tasks' log counts.
proof fn lemma_total_logs_update(tasks: Seq<Task>, i: int, t: Task)
    requires
        0 <= i < tasks.len(),
    ensures
        total_logs(tasks.update(i, t)) == total_logs(tasks) - tasks[i].logs@.len()
            + t.logs@.len(),
    decreases tasks.len(),
{
    if i == tasks.len() - 1 {
        assert(tasks.update(i, t).drop_last() =~= tasks.drop_last());
        assert(tasks.update(i, t).last() == t);
    } else {
        assert(tasks.update(i, t).drop_last() =~= tasks.drop_last().update(i, t));
        assert(tasks.update(i, t).last() == tasks.last());
        assert(tasks.drop_last()[i] == tasks[i]);
        lemma_total_logs_update(tasks.drop_last(), i, t);
    }
}

/// How many logs the snapshot holds in all; within the cap whenever the
/// snapshot is well formed, so callers can test for room.
pub fn total_log_count(repo: &Repo) -> (r: u64)
    requires
        repo.wf(),
    ensures
        r == total_logs(repo.tasks@),
{
    let mut count: u64 = 0;
    let mut i: usize = 0;
    proof {
        assert(repo.tasks@.take(0) =~= Seq::<Task>::empty());
    }
    while i < repo.tasks.len()
        invariant
            repo.wf(),
            0 <= i <= repo.tasks@.len(),
            count == total_logs(repo.tasks@.take(i as int)),
            count <= LOG_CAP,
        decreases repo.tasks@.len() - i,
    {
        proof {
            assert(repo.tasks@.take(i + 1).drop_last() =~= repo.tasks@.take(i as int));
            assert(repo.tasks@.take(i + 1).last() == repo.tasks@[i as int]);
            lemma_total_logs_take(repo.tasks@, i + 1);
            lemma_total_logs_nonneg(repo.tasks@.take(i + 1));
        }
        count = count + repo.tasks[i].logs.len() as u64;
        i = i + 1;
    }
    proof {
        assert(repo.tasks@.take(repo.tasks@.len() as int) =~= repo.tasks@);
    }
    count
}

/// Opens a new log at `at` on the task with the given id, recording the
/// change in the snapshot and returning the updated task.  As with
/// `Repo::log_task`, nothing here checks whether another task is already
/// logging.
pub fn log_task_at(repo: &mut Repo, id: u32, at: Timestamp) -> (r: Result<Task, Error>)
    requires
        old(repo).wf(),
        at.wf(),
    ensures
        match r {
            Ok(t) => exists|i: int|
                {
                    &&& 0 <= i < old(repo).tasks@.len()
                    &&& (#[trigger] old(repo).tasks@[i]).id == id
                    &&& final(repo).tasks@.len() == old(repo).tasks@.len()
                    &&& (forall|j: int|
                        0 <= j < old(repo).tasks@.len() && j != i ==> final(repo).tasks@[j] == old(
                            repo,
                        ).tasks@[j])
                    &&& t@ == final(repo).tasks@[i]@
                    &&& t@.id == id
                    &&& t@.name == old(repo).tasks@[i]@.name
                    &&& t@.logs == old(repo).tasks@[i].logs@.push(Log { start: at, end: None })
                    &&& (!old(repo).tasks@[i].spec_is_logging() ==> final(repo).wf())
                },
            Err(e) => {
                &&& (e matches Error::Value(_))
                &&& final(repo).tasks@ == old(repo).tasks@
                &&& ((forall|i: int|
                    0 <= i < old(repo).tasks@.len() ==> (#[trigger] old(repo).tasks@[i]).id != id)
                    || total_logs(old(repo).tasks@) >= LOG_CAP)
            },
        },
{
    if total_log_count(repo) >= LOG_CAP {
        return Err(Error::Value(ValueError::new("repository too large")));
    }
    let idx: usize = match find_repo_index(repo, id) {
        Some(i) => i,
        None => {
            return Err(Error::Value(ValueError::new("no task with this id")));
        },
    };
    let ghost pre = repo.tasks@;
    let mut task = repo.tasks.remove(idx);
    task.append_open_log(at);
    let copy = task.duplicate();
    repo.tasks.insert(idx, task);
    proof {
        assert(repo.tasks@ =~= pre.update(idx as int, repo.tasks@[idx as int]));
        let cur = repo.tasks@;
        assert(pre[idx as int].wf());
        if !pre[idx as int].spec_is_logging() {
            assert forall|a: int, b: int| 0 <= a < b < cur.len() implies cur[a].id != cur[b].id by {
                assert(cur[a].id == pre[a].id);
                assert(cur[b].id == pre[b].id);
            }
            assert forall|j: int| 0 <= j < cur.len() implies (#[trigger] cur[j]).wf()
                && crate::codec::encodable(cur[j]@) by {
                if j != idx {
                    assert(cur[j] == pre[j]);
                } else {
                    assert(cur[j].name@ == pre[j].name@);
                }
            }
            lemma_total_logs_update(pre, idx as int, cur[idx as int]);
        }
    }
    Ok(copy)
}

fn find_repo_index(repo: &Repo, id: u32) -> (r: Option<usize>)
    ensures
        match r {
            Some(i) => i < repo.tasks@.len() && repo.tasks@[i as int].id == id,
            None => forall|i: int|
                0 <= i < repo.tasks@.len() ==> (#[trigger] repo.tasks@[i]).id != id,
        },
{
    let mut i: usize = 0;
    while i < repo.tasks.len()
        invariant
            0 <= i <= repo.tasks@.len(),
            forall|j: int| 0 <= j < i ==> (#[trigger] repo.tasks@[j]).id != id,
        decreases repo.tasks@.len() - i,
    {
        if repo.tasks[i].id == id {
            return Some(i);
        }
        i = i + 1;
    }
    None
}

/// Creates a task and immediately opens its first log at `at`.
pub fn create_log_task_at(repo: &mut Repo, name: &Vec<u8>, at: Timestamp) -> (r: Result<
    Task,
    Error,
>)
    requires
        old(repo).wf(),
        at.wf(),
        crate::codec::clean_name(name@),
        crate::repo::spec_max_id(old(repo).tasks@) < u32::MAX,
    ensures
        match r {
            Ok(t) => {
                &&& final(repo).wf()
                &&& final(repo).tasks@.len() == old(repo).tasks@.len() + 1
                &&& (forall|j: int|
                    0 <= j < old(repo).tasks@.len() ==> final(repo).tasks@[j] == old(
                        repo,
                    ).tasks@[j])
                &&& final(repo).tasks@.last()@ == t@
                &&& t@.id == crate::repo::spec_max_id(old(repo).tasks@) + 1
                &&& t@.name == name@
                &&& t@.logs == seq![Log { start: at, end: None }]
            },
            Err(e) => {
                &&& (e matches Error::Value(_))
                &&& final(repo).tasks@ == old(repo).tasks@
                &&& total_logs(old(repo).tasks@) >= LOG_CAP
            },
        },
{
    if total_log_count(repo) >= LOG_CAP {
        return Err(Error::Value(ValueError::new("repository too large")));
    }
    let created = repo.create_task(name);
    let ghost mid = repo.tasks@;
    let idx = repo.tasks.len() - 1;
    let mut task = repo.tasks.remove(idx);
    proof {
        assert(task == mid.last());
        assert(repo.tasks@ =~= mid.drop_last());
    }
    task.append_open_log(at);
    let copy = task.duplicate();
    repo.tasks.insert(idx, task);
    proof {
        assert(repo.tasks@ =~= mid.update(idx as int, repo.tasks@[idx as int]));
        let cur = repo.tasks@;
        assert(cur.last() == cur[idx as int]);
        assert forall|a: int, b: int| 0 <= a < b < cur.len() implies cur[a].id != cur[b].id by {
            assert(cur[a].id == mid[a].id);
            assert(cur[b].id == mid[b].id);
        }
        assert forall|j: int| 0 <= j < cur.len() implies (#[trigger] cur[j]).wf()
            && crate::codec::encodable(cur[j]@) by {
            if j != idx {
                assert(cur[j] == mid[j]);
            } else {
                assert(cur[j].name@ == mid[j].name@);
                assert(mid[j].logs@.len() == 0);
            }
        }
        lemma_total_logs_update(mid, idx as int, cur[idx as int]);
        assert(mid.drop_last() =~= old(repo).tasks@);
        assert(total_logs(mid) == total_logs(mid.drop_last()) + mid.last().logs@.len());
        assert(mid.last().logs@.len() == 0);
        assert(total_logs(mid) == total_logs(old(repo).tasks@));
        assert(cur[idx as int].logs@ =~= seq![Log { start: at, end: None }]);
    }
    Ok(copy)
}

/// Whether a task belongs to the window `[start, end]`: some log's start or
/// effective end falls inside it.  This endpoint test is deliberately not
/// the same predicate as the per-log overlap test used for flattened logs.
pub open spec fn matches_window(m: TaskModel, start: Timestamp, end: Timestamp, now: Timestamp) -> bool {
    exists|i: int|
        0 <= i < m.logs.len() && {
            ||| start.secs <= (#[trigger] m.logs[i]).start.secs <= end.secs
            ||| start.secs <= m.logs[i].spec_effective_end(now).secs <= end.secs
        }
}

pub open spec fn filter_tasks_between(
    ms: Seq<TaskModel>,
    start: Timestamp,
    end: Timestamp,
    now: Timestamp,
) -> Seq<TaskModel>
    decreases ms.len(),
{
    if ms.len() == 0 {
        Seq::<TaskModel>::empty()
    } else {
        let rest = filter_tasks_between(ms.drop_last(), start, end, now);
        if matches_window(ms.last(), start, end, now) {
            rest.push(ms.last())
        } else {
            rest
        }
    }
}

fn task_in_window(t: &Task, start: Timestamp, end: Timestamp, now: Timestamp) -> (b: bool)
    ensures
        b == matches_window(t@, start, end, now),
{
    let mut i: usize = 0;
    while i < t.logs.len()
        invariant
            0 <= i <= t.logs@.len(),
            forall|j: int|
                0 <= j < i ==> !{
                    ||| start.secs <= (#[trigger] t.logs@[j]).start.secs <= end.secs
                    ||| start.secs <= t.logs@[j].spec_effective_end(now).secs <= end.secs
                },
        decreases t.logs@.len() - i,
    {
        let lg = t.logs[i];
        if start.secs <= lg.start.secs && lg.start.secs <= end.secs {
            return true;
        }
        let eff = lg.effective_end(now);
        if start.secs <= eff.secs && eff.secs <= end.secs {
            return true;
        }
        i = i + 1;
    }
    false
}

/// Every task having a log whose start or effective end falls within
/// `[start, end]`, in listing order.
pub fn get_all_tasks_between(repo: &Repo, start: Timestamp, end: Timestamp, now: Timestamp) -> (r:
    Vec<Task>)
    requires
        repo.wf(),
    ensures
        task_models(r@) == filter_tasks_between(repo.models(), start, end, now),
        forall|i: int| 0 <= i < r@.len() ==> (#[trigger] r@[i]).wf(),
{
    let ghost ms = repo.models();
    let mut out: Vec<Task> = Vec::new();
    let mut i: usize = 0;
    proof {
        assert(ms.take(0) =~= Seq::<TaskModel>::empty());
        assert(task_models(out@) =~= Seq::<TaskModel>::empty());
    }
    while i < repo.tasks.len()
        invariant
            repo.wf(),
            ms == repo.models(),
            ms.len() == repo.tasks@.len(),
            0 <= i <= repo.tasks@.len(),
            task_models(out@) == filter_tasks_between(ms.take(i as int), start, end, now),
            forall|k: int| 0 <= k < out@.len() ==> (#[trigger] out@[k]).wf(),
        decreases repo.tasks@.len() - i,
    {
        proof {
            assert(ms.take(i + 1).drop_last() =~= ms.take(i as int));
            assert(ms.take(i + 1).last() == ms[i as int]);
            assert(ms[i as int] == repo.tasks@[i as int]@);
            assert(repo.tasks@[i as int].wf());
        }
        if task_in_window(&repo.tasks[i], start, end, now) {
            let copy = repo.tasks[i].duplicate();
            proof {
                assert(task_models(out@.push(copy)) =~= task_models(out@).push(copy@));
            }
            out.push(copy);
        }
        i = i + 1;
    }
    proof {
        assert(ms.take(ms.len() as int) =~= ms);
    }
    out
}

/// Sum of the windowed durations of a model sequence.
pub open spec fn models_duration_between(
    ms: Seq<TaskModel>,
    start: Timestamp,
    end: Timestamp,
    now: Timestamp,
) -> int
    decreases ms.len(),
{
    if ms.len() == 0 {
        0
    } else {
        models_duration_between(ms.drop_last(), start, end, now) + sum_durations_between(
            ms.last().logs,
            start,
            end,
            now,
        )
    }
}

proof fn lemma_sum_between_bound(logs: Seq<Log>, start: Timestamp, end: Timestamp, now: Timestamp)
    requires
        wf_logs(logs),
        start.wf(),
        end.wf(),
        now.wf(),
    ensures
        -(logs.len() as int) * (TS_SPAN_SECS as int) <= sum_durations_between(
            logs,
            start,
            end,
            now,
        ) <= (logs.len() as int) * (TS_SPAN_SECS as int),
    decreases logs.len(),
{
    if logs.len() > 0 {
        assert(wf_logs(logs.drop_last())) by {
            assert forall|i: int| 0 <= i < logs.drop_last().len() implies (
            #[trigger] logs.drop_last()[i]).wf() by {
                assert(logs.drop_last()[i] == logs[i]);
            }
            assert forall|i: int|
                0 <= i < logs.drop_last().len() && (#[trigger] logs.drop_last()[i]).end
                is None implies i == logs.drop_last().len() - 1 by {
                assert(logs.drop_last()[i] == logs[i]);
                assert(logs[i].end is None ==> i == logs.len() - 1);
            }
        }
        lemma_sum_between_bound(logs.drop_last(), start, end, now);
        assert(logs[logs.len() - 1].wf());
        let d = logs.last().spec_duration_between(start, end, now);
        assert(-(TS_SPAN_SECS as int) <= d <= TS_SPAN_SECS as int);
    }
}

/// Prefixes never count more logs than the whole.
proof fn lemma_total_logs_take(tasks: Seq<Task>, i: int)
    requires
        0 <= i <= tasks.len(),
    ensures
        total_logs(tasks.take(i)) <= total_logs(tasks),
        total_logs(tasks.take(i)) >= 0,
    decreases tasks.len() - i,
{
    if i == tasks.len() {
        assert(tasks.take(i) =~= tasks);
        lemma_total_logs_nonneg(tasks);
    } else {
        lemma_total_logs_take(tasks, i + 1);
        assert(tasks.take(i + 1).drop_last() =~= tasks.take(i));
        assert(tasks.take(i + 1).last() == tasks[i]);
        lemma_total_logs_nonneg(tasks.take(i));
    }
}

proof fn lemma_total_logs_nonneg(tasks: Seq<Task>)
    ensures
        total_logs(tasks) >= 0,
    decreases tasks.len(),
{
    if tasks.len() > 0 {
        lemma_total_logs_nonneg(tasks.drop_last());
    }
}

/// Total time logged in `[start, end]` across every task of the snapshot,
/// open logs measured up to `now`.
pub fn get_total_duration(repo: &Repo, start: Timestamp, end: Timestamp, now: Timestamp) -> (r:
    Duration)
    requires
        repo.wf(),
        start.wf(),
        end.wf(),
        now.wf(),
    ensures
        r.secs == models_duration_between(repo.models(), start, end, now),
{
    let ghost ms = repo.models();
    let mut total: i128 = 0;
    let mut i: usize = 0;
    proof {
        assert(ms.take(0) =~= Seq::<TaskModel>::empty());
        assert(repo.tasks@.take(0) =~= Seq::<Task>::empty());
    }
    while i < repo.tasks.len()
        invariant
            repo.wf(),
            start.wf(),
            end.wf(),
            now.wf(),
            ms == repo.models(),
            ms.len() == repo.tasks@.len(),
            0 <= i <= repo.tasks@.len(),
            total == models_duration_between(ms.take(i as int), start, end, now),
            -total_logs(repo.tasks@.take(i as int)) * (TS_SPAN_SECS as int) <= total
                <= total_logs(repo.tasks@.take(i as int)) * (TS_SPAN_SECS as int),
        decreases repo.tasks@.len() - i,
    {
        proof {
            assert(repo.tasks@[i as int].wf());
        }
        let d = repo.tasks[i].duration_between(start, end, now);
        proof {
            let tl = repo.tasks@;
            assert(ms.take(i + 1).drop_last() =~= ms.take(i as int));
            assert(ms.take(i + 1).last() == ms[i as int]);
            assert(ms[i as int] == tl[i as int]@);
            assert(tl.take(i + 1).drop_last() =~= tl.take(i as int));
            assert(tl.take(i + 1).last() == tl[i as int]);
            lemma_sum_between_bound(tl[i as int].logs@, start, end, now);
            lemma_total_logs_take(tl, i as int);
            lemma_total_logs_take(tl, i + 1);
            lemma_mul_inequality(total_logs(tl.take(i + 1)), LOG_CAP as int, TS_SPAN_SECS as int);
            assert(total_logs(tl) <= LOG_CAP);
        }
        total = total + d.secs;
        i = i + 1;
    }
    proof {
        assert(ms.take(ms.len() as int) =~= ms);
    }
    Duration { secs: total }
}

/// True interval overlap of a log with `[start, end]`, the effective end
/// taken at `now`.  Unlike the task-level window test, this is a full
/// overlap test; the two predicates can disagree on logs whose span
/// crosses the window while both endpoints lie outside it.
pub open spec fn log_overlaps(l: Log, start: Timestamp, end: Timestamp, now: Timestamp) -> bool {
    l.start.secs <= end.secs && l.spec_effective_end(now).secs >= start.secs
}

pub open spec fn pair_models(ps: Seq<(Task, Log)>) -> Seq<(TaskModel, Log)> {
    ps.map(|i: int, p: (Task, Log)| (p.0@, p.1))
}

/// The `(task, log)` pairs one task contributes: its overlapping logs, in
/// stored order.
pub open spec fn collect_logs(
    m: TaskModel,
    logs: Seq<Log>,
    start: Timestamp,
    end: Timestamp,
    now: Timestamp,
) -> Seq<(TaskModel, Log)>
    decreases logs.len(),
{
    if logs.len() == 0 {
        Seq::<(TaskModel, Log)>::empty()
    } else {
        let rest = collect_logs(m, logs.drop_last(), start, end, now);
        if log_overlaps(logs.last(), start, end, now) {
            rest.push((m, logs.last()))
        } else {
            rest
        }
    }
}

/// All overlapping pairs over all tasks, in listing order.
pub open spec fn collect_all(
    ms: Seq<TaskModel>,
    start: Timestamp,
    end: Timestamp,
    now: Timestamp,
) -> Seq<(TaskModel, Log)>
    decreases ms.len(),
{
    if ms.len() == 0 {
        Seq::<(TaskModel, Log)>::empty()
    } else {
        collect_all(ms.drop_last(), start, end, now) + collect_logs(
            ms.last(),
            ms.last().logs,
            start,
            end,
            now,
        )
    }
}

/// Stable insertion of a pair into a run sorted by log start: it lands
/// after every element whose start does not exceed its own.
pub open spec fn insert_pair(p: (TaskModel, Log), s: Seq<(TaskModel, Log)>) -> Seq<
    (TaskModel, Log),
>
    decreases s.len(),
{
    if s.len() == 0 {
        seq![p]
    } else if s.last().1.start.secs <= p.1.start.secs {
        s.push(p)
    } else {
        insert_pair(p, s.drop_last()).push(s.last())
    }
}

/// Stable insertion sort by log start, ascending.
pub open spec fn sort_pairs(s: Seq<(TaskModel, Log)>) -> Seq<(TaskModel, Log)>
    decreases s.len(),
{
    if s.len() == 0 {
        s
    } else {
        insert_pair(s.last(), sort_pairs(s.drop_last()))
    }
}

/// Clips the first pair's start up to `start` and the last pair's
/// effective end down to `end`, leaving everything else untouched; an open
/// last log that runs past the window comes back closed at `end`.
pub open spec fn clip_pairs(
    ps: Seq<(TaskModel, Log)>,
    start: Timestamp,
    end: Timestamp,
    now: Timestamp,
) -> Seq<(TaskModel, Log)> {
    if ps.len() == 0 {
        ps
    } else {
        let f = ps[0];
        let f2 = if f.1.start.secs < start.secs {
            (f.0, Log { start: start, end: f.1.end })
        } else {
            f
        };
        let ps1 = ps.update(0, f2);
        let l = ps1.last();
        let l2 = if l.1.spec_effective_end(now).secs > end.secs {
            (l.0, Log { start: l.1.start, end: Some(end) })
        } else {
            l
        };
        ps1.update(ps1.len() - 1, l2)
    }
}

/// Ascending by log start.
pub open spec fn sorted_by_start(s: Seq<(TaskModel, Log)>) -> bool {
    forall|i: int, j: int| 0 <= i < j < s.len() ==> s[i].1.start.secs <= s[j].1.start.secs
}

proof fn lemma_insert_pair_props(p: (TaskModel, Log), s: Seq<(TaskModel, Log)>)
    ensures
        insert_pair(p, s).to_multiset() == s.to_multiset().insert(p),
        insert_pair(p, s).len() == s.len() + 1,
        forall|i: int|
            0 <= i < insert_pair(p, s).len() ==> insert_pair(p, s)[i] == p || s.contains(
                #[trigger] insert_pair(p, s)[i],
            ),
        sorted_by_start(s) ==> sorted_by_start(insert_pair(p, s)),
    decreases s.len(),
{
    broadcast use vstd::seq_lib::group_to_multiset_ensures;

    let r = insert_pair(p, s);
    if s.len() == 0 {
        assert(r =~= Seq::<(TaskModel, Log)>::empty().push(p));
        assert(r.to_multiset() =~= s.to_multiset().insert(p));
    } else if s.last().1.start.secs <= p.1.start.secs {
        assert(r == s.push(p));
        assert forall|i: int| 0 <= i < r.len() implies r[i] == p || s.contains(
            #[trigger] r[i],
        ) by {
            if i < s.len() {
                assert(r[i] == s[i]);
            }
        }
        if sorted_by_start(s) {
            assert forall|i: int, j: int| 0 <= i < j < r.len() implies r[i].1.start.secs
                <= r[j].1.start.secs by {
                if j < s.len() {
                } else {
                    assert(r[j] == p);
                    if i < s.len() - 1 {
                        assert(s[i].1.start.secs <= s[s.len() - 1].1.start.secs);
                    }
                }
            }
        }
    } else {
        lemma_insert_pair_props(p, s.drop_last());
        let r0 = insert_pair(p, s.drop_last());
        assert(r == r0.push(s.last()));
        assert(s =~= s.drop_last().push(s.last()));
        assert(s.to_multiset() == s.drop_last().to_multiset().insert(s.last()));
        assert(r.to_multiset() == r0.to_multiset().insert(s.last()));
        assert(r.to_multiset() =~= s.to_multiset().insert(p));
        assert forall|i: int| 0 <= i < r.len() implies r[i] == p || s.contains(
            #[trigger] r[i],
        ) by {
            if i < r0.len() {
                assert(r[i] == r0[i]);
                if r0[i] != p {
                    let j = choose|j: int| 0 <= j < s.drop_last().len() && s.drop_last()[j]
                        == r0[i];
                    assert(s[j] == r0[i]);
                }
            } else {
                assert(r[i] == s[s.len() - 1]);
            }
        }
        if sorted_by_start(s) {
            assert(sorted_by_start(s.drop_last())) by {
                assert forall|i: int, j: int|
                    0 <= i < j < s.drop_last().len() implies s.drop_last()[i].1.start.secs
                    <= s.drop_last()[j].1.start.secs by {
                    assert(s.drop_last()[i] == s[i]);
                    assert(s.drop_last()[j] == s[j]);
                }
            }
            assert forall|i: int, j: int| 0 <= i < j < r.len() implies r[i].1.start.secs
                <= r[j].1.start.secs by {
                if j < r0.len() {
                    assert(r[i] == r0[i] && r[j] == r0[j]);
                } else {
                    assert(r[j] == s.last());
                    assert(r[i] == r0[i]);
                    if r0[i] == p {
                    } else {
                        let k = choose|k: int| 0 <= k < s.drop_last().len() && s.drop_last()[k]
                            == r0[i];
                        assert(s[k] == r0[i]);
                        assert(s[k].1.start.secs <= s[s.len() - 1].1.start.secs);
                    }
                }
            }
        }
    }
}

/// Sorting the collected pairs keeps exactly those pairs (as a multiset)
/// and orders them by log start, ascending.
pub proof fn lemma_sort_pairs_props(s: Seq<(TaskModel, Log)>)
    ensures
        sort_pairs(s).to_multiset() == s.to_multiset(),
        sort_pairs(s).len() == s.len(),
        sorted_by_start(sort_pairs(s)),
    decreases s.len(),
{
    broadcast use vstd::seq_lib::group_to_multiset_ensures;

    if s.len() == 0 {
    } else {
        lemma_sort_pairs_props(s.drop_last());
        lemma_insert_pair_props(s.last(), sort_pairs(s.drop_last()));
        assert(s =~= s.drop_last().push(s.last()));
        assert(s.to_multiset() == s.drop_last().to_multiset().insert(s.last()));
        assert(sort_pairs(s).to_multiset() =~= s.to_multiset());
    }
}

fn insert_pair_exec(p: (Task, Log), sorted: Vec<(Task, Log)>) -> (r: Vec<(Task, Log)>)
    ensures
        pair_models(r@) == insert_pair((p.0@, p.1), pair_models(sorted@)),
    decreases sorted@.len(),
{
    let mut sorted = sorted;
    let n = sorted.len();
    if n == 0 {
        proof {
            assert(pair_models(sorted@).len() == 0);
        }
        sorted.push(p);
        proof {
            assert(pair_models(sorted@) =~= seq![(p.0@, p.1)]);
        }
        sorted
    } else if sorted[n - 1].1.start.secs <= p.1.start.secs {
        proof {
            assert(pair_models(sorted@).last() == (sorted@.last().0@, sorted@.last().1));
        }
        let ghost pre = sorted@;
        sorted.push(p);
        proof {
            assert(pair_models(sorted@) =~= pair_models(pre).push((p.0@, p.1)));
        }
        sorted
    } else {
        let ghost orig = sorted@;
        let last = match sorted.pop() {
            Some(x) => x,
            None => {
                proof {
                    assert(false);
                }
                return sorted;
            },
        };
        proof {
            assert(orig =~= sorted@.push(last));
            assert(pair_models(sorted@) =~= pair_models(orig).drop_last());
            assert(pair_models(orig).last() == (orig.last().0@, orig.last().1));
        }
        let mut rec = insert_pair_exec(p, sorted);
        let ghost rec_pre = rec@;
        rec.push(last);
        proof {
            assert(pair_models(rec@) =~= pair_models(rec_pre).push((last.0@, last.1)));
        }
        rec
    }
}

fn sort_pairs_exec(ps: Vec<(Task, Log)>) -> (r: Vec<(Task, Log)>)
    ensures
        pair_models(r@) == sort_pairs(pair_models(ps@)),
    decreases ps@.len(),
{
    let mut ps = ps;
    if ps.len() == 0 {
        proof {
            assert(pair_models(ps@).len() == 0);
        }
        ps
    } else {
        let ghost whole = ps@;
        let last = match ps.pop() {
            Some(x) => x,
            None => {
                proof {
                    assert(false);
                }
                return ps;
            },
        };
        proof {
            assert(pair_models(ps@) =~= pair_models(whole).drop_last());
            assert(pair_models(whole).last() == (last.0@, last.1));
        }
        let sorted = sort_pairs_exec(ps);
        insert_pair_exec(last, sorted)
    }
}

/// Every `(task, log)` pair whose log truly overlaps `[start, end]`, in
/// the order the pairs take when sorted by their unclipped log starts;
/// the first pair's start and the last pair's effective end are then
/// clipped to the window, which can raise the first start past a later
/// pair's.
pub fn get_all_logs_between(repo: &Repo, start: Timestamp, end: Timestamp, now: Timestamp) -> (r:
    Vec<(Task, Log)>)
    requires
        repo.wf(),
    ensures
        pair_models(r@) == clip_pairs(
            sort_pairs(collect_all(repo.models(), start, end, now)),
            start,
            end,
            now,
        ),
{
    let ghost ms = repo.models();
    let mut acc: Vec<(Task, Log)> = Vec::new();
    let mut ti: usize = 0;
    proof {
        assert(ms.take(0) =~= Seq::<TaskModel>::empty());
        assert(pair_models(acc@) =~= Seq::<(TaskModel, Log)>::empty());
    }
    while ti < repo.tasks.len()
        invariant
            repo.wf(),
            ms == repo.models(),
            ms.len() == repo.tasks@.len(),
            0 <= ti <= repo.tasks@.len(),
            pair_models(acc@) == collect_all(ms.take(ti as int), start, end, now),
        decreases repo.tasks@.len() - ti,
    {
        let ghost m = ms[ti as int];
        let t = &repo.tasks[ti];
        proof {
            assert(m == repo.tasks@[ti as int]@);
        }
        let mut li: usize = 0;
        proof {
            assert(m.logs.take(0) =~= Seq::<Log>::empty());
            assert(collect_logs(m, m.logs.take(0), start, end, now) =~= Seq::<
                (TaskModel, Log),
            >::empty());
            assert(pair_models(acc@) + Seq::<(TaskModel, Log)>::empty() =~= pair_models(acc@));
        }
        while li < t.logs.len()
            invariant
                0 <= li <= t.logs@.len(),
                m == t@,
                pair_models(acc@) == collect_all(ms.take(ti as int), start, end, now)
                    + collect_logs(m, m.logs.take(li as int), start, end, now),
            decreases t.logs@.len() - li,
        {
            let lg = t.logs[li];
            proof {
                assert(m.logs.take(li + 1).drop_last() =~= m.logs.take(li as int));
                assert(m.logs.take(li + 1).last() == m.logs[li as int]);
                assert(m.logs[li as int] == lg);
            }
            let overlaps = lg.start.secs <= end.secs && lg.effective_end(now).secs >= start.secs;
            if overlaps {
                let copy = t.duplicate();
                let ghost pre = acc@;
                acc.push((copy, lg));
                proof {
                    assert(pair_models(acc@) =~= pair_models(pre).push((m, lg)));
                    assert(pair_models(pre).push((m, lg)) =~= (collect_all(
                        ms.take(ti as int),
                        start,
                        end,
                        now,
                    ) + collect_logs(m, m.logs.take(li as int), start, end, now)).push((m, lg)));
                    assert((collect_all(ms.take(ti as int), start, end, now) + collect_logs(
                        m,
                        m.logs.take(li as int),
                        start,
                        end,
                        now,
                    )).push((m, lg)) =~= collect_all(ms.take(ti as int), start, end, now)
                        + collect_logs(m, m.logs.take(li as int), start, end, now).push(
                        (m, lg),
                    ));
                }
            }
            li = li + 1;
        }
        proof {
            assert(m.logs.take(m.logs.len() as int) =~= m.logs);
            assert(ms.take(ti + 1).drop_last() =~= ms.take(ti as int));
            assert(ms.take(ti + 1).last() == m);
        }
        ti = ti + 1;
    }
    proof {
        assert(ms.take(ms.len() as int) =~= ms);
    }
    let mut out = sort_pairs_exec(acc);
    if out.len() > 0 {
        let ghost sorted = pair_models(out@);
        let f = out.remove(0);
        let ghost f_m = (f.0@, f.1);
        let f2 = if f.1.start.secs < start.secs {
            (f.0, Log { start: start, end: f.1.end })
        } else {
            f
        };
        out.insert(0, f2);
        proof {
            assert(pair_models(out@) =~= sorted.update(0, (f2.0@, f2.1)));
            assert(f2.0@ == f_m.0);
        }
        let ghost mid = pair_models(out@);
        let l = match out.pop() {
            Some(x) => x,
            None => {
                proof {
                    assert(false);
                }
                return out;
            },
        };
        let ghost l_m = (l.0@, l.1);
        proof {
            assert(l_m == mid.last());
        }
        let l2 = if l.1.effective_end(now).secs > end.secs {
            (l.0, Log { start: l.1.start, end: Some(end) })
        } else {
            l
        };
        out.push(l2);
        proof {
            assert(pair_models(out@) =~= mid.update(mid.len() - 1, (l2.0@, l2.1)));
        }
    }
    out
}

/// The earliest first-log start over the given tasks.
pub open spec fn min_first_start(tasks: Seq<Task>) -> int
    decreases tasks.len(),
{
    if tasks.len() == 0 {
        0
    } else if tasks.len() == 1 {
        tasks[0].logs@.first().start.secs as int
    } else {
        let rest = min_first_start(tasks.drop_last());
        let v = tasks.last().logs@.first().start.secs as int;
        if v < rest {
            v
        } else {
            rest
        }
    }
}

/// The latest effective last-log end over the given tasks, open logs
/// measured up to `now`.
pub open spec fn max_last_end(tasks: Seq<Task>, now: Timestamp) -> int
    decreases tasks.len(),
{
    if tasks.len() == 0 {
        0
    } else if tasks.len() == 1 {
        tasks[0].logs@.last().spec_effective_end(now).secs as int
    } else {
        let rest = max_last_end(tasks.drop_last(), now);
        let v = tasks.last().logs@.last().spec_effective_end(now).secs as int;
        if v > rest {
            v
        } else {
            rest
        }
    }
}

/// The earliest start of any task's first log; a value error on an empty
/// collection.  Every task must have at least one log.
pub fn find_start(tasks: &Vec<Task>) -> (r: Result<Timestamp, Error>)
    requires
        forall|i: int| 0 <= i < tasks@.len() ==> (#[trigger] tasks@[i]).logs@.len() > 0,
    ensures
        match r {
            Ok(t) => tasks@.len() > 0 && t.secs == min_first_start(tasks@),
            Err(e) => (e matches Error::Value(_)) && tasks@.len() == 0,
        },
{
    if tasks.len() == 0 {
        return Err(Error::Value(ValueError::new("There are no tasks.")));
    }
    let mut best: i64 = tasks[0].logs[0].start.secs;
    let mut i: usize = 1;
    while i < tasks.len()
        invariant
            1 <= i <= tasks@.len(),
            forall|k: int| 0 <= k < tasks@.len() ==> (#[trigger] tasks@[k]).logs@.len() > 0,
            best == min_first_start(tasks@.take(i as int)),
        decreases tasks@.len() - i,
    {
        proof {
            assert(tasks@.take(i + 1).drop_last() =~= tasks@.take(i as int));
            assert(tasks@.take(i + 1).last() == tasks@[i as int]);
        }
        let v = tasks[i].logs[0].start.secs;
        if v < best {
            best = v;
        }
        i = i + 1;
    }
    proof {
        assert(tasks@.take(tasks@.len() as int) =~= tasks@);
    }
    Ok(Timestamp { secs: best })
}

/// The latest effective end of any task's last log; a value error on an
/// empty collection.  Every task must have at least one log.
pub fn find_end(tasks: &Vec<Task>, now: Timestamp) -> (r: Result<Timestamp, Error>)
    requires
        forall|i: int| 0 <= i < tasks@.len() ==> (#[trigger] tasks@[i]).logs@.len() > 0,
    ensures
        match r {
            Ok(t) => tasks@.len() > 0 && t.secs == max_last_end(tasks@, now),
            Err(e) => (e matches Error::Value(_)) && tasks@.len() == 0,
        },
{
    if tasks.len() == 0 {
        return Err(Error::Value(ValueError::new("There are no tasks.")));
    }
    let n0 = tasks[0].logs.len();
    let mut best: i64 = tasks[0].logs[n0 - 1].effective_end(now).secs;
    let mut i: usize = 1;
    while i < tasks.len()
        invariant
            1 <= i <= tasks@.len(),
            forall|k: int| 0 <= k < tasks@.len() ==> (#[trigger] tasks@[k]).logs@.len() > 0,
            best == max_last_end(tasks@.take(i as int), now),
        decreases tasks@.len() - i,
    {
        proof {
            assert(tasks@.take(i + 1).drop_last() =~= tasks@.take(i as int));
            assert(tasks@.take(i + 1).last() == tasks@[i as int]);
        }
        let ni = tasks[i].logs.len();
        let v = tasks[i].logs[ni - 1].effective_end(now).secs;
        if v > best {
            best = v;
        }
        i = i + 1;
    }
    proof {
        assert(tasks@.take(tasks@.len() as int) =~= tasks@);
    }
    Ok(Timestamp { secs: best })
}

} // verus!
