use vstd::prelude::*;

verus! {

use crate::codec::{decode_task, decode_task_spec, encodable};
use crate::errors::{Error, ValueError};
use crate::task::{Task, TaskModel};
use crate::time::Timestamp;

/// An upper bound on how many logs a repository snapshot may hold in all;
/// far beyond what a filesystem can store, it keeps every duration total
/// representable.
pub const LOG_CAP: u64 = 0x1000_0000_0000_0000;

pub open spec fn ids_unique(tasks: Seq<Task>) -> bool {
    forall|i: int, j: int| 0 <= i < j < tasks.len() ==> tasks[i].id != tasks[j].id
}

pub open spec fn total_logs(tasks: Seq<Task>) -> int
    decreases tasks.len(),
{
    if tasks.len() == 0 {
        0
    } else {
        total_logs(tasks.drop_last()) + tasks.last().logs@.len()
    }
}

/// The abstract values of a task sequence.
pub open spec fn task_models(tasks: Seq<Task>) -> Seq<TaskModel> {
    tasks.map(|i: int, t: Task| t@)
}

/// The largest task id present, 0 when there are none.
pub open spec fn spec_max_id(tasks: Seq<Task>) -> int
    decreases tasks.len(),
{
    if tasks.len() == 0 {
        0
    } else {
        let rest = spec_max_id(tasks.drop_last());
        if tasks.last().id > rest {
            tasks.last().id as int
        } else {
            rest
        }
    }
}

pub proof fn lemma_max_id_ge(tasks: Seq<Task>, i: int)
    requires
        0 <= i < tasks.len(),
    ensures
        spec_max_id(tasks) >= tasks[i].id,
    decreases tasks.len(),
{
    if i == tasks.len() - 1 {
        lemma_max_id_nonneg(tasks.drop_last());
    } else {
        assert(tasks.drop_last()[i] == tasks[i]);
        lemma_max_id_ge(tasks.drop_last(), i);
    }
}

pub proof fn lemma_max_id_nonneg(tasks: Seq<Task>)
    ensures
        spec_max_id(tasks) >= 0,
    decreases tasks.len(),
{
    if tasks.len() > 0 {
        lemma_max_id_nonneg(tasks.drop_last());
    }
}

/// All files decoded, in order; `None` as soon as one is malformed.
pub open spec fn decode_all_spec(files: Seq<Seq<u8>>) -> Option<Seq<TaskModel>>
    decreases files.len(),
{
    if files.len() == 0 {
        Some(Seq::<TaskModel>::empty())
    } else {
        match decode_all_spec(files.drop_last()) {
            Some(ms) => match decode_task_spec(files.last()) {
                Some(m) => Some(ms.push(m)),
                None => None,
            },
            None => None,
        }
    }
}

pub open spec fn model_ids_unique(ms: Seq<TaskModel>) -> bool {
    forall|i: int, j: int| 0 <= i < j < ms.len() ==> ms[i].id != ms[j].id
}

pub open spec fn models_total_logs(ms: Seq<TaskModel>) -> int
    decreases ms.len(),
{
    if ms.len() == 0 {
        0
    } else {
        models_total_logs(ms.drop_last()) + ms.last().logs.len()
    }
}

/// A decoded snapshot of the storage root, holding every task the caller's
/// directory listing produced, in that order.
pub struct Repo {
    pub tasks: Vec<Task>,
}

impl Repo {
    /// Every task is well formed and encodable, ids are unique, and the
    /// total log count stays below the representation cap.
    pub open spec fn wf(self) -> bool {
        &&& (forall|i: int|
            0 <= i < self.tasks@.len() ==> (#[trigger] self.tasks@[i]).wf() && encodable(
                self.tasks@[i]@,
            ))
        &&& ids_unique(self.tasks@)
        &&& total_logs(self.tasks@) <= LOG_CAP
    }

    pub open spec fn models(self) -> Seq<TaskModel> {
        task_models(self.tasks@)
    }

    /// Builds the snapshot from raw file contents.  Fails exactly when some
    /// file is malformed, two files carry the same id, or the log count
    /// exceeds the cap; corrupt storage is surfaced as a value error rather
    /// than a crash.
    pub fn from_files(files: &Vec<Vec<u8>>) -> (r: Result<Repo, Error>)
        ensures
            match r {
                Ok(repo) => {
                    &&& repo.wf()
                    &&& decode_all_spec(files.deep_view()) == Some(repo.models())
                },
                Err(e) => {
                    &&& (e matches Error::Value(_))
                    &&& (decode_all_spec(files.deep_view()) is None || (decode_all_spec(
                        files.deep_view(),
                    ) matches Some(ms) && (!model_ids_unique(ms) || models_total_logs(ms)
                        > LOG_CAP)))
                },
            },
    {
        let mut tasks: Vec<Task> = Vec::new();
        let mut count: u64 = 0;
        let mut i: usize = 0;
        proof {
            assert(files.deep_view().take(0) =~= Seq::<Seq<u8>>::empty());
            assert(task_models(tasks@) =~= Seq::<TaskModel>::empty());
        }
        while i < files.len()
            invariant
                0 <= i <= files@.len(),
                files.deep_view().len() == files@.len(),
                forall|k: int| 0 <= k < files@.len() ==> files.deep_view()[k] == files@[k]@,
                decode_all_spec(files.deep_view().take(i as int)) == Some(task_models(tasks@)),
                tasks@.len() == i,
                forall|k: int|
                    0 <= k < tasks@.len() ==> (#[trigger] tasks@[k]).wf() && encodable(
                        tasks@[k]@,
                    ),
                ids_unique(tasks@),
                count == total_logs(tasks@),
                count <= LOG_CAP,
            decreases files@.len() - i,
        {
            let ghost dv = files.deep_view();
            let task = match decode_task(&files[i]) {
                Some(t) => t,
                None => {
                    proof {
                        assert(dv[i as int] == files@[i as int]@);
                        lemma_decode_all_at_none(dv, i as int);
                    }
                    return Err(Error::Value(ValueError::new("corrupt task file")));
                },
            };
            proof {
                assert(dv.take(i + 1).drop_last() =~= dv.take(i as int));
                assert(dv.take(i + 1).last() == dv[i as int]);
                assert(dv[i as int] == files@[i as int]@);
                assert(task_models(tasks@).push(task@) =~= task_models(tasks@.push(task)));
                assert(decode_all_spec(dv.take(i + 1)) == Some(
                    task_models(tasks@).push(task@),
                ));
            }
            let mut k: usize = 0;
            while k < tasks.len()
                invariant
                    0 <= k <= tasks@.len(),
                    forall|j: int| 0 <= j < k ==> (#[trigger] tasks@[j]).id != task.id,
                    0 <= i < files@.len(),
                    dv == files.deep_view(),
                    dv.len() == files@.len(),
                    tasks@.len() == i,
                    task.id == task@.id,
                    decode_all_spec(dv.take(i as int + 1)) == Some(
                        task_models(tasks@).push(task@),
                    ),
                decreases tasks@.len() - k,
            {
                if tasks[k].id == task.id {
                    proof {
                        dup_or_overflow_context(dv, i as int, task_models(tasks@), task@);
                        match decode_all_spec(dv) {
                            Some(ms) => {
                                assert(ms[k as int] == task_models(tasks@)[k as int]);
                                assert(ms[k as int].id == task_models(tasks@)[k as int].id);
                                assert(task_models(tasks@)[k as int].id == tasks@[k as int].id);
                                assert(ms[i as int].id == task@.id);
                                assert(!model_ids_unique(ms));
                            },
                            None => {},
                        }
                    }
                    return Err(Error::Value(ValueError::new("duplicate task id")));
                }
                k = k + 1;
            }
            let added = task.logs.len();
            if added as u64 > LOG_CAP - count {
                proof {
                    dup_or_overflow_context(dv, i as int, task_models(tasks@), task@);
                    lemma_total_logs_models(tasks@);
                    lemma_models_total_push(task_models(tasks@), task@);
                    match decode_all_spec(dv) {
                        Some(ms) => {
                            lemma_models_total_grow(ms.take(i + 1), ms);
                            assert(models_total_logs(ms) > LOG_CAP);
                        },
                        None => {},
                    }
                }
                return Err(Error::Value(ValueError::new("repository too large")));
            }
            count = count + added as u64;
            proof {
                assert(tasks@.push(task).drop_last() =~= tasks@);
                assert(tasks@.push(task).last() == task);
                assert forall|a: int, b: int|
                    0 <= a < b < tasks@.push(task).len() implies tasks@.push(task)[a].id
                    != tasks@.push(task)[b].id by {
                    if b < tasks@.len() {
                        assert(tasks@.push(task)[a] == tasks@[a]);
                        assert(tasks@.push(task)[b] == tasks@[b]);
                    } else {
                        assert(tasks@.push(task)[a] == tasks@[a]);
                        assert(tasks@.push(task)[b] == task);
                    }
                }
            }
            tasks.push(task);
            i = i + 1;
        }
        proof {
            assert(files.deep_view().take(files.deep_view().len() as int) =~= files.deep_view());
        }
        Ok(Repo { tasks })
    }

    /// The tasks of the snapshot, in listing order.
    pub fn list_tasks(&self) -> (r: &Vec<Task>)
        ensures
            r@ == self.tasks@,
    {
        &self.tasks
    }

    fn find_index(&self, id: u32) -> (r: Option<usize>)
        ensures
            match r {
                Some(i) => i < self.tasks@.len() && self.tasks@[i as int].id == id,
                None => forall|i: int|
                    0 <= i < self.tasks@.len() ==> (#[trigger] self.tasks@[i]).id != id,
            },
    {
        let mut i: usize = 0;
        while i < self.tasks.len()
            invariant
                0 <= i <= self.tasks@.len(),
                forall|j: int| 0 <= j < i ==> (#[trigger] self.tasks@[j]).id != id,
            decreases self.tasks@.len() - i,
        {
            if self.tasks[i].id == id {
                return Some(i);
            }
            i = i + 1;
        }
        None
    }

    /// Fetches the task with the given id; a value error when none exists.
    pub fn get_task(&self, id: u32) -> (r: Result<Task, Error>)
        ensures
            match r {
                Ok(t) => exists|i: int|
                    0 <= i < self.tasks@.len() && (#[trigger] self.tasks@[i]).id == id && t@
                        == self.tasks@[i]@,
                Err(e) => (e matches Error::Value(_)) && forall|i: int|
                    0 <= i < self.tasks@.len() ==> (#[trigger] self.tasks@[i]).id != id,
            },
    {
        match self.find_index(id) {
            Some(i) => Ok(self.tasks[i].duplicate()),
            None => Err(Error::Value(ValueError::new("no task with this id"))),
        }
    }

    /// The next fresh id: one past the largest id present, `1` on an empty
    /// repository, so an id is never reused even after its file is gone.
    fn next_id(&self) -> (r: u32)
        requires
            spec_max_id(self.tasks@) < u32::MAX,
        ensures
            r == spec_max_id(self.tasks@) + 1,
    {
        let mut max_id: u32 = 0;
        let mut i: usize = 0;
        while i < self.tasks.len()
            invariant
                0 <= i <= self.tasks@.len(),
                max_id == spec_max_id(self.tasks@.take(i as int)),
                spec_max_id(self.tasks@) < u32::MAX,
                max_id <= u32::MAX,
            decreases self.tasks@.len() - i,
        {
            proof {
                assert(self.tasks@.take(i + 1).drop_last() =~= self.tasks@.take(i as int));
                assert(self.tasks@.take(i + 1).last() == self.tasks@[i as int]);
                lemma_max_id_prefix(self.tasks@, i + 1);
            }
            if self.tasks[i].id > max_id {
                max_id = self.tasks[i].id;
            }
            i = i + 1;
        }
        proof {
            assert(self.tasks@.take(self.tasks@.len() as int) =~= self.tasks@);
        }
        max_id + 1
    }

    /// Creates a task with a fresh id and no logs and records it in the
    /// snapshot; the caller persists the returned task.
    pub fn create_task(&mut self, name: &Vec<u8>) -> (r: Task)
        requires
            old(self).wf(),
            spec_max_id(old(self).tasks@) < u32::MAX,
            crate::codec::clean_name(name@),
        ensures
            final(self).wf(),
            final(self).tasks@.len() == old(self).tasks@.len() + 1,
            forall|i: int|
                0 <= i < old(self).tasks@.len() ==> final(self).tasks@[i] == old(self).tasks@[i],
            final(self).tasks@.last()@ == r@,
            r@.id == spec_max_id(old(self).tasks@) + 1,
            r@.name == name@,
            r@.logs.len() == 0,
            forall|i: int|
                0 <= i < old(self).tasks@.len() ==> r@.id != (#[trigger] old(self).tasks@[i]).id,
    {
        let id = self.next_id();
        let name_copy = crate::codec::subvec(name, 0, name.len());
        proof {
            assert(name_copy@ =~= name@);
        }
        let task = Task { id, name: name_copy, logs: Vec::new() };
        let copy = task.duplicate();
        let ghost pre = self.tasks@;
        proof {
            assert forall|i: int| 0 <= i < pre.len() implies task.id != (#[trigger] pre[i]).id by {
                lemma_max_id_ge(pre, i);
            }
        }
        self.tasks.push(copy);
        proof {
            assert(self.tasks@.drop_last() =~= pre);
            assert(self.tasks@.last() == copy);
            assert forall|a: int, b: int|
                0 <= a < b < self.tasks@.len() implies self.tasks@[a].id != self.tasks@[b].id by {
                if b < pre.len() {
                    assert(self.tasks@[a] == pre[a]);
                    assert(self.tasks@[b] == pre[b]);
                } else {
                    assert(self.tasks@[a] == pre[a]);
                    assert(self.tasks@[b] == copy);
                    lemma_max_id_ge(pre, a);
                }
            }
            assert forall|i: int| 0 <= i < self.tasks@.len() implies (
            #[trigger] self.tasks@[i]).wf() && crate::codec::encodable(self.tasks@[i]@) by {
                if i < pre.len() {
                    assert(self.tasks@[i] == pre[i]);
                } else {
                    assert(self.tasks@[i] == copy);
                }
            }
        }
        task
    }

    /// Appends an open log to the given task.  Deliberately, nothing checks
    /// whether another task is logging; that global rule is enforced by the
    /// orchestrating caller, not by the repository.
    pub fn log_task(&self, task: &mut Task, time: Timestamp)
        requires
            time.wf(),
        ensures
            final(task).logs@ == old(task).logs@.push(
                crate::task::Log { start: time, end: None },
            ),
            final(task).id == old(task).id,
            final(task).name@ == old(task).name@,
            old(task).wf() && !old(task).spec_is_logging() ==> final(task).wf(),
    {
        task.append_open_log(time)
    }

    /// Closes the task's last log; a value error when the task was not
    /// started.
    pub fn stop_task(&self, task: &mut Task, time: Timestamp) -> (r: Result<(), Error>)
        requires
            time.wf(),
        ensures
            match r {
                Ok(_) => {
                    &&& old(task).logs@.len() > 0
                    &&& old(task).logs@.last().end is None
                    &&& final(task).logs@ == old(task).logs@.update(
                        old(task).logs@.len() - 1,
                        crate::task::Log {
                            start: old(task).logs@.last().start,
                            end: Some(time),
                        },
                    )
                },
                Err(e) => {
                    &&& (e matches Error::Value(_))
                    &&& (old(task).logs@.len() == 0 || old(task).logs@.last().end is Some)
                    &&& final(task).logs@ == old(task).logs@
                },
            },
            final(task).id == old(task).id,
            final(task).name@ == old(task).name@,
            old(task).wf() ==> final(task).wf(),
    {
        task.close_last_log(time)
    }
}

/// The largest id in a prefix never exceeds the largest id overall.
pub proof fn lemma_max_id_prefix(tasks: Seq<Task>, i: int)
    requires
        0 <= i <= tasks.len(),
    ensures
        spec_max_id(tasks.take(i)) <= spec_max_id(tasks),
    decreases tasks.len() - i,
{
    if i == tasks.len() {
        assert(tasks.take(i) =~= tasks);
    } else {
        lemma_max_id_prefix(tasks, i + 1);
        assert(tasks.take(i + 1).drop_last() =~= tasks.take(i));
        lemma_max_id_nonneg(tasks.take(i));
    }
}

/// If one file fails to decode, the whole listing fails.
proof fn lemma_decode_all_at_none(files: Seq<Seq<u8>>, i: int)
    requires
        0 <= i < files.len(),
        decode_task_spec(files[i]) is None,
    ensures
        decode_all_spec(files) is None,
    decreases files.len(),
{
    if files.len() > 0 {
        if i == files.len() - 1 {
            assert(files.last() == files[i]);
        } else {
            assert(files.drop_last()[i] == files[i]);
            lemma_decode_all_at_none(files.drop_last(), i);
        }
    }
}

/// If the whole listing decodes, every prefix decodes to the prefix of the
/// models.
proof fn lemma_decode_all_prefix_some(files: Seq<Seq<u8>>, i: int)
    requires
        0 <= i <= files.len(),
    ensures
        decode_all_spec(files) matches Some(ms) ==> decode_all_spec(files.take(i)) matches Some(
            p,
        ) && p == ms.take(i) && ms.len() == files.len(),
    decreases files.len() - i,
{
    if i == files.len() {
        assert(files.take(i) =~= files);
        match decode_all_spec(files) {
            Some(ms) => {
                lemma_decode_all_len(files);
                assert(ms.take(i) =~= ms);
            },
            None => {},
        }
    } else {
        lemma_decode_all_prefix_some(files, i + 1);
        match decode_all_spec(files) {
            Some(ms) => {
                let p1 = files.take(i + 1);
                assert(p1.drop_last() =~= files.take(i));
                assert(p1.last() == files[i]);
                match decode_all_spec(files.take(i + 1)) {
                    Some(q) => {
                        assert(q == ms.take(i + 1));
                        assert(ms.take(i + 1).drop_last() =~= ms.take(i));
                        assert(decode_all_spec(files.take(i)) == Some(ms.take(i)));
                    },
                    None => {},
                }
            },
            None => {},
        }
    }
}

proof fn lemma_decode_all_len(files: Seq<Seq<u8>>)
    ensures
        decode_all_spec(files) matches Some(ms) ==> ms.len() == files.len(),
    decreases files.len(),
{
    if files.len() > 0 {
        lemma_decode_all_len(files.drop_last());
    }
}

/// Relates the models decoded so far to the full decode, at the point where
/// file `i` has decoded to `m` on top of prefix `prefix`.
proof fn dup_or_overflow_context(files: Seq<Seq<u8>>, i: int, prefix: Seq<TaskModel>, m: TaskModel)
    requires
        0 <= i < files.len(),
        decode_all_spec(files.take(i + 1)) == Some(prefix.push(m)),
        prefix.len() == i,
    ensures
        decode_all_spec(files) matches Some(ms) ==> ms.len() == files.len() && ms.take(i + 1)
            == prefix.push(m) && ms.take(i) == prefix && ms[i] == m && (forall|k: int|
            0 <= k < i ==> ms[k] == prefix[k]),
{
    lemma_decode_all_prefix_some(files, i + 1);
    match decode_all_spec(files) {
        Some(ms) => {
            assert(ms.take(i + 1) == prefix.push(m));
            assert(ms.take(i + 1).drop_last() =~= ms.take(i));
            assert(prefix.push(m).drop_last() =~= prefix);
            assert(ms[i] == ms.take(i + 1)[i]);
            assert(prefix.push(m)[i] == m);
            assert forall|k: int| 0 <= k < i implies ms[k] == prefix[k] by {
                assert(ms.take(i)[k] == ms[k]);
            }
        },
        None => {},
    }
}

/// Total log counts only grow along prefixes.
proof fn lemma_models_total_grow(prefix: Seq<TaskModel>, ms: Seq<TaskModel>)
    requires
        prefix.len() <= ms.len(),
        prefix == ms.take(prefix.len() as int),
    ensures
        models_total_logs(ms) >= models_total_logs(prefix),
    decreases ms.len() - prefix.len(),
{
    if prefix.len() < ms.len() {
        let p1 = ms.take(prefix.len() as int + 1);
        assert(p1.drop_last() =~= prefix);
        lemma_models_total_push(prefix, ms[prefix.len() as int]);
        assert(p1.last() == ms[prefix.len() as int]);
        assert(p1 =~= prefix.push(ms[prefix.len() as int]));
        lemma_models_total_grow(p1, ms);
    } else {
        assert(ms.take(prefix.len() as int) =~= ms);
    }
}

proof fn lemma_models_total_push(ms: Seq<TaskModel>, m: TaskModel)
    ensures
        models_total_logs(ms.push(m)) == models_total_logs(ms) + m.logs.len(),
{
    assert(ms.push(m).drop_last() =~= ms);
    assert(ms.push(m).last() == m);
}

/// The count over tasks agrees with the count over their models.
proof fn lemma_total_logs_models(tasks: Seq<Task>)
    ensures
        total_logs(tasks) == models_total_logs(task_models(tasks)),
    decreases tasks.len(),
{
    if tasks.len() > 0 {
        lemma_total_logs_models(tasks.drop_last());
        assert(task_models(tasks).drop_last() =~= task_models(tasks.drop_last()));
        assert(task_models(tasks).last() == tasks.last()@);
    }
}

} // verus!
