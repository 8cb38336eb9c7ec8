use vstd::prelude::*;

verus! {

use crate::time::{Duration, Timestamp, TS_SPAN_SECS};

/// One contiguous logging interval; `end == None` means the log is open,
/// i.e. time is being tracked on it right now.
#[derive(Clone, Copy, PartialEq, Eq, Structural, Debug)]
pub struct Log {
    pub start: Timestamp,
    pub end: Option<Timestamp>,
}

impl Log {
    pub open spec fn wf(self) -> bool {
        &&& self.start.wf()
        &&& (self.end matches Some(e) ==> e.wf())
    }

    /// The instant the log effectively ends: its end if closed, `now` if open.
    pub open spec fn spec_effective_end(self, now: Timestamp) -> Timestamp {
        match self.end {
            Some(e) => e,
            None => now,
        }
    }

    pub fn effective_end(&self, now: Timestamp) -> (r: Timestamp)
        ensures
            r == self.spec_effective_end(now),
    {
        match self.end {
            Some(e) => e,
            None => now,
        }
    }

    pub open spec fn spec_duration(self, now: Timestamp) -> int {
        self.spec_effective_end(now).secs - self.start.secs
    }

    /// Seconds covered by the log; an open log is measured up to `now`.
    pub fn duration(&self, now: Timestamp) -> (r: Duration)
        ensures
            r.secs == self.spec_duration(now),
    {
        let e = self.effective_end(now);
        Duration { secs: (e.secs as i128) - (self.start.secs as i128) }
    }

    /// The overlap length the tracker reports for this log against the
    /// window `[start, end]`, with the effective end taken at `now`.
    /// Callers must filter out non-overlapping logs first: the final case
    /// returns the window length without detecting disjointness.
    pub open spec fn spec_duration_between(self, start: Timestamp, end: Timestamp, now: Timestamp) -> int {
        let ts = self.start.secs;
        let te = self.spec_effective_end(now).secs;
        if start.secs <= ts && end.secs >= te {
            te - ts
        } else if start.secs > ts && end.secs >= te {
            if te - start.secs >= 0 {
                te - start.secs
            } else {
                0
            }
        } else if start.secs <= ts && end.secs < te {
            if end.secs - ts >= 0 {
                end.secs - ts
            } else {
                0
            }
        } else {
            end.secs - start.secs
        }
    }

    /// Clips the log to `[start, end]` and returns the overlap length.  The
    /// two partial-overlap cases floor at zero and so never go negative.
    pub fn duration_between(&self, start: Timestamp, end: Timestamp, now: Timestamp) -> (r:
        Duration)
        ensures
            r.secs == self.spec_duration_between(start, end, now),
            start.secs > self.start.secs && end.secs >= self.spec_effective_end(now).secs
                ==> r.secs >= 0,
            start.secs <= self.start.secs && end.secs < self.spec_effective_end(now).secs
                ==> r.secs >= 0,
            self.start.secs <= self.spec_effective_end(now).secs && end.secs >= start.secs
                ==> r.secs >= 0,
    {
        let ts = self.start.secs as i128;
        let te = self.effective_end(now).secs as i128;
        let ws = start.secs as i128;
        let we = end.secs as i128;
        if ws <= ts && we >= te {
            Duration { secs: te - ts }
        } else if ws > ts && we >= te {
            let d = te - ws;
            Duration {
                secs: if d >= 0 {
                    d
                } else {
                    0
                },
            }
        } else if ws <= ts && we < te {
            let d = we - ts;
            Duration {
                secs: if d >= 0 {
                    d
                } else {
                    0
                },
            }
        } else {
            Duration { secs: we - ws }
        }
    }
}

/// Whether a log sequence is well formed: every timestamp is in range and
/// an open log can only be the last element, so at most one log is open.
pub open spec fn wf_logs(logs: Seq<Log>) -> bool {
    &&& (forall|i: int| 0 <= i < logs.len() ==> (#[trigger] logs[i]).wf())
    &&& (forall|i: int|
        0 <= i < logs.len() && (#[trigger] logs[i]).end is None ==> i == logs.len() - 1)
}

/// In a well-formed log sequence at most one log is open, and it can only
/// be the last one.
pub proof fn lemma_wf_single_open(logs: Seq<Log>, i: int, j: int)
    requires
        wf_logs(logs),
        0 <= i < logs.len(),
        0 <= j < logs.len(),
        logs[i].end is None,
        logs[j].end is None,
    ensures
        i == j && i == logs.len() - 1,
{
}

/// The abstract value of a task: its identifier, name bytes and log records.
#[verifier::ext_equal]
pub struct TaskModel {
    pub id: u32,
    pub name: Seq<u8>,
    pub logs: Seq<Log>,
}

/// A named unit of work: an immutable identifier, a display name and the
/// ordered append-only sequence of logs.
#[derive(Debug, PartialEq)]
pub struct Task {
    pub id: u32,
    pub name: Vec<u8>,
    pub logs: Vec<Log>,
}

impl View for Task {
    type V = TaskModel;

    open spec fn view(&self) -> TaskModel {
        TaskModel { id: self.id, name: self.name@, logs: self.logs@ }
    }
}

/// Derived task state: whether some log is currently open.
#[derive(Clone, Copy, PartialEq, Eq, Structural, Debug)]
pub enum TaskStatus {
    Logging(),
    Stopped(),
}

pub open spec fn sum_durations(logs: Seq<Log>, now: Timestamp) -> int
    decreases logs.len(),
{
    if logs.len() == 0 {
        0
    } else {
        sum_durations(logs.drop_last(), now) + logs.last().spec_duration(now)
    }
}

pub open spec fn sum_durations_between(
    logs: Seq<Log>,
    start: Timestamp,
    end: Timestamp,
    now: Timestamp,
) -> int
    decreases logs.len(),
{
    if logs.len() == 0 {
        0
    } else {
        sum_durations_between(logs.drop_last(), start, end, now) + logs.last().spec_duration_between(
            start,
            end,
            now,
        )
    }
}

impl Task {
    pub open spec fn wf(self) -> bool {
        wf_logs(self.logs@)
    }

    /// A task is logging exactly when its last log is open.
    pub open spec fn spec_is_logging(self) -> bool {
        self.logs@.len() > 0 && self.logs@.last().end is None
    }

    /// Scans for an open log, as the stored data allows in principle more
    /// than the well-formed shape.
    pub fn status(&self) -> (r: TaskStatus)
        ensures
            r == TaskStatus::Logging() <==> exists|i: int|
                0 <= i < self.logs@.len() && (#[trigger] self.logs@[i]).end is None,
            self.wf() ==> (r == TaskStatus::Logging() <==> self.spec_is_logging()),
    {
        let mut i: usize = 0;
        while i < self.logs.len()
            invariant
                0 <= i <= self.logs@.len(),
                forall|j: int| 0 <= j < i ==> (#[trigger] self.logs@[j]).end is Some,
            decreases self.logs@.len() - i,
        {
            if self.logs[i].end.is_none() {
                return TaskStatus::Logging();
            }
            i = i + 1;
        }
        TaskStatus::Stopped()
    }

    /// The status as display text.
    pub fn status_text(&self) -> (r: &str)
        ensures
            (exists|i: int| 0 <= i < self.logs@.len() && (#[trigger] self.logs@[i]).end is None)
                ==> r@ == "logging"@,
            !(exists|i: int| 0 <= i < self.logs@.len() && (#[trigger] self.logs@[i]).end is None)
                ==> r@ == "stopped"@,
    {
        match self.status() {
            TaskStatus::Logging() => "logging",
            TaskStatus::Stopped() => "stopped",
        }
    }

    /// Total seconds logged on the task, open tail measured up to `now`.
    pub fn duration(&self, now: Timestamp) -> (r: Duration)
        requires
            self.wf(),
            now.wf(),
        ensures
            r.secs == sum_durations(self.logs@, now),
    {
        let mut total: i128 = 0;
        let mut i: usize = 0;
        while i < self.logs.len()
            invariant
                0 <= i <= self.logs@.len(),
                self.wf(),
                now.wf(),
                total == sum_durations(self.logs@.take(i as int), now),
                -(i as int) * (TS_SPAN_SECS as int) <= total <= (i as int) * (TS_SPAN_SECS as int),
            decreases self.logs@.len() - i,
        {
            let d = self.logs[i].duration(now);
            proof {
                assert(self.logs@[i as int].wf());
                assert(self.logs@.take(i + 1).drop_last() =~= self.logs@.take(i as int));
                assert(self.logs@.take(i + 1).last() == self.logs@[i as int]);
                lemma_sum_bound_step(i as int, total as int, d.secs as int);
            }
            total = total + d.secs;
            i = i + 1;
        }
        proof {
            assert(self.logs@.take(self.logs@.len() as int) =~= self.logs@);
        }
        Duration { secs: total }
    }

    /// Total seconds the task's logs overlap the window `[start, end]`.
    pub fn duration_between(&self, start: Timestamp, end: Timestamp, now: Timestamp) -> (r:
        Duration)
        requires
            self.wf(),
            start.wf(),
            end.wf(),
            now.wf(),
        ensures
            r.secs == sum_durations_between(self.logs@, start, end, now),
    {
        let mut total: i128 = 0;
        let mut i: usize = 0;
        while i < self.logs.len()
            invariant
                0 <= i <= self.logs@.len(),
                self.wf(),
                start.wf(),
                end.wf(),
                now.wf(),
                total == sum_durations_between(self.logs@.take(i as int), start, end, now),
                -(i as int) * (TS_SPAN_SECS as int) <= total <= (i as int) * (TS_SPAN_SECS as int),
            decreases self.logs@.len() - i,
        {
            let d = self.logs[i].duration_between(start, end, now);
            proof {
                assert(self.logs@[i as int].wf());
                assert(self.logs@.take(i + 1).drop_last() =~= self.logs@.take(i as int));
                assert(self.logs@.take(i + 1).last() == self.logs@[i as int]);
                lemma_sum_bound_step(i as int, total as int, d.secs as int);
            }
            total = total + d.secs;
            i = i + 1;
        }
        proof {
            assert(self.logs@.take(self.logs@.len() as int) =~= self.logs@);
        }
        Duration { secs: total }
    }

    /// A deep copy; `Log` values are plain data, so the copy is equal to the
    /// original in every observable way.
    pub fn duplicate(&self) -> (r: Task)
        ensures
            r@ =~= self@,
    {
        let mut name: Vec<u8> = Vec::new();
        let mut i: usize = 0;
        while i < self.name.len()
            invariant
                0 <= i <= self.name@.len(),
                name@ == self.name@.take(i as int),
            decreases self.name@.len() - i,
        {
            name.push(self.name[i]);
            proof {
                assert(self.name@.take(i + 1) =~= self.name@.take(i as int).push(
                    self.name@[i as int],
                ));
            }
            i = i + 1;
        }
        let mut logs: Vec<Log> = Vec::new();
        let mut j: usize = 0;
        while j < self.logs.len()
            invariant
                0 <= j <= self.logs@.len(),
                logs@ == self.logs@.take(j as int),
            decreases self.logs@.len() - j,
        {
            logs.push(self.logs[j]);
            proof {
                assert(self.logs@.take(j + 1) =~= self.logs@.take(j as int).push(
                    self.logs@[j as int],
                ));
            }
            j = j + 1;
        }
        proof {
            assert(self.name@.take(self.name@.len() as int) =~= self.name@);
            assert(self.logs@.take(self.logs@.len() as int) =~= self.logs@);
        }
        Task { id: self.id, name, logs }
    }
}

impl Task {
    /// Appends an open log starting at `time`.  No check is made that the
    /// task (or some other task) has no open log; enforcing that is the
    /// orchestrating caller's duty.
    pub fn append_open_log(&mut self, time: Timestamp)
        ensures
            final(self).logs@ == old(self).logs@.push(Log { start: time, end: None }),
            final(self).id == old(self).id,
            final(self).name@ == old(self).name@,
            old(self).wf() && !old(self).spec_is_logging() && time.wf() ==> final(self).wf(),
    {
        let ghost pre = self.logs@;
        self.logs.push(Log { start: time, end: None });
        proof {
            if wf_logs(pre) && !(pre.len() > 0 && pre.last().end is None) && time.wf() {
                assert forall|i: int|
                    0 <= i < self.logs@.len() && (#[trigger] self.logs@[i]).end is None implies i
                    == self.logs@.len() - 1 by {
                    if i < pre.len() {
                        assert(self.logs@[i] == pre[i]);
                        if pre[i].end is None {
                            assert(i == pre.len() - 1);
                            assert(pre.last().end is None);
                        }
                    }
                }
                assert forall|i: int| 0 <= i < self.logs@.len() implies (
                #[trigger] self.logs@[i]).wf() by {
                    if i < pre.len() {
                        assert(self.logs@[i] == pre[i]);
                    }
                }
            }
        }
    }

    /// Closes the last log at `time`; fails with a value error when there
    /// are no logs or the last one is already closed.
    pub fn close_last_log(&mut self, time: Timestamp) -> (r: Result<(), crate::errors::Error>)
        ensures
            match r {
                Ok(_) => {
                    &&& old(self).logs@.len() > 0
                    &&& old(self).logs@.last().end is None
                    &&& final(self).logs@ == old(self).logs@.update(
                        old(self).logs@.len() - 1,
                        Log { start: old(self).logs@.last().start, end: Some(time) },
                    )
                },
                Err(e) => {
                    &&& (e matches crate::errors::Error::Value(_))
                    &&& (old(self).logs@.len() == 0 || old(self).logs@.last().end is Some)
                    &&& final(self).logs@ == old(self).logs@
                },
            },
            final(self).id == old(self).id,
            final(self).name@ == old(self).name@,
            old(self).wf() && time.wf() ==> final(self).wf(),
    {
        let ghost pre = self.logs@;
        match self.logs.pop() {
            None => Err(crate::errors::Error::Value(crate::errors::ValueError::new(
                "Task was not started, cannot stop logging.",
            ))),
            Some(lg) => {
                if lg.end.is_some() {
                    self.logs.push(lg);
                    proof {
                        assert(self.logs@ =~= pre);
                    }
                    Err(crate::errors::Error::Value(crate::errors::ValueError::new(
                        "Task was not started, cannot stop logging.",
                    )))
                } else {
                    let closed = Log { start: lg.start, end: Some(time) };
                    self.logs.push(closed);
                    proof {
                        assert(self.logs@ =~= pre.update(pre.len() - 1, closed));
                        if wf_logs(pre) && time.wf() {
                            assert(pre[pre.len() - 1].wf());
                            assert forall|i: int| 0 <= i < self.logs@.len() implies (
                            #[trigger] self.logs@[i]).wf() by {
                                if i < pre.len() - 1 {
                                    assert(self.logs@[i] == pre[i]);
                                }
                            }
                            assert forall|i: int|
                                0 <= i < self.logs@.len() && (#[trigger] self.logs@[i]).end
                                is None implies i == self.logs@.len() - 1 by {
                                if i < pre.len() - 1 {
                                    assert(self.logs@[i] == pre[i]);
                                }
                            }
                        }
                    }
                    Ok(())
                }
            },
        }
    }
}

/// One step of the accumulator bound: adding a span-bounded term keeps the
/// running total within the next multiple of the span.
proof fn lemma_sum_bound_step(i: int, total: int, d: int)
    requires
        i >= 0,
        -i * (TS_SPAN_SECS as int) <= total <= i * (TS_SPAN_SECS as int),
        -(TS_SPAN_SECS as int) <= d <= TS_SPAN_SECS as int,
    ensures
        -(i + 1) * (TS_SPAN_SECS as int) <= total + d <= (i + 1) * (TS_SPAN_SECS as int),
{
    assert(-(i + 1) * (TS_SPAN_SECS as int) <= total + d <= (i + 1) * (TS_SPAN_SECS as int))
        by (nonlinear_arith)
        requires
            i >= 0,
            -i * (TS_SPAN_SECS as int) <= total <= i * (TS_SPAN_SECS as int),
            -(TS_SPAN_SECS as int) <= d <= TS_SPAN_SECS as int,
    ;
}

} // verus!
