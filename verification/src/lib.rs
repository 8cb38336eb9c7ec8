//! A single-user time tracker: named tasks accumulate logging intervals,
//! persisted one plain-text file per task.  This crate is the tracker's
//! core: the task and log model with its duration and overlap arithmetic,
//! the line-oriented on-disk codec, the repository that allocates ids and
//! closes or opens logs, the range queries behind reports and exports, and
//! the human time and duration parser.  Contracts state what each
//! operation returns and when it fails; the codec's contract includes the
//! round trip, so a stored task decodes back exactly.

use vstd::prelude::*;

pub mod codec;
pub mod errors;
pub mod num;
pub mod parse;
pub mod query;
pub mod repo;
pub mod task;
pub mod time;

pub use codec::decode_task;
pub use codec::encode_task;
pub use errors::Error;
pub use errors::ValueError;
pub use parse::parse_duration;
pub use parse::parse_time;
pub use query::create_log_task_at;
pub use query::find_end;
pub use query::find_start;
pub use query::get_all_tasks_between;
pub use query::get_current_log_task;
pub use query::get_all_logs_between;
pub use query::get_total_duration;
pub use query::has_any_open_log;
pub use query::log_task_at;
pub use query::total_log_count;
pub use query::stop_current_task_at;
pub use repo::Repo;
pub use task::Log;
pub use task::Task;
pub use task::TaskStatus;
pub use time::Duration;
pub use time::Timestamp;
pub use time::format_duration;
pub use time::format_duration_hours;
