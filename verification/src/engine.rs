//! The settings of a run, and the choice of the way to split.

use crate::dateex::{begin_unset, bound_is_malformed, date_plan, dateparser, end_unset};
use crate::linebyte::{chunk_plan, linebyte_split, numbered};
use crate::output::{files_view, OutputFile};
use crate::text::same_text;
use vstd::prelude::*;

verus! {

/// The settings of a run.
#[derive(Debug)]
pub struct Config {
    /// `lines`, `bytes` or `date`.
    pub method: String,
    /// `minute`, `hour`, `day` or `month`: the width of a time bucket.
    pub granularity: String,
    /// The lower end of the time range, as `YYYY-MM-DDTHH:MM:SS+HH:MM`.
    pub begin_time: String,
    /// The upper end of the time range, in the same form.
    pub end_time: String,
    /// The first line or byte to take, counted from one.
    pub lower_bound: u64,
    /// The last line or byte to take.
    pub upper_bound: u64,
    /// The number of lines or bytes in a file.
    pub chunk_size: u64,
    /// What every file's name starts with.
    pub file_basename: String,
    /// The path of the file to split.
    pub input_file: String,
}

impl Default for Config {
    fn default() -> (config: Config)
        ensures
            config.method@.len() == 0,
            config.granularity@.len() == 0,
            config.begin_time@.len() == 0,
            config.end_time@.len() == 0,
            config.lower_bound == 0,
            config.upper_bound == 0,
            config.chunk_size == 0,
            config.file_basename@.len() == 0,
            config.input_file@.len() == 0,
    {
        Config {
            method: String::new(),
            granularity: String::new(),
            begin_time: String::new(),
            end_time: String::new(),
            lower_bound: 0,
            upper_bound: 0,
            chunk_size: 0,
            file_basename: String::new(),
            input_file: String::new(),
        }
    }
}

/// How a run ended.
#[derive(Clone, Copy, Debug, PartialEq, Eq, Structural)]
pub enum Outcome {
    /// The input was split.
    Done,
    /// A time bucket's end could not be represented: the files up to there
    /// are listed.
    BucketOverflow,
    /// The method is none of `lines`, `bytes` and `date`: nothing was done.
    InvalidMethod,
}

/// The files to create, in order, and how the run ended.
#[derive(Debug)]
pub struct RunPlan {
    /// The files to create, in order.
    pub files: Vec<OutputFile>,
    /// How the run ended.
    pub outcome: Outcome,
    /// By time only: the lower end of the range denotes no instant.
    pub begin_malformed: bool,
    /// By time only: the upper end of the range denotes no instant.
    pub end_malformed: bool,
}

/// Splits `input` as `config` says: by lines or bytes into numbered chunks,
/// or by time into buckets; with any other method nothing is done.
pub fn runner(config: &Config, input: &[u8]) -> (plan: RunPlan)
    ensures
        if config.method@ == "lines"@ || config.method@ == "bytes"@ {
            &&& files_view(plan.files@) == numbered(
                config.file_basename@,
                chunk_plan(
                    input@,
                    config.lower_bound as int,
                    config.upper_bound as int,
                    config.chunk_size as nat,
                    config.method@,
                ),
            )
            &&& plan.outcome == Outcome::Done
            &&& !plan.begin_malformed
            &&& !plan.end_malformed
        } else if config.method@ == "date"@ {
            let expected = date_plan(
                input@,
                config.file_basename@,
                config.begin_time@,
                config.end_time@,
                config.granularity@,
            );
            &&& files_view(plan.files@) == expected.files
            &&& plan.outcome == if expected.overflow {
                Outcome::BucketOverflow
            } else {
                Outcome::Done
            }
            &&& plan.begin_malformed == bound_is_malformed(config.begin_time@, begin_unset())
            &&& plan.end_malformed == bound_is_malformed(config.end_time@, end_unset())
        } else {
            &&& plan.files@.len() == 0
            &&& plan.outcome == Outcome::InvalidMethod
            &&& !plan.begin_malformed
            &&& !plan.end_malformed
        },
{
    let method = config.method.as_str();
    if same_text(method, "lines") || same_text(method, "bytes") {
        let files = linebyte_split(
            input,
            config.file_basename.as_str(),
            config.lower_bound,
            config.upper_bound,
            config.chunk_size,
            method,
        );
        RunPlan { files, outcome: Outcome::Done, begin_malformed: false, end_malformed: false }
    } else if same_text(method, "date") {
        let plan = dateparser(
            input,
            config.file_basename.as_str(),
            config.begin_time.as_str(),
            config.end_time.as_str(),
            config.granularity.as_str(),
        );
        let outcome = if plan.overflow {
            Outcome::BucketOverflow
        } else {
            Outcome::Done
        };
        RunPlan {
            files: plan.files,
            outcome,
            begin_malformed: plan.begin_malformed,
            end_malformed: plan.end_malformed,
        }
    } else {
        RunPlan {
            files: Vec::new(),
            outcome: Outcome::InvalidMethod,
            begin_malformed: false,
            end_malformed: false,
        }
    }
}

} // verus!
