//! The driver of a test: how many times it runs the test, for how long, and
//! whether it follows a replay trace.

use crate::parsed_replay_trace::{ReplayTrace, ReplayTraceView};
use crate::text::{chars_of, parse_number, parse_unsigned, push_str};
use std::time::Duration;
use vstd::prelude::*;

verus! {

/// The number of iterations that a text gives: an optional `+` and decimal
/// digits, of a value that fits in `u32`.
pub fn parse_iteration_count(text: &str) -> (r: Option<u32>)
    ensures
        match r {
            Some(v) => parse_unsigned(text@) == Some(v as nat),
            None => parse_unsigned(text@) is None || parse_unsigned(text@).unwrap() > u32::MAX,
        },
{
    let chars = chars_of(text);
    match parse_number(&chars, 4294967295) {
        Some(v) => Some(v as u32),
        None => None,
    }
}

/// The duration that `Duration::from_secs` gives for a number of seconds.
pub uninterp spec fn secs_duration(secs: u64) -> Duration;

/// `Duration::from_secs`.
#[verifier::external_body]
fn duration_from_secs(secs: u64) -> (r: Duration)
    ensures
        r == secs_duration(secs),
{
    Duration::from_secs(secs)
}

/// How the driver runs the test.
#[derive(Debug, Clone)]
pub enum RunMode {
    /// Once, following the replay trace.
    ReplayOnce(ReplayTrace),
    /// Repeatedly, following the replay trace each time.
    ReplayMany(ReplayTrace),
    /// Repeatedly, choosing at random.
    Random,
}

pub enum RunModeView {
    ReplayOnce(ReplayTraceView),
    ReplayMany(ReplayTraceView),
    Random,
}

impl View for RunMode {
    type V = RunModeView;

    open spec fn view(&self) -> RunModeView {
        match self {
            RunMode::ReplayOnce(t) => RunModeView::ReplayOnce(t@),
            RunMode::ReplayMany(t) => RunModeView::ReplayMany(t@),
            RunMode::Random => RunModeView::Random,
        }
    }
}

/// Runs a test under the scheduler, repeatedly or following a replay trace.
pub struct Driver {
    pub(crate) mode: RunMode,
    pub(crate) replay_env_var_name: Option<String>,
    pub(crate) max_iterations: Option<u32>,
    pub(crate) max_total_duration: Duration,
    pub(crate) test_timeout: Option<Duration>,
}

impl Driver {
    /// How the test is run.
    pub closed spec fn mode(&self) -> RunModeView {
        self.mode@
    }

    /// The environment variable that a replay trace is read from, if any.
    pub closed spec fn env_var(&self) -> Option<Seq<char>> {
        match self.replay_env_var_name {
            Some(s) => Some(s@),
            None => None,
        }
    }

    /// The largest number of runs, if any.
    pub closed spec fn iterations_limit(&self) -> Option<u32> {
        self.max_iterations
    }

    /// How long the runs may take in all.
    pub closed spec fn total_duration(&self) -> Duration {
        self.max_total_duration
    }

    /// How long one run may take, if limited.
    pub closed spec fn timeout(&self) -> Option<Duration> {
        self.test_timeout
    }

    /// Runs at random, with no limit on the number of runs, for ten seconds
    /// in all, with no limit on one run.
    pub fn new() -> (r: Self)
        ensures
            r.mode() == RunModeView::Random,
            r.env_var() is None,
            r.iterations_limit() is None,
            r.total_duration() == secs_duration(10),
            r.timeout() is None,
    {
        Driver {
            mode: RunMode::Random,
            replay_env_var_name: None,
            max_iterations: None,
            max_total_duration: duration_from_secs(10),
            test_timeout: None,
        }
    }

    /// Follows the replay trace read from the environment variable once, or
    /// runs at random when there is none.
    pub fn with_replay_once(self, env_var_name: &str, replay: Option<ReplayTrace>) -> (r: Self)
        ensures
            r.mode() == match replay {
                Some(t) => RunModeView::ReplayOnce(t@),
                None => RunModeView::Random,
            },
            r.env_var() == Some(env_var_name@),
            r.iterations_limit() == self.iterations_limit(),
            r.total_duration() == self.total_duration(),
            r.timeout() == self.timeout(),
    {
        let mode = match replay {
            Some(t) => RunMode::ReplayOnce(t),
            None => RunMode::Random,
        };
        Driver { mode, replay_env_var_name: Some(env_var_name.to_string()), ..self }
    }

    /// Follows the replay trace read from the environment variable in every
    /// run, or runs at random when there is none.
    pub fn with_replay_many(self, env_var_name: &str, replay: Option<ReplayTrace>) -> (r: Self)
        ensures
            r.mode() == match replay {
                Some(t) => RunModeView::ReplayMany(t@),
                None => RunModeView::Random,
            },
            r.env_var() == Some(env_var_name@),
            r.iterations_limit() == self.iterations_limit(),
            r.total_duration() == self.total_duration(),
            r.timeout() == self.timeout(),
    {
        let mode = match replay {
            Some(t) => RunMode::ReplayMany(t),
            None => RunMode::Random,
        };
        Driver { mode, replay_env_var_name: Some(env_var_name.to_string()), ..self }
    }

    /// Runs the test at most this many times.
    pub fn max_iterations(self, num_iterations: u32) -> (r: Self)
        ensures
            r.iterations_limit() == Some(num_iterations),
            r.mode() == self.mode(),
            r.env_var() == self.env_var(),
            r.total_duration() == self.total_duration(),
            r.timeout() == self.timeout(),
    {
        Driver { max_iterations: Some(num_iterations), ..self }
    }

    /// Sets the limit on the number of runs, or removes it.
    pub fn with_iterations_limit(self, num_iterations: Option<u32>) -> (r: Self)
        ensures
            r.iterations_limit() == num_iterations,
            r.mode() == self.mode(),
            r.env_var() == self.env_var(),
            r.total_duration() == self.total_duration(),
            r.timeout() == self.timeout(),
    {
        Driver { max_iterations: num_iterations, ..self }
    }

    /// Runs the test for at most this long in all.
    pub fn max_total_duration(self, duration: Duration) -> (r: Self)
        ensures
            r.total_duration() == duration,
            r.mode() == self.mode(),
            r.env_var() == self.env_var(),
            r.iterations_limit() == self.iterations_limit(),
            r.timeout() == self.timeout(),
    {
        Driver { max_total_duration: duration, ..self }
    }

    /// Fails a run that takes longer than this.
    pub fn test_timeout(self, timeout: Duration) -> (r: Self)
        ensures
            r.timeout() == Some(timeout),
            r.mode() == self.mode(),
            r.env_var() == self.env_var(),
            r.iterations_limit() == self.iterations_limit(),
            r.total_duration() == self.total_duration(),
    {
        Driver { test_timeout: Some(timeout), ..self }
    }

    /// How the test is run.
    pub fn run_mode(&self) -> (r: &RunMode)
        ensures
            r@ == self.mode(),
    {
        &self.mode
    }

    /// Whether a replay trace is read from an environment variable, so that
    /// a failed run tells how to replay it.
    pub fn has_replay_env_var(&self) -> (r: bool)
        ensures
            r == self.env_var() is Some,
    {
        self.replay_env_var_name.is_some()
    }

    /// The largest number of runs, if any.
    pub fn iteration_limit(&self) -> (r: Option<u32>)
        ensures
            r == self.iterations_limit(),
    {
        self.max_iterations
    }

    /// How long the runs may take in all.
    pub fn total_duration_limit(&self) -> (r: Duration)
        ensures
            r == self.total_duration(),
    {
        self.max_total_duration
    }

    /// How long one run may take, if limited.
    pub fn run_timeout(&self) -> (r: Option<Duration>)
        ensures
            r == self.timeout(),
    {
        self.test_timeout
    }

    /// Whether another run starts after `iter` runs: while the limit on the
    /// number of runs, if any, is not reached and time is left.
    pub fn should_run_iteration(&self, iter: u32, time_left: bool) -> (r: bool)
        ensures
            r == ((match self.iterations_limit() {
                Some(max) => iter < max,
                None => true,
            }) && time_left),
    {
        let within = match self.max_iterations {
            Some(max) => iter < max,
            None => true,
        };
        within && time_left
    }

    /// How a failed run tells its replay trace: how to set the environment
    /// variable to the trace's text, when there is a variable.
    pub fn replay_message(&self, replay_text: &str) -> (r: String)
        ensures
            r@ == match self.env_var() {
                Some(v) => "To replay this test, set the following environment variable:\n"@ + v
                    + "=\""@ + replay_text@ + "\"\n"@,
                None => Seq::empty(),
            },
    {
        match &self.replay_env_var_name {
            Some(v) => {
                let mut m = "To replay this test, set the following environment variable:\n".to_string();
                push_str(&mut m, v.as_str());
                push_str(&mut m, "=\"");
                push_str(&mut m, replay_text);
                push_str(&mut m, "\"\n");
                m
            },
            None => String::new(),
        }
    }
}

} // verus!
