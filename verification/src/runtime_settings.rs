//! Sizes of the process runtime.

use vstd::prelude::*;

use crate::text::{decimal_reading, parse_decimal};

verus! {

/// Blocking threads when no usable setting is given.
pub const DEFAULT_MAX_BLOCKING_THREADS: usize = 1024;

/// How many tasks a worker runs before it looks at the I/O driver or the global
/// queue.
pub const SCHEDULER_INTERVAL: u32 = 31;

/// How the runtime is built.
#[derive(Clone, Copy, Debug, PartialEq, Eq, Structural)]
pub struct RuntimeSettings {
    /// Number of worker threads, or none for one per core.
    pub worker_threads: Option<usize>,
    pub max_blocking_threads: usize,
    pub event_interval: u32,
    pub global_queue_interval: u32,
}

/// The positive number that a setting spells, if there is a setting and it
/// spells one.
pub open spec fn positive_reading(setting: Option<Seq<char>>) -> Option<nat> {
    match setting {
        Some(text) => match decimal_reading(text) {
            Some(n) => if n > 0 {
                Some(n)
            } else {
                None
            },
            None => None,
        },
        None => None,
    }
}

/// Reads a setting that is a positive number.
pub fn positive_setting(setting: Option<&str>) -> (res: Option<usize>)
    ensures
        match positive_reading(
            match setting {
                Some(text) => Some(text@),
                None => None,
            },
        ) {
            Some(n) => res == Some(n as usize) && n <= usize::MAX,
            None => res is None,
        },
{
    match setting {
        Some(text) => match parse_decimal(text) {
            Some(n) => if n > 0 {
                Some(n)
            } else {
                None
            },
            None => None,
        },
        None => None,
    }
}

/// How the runtime is built for the given settings of its sizes.
pub fn runtime_settings(
    worker_threads: Option<&str>,
    max_blocking_threads: Option<&str>,
) -> (res: RuntimeSettings)
    ensures
        match positive_reading(
            match worker_threads {
                Some(text) => Some(text@),
                None => None,
            },
        ) {
            Some(n) => res.worker_threads == Some(n as usize) && n <= usize::MAX,
            None => res.worker_threads is None,
        },
        match positive_reading(
            match max_blocking_threads {
                Some(text) => Some(text@),
                None => None,
            },
        ) {
            Some(n) => res.max_blocking_threads == n,
            None => res.max_blocking_threads == DEFAULT_MAX_BLOCKING_THREADS,
        },
        res.event_interval == SCHEDULER_INTERVAL,
        res.global_queue_interval == SCHEDULER_INTERVAL,
        res.event_interval == 31,
        res.global_queue_interval == 31,
        positive_reading(
            match max_blocking_threads {
                Some(text) => Some(text@),
                None => None,
            },
        ) is None ==> res.max_blocking_threads == 1024,
{
    RuntimeSettings {
        worker_threads: positive_setting(worker_threads),
        max_blocking_threads: match positive_setting(max_blocking_threads) {
            Some(n) => n,
            None => DEFAULT_MAX_BLOCKING_THREADS,
        },
        event_interval: SCHEDULER_INTERVAL,
        global_queue_interval: SCHEDULER_INTERVAL,
    }
}

/// Every size is positive, whatever the settings say.
pub proof fn lemma_sizes_are_positive(setting: Option<Seq<char>>)
    ensures
        positive_reading(setting) matches Some(n) ==> n > 0,
        DEFAULT_MAX_BLOCKING_THREADS > 0,
        SCHEDULER_INTERVAL > 0,
{
}

} // verus!
