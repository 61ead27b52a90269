use vstd::prelude::*;

use crate::log::{Log, LogLevel, Timestamp};
use crate::text::{decimal, push_decimal, push_two_digits, two_digits};

verus! {

/// A duration of `seconds` (a negative one counts as zero) in its two
/// largest units: `<d>d <hh>h`, `<h>h <mm>m`, `<m>m <ss>s` or `<s>s`.
pub open spec fn spec_format_duration(seconds: int) -> Seq<char> {
    let s = if seconds < 0 { 0nat } else { seconds as nat };
    let days = s / 86_400;
    let hours = (s % 86_400) / 3_600;
    let minutes = (s % 3_600) / 60;
    let secs = s % 60;
    if days > 0 {
        decimal(days) + seq!['d', ' '] + two_digits(hours) + seq!['h']
    } else if hours > 0 {
        decimal(hours) + seq!['h', ' '] + two_digits(minutes) + seq!['m']
    } else if minutes > 0 {
        decimal(minutes) + seq!['m', ' '] + two_digits(secs) + seq!['s']
    } else {
        decimal(secs) + seq!['s']
    }
}

/// Every duration of zero seconds or less shows as `0s`.
pub proof fn lemma_format_duration_nonpositive(seconds: int)
    requires
        seconds <= 0,
    ensures
        spec_format_duration(seconds) == seq!['0', 's'],
{
    assert(decimal(0) == seq!['0']);
    assert(spec_format_duration(seconds) =~= seq!['0', 's']);
}

/// Shows how long something has run, from its length in seconds.
pub fn format_duration(seconds: i64) -> (text: String)
    ensures
        text@ == spec_format_duration(seconds as int),
{
    let s: u64 = if seconds < 0 { 0 } else { seconds as u64 };
    let days = s / 86_400;
    let hours = (s % 86_400) / 3_600;
    let minutes = (s % 3_600) / 60;
    let secs = s % 60;
    let mut text = String::new();
    proof {
        reveal_strlit("d ");
        reveal_strlit("h");
        reveal_strlit("h ");
        reveal_strlit("m");
        reveal_strlit("m ");
        reveal_strlit("s");
    }
    if days > 0 {
        push_decimal(&mut text, days);
        text.append("d ");
        push_two_digits(&mut text, hours);
        text.append("h");
    } else if hours > 0 {
        push_decimal(&mut text, hours);
        text.append("h ");
        push_two_digits(&mut text, minutes);
        text.append("m");
    } else if minutes > 0 {
        push_decimal(&mut text, minutes);
        text.append("m ");
        push_two_digits(&mut text, secs);
        text.append("s");
    } else {
        push_decimal(&mut text, secs);
        text.append("s");
    }
    assert(text@ =~= spec_format_duration(seconds as int));
    text
}


/// The query of the job results page: the job whose results are shown, if
/// only one job's are.
pub struct JobResultsQuery {
    pub job_id: Option<String>,
}

impl JobResultsQuery {
    /// The job whose results are asked for.
    pub fn job_id_filter(&self) -> (filter: Option<&str>)
        ensures
            match (filter, self.job_id) {
                (Some(f), Some(id)) => f@ == id@,
                (None, None) => true,
                _ => false,
            },
    {
        match &self.job_id {
            Some(id) => Some(id.as_str()),
            None => None,
        }
    }
}

/// Whether some of the results has not finished: `finished[i]` tells whether
/// result `i` has.
pub open spec fn spec_has_in_progress(finished: Seq<bool>) -> bool {
    exists|i: int| 0 <= i < finished.len() && !finished[i]
}

/// The job results page.
pub struct JobResultsTemplate<'a> {
    title: String,
    has_in_progress: bool,
    job_id_filter: Option<&'a str>,
}

impl<'a> JobResultsTemplate<'a> {
    /// The page's title.
    pub closed spec fn title_view(&self) -> Seq<char> {
        self.title@
    }

    /// Whether some result shown has not finished.
    pub closed spec fn has_in_progress_view(&self) -> bool {
        self.has_in_progress
    }

    /// The job whose results are shown, if only one job's are.
    pub closed spec fn job_id_filter_view(&self) -> Option<&'a str> {
        self.job_id_filter
    }

    /// The page for results of which `finished[i]` tells whether result `i`
    /// has finished, shown for the job `job_id_filter` (or for all jobs).
    pub fn new(finished: &[bool], job_id_filter: Option<&'a str>) -> (page: JobResultsTemplate<'a>)
        ensures
            page.title_view() == "Job Results"@,
            page.has_in_progress_view() == spec_has_in_progress(finished@),
            page.job_id_filter_view() == job_id_filter,
    {
        let n = finished.len();
        let mut has_in_progress = false;
        let mut i: usize = 0;
        while i < n
            invariant
                n == finished@.len(),
                i <= n,
                has_in_progress == exists|j: int| 0 <= j < i && !finished@[j],
            decreases n - i,
        {
            if !finished[i] {
                has_in_progress = true;
            }
            i = i + 1;
        }
        JobResultsTemplate { title: String::from_str("Job Results"), has_in_progress, job_id_filter }
    }

    /// The page's title.
    pub fn title(&self) -> (title: &str)
        ensures
            title@ == self.title_view(),
    {
        self.title.as_str()
    }

    /// Whether some result shown has not finished.
    pub fn has_in_progress(&self) -> (in_progress: bool)
        ensures
            in_progress == self.has_in_progress_view(),
    {
        self.has_in_progress
    }

    /// The job whose results are shown, if only one job's are.
    pub fn job_id_filter(&self) -> (filter: Option<&'a str>)
        ensures
            filter == self.job_id_filter_view(),
    {
        self.job_id_filter
    }
}

/// A log record as the log page shows it.
pub struct FormattedLog<'a> {
    pub timestamp: &'a Timestamp,
    pub level: &'a LogLevel,
    pub message: &'a str,
}

/// The records of a job result's log, as the log page shows them.
pub struct JobResultLogsTemplate<'a> {
    pub logs: Vec<FormattedLog<'a>>,
}

/// Whether `shown` shows `log`: its time, level and message.
pub open spec fn shows(shown: FormattedLog, log: Log) -> bool {
    &&& *shown.timestamp == log.timestamp
    &&& *shown.level == log.level
    &&& shown.message@ == log.message@
}

impl<'a> JobResultLogsTemplate<'a> {
    /// The log page that shows `logs`, one entry per record, in order.
    pub fn new(logs: &'a [Log]) -> (page: JobResultLogsTemplate<'a>)
        ensures
            page.logs@.len() == logs@.len(),
            forall|i: int| 0 <= i < logs@.len() ==> shows(#[trigger] page.logs@[i], logs@[i]),
    {
        let n = logs.len();
        let mut formatted: Vec<FormattedLog<'a>> = Vec::new();
        let mut i: usize = 0;
        while i < n
            invariant
                n == logs@.len(),
                i <= n,
                formatted@.len() == i,
                forall|j: int| 0 <= j < i ==> shows(#[trigger] formatted@[j], logs@[j]),
            decreases n - i,
        {
            let log = &logs[i];
            formatted.push(FormattedLog {
                timestamp: &log.timestamp,
                level: &log.level,
                message: log.message.as_str(),
            });
            i = i + 1;
        }
        JobResultLogsTemplate { logs: formatted }
    }
}

/// The parts of a job result page that are reloaded on their own.
#[derive(Clone, Copy, Debug, PartialEq, Eq, Structural)]
pub enum DynamicContent {
    Header,
    Steps,
    AbortButton,
}

/// The part that `name` asks for: `header`, `steps` or `abort-button`; any
/// other name asks for none.
pub open spec fn spec_dynamic_content(name: Seq<char>) -> Option<DynamicContent> {
    if name == "header"@ {
        Some(DynamicContent::Header)
    } else if name == "steps"@ {
        Some(DynamicContent::Steps)
    } else if name == "abort-button"@ {
        Some(DynamicContent::AbortButton)
    } else {
        None
    }
}

impl DynamicContent {
    /// The part that `name` asks for, if any.
    pub fn from_name(name: &str) -> (content: Option<DynamicContent>)
        ensures
            content == spec_dynamic_content(name@),
    {
        let given = String::from_str(name);
        if given == String::from_str("header") {
            Some(DynamicContent::Header)
        } else if given == String::from_str("steps") {
            Some(DynamicContent::Steps)
        } else if given == String::from_str("abort-button") {
            Some(DynamicContent::AbortButton)
        } else {
            None
        }
    }
}

} // verus!
