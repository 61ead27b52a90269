use nomos::handlers::api::job_results::{log_items, LogsQuery, DEFAULT_LOG_PAGE_LIMIT};
use nomos::handlers::templates::job_results::{
    format_duration, DynamicContent, JobResultLogsTemplate, JobResultsQuery, JobResultsTemplate,
};
use nomos::log::{JobLogger, LogLevel, LogPageEntry, Timestamp};

#[test]
fn format_duration_shows_two_largest_units() {
    assert_eq!(format_duration(0), "0s");
    assert_eq!(format_duration(59), "59s");
    assert_eq!(format_duration(60), "1m 00s");
    assert_eq!(format_duration(61), "1m 01s");
    assert_eq!(format_duration(3_599), "59m 59s");
    assert_eq!(format_duration(3_600), "1h 00m");
    assert_eq!(format_duration(3_725), "1h 02m");
    assert_eq!(format_duration(86_399), "23h 59m");
    assert_eq!(format_duration(86_400), "1d 00h");
    assert_eq!(format_duration(90_061), "1d 01h");
    assert_eq!(format_duration(10 * 86_400 + 23 * 3_600), "10d 23h");
}

#[test]
fn format_duration_of_negative_is_zero() {
    assert_eq!(format_duration(-1), "0s");
    assert_eq!(format_duration(i64::MIN), "0s");
}

#[test]
fn format_duration_of_largest() {
    assert_eq!(format_duration(i64::MAX), "106751991167300d 15h");
}

#[test]
fn logs_query_default_limit() {
    let query = LogsQuery { after: None, before: None, limit: None };
    assert_eq!(query.page_limit(), DEFAULT_LOG_PAGE_LIMIT);
    assert_eq!(query.page_limit(), 200);
    let query = LogsQuery { after: Some(3), before: None, limit: Some(7) };
    assert_eq!(query.page_limit(), 7);
}

#[test]
fn log_items_keep_order_and_fields() {
    let stamp = Timestamp { seconds: 12, nanoseconds: 34 };
    let entries = vec![
        LogPageEntry {
            start_offset: 0,
            end_offset: 10,
            log: JobLogger::make_log(LogLevel::Info, "s1", "first", stamp),
        },
        LogPageEntry {
            start_offset: 10,
            end_offset: 25,
            log: JobLogger::make_log(LogLevel::Error, "s2", "second", stamp),
        },
    ];
    let items = log_items(entries);
    assert_eq!(items.len(), 2);
    assert_eq!((items[0].start_offset, items[0].end_offset), (0, 10));
    assert_eq!(items[0].message, "first");
    assert_eq!(items[0].step_name, "s1");
    assert_eq!(items[1].level, LogLevel::Error);
    assert_eq!(items[1].timestamp, stamp);
    assert_eq!((items[1].start_offset, items[1].end_offset), (10, 25));
}

#[test]
fn job_results_page_sees_unfinished_results() {
    let page = JobResultsTemplate::new(&[true, false, true], Some("job-1"));
    assert_eq!(page.title(), "Job Results");
    assert!(page.has_in_progress());
    assert_eq!(page.job_id_filter(), Some("job-1"));
    let page = JobResultsTemplate::new(&[true, true], None);
    assert!(!page.has_in_progress());
    assert_eq!(page.job_id_filter(), None);
    assert!(!JobResultsTemplate::new(&[], None).has_in_progress());
}

#[test]
fn job_results_query_filter() {
    let query = JobResultsQuery { job_id: Some("abc".to_string()) };
    assert_eq!(query.job_id_filter(), Some("abc"));
    assert_eq!(JobResultsQuery { job_id: None }.job_id_filter(), None);
}

#[test]
fn log_template_shows_each_record() {
    let stamp = Timestamp { seconds: 1, nanoseconds: 2 };
    let logs = vec![
        JobLogger::make_log(LogLevel::Info, "a", "one", stamp),
        JobLogger::make_log(LogLevel::Warning, "b", "two", stamp),
    ];
    let page = JobResultLogsTemplate::new(&logs);
    assert_eq!(page.logs.len(), 2);
    assert_eq!(page.logs[1].message, "two");
    assert_eq!(*page.logs[1].level, LogLevel::Warning);
    assert_eq!(*page.logs[0].timestamp, stamp);
}

#[test]
fn dynamic_content_names() {
    assert_eq!(DynamicContent::from_name("header"), Some(DynamicContent::Header));
    assert_eq!(DynamicContent::from_name("steps"), Some(DynamicContent::Steps));
    assert_eq!(DynamicContent::from_name("abort-button"), Some(DynamicContent::AbortButton));
    assert_eq!(DynamicContent::from_name("Header"), None);
    assert_eq!(DynamicContent::from_name(""), None);
}
