use nomos::log::{
    legacy_log_file_path, primary_log_file_path, readable_log_file_path, JobLogger, LogFilePath, LogLevel,
    Platform, Timestamp,
};

fn parts(path: &LogFilePath) -> (String, Vec<String>) {
    (path.root.clone(), path.components.clone())
}

fn strings(items: &[&str]) -> Vec<String> {
    items.iter().map(|s| s.to_string()).collect()
}

#[test]
fn primary_path_on_unix() {
    let path = primary_log_file_path("r1", &Platform::Unix).unwrap();
    assert_eq!(
        parts(&path),
        ("/var/lib/nomos".to_string(), strings(&["job_results", "r1", "log"]))
    );
}

#[test]
fn primary_path_on_windows_uses_appdata() {
    let platform = Platform::Windows { appdata: Ok("C:\\Users\\u\\AppData\\Roaming".to_string()) };
    let path = primary_log_file_path("r1", &platform).unwrap();
    assert_eq!(
        parts(&path),
        (
            "C:\\Users\\u\\AppData\\Roaming".to_string(),
            strings(&["nomos", "job_results", "r1", "log"])
        )
    );
}

#[test]
fn primary_path_on_windows_without_appdata_fails() {
    let platform = Platform::Windows { appdata: Err("environment variable not found".to_string()) };
    assert_eq!(
        primary_log_file_path("r1", &platform).unwrap_err(),
        "environment variable not found"
    );
    assert!(JobLogger::new("job".to_string(), "r1".to_string(), &platform).is_err());
}

#[test]
fn legacy_path_on_unix_and_windows() {
    let path = legacy_log_file_path("r2", &Platform::Unix).unwrap();
    assert_eq!(
        parts(&path),
        ("/var/log/nomos".to_string(), strings(&["job_results", "r2", "log"]))
    );
    let platform = Platform::Windows { appdata: Ok("D:\\data".to_string()) };
    let legacy = legacy_log_file_path("r2", &platform).unwrap();
    let primary = primary_log_file_path("r2", &platform).unwrap();
    assert_eq!(parts(&legacy), parts(&primary));
}

#[test]
fn readable_path_prefers_primary_then_legacy() {
    let primary = ("/var/lib/nomos".to_string(), strings(&["job_results", "r", "log"]));
    let legacy = ("/var/log/nomos".to_string(), strings(&["job_results", "r", "log"]));
    let pick = |p: bool, l: bool| parts(&readable_log_file_path("r", &Platform::Unix, p, l).unwrap());
    assert_eq!(pick(true, true), primary);
    assert_eq!(pick(true, false), primary);
    assert_eq!(pick(false, true), legacy);
    assert_eq!(pick(false, false), primary);
}

#[test]
fn logger_writes_to_primary_path_and_makes_records() {
    let logger = JobLogger::new("job-7".to_string(), "res-9".to_string(), &Platform::Unix).unwrap();
    assert_eq!(logger.job_id(), "job-7");
    assert_eq!(logger.result_id(), "res-9");
    assert_eq!(
        parts(logger.log_filename()),
        ("/var/lib/nomos".to_string(), strings(&["job_results", "res-9", "log"]))
    );
    let readable = logger.readable_log_path(&Platform::Unix, false, true).unwrap();
    assert_eq!(readable.root, "/var/log/nomos");
    let stamp = Timestamp { seconds: -5, nanoseconds: 999_999_999 };
    let log = JobLogger::make_log(LogLevel::Warning, "build", "careful", stamp);
    assert_eq!(log.level, LogLevel::Warning);
    assert_eq!(log.step_name, "build");
    assert_eq!(log.message, "careful");
    assert_eq!(log.timestamp, stamp);
}

#[test]
fn level_names() {
    assert_eq!(LogLevel::Info.to_display_string(), "INFO");
    assert_eq!(LogLevel::Warning.to_display_string(), "WARNING");
    assert_eq!(LogLevel::Error.to_display_string(), "ERROR");
}
