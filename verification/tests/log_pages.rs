use nomos::log::{
    assemble_log_page, clamp_page_limit, empty_log_page, page_start, ForwardLogReader, JobLogger, Log,
    LogLevel, LogPageEntry, PageStart, ReverseLineReader, Timestamp, MAX_PAGE_LIMIT,
    REVERSE_READ_CHUNK_SIZE,
};

fn record(message: &str) -> Log {
    JobLogger::make_log(
        LogLevel::Info,
        "step",
        message,
        Timestamp { seconds: 1_700_000_000, nanoseconds: 5 },
    )
}

fn entry(start: u64, end: u64) -> LogPageEntry {
    LogPageEntry { start_offset: start, end_offset: end, log: record("m") }
}

#[test]
fn clamp_page_limit_holds_limit_in_range() {
    assert_eq!(clamp_page_limit(0), 1);
    assert_eq!(clamp_page_limit(1), 1);
    assert_eq!(clamp_page_limit(200), 200);
    assert_eq!(clamp_page_limit(500), 500);
    assert_eq!(clamp_page_limit(501), MAX_PAGE_LIMIT);
    assert_eq!(clamp_page_limit(usize::MAX), 500);
    for limit in [0, 1, 7, 500, 501, 10_000] {
        assert_eq!(clamp_page_limit(clamp_page_limit(limit)), clamp_page_limit(limit));
    }
}

#[test]
fn page_start_prefers_after_then_before_then_end() {
    assert_eq!(page_start(Some(10), Some(5), 100), PageStart::After(10));
    assert_eq!(page_start(Some(1000), None, 100), PageStart::After(100));
    assert_eq!(page_start(None, Some(50), 100), PageStart::Before(50));
    assert_eq!(page_start(None, Some(500), 100), PageStart::Before(100));
    assert_eq!(page_start(None, None, 100), PageStart::Before(100));
}

#[test]
fn assembled_page_points_to_neighbours() {
    let page = assemble_log_page(vec![entry(10, 20), entry(20, 35)], 50);
    assert!(page.has_older);
    assert_eq!(page.next_before, Some(10));
    assert_eq!(page.next_after, Some(35));
    assert_eq!(page.file_size, 50);
    assert_eq!(page.entries.len(), 2);
}

#[test]
fn page_starting_at_zero_has_no_older() {
    let page = assemble_log_page(vec![entry(0, 20)], 20);
    assert!(!page.has_older);
    assert_eq!(page.next_before, None);
    assert_eq!(page.next_after, Some(20));
}

#[test]
fn empty_page_reads_next_from_file_size() {
    let page = assemble_log_page(Vec::new(), 77);
    assert!(!page.has_older);
    assert_eq!(page.next_before, None);
    assert_eq!(page.next_after, Some(77));
}

#[test]
fn missing_log_gives_empty_page() {
    let page = empty_log_page();
    assert!(page.entries.is_empty());
    assert!(!page.has_older);
    assert_eq!(page.next_before, None);
    assert_eq!(page.next_after, Some(0));
    assert_eq!(page.file_size, 0);
}

#[test]
fn forward_reader_collects_until_limit() {
    let mut reader = ForwardLogReader::new(100, 2);
    assert!(reader.wants_more());
    reader.accept_line(10, Some(record("a")));
    reader.accept_line(5, None);
    assert!(reader.wants_more());
    reader.accept_line(7, Some(record("b")));
    assert!(!reader.wants_more());
    assert_eq!(reader.current_position(), 122);
    let entries = reader.into_entries();
    assert_eq!(entries.len(), 2);
    assert_eq!((entries[0].start_offset, entries[0].end_offset), (100, 110));
    assert_eq!((entries[1].start_offset, entries[1].end_offset), (115, 122));
    assert_eq!(entries[1].log.message, "b");
}

fn read_backwards(file: &[u8], before: u64, limit: usize) -> (Vec<(u64, u64, String)>, usize) {
    let mut reader = ReverseLineReader::new(before, limit);
    let mut reads = 0;
    while let Some((start, len)) = reader.next_chunk() {
        let start = start as usize;
        reader.push_chunk(&file[start..start + len]);
        reads += 1;
    }
    let lines = reader
        .selected_lines()
        .iter()
        .map(|r| (r.start_offset, r.end_offset, r.line.to_string()))
        .collect();
    (lines, reads)
}

#[test]
fn reverse_reader_returns_last_lines_in_order() {
    let file = b"a\nbb\nccc\ndddd\n";
    let (lines, reads) = read_backwards(file, file.len() as u64, 2);
    assert_eq!(reads, 1);
    assert_eq!(lines, vec![(5, 9, "ccc".to_string()), (9, 14, "dddd".to_string())]);
}

#[test]
fn reverse_reader_stops_at_before() {
    let file = b"a\nbb\nccc\ndddd\n";
    let (lines, _) = read_backwards(file, 9, 10);
    assert_eq!(
        lines,
        vec![(0, 2, "a".to_string()), (2, 5, "bb".to_string()), (5, 9, "ccc".to_string())]
    );
}

#[test]
fn reverse_reader_reads_chunks_until_enough_lines() {
    let chunk = REVERSE_READ_CHUNK_SIZE as usize;
    let mut file = Vec::new();
    file.extend_from_slice(b"first\n");
    file.extend(std::iter::repeat(b'x').take(2 * chunk));
    file.extend_from_slice(b"\nlast\n");
    let (lines, reads) = read_backwards(&file, file.len() as u64, 2);
    assert_eq!(reads, 3);
    assert_eq!(lines.len(), 2);
    assert_eq!(lines[1], ((file.len() - 5) as u64, file.len() as u64, "last".to_string()));
    assert_eq!(lines[0].0, 6);
    assert_eq!(lines[0].2.len(), 2 * chunk);
}

#[test]
fn reverse_reader_on_empty_range_reads_nothing() {
    let (lines, reads) = read_backwards(b"abc\n", 0, 5);
    assert_eq!(reads, 0);
    assert!(lines.is_empty());
}
