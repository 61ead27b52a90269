use nomos::log::{count_lines, line_ranges, LineRange};

fn spans(ranges: &[LineRange<'_>]) -> Vec<(u64, u64, String)> {
    ranges
        .iter()
        .map(|r| (r.start_offset, r.end_offset, r.line.to_string()))
        .collect()
}

#[test]
fn count_lines_of_empty_buffer_is_one() {
    assert_eq!(count_lines(b""), 1);
}

#[test]
fn count_lines_counts_a_last_line_without_newline() {
    assert_eq!(count_lines(b"a\nb"), 2);
    assert_eq!(count_lines(b"a\nb\n"), 2);
    assert_eq!(count_lines(b"\n\n\n"), 3);
    assert_eq!(count_lines(b"abc"), 1);
}

#[test]
fn line_ranges_split_at_newlines_with_offsets() {
    let buffer = b"one\ntwo\nthree";
    let ranges = line_ranges(buffer, 100);
    assert_eq!(
        spans(&ranges),
        vec![
            (100, 104, "one".to_string()),
            (104, 108, "two".to_string()),
            (108, 113, "three".to_string()),
        ]
    );
}

#[test]
fn line_ranges_skip_empty_lines() {
    let buffer = b"\n\na\n\nb\n";
    let ranges = line_ranges(buffer, 0);
    assert_eq!(spans(&ranges), vec![(2, 4, "a".to_string()), (5, 7, "b".to_string())]);
}

#[test]
fn line_ranges_skip_invalid_utf8_lines() {
    let buffer = b"ok\n\xff\xfe\nalso ok\n\xc0\xaf\n\xed\xa0\x80";
    let ranges = line_ranges(buffer, 10);
    assert_eq!(
        spans(&ranges),
        vec![(10, 13, "ok".to_string()), (16, 24, "also ok".to_string())]
    );
}

#[test]
fn line_ranges_keep_multibyte_text_and_carriage_returns() {
    let buffer = "grüße\r\nend".as_bytes();
    let ranges = line_ranges(buffer, 0);
    assert_eq!(
        spans(&ranges),
        vec![(0, 9, "grüße\r".to_string()), (9, 12, "end".to_string())]
    );
}

#[test]
fn line_ranges_of_empty_buffer_are_none() {
    assert!(line_ranges(b"", 5).is_empty());
}

#[test]
fn line_ranges_never_exceed_count_lines() {
    for buffer in [&b""[..], b"\n", b"a", b"a\n\nb", b"\xff\n\xff", b"x\ny\nz\n"] {
        assert!(line_ranges(buffer, 0).len() <= count_lines(buffer));
    }
}

#[test]
fn line_ranges_tile_a_buffer_without_empty_lines() {
    for buffer in [&b"a\nbc\nd"[..], b"a\nbc\n", "é\nü\n€".as_bytes(), b"x"] {
        let ranges = line_ranges(buffer, 40);
        assert_eq!(ranges.len(), count_lines(buffer));
        assert_eq!(ranges[0].start_offset, 40);
        assert_eq!(ranges[ranges.len() - 1].end_offset, 40 + buffer.len() as u64);
        for pair in ranges.windows(2) {
            assert_eq!(pair[0].end_offset, pair[1].start_offset);
        }
    }
}

#[test]
fn line_ranges_of_joined_buffers_follow_each_other() {
    let a = b"one\n\xff\n\ntwo\n";
    let c = b"three\nfour";
    let joined = [&a[..], &c[..]].concat();
    let mut expected = spans(&line_ranges(a, 7));
    expected.extend(spans(&line_ranges(c, 7 + a.len() as u64)));
    assert_eq!(spans(&line_ranges(&joined, 7)), expected);
}
