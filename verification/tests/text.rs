use nomos::log::count_lines;
use nomos::text::{push_decimal, push_two_digits, text_lines, trim_line_end};

fn std_lines(text: &str) -> Vec<&str> {
    text.lines().collect()
}

#[test]
fn text_lines_match_str_lines() {
    let samples = [
        "",
        "\n",
        "\n\n",
        "a",
        "a\n",
        "a\nb",
        "a\r\nb\r\n",
        "a\r",
        "a\rb\n",
        "\r\n",
        "x\r\r\ny",
        "ünï\ncødé\r\n€",
        "  spaced  \n\ttab\n",
    ];
    for sample in samples {
        assert_eq!(text_lines(sample), std_lines(sample), "sample {:?}", sample);
    }
}

#[test]
fn text_lines_keep_lone_carriage_return_at_end() {
    assert_eq!(text_lines("one\r"), vec!["one\r"]);
    assert_eq!(text_lines("one\r\ntwo"), vec!["one", "two"]);
}

#[test]
fn trim_line_end_removes_every_trailing_line_ending() {
    assert_eq!(trim_line_end("{\"a\":1}\r\n"), "{\"a\":1}");
    assert_eq!(trim_line_end("abc\n\r\n\r"), "abc");
    assert_eq!(trim_line_end("abc"), "abc");
    assert_eq!(trim_line_end("\r\n"), "");
    assert_eq!(trim_line_end("a\rb\n"), "a\rb");
    assert_eq!(trim_line_end("é\n"), "é");
}

#[test]
fn trim_line_end_is_idempotent() {
    for sample in ["x\r\n", "\n\n", "y", ""] {
        let once = trim_line_end(sample);
        assert_eq!(trim_line_end(once), once);
    }
}

#[test]
fn decimal_digits() {
    let mut text = String::from("n=");
    push_decimal(&mut text, 0);
    assert_eq!(text, "n=0");
    let mut text = String::new();
    push_decimal(&mut text, 1234567890);
    assert_eq!(text, "1234567890");
    let mut text = String::new();
    push_decimal(&mut text, u64::MAX);
    assert_eq!(text, u64::MAX.to_string());
}

#[test]
fn two_digit_padding() {
    let mut text = String::new();
    push_two_digits(&mut text, 7);
    push_two_digits(&mut text, 42);
    push_two_digits(&mut text, 123);
    assert_eq!(text, "0742123");
}

#[test]
fn count_lines_counts_the_lines_of_a_text() {
    for sample in ["a", "a\n", "a\nb", "\n\n", "x\r\ny\r\n", "one\rtwo"] {
        assert_eq!(text_lines(sample).len(), count_lines(sample.as_bytes()), "sample {:?}", sample);
    }
    assert_eq!(text_lines("").len(), 0);
    assert_eq!(count_lines(b""), 1);
}
