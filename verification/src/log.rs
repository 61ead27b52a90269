use vstd::prelude::*;
use vstd::string::StringSliceAdditionalSpecFns;
use vstd::utf8::{valid_utf8, valid_utf8_split};

use crate::text::{
    first_newline, lemma_ascii_boundaries, lemma_first_newline, lemma_first_newline_at, spec_text_lines, NEWLINE,
};

verus! {

/// Number of newline bytes in `buf`.
pub open spec fn newline_count(buf: Seq<u8>) -> nat
    decreases buf.len(),
{
    if buf.len() == 0 {
        0
    } else {
        newline_count(buf.drop_last()) + (if buf.last() == NEWLINE { 1nat } else { 0nat })
    }
}

/// A buffer never holds more newlines than bytes.
pub proof fn lemma_newline_count_bound(buf: Seq<u8>)
    ensures
        newline_count(buf) <= buf.len(),
    decreases buf.len(),
{
    if buf.len() > 0 {
        lemma_newline_count_bound(buf.drop_last());
    }
}

/// Number of lines that `buf` holds: one per newline, plus one for a last
/// line that no newline ends (an empty buffer counts as one line).
pub open spec fn spec_count_lines(buf: Seq<u8>) -> nat {
    if buf.len() > 0 && buf.last() == NEWLINE {
        newline_count(buf)
    } else {
        newline_count(buf) + 1
    }
}

/// Counts the lines of `buffer` as `spec_count_lines` defines them.
pub fn count_lines(buffer: &[u8]) -> (n: usize)
    ensures
        n == spec_count_lines(buffer@),
{
    let len = buffer.len();
    let mut count: usize = 0;
    let mut i: usize = 0;
    while i < len
        invariant
            len == buffer@.len(),
            i <= len,
            count == newline_count(buffer@.take(i as int)),
            count <= i,
        decreases len - i,
    {
        assert(buffer@.take(i + 1).drop_last() =~= buffer@.take(i as int));
        if buffer[i] == NEWLINE {
            count = count + 1;
        }
        i = i + 1;
    }
    assert(buffer@.take(len as int) =~= buffer@);
    if len > 0 && buffer[len - 1] == NEWLINE {
        count
    } else {
        assert(count < usize::MAX) by {
            if len > 0 {
                lemma_newline_count_bound(buffer@.drop_last());
            }
        }
        count + 1
    }
}


/// The lines of a buffer that starts at file offset `base`, as
/// `(start offset, end offset, bytes)`: the buffer is split at each newline,
/// a range ends after its newline (or at the end of the buffer for a last
/// line without one), and empty lines and lines that are not valid UTF-8
/// are left out.
pub open spec fn spec_line_ranges(buf: Seq<u8>, base: int) -> Seq<(int, int, Seq<u8>)>
    decreases buf.len(),
{
    if buf.len() == 0 {
        seq![]
    } else {
        let k = first_newline(buf) as int;
        let line = buf.take(k);
        if k < buf.len() {
            proof {
                lemma_first_newline(buf);
            }
            (if k > 0 && valid_utf8(line) {
                seq![(base, base + k + 1, line)]
            } else {
                seq![]
            }) + spec_line_ranges(buf.skip(k + 1), base + k + 1)
        } else if valid_utf8(line) {
            seq![(base, base + k, line)]
        } else {
            seq![]
        }
    }
}

/// A line of a log file buffer, with the file offsets where it starts and
/// where it ends (after its newline, if it has one).
pub struct LineRange<'a> {
    pub start_offset: u64,
    pub end_offset: u64,
    pub line: &'a str,
}

impl<'a> LineRange<'a> {
    /// The range as `(start offset, end offset, bytes of the line)`.
    pub open spec fn span(&self) -> (int, int, Seq<u8>) {
        (self.start_offset as int, self.end_offset as int, self.line.spec_bytes())
    }
}

/// The spans of a sequence of line ranges.
pub open spec fn spans<'a>(ranges: Seq<LineRange<'a>>) -> Seq<(int, int, Seq<u8>)> {
    ranges.map_values(|r: LineRange<'a>| r.span())
}

/// Reads `bytes` as UTF-8 text.
///
/// Calls `std::str::from_utf8`, whose documentation says that it succeeds
/// exactly when the bytes are valid UTF-8 and then returns a string slice
/// over those same bytes; that is what the contract claims.
#[verifier::external_body]
fn str_from_utf8<'a>(bytes: &'a [u8]) -> (text: Option<&'a str>)
    ensures
        text is Some <==> valid_utf8(bytes@),
        text matches Some(t) ==> t.spec_bytes() == bytes@,
{
    std::str::from_utf8(bytes).ok()
}

/// Splits `buffer`, which starts at file offset `base_offset`, into the line
/// ranges that `spec_line_ranges` describes.
pub fn line_ranges(buffer: &[u8], base_offset: u64) -> (ranges: Vec<LineRange<'_>>)
    requires
        base_offset + buffer@.len() <= u64::MAX,
    ensures
        spans(ranges@) == spec_line_ranges(buffer@, base_offset as int),
{
    let len = buffer.len();
    let mut ranges: Vec<LineRange<'_>> = Vec::new();
    let mut start: usize = 0;
    let mut index: usize = 0;
    let ghost buf = buffer@;
    let ghost base = base_offset as int;
    assert(buf.skip(0) =~= buf);
    while index < len
        invariant
            len == buf.len(),
            buf == buffer@,
            base == base_offset as int,
            base_offset + len <= u64::MAX,
            start <= index <= len,
            forall|j: int| start <= j < index ==> buf[j] != NEWLINE,
            spans(ranges@) + spec_line_ranges(buf.skip(start as int), base + start)
                == spec_line_ranges(buf, base),
        decreases len - index,
    {
        if buffer[index] == NEWLINE {
            let ghost rest = buf.skip(start as int);
            let ghost k = index - start;
            proof {
                assert forall|j: int| 0 <= j < k implies rest[j] != NEWLINE by {
                    assert(rest[j] == buf[start + j]);
                }
                lemma_first_newline_at(rest, k);
                assert(rest.skip(k + 1) =~= buf.skip(index + 1));
                assert(rest.take(k) =~= buf.subrange(start as int, index as int));
            }
            let ghost old_ranges = ranges@;
            if index > start {
                let piece = &buffer[start..index];
                match str_from_utf8(piece) {
                    Some(line) => {
                        let r = LineRange {
                            start_offset: base_offset + start as u64,
                            end_offset: base_offset + index as u64 + 1,
                            line,
                        };
                        ranges.push(r);
                        assert(spans(ranges@) =~= spans(old_ranges).push(r.span()));
                    },
                    None => {},
                }
            }
            assert(spans(ranges@) + spec_line_ranges(buf.skip(index + 1), base + index + 1)
                =~= spec_line_ranges(buf, base));
            start = index + 1;
        }
        index = index + 1;
    }
    if start < len {
        let ghost rest = buf.skip(start as int);
        proof {
            assert forall|j: int| 0 <= j < rest.len() implies rest[j] != NEWLINE by {
                assert(rest[j] == buf[start + j]);
            }
            lemma_first_newline_at(rest, rest.len() as int);
            assert(rest.take(rest.len() as int) =~= buf.subrange(start as int, len as int));
        }
        let ghost old_ranges = ranges@;
        let piece = &buffer[start..len];
        match str_from_utf8(piece) {
            Some(line) => {
                let r = LineRange {
                    start_offset: base_offset + start as u64,
                    end_offset: base_offset + len as u64,
                    line,
                };
                ranges.push(r);
                assert(spans(ranges@) =~= spans(old_ranges).push(r.span()));
            },
            None => {},
        }
        assert(spans(ranges@) =~= spec_line_ranges(buf, base));
    } else {
        assert(buf.skip(start as int) =~= Seq::<u8>::empty());
        assert(spans(ranges@) =~= spec_line_ranges(buf, base));
    }
    ranges
}


/// Newlines of two joined buffers are those of each.
pub proof fn lemma_newline_count_concat(a: Seq<u8>, b: Seq<u8>)
    ensures
        newline_count(a + b) == newline_count(a) + newline_count(b),
    decreases b.len(),
{
    if b.len() == 0 {
        assert(a + b =~= a);
    } else {
        lemma_newline_count_concat(a, b.drop_last());
        assert((a + b).drop_last() =~= a + b.drop_last());
    }
}

/// A buffer without newlines has a newline count of zero.
proof fn lemma_newline_count_none(buf: Seq<u8>)
    requires
        forall|j: int| 0 <= j < buf.len() ==> buf[j] != NEWLINE,
    ensures
        newline_count(buf) == 0,
    decreases buf.len(),
{
    if buf.len() > 0 {
        lemma_newline_count_none(buf.drop_last());
    }
}

/// Cutting a buffer after its first newline: the line counts add up.
proof fn lemma_count_lines_split(buf: Seq<u8>)
    requires
        first_newline(buf) < buf.len(),
    ensures
        ({
            let rest = buf.skip(first_newline(buf) as int + 1);
            &&& newline_count(buf) == 1 + newline_count(rest)
            &&& rest.len() == 0 ==> spec_count_lines(buf) == 1
            &&& rest.len() > 0 ==> spec_count_lines(buf) == 1 + spec_count_lines(rest)
        }),
{
    lemma_first_newline(buf);
    let k = first_newline(buf) as int;
    let head = buf.take(k + 1);
    let rest = buf.skip(k + 1);
    assert(buf =~= head + rest);
    lemma_newline_count_concat(head, rest);
    assert(head.drop_last() =~= buf.take(k));
    lemma_newline_count_none(buf.take(k));
    if rest.len() > 0 {
        assert(buf.last() == rest.last());
    }
}

/// A buffer without a newline counts as one line.
proof fn lemma_count_lines_single(buf: Seq<u8>)
    requires
        first_newline(buf) == buf.len(),
    ensures
        spec_count_lines(buf) == 1,
{
    lemma_first_newline(buf);
    lemma_newline_count_none(buf);
}

/// `line_ranges` never yields more ranges than `count_lines` counts lines.
pub proof fn lemma_line_ranges_within_count(buf: Seq<u8>, base: int)
    ensures
        spec_line_ranges(buf, base).len() <= spec_count_lines(buf),
    decreases buf.len(),
{
    if buf.len() > 0 {
        lemma_first_newline(buf);
        let k = first_newline(buf) as int;
        if k < buf.len() {
            lemma_count_lines_split(buf);
            lemma_line_ranges_within_count(buf.skip(k + 1), base + k + 1);
        } else {
            lemma_count_lines_single(buf);
        }
    }
}

/// `count_lines` counts the lines that `str::lines` yields, except that an
/// empty text counts as one line though it yields none.
pub proof fn lemma_count_lines_counts_text_lines(buf: Seq<u8>)
    ensures
        spec_text_lines(buf).len() == (if buf.len() == 0 { 0 } else { spec_count_lines(buf) }),
    decreases buf.len(),
{
    if buf.len() > 0 {
        lemma_first_newline(buf);
        let k = first_newline(buf) as int;
        if k < buf.len() {
            lemma_count_lines_split(buf);
            lemma_count_lines_counts_text_lines(buf.skip(k + 1));
        } else {
            lemma_count_lines_single(buf);
        }
    }
}

/// `span` is a line of `buf` (which starts at offset `base`): a non-empty,
/// newline-free, valid UTF-8 run of `buf` that a newline or the end of `buf`
/// ends, whose end offset lies after that newline.
pub open spec fn is_line_of(buf: Seq<u8>, base: int, span: (int, int, Seq<u8>)) -> bool {
    let s = span.0 - base;
    let line = span.2;
    &&& 0 <= s
    &&& s + line.len() <= buf.len()
    &&& line.len() > 0
    &&& line == buf.subrange(s, s + line.len())
    &&& valid_utf8(line)
    &&& forall|j: int| 0 <= j < line.len() ==> line[j] != NEWLINE
    &&& if s + line.len() < buf.len() {
        buf[s + line.len()] == NEWLINE && span.1 == span.0 + line.len() + 1
    } else {
        span.1 == span.0 + line.len()
    }
}

/// Every range that `line_ranges` yields is a line of the buffer, and the
/// ranges follow each other without overlapping.
pub proof fn lemma_line_ranges_are_lines(buf: Seq<u8>, base: int)
    ensures
        forall|i: int|
            0 <= i < spec_line_ranges(buf, base).len() ==> is_line_of(
                buf,
                base,
                #[trigger] spec_line_ranges(buf, base)[i],
            ),
        forall|i: int, j: int|
            0 <= i < j < spec_line_ranges(buf, base).len() ==> #[trigger] spec_line_ranges(buf, base)[i].1
                <= #[trigger] spec_line_ranges(buf, base)[j].0,
    decreases buf.len(),
{
    let ranges = spec_line_ranges(buf, base);
    if buf.len() > 0 {
        lemma_first_newline(buf);
        let k = first_newline(buf) as int;
        let line = buf.take(k);
        if k < buf.len() {
            let rest = buf.skip(k + 1);
            let nb = base + k + 1;
            lemma_line_ranges_are_lines(rest, nb);
            let tail = spec_line_ranges(rest, nb);
            let head: Seq<(int, int, Seq<u8>)> = if k > 0 && valid_utf8(line) {
                seq![(base, base + k + 1, line)]
            } else {
                seq![]
            };
            assert(ranges == head + tail);
            assert forall|i: int| 0 <= i < tail.len() implies is_line_of(buf, base, #[trigger] tail[i]) by {
                assert(is_line_of(rest, nb, tail[i]));
                let s = tail[i].0 - nb;
                let l = tail[i].2;
                assert(rest.subrange(s, s + l.len()) =~= buf.subrange(s + k + 1, s + k + 1 + l.len()));
                if s + l.len() < rest.len() {
                    assert(rest[s + l.len()] == buf[s + k + 1 + l.len()]);
                }
            }
            assert forall|i: int| 0 <= i < tail.len() implies #[trigger] tail[i].0 >= nb by {
                assert(is_line_of(rest, nb, tail[i]));
            }
            if k > 0 && valid_utf8(line) {
                assert(line =~= buf.subrange(0, k));
                assert(is_line_of(buf, base, (base, base + k + 1, line)));
            }
            assert forall|i: int| 0 <= i < ranges.len() implies is_line_of(buf, base, #[trigger] ranges[i]) by {
                if i >= head.len() {
                    assert(ranges[i] == tail[i - head.len()]);
                }
            }
            assert forall|i: int, j: int| 0 <= i < j < ranges.len() implies #[trigger] ranges[i].1
                <= #[trigger] ranges[j].0 by {
                if i >= head.len() {
                    assert(ranges[i] == tail[i - head.len()]);
                    assert(ranges[j] == tail[j - head.len()]);
                } else {
                    assert(ranges[j] == tail[j - head.len()]);
                }
            }
        } else {
            if valid_utf8(line) {
                assert(line =~= buf.subrange(0, k));
                assert(is_line_of(buf, base, (base, base + k, line)));
            }
        }
    }
}

/// No two newlines of `buf` stand side by side.
pub open spec fn no_adjacent_newlines(buf: Seq<u8>) -> bool {
    forall|i: int| 0 <= i && i + 1 < buf.len() ==> !(#[trigger] buf[i] == NEWLINE && buf[i + 1] == NEWLINE)
}

/// For a non-empty valid UTF-8 buffer that starts with no newline and has no
/// two newlines side by side, `line_ranges` yields one range per line that
/// `count_lines` counts, and the ranges tile the buffer: the first starts at
/// `base`, each ends where the next starts, and the last ends at the end of
/// the buffer.
pub proof fn lemma_line_ranges_tile(buf: Seq<u8>, base: int)
    requires
        buf.len() > 0,
        valid_utf8(buf),
        buf[0] != NEWLINE,
        no_adjacent_newlines(buf),
    ensures
        spec_line_ranges(buf, base).len() == spec_count_lines(buf),
        spec_line_ranges(buf, base)[0].0 == base,
        spec_line_ranges(buf, base).last().1 == base + buf.len(),
        forall|i: int|
            0 <= i && i + 1 < spec_line_ranges(buf, base).len() ==> #[trigger] spec_line_ranges(buf, base)[i].1
                == spec_line_ranges(buf, base)[i + 1].0,
    decreases buf.len(),
{
    lemma_first_newline(buf);
    let k = first_newline(buf) as int;
    let ranges = spec_line_ranges(buf, base);
    if k < buf.len() {
        lemma_ascii_boundaries(buf, k);
        valid_utf8_split(buf, k);
        valid_utf8_split(buf, k + 1);
        let line = buf.take(k);
        assert(line =~= buf.subrange(0, k));
        let rest = buf.skip(k + 1);
        assert(rest =~= buf.subrange(k + 1, buf.len() as int));
        lemma_count_lines_split(buf);
        let head: Seq<(int, int, Seq<u8>)> = seq![(base, base + k + 1, line)];
        let tail = spec_line_ranges(rest, base + k + 1);
        assert(ranges == head + tail);
        if rest.len() > 0 {
            assert(rest[0] == buf[k + 1]);
            assert(buf[k] == NEWLINE);
            assert forall|i: int| 0 <= i && i + 1 < rest.len() implies !(#[trigger] rest[i] == NEWLINE && rest[i
                + 1] == NEWLINE) by {
                assert(rest[i] == buf[k + 1 + i] && rest[i + 1] == buf[k + 1 + i + 1]);
            }
            lemma_line_ranges_tile(rest, base + k + 1);
            assert(ranges.last() == tail.last());
            assert forall|i: int| 0 <= i && i + 1 < ranges.len() implies #[trigger] ranges[i].1 == ranges[i
                + 1].0 by {
                if i > 0 {
                    assert(ranges[i] == tail[i - 1] && ranges[i + 1] == tail[i]);
                }
            }
        } else {
            assert(tail.len() == 0);
        }
    } else {
        assert(buf.take(k) =~= buf);
        lemma_count_lines_single(buf);
    }
}

/// Splitting two buffers joined after a newline: the line ranges of the
/// joined buffer are those of the first part followed by those of the second,
/// whose offsets start where the first part ends.
pub proof fn lemma_line_ranges_concat(a: Seq<u8>, c: Seq<u8>, base: int)
    requires
        a.len() > 0,
        a.last() == NEWLINE,
    ensures
        spec_line_ranges(a + c, base) == spec_line_ranges(a, base) + spec_line_ranges(c, base + a.len()),
    decreases a.len(),
{
    lemma_first_newline(a);
    let k = first_newline(a) as int;
    if k == a.len() {
        assert(a[a.len() - 1] == NEWLINE);
        assert(false);
    }
    let joined = a + c;
    assert forall|j: int| 0 <= j < k implies joined[j] != NEWLINE by {
        assert(joined[j] == a[j]);
    }
    assert(joined[k] == a[k]);
    lemma_first_newline_at(joined, k);
    assert(joined.take(k) =~= a.take(k));
    let rest = a.skip(k + 1);
    assert(joined.skip(k + 1) =~= rest + c);
    let head: Seq<(int, int, Seq<u8>)> = if k > 0 && valid_utf8(a.take(k)) {
        seq![(base, base + k + 1, a.take(k))]
    } else {
        seq![]
    };
    assert(spec_line_ranges(joined, base) == head + spec_line_ranges(rest + c, base + k + 1));
    assert(spec_line_ranges(a, base) == head + spec_line_ranges(rest, base + k + 1));
    if rest.len() == 0 {
        assert(rest + c =~= c);
        assert(k + 1 == a.len());
        assert(spec_line_ranges(rest, base + k + 1) =~= Seq::<(int, int, Seq<u8>)>::empty());
        assert(spec_line_ranges(a, base) =~= head);
    } else {
        assert(rest.last() == a.last());
        lemma_line_ranges_concat(rest, c, base + k + 1);
        assert(base + k + 1 + rest.len() == base + a.len());
        assert(spec_line_ranges(joined, base) =~= spec_line_ranges(a, base) + spec_line_ranges(c, base + a.len()));
    }
}

/// Severity of a log record.
#[derive(Clone, Copy, Debug, PartialEq, Eq, Structural)]
pub enum LogLevel {
    Info,
    Warning,
    Error,
}

/// The name under which a level is shown.
pub open spec fn level_name(level: LogLevel) -> Seq<char> {
    match level {
        LogLevel::Info => seq!['I', 'N', 'F', 'O'],
        LogLevel::Warning => seq!['W', 'A', 'R', 'N', 'I', 'N', 'G'],
        LogLevel::Error => seq!['E', 'R', 'R', 'O', 'R'],
    }
}

impl LogLevel {
    /// The name under which the level is shown: `INFO`, `WARNING` or `ERROR`.
    pub fn to_display_string(&self) -> (name: String)
        ensures
            name@ == level_name(*self),
    {
        match self {
            LogLevel::Info => {
                let name = String::from_str("INFO");
                proof {
                    reveal_strlit("INFO");
                }
                name
            },
            LogLevel::Warning => {
                let name = String::from_str("WARNING");
                proof {
                    reveal_strlit("WARNING");
                }
                name
            },
            LogLevel::Error => {
                let name = String::from_str("ERROR");
                proof {
                    reveal_strlit("ERROR");
                }
                name
            },
        }
    }
}

/// A point in time, as whole seconds since the Unix epoch and the
/// nanoseconds past that second.
#[derive(Clone, Copy, Debug, PartialEq, Eq, Structural)]
pub struct Timestamp {
    pub seconds: i64,
    pub nanoseconds: u32,
}

/// One record of a job's log.
#[derive(Clone, Debug)]
pub struct Log {
    pub level: LogLevel,
    pub message: String,
    pub step_name: String,
    pub timestamp: Timestamp,
}

/// A log record read from a log file, with the file offsets of its line.
#[derive(Debug)]
pub struct LogPageEntry {
    pub start_offset: u64,
    pub end_offset: u64,
    pub log: Log,
}

/// One page of a job's log, with the offsets from which the neighbouring
/// pages are read.
#[derive(Debug)]
pub struct LogPage {
    pub entries: Vec<LogPageEntry>,
    pub has_older: bool,
    pub next_before: Option<u64>,
    pub next_after: Option<u64>,
    pub file_size: u64,
}

/// Whether a page whose entries are `entries` has older records before it.
pub open spec fn spec_has_older(entries: Seq<LogPageEntry>) -> bool {
    entries.len() > 0 && entries[0].start_offset > 0
}

/// The offset before which the previous page is read.
pub open spec fn spec_next_before(entries: Seq<LogPageEntry>) -> Option<u64> {
    if spec_has_older(entries) {
        Some(entries[0].start_offset)
    } else {
        None
    }
}

/// The offset after which the next page is read: the end of the last entry,
/// or the end of the file for a page without entries.
pub open spec fn spec_next_after(entries: Seq<LogPageEntry>, file_size: u64) -> Option<u64> {
    if entries.len() > 0 {
        Some(entries.last().end_offset)
    } else {
        Some(file_size)
    }
}

/// Builds the page that holds `entries`, read from a file of `file_size` bytes.
pub fn assemble_log_page(entries: Vec<LogPageEntry>, file_size: u64) -> (page: LogPage)
    ensures
        page.entries@ == entries@,
        page.has_older == spec_has_older(entries@),
        page.next_before == spec_next_before(entries@),
        page.next_after == spec_next_after(entries@, file_size),
        page.file_size == file_size,
{
    let n = entries.len();
    let first_offset: Option<u64> = if n > 0 { Some(entries[0].start_offset) } else { None };
    let last_offset: Option<u64> = if n > 0 { Some(entries[n - 1].end_offset) } else { None };
    let has_older = match first_offset {
        Some(offset) => offset > 0,
        None => false,
    };
    let next_before = match first_offset {
        Some(offset) => if offset > 0 { Some(offset) } else { None },
        None => None,
    };
    let next_after = match last_offset {
        Some(offset) => Some(offset),
        None => Some(file_size),
    };
    LogPage { entries, has_older, next_before, next_after, file_size }
}

/// The page of a log file that does not exist: no entries, and the next page
/// is read from the start.
pub fn empty_log_page() -> (page: LogPage)
    ensures
        page.entries@.len() == 0,
        !page.has_older,
        page.next_before is None,
        page.next_after == Some(0u64),
        page.file_size == 0,
{
    LogPage {
        entries: Vec::new(),
        has_older: false,
        next_before: None,
        next_after: Some(0),
        file_size: 0,
    }
}

/// A page's `has_older` and `next_before` agree: there are older records
/// exactly when there is an offset to read them before, and that offset is
/// not the start of the file.
pub proof fn lemma_page_older_agrees(entries: Seq<LogPageEntry>)
    ensures
        spec_has_older(entries) <==> spec_next_before(entries) is Some,
        spec_next_before(entries) matches Some(b) ==> b > 0,
{
}

/// The neighbouring pages of a page whose entries are in file order do not
/// overlap it: the previous page is read before every entry's start, and the
/// next one after every entry's end.
pub proof fn lemma_page_bounds(entries: Seq<LogPageEntry>, file_size: u64)
    requires
        forall|i: int| 0 <= i < entries.len() ==> #[trigger] entries[i].start_offset <= entries[i].end_offset,
        forall|i: int, j: int| 0 <= i < j < entries.len() ==> #[trigger] entries[i].end_offset
            <= #[trigger] entries[j].start_offset,
    ensures
        forall|i: int|
            0 <= i < entries.len() ==> (spec_next_before(entries) matches Some(b) ==> b
                <= #[trigger] entries[i].start_offset),
        forall|i: int|
            0 <= i < entries.len() ==> (spec_next_after(entries, file_size) matches Some(a) ==> #[trigger] entries[i].end_offset
                <= a),
{
    assert forall|i: int| 0 <= i < entries.len() implies (spec_next_before(entries) matches Some(b) ==> b
        <= #[trigger] entries[i].start_offset) by {
        if i > 0 {
            assert(entries[0].end_offset <= entries[i].start_offset);
        }
    }
    assert forall|i: int| 0 <= i < entries.len() implies (spec_next_after(entries, file_size) matches Some(a)
        ==> #[trigger] entries[i].end_offset <= a) by {
        let last = entries.len() - 1;
        if i < last {
            assert(entries[i].end_offset <= entries[last].start_offset);
        }
    }
}

/// The most entries a page holds.
pub const MAX_PAGE_LIMIT: usize = 500;

/// `limit` held between 1 and `MAX_PAGE_LIMIT`.
pub open spec fn spec_clamp_page_limit(limit: usize) -> usize {
    if limit < 1 {
        1
    } else if limit > MAX_PAGE_LIMIT {
        MAX_PAGE_LIMIT
    } else {
        limit
    }
}

/// A page asks for at least one and at most `MAX_PAGE_LIMIT` entries, and for
/// exactly `limit` when that lies in between.
pub proof fn lemma_page_limit_in_range(limit: usize)
    ensures
        1 <= spec_clamp_page_limit(limit) <= MAX_PAGE_LIMIT,
        1 <= limit <= MAX_PAGE_LIMIT ==> spec_clamp_page_limit(limit) == limit,
        spec_clamp_page_limit(spec_clamp_page_limit(limit)) == spec_clamp_page_limit(limit),
{
}

/// The number of entries a page asks for, held between 1 and `MAX_PAGE_LIMIT`.
pub fn clamp_page_limit(limit: usize) -> (clamped: usize)
    ensures
        clamped == spec_clamp_page_limit(limit),
{
    if limit < 1 {
        1
    } else if limit > MAX_PAGE_LIMIT {
        MAX_PAGE_LIMIT
    } else {
        limit
    }
}

/// Where a page of the log is read from.
#[derive(Clone, Copy, Debug, PartialEq, Eq, Structural)]
pub enum PageStart {
    /// The records that begin at or after this offset, oldest first.
    After(u64),
    /// The records that end at or before this offset, the newest of them.
    Before(u64),
}

/// Chooses where a page is read from: after `after` if it is given, else
/// before `before` if it is given, else before the end of the file; an offset
/// beyond the end of the file is moved to the end.
pub fn page_start(after: Option<u64>, before: Option<u64>, file_size: u64) -> (start: PageStart)
    ensures
        start == (match after {
            Some(a) => PageStart::After(if a < file_size { a } else { file_size }),
            None => match before {
                Some(b) => PageStart::Before(if b < file_size { b } else { file_size }),
                None => PageStart::Before(file_size),
            },
        }),
{
    match after {
        Some(a) => PageStart::After(if a < file_size { a } else { file_size }),
        None => match before {
            Some(b) => PageStart::Before(if b < file_size { b } else { file_size }),
            None => PageStart::Before(file_size),
        },
    }
}


/// How many bytes the log is read backwards at a time.
pub const REVERSE_READ_CHUNK_SIZE: u64 = 64 * 1024;

/// Where the chunk that ends at `cursor` starts.
pub open spec fn spec_chunk_start(cursor: u64) -> u64 {
    if cursor < REVERSE_READ_CHUNK_SIZE {
        0
    } else {
        (cursor - REVERSE_READ_CHUNK_SIZE) as u64
    }
}

/// The last `limit` items of `items` (all of them when there are fewer).
pub open spec fn last_items<A>(items: Seq<A>, limit: int) -> Seq<A> {
    if items.len() <= limit {
        items
    } else {
        items.skip(items.len() - limit)
    }
}

/// Reads a log file backwards from an offset, a chunk at a time, until the
/// bytes read hold more than `limit` lines or the start of the file is
/// reached; then hands out the last `limit` lines read.
///
/// The reader decides what to read; the caller reads it and hands it back.
pub struct ReverseLineReader {
    before: u64,
    cursor: u64,
    buffer: Vec<u8>,
    limit: usize,
    enough: bool,
}

impl ReverseLineReader {
    #[verifier::type_invariant]
    spec fn window_matches(self) -> bool {
        self.cursor + self.buffer@.len() == self.before
    }

    /// The offset before which the reader reads.
    pub closed spec fn before(&self) -> u64 {
        self.before
    }

    /// The offset at which the bytes read so far start.
    pub closed spec fn cursor(&self) -> u64 {
        self.cursor
    }

    /// The bytes read so far: those between `cursor` and `before`.
    pub closed spec fn buffer_view(&self) -> Seq<u8> {
        self.buffer@
    }

    /// How many lines the reader hands out.
    pub closed spec fn limit(&self) -> usize {
        self.limit
    }

    /// Whether the bytes read hold more than `limit` lines.
    pub closed spec fn is_enough(&self) -> bool {
        self.enough
    }

    /// The chunk that the reader asks for next, as `(offset, length)`, or
    /// `None` once it has read enough or reached the start of the file.
    pub open spec fn spec_next_chunk(&self) -> Option<(u64, usize)> {
        if self.is_enough() || self.cursor() == 0 {
            None
        } else {
            Some((spec_chunk_start(self.cursor()), (self.cursor() - spec_chunk_start(self.cursor())) as usize))
        }
    }

    /// A reader that has read nothing yet, reading before `before`.
    pub fn new(before: u64, limit: usize) -> (reader: ReverseLineReader)
        ensures
            reader.before() == before,
            reader.cursor() == before,
            reader.buffer_view() == Seq::<u8>::empty(),
            reader.limit() == limit,
            !reader.is_enough(),
    {
        ReverseLineReader { before, cursor: before, buffer: Vec::new(), limit, enough: false }
    }

    /// The chunk to read next, as `(offset, length)`; `None` when reading is done.
    pub fn next_chunk(&self) -> (chunk: Option<(u64, usize)>)
        ensures
            chunk == self.spec_next_chunk(),
            self.cursor() + self.buffer_view().len() == self.before(),
    {
        proof {
            use_type_invariant(self);
        }
        if self.enough || self.cursor == 0 {
            None
        } else {
            let start = if self.cursor < REVERSE_READ_CHUNK_SIZE {
                0
            } else {
                self.cursor - REVERSE_READ_CHUNK_SIZE
            };
            Some((start, (self.cursor - start) as usize))
        }
    }

    /// Takes the chunk that `next_chunk` asked for: the bytes just before the
    /// ones read so far.
    pub fn push_chunk(&mut self, chunk: &[u8])
        requires
            old(self).spec_next_chunk() is Some,
            chunk@.len() == old(self).cursor() - spec_chunk_start(old(self).cursor()),
        ensures
            final(self).buffer_view() == chunk@ + old(self).buffer_view(),
            final(self).cursor() == spec_chunk_start(old(self).cursor()),
            final(self).before() == old(self).before(),
            final(self).limit() == old(self).limit(),
            final(self).is_enough() == (spec_count_lines(final(self).buffer_view()) > old(self).limit()),
            final(self).cursor() + final(self).buffer_view().len() == final(self).before(),
    {
        proof {
            use_type_invariant(&*self);
        }
        let start = if self.cursor < REVERSE_READ_CHUNK_SIZE {
            0
        } else {
            self.cursor - REVERSE_READ_CHUNK_SIZE
        };
        let mut joined: Vec<u8> = Vec::new();
        let n = chunk.len();
        let mut i: usize = 0;
        while i < n
            invariant
                n == chunk@.len(),
                i <= n,
                joined@ == chunk@.take(i as int),
            decreases n - i,
        {
            joined.push(chunk[i]);
            i = i + 1;
            assert(joined@ =~= chunk@.take(i as int));
        }
        let m = self.buffer.len();
        let mut j: usize = 0;
        while j < m
            invariant
                n == chunk@.len(),
                m == self.buffer@.len(),
                j <= m,
                joined@ == chunk@ + self.buffer@.take(j as int),
            decreases m - j,
        {
            joined.push(self.buffer[j]);
            j = j + 1;
            assert(joined@ =~= chunk@ + self.buffer@.take(j as int));
        }
        assert(self.buffer@.take(m as int) =~= self.buffer@);
        let enough = count_lines(joined.as_slice()) > self.limit;
        *self = ReverseLineReader {
            before: self.before,
            cursor: start,
            buffer: joined,
            limit: self.limit,
            enough,
        };
    }

    /// The last `limit` lines of the bytes read, oldest first.
    pub fn selected_lines(&self) -> (lines: Vec<LineRange<'_>>)
        ensures
            spans(lines@) == last_items(
                spec_line_ranges(self.buffer_view(), self.cursor() as int),
                self.limit() as int,
            ),
    {
        proof {
            use_type_invariant(self);
        }
        let mut ranges = line_ranges(self.buffer.as_slice(), self.cursor);
        let n = ranges.len();
        if n <= self.limit {
            ranges
        } else {
            let ghost all = ranges@;
            let tail = ranges.split_off(n - self.limit);
            assert(spans(tail@) =~= spans(all).skip(n - self.limit));
            tail
        }
    }
}

/// Reading `file` backwards: when the bytes read so far are those of `file`
/// between the cursor and `before`, and the chunk handed in is the part of
/// `file` just before the cursor, the bytes read afterwards are again those of
/// `file` between the new cursor and `before`.
pub proof fn lemma_reverse_reader_reads_file(
    file: Seq<u8>,
    old_reader: ReverseLineReader,
    chunk: Seq<u8>,
    new_reader: ReverseLineReader,
)
    requires
        old_reader.cursor() <= old_reader.before() <= file.len(),
        old_reader.buffer_view() == file.subrange(old_reader.cursor() as int, old_reader.before() as int),
        new_reader.buffer_view() == chunk + old_reader.buffer_view(),
        new_reader.cursor() == spec_chunk_start(old_reader.cursor()),
        new_reader.before() == old_reader.before(),
        chunk == file.subrange(new_reader.cursor() as int, old_reader.cursor() as int),
    ensures
        new_reader.buffer_view() == file.subrange(new_reader.cursor() as int, new_reader.before() as int),
{
    assert(new_reader.buffer_view() =~= file.subrange(new_reader.cursor() as int, new_reader.before() as int));
}

/// The lines that the backward reader hands out number at most `limit`, and
/// each lies within the bytes read: it starts at or after the offset where
/// they start and ends at or before the offset where they end.
pub proof fn lemma_reverse_selection_within_window(buf: Seq<u8>, base: int, limit: int)
    requires
        limit >= 0,
    ensures
        last_items(spec_line_ranges(buf, base), limit).len() <= limit,
        forall|i: int|
            0 <= i < last_items(spec_line_ranges(buf, base), limit).len() ==> base <= (
            #[trigger] last_items(spec_line_ranges(buf, base), limit)[i]).0 && last_items(
                spec_line_ranges(buf, base),
                limit,
            )[i].1 <= base + buf.len(),
{
    let ranges = spec_line_ranges(buf, base);
    let picked = last_items(ranges, limit);
    lemma_line_ranges_are_lines(buf, base);
    assert forall|i: int| 0 <= i < picked.len() implies base <= (#[trigger] picked[i]).0 && picked[i].1
        <= base + buf.len() by {
        let j = if ranges.len() <= limit { i } else { i + ranges.len() - limit };
        assert(picked[i] == ranges[j]);
        assert(is_line_of(buf, base, ranges[j]));
    }
}

/// Reads log lines forwards from an offset, one line at a time, until `limit`
/// records have been read or the file ends.
///
/// The caller reads each line and hands back its length and the record it
/// holds, if it holds one.
pub struct ForwardLogReader {
    position: u64,
    limit: usize,
    entries: Vec<LogPageEntry>,
}

/// Entries lie in file order, each ends where it starts or later, and none
/// ends after `position`.
pub open spec fn entries_in_order(entries: Seq<LogPageEntry>, position: u64) -> bool {
    &&& forall|i: int| 0 <= i < entries.len() ==> #[trigger] entries[i].start_offset <= entries[i].end_offset
    &&& forall|i: int| 0 <= i < entries.len() ==> #[trigger] entries[i].end_offset <= position
    &&& forall|i: int, j: int| 0 <= i < j < entries.len() ==> #[trigger] entries[i].end_offset <= #[trigger] entries[j].start_offset
}

impl ForwardLogReader {
    /// The offset of the next line to read.
    pub closed spec fn position(&self) -> u64 {
        self.position
    }

    /// How many records the reader collects at most.
    pub closed spec fn limit(&self) -> usize {
        self.limit
    }

    /// The records collected so far.
    pub closed spec fn entries_view(&self) -> Seq<LogPageEntry> {
        self.entries@
    }

    /// A reader that starts at `offset`.
    pub fn new(offset: u64, limit: usize) -> (reader: ForwardLogReader)
        ensures
            reader.position() == offset,
            reader.limit() == limit,
            reader.entries_view() == Seq::<LogPageEntry>::empty(),
    {
        ForwardLogReader { position: offset, limit, entries: Vec::new() }
    }

    /// The offset of the next line to read.
    pub fn current_position(&self) -> (position: u64)
        ensures
            position == self.position(),
    {
        self.position
    }

    /// Whether another line is to be read: fewer than `limit` records so far.
    pub fn wants_more(&self) -> (more: bool)
        ensures
            more == (self.entries_view().len() < self.limit()),
    {
        self.entries.len() < self.limit
    }

    /// Takes a line of `bytes_read` bytes (its newline included) that starts at
    /// the current position, and the record it holds, if any.
    pub fn accept_line(&mut self, bytes_read: u64, log: Option<Log>)
        requires
            old(self).position() + bytes_read <= u64::MAX,
        ensures
            final(self).position() == old(self).position() + bytes_read,
            final(self).limit() == old(self).limit(),
            final(self).entries_view() == (match log {
                Some(l) => old(self).entries_view().push(
                    LogPageEntry {
                        start_offset: old(self).position(),
                        end_offset: (old(self).position() + bytes_read) as u64,
                        log: l,
                    },
                ),
                None => old(self).entries_view(),
            }),
    {
        let start = self.position;
        self.position = self.position + bytes_read;
        match log {
            Some(l) => {
                self.entries.push(LogPageEntry { start_offset: start, end_offset: self.position, log: l });
            },
            None => {},
        }
    }

    /// The records collected, in file order.
    pub fn into_entries(self) -> (entries: Vec<LogPageEntry>)
        ensures
            entries@ == self.entries_view(),
    {
        self.entries
    }
}

/// Reading forwards keeps the records in file order: if they were in order
/// and ended at or before the position, they still are after a line is taken.
pub proof fn lemma_forward_reader_keeps_order(
    old_reader: ForwardLogReader,
    bytes_read: u64,
    log: Option<Log>,
    new_reader: ForwardLogReader,
)
    requires
        entries_in_order(old_reader.entries_view(), old_reader.position()),
        old_reader.position() + bytes_read <= u64::MAX,
        new_reader.position() == old_reader.position() + bytes_read,
        new_reader.entries_view() == (match log {
            Some(l) => old_reader.entries_view().push(
                LogPageEntry {
                    start_offset: old_reader.position(),
                    end_offset: (old_reader.position() + bytes_read) as u64,
                    log: l,
                },
            ),
            None => old_reader.entries_view(),
        }),
    ensures
        entries_in_order(new_reader.entries_view(), new_reader.position()),
{
    let old_e = old_reader.entries_view();
    let new_e = new_reader.entries_view();
    assert forall|i: int, j: int| 0 <= i < j < new_e.len() implies #[trigger] new_e[i].end_offset
        <= #[trigger] new_e[j].start_offset by {
        if j < old_e.len() {
            assert(new_e[i] == old_e[i] && new_e[j] == old_e[j]);
        } else {
            assert(new_e[i] == old_e[i]);
        }
    }
    assert forall|i: int| 0 <= i < new_e.len() implies #[trigger] new_e[i].end_offset <= new_reader.position() by {
        if i < old_e.len() {
            assert(new_e[i] == old_e[i]);
        }
    }
    assert forall|i: int| 0 <= i < new_e.len() implies #[trigger] new_e[i].start_offset <= new_e[i].end_offset by {
        if i < old_e.len() {
            assert(new_e[i] == old_e[i]);
        }
    }
}


/// The platform facts that decide where log files lie.
pub enum Platform {
    /// A Unix-like system: logs lie under `/var/lib/nomos`.
    Unix,
    /// Windows: logs lie under the `APPDATA` directory, or the error met
    /// while reading that variable.
    Windows { appdata: Result<String, String> },
}

/// A file path: `root` joined with each of `components` in turn.
#[derive(Clone, Debug)]
pub struct LogFilePath {
    pub root: String,
    pub components: Vec<String>,
}

impl LogFilePath {
    /// The root and the components, as character sequences.
    pub open spec fn parts(&self) -> (Seq<char>, Seq<Seq<char>>) {
        (self.root@, self.components@.map_values(|c: String| c@))
    }
}

/// The components below the data directory that lead to the log of `result_id`.
pub open spec fn log_components(result_id: Seq<char>) -> Seq<Seq<char>> {
    seq!["job_results"@, result_id, "log"@]
}

/// Where the log of a job result is written: `/var/lib/nomos/job_results/<id>/log`
/// on Unix, `<APPDATA>/nomos/job_results/<id>/log` on Windows.
pub open spec fn spec_primary_log_file_path(result_id: Seq<char>, platform: Platform) -> Result<
    (Seq<char>, Seq<Seq<char>>),
    Seq<char>,
> {
    match platform {
        Platform::Unix => Ok(("/var/lib/nomos"@, log_components(result_id))),
        Platform::Windows { appdata } => match appdata {
            Ok(dir) => Ok((dir@, seq!["nomos"@] + log_components(result_id))),
            Err(e) => Err(e@),
        },
    }
}

/// Where older versions wrote the log of a job result:
/// `/var/log/nomos/job_results/<id>/log` on Unix, the primary path on Windows.
pub open spec fn spec_legacy_log_file_path(result_id: Seq<char>, platform: Platform) -> Result<
    (Seq<char>, Seq<Seq<char>>),
    Seq<char>,
> {
    match platform {
        Platform::Unix => Ok(("/var/log/nomos"@, log_components(result_id))),
        Platform::Windows { .. } => spec_primary_log_file_path(result_id, platform),
    }
}

/// A path result as character sequences.
pub open spec fn path_result_parts(r: Result<LogFilePath, String>) -> Result<
    (Seq<char>, Seq<Seq<char>>),
    Seq<char>,
> {
    match r {
        Ok(p) => Ok(p.parts()),
        Err(e) => Err(e@),
    }
}

/// `path` is the log file of `result_id`: its last two components are the
/// result id, unchanged, and `log`, below a `job_results` directory.
pub open spec fn names_log_of(path: LogFilePath, result_id: Seq<char>) -> bool {
    let c = path.components@;
    &&& c.len() >= 3
    &&& c[c.len() - 3]@ == "job_results"@
    &&& c[c.len() - 2]@ == result_id
    &&& c[c.len() - 1]@ == "log"@
}

/// Different result ids have different log paths, primary and legacy: the
/// path names the result id in full.
pub proof fn lemma_log_paths_tell_results_apart(first: Seq<char>, second: Seq<char>, platform: Platform)
    ensures
        spec_primary_log_file_path(first, platform) is Ok && spec_primary_log_file_path(first, platform)
            == spec_primary_log_file_path(second, platform) ==> first == second,
        spec_legacy_log_file_path(first, platform) is Ok && spec_legacy_log_file_path(first, platform)
            == spec_legacy_log_file_path(second, platform) ==> first == second,
{
    lemma_log_path_names_result(first, platform);
    lemma_log_path_names_result(second, platform);
}

/// The primary and legacy log paths end with `job_results`, the result id
/// unchanged, and `log`.
pub proof fn lemma_log_path_names_result(result_id: Seq<char>, platform: Platform)
    ensures
        spec_primary_log_file_path(result_id, platform) matches Ok((_, c)) ==> c.len() >= 3 && c[c.len() - 3]
            == "job_results"@ && c[c.len() - 2] == result_id && c[c.len() - 1] == "log"@,
        spec_legacy_log_file_path(result_id, platform) matches Ok((_, c)) ==> c.len() >= 3 && c[c.len() - 3]
            == "job_results"@ && c[c.len() - 2] == result_id && c[c.len() - 1] == "log"@,
{
    if let Platform::Windows { appdata } = platform {
        if let Ok(dir) = appdata {
            let c = seq!["nomos"@] + log_components(result_id);
            assert(c[1] == "job_results"@ && c[2] == result_id && c[3] == "log"@);
        }
    }
}

/// Builds `root` joined with the log components of `result_id`.
fn log_path_under(root: String, prefix: Option<&str>, result_id: &str) -> (path: LogFilePath)
    ensures
        path.parts() == (root@, match prefix {
            Some(p) => seq![p@] + log_components(result_id@),
            None => log_components(result_id@),
        }),
        names_log_of(path, result_id@),
{
    let mut components: Vec<String> = Vec::new();
    match prefix {
        Some(p) => components.push(String::from_str(p)),
        None => {},
    }
    components.push(String::from_str("job_results"));
    components.push(String::from_str(result_id));
    components.push(String::from_str("log"));
    let path = LogFilePath { root, components };
    assert(path.parts().1 =~= match prefix {
        Some(p) => seq![p@] + log_components(result_id@),
        None => log_components(result_id@),
    });
    path
}

/// The path where the log of `result_id` is written on `platform`.
pub fn primary_log_file_path(result_id: &str, platform: &Platform) -> (path: Result<LogFilePath, String>)
    ensures
        path matches Ok(p) ==> names_log_of(p, result_id@),
        path_result_parts(path) == spec_primary_log_file_path(result_id@, *platform),
{
    match platform {
        Platform::Unix => Ok(log_path_under(String::from_str("/var/lib/nomos"), None, result_id)),
        Platform::Windows { appdata } => match appdata {
            Ok(dir) => Ok(log_path_under(dir.clone(), Some("nomos"), result_id)),
            Err(e) => Err(e.clone()),
        },
    }
}

/// The path where older versions wrote the log of `result_id` on `platform`.
pub fn legacy_log_file_path(result_id: &str, platform: &Platform) -> (path: Result<LogFilePath, String>)
    ensures
        path matches Ok(p) ==> names_log_of(p, result_id@),
        path_result_parts(path) == spec_legacy_log_file_path(result_id@, *platform),
{
    match platform {
        Platform::Unix => Ok(log_path_under(String::from_str("/var/log/nomos"), None, result_id)),
        Platform::Windows { .. } => primary_log_file_path(result_id, platform),
    }
}

/// The path from which the log of `result_id` is read: the primary path if a
/// file lies there, else the legacy path if a file lies there, else the
/// primary path. `primary_exists` and `legacy_exists` tell whether a file lies
/// at the primary and at the legacy path.
pub fn readable_log_file_path(
    result_id: &str,
    platform: &Platform,
    primary_exists: bool,
    legacy_exists: bool,
) -> (path: Result<LogFilePath, String>)
    ensures
        path matches Ok(p) ==> names_log_of(p, result_id@),
        path_result_parts(path) == (match spec_primary_log_file_path(result_id@, *platform) {
            Err(e) => Err(e),
            Ok(primary) => if primary_exists {
                Ok(primary)
            } else {
                match spec_legacy_log_file_path(result_id@, *platform) {
                    Err(e) => Err(e),
                    Ok(legacy) => if legacy_exists {
                        Ok(legacy)
                    } else {
                        Ok(primary)
                    },
                }
            },
        }),
{
    let primary = match primary_log_file_path(result_id, platform) {
        Ok(p) => p,
        Err(e) => return Err(e),
    };
    if primary_exists {
        return Ok(primary);
    }
    let legacy = match legacy_log_file_path(result_id, platform) {
        Ok(p) => p,
        Err(e) => return Err(e),
    };
    if legacy_exists {
        return Ok(legacy);
    }
    Ok(primary)
}

/// Writes and reads the log of one job result.
#[derive(Clone, Debug)]
pub struct JobLogger {
    log_filename: LogFilePath,
    job_id: String,
    result_id: String,
}

impl JobLogger {
    /// The file the logger writes to.
    pub closed spec fn log_file_view(&self) -> LogFilePath {
        self.log_filename
    }

    /// The job the logger belongs to.
    pub closed spec fn job_id_view(&self) -> Seq<char> {
        self.job_id@
    }

    /// The job result the logger belongs to.
    pub closed spec fn result_id_view(&self) -> Seq<char> {
        self.result_id@
    }

    /// A logger for `result_id` of `job_id`, writing to the primary log path on
    /// `platform`; fails as that path does.
    pub fn new(job_id: String, result_id: String, platform: &Platform) -> (logger: Result<JobLogger, String>)
        ensures
            logger matches Ok(l) ==> names_log_of(l.log_file_view(), result_id@),
            match logger {
                Ok(l) => spec_primary_log_file_path(result_id@, *platform) == Ok::<_, Seq<char>>(
                    l.log_file_view().parts(),
                ) && l.job_id_view() == job_id@ && l.result_id_view() == result_id@,
                Err(e) => spec_primary_log_file_path(result_id@, *platform) == Err::<
                    (Seq<char>, Seq<Seq<char>>),
                    _,
                >(e@),
            },
    {
        match primary_log_file_path(result_id.as_str(), platform) {
            Ok(log_filename) => Ok(JobLogger { log_filename, job_id, result_id }),
            Err(e) => Err(e),
        }
    }

    /// A logger with the given fields.
    pub fn from_parts(log_filename: LogFilePath, job_id: String, result_id: String) -> (logger: JobLogger)
        ensures
            logger.log_file_view() == log_filename,
            logger.job_id_view() == job_id@,
            logger.result_id_view() == result_id@,
    {
        JobLogger { log_filename, job_id, result_id }
    }

    /// The file the logger writes to.
    pub fn log_filename(&self) -> (path: &LogFilePath)
        ensures
            *path == self.log_file_view(),
    {
        &self.log_filename
    }

    /// The job the logger belongs to.
    pub fn job_id(&self) -> (id: &str)
        ensures
            id@ == self.job_id_view(),
    {
        self.job_id.as_str()
    }

    /// The job result the logger belongs to.
    pub fn result_id(&self) -> (id: &str)
        ensures
            id@ == self.result_id_view(),
    {
        self.result_id.as_str()
    }

    /// The record that logging `message` at `level` for `step_name` at
    /// `timestamp` writes.
    pub fn make_log(level: LogLevel, step_name: &str, message: &str, timestamp: Timestamp) -> (log: Log)
        ensures
            log.level == level,
            log.step_name@ == step_name@,
            log.message@ == message@,
            log.timestamp == timestamp,
    {
        Log {
            level,
            message: String::from_str(message),
            step_name: String::from_str(step_name),
            timestamp,
        }
    }

    /// The path from which the logger reads its log (see `readable_log_file_path`).
    pub fn readable_log_path(&self, platform: &Platform, primary_exists: bool, legacy_exists: bool) -> (path:
        Result<LogFilePath, String>)
        ensures
            path_result_parts(path) == (match spec_primary_log_file_path(self.result_id_view(), *platform) {
                Err(e) => Err(e),
                Ok(primary) => if primary_exists {
                    Ok(primary)
                } else {
                    match spec_legacy_log_file_path(self.result_id_view(), *platform) {
                        Err(e) => Err(e),
                        Ok(legacy) => if legacy_exists {
                            Ok(legacy)
                        } else {
                            Ok(primary)
                        },
                    }
                },
            }),
    {
        readable_log_file_path(self.result_id.as_str(), platform, primary_exists, legacy_exists)
    }
}

/// The forward reader keeps to its limit and to the part of the file after
/// where it started: a line taken while it wants more leaves at most `limit`
/// records, and every record starts at or after `origin` when the records
/// before did and the position was at or after `origin`.
pub proof fn lemma_forward_reader_within_limit_and_after(
    origin: u64,
    old_reader: ForwardLogReader,
    bytes_read: u64,
    log: Option<Log>,
    new_reader: ForwardLogReader,
)
    requires
        old_reader.entries_view().len() < old_reader.limit(),
        origin <= old_reader.position(),
        forall|i: int|
            0 <= i < old_reader.entries_view().len() ==> origin <= #[trigger] old_reader.entries_view()[i].start_offset,
        old_reader.position() + bytes_read <= u64::MAX,
        new_reader.position() == old_reader.position() + bytes_read,
        new_reader.limit() == old_reader.limit(),
        new_reader.entries_view() == (match log {
            Some(l) => old_reader.entries_view().push(
                LogPageEntry {
                    start_offset: old_reader.position(),
                    end_offset: (old_reader.position() + bytes_read) as u64,
                    log: l,
                },
            ),
            None => old_reader.entries_view(),
        }),
    ensures
        new_reader.entries_view().len() <= new_reader.limit(),
        origin <= new_reader.position(),
        forall|i: int|
            0 <= i < new_reader.entries_view().len() ==> origin <= #[trigger] new_reader.entries_view()[i].start_offset,
{
    let old_e = old_reader.entries_view();
    let new_e = new_reader.entries_view();
    assert forall|i: int| 0 <= i < new_e.len() implies origin <= #[trigger] new_e[i].start_offset by {
        if i < old_e.len() {
            assert(new_e[i] == old_e[i]);
        }
    }
}

} // verus!
