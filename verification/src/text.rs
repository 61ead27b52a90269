use vstd::prelude::*;
use vstd::string::StringSliceAdditionalSpecFns;
use vstd::utf8::*;

verus! {

/// The byte that ends a line.
pub const NEWLINE: u8 = 10;

/// The carriage-return byte.
pub const CARRIAGE_RETURN: u8 = 13;

/// Position of the first newline in `buf`, or its length when it holds none.
pub open spec fn first_newline(buf: Seq<u8>) -> nat
    decreases buf.len(),
{
    if buf.len() == 0 {
        0
    } else if buf[0] == NEWLINE {
        0
    } else {
        1 + first_newline(buf.drop_first())
    }
}

/// `first_newline` is the index of a newline, or the length, with none before it.
pub proof fn lemma_first_newline(buf: Seq<u8>)
    ensures
        first_newline(buf) <= buf.len(),
        first_newline(buf) < buf.len() ==> buf[first_newline(buf) as int] == NEWLINE,
        forall|j: int| 0 <= j < first_newline(buf) ==> buf[j] != NEWLINE,
    decreases buf.len(),
{
    if buf.len() > 0 && buf[0] != NEWLINE {
        lemma_first_newline(buf.drop_first());
        assert forall|j: int| 0 <= j < first_newline(buf) implies buf[j] != NEWLINE by {
            if j > 0 {
                assert(buf[j] == buf.drop_first()[j - 1]);
            }
        }
    }
}

/// A newline at `k` with none before it is the first newline.
pub proof fn lemma_first_newline_at(buf: Seq<u8>, k: int)
    requires
        0 <= k <= buf.len(),
        k < buf.len() ==> buf[k] == NEWLINE,
        forall|j: int| 0 <= j < k ==> buf[j] != NEWLINE,
    ensures
        first_newline(buf) == k,
    decreases buf.len(),
{
    if buf.len() > 0 && k > 0 {
        assert forall|j: int| 0 <= j < k - 1 implies buf.drop_first()[j] != NEWLINE by {
            assert(buf.drop_first()[j] == buf[j + 1]);
        }
        lemma_first_newline_at(buf.drop_first(), k - 1);
    }
}


/// A line as `str::lines` yields it from a piece of text that ends with a
/// newline: the newline is dropped, and a carriage return just before it too.
pub open spec fn strip_line_ending(piece: Seq<u8>) -> Seq<u8> {
    if piece.len() > 0 && piece.last() == NEWLINE {
        let line = piece.drop_last();
        if line.len() > 0 && line.last() == CARRIAGE_RETURN {
            line.drop_last()
        } else {
            line
        }
    } else {
        piece
    }
}

/// The lines of a text, given by its UTF-8 bytes: the text is cut after each
/// newline; each piece loses its line ending (`\n` or `\r\n`); a last piece
/// without a newline is kept as it is, and no empty line follows a final
/// newline.
pub open spec fn spec_text_lines(bytes: Seq<u8>) -> Seq<Seq<u8>>
    decreases bytes.len(),
{
    if bytes.len() == 0 {
        seq![]
    } else {
        let k = first_newline(bytes) as int;
        if k < bytes.len() {
            proof {
                lemma_first_newline(bytes);
            }
            seq![strip_line_ending(bytes.take(k + 1))] + spec_text_lines(bytes.skip(k + 1))
        } else {
            seq![bytes]
        }
    }
}

/// The UTF-8 bytes of each string in `lines`.
pub open spec fn lines_bytes(lines: Seq<&str>) -> Seq<Seq<u8>> {
    lines.map_values(|l: &str| l.spec_bytes())
}

/// An index of a text's bytes that holds an ASCII byte, or that follows one,
/// is a character boundary.
pub proof fn lemma_ascii_boundaries(bytes: Seq<u8>, index: int)
    requires
        valid_utf8(bytes),
        0 <= index < bytes.len(),
        bytes[index] < 0x80,
    ensures
        is_char_boundary(bytes, index),
        is_char_boundary(bytes, index + 1),
    decreases bytes.len(),
{
    is_char_boundary_iff_not_is_continuation_byte(bytes, index);
    is_char_boundary_start_end_of_seq(bytes);
    reveal_with_fuel(is_char_boundary, 2);
    if index > 0 {
        lemma_ascii_boundaries(pop_first_scalar(bytes), index - length_of_first_scalar(bytes));
    }
}

/// A line ending: `\n` or `\r\n`.
pub open spec fn is_line_ending(ending: Seq<u8>) -> bool {
    ending == seq![NEWLINE] || ending == seq![CARRIAGE_RETURN, NEWLINE]
}

/// The lines joined, each followed by its ending.
pub open spec fn join_lines(lines: Seq<Seq<u8>>, endings: Seq<Seq<u8>>) -> Seq<u8>
    decreases lines.len(),
{
    if lines.len() == 0 || endings.len() == 0 {
        seq![]
    } else {
        lines[0] + endings[0] + join_lines(lines.drop_first(), endings.drop_first())
    }
}

/// `endings` are the endings of `lines`: one per line, each a line ending,
/// except that the last line may have none (then it is not empty); a line
/// that ends with a bare `\n` does not end with `\r`; and no line holds a
/// newline.
pub open spec fn are_endings_of(lines: Seq<Seq<u8>>, endings: Seq<Seq<u8>>) -> bool {
    &&& endings.len() == lines.len()
    &&& forall|i: int|
        0 <= i < endings.len() ==> is_line_ending(#[trigger] endings[i]) || (i == endings.len() - 1
            && endings[i].len() == 0 && lines[i].len() > 0)
    &&& forall|i: int|
        0 <= i < endings.len() && #[trigger] endings[i] == seq![NEWLINE] ==> lines[i].len() == 0
            || lines[i].last() != CARRIAGE_RETURN
    &&& forall|i: int, j: int| 0 <= i < lines.len() && 0 <= j < lines[i].len() ==> #[trigger] lines[i][j] != NEWLINE
}

/// The lines of a text give the text back: each line followed by its ending
/// (`\n`, `\r\n`, or nothing for a last line without one) joins to the whole
/// text, so no byte of a line is lost, and only line endings are left out.
pub proof fn lemma_text_lines_rejoin(bytes: Seq<u8>) -> (endings: Seq<Seq<u8>>)
    ensures
        are_endings_of(spec_text_lines(bytes), endings),
        join_lines(spec_text_lines(bytes), endings) == bytes,
    decreases bytes.len(),
{
    lemma_text_lines_have_no_newline(bytes);
    let lines = spec_text_lines(bytes);
    if bytes.len() == 0 {
        let endings: Seq<Seq<u8>> = seq![];
        assert(join_lines(lines, endings) =~= bytes);
        endings
    } else {
        lemma_first_newline(bytes);
        let k = first_newline(bytes) as int;
        if k < bytes.len() {
            let rest = bytes.skip(k + 1);
            let rest_endings = lemma_text_lines_rejoin(rest);
            let piece = bytes.take(k + 1);
            let line = strip_line_ending(piece);
            let ending: Seq<u8> = if k > 0 && bytes[k - 1] == CARRIAGE_RETURN {
                seq![CARRIAGE_RETURN, NEWLINE]
            } else {
                seq![NEWLINE]
            };
            assert(piece.last() == NEWLINE);
            assert(piece.drop_last() =~= bytes.take(k));
            if k > 0 && bytes[k - 1] == CARRIAGE_RETURN {
                assert(bytes.take(k).drop_last() =~= bytes.take(k - 1));
                assert(line + ending =~= piece);
            } else {
                assert(line + ending =~= piece);
            }
            let endings = seq![ending] + rest_endings;
            assert(lines == seq![line] + spec_text_lines(rest));
            assert(lines.drop_first() =~= spec_text_lines(rest));
            assert(endings.drop_first() =~= rest_endings);
            assert(join_lines(lines, endings) == line + ending + join_lines(spec_text_lines(rest), rest_endings));
            assert(bytes =~= piece + rest);
            assert forall|i: int|
                0 <= i < endings.len() implies is_line_ending(#[trigger] endings[i]) || (i == endings.len() - 1
                && endings[i].len() == 0 && lines[i].len() > 0) by {
                if i > 0 {
                    assert(endings[i] == rest_endings[i - 1]);
                    assert(lines[i] == spec_text_lines(rest)[i - 1]);
                }
            }
            assert forall|i: int|
                0 <= i < endings.len() && #[trigger] endings[i] == seq![NEWLINE] implies lines[i].len() == 0
                || lines[i].last() != CARRIAGE_RETURN by {
                if i > 0 {
                    assert(endings[i] == rest_endings[i - 1]);
                    assert(lines[i] == spec_text_lines(rest)[i - 1]);
                } else {
                    if !(k > 0 && bytes[k - 1] == CARRIAGE_RETURN) {
                        assert(line =~= bytes.take(k));
                        if k > 0 {
                            assert(line.last() == bytes[k - 1]);
                        }
                    } else {
                        let single: Seq<u8> = seq![NEWLINE];
                        assert(ending.len() == 2 && single.len() == 1);
                        assert(ending != single);
                    }
                }
            }
            endings
        } else {
            let endings: Seq<Seq<u8>> = seq![seq![]];
            assert(lines == seq![bytes]);
            assert(join_lines(lines.drop_first(), endings.drop_first()) =~= Seq::<u8>::empty());
            assert(join_lines(lines, endings) =~= bytes);
            endings
        }
    }
}

/// Splits `text` into its lines, as `str::lines` does.
pub fn text_lines(text: &str) -> (lines: Vec<&str>)
    ensures
        lines_bytes(lines@) == spec_text_lines(text.spec_bytes()),
        exists|endings: Seq<Seq<u8>>|
            are_endings_of(lines_bytes(lines@), endings) && #[trigger] join_lines(lines_bytes(lines@), endings)
                == text.spec_bytes(),
{
    let lines = split_text_lines(text);
    proof {
        let endings = lemma_text_lines_rejoin(text.spec_bytes());
        assert(are_endings_of(lines_bytes(lines@), endings) && join_lines(lines_bytes(lines@), endings)
            == text.spec_bytes());
    }
    lines
}

/// Splits `text` into the lines `spec_text_lines` describes.
fn split_text_lines(text: &str) -> (lines: Vec<&str>)
    ensures
        lines_bytes(lines@) == spec_text_lines(text.spec_bytes()),
{
    let mut lines: Vec<&str> = Vec::new();
    let mut rest: &str = text;
    loop
        invariant
            lines_bytes(lines@) + spec_text_lines(rest.spec_bytes()) == spec_text_lines(text.spec_bytes()),
        decreases rest.spec_bytes().len(),
    {
        let bytes = rest.as_bytes();
        let n = bytes.len();
        proof {
            encode_utf8_valid_utf8(rest@);
        }
        if n == 0 {
            assert(lines_bytes(lines@) =~= spec_text_lines(text.spec_bytes()));
            return lines;
        }
        let mut k: usize = 0;
        while k < n && bytes[k] != NEWLINE
            invariant
                n == bytes@.len(),
                k <= n,
                forall|j: int| 0 <= j < k ==> bytes@[j] != NEWLINE,
            decreases n - k,
        {
            k = k + 1;
        }
        proof {
            lemma_first_newline_at(bytes@, k as int);
        }
        let ghost old_lines = lines@;
        if k == n {
            lines.push(rest);
            assert(lines_bytes(lines@) =~= lines_bytes(old_lines).push(rest.spec_bytes()));
            assert(lines_bytes(lines@) =~= spec_text_lines(text.spec_bytes()));
            return lines;
        }
        proof {
            lemma_ascii_boundaries(bytes@, k as int);
        }
        let (head, tail) = rest.split_at(k);
        let (_newline, after) = rest.split_at(k + 1);
        let head_bytes = head.as_bytes();
        let line = if k > 0 && head_bytes[k - 1] == CARRIAGE_RETURN {
            proof {
                encode_utf8_valid_utf8(head@);
                lemma_ascii_boundaries(head_bytes@, k - 1);
            }
            let (stripped, _cr) = head.split_at(k - 1);
            stripped
        } else {
            head
        };
        proof {
            let piece = bytes@.take(k + 1);
            assert(piece.drop_last() =~= head.spec_bytes());
            if k > 0 && head_bytes@[k - 1] == CARRIAGE_RETURN {
                assert(head.spec_bytes().drop_last() =~= line.spec_bytes());
            }
            assert(strip_line_ending(piece) == line.spec_bytes());
            assert(after.spec_bytes() =~= bytes@.skip(k + 1));
        }
        lines.push(line);
        assert(lines_bytes(lines@) =~= lines_bytes(old_lines).push(line.spec_bytes()));
        assert(lines_bytes(lines@) + spec_text_lines(after.spec_bytes()) =~= spec_text_lines(text.spec_bytes()));
        rest = after;
    }
}


/// The bytes with every newline and carriage return at their end removed.
pub open spec fn spec_trim_line_end(bytes: Seq<u8>) -> Seq<u8>
    decreases bytes.len(),
{
    if bytes.len() > 0 && (bytes.last() == NEWLINE || bytes.last() == CARRIAGE_RETURN) {
        spec_trim_line_end(bytes.drop_last())
    } else {
        bytes
    }
}

/// Trimming keeps a prefix of the line, removes only newlines and carriage
/// returns, leaves none at its end, and trimming again changes nothing.
pub proof fn lemma_trim_line_end(bytes: Seq<u8>)
    ensures
        spec_trim_line_end(bytes).len() <= bytes.len(),
        spec_trim_line_end(bytes) == bytes.take(spec_trim_line_end(bytes).len() as int),
        spec_trim_line_end(bytes).len() > 0 ==> spec_trim_line_end(bytes).last() != NEWLINE
            && spec_trim_line_end(bytes).last() != CARRIAGE_RETURN,
        spec_trim_line_end(spec_trim_line_end(bytes)) == spec_trim_line_end(bytes),
        forall|j: int|
            spec_trim_line_end(bytes).len() <= j < bytes.len() ==> #[trigger] bytes[j] == NEWLINE || bytes[j]
                == CARRIAGE_RETURN,
    decreases bytes.len(),
{
    if bytes.len() > 0 && (bytes.last() == NEWLINE || bytes.last() == CARRIAGE_RETURN) {
        lemma_trim_line_end(bytes.drop_last());
        let t = spec_trim_line_end(bytes);
        assert(bytes.drop_last().take(t.len() as int) =~= bytes.take(t.len() as int));
        assert forall|j: int| t.len() <= j < bytes.len() implies #[trigger] bytes[j] == NEWLINE || bytes[j]
            == CARRIAGE_RETURN by {
            if j < bytes.len() - 1 {
                assert(bytes.drop_last()[j] == bytes[j]);
            }
        }
    } else {
        assert(bytes.take(bytes.len() as int) =~= bytes);
    }
}

/// The lines of a text hold no newline.
pub proof fn lemma_text_lines_have_no_newline(bytes: Seq<u8>)
    ensures
        forall|i: int, j: int|
            0 <= i < spec_text_lines(bytes).len() && 0 <= j < spec_text_lines(bytes)[i].len()
                ==> #[trigger] spec_text_lines(bytes)[i][j] != NEWLINE,
    decreases bytes.len(),
{
    if bytes.len() > 0 {
        lemma_first_newline(bytes);
        let k = first_newline(bytes) as int;
        let lines = spec_text_lines(bytes);
        if k < bytes.len() {
            let rest = bytes.skip(k + 1);
            lemma_text_lines_have_no_newline(rest);
            let piece = bytes.take(k + 1);
            let first = strip_line_ending(piece);
            assert(piece.last() == NEWLINE);
            assert(first.len() <= k);
            assert forall|j: int| 0 <= j < first.len() implies first[j] != NEWLINE by {
                assert(first[j] == bytes[j]);
            }
            assert forall|i: int, j: int|
                0 <= i < lines.len() && 0 <= j < lines[i].len() implies #[trigger] lines[i][j] != NEWLINE by {
                if i > 0 {
                    assert(lines[i] == spec_text_lines(rest)[i - 1]);
                }
            }
        } else {
            assert(lines[0] == bytes);
        }
    }
}

/// Removes every `\r` and `\n` at the end of `line`, as
/// `trim_end_matches(['\r', '\n'])` does.
pub fn trim_line_end(line: &str) -> (trimmed: &str)
    ensures
        trimmed.spec_bytes() == spec_trim_line_end(line.spec_bytes()),
        trimmed.spec_bytes().len() <= line.spec_bytes().len(),
        trimmed.spec_bytes() == line.spec_bytes().take(trimmed.spec_bytes().len() as int),
        forall|j: int|
            trimmed.spec_bytes().len() <= j < line.spec_bytes().len() ==> #[trigger] line.spec_bytes()[j]
                == NEWLINE || line.spec_bytes()[j] == CARRIAGE_RETURN,
        trimmed.spec_bytes().len() > 0 ==> trimmed.spec_bytes().last() != NEWLINE
            && trimmed.spec_bytes().last() != CARRIAGE_RETURN,
{
    let bytes = line.as_bytes();
    let mut k: usize = bytes.len();
    assert(bytes@.take(k as int) =~= bytes@);
    while k > 0 && (bytes[k - 1] == NEWLINE || bytes[k - 1] == CARRIAGE_RETURN)
        invariant
            k <= bytes@.len(),
            spec_trim_line_end(bytes@.take(k as int)) == spec_trim_line_end(bytes@),
            k < bytes@.len() ==> (bytes@[k as int] == NEWLINE || bytes@[k as int] == CARRIAGE_RETURN),
            forall|j: int| k <= j < bytes@.len() ==> #[trigger] bytes@[j] == NEWLINE || bytes@[j] == CARRIAGE_RETURN,
        decreases k,
    {
        assert(bytes@.take(k as int).drop_last() =~= bytes@.take(k - 1));
        k = k - 1;
    }
    proof {
        encode_utf8_valid_utf8(line@);
        is_char_boundary_start_end_of_seq(bytes@);
        if k < bytes@.len() {
            lemma_ascii_boundaries(bytes@, k as int);
        }
    }
    let (trimmed, _ending) = line.split_at(k);
    proof {
        assert(trimmed.spec_bytes() =~= bytes@.take(k as int));
    }
    trimmed
}


/// The character of the decimal digit `d` (below 10).
pub open spec fn digit_char(d: nat) -> char {
    seq!['0', '1', '2', '3', '4', '5', '6', '7', '8', '9'][d as int]
}

/// `n` in decimal, without leading zeros (`0` for zero).
pub open spec fn decimal(n: nat) -> Seq<char>
    decreases n,
{
    if n < 10 {
        seq![digit_char(n)]
    } else {
        decimal(n / 10) + seq![digit_char(n % 10)]
    }
}

/// `n` in decimal, padded with a zero to at least two digits.
pub open spec fn two_digits(n: nat) -> Seq<char> {
    if n < 10 {
        seq!['0'] + decimal(n)
    } else {
        decimal(n)
    }
}

/// The text of the decimal digit `d`.
fn digit_str(d: u64) -> (text: &'static str)
    requires
        d < 10,
    ensures
        text@ == seq![digit_char(d as nat)],
{
    match d {
        0 => {
            proof {
                reveal_strlit("0");
            }
            "0"
        },
        1 => {
            proof {
                reveal_strlit("1");
            }
            "1"
        },
        2 => {
            proof {
                reveal_strlit("2");
            }
            "2"
        },
        3 => {
            proof {
                reveal_strlit("3");
            }
            "3"
        },
        4 => {
            proof {
                reveal_strlit("4");
            }
            "4"
        },
        5 => {
            proof {
                reveal_strlit("5");
            }
            "5"
        },
        6 => {
            proof {
                reveal_strlit("6");
            }
            "6"
        },
        7 => {
            proof {
                reveal_strlit("7");
            }
            "7"
        },
        8 => {
            proof {
                reveal_strlit("8");
            }
            "8"
        },
        _ => {
            proof {
                reveal_strlit("9");
            }
            "9"
        },
    }
}

/// Appends `n` in decimal to `text`.
pub fn push_decimal(text: &mut String, n: u64)
    ensures
        final(text)@ == old(text)@ + decimal(n as nat),
    decreases n,
{
    if n >= 10 {
        push_decimal(text, n / 10);
    }
    text.append(digit_str(n % 10));
    assert(text@ =~= old(text)@ + decimal(n as nat));
}

/// Appends `n` in decimal, padded with a zero to at least two digits, to `text`.
pub fn push_two_digits(text: &mut String, n: u64)
    ensures
        final(text)@ == old(text)@ + two_digits(n as nat),
{
    if n < 10 {
        text.append("0");
        proof {
            reveal_strlit("0");
        }
    }
    push_decimal(text, n);
    assert(text@ =~= old(text)@ + two_digits(n as nat));
}

} // verus!
