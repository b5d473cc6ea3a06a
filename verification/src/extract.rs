//! Section extraction: splitting a document's text into lines and folding
//! the lines into addressable units, guided by a delimiter pattern.
//!
//! A line matching the delimiter starts a new section: the previous section
//! is flushed as a unit, and the matching line becomes both the new label
//! and the seed of the new body. Other lines are cleaned and appended to
//! the running body. A delimiter that does not compile falls back to the
//! pattern `"."`, which matches every non-empty line.

use vstd::prelude::*;

use crate::cleaner::{clean_chars, clean_spec, trim_chars, trim_spec};
use crate::errors::SemanticSearchError;
use crate::rows::{input_rows_view, InputRow, InputRowModel};
use crate::strutil::{chars_of, copy_chars, push_chars, string_from_chars, subvec};

verus! {

/// Whether the regex crate accepts `pattern` as a regular expression.
pub uninterp spec fn regex_valid(pattern: Seq<char>) -> bool;

/// Whether `line` matches the regular expression `pattern`, anywhere in the
/// line.
pub uninterp spec fn regex_matches(pattern: Seq<char>, line: Seq<char>) -> bool;

/// Relies on `regex::Regex::new`: whether a pattern compiles depends on the
/// pattern alone, and the pattern `"."` compiles.
#[verifier::external_body]
fn regex_compiles(pattern: &str) -> (r: bool)
    ensures
        r == regex_valid(pattern@),
        pattern@ == "."@ ==> r,
{
    regex::Regex::new(pattern).is_ok()
}

/// Relies on `regex::Regex::new` and `regex::Regex::is_match`: whether a
/// line matches depends on the pattern and the line alone.
#[verifier::external_body]
fn regex_line_matches(pattern: &str, line: &str) -> (r: bool)
    requires
        regex_valid(pattern@),
    ensures
        r == regex_matches(pattern@, line@),
{
    match regex::Regex::new(pattern) {
        Ok(re) => re.is_match(line),
        Err(_) => false,
    }
}

/// Whether the configured delimiter is a valid regular expression; when it
/// is not, extraction falls back to the pattern `"."` and the caller should
/// surface a warning.
pub fn delimiter_accepted(delimeter: &str) -> (r: bool)
    ensures
        r == regex_valid(delimeter@),
{
    regex_compiles(delimeter)
}

/// The pattern extraction actually matches against: the configured
/// delimiter, or `"."` when the delimiter is not a valid regular
/// expression.
pub open spec fn effective_pattern(delimiter: Seq<char>) -> Seq<char> {
    if regex_valid(delimiter) {
        delimiter
    } else {
        "."@
    }
}

/// The position of the first `'\n'` at or after `i`, or `s.len()` if there
/// is none.
pub open spec fn find_nl(s: Seq<char>, i: int) -> int
    decreases s.len() - i,
        when 0 <= i
{
    if i >= s.len() {
        s.len() as int
    } else if s[i] == '\n' {
        i
    } else {
        find_nl(s, i + 1)
    }
}

proof fn lemma_find_nl_bounds(s: Seq<char>, i: int)
    requires
        0 <= i <= s.len(),
    ensures
        i <= find_nl(s, i) <= s.len(),
        find_nl(s, i) < s.len() ==> s[find_nl(s, i)] == '\n',
    decreases s.len() - i,
{
    if i >= s.len() {
    } else if s[i] == '\n' {
    } else {
        lemma_find_nl_bounds(s, i + 1);
    }
}

/// A line as cut before a `'\n'`, with one trailing `'\r'` removed so that
/// `"\r\n"` line endings are recognized.
pub open spec fn strip_cr(l: Seq<char>) -> Seq<char> {
    if l.len() > 0 && l.last() == '\r' {
        l.drop_last()
    } else {
        l
    }
}

/// The lines of `s` from position `i` on, split as `str::lines` splits
/// them: at each `'\n'`, with a preceding `'\r'` dropped, and with no empty
/// final line after a trailing `'\n'`.
pub open spec fn split_lines_from(s: Seq<char>, i: int) -> Seq<Seq<char>>
    decreases s.len() - i,
        when 0 <= i
        via split_lines_from_dec
{
    if i >= s.len() {
        Seq::empty()
    } else {
        let p = find_nl(s, i);
        if p == s.len() {
            seq![s.subrange(i, p)]
        } else {
            seq![strip_cr(s.subrange(i, p))] + split_lines_from(s, p + 1)
        }
    }
}

#[via_fn]
proof fn split_lines_from_dec(s: Seq<char>, i: int) {
    if 0 <= i && i < s.len() {
        lemma_find_nl_bounds(s, i);
    }
}

/// The lines of `s`, as `str::lines` yields them.
pub open spec fn split_lines_spec(s: Seq<char>) -> Seq<Seq<char>> {
    split_lines_from(s, 0)
}

/// The views of a vector of lines.
pub open spec fn lines_view(v: Seq<Vec<char>>) -> Seq<Seq<char>> {
    v.map_values(|l: Vec<char>| l@)
}

fn find_nl_exec(s: &Vec<char>, start: usize) -> (p: usize)
    requires
        start <= s@.len(),
    ensures
        p == find_nl(s@, start as int),
        start <= p <= s@.len(),
        p < s@.len() ==> s@[p as int] == '\n',
{
    let mut i: usize = start;
    while i < s.len() && s[i] != '\n'
        invariant
            start <= i <= s@.len(),
            find_nl(s@, start as int) == find_nl(s@, i as int),
        decreases s@.len() - i,
    {
        i = i + 1;
    }
    i
}

/// Splits a document's characters into its lines.
pub(crate) fn split_lines(s: &Vec<char>) -> (out: Vec<Vec<char>>)
    ensures
        lines_view(out@) == split_lines_spec(s@),
{
    let mut out: Vec<Vec<char>> = Vec::new();
    let mut i: usize = 0;
    while i < s.len()
        invariant
            i <= s@.len(),
            lines_view(out@) + split_lines_from(s@, i as int) == split_lines_from(s@, 0),
        decreases s@.len() - i,
    {
        let p = find_nl_exec(s, i);
        let ghost prev = lines_view(out@);
        if p == s.len() {
            let piece = subvec(s, i, p);
            out.push(piece);
            proof {
                assert(lines_view(out@) =~= prev + seq![s@.subrange(i as int, p as int)]);
                assert(prev + (seq![s@.subrange(i as int, p as int)])
                    =~= prev + split_lines_from(s@, i as int));
            }
            i = p;
            proof {
                assert(lines_view(out@) + split_lines_from(s@, i as int) =~= lines_view(out@));
            }
        } else {
            let mut piece = subvec(s, i, p);
            if piece.len() > 0 && piece[piece.len() - 1] == '\r' {
                piece.pop();
                proof {
                    assert(piece@ =~= strip_cr(s@.subrange(i as int, p as int)));
                }
            }
            proof {
                assert(piece@ == strip_cr(s@.subrange(i as int, p as int)));
            }
            out.push(piece);
            proof {
                assert(lines_view(out@) =~= prev + seq![strip_cr(s@.subrange(i as int, p as int))]);
                assert(prev + (seq![strip_cr(s@.subrange(i as int, p as int))] + split_lines_from(
                    s@,
                    p + 1,
                )) =~= lines_view(out@) + split_lines_from(s@, p + 1));
            }
            i = p + 1;
        }
    }
    proof {
        assert(lines_view(out@) + split_lines_from(s@, i as int) =~= lines_view(out@));
    }
    out
}

/// Flushes a pending section: unless both the label and the body are blank,
/// and unless both clean to nothing, a unit with the cleaned label and the
/// cleaned body is appended.
pub open spec fn flush_unit(
    name: Seq<char>,
    mtime: Seq<char>,
    header: Seq<char>,
    body: Seq<char>,
    acc: Seq<InputRowModel>,
) -> Seq<InputRowModel> {
    if trim_spec(header).len() == 0 && trim_spec(body).len() == 0 {
        acc
    } else {
        let st = clean_spec(header);
        let bt = clean_spec(body);
        if st.len() == 0 && bt.len() == 0 {
            acc
        } else {
            acc.push(InputRowModel { name, mtime, section: st, body: bt })
        }
    }
}

/// The extraction loop from line `i` on: a matching line flushes the
/// pending section and seeds the next one; any other line seeds the label
/// if none exists yet and appends its cleaned text to the running body;
/// the last line flushes whatever is pending.
pub open spec fn extract_loop(
    name: Seq<char>,
    mtime: Seq<char>,
    pattern: Seq<char>,
    lines: Seq<Seq<char>>,
    i: int,
    header: Seq<char>,
    body: Seq<char>,
    acc: Seq<InputRowModel>,
) -> Seq<InputRowModel>
    decreases lines.len() - i,
        when 0 <= i
{
    if i >= lines.len() {
        acc
    } else {
        let line = lines[i];
        if regex_matches(pattern, line) {
            let acc1 = flush_unit(name, mtime, header, body, acc);
            let acc2 = if i == lines.len() - 1 {
                flush_unit(name, mtime, line, line, acc1)
            } else {
                acc1
            };
            extract_loop(name, mtime, pattern, lines, i + 1, line, line, acc2)
        } else {
            let h = if header.len() == 0 {
                line
            } else {
                header
            };
            let cl = clean_spec(line);
            let b = if cl.len() > 0 {
                body + seq![' '] + cl
            } else {
                body
            };
            let acc2 = if i == lines.len() - 1 {
                flush_unit(name, mtime, h, b, acc)
            } else {
                acc
            };
            extract_loop(name, mtime, pattern, lines, i + 1, h, b, acc2)
        }
    }
}

/// The units extracted from `text` with delimiter `pattern`.
pub open spec fn extract_spec(
    name: Seq<char>,
    mtime: Seq<char>,
    text: Seq<char>,
    pattern: Seq<char>,
) -> Seq<InputRowModel> {
    extract_loop(
        name,
        mtime,
        pattern,
        split_lines_spec(text),
        0,
        Seq::empty(),
        Seq::empty(),
        Seq::empty(),
    )
}

/// Whether `sub` occurs as one contiguous segment of `s`.
pub open spec fn has_segment(s: Seq<char>, sub: Seq<char>) -> bool {
    exists|a: int|
        #![trigger s.subrange(a, a + sub.len())]
        0 <= a && a + sub.len() <= s.len() && s.subrange(a, a + sub.len()) == sub
}

proof fn lemma_segment_extend(b: Seq<char>, c: Seq<char>, x: Seq<char>)
    requires
        has_segment(b, x),
    ensures
        has_segment(b + c, x),
{
    let a = choose|a: int|
        #![trigger b.subrange(a, a + x.len())]
        0 <= a && a + x.len() <= b.len() && b.subrange(a, a + x.len()) == x;
    assert((b + c).subrange(a, a + x.len()) =~= b.subrange(a, a + x.len()));
}

proof fn lemma_segment_at_end(b: Seq<char>, x: Seq<char>)
    ensures
        has_segment(b + x, x),
{
    assert((b + x).subrange(b.len() as int, b.len() + x.len() as int) =~= x);
}

/// The body a section accumulates from line `i` on: the cleaned text of
/// every non-blank line up to the next delimiter match (or the end of
/// input), each appended after one separating space.
pub open spec fn section_raw_body(
    pattern: Seq<char>,
    lines: Seq<Seq<char>>,
    i: int,
    body: Seq<char>,
) -> Seq<char>
    decreases lines.len() - i,
        when 0 <= i
{
    if i >= lines.len() {
        body
    } else if regex_matches(pattern, lines[i]) {
        body
    } else {
        let cl = clean_spec(lines[i]);
        section_raw_body(
            pattern,
            lines,
            i + 1,
            if cl.len() > 0 {
                body + seq![' '] + cl
            } else {
                body
            },
        )
    }
}

proof fn lemma_section_body_monotone(
    pattern: Seq<char>,
    lines: Seq<Seq<char>>,
    i: int,
    body: Seq<char>,
    x: Seq<char>,
)
    requires
        0 <= i,
        has_segment(body, x),
    ensures
        has_segment(section_raw_body(pattern, lines, i, body), x),
    decreases lines.len() - i,
{
    if i < lines.len() && !regex_matches(pattern, lines[i]) {
        let cl = clean_spec(lines[i]);
        if cl.len() > 0 {
            lemma_segment_extend(body, seq![' '] + cl, x);
            assert(body + (seq![' '] + cl) =~= body + seq![' '] + cl);
            lemma_section_body_monotone(pattern, lines, i + 1, body + seq![' '] + cl, x);
        } else {
            lemma_section_body_monotone(pattern, lines, i + 1, body, x);
        }
    }
}

/// No loss: a line that does not match the delimiter, and whose cleaned
/// text is non-blank, contributes that text as one contiguous segment of
/// the body its section accumulates; the section's unit is then flushed
/// with the cleaned form of exactly that body.
pub proof fn lemma_no_loss_in_section(
    pattern: Seq<char>,
    lines: Seq<Seq<char>>,
    i: int,
    body: Seq<char>,
    t: int,
)
    requires
        0 <= i <= t < lines.len(),
        forall|j: int| i <= j <= t ==> !regex_matches(pattern, #[trigger] lines[j]),
        clean_spec(lines[t]).len() > 0,
    ensures
        has_segment(section_raw_body(pattern, lines, i, body), clean_spec(lines[t])),
    decreases t - i,
{
    let cl = clean_spec(lines[i]);
    let next = if cl.len() > 0 {
        body + seq![' '] + cl
    } else {
        body
    };
    if t == i {
        lemma_segment_at_end(body + seq![' '], cl);
        assert(body + seq![' '] + cl =~= (body + seq![' ']) + cl);
        lemma_section_body_monotone(pattern, lines, i + 1, next, cl);
    } else {
        lemma_no_loss_in_section(pattern, lines, i + 1, next, t);
    }
}

/// The first delimiter-matching line at or after `i`, or the number of
/// lines if the section runs to the end of input.
pub open spec fn section_end(pattern: Seq<char>, lines: Seq<Seq<char>>, i: int) -> int
    decreases lines.len() - i,
        when 0 <= i
{
    if i >= lines.len() {
        lines.len() as int
    } else if regex_matches(pattern, lines[i]) {
        i
    } else {
        section_end(pattern, lines, i + 1)
    }
}

proof fn lemma_section_end_bounds(pattern: Seq<char>, lines: Seq<Seq<char>>, i: int)
    requires
        0 <= i <= lines.len(),
    ensures
        i <= section_end(pattern, lines, i) <= lines.len(),
    decreases lines.len() - i,
{
    if i < lines.len() && !regex_matches(pattern, lines[i]) {
        lemma_section_end_bounds(pattern, lines, i + 1);
    }
}

/// The label a section settles on: the label it started with, or the first
/// of its lines once one is non-empty.
pub open spec fn section_label(lines: Seq<Seq<char>>, i: int, j: int, header: Seq<char>) -> Seq<
    char,
>
    decreases j - i,
        when i <= j
{
    if i >= j {
        header
    } else {
        section_label(
            lines,
            i + 1,
            j,
            if header.len() == 0 {
                lines[i]
            } else {
                header
            },
        )
    }
}

/// One section, one flush: the extraction from the start of a section is
/// the extraction from just past the section's end, with the section
/// flushed once as a unit made of its settled label and its accumulated
/// body, both cleaned. A section therefore contributes at most one unit,
/// and every non-blank line of it contributes to that unit alone.
pub proof fn lemma_section_flushed_once(
    name: Seq<char>,
    mtime: Seq<char>,
    pattern: Seq<char>,
    lines: Seq<Seq<char>>,
    i: int,
    header: Seq<char>,
    body: Seq<char>,
    acc: Seq<InputRowModel>,
)
    requires
        0 <= i < lines.len(),
        !regex_matches(pattern, lines[i]),
    ensures
        ({
            let j = section_end(pattern, lines, i);
            let label = section_label(lines, i, j, header);
            let raw = section_raw_body(pattern, lines, i, body);
            let flushed = flush_unit(name, mtime, label, raw, acc);
            extract_loop(name, mtime, pattern, lines, i, header, body, acc) == if j
                >= lines.len() {
                flushed
            } else {
                extract_loop(
                    name,
                    mtime,
                    pattern,
                    lines,
                    j,
                    label,
                    raw,
                    acc,
                )
            }
        }),
    decreases lines.len() - i,
{
    let j = section_end(pattern, lines, i);
    let cl = clean_spec(lines[i]);
    let h2 = if header.len() == 0 {
        lines[i]
    } else {
        header
    };
    let b2 = if cl.len() > 0 {
        body + seq![' '] + cl
    } else {
        body
    };
    if i + 1 >= lines.len() {
        assert(section_end(pattern, lines, i + 1) == lines.len() as int);
        assert(j == section_end(pattern, lines, i + 1));
        assert(section_label(lines, i, j, header) == section_label(lines, i + 1, j, h2));
        assert(section_label(lines, i + 1, j, h2) == h2);
        assert(section_raw_body(pattern, lines, i, body) == section_raw_body(
            pattern,
            lines,
            i + 1,
            b2,
        ));
        assert(section_raw_body(pattern, lines, i + 1, b2) == b2);
        assert(extract_loop(name, mtime, pattern, lines, i, header, body, acc) == extract_loop(
            name,
            mtime,
            pattern,
            lines,
            i + 1,
            h2,
            b2,
            flush_unit(name, mtime, h2, b2, acc),
        ));
        assert(extract_loop(
            name,
            mtime,
            pattern,
            lines,
            i + 1,
            h2,
            b2,
            flush_unit(name, mtime, h2, b2, acc),
        ) == flush_unit(name, mtime, h2, b2, acc));
    } else if regex_matches(pattern, lines[i + 1]) {
        assert(section_end(pattern, lines, i + 1) == i + 1);
        assert(j == section_end(pattern, lines, i + 1));
        assert(section_label(lines, i, j, header) == section_label(lines, i + 1, j, h2));
        assert(section_label(lines, i + 1, j, h2) == h2);
        assert(section_raw_body(pattern, lines, i, body) == section_raw_body(
            pattern,
            lines,
            i + 1,
            b2,
        ));
        assert(section_raw_body(pattern, lines, i + 1, b2) == b2);
        assert(extract_loop(name, mtime, pattern, lines, i, header, body, acc) == extract_loop(
            name,
            mtime,
            pattern,
            lines,
            i + 1,
            h2,
            b2,
            acc,
        ));
    } else {
        lemma_section_flushed_once(name, mtime, pattern, lines, i + 1, h2, b2, acc);
        lemma_section_end_bounds(pattern, lines, i + 1);
        assert(j == section_end(pattern, lines, i + 1));
        assert(i < j);
        assert(section_label(lines, i, j, header) == section_label(lines, i + 1, j, h2));
        assert(section_raw_body(pattern, lines, i, body) == section_raw_body(
            pattern,
            lines,
            i + 1,
            b2,
        ));
        assert(extract_loop(name, mtime, pattern, lines, i, header, body, acc) == extract_loop(
            name,
            mtime,
            pattern,
            lines,
            i + 1,
            h2,
            b2,
            acc,
        ));
    }
}

fn flush_exec(
    name: &str,
    mtime: &str,
    header: &Vec<char>,
    body: &Vec<char>,
    out: &mut Vec<InputRow>,
)
    ensures
        input_rows_view(final(out)@) == flush_unit(
            name@,
            mtime@,
            header@,
            body@,
            input_rows_view(old(out)@),
        ),
{
    let ht = trim_chars(header);
    let bt = trim_chars(body);
    if ht.len() == 0 && bt.len() == 0 {
        return ;
    }
    let st = clean_chars(header);
    let bc = clean_chars(body);
    if st.len() == 0 && bc.len() == 0 {
        return ;
    }
    let row = InputRow {
        name: String::from_str(name),
        mtime: String::from_str(mtime),
        section: string_from_chars(&st),
        body: string_from_chars(&bc),
    };
    out.push(row);
    proof {
        assert(input_rows_view(out@) =~= input_rows_view(old(out)@).push(
            InputRowModel {
                name: name@,
                mtime: mtime@,
                section: clean_spec(header@),
                body: clean_spec(body@),
            },
        ));
    }
}

/// Extracts the ordered units of one document.
///
/// Every unit carries the document name and modification time; its label is
/// the cleaned most recent delimiter-matching line, its body the cleaned
/// accumulated section text. The extraction always succeeds, and its result
/// is a function of the inputs alone.
pub fn extract_sections(name: &str, mtime: &str, text: &str, delimeter: &str) -> (res: Result<
    Vec<InputRow>,
    SemanticSearchError,
>)
    ensures
        res is Ok,
        input_rows_view(res->Ok_0@) == extract_spec(
            name@,
            mtime@,
            text@,
            effective_pattern(delimeter@),
        ),
{
    let valid = regex_compiles(delimeter);
    let pattern_str: &str = if valid {
        delimeter
    } else {
        let dot_ok = regex_compiles(".");
        assert(dot_ok);
        "."
    };
    assert(regex_valid(pattern_str@));
    assert(pattern_str@ == effective_pattern(delimeter@));
    let text_chars = chars_of(text);
    let lines = split_lines(&text_chars);
    let ghost lviews = lines_view(lines@);
    let ghost pat = effective_pattern(delimeter@);
    let mut header: Vec<char> = Vec::new();
    let mut body: Vec<char> = Vec::new();
    let mut out: Vec<InputRow> = Vec::new();
    proof {
        assert(input_rows_view(out@) =~= Seq::<InputRowModel>::empty());
    }
    let mut i: usize = 0;
    while i < lines.len()
        invariant
            i <= lines@.len(),
            lviews == lines_view(lines@),
            pat == pattern_str@,
            regex_valid(pat),
            extract_loop(
                name@,
                mtime@,
                pat,
                lviews,
                i as int,
                header@,
                body@,
                input_rows_view(out@),
            ) == extract_spec(name@, mtime@, text@, pat),
        decreases lines@.len() - i,
    {
        let line = &lines[i];
        let line_string = string_from_chars(line);
        let is_match = regex_line_matches(pattern_str, line_string.as_str());
        proof {
            assert(lviews[i as int] == line@);
        }
        if is_match {
            flush_exec(name, mtime, &header, &body, &mut out);
            header = copy_chars(line);
            body = copy_chars(line);
            if i + 1 == lines.len() {
                flush_exec(name, mtime, &header, &body, &mut out);
            }
        } else {
            if header.len() == 0 {
                header = copy_chars(line);
            }
            let cl = clean_chars(line);
            if cl.len() > 0 {
                let ghost b0 = body@;
                body.push(' ');
                push_chars(&mut body, &cl);
                proof {
                    assert(body@ =~= b0 + seq![' '] + cl@);
                }
            }
            if i + 1 == lines.len() {
                flush_exec(name, mtime, &header, &body, &mut out);
            }
        }
        i = i + 1;
    }
    Ok(out)
}

} // verus!
