//! The persisted tabular cache format.
//!
//! Each record holds four fields separated by commas and ended by a line
//! feed. A field is written verbatim unless it holds a comma, a quote, a
//! line break, or leading or trailing whitespace; such a field is enclosed
//! in quotes, with embedded quotes doubled. The embedding field is a
//! comma-joined scalar list, so it is always quoted; the outer format is
//! thereby kept distinct from the inner one. Decoding trims unquoted
//! fields, demands exactly four fields per record, and rejects malformed
//! input rather than ignoring it.

use vstd::prelude::*;

use crate::cleaner::trim_spec;
use crate::errors::SemanticSearchError;
use crate::rows::{
    embedding_rows_view, input_rows_view, EmbeddingRow, EmbeddingRowModel, InputRow, InputRowModel,
};
use crate::strutil::{chars_of, is_ws, is_ws_char, push_chars, string_from_chars, subvec};

verus! {

/// One parsed record: four fields.
pub ghost struct RawRecord {
    pub f0: Seq<char>,
    pub f1: Seq<char>,
    pub f2: Seq<char>,
    pub f3: Seq<char>,
}

/// Whether a field must be quoted: it holds a separator, a quote, a line
/// break, or whitespace at either end (which decoding would otherwise
/// trim away).
pub open spec fn needs_quote(f: Seq<char>) -> bool {
    ||| f.contains(',')
    ||| f.contains('"')
    ||| f.contains('\n')
    ||| f.contains('\r')
    ||| (f.len() > 0 && (is_ws_char(f[0]) || is_ws_char(f.last())))
}

/// `f` with every quote doubled.
pub open spec fn esc_quotes(f: Seq<char>) -> Seq<char>
    decreases f.len(),
{
    if f.len() == 0 {
        Seq::empty()
    } else {
        esc_quotes(f.drop_last()) + (if f.last() == '"' {
            seq!['"', '"']
        } else {
            seq![f.last()]
        })
    }
}

/// The encoding of one field.
pub open spec fn enc_field(f: Seq<char>) -> Seq<char> {
    if needs_quote(f) {
        seq!['"'] + esc_quotes(f) + seq!['"']
    } else {
        f
    }
}

/// The encoding of one record: four encoded fields, comma-separated, ended
/// by a line feed.
pub open spec fn enc_record(r: RawRecord) -> Seq<char> {
    enc_field(r.f0) + seq![','] + enc_field(r.f1) + seq![','] + enc_field(r.f2) + seq![',']
        + enc_field(r.f3) + seq!['\n']
}

/// The encoding of a sequence of records.
pub open spec fn enc_records(rs: Seq<RawRecord>) -> Seq<char>
    decreases rs.len(),
{
    if rs.len() == 0 {
        Seq::empty()
    } else {
        enc_record(rs[0]) + enc_records(rs.drop_first())
    }
}

/// The record form of a cache entry.
pub open spec fn record_of_embedding(r: EmbeddingRowModel) -> RawRecord {
    RawRecord { f0: r.name, f1: r.mtime, f2: r.header, f3: r.embedding }
}

/// The record form of an extracted unit.
pub open spec fn record_of_input(r: InputRowModel) -> RawRecord {
    RawRecord { f0: r.name, f1: r.mtime, f2: r.section, f3: r.body }
}

/// The header record of the cache file.
pub open spec fn embedding_header() -> RawRecord {
    RawRecord { f0: "name"@, f1: "mtime"@, f2: "header"@, f3: "embedding"@ }
}

/// The header record of the unit file.
pub open spec fn input_header() -> RawRecord {
    RawRecord { f0: "name"@, f1: "mtime"@, f2: "section"@, f3: "body"@ }
}

/// The encoded cache file: the header record (on the cycle's first write
/// only), then one record per entry.
pub open spec fn enc_embedding_csv(rows: Seq<EmbeddingRowModel>, with_header: bool) -> Seq<char> {
    let body = enc_records(rows.map_values(|r: EmbeddingRowModel| record_of_embedding(r)));
    if with_header {
        enc_record(embedding_header()) + body
    } else {
        body
    }
}

/// The encoded unit file: the header record, then one record per unit.
pub open spec fn enc_input_csv(rows: Seq<InputRowModel>) -> Seq<char> {
    enc_record(input_header()) + enc_records(
        rows.map_values(|r: InputRowModel| record_of_input(r)),
    )
}

fn field_needs_quote(f: &Vec<char>) -> (r: bool)
    ensures
        r == needs_quote(f@),
{
    let n = f.len();
    if n > 0 && (is_ws(f[0]) || is_ws(f[n - 1])) {
        return true;
    }
    let mut i: usize = 0;
    while i < n
        invariant
            i <= n,
            n == f@.len(),
            forall|j: int|
                0 <= j < i ==> #[trigger] f@[j] != ',' && f@[j] != '"' && f@[j] != '\n' && f@[j]
                    != '\r',
        decreases n - i,
    {
        let c = f[i];
        if c == ',' || c == '"' || c == '\n' || c == '\r' {
            return true;
        }
        i = i + 1;
    }
    proof {
        assert(!f@.contains(',') && !f@.contains('"') && !f@.contains('\n') && !f@.contains('\r'))
            by {
            if f@.contains(',') {
                let j = choose|j: int| 0 <= j < f@.len() && f@[j] == ',';
            }
            if f@.contains('"') {
                let j = choose|j: int| 0 <= j < f@.len() && f@[j] == '"';
            }
            if f@.contains('\n') {
                let j = choose|j: int| 0 <= j < f@.len() && f@[j] == '\n';
            }
            if f@.contains('\r') {
                let j = choose|j: int| 0 <= j < f@.len() && f@[j] == '\r';
            }
        }
    }
    false
}

fn push_enc_field(out: &mut Vec<char>, f: &Vec<char>)
    ensures
        final(out)@ == old(out)@ + enc_field(f@),
{
    if field_needs_quote(f) {
        out.push('"');
        let ghost mid = out@;
        let mut i: usize = 0;
        while i < f.len()
            invariant
                i <= f@.len(),
                out@ == mid + esc_quotes(f@.take(i as int)),
            decreases f@.len() - i,
        {
            let c = f[i];
            proof {
                assert(f@.take(i + 1).drop_last() =~= f@.take(i as int));
                assert(f@.take(i + 1).last() == f@[i as int]);
            }
            if c == '"' {
                out.push('"');
                out.push('"');
            } else {
                out.push(c);
            }
            proof {
                assert(out@ =~= mid + esc_quotes(f@.take(i + 1)));
            }
            i = i + 1;
        }
        out.push('"');
        proof {
            assert(f@.take(f@.len() as int) =~= f@);
            assert(out@ =~= old(out)@ + enc_field(f@));
        }
    } else {
        push_chars(out, f);
    }
}

fn push_enc_record(out: &mut Vec<char>, f0: &Vec<char>, f1: &Vec<char>, f2: &Vec<char>, f3: &Vec<
    char,
>)
    ensures
        final(out)@ == old(out)@ + enc_record(
            RawRecord { f0: f0@, f1: f1@, f2: f2@, f3: f3@ },
        ),
{
    push_enc_field(out, f0);
    out.push(',');
    push_enc_field(out, f1);
    out.push(',');
    push_enc_field(out, f2);
    out.push(',');
    push_enc_field(out, f3);
    out.push('\n');
    proof {
        assert(out@ =~= old(out)@ + enc_record(
            RawRecord { f0: f0@, f1: f1@, f2: f2@, f3: f3@ },
        ));
    }
}

/// Serializes cache entries as the persisted cache file; the header record
/// is written only on the cycle's first write.
pub fn embedding_rows_to_csv(rows: &Vec<EmbeddingRow>, with_header: bool) -> (s: String)
    ensures
        s@ == enc_embedding_csv(embedding_rows_view(rows@), with_header),
{
    let ghost recs = embedding_rows_view(rows@).map_values(
        |r: EmbeddingRowModel| record_of_embedding(r),
    );
    let mut out: Vec<char> = Vec::new();
    if with_header {
        let h0 = chars_of("name");
        let h1 = chars_of("mtime");
        let h2 = chars_of("header");
        let h3 = chars_of("embedding");
        push_enc_record(&mut out, &h0, &h1, &h2, &h3);
    }
    let ghost head = out@;
    let mut i: usize = 0;
    while i < rows.len()
        invariant
            i <= rows@.len(),
            recs == embedding_rows_view(rows@).map_values(
                |r: EmbeddingRowModel| record_of_embedding(r),
            ),
            out@ == head + enc_records(recs.take(i as int)),
        decreases rows@.len() - i,
    {
        let r = &rows[i];
        let n = chars_of(r.name.as_str());
        let m = chars_of(r.mtime.as_str());
        let h = chars_of(r.header.as_str());
        let e = chars_of(r.embedding.as_str());
        push_enc_record(&mut out, &n, &m, &h, &e);
        proof {
            lemma_enc_records_snoc(recs.take(i + 1));
            assert(recs.take(i + 1).drop_last() =~= recs.take(i as int));
            assert(recs.take(i + 1).last() == record_of_embedding(rows@[i as int]@));
            assert(out@ =~= head + enc_records(recs.take(i + 1)));
        }
        i = i + 1;
    }
    proof {
        assert(recs.take(recs.len() as int) =~= recs);
    }
    string_from_chars(&out)
}

/// Serializes extracted units as the persisted unit file.
pub fn input_rows_to_csv(rows: &Vec<InputRow>) -> (s: String)
    ensures
        s@ == enc_input_csv(input_rows_view(rows@)),
{
    let ghost recs = input_rows_view(rows@).map_values(|r: InputRowModel| record_of_input(r));
    let mut out: Vec<char> = Vec::new();
    let h0 = chars_of("name");
    let h1 = chars_of("mtime");
    let h2 = chars_of("section");
    let h3 = chars_of("body");
    push_enc_record(&mut out, &h0, &h1, &h2, &h3);
    let ghost head = out@;
    let mut i: usize = 0;
    while i < rows.len()
        invariant
            i <= rows@.len(),
            recs == input_rows_view(rows@).map_values(|r: InputRowModel| record_of_input(r)),
            out@ == head + enc_records(recs.take(i as int)),
        decreases rows@.len() - i,
    {
        let r = &rows[i];
        let n = chars_of(r.name.as_str());
        let m = chars_of(r.mtime.as_str());
        let se = chars_of(r.section.as_str());
        let b = chars_of(r.body.as_str());
        push_enc_record(&mut out, &n, &m, &se, &b);
        proof {
            lemma_enc_records_snoc(recs.take(i + 1));
            assert(recs.take(i + 1).drop_last() =~= recs.take(i as int));
            assert(recs.take(i + 1).last() == record_of_input(rows@[i as int]@));
            assert(out@ =~= head + enc_records(recs.take(i + 1)));
        }
        i = i + 1;
    }
    proof {
        assert(recs.take(recs.len() as int) =~= recs);
    }
    string_from_chars(&out)
}

/// The first position at or after `i` holding a field separator or a
/// record end, or `s.len()`.
pub open spec fn find_sep(s: Seq<char>, i: int) -> int
    decreases s.len() - i,
        when 0 <= i
{
    if i >= s.len() {
        s.len() as int
    } else if s[i] == ',' || s[i] == '\n' {
        i
    } else {
        find_sep(s, i + 1)
    }
}

proof fn lemma_find_sep_bounds(s: Seq<char>, i: int)
    requires
        0 <= i <= s.len(),
    ensures
        i <= find_sep(s, i) <= s.len(),
    decreases s.len() - i,
{
    if i < s.len() && !(s[i] == ',' || s[i] == '\n') {
        lemma_find_sep_bounds(s, i + 1);
    }
}

/// The remainder of a quoted field, starting inside the quotes: a doubled
/// quote stands for one quote, a single quote closes the field. Returns
/// the field text and the position just after the closing quote; an
/// unterminated field is malformed.
pub open spec fn parse_quoted(s: Seq<char>, i: int) -> Option<(Seq<char>, int)>
    decreases s.len() - i,
        when 0 <= i
{
    if i >= s.len() {
        None
    } else if s[i] == '"' {
        if i + 1 < s.len() && s[i + 1] == '"' {
            match parse_quoted(s, i + 2) {
                Some(r) => Some((seq!['"'] + r.0, r.1)),
                None => None,
            }
        } else {
            Some((Seq::empty(), i + 1))
        }
    } else {
        match parse_quoted(s, i + 1) {
            Some(r) => Some((seq![s[i]] + r.0, r.1)),
            None => None,
        }
    }
}

proof fn lemma_parse_quoted_progress(s: Seq<char>, i: int)
    requires
        0 <= i,
        parse_quoted(s, i) is Some,
    ensures
        i < parse_quoted(s, i)->Some_0.1 <= s.len(),
    decreases s.len() - i,
{
    if i < s.len() {
        if s[i] == '"' {
            if i + 1 < s.len() && s[i + 1] == '"' {
                lemma_parse_quoted_progress(s, i + 2);
            }
        } else {
            lemma_parse_quoted_progress(s, i + 1);
        }
    }
}

/// One field, starting at `i`: a quote begins a quoted field; anything
/// else is read up to the next separator and trimmed. Returns the field
/// and the position of its terminator (a separator, a record end, or the
/// end of input).
pub open spec fn parse_field(s: Seq<char>, i: int) -> Option<(Seq<char>, int)> {
    if 0 <= i && i < s.len() && s[i] == '"' {
        parse_quoted(s, i + 1)
    } else if 0 <= i && i <= s.len() {
        Some((trim_spec(s.subrange(i, find_sep(s, i))), find_sep(s, i)))
    } else {
        None
    }
}

proof fn lemma_parse_field_progress(s: Seq<char>, i: int)
    requires
        0 <= i <= s.len(),
        parse_field(s, i) is Some,
    ensures
        i <= parse_field(s, i)->Some_0.1 <= s.len(),
{
    if i < s.len() && s[i] == '"' {
        lemma_parse_quoted_progress(s, i + 1);
    } else {
        lemma_find_sep_bounds(s, i);
    }
}

/// One record of exactly four fields, starting at `i`; returns the record
/// and the position after its terminating line feed (or the end of input).
/// A record with any other number of fields is malformed.
pub open spec fn parse_record(s: Seq<char>, i: int) -> Option<(RawRecord, int)> {
    match parse_field(s, i) {
        None => None,
        Some((f0, i0)) => if i0 < s.len() && s[i0] == ',' {
            match parse_field(s, i0 + 1) {
                None => None,
                Some((f1, i1)) => if i1 < s.len() && s[i1] == ',' {
                    match parse_field(s, i1 + 1) {
                        None => None,
                        Some((f2, i2)) => if i2 < s.len() && s[i2] == ',' {
                            match parse_field(s, i2 + 1) {
                                None => None,
                                Some((f3, i3)) => if i3 >= s.len() {
                                    Some((RawRecord { f0, f1, f2, f3 }, s.len() as int))
                                } else if s[i3] == '\n' {
                                    Some((RawRecord { f0, f1, f2, f3 }, i3 + 1))
                                } else {
                                    None
                                },
                            }
                        } else {
                            None
                        },
                    }
                } else {
                    None
                },
            }
        } else {
            None
        },
    }
}

proof fn lemma_parse_record_progress(s: Seq<char>, i: int)
    requires
        0 <= i <= s.len(),
        parse_record(s, i) is Some,
    ensures
        i < parse_record(s, i)->Some_0.1 <= s.len(),
{
    let (f0, i0) = parse_field(s, i)->Some_0;
    lemma_parse_field_progress(s, i);
    let (f1, i1) = parse_field(s, i0 + 1)->Some_0;
    lemma_parse_field_progress(s, i0 + 1);
    let (f2, i2) = parse_field(s, i1 + 1)->Some_0;
    lemma_parse_field_progress(s, i1 + 1);
    let (f3, i3) = parse_field(s, i2 + 1)->Some_0;
    lemma_parse_field_progress(s, i2 + 1);
}

/// All records from `i` to the end of input.
pub open spec fn parse_records(s: Seq<char>, i: int) -> Option<Seq<RawRecord>>
    decreases s.len() - i,
        when 0 <= i
        via parse_records_dec
{
    if i >= s.len() {
        Some(Seq::empty())
    } else {
        match parse_record(s, i) {
            None => None,
            Some((r, n)) => match parse_records(s, n) {
                None => None,
                Some(rest) => Some(seq![r] + rest),
            },
        }
    }
}

#[via_fn]
proof fn parse_records_dec(s: Seq<char>, i: int) {
    if 0 <= i && i < s.len() {
        if parse_record(s, i) is Some {
            lemma_parse_record_progress(s, i);
        }
    }
}

/// The cache entry a record stands for.
pub open spec fn embedding_of_record(r: RawRecord) -> EmbeddingRowModel {
    EmbeddingRowModel { name: r.f0, mtime: r.f1, header: r.f2, embedding: r.f3 }
}

/// The extracted unit a record stands for.
pub open spec fn input_of_record(r: RawRecord) -> InputRowModel {
    InputRowModel { name: r.f0, mtime: r.f1, section: r.f2, body: r.f3 }
}

/// The cache entries a persisted cache file holds: nothing for an empty
/// file; otherwise the expected header record followed by one record per
/// entry.
pub open spec fn parse_embedding_csv(s: Seq<char>) -> Option<Seq<EmbeddingRowModel>> {
    if s.len() == 0 {
        Some(Seq::empty())
    } else {
        match parse_record(s, 0) {
            None => None,
            Some((h, n)) => if h == embedding_header() {
                match parse_records(s, n) {
                    None => None,
                    Some(rs) => Some(rs.map_values(|r: RawRecord| embedding_of_record(r))),
                }
            } else {
                None
            },
        }
    }
}

/// The units a persisted unit file holds.
pub open spec fn parse_input_csv(s: Seq<char>) -> Option<Seq<InputRowModel>> {
    if s.len() == 0 {
        Some(Seq::empty())
    } else {
        match parse_record(s, 0) {
            None => None,
            Some((h, n)) => if h == input_header() {
                match parse_records(s, n) {
                    None => None,
                    Some(rs) => Some(rs.map_values(|r: RawRecord| input_of_record(r))),
                }
            } else {
                None
            },
        }
    }
}

fn find_sep_exec(s: &Vec<char>, start: usize) -> (p: usize)
    requires
        start <= s@.len(),
    ensures
        p == find_sep(s@, start as int),
        start <= p <= s@.len(),
{
    proof {
        lemma_find_sep_bounds(s@, start as int);
    }
    let mut i: usize = start;
    while i < s.len() && s[i] != ',' && s[i] != '\n'
        invariant
            start <= i <= s@.len(),
            find_sep(s@, start as int) == find_sep(s@, i as int),
        decreases s@.len() - i,
    {
        i = i + 1;
    }
    i
}

fn parse_quoted_exec(s: &Vec<char>, start: usize) -> (r: Option<(Vec<char>, usize)>)
    requires
        start <= s@.len(),
    ensures
        match r {
            Some(t) => parse_quoted(s@, start as int) == Some((t.0@, t.1 as int)) && t.1
                <= s@.len(),
            None => parse_quoted(s@, start as int) is None,
        },
{
    let mut acc: Vec<char> = Vec::new();
    let mut i: usize = start;
    while i < s.len()
        invariant
            start <= i <= s@.len(),
            match parse_quoted(s@, i as int) {
                Some(t) => parse_quoted(s@, start as int) == Some((acc@ + t.0, t.1)),
                None => parse_quoted(s@, start as int) is None,
            },
        decreases s@.len() - i,
    {
        let c = s[i];
        if c == '"' {
            if i + 1 < s.len() && s[i + 1] == '"' {
                acc.push('"');
                proof {
                    if parse_quoted(s@, i + 2) is Some {
                        let t = parse_quoted(s@, i + 2)->Some_0;
                        assert(acc@ + t.0 =~= acc@.drop_last() + (seq!['"'] + t.0));
                    }
                }
                i = i + 2;
            } else {
                proof {
                    assert(acc@ + Seq::<char>::empty() =~= acc@);
                    if i + 1 < s@.len() {
                        lemma_parse_quoted_progress(s@, i as int);
                    }
                }
                return Some((acc, i + 1));
            }
        } else {
            acc.push(c);
            proof {
                if parse_quoted(s@, i + 1) is Some {
                    let t = parse_quoted(s@, i + 1)->Some_0;
                    assert(acc@ + t.0 =~= acc@.drop_last() + (seq![s@[i as int]] + t.0));
                }
            }
            i = i + 1;
        }
    }
    None
}

fn parse_field_exec(s: &Vec<char>, start: usize) -> (r: Option<(Vec<char>, usize)>)
    requires
        start <= s@.len(),
    ensures
        match r {
            Some(t) => parse_field(s@, start as int) == Some((t.0@, t.1 as int)) && t.1
                <= s@.len(),
            None => parse_field(s@, start as int) is None,
        },
{
    if start < s.len() && s[start] == '"' {
        parse_quoted_exec(s, start + 1)
    } else {
        let e = find_sep_exec(s, start);
        let raw = subvec(s, start, e);
        let trimmed = crate::cleaner::trim_chars(&raw);
        Some((trimmed, e))
    }
}

fn parse_record_exec(s: &Vec<char>, start: usize) -> (r: Option<
    (Vec<char>, Vec<char>, Vec<char>, Vec<char>, usize),
>)
    requires
        start <= s@.len(),
    ensures
        match r {
            Some(t) => parse_record(s@, start as int) == Some(
                (RawRecord { f0: t.0@, f1: t.1@, f2: t.2@, f3: t.3@ }, t.4 as int),
            ) && start < t.4 <= s@.len(),
            None => parse_record(s@, start as int) is None,
        },
{
    let (f0, i0) = match parse_field_exec(s, start) {
        Some(t) => t,
        None => {
            return None;
        },
    };
    if !(i0 < s.len() && s[i0] == ',') {
        return None;
    }
    let (f1, i1) = match parse_field_exec(s, i0 + 1) {
        Some(t) => t,
        None => {
            return None;
        },
    };
    if !(i1 < s.len() && s[i1] == ',') {
        return None;
    }
    let (f2, i2) = match parse_field_exec(s, i1 + 1) {
        Some(t) => t,
        None => {
            return None;
        },
    };
    if !(i2 < s.len() && s[i2] == ',') {
        return None;
    }
    let (f3, i3) = match parse_field_exec(s, i2 + 1) {
        Some(t) => t,
        None => {
            return None;
        },
    };
    if i3 >= s.len() {
        proof {
            lemma_parse_record_progress(s@, start as int);
        }
        Some((f0, f1, f2, f3, s.len()))
    } else if s[i3] == '\n' {
        proof {
            lemma_parse_record_progress(s@, start as int);
        }
        Some((f0, f1, f2, f3, i3 + 1))
    } else {
        None
    }
}

/// Reads the persisted cache file back into entries; a malformed file is
/// an error, a missing or empty file is an empty cache.
pub fn embedding_rows_from_csv(text: &str) -> (res: Result<Vec<EmbeddingRow>, SemanticSearchError>)
    ensures
        res is Ok <==> parse_embedding_csv(text@) is Some,
        res matches Ok(rows) ==> Some(embedding_rows_view(rows@)) == parse_embedding_csv(text@),
        res matches Err(e) ==> e@ == "Failed to deserialize embedding.csv"@,
{
    let s = chars_of(text);
    if s.len() == 0 {
        let out: Vec<EmbeddingRow> = Vec::new();
        proof {
            assert(embedding_rows_view(out@) =~= Seq::<EmbeddingRowModel>::empty());
            assert(parse_embedding_csv(text@) == Some(Seq::<EmbeddingRowModel>::empty()));
        }
        return Ok(out);
    }
    let parsed_header = parse_record_exec(&s, 0);
    let (h0, h1, h2, h3, n) = match parsed_header {
        Some(t) => t,
        None => {
            return Err(
                SemanticSearchError::new(
                    String::from_str("Failed to deserialize embedding.csv"),
                ),
            );
        },
    };
    let good = string_from_chars(&h0) == String::from_str("name") && string_from_chars(&h1)
        == String::from_str("mtime") && string_from_chars(&h2) == String::from_str("header")
        && string_from_chars(&h3) == String::from_str("embedding");
    if !good {
        proof {
            assert(RawRecord { f0: h0@, f1: h1@, f2: h2@, f3: h3@ } != embedding_header());
        }
        return Err(
            SemanticSearchError::new(String::from_str("Failed to deserialize embedding.csv")),
        );
    }
    proof {
        assert(RawRecord { f0: h0@, f1: h1@, f2: h2@, f3: h3@ } == embedding_header());
    }
    let mut out: Vec<EmbeddingRow> = Vec::new();
    proof {
        assert(embedding_rows_view(out@) =~= Seq::<EmbeddingRowModel>::empty());
        if parse_records(s@, n as int) is Some {
            let rest = parse_records(s@, n as int)->Some_0;
            assert(embedding_rows_view(out@) + rest.map_values(
                |r: RawRecord| embedding_of_record(r),
            ) =~= rest.map_values(|r: RawRecord| embedding_of_record(r)));
        }
    }
    let mut i: usize = n;
    while i < s.len()
        invariant
            i <= s@.len(),
            s@ == text@,
            parse_records(s@, i as int) is Some ==> parse_embedding_csv(text@) == Some(
                embedding_rows_view(out@) + parse_records(s@, i as int)->Some_0.map_values(
                    |r: RawRecord| embedding_of_record(r),
                ),
            ),
            parse_records(s@, i as int) is None ==> parse_embedding_csv(text@) is None,
        decreases s@.len() - i,
    {
        let parsed = parse_record_exec(&s, i);
        let (f0, f1, f2, f3, n2) = match parsed {
            Some(t) => t,
            None => {
                return Err(
                    SemanticSearchError::new(
                        String::from_str("Failed to deserialize embedding.csv"),
                    ),
                );
            },
        };
        let ghost before = embedding_rows_view(out@);
        let row = EmbeddingRow {
            name: string_from_chars(&f0),
            mtime: string_from_chars(&f1),
            header: string_from_chars(&f2),
            embedding: string_from_chars(&f3),
        };
        out.push(row);
        proof {
            let r = RawRecord { f0: f0@, f1: f1@, f2: f2@, f3: f3@ };
            if parse_records(s@, n2 as int) is Some {
                let rest = parse_records(s@, n2 as int)->Some_0;
                assert(embedding_rows_view(out@) + rest.map_values(
                    |rr: RawRecord| embedding_of_record(rr),
                ) =~= before + (seq![r] + rest).map_values(
                    |rr: RawRecord| embedding_of_record(rr),
                ));
            }
        }
        i = n2;
    }
    proof {
        assert(parse_records(s@, i as int) == Some(Seq::<RawRecord>::empty()));
        assert(embedding_rows_view(out@) + Seq::<RawRecord>::empty().map_values(
            |r: RawRecord| embedding_of_record(r),
        ) =~= embedding_rows_view(out@));
    }
    Ok(out)
}

/// Reads the persisted unit file back into units; a malformed file is an
/// error, an empty file holds no units.
pub fn input_rows_from_csv(text: &str) -> (res: Result<Vec<InputRow>, SemanticSearchError>)
    ensures
        res is Ok <==> parse_input_csv(text@) is Some,
        res matches Ok(rows) ==> Some(input_rows_view(rows@)) == parse_input_csv(text@),
        res matches Err(e) ==> e@ == "Failed to deserialize input.csv"@,
{
    let s = chars_of(text);
    if s.len() == 0 {
        let out: Vec<InputRow> = Vec::new();
        proof {
            assert(input_rows_view(out@) =~= Seq::<InputRowModel>::empty());
            assert(parse_input_csv(text@) == Some(Seq::<InputRowModel>::empty()));
        }
        return Ok(out);
    }
    let parsed_header = parse_record_exec(&s, 0);
    let (h0, h1, h2, h3, n) = match parsed_header {
        Some(t) => t,
        None => {
            return Err(
                SemanticSearchError::new(String::from_str("Failed to deserialize input.csv")),
            );
        },
    };
    let good = string_from_chars(&h0) == String::from_str("name") && string_from_chars(&h1)
        == String::from_str("mtime") && string_from_chars(&h2) == String::from_str("section")
        && string_from_chars(&h3) == String::from_str("body");
    if !good {
        proof {
            assert(RawRecord { f0: h0@, f1: h1@, f2: h2@, f3: h3@ } != input_header());
        }
        return Err(
            SemanticSearchError::new(String::from_str("Failed to deserialize input.csv")),
        );
    }
    proof {
        assert(RawRecord { f0: h0@, f1: h1@, f2: h2@, f3: h3@ } == input_header());
    }
    let mut out: Vec<InputRow> = Vec::new();
    proof {
        assert(input_rows_view(out@) =~= Seq::<InputRowModel>::empty());
        if parse_records(s@, n as int) is Some {
            let rest = parse_records(s@, n as int)->Some_0;
            assert(input_rows_view(out@) + rest.map_values(|r: RawRecord| input_of_record(r))
                =~= rest.map_values(|r: RawRecord| input_of_record(r)));
        }
    }
    let mut i: usize = n;
    while i < s.len()
        invariant
            i <= s@.len(),
            s@ == text@,
            parse_records(s@, i as int) is Some ==> parse_input_csv(text@) == Some(
                input_rows_view(out@) + parse_records(s@, i as int)->Some_0.map_values(
                    |r: RawRecord| input_of_record(r),
                ),
            ),
            parse_records(s@, i as int) is None ==> parse_input_csv(text@) is None,
        decreases s@.len() - i,
    {
        let parsed = parse_record_exec(&s, i);
        let (f0, f1, f2, f3, n2) = match parsed {
            Some(t) => t,
            None => {
                return Err(
                    SemanticSearchError::new(
                        String::from_str("Failed to deserialize input.csv"),
                    ),
                );
            },
        };
        let ghost before = input_rows_view(out@);
        let row = InputRow {
            name: string_from_chars(&f0),
            mtime: string_from_chars(&f1),
            section: string_from_chars(&f2),
            body: string_from_chars(&f3),
        };
        out.push(row);
        proof {
            let r = RawRecord { f0: f0@, f1: f1@, f2: f2@, f3: f3@ };
            if parse_records(s@, n2 as int) is Some {
                let rest = parse_records(s@, n2 as int)->Some_0;
                assert(input_rows_view(out@) + rest.map_values(
                    |rr: RawRecord| input_of_record(rr),
                ) =~= before + (seq![r] + rest).map_values(|rr: RawRecord| input_of_record(rr)));
            }
        }
        i = n2;
    }
    proof {
        assert(parse_records(s@, i as int) == Some(Seq::<RawRecord>::empty()));
        assert(input_rows_view(out@) + Seq::<RawRecord>::empty().map_values(
            |r: RawRecord| input_of_record(r),
        ) =~= input_rows_view(out@));
    }
    Ok(out)
}

proof fn lemma_esc_concat(a: Seq<char>, b: Seq<char>)
    ensures
        esc_quotes(a + b) == esc_quotes(a) + esc_quotes(b),
    decreases b.len(),
{
    if b.len() == 0 {
        assert(a + b =~= a);
        assert(esc_quotes(a) + esc_quotes(b) =~= esc_quotes(a));
    } else {
        lemma_esc_concat(a, b.drop_last());
        assert((a + b).drop_last() =~= a + b.drop_last());
        assert((a + b).last() == b.last());
        let tail = if b.last() == '"' {
            seq!['"', '"']
        } else {
            seq![b.last()]
        };
        assert(esc_quotes(a + b) == (esc_quotes(a) + esc_quotes(b.drop_last())) + tail);
        assert(esc_quotes(b) == esc_quotes(b.drop_last()) + tail);
        assert((esc_quotes(a) + esc_quotes(b.drop_last())) + tail =~= esc_quotes(a) + (esc_quotes(
            b.drop_last(),
        ) + tail));
    }
}

proof fn lemma_esc_head(f: Seq<char>)
    requires
        f.len() > 0,
    ensures
        esc_quotes(f) == (if f[0] == '"' {
            seq!['"', '"']
        } else {
            seq![f[0]]
        }) + esc_quotes(f.drop_first()),
{
    let a = seq![f[0]];
    let b = f.drop_first();
    assert(f =~= a + b);
    lemma_esc_concat(a, b);
    assert(a.drop_last() =~= Seq::<char>::empty());
    assert(esc_quotes(Seq::<char>::empty()) + (if a.last() == '"' {
        seq!['"', '"']
    } else {
        seq![a.last()]
    }) =~= (if f[0] == '"' {
        seq!['"', '"']
    } else {
        seq![f[0]]
    }));
}

proof fn lemma_parse_quoted_enc(s: Seq<char>, i: int, f: Seq<char>)
    requires
        0 <= i,
        i + esc_quotes(f).len() + 1 <= s.len(),
        s.subrange(i, i + esc_quotes(f).len()) == esc_quotes(f),
        s[i + esc_quotes(f).len()] == '"',
        i + esc_quotes(f).len() + 1 < s.len() ==> s[i + esc_quotes(f).len() + 1] != '"',
    ensures
        parse_quoted(s, i) == Some((f, i + esc_quotes(f).len() + 1)),
    decreases f.len(),
{
    if f.len() == 0 {
        assert(esc_quotes(f).len() == 0);
        assert(s[i] == '"');
        assert(!(i + 1 < s.len() && s[i + 1] == '"'));
    } else {
        lemma_esc_head(f);
        let head = if f[0] == '"' {
            seq!['"', '"']
        } else {
            seq![f[0]]
        };
        let rest_esc = esc_quotes(f.drop_first());
        assert(esc_quotes(f) =~= head + rest_esc);
        let hl = head.len();
        assert forall|j: int| 0 <= j < rest_esc.len() implies s[i + hl + j] == rest_esc[j] by {
            assert(s[i + hl + j] == esc_quotes(f)[hl + j]);
        }
        assert(s.subrange(i + hl, i + hl + rest_esc.len()) =~= rest_esc);
        assert(s[i] == esc_quotes(f)[0]);
        if f[0] == '"' {
            assert(s[i] == '"');
            assert(s[i + 1] == esc_quotes(f)[1]);
            assert(s[i + 1] == '"');
            lemma_parse_quoted_enc(s, i + 2, f.drop_first());
            let t = parse_quoted(s, i + 2)->Some_0;
            assert(seq!['"'] + t.0 =~= f);
        } else {
            assert(s[i] == f[0]);
            assert(s[i] != '"');
            lemma_parse_quoted_enc(s, i + 1, f.drop_first());
            let t = parse_quoted(s, i + 1)->Some_0;
            assert(seq![s[i]] + t.0 =~= f);
        }
    }
}

proof fn lemma_find_sep_at(s: Seq<char>, i: int, e: int)
    requires
        0 <= i <= e <= s.len(),
        forall|j: int| i <= j < e ==> #[trigger] s[j] != ',' && s[j] != '\n',
        e < s.len() ==> (s[e] == ',' || s[e] == '\n'),
    ensures
        find_sep(s, i) == e,
    decreases e - i,
{
    if i < e {
        lemma_find_sep_at(s, i + 1, e);
    }
}

proof fn lemma_no_specials(f: Seq<char>)
    requires
        !needs_quote(f),
    ensures
        forall|j: int|
            0 <= j < f.len() ==> #[trigger] f[j] != ',' && f[j] != '"' && f[j] != '\n' && f[j]
                != '\r',
{
    assert forall|j: int|
        0 <= j < f.len() implies #[trigger] f[j] != ',' && f[j] != '"' && f[j] != '\n' && f[j]
        != '\r' by {
        if f[j] == ',' {
            assert(f.contains(','));
        }
        if f[j] == '"' {
            assert(f.contains('"'));
        }
        if f[j] == '\n' {
            assert(f.contains('\n'));
        }
        if f[j] == '\r' {
            assert(f.contains('\r'));
        }
    }
}

proof fn lemma_trim_noop(f: Seq<char>)
    requires
        f.len() == 0 || (!is_ws_char(f[0]) && !is_ws_char(f.last())),
    ensures
        trim_spec(f) == f,
{
}

proof fn lemma_parse_field_enc(s: Seq<char>, i: int, f: Seq<char>)
    requires
        0 <= i,
        i + enc_field(f).len() <= s.len(),
        s.subrange(i, i + enc_field(f).len()) == enc_field(f),
        i + enc_field(f).len() < s.len() ==> (s[i + enc_field(f).len()] == ',' || s[i + enc_field(
            f,
        ).len()] == '\n'),
    ensures
        parse_field(s, i) == Some((f, i + enc_field(f).len())),
{
    let e = enc_field(f);
    if needs_quote(f) {
        assert(e =~= seq!['"'] + esc_quotes(f) + seq!['"']);
        assert(s[i] == e[0]);
        assert(s[i] == '"');
        let el = esc_quotes(f).len() as int;
        assert forall|j: int| 0 <= j < el implies s[i + 1 + j] == esc_quotes(f)[j] by {
            assert(s[i + 1 + j] == e[1 + j]);
        }
        assert(s.subrange(i + 1, i + 1 + el) =~= esc_quotes(f));
        assert(s[i + 1 + el] == e[1 + el]);
        assert(s[i + 1 + el] == '"');
        lemma_parse_quoted_enc(s, i + 1, f);
    } else {
        assert(e == f);
        lemma_no_specials(f);
        assert forall|j: int| i <= j < i + f.len() implies #[trigger] s[j] != ',' && s[j]
            != '\n' by {
            assert(s[j] == f[j - i]);
        }
        if f.len() > 0 {
            assert(s[i] == f[0]);
            assert(s[i] != '"');
        }
        lemma_find_sep_at(s, i, i + f.len());
        assert(s.subrange(i, i + f.len()) == f);
        lemma_trim_noop(f);
    }
}

proof fn lemma_parse_record_enc(s: Seq<char>, i: int, r: RawRecord)
    requires
        0 <= i,
        i + enc_record(r).len() <= s.len(),
        s.subrange(i, i + enc_record(r).len()) == enc_record(r),
    ensures
        parse_record(s, i) == Some((r, i + enc_record(r).len())),
{
    let e0 = enc_field(r.f0);
    let e1 = enc_field(r.f1);
    let e2 = enc_field(r.f2);
    let e3 = enc_field(r.f3);
    let er = enc_record(r);
    let a0 = i;
    let t0 = a0 + e0.len();
    let a1 = t0 + 1;
    let t1 = a1 + e1.len();
    let a2 = t1 + 1;
    let t2 = a2 + e2.len();
    let a3 = t2 + 1;
    let t3 = a3 + e3.len();
    assert(er.len() == e0.len() + e1.len() + e2.len() + e3.len() + 4);
    assert forall|j: int| 0 <= j < er.len() implies s[i + j] == er[j] by {
        assert(s.subrange(i, i + er.len())[j] == s[i + j]);
    }
    assert forall|j: int| 0 <= j < e0.len() implies s[a0 + j] == e0[j] by {
        assert(er[j] == e0[j]);
    }
    assert(s.subrange(a0, t0) =~= e0);
    assert(s[t0] == er[t0 - i]);
    assert(s[t0] == ',');
    lemma_parse_field_enc(s, a0, r.f0);
    assert forall|j: int| 0 <= j < e1.len() implies s[a1 + j] == e1[j] by {
        assert(er[a1 - i + j] == e1[j]);
    }
    assert(s.subrange(a1, t1) =~= e1);
    assert(s[t1] == er[t1 - i]);
    assert(s[t1] == ',');
    lemma_parse_field_enc(s, a1, r.f1);
    assert forall|j: int| 0 <= j < e2.len() implies s[a2 + j] == e2[j] by {
        assert(er[a2 - i + j] == e2[j]);
    }
    assert(s.subrange(a2, t2) =~= e2);
    assert(s[t2] == er[t2 - i]);
    assert(s[t2] == ',');
    lemma_parse_field_enc(s, a2, r.f2);
    assert forall|j: int| 0 <= j < e3.len() implies s[a3 + j] == e3[j] by {
        assert(er[a3 - i + j] == e3[j]);
    }
    assert(s.subrange(a3, t3) =~= e3);
    assert(s[t3] == er[t3 - i]);
    assert(s[t3] == '\n');
    lemma_parse_field_enc(s, a3, r.f3);
    assert(parse_record(s, i) == Some(
        (RawRecord { f0: r.f0, f1: r.f1, f2: r.f2, f3: r.f3 }, t3 + 1),
    ));
    assert(RawRecord { f0: r.f0, f1: r.f1, f2: r.f2, f3: r.f3 } == r);
}

proof fn lemma_parse_records_enc(rs: Seq<RawRecord>, s: Seq<char>, i: int)
    requires
        0 <= i <= s.len(),
        s.subrange(i, s.len() as int) == enc_records(rs),
    ensures
        parse_records(s, i) == Some(rs),
    decreases rs.len(),
{
    if rs.len() == 0 {
        assert(s.len() - i == 0);
    } else {
        let er = enc_record(rs[0]);
        let rest = enc_records(rs.drop_first());
        assert(enc_records(rs) == er + rest);
        assert forall|j: int| 0 <= j < er.len() implies s[i + j] == er[j] by {
            assert(s.subrange(i, s.len() as int)[j] == s[i + j]);
            assert((er + rest)[j] == er[j]);
        }
        assert(s.subrange(i, i + er.len()) =~= er);
        lemma_parse_record_enc(s, i, rs[0]);
        let n = i + er.len();
        assert forall|j: int| 0 <= j < rest.len() implies s[n + j] == rest[j] by {
            assert(s.subrange(i, s.len() as int)[er.len() + j] == s[n + j]);
            assert((er + rest)[er.len() + j] == rest[j]);
        }
        assert(s.subrange(n, s.len() as int) =~= rest);
        lemma_parse_records_enc(rs.drop_first(), s, n);
        assert(seq![rs[0]] + rs.drop_first() =~= rs);
    }
}

/// Round trip: persisting a cache and reloading it yields exactly the
/// entries that were written.
pub proof fn lemma_cache_round_trip(rows: Seq<EmbeddingRowModel>)
    ensures
        parse_embedding_csv(enc_embedding_csv(rows, true)) == Some(rows),
{
    let recs = rows.map_values(|r: EmbeddingRowModel| record_of_embedding(r));
    let s = enc_embedding_csv(rows, true);
    let hr = enc_record(embedding_header());
    assert(s == hr + enc_records(recs));
    assert(hr.len() >= 4);
    assert forall|j: int| 0 <= j < hr.len() implies s[0 + j] == hr[j] by {
        assert((hr + enc_records(recs))[j] == hr[j]);
    }
    assert(s.subrange(0, hr.len() as int) =~= hr);
    lemma_parse_record_enc(s, 0, embedding_header());
    assert forall|j: int| 0 <= j < enc_records(recs).len() implies s[hr.len() + j] == enc_records(
        recs,
    )[j] by {
        assert((hr + enc_records(recs))[hr.len() + j] == enc_records(recs)[j]);
    }
    assert(s.subrange(hr.len() as int, s.len() as int) =~= enc_records(recs));
    lemma_parse_records_enc(recs, s, hr.len() as int);
    assert(recs.map_values(|r: RawRecord| embedding_of_record(r)) =~= rows);
}

/// Round trip for the unit file.
pub proof fn lemma_input_round_trip(rows: Seq<InputRowModel>)
    ensures
        parse_input_csv(enc_input_csv(rows)) == Some(rows),
{
    let recs = rows.map_values(|r: InputRowModel| record_of_input(r));
    let s = enc_input_csv(rows);
    let hr = enc_record(input_header());
    assert(s == hr + enc_records(recs));
    assert(hr.len() >= 4);
    assert forall|j: int| 0 <= j < hr.len() implies s[0 + j] == hr[j] by {
        assert((hr + enc_records(recs))[j] == hr[j]);
    }
    assert(s.subrange(0, hr.len() as int) =~= hr);
    lemma_parse_record_enc(s, 0, input_header());
    assert forall|j: int| 0 <= j < enc_records(recs).len() implies s[hr.len() + j] == enc_records(
        recs,
    )[j] by {
        assert((hr + enc_records(recs))[hr.len() + j] == enc_records(recs)[j]);
    }
    assert(s.subrange(hr.len() as int, s.len() as int) =~= enc_records(recs));
    lemma_parse_records_enc(recs, s, hr.len() as int);
    assert(recs.map_values(|r: RawRecord| input_of_record(r)) =~= rows);
}

/// Appending one record appends its encoding.
proof fn lemma_enc_records_snoc(rs: Seq<RawRecord>)
    requires
        rs.len() > 0,
    ensures
        enc_records(rs) == enc_records(rs.drop_last()) + enc_record(rs.last()),
    decreases rs.len(),
{
    if rs.len() == 1 {
        assert(enc_records(rs.drop_first()) =~= Seq::<char>::empty());
        assert(rs.drop_last() =~= Seq::<RawRecord>::empty());
        assert(enc_records(rs.drop_last()) =~= Seq::<char>::empty());
        assert(enc_records(rs) =~= enc_record(rs[0]));
        assert(enc_records(rs.drop_last()) + enc_record(rs.last()) =~= enc_record(rs[0]));
    } else {
        lemma_enc_records_snoc(rs.drop_first());
        assert(rs.drop_first().drop_last() =~= rs.drop_last().drop_first());
        assert(rs.drop_first().last() == rs.last());
        assert(enc_records(rs.drop_last()) == enc_record(rs.drop_last()[0]) + enc_records(
            rs.drop_last().drop_first(),
        ));
        assert(rs.drop_last()[0] == rs[0]);
        assert(enc_records(rs) =~= enc_records(rs.drop_last()) + enc_record(rs.last()));
    }
}

} // verus!
