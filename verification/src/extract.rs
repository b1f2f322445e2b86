//! Turning the raw content of each supported file type into searchable text.
//!
//! Reading files, decoding spreadsheets and documents, rasterising PDF pages and
//! running OCR happen outside; this module holds what is decided and built from
//! their results.

use vstd::prelude::*;
use crate::markdown::{md_lines, strip_markdown};
use crate::model::AppError;
use crate::text::{
    append_chars, join_all, join_seqs, lines, split_chars, split_lines, split_seq, str_chars,
    string_from_chars, trim_chars, trim_seq,
};

verus! {

/// Mean OCR word confidence, in percent, at or above which a page's OCR text is kept.
pub const OCR_CONFIDENCE_THRESHOLD_PERCENT: i32 = 75;

/// Hard per-page wall-clock budget for Tesseract, in seconds.
pub const OCR_PAGE_TIMEOUT_SECS: u64 = 90;

/// Tesseract language string — primary languages for this app.
pub const TESS_LANG: &'static str = "eng+por";

/// How far extracted text can be trusted, as the fraction `num / den`: 1 for text
/// read from the file itself, the OCR engine's mean word confidence for OCR, and the
/// OCR threshold for descriptions by the vision model.
#[derive(Clone, Copy)]
pub struct Confidence {
    pub num: u64,
    pub den: u64,
}

/// Full confidence, for text read from the file itself.
pub open spec fn full_confidence() -> Confidence {
    Confidence { num: 1, den: 1 }
}

/// Confidence of vision-model output: the OCR threshold, as a conservative proxy.
pub open spec fn vision_confidence() -> Confidence {
    Confidence { num: OCR_CONFIDENCE_THRESHOLD_PERCENT as u64, den: 100 }
}

/// Extracted text, its detected language and how far it can be trusted.
pub struct ExtractedText {
    pub text: String,
    /// ISO 639-3 code, or `"unknown"`.
    pub lang_hint: String,
    pub confidence: Confidence,
}

/// Which extractor handles a file.
#[derive(Clone, Copy, Debug, PartialEq, Eq, Structural)]
pub enum ExtractKind {
    Txt,
    Md,
    Csv,
    Xlsx,
    Docx,
    Pdf,
    Image,
    Unsupported,
}

// ── language detection ──────────────────────────────────────────────────────

/// The ISO 639-3 code that `whatlang::detect` reports for a text, if it detects one.
pub uninterp spec fn whatlang_code(text: Seq<char>) -> Option<Seq<char>>;

/// `whatlang::detect(text)` mapped to the detected language's ISO 639-3 code.
#[verifier::external_body]
fn whatlang_detect_code(text: &str) -> (r: Option<String>)
    ensures
        match r {
            Some(c) => whatlang_code(text@) == Some(c@),
            None => whatlang_code(text@) is None,
        },
{
    whatlang::detect(text).map(|info| info.lang().code().to_string())
}

/// Language code of `text`, or `"unknown"`.
pub open spec fn lang_of(text: Seq<char>) -> Seq<char> {
    match whatlang_code(text) {
        Some(c) => c,
        None => seq!['u', 'n', 'k', 'n', 'o', 'w', 'n'],
    }
}

fn unknown_lang() -> (r: String)
    ensures
        r@ == seq!['u', 'n', 'k', 'n', 'o', 'w', 'n'],
{
    string_from_chars(vec!['u', 'n', 'k', 'n', 'o', 'w', 'n'])
}

/// Detects the language of `text`: its ISO 639-3 code, or `"unknown"`.
pub fn detect_lang(text: &str) -> (r: String)
    ensures
        r@ == lang_of(text@),
{
    match whatlang_detect_code(text) {
        Some(c) => c,
        None => unknown_lang(),
    }
}

/// `text` with its detected language and the given confidence.
fn with_lang(text: Vec<char>, confidence: Confidence) -> (r: ExtractedText)
    ensures
        r.text@ == text@,
        r.lang_hint@ == lang_of(text@),
        r.confidence == confidence,
{
    let s = string_from_chars(text);
    let lang_hint = detect_lang(s.as_str());
    ExtractedText { text: s, lang_hint, confidence }
}

fn full() -> (r: Confidence)
    ensures
        r == full_confidence(),
{
    Confidence { num: 1, den: 1 }
}

// ── routing ─────────────────────────────────────────────────────────────────

/// What `std::path::Path::extension` returns for a path, as text.
pub uninterp spec fn path_extension(path: Seq<char>) -> Option<Seq<char>>;

/// `Path::new(path).extension()` as a `String` (`None` when absent or not UTF-8).
#[verifier::external_body]
pub(crate) fn path_extension_of(path: &str) -> (r: Option<String>)
    ensures
        match r {
            Some(e) => path_extension(path@) == Some(e@),
            None => path_extension(path@) is None,
        },
{
    std::path::Path::new(path).extension().and_then(|e| e.to_str()).map(|e| e.to_string())
}

/// ASCII lowercase of one character.
pub open spec fn ascii_lower(c: char) -> char {
    if 'A' <= c && c <= 'Z' {
        ((c as u32) + 32) as char
    } else {
        c
    }
}

/// `s` lowercases to the all-lowercase ASCII word `w`.
///
/// For the ASCII words compared against here, `str::to_lowercase(s) == w` holds exactly
/// when every character of `s` lowercases in ASCII to the matching character of `w`:
/// no other character lowercases to one of their letters.
pub open spec fn lower_is(s: Seq<char>, w: Seq<char>) -> bool {
    s.len() == w.len() && forall|k: int| 0 <= k < s.len() ==> ascii_lower(s[k]) == w[k]
}

fn to_ascii_lower(c: char) -> (r: char)
    ensures
        r == ascii_lower(c),
{
    if 'A' <= c && c <= 'Z' {
        let b: u8 = (c as u32 + 32) as u8;
        b as char
    } else {
        c
    }
}

/// Executable [`lower_is`].
pub fn lower_eq(s: &Vec<char>, w: &str) -> (r: bool)
    ensures
        r == lower_is(s@, w@),
{
    let wc = str_chars(w);
    if s.len() != wc.len() {
        return false;
    }
    let mut k: usize = 0;
    while k < s.len()
        invariant
            k <= s.len(),
            s.len() == wc.len(),
            wc@ == w@,
            forall|u: int| 0 <= u < k ==> ascii_lower(s@[u]) == w@[u],
        decreases s.len() - k,
    {
        if to_ascii_lower(s[k]) != wc[k] {
            return false;
        }
        k = k + 1;
    }
    true
}

/// The extractor for a lowercase extension.
pub open spec fn kind_of_ext(ext: Option<Seq<char>>) -> ExtractKind {
    match ext {
        None => ExtractKind::Unsupported,
        Some(e) => if lower_is(e, "txt"@) {
            ExtractKind::Txt
        } else if lower_is(e, "md"@) {
            ExtractKind::Md
        } else if lower_is(e, "csv"@) {
            ExtractKind::Csv
        } else if lower_is(e, "xlsx"@) || lower_is(e, "xls"@) || lower_is(e, "xlsm"@) {
            ExtractKind::Xlsx
        } else if lower_is(e, "docx"@) {
            ExtractKind::Docx
        } else if lower_is(e, "pdf"@) {
            ExtractKind::Pdf
        } else if lower_is(e, "png"@) || lower_is(e, "jpg"@) || lower_is(e, "jpeg"@) || lower_is(
            e,
            "webp"@,
        ) {
            ExtractKind::Image
        } else {
            ExtractKind::Unsupported
        },
    }
}

/// Routes a file to its extractor by its (case-insensitive) extension.
pub fn extract_kind(path: &str) -> (r: ExtractKind)
    ensures
        r == kind_of_ext(path_extension(path@)),
{
    match path_extension_of(path) {
        None => ExtractKind::Unsupported,
        Some(e) => {
            let e = str_chars(e.as_str());
            if lower_eq(&e, "txt") {
                ExtractKind::Txt
            } else if lower_eq(&e, "md") {
                ExtractKind::Md
            } else if lower_eq(&e, "csv") {
                ExtractKind::Csv
            } else if lower_eq(&e, "xlsx") || lower_eq(&e, "xls") || lower_eq(&e, "xlsm") {
                ExtractKind::Xlsx
            } else if lower_eq(&e, "docx") {
                ExtractKind::Docx
            } else if lower_eq(&e, "pdf") {
                ExtractKind::Pdf
            } else if lower_eq(&e, "png") || lower_eq(&e, "jpg") || lower_eq(&e, "jpeg")
                || lower_eq(&e, "webp") {
                ExtractKind::Image
            } else {
                ExtractKind::Unsupported
            }
        },
    }
}

/// Message of the error for a file that no extractor handles.
pub open spec fn unsupported_message(path: Seq<char>) -> Seq<char> {
    "unsupported file type: "@ + path
}

/// The extractor for a file, or an extractor error naming the file when its type is not
/// supported.
pub fn route_file(path: &str) -> (r: Result<ExtractKind, AppError>)
    ensures
        kind_of_ext(path_extension(path@)) is Unsupported ==> (r matches Err(AppError::Extractor(m))
            && m@ == unsupported_message(path@)),
        !(kind_of_ext(path_extension(path@)) is Unsupported) ==> r == Ok::<ExtractKind, AppError>(
            kind_of_ext(path_extension(path@)),
        ),
{
    let k = extract_kind(path);
    match k {
        ExtractKind::Unsupported => {
            let mut m = str_chars("unsupported file type: ");
            let p = str_chars(path);
            append_chars(&mut m, &p);
            Err(AppError::Extractor(string_from_chars(m)))
        },
        _ => Ok(k),
    }
}

// ── TXT / MD ────────────────────────────────────────────────────────────────

/// Text of a plain-text file: its content trimmed, with its language.
pub fn extract_txt_text(raw: &str) -> (r: ExtractedText)
    ensures
        r.text@ == trim_seq(raw@),
        r.lang_hint@ == lang_of(trim_seq(raw@)),
        r.confidence == full_confidence(),
{
    let chars = str_chars(raw);
    with_lang(trim_chars(&chars), full())
}

/// Text of a Markdown file: its content with Markdown syntax stripped, trimmed.
pub fn extract_md_text(raw: &str) -> (r: ExtractedText)
    ensures
        r.text@ == trim_seq(md_lines(lines(raw@))),
        r.lang_hint@ == lang_of(r.text@),
        r.confidence == full_confidence(),
{
    let chars = str_chars(raw);
    let plain = strip_markdown(&chars);
    with_lang(trim_chars(&plain), full())
}

} // verus!

verus! {

// ── CSV ─────────────────────────────────────────────────────────────────────

/// Trimmed value of column `i`, or empty when the row is shorter.
pub open spec fn csv_field(values: Seq<Seq<char>>, i: int) -> Seq<char> {
    if 0 <= i < values.len() {
        trim_seq(values[i])
    } else {
        seq![]
    }
}

/// `"header: value"` for each of the first `i` columns whose value is not empty.
pub open spec fn csv_pairs(headers: Seq<Seq<char>>, values: Seq<Seq<char>>, i: int) -> Seq<
    Seq<char>,
>
    decreases i,
{
    if i <= 0 {
        seq![]
    } else {
        let prev = csv_pairs(headers, values, i - 1);
        let v = csv_field(values, i - 1);
        if v.len() == 0 {
            prev
        } else {
            prev.push(trim_seq(headers[i - 1]) + seq![':', ' '] + v)
        }
    }
}

/// Rows flattened to `"h1: v1, h2: v2\n"` lines; rows with no value are left out.
pub open spec fn csv_body(headers: Seq<Seq<char>>, rows: Seq<Seq<char>>) -> Seq<char>
    decreases rows.len(),
{
    if rows.len() == 0 {
        seq![]
    } else {
        let prev = csv_body(headers, rows.drop_last());
        let ps = csv_pairs(headers, split_seq(rows.last(), ','), headers.len() as int);
        if ps.len() == 0 {
            prev
        } else {
            prev + join_seqs(ps, seq![',', ' ']) + seq!['\n']
        }
    }
}

/// Text of a CSV file: `None` for a file with no line at all, otherwise the data rows
/// as key-value lines keyed by the header row, trimmed. Commas always delimit fields.
pub open spec fn csv_text(raw: Seq<char>) -> Option<Seq<char>> {
    let ls = lines(raw);
    if ls.len() == 0 {
        None
    } else {
        Some(trim_seq(csv_body(split_seq(ls[0], ','), ls.drop_first())))
    }
}

/// Splits a CSV row on every comma (quoted commas are not special).
fn split_csv_row(line: &Vec<char>) -> (r: Vec<Vec<char>>)
    ensures
        r@.map_values(|v: Vec<char>| v@) == split_seq(line@, ','),
{
    split_chars(line, ',')
}

fn csv_row_pairs(headers: &Vec<Vec<char>>, values: &Vec<Vec<char>>) -> (r: Vec<Vec<char>>)
    ensures
        r@.map_values(|v: Vec<char>| v@) == csv_pairs(
            headers@.map_values(|v: Vec<char>| v@),
            values@.map_values(|v: Vec<char>| v@),
            headers.len() as int,
        ),
{
    let ghost hs = headers@.map_values(|v: Vec<char>| v@);
    let ghost vs = values@.map_values(|v: Vec<char>| v@);
    let mut pairs: Vec<Vec<char>> = Vec::new();
    let mut i: usize = 0;
    while i < headers.len()
        invariant
            i <= headers.len(),
            hs == headers@.map_values(|v: Vec<char>| v@),
            vs == values@.map_values(|v: Vec<char>| v@),
            pairs@.map_values(|v: Vec<char>| v@) == csv_pairs(hs, vs, i as int),
        decreases headers.len() - i,
    {
        let v: Vec<char> = if i < values.len() {
            trim_chars(&values[i])
        } else {
            Vec::new()
        };
        proof {
            assert(v@ == csv_field(vs, i as int));
        }
        if v.len() > 0 {
            let mut p = trim_chars(&headers[i]);
            p.push(':');
            p.push(' ');
            append_chars(&mut p, &v);
            let ghost old_pairs = pairs@.map_values(|v: Vec<char>| v@);
            pairs.push(p);
            proof {
                assert(pairs@.map_values(|v: Vec<char>| v@) =~= old_pairs.push(p@));
                assert(p@ =~= trim_seq(hs[i as int]) + seq![':', ' '] + v@);
            }
        }
        i = i + 1;
    }
    pairs
}

/// Text of a CSV file (see [`csv_text`]); the language is `"unknown"` for a file with no line.
pub fn extract_csv_text(raw: &str) -> (r: ExtractedText)
    ensures
        match csv_text(raw@) {
            None => r.text@.len() == 0 && r.lang_hint@ == seq!['u', 'n', 'k', 'n', 'o', 'w', 'n'],
            Some(t) => r.text@ == t && r.lang_hint@ == lang_of(t),
        },
        r.confidence == full_confidence(),
{
    let chars = str_chars(raw);
    let ls = split_lines(&chars);
    let ghost all = ls@.map_values(|v: Vec<char>| v@);
    if ls.len() == 0 {
        return ExtractedText {
            text: string_from_chars(Vec::new()),
            lang_hint: unknown_lang(),
            confidence: full(),
        };
    }
    let headers = split_csv_row(&ls[0]);
    let ghost hs = headers@.map_values(|v: Vec<char>| v@);
    let sep: Vec<char> = vec![',', ' '];
    let mut out: Vec<char> = Vec::new();
    let mut k: usize = 1;
    while k < ls.len()
        invariant
            1 <= k <= ls.len(),
            all == ls@.map_values(|v: Vec<char>| v@),
            all == lines(raw@),
            hs == headers@.map_values(|v: Vec<char>| v@),
            hs == split_seq(all[0], ','),
            sep@ == seq![',', ' '],
            out@ == csv_body(hs, all.subrange(1, k as int)),
        decreases ls.len() - k,
    {
        let values = split_csv_row(&ls[k]);
        let pairs = csv_row_pairs(&headers, &values);
        if pairs.len() > 0 {
            let joined = join_all(&pairs, &sep);
            append_chars(&mut out, &joined);
            out.push('\n');
        }
        proof {
            let next = all.subrange(1, k + 1);
            assert(next.drop_last() =~= all.subrange(1, k as int));
            assert(next.last() == all[k as int]);
            assert(pairs@.map_values(|v: Vec<char>| v@).len() == pairs.len());
        }
        k = k + 1;
    }
    proof {
        assert(all.subrange(1, ls.len() as int) =~= all.drop_first());
    }
    with_lang(trim_chars(&out), full())
}

// ── XLSX / DOCX ─────────────────────────────────────────────────────────────

/// Spreadsheet rows flattened: each present cell followed by a space, each row by `'\n'`.
pub open spec fn cells_text(rows: Seq<Seq<Option<Seq<char>>>>) -> Seq<char>
    decreases rows.len(),
{
    if rows.len() == 0 {
        seq![]
    } else {
        cells_text(rows.drop_last()) + row_text(rows.last(), rows.last().len() as int) + seq![
            '\n',
        ]
    }
}

/// The first `i` cells of a row, each present one followed by a space.
pub open spec fn row_text(row: Seq<Option<Seq<char>>>, i: int) -> Seq<char>
    decreases i,
{
    if i <= 0 {
        seq![]
    } else {
        row_text(row, i - 1) + match row[i - 1] {
            Some(v) => v + seq![' '],
            None => seq![],
        }
    }
}

/// View of a row of optional cells.
pub open spec fn row_view(row: Vec<Option<String>>) -> Seq<Option<Seq<char>>> {
    row@.map_values(|c: Option<String>| match c {
        Some(s) => Some(s@),
        None => None,
    })
}

/// Text of a workbook, from the cells of every sheet that could be read, row by row
/// (a cell is `None` when it is empty or of a kind that carries no text).
pub fn extract_cells_text(rows: &Vec<Vec<Option<String>>>) -> (r: ExtractedText)
    ensures
        r.text@ == trim_seq(cells_text(rows@.map_values(|row: Vec<Option<String>>| row_view(row)))),
        r.lang_hint@ == lang_of(r.text@),
        r.confidence == full_confidence(),
{
    let ghost all = rows@.map_values(|row: Vec<Option<String>>| row_view(row));
    let mut out: Vec<char> = Vec::new();
    let mut k: usize = 0;
    while k < rows.len()
        invariant
            k <= rows.len(),
            all == rows@.map_values(|row: Vec<Option<String>>| row_view(row)),
            out@ == cells_text(all.subrange(0, k as int)),
        decreases rows.len() - k,
    {
        let row = &rows[k];
        let ghost rv = row_view(*row);
        let ghost before = out@;
        let mut j: usize = 0;
        while j < row.len()
            invariant
                j <= row.len(),
                rv == row_view(*row),
                out@ == before + row_text(rv, j as int),
            decreases row.len() - j,
        {
            match &row[j] {
                Some(v) => {
                    let vc = str_chars(v.as_str());
                    append_chars(&mut out, &vc);
                    out.push(' ');
                    proof {
                        assert(rv[j as int] == Some(v@));
                        assert(out@ =~= before + row_text(rv, j + 1));
                    }
                },
                None => {
                    proof {
                        assert(rv[j as int] is None);
                        assert(out@ =~= before + row_text(rv, j + 1));
                    }
                },
            }
            j = j + 1;
        }
        out.push('\n');
        proof {
            let next = all.subrange(0, k + 1);
            assert(next.drop_last() =~= all.subrange(0, k as int));
            assert(next.last() == rv);
            assert(out@ =~= cells_text(next));
        }
        k = k + 1;
    }
    proof {
        assert(all.subrange(0, rows.len() as int) =~= all);
    }
    with_lang(trim_chars(&out), full())
}

/// Paragraphs as the concatenation of their runs' text, each followed by `'\n'`.
pub open spec fn paragraphs_text(ps: Seq<Seq<Seq<char>>>) -> Seq<char>
    decreases ps.len(),
{
    if ps.len() == 0 {
        seq![]
    } else {
        paragraphs_text(ps.drop_last()) + concat_all(ps.last()) + seq!['\n']
    }
}

/// Concatenation of all pieces.
pub open spec fn concat_all(ps: Seq<Seq<char>>) -> Seq<char>
    decreases ps.len(),
{
    if ps.len() == 0 {
        seq![]
    } else {
        concat_all(ps.drop_last()) + ps.last()
    }
}

/// View of a paragraph's run texts.
pub open spec fn para_view(p: Vec<String>) -> Seq<Seq<char>> {
    p@.map_values(|s: String| s@)
}

/// Text of a Word document from the text runs of each of its paragraphs, trimmed.
pub fn extract_paragraphs_text(paragraphs: &Vec<Vec<String>>) -> (r: ExtractedText)
    ensures
        r.text@ == trim_seq(paragraphs_text(paragraphs@.map_values(|p: Vec<String>| para_view(p)))),
        r.lang_hint@ == lang_of(r.text@),
        r.confidence == full_confidence(),
{
    let ghost all = paragraphs@.map_values(|p: Vec<String>| para_view(p));
    let mut out: Vec<char> = Vec::new();
    let mut k: usize = 0;
    while k < paragraphs.len()
        invariant
            k <= paragraphs.len(),
            all == paragraphs@.map_values(|p: Vec<String>| para_view(p)),
            out@ == paragraphs_text(all.subrange(0, k as int)),
        decreases paragraphs.len() - k,
    {
        let p = &paragraphs[k];
        let ghost pv = para_view(*p);
        let ghost before = out@;
        let mut j: usize = 0;
        while j < p.len()
            invariant
                j <= p.len(),
                pv == para_view(*p),
                out@ == before + concat_all(pv.subrange(0, j as int)),
            decreases p.len() - j,
        {
            let vc = str_chars(p[j].as_str());
            append_chars(&mut out, &vc);
            proof {
                let next = pv.subrange(0, j + 1);
                assert(next.drop_last() =~= pv.subrange(0, j as int));
                assert(out@ =~= before + concat_all(next));
            }
            j = j + 1;
        }
        out.push('\n');
        proof {
            assert(pv.subrange(0, p.len() as int) =~= pv);
            let next = all.subrange(0, k + 1);
            assert(next.drop_last() =~= all.subrange(0, k as int));
            assert(next.last() == pv);
            assert(out@ =~= paragraphs_text(next));
        }
        k = k + 1;
    }
    proof {
        assert(all.subrange(0, paragraphs.len() as int) =~= all);
    }
    with_lang(trim_chars(&out), full())
}

} // verus!

verus! {

// ── Word documents ──────────────────────────────────────────────────────────

/// A run's children: the text of each text child, `None` for other children.
pub open spec fn run_view(run: Option<Vec<Option<String>>>) -> Option<Seq<Option<Seq<char>>>> {
    match run {
        Some(items) => Some(items@.map_values(|t: Option<String>| match t {
            Some(s) => Some(s@),
            None => None,
        })),
        None => None,
    }
}

/// A top-level body element: a paragraph as its children (runs, or `None` for other
/// children), `None` for anything other than a paragraph.
pub open spec fn block_view(b: Option<Vec<Option<Vec<Option<String>>>>>) -> Option<
    Seq<Option<Seq<Option<Seq<char>>>>>,
> {
    match b {
        Some(children) => Some(children@.map_values(|c: Option<Vec<Option<String>>>| run_view(c))),
        None => None,
    }
}

/// The texts of a run's text children, in order.
pub open spec fn run_texts(items: Seq<Option<Seq<char>>>) -> Seq<Seq<char>>
    decreases items.len(),
{
    if items.len() == 0 {
        seq![]
    } else {
        run_texts(items.drop_last()) + match items.last() {
            Some(t) => seq![t],
            None => seq![],
        }
    }
}

/// The texts of a paragraph's runs, in order.
pub open spec fn paragraph_runs(children: Seq<Option<Seq<Option<Seq<char>>>>>) -> Seq<Seq<char>>
    decreases children.len(),
{
    if children.len() == 0 {
        seq![]
    } else {
        paragraph_runs(children.drop_last()) + match children.last() {
            Some(run) => run_texts(run),
            None => seq![],
        }
    }
}

/// The paragraphs of a body, each as its runs' texts.
pub open spec fn body_paragraphs(body: Seq<Option<Seq<Option<Seq<Option<Seq<char>>>>>>>) -> Seq<
    Seq<Seq<char>>,
>
    decreases body.len(),
{
    if body.len() == 0 {
        seq![]
    } else {
        body_paragraphs(body.drop_last()) + match body.last() {
            Some(children) => seq![paragraph_runs(children)],
            None => seq![],
        }
    }
}

fn push_run_texts(items: &Vec<Option<String>>, out: &mut Vec<String>)
    ensures
        final(out)@.map_values(|s: String| s@) == old(out)@.map_values(|s: String| s@) + run_texts(
            run_view(Some(*items))->0,
        ),
{
    let ghost iv = run_view(Some(*items))->0;
    let ghost start = out@.map_values(|s: String| s@);
    let mut k: usize = 0;
    while k < items.len()
        invariant
            k <= items.len(),
            iv == run_view(Some(*items))->0,
            out@.map_values(|s: String| s@) == start + run_texts(iv.subrange(0, k as int)),
        decreases items.len() - k,
    {
        let ghost before = out@.map_values(|s: String| s@);
        proof {
            let next = iv.subrange(0, k + 1);
            assert(next.drop_last() =~= iv.subrange(0, k as int));
            assert(next.last() == iv[k as int]);
        }
        match &items[k] {
            Some(t) => {
                out.push(t.clone());
                proof {
                    assert(out@.map_values(|s: String| s@) =~= before + seq![t@]);
                }
            },
            None => {
                proof {
                    assert(before + seq![] =~= before);
                }
            },
        }
        proof {
            assert(out@.map_values(|s: String| s@) =~= start + run_texts(iv.subrange(0, k + 1)));
        }
        k = k + 1;
    }
    proof {
        assert(iv.subrange(0, items.len() as int) =~= iv);
    }
}

fn paragraph_texts(children: &Vec<Option<Vec<Option<String>>>>) -> (r: Vec<String>)
    ensures
        r@.map_values(|s: String| s@) == paragraph_runs(block_view(Some(*children))->0),
{
    let ghost cv = block_view(Some(*children))->0;
    let mut out: Vec<String> = Vec::new();
    let mut k: usize = 0;
    while k < children.len()
        invariant
            k <= children.len(),
            cv == block_view(Some(*children))->0,
            out@.map_values(|s: String| s@) == paragraph_runs(cv.subrange(0, k as int)),
        decreases children.len() - k,
    {
        let ghost before = out@.map_values(|s: String| s@);
        proof {
            let next = cv.subrange(0, k + 1);
            assert(next.drop_last() =~= cv.subrange(0, k as int));
            assert(next.last() == cv[k as int]);
        }
        match &children[k] {
            Some(items) => {
                push_run_texts(items, &mut out);
            },
            None => {
                proof {
                    assert(before + seq![] =~= before);
                }
            },
        }
        k = k + 1;
    }
    proof {
        assert(cv.subrange(0, children.len() as int) =~= cv);
    }
    out
}

/// Text of a Word document from its body: each top-level element as a paragraph of
/// children (a text run, as its children's texts, `None` for other run children; `None`
/// for other paragraph children), or `None` for an element that is not a paragraph. The
/// text runs of each paragraph are joined as [`extract_paragraphs_text`] joins them.
pub fn extract_docx_text(body: &Vec<Option<Vec<Option<Vec<Option<String>>>>>>) -> (r: ExtractedText)
    ensures
        ({
            let bv = body@.map_values(|b: Option<Vec<Option<Vec<Option<String>>>>>| block_view(b));
            &&& r.text@ == trim_seq(paragraphs_text(body_paragraphs(bv)))
            &&& r.lang_hint@ == lang_of(r.text@)
            &&& r.confidence == full_confidence()
        }),
{
    let ghost bv = body@.map_values(|b: Option<Vec<Option<Vec<Option<String>>>>>| block_view(b));
    let mut paragraphs: Vec<Vec<String>> = Vec::new();
    let mut k: usize = 0;
    while k < body.len()
        invariant
            k <= body.len(),
            bv == body@.map_values(|b: Option<Vec<Option<Vec<Option<String>>>>>| block_view(b)),
            paragraphs@.map_values(|p: Vec<String>| para_view(p)) == body_paragraphs(
                bv.subrange(0, k as int),
            ),
        decreases body.len() - k,
    {
        let ghost before = paragraphs@.map_values(|p: Vec<String>| para_view(p));
        proof {
            let next = bv.subrange(0, k + 1);
            assert(next.drop_last() =~= bv.subrange(0, k as int));
            assert(next.last() == bv[k as int]);
        }
        match &body[k] {
            Some(children) => {
                let runs = paragraph_texts(children);
                paragraphs.push(runs);
                proof {
                    assert(paragraphs@.map_values(|p: Vec<String>| para_view(p)) =~= before
                        + seq![para_view(runs)]);
                }
            },
            None => {
                proof {
                    assert(before + seq![] =~= before);
                }
            },
        }
        k = k + 1;
    }
    proof {
        assert(bv.subrange(0, body.len() as int) =~= bv);
    }
    extract_paragraphs_text(&paragraphs)
}

} // verus!

verus! {

// ── PDF ─────────────────────────────────────────────────────────────────────

/// `s` holds something other than whitespace.
pub open spec fn nonblank(s: Seq<char>) -> bool {
    trim_seq(s).len() > 0
}

fn is_nonblank(s: &Vec<char>) -> (r: bool)
    ensures
        r == nonblank(s@),
{
    let (a, b) = crate::text::trim_bounds(s);
    a < b
}

/// Non-blank pages, each followed by `'\n'`.
pub open spec fn text_layer(pages: Seq<Seq<char>>) -> Seq<char>
    decreases pages.len(),
{
    if pages.len() == 0 {
        seq![]
    } else {
        text_layer(pages.drop_last()) + if nonblank(pages.last()) {
            pages.last() + seq!['\n']
        } else {
            seq![]
        }
    }
}

/// Text of a PDF from its pages' text layer; `None` when the text layer is blank
/// (a scanned document, to be read by OCR).
pub fn extract_text_layer(pages: &Vec<String>) -> (r: Option<ExtractedText>)
    ensures
        ({
            let t = trim_seq(text_layer(pages@.map_values(|s: String| s@)));
            match r {
                Some(e) => t.len() > 0 && e.text@ == t && e.lang_hint@ == lang_of(t) && e.confidence
                    == full_confidence(),
                None => t.len() == 0,
            }
        }),
{
    let ghost all = pages@.map_values(|s: String| s@);
    let mut out: Vec<char> = Vec::new();
    let mut k: usize = 0;
    while k < pages.len()
        invariant
            k <= pages.len(),
            all == pages@.map_values(|s: String| s@),
            out@ == text_layer(all.subrange(0, k as int)),
        decreases pages.len() - k,
    {
        let pc = str_chars(pages[k].as_str());
        if is_nonblank(&pc) {
            append_chars(&mut out, &pc);
            out.push('\n');
        }
        proof {
            let next = all.subrange(0, k + 1);
            assert(next.drop_last() =~= all.subrange(0, k as int));
            assert(next.last() == pc@);
            assert(out@ =~= text_layer(next));
        }
        k = k + 1;
    }
    proof {
        assert(all.subrange(0, pages.len() as int) =~= all);
    }
    let t = trim_chars(&out);
    if t.len() > 0 {
        Some(with_lang(t, full()))
    } else {
        None
    }
}

/// What OCR made of one rendered page.
pub enum OcrPage {
    /// Tesseract ran: its text and mean word confidence in percent (0–100).
    Read { text: String, confidence_percent: i32 },
    /// Tesseract could not run on the page.
    Failed,
}

/// A page whose OCR text is kept: confident enough and not blank.
pub open spec fn ocr_accepted(p: OcrPage) -> bool {
    match p {
        OcrPage::Read { text, confidence_percent } => confidence_percent
            >= OCR_CONFIDENCE_THRESHOLD_PERCENT && nonblank(text@),
        OcrPage::Failed => false,
    }
}

/// Texts of the accepted pages, in page order.
pub open spec fn ocr_texts(ps: Seq<OcrPage>) -> Seq<Seq<char>>
    decreases ps.len(),
{
    if ps.len() == 0 {
        seq![]
    } else {
        ocr_texts(ps.drop_last()) + match ps.last() {
            OcrPage::Read { text, confidence_percent } => if ocr_accepted(ps.last()) {
                seq![text@]
            } else {
                seq![]
            },
            OcrPage::Failed => seq![],
        }
    }
}

/// Confidences of the accepted pages, in page order.
pub open spec fn ocr_confidences(ps: Seq<OcrPage>) -> Seq<i32>
    decreases ps.len(),
{
    if ps.len() == 0 {
        seq![]
    } else {
        ocr_confidences(ps.drop_last()) + match ps.last() {
            OcrPage::Read { text, confidence_percent } => if ocr_accepted(ps.last()) {
                seq![confidence_percent]
            } else {
                seq![]
            },
            OcrPage::Failed => seq![],
        }
    }
}

/// Indices of the pages that were not accepted, ascending.
pub open spec fn ocr_low_pages(ps: Seq<OcrPage>) -> Seq<usize>
    decreases ps.len(),
{
    if ps.len() == 0 {
        seq![]
    } else if ocr_accepted(ps.last()) {
        ocr_low_pages(ps.drop_last())
    } else {
        ocr_low_pages(ps.drop_last()).push((ps.len() - 1) as usize)
    }
}

/// Accepted OCR texts with their confidences, and the pages left for a vision pass.
pub struct OcrPlan {
    pub texts: Vec<String>,
    pub confidences_percent: Vec<i32>,
    pub low_pages: Vec<usize>,
}

/// Sorts the OCR outcome of every page into kept text and pages needing vision.
pub fn plan_ocr(pages: &Vec<OcrPage>) -> (r: OcrPlan)
    ensures
        r.texts@.map_values(|s: String| s@) == ocr_texts(pages@),
        r.confidences_percent@ == ocr_confidences(pages@),
        r.low_pages@ == ocr_low_pages(pages@),
{
    let mut texts: Vec<String> = Vec::new();
    let mut confs: Vec<i32> = Vec::new();
    let mut low: Vec<usize> = Vec::new();
    let mut k: usize = 0;
    while k < pages.len()
        invariant
            k <= pages.len(),
            texts@.map_values(|s: String| s@) == ocr_texts(pages@.subrange(0, k as int)),
            confs@ == ocr_confidences(pages@.subrange(0, k as int)),
            low@ == ocr_low_pages(pages@.subrange(0, k as int)),
        decreases pages.len() - k,
    {
        let ghost next = pages@.subrange(0, k + 1);
        proof {
            assert(next.drop_last() =~= pages@.subrange(0, k as int));
            assert(next.last() == pages@[k as int]);
        }
        let ghost old_texts = texts@.map_values(|s: String| s@);
        match &pages[k] {
            OcrPage::Read { text, confidence_percent } => {
                let tc = str_chars(text.as_str());
                if *confidence_percent >= OCR_CONFIDENCE_THRESHOLD_PERCENT && is_nonblank(&tc) {
                    texts.push(text.clone());
                    confs.push(*confidence_percent);
                    proof {
                        assert(texts@.map_values(|s: String| s@) =~= old_texts + seq![text@]);
                    }
                } else {
                    low.push(k);
                    proof {
                        assert(old_texts + seq![] =~= old_texts);
                        assert(confs@ + seq![] =~= confs@);
                    }
                }
            },
            OcrPage::Failed => {
                low.push(k);
                proof {
                    assert(old_texts + seq![] =~= old_texts);
                    assert(confs@ + seq![] =~= confs@);
                }
            },
        }
        k = k + 1;
    }
    proof {
        assert(pages@.subrange(0, pages.len() as int) =~= pages@);
    }
    OcrPlan { texts, confidences_percent: confs, low_pages: low }
}

/// The pages the vision model describes after OCR: every page when OCR kept no text
/// (the whole document goes to vision), else the pages OCR could not read.
pub fn vision_pages(plan: &OcrPlan, page_count: usize) -> (r: Vec<usize>)
    ensures
        plan.texts.len() == 0 ==> r@ == Seq::new(page_count as nat, |i: int| i as usize),
        plan.texts.len() > 0 ==> r@ == plan.low_pages@,
{
    if plan.texts.len() > 0 {
        return plan.low_pages.clone();
    }
    let mut out: Vec<usize> = Vec::new();
    let mut k: usize = 0;
    while k < page_count
        invariant
            k <= page_count,
            out@ == Seq::new(k as nat, |i: int| i as usize),
        decreases page_count - k,
    {
        out.push(k);
        proof {
            assert(out@ =~= Seq::new((k + 1) as nat, |i: int| i as usize));
        }
        k = k + 1;
    }
    out
}

/// The non-blank descriptions, in order.
pub open spec fn nonblank_only(ds: Seq<Seq<char>>) -> Seq<Seq<char>>
    decreases ds.len(),
{
    if ds.len() == 0 {
        seq![]
    } else if nonblank(ds.last()) {
        nonblank_only(ds.drop_last()).push(ds.last())
    } else {
        nonblank_only(ds.drop_last())
    }
}

fn keep_nonblank(ds: &Vec<String>, out: &mut Vec<Vec<char>>)
    ensures
        final(out)@.map_values(|v: Vec<char>| v@) == old(out)@.map_values(|v: Vec<char>| v@)
            + nonblank_only(ds@.map_values(|s: String| s@)),
{
    let ghost all = ds@.map_values(|s: String| s@);
    let ghost start = out@.map_values(|v: Vec<char>| v@);
    let mut k: usize = 0;
    while k < ds.len()
        invariant
            k <= ds.len(),
            all == ds@.map_values(|s: String| s@),
            out@.map_values(|v: Vec<char>| v@) == start + nonblank_only(all.subrange(0, k as int)),
        decreases ds.len() - k,
    {
        let dc = str_chars(ds[k].as_str());
        let ghost before = out@.map_values(|v: Vec<char>| v@);
        if is_nonblank(&dc) {
            out.push(dc);
            proof {
                assert(out@.map_values(|v: Vec<char>| v@) =~= before.push(all[k as int]));
            }
        }
        proof {
            let next = all.subrange(0, k + 1);
            assert(next.drop_last() =~= all.subrange(0, k as int));
            assert(next.last() == all[k as int]);
            assert(out@.map_values(|v: Vec<char>| v@) =~= start + nonblank_only(next));
        }
        k = k + 1;
    }
    proof {
        assert(all.subrange(0, ds.len() as int) =~= all);
    }
}

/// Sum of a sequence of percentages.
pub open spec fn sum_percent(cs: Seq<i32>) -> int
    decreases cs.len(),
{
    if cs.len() == 0 {
        0
    } else {
        sum_percent(cs.drop_last()) + cs.last()
    }
}

/// Confidence of a scanned PDF's text: the mean of the accepted pages' OCR confidences;
/// the vision model's when no page was accepted and the whole document went to vision.
pub open spec fn scanned_confidence(texts: Seq<Seq<char>>, confs: Seq<i32>) -> Confidence {
    if texts.len() == 0 {
        vision_confidence()
    } else if confs.len() == 0 {
        Confidence { num: OCR_CONFIDENCE_THRESHOLD_PERCENT as u64, den: 100 }
    } else {
        Confidence { num: sum_percent(confs) as u64, den: (100 * confs.len()) as u64 }
    }
}

proof fn lemma_sum_percent_bounds(cs: Seq<i32>)
    requires
        forall|k: int| 0 <= k < cs.len() ==> 0 <= #[trigger] cs[k] <= 100,
    ensures
        0 <= sum_percent(cs) <= 100 * cs.len(),
    decreases cs.len(),
{
    if cs.len() > 0 {
        lemma_sum_percent_bounds(cs.drop_last());
    }
}

fn ocr_confidence(texts: &Vec<String>, confs: &Vec<i32>) -> (r: Confidence)
    requires
        forall|k: int| 0 <= k < confs.len() ==> 0 <= #[trigger] confs[k] <= 100,
        confs.len() < 0x1_0000_0000,
    ensures
        r == scanned_confidence(texts@.map_values(|s: String| s@), confs@),
{
    if texts.len() == 0 {
        return Confidence { num: OCR_CONFIDENCE_THRESHOLD_PERCENT as u64, den: 100 };
    }
    if confs.len() == 0 {
        return Confidence { num: OCR_CONFIDENCE_THRESHOLD_PERCENT as u64, den: 100 };
    }
    let mut sum: u64 = 0;
    let mut k: usize = 0;
    while k < confs.len()
        invariant
            k <= confs.len(),
            confs.len() < 0x1_0000_0000,
            forall|u: int| 0 <= u < confs.len() ==> 0 <= #[trigger] confs[u] <= 100,
            sum == sum_percent(confs@.subrange(0, k as int)),
            sum <= 100 * k,
        decreases confs.len() - k,
    {
        proof {
            let next = confs@.subrange(0, k + 1);
            assert(next.drop_last() =~= confs@.subrange(0, k as int));
            assert(next.last() == confs@[k as int]);
        }
        sum = sum + confs[k] as u64;
        k = k + 1;
    }
    proof {
        assert(confs@.subrange(0, confs.len() as int) =~= confs@);
    }
    Confidence { num: sum, den: 100 * confs.len() as u64 }
}

/// The separator between page texts.
pub open spec fn page_sep() -> Seq<char> {
    seq!['\n', '\n']
}

/// Text of a scanned PDF: the accepted OCR texts, then the non-blank vision descriptions
/// of the remaining pages, separated by a blank line and trimmed. With no OCR text at all
/// the whole document goes through vision, and the plan's texts are empty.
pub fn extract_scanned_text(plan: &OcrPlan, vision_descriptions: &Vec<String>) -> (r: ExtractedText)
    requires
        forall|k: int|
            0 <= k < plan.confidences_percent.len() ==> 0 <= #[trigger] plan.confidences_percent[k]
                <= 100,
        plan.confidences_percent.len() < 0x1_0000_0000,
    ensures
        ({
            let t = trim_seq(
                join_seqs(
                    plan.texts@.map_values(|s: String| s@) + nonblank_only(
                        vision_descriptions@.map_values(|s: String| s@),
                    ),
                    page_sep(),
                ),
            );
            &&& r.text@ == t
            &&& r.lang_hint@ == lang_of(t)
            &&& r.confidence == scanned_confidence(
                plan.texts@.map_values(|s: String| s@),
                plan.confidences_percent@,
            )
        }),
{
    let ocr_texts = &plan.texts;
    let mut parts: Vec<Vec<char>> = Vec::new();
    let mut k: usize = 0;
    while k < ocr_texts.len()
        invariant
            k <= ocr_texts.len(),
            parts@.map_values(|v: Vec<char>| v@) == ocr_texts@.map_values(|s: String| s@).subrange(
                0,
                k as int,
            ),
        decreases ocr_texts.len() - k,
    {
        let ghost before = parts@.map_values(|v: Vec<char>| v@);
        let pc = str_chars(ocr_texts[k].as_str());
        proof {
            assert(pc@ == ocr_texts@.map_values(|s: String| s@)[k as int]);
        }
        parts.push(pc);
        proof {
            assert(parts@.map_values(|v: Vec<char>| v@) =~= before.push(pc@));
            assert(parts@.map_values(|v: Vec<char>| v@) =~= ocr_texts@.map_values(|s: String| s@).subrange(
                0,
                k + 1,
            ));
        }
        k = k + 1;
    }
    proof {
        assert(ocr_texts@.map_values(|s: String| s@).subrange(0, ocr_texts.len() as int)
            =~= ocr_texts@.map_values(|s: String| s@));
    }
    keep_nonblank(vision_descriptions, &mut parts);
    let sep: Vec<char> = vec!['\n', '\n'];
    let joined = join_all(&parts, &sep);
    let confidence = ocr_confidence(&plan.texts, &plan.confidences_percent);
    with_lang(trim_chars(&joined), confidence)
}

// ── images ──────────────────────────────────────────────────────────────────

/// Text of an image: the vision model's description as given, with its language.
pub fn extract_image_text(description: String) -> (r: ExtractedText)
    ensures
        r.text@ == description@,
        r.lang_hint@ == lang_of(description@),
        r.confidence == vision_confidence(),
{
    let lang_hint = detect_lang(description.as_str());
    ExtractedText {
        text: description,
        lang_hint,
        confidence: Confidence { num: OCR_CONFIDENCE_THRESHOLD_PERCENT as u64, den: 100 },
    }
}

} // verus!
