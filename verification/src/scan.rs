//! Decisions of the incremental indexer: which entries are indexed, whether a file
//! changed, moved or is new, and how the job's counters and phase follow.
//!
//! Walking the directory tree, reading files and writing the database happen outside;
//! each step hands its result to the functions here.

use vstd::prelude::*;
use crate::extract::{
    kind_of_ext, lower_eq, lower_is, path_extension, path_extension_of, Confidence, ExtractKind,
    ExtractedText,
};
use crate::model::{AppError, JobCounts};
use crate::text::{chars_eq, str_chars, string_from_chars};

verus! {

/// Files larger than this are not indexed (100 MB).
pub const MAX_FILE_SIZE_BYTES: i64 = 104857600;

/// Directory names whose contents are never indexed.
pub open spec fn junk_dirs() -> Seq<Seq<char>> {
    seq![
        "node_modules"@, ".git"@, ".svn"@, ".hg"@, "dist"@, "build"@, "out"@, "target"@,
        "coverage"@, "vendor"@, ".cache"@, "__pycache__"@, ".next"@, ".nuxt"@, ".svelte-kit"@,
        "venv"@, ".venv"@, "env"@, "site-packages"@, ".eggs"@, ".pytest_cache"@, ".mypy_cache"@,
    ]
}

/// Files or directories whose presence marks a directory as a code repository root.
pub open spec fn repo_markers() -> Seq<Seq<char>> {
    seq![
        ".git"@, "package.json"@, "Cargo.toml"@, "go.mod"@, "pyproject.toml"@, "setup.py"@,
        "composer.json"@, "pom.xml"@, "build.gradle"@, "build.gradle.kts"@, "Makefile"@,
        "CMakeLists.txt"@,
    ]
}

fn junk_dirs_exec() -> (r: Vec<Vec<char>>)
    ensures
        r@.map_values(|v: Vec<char>| v@) == junk_dirs(),
{
    let v: Vec<Vec<char>> = vec![
        str_chars("node_modules"), str_chars(".git"), str_chars(".svn"), str_chars(".hg"),
        str_chars("dist"), str_chars("build"), str_chars("out"), str_chars("target"),
        str_chars("coverage"), str_chars("vendor"), str_chars(".cache"), str_chars("__pycache__"),
        str_chars(".next"), str_chars(".nuxt"), str_chars(".svelte-kit"), str_chars("venv"),
        str_chars(".venv"), str_chars("env"), str_chars("site-packages"), str_chars(".eggs"),
        str_chars(".pytest_cache"), str_chars(".mypy_cache"),
    ];
    proof {
        assert(v@.map_values(|v: Vec<char>| v@) =~= junk_dirs());
    }
    v
}

/// The repository marker names, in the order they are checked.
pub fn repo_marker_names() -> (r: Vec<String>)
    ensures
        r@.map_values(|s: String| s@) == repo_markers(),
{
    let v: Vec<String> = vec![
        string_from_chars(str_chars(".git")), string_from_chars(str_chars("package.json")),
        string_from_chars(str_chars("Cargo.toml")), string_from_chars(str_chars("go.mod")),
        string_from_chars(str_chars("pyproject.toml")), string_from_chars(str_chars("setup.py")),
        string_from_chars(str_chars("composer.json")), string_from_chars(str_chars("pom.xml")),
        string_from_chars(str_chars("build.gradle")),
        string_from_chars(str_chars("build.gradle.kts")),
        string_from_chars(str_chars("Makefile")), string_from_chars(str_chars("CMakeLists.txt")),
    ];
    proof {
        assert(v@.map_values(|s: String| s@) =~= repo_markers());
    }
    v
}

fn contains_word(list: &Vec<Vec<char>>, w: &Vec<char>) -> (r: bool)
    ensures
        r == list@.map_values(|v: Vec<char>| v@).contains(w@),
{
    let ghost lv = list@.map_values(|v: Vec<char>| v@);
    let mut k: usize = 0;
    while k < list.len()
        invariant
            k <= list.len(),
            lv == list@.map_values(|v: Vec<char>| v@),
            forall|j: int| 0 <= j < k ==> lv[j] != w@,
        decreases list.len() - k,
    {
        if chars_eq(&list[k], w) {
            proof {
                assert(lv[k as int] == w@);
            }
            return true;
        }
        k = k + 1;
    }
    proof {
        assert forall|j: int| 0 <= j < lv.len() implies lv[j] != w@ by {}
    }
    false
}

/// Media type recorded for a file, by its (case-insensitive) extension.
pub open spec fn media_type_of(ext: Option<Seq<char>>) -> Option<Seq<char>> {
    match ext {
        None => None,
        Some(e) => if lower_is(e, "pdf"@) {
            Some("pdf"@)
        } else if lower_is(e, "docx"@) {
            Some("docx"@)
        } else if lower_is(e, "xlsx"@) || lower_is(e, "xls"@) || lower_is(e, "xlsm"@) {
            Some("xlsx"@)
        } else if lower_is(e, "csv"@) {
            Some("csv"@)
        } else if lower_is(e, "txt"@) {
            Some("txt"@)
        } else if lower_is(e, "md"@) {
            Some("md"@)
        } else if lower_is(e, "png"@) {
            Some("png"@)
        } else if lower_is(e, "jpg"@) || lower_is(e, "jpeg"@) {
            Some("jpg"@)
        } else if lower_is(e, "webp"@) {
            Some("webp"@)
        } else {
            None
        },
    }
}

/// The media type of a file name, or `None` for an unsupported one.
pub fn detect_media_type(filename: &str) -> (r: Option<&'static str>)
    ensures
        match media_type_of(path_extension(filename@)) {
            Some(m) => r matches Some(t) && t@ == m,
            None => r is None,
        },
{
    match path_extension_of(filename) {
        None => None,
        Some(e) => {
            let e = str_chars(e.as_str());
            if lower_eq(&e, "pdf") {
                Some("pdf")
            } else if lower_eq(&e, "docx") {
                Some("docx")
            } else if lower_eq(&e, "xlsx") || lower_eq(&e, "xls") || lower_eq(&e, "xlsm") {
                Some("xlsx")
            } else if lower_eq(&e, "csv") {
                Some("csv")
            } else if lower_eq(&e, "txt") {
                Some("txt")
            } else if lower_eq(&e, "md") {
                Some("md")
            } else if lower_eq(&e, "png") {
                Some("png")
            } else if lower_eq(&e, "jpg") || lower_eq(&e, "jpeg") {
                Some("jpg")
            } else if lower_eq(&e, "webp") {
                Some("webp")
            } else {
                None
            }
        },
    }
}

/// The walk enters an entry: the root itself always; below it, not hidden entries and
/// not junk directories (an entry whose name is not UTF-8 is entered).
pub open spec fn descends(depth: int, name: Option<Seq<char>>, is_dir: bool) -> bool {
    depth == 0 || match name {
        None => true,
        Some(n) => !(n.len() > 0 && n[0] == '.') && !(is_dir && junk_dirs().contains(n)),
    }
}

/// Whether the directory walk enters an entry (see [`descends`]).
pub fn should_descend(depth: usize, name: Option<&str>, is_dir: bool) -> (r: bool)
    ensures
        r == descends(depth as int, match name {
            Some(n) => Some(n@),
            None => None,
        }, is_dir),
{
    if depth == 0 {
        return true;
    }
    match name {
        None => true,
        Some(n) => {
            let c = str_chars(n);
            if c.len() > 0 && c[0] == '.' {
                return false;
            }
            if is_dir {
                let junk = junk_dirs_exec();
                !contains_word(&junk, &c)
            } else {
                true
            }
        },
    }
}

/// What the indexer does with a walked entry.
pub enum EntryDecision {
    /// Not indexed: not a regular file, no UTF-8 name, hidden, or unsupported type.
    Skip,
    /// A supported file of this media type.
    Index { media_type: &'static str },
}

/// The entry is a regular, non-hidden file with a supported type.
pub open spec fn entry_media(is_file: bool, filename: Option<Seq<char>>) -> Option<Seq<char>> {
    if !is_file {
        None
    } else {
        match filename {
            None => None,
            Some(n) => if n.len() > 0 && n[0] == '.' {
                None
            } else {
                media_type_of(path_extension(n))
            },
        }
    }
}

/// Classifies a walked entry (see [`entry_media`]).
pub fn classify_entry(is_file: bool, filename: Option<&str>) -> (r: EntryDecision)
    ensures
        match entry_media(is_file, match filename {
            Some(n) => Some(n@),
            None => None,
        }) {
            Some(m) => r matches EntryDecision::Index { media_type } && media_type@ == m,
            None => r is Skip,
        },
{
    if !is_file {
        return EntryDecision::Skip;
    }
    match filename {
        None => EntryDecision::Skip,
        Some(n) => {
            let c = str_chars(n);
            if c.len() > 0 && c[0] == '.' {
                return EntryDecision::Skip;
            }
            match detect_media_type(n) {
                Some(media_type) => EntryDecision::Index { media_type },
                None => EntryDecision::Skip,
            }
        },
    }
}

/// A file of this size is indexed.
pub fn within_size_limit(size_bytes: i64) -> (r: bool)
    ensures
        r == (size_bytes <= MAX_FILE_SIZE_BYTES),
{
    size_bytes <= MAX_FILE_SIZE_BYTES
}

/// A file whose recorded mtime and size both match needs nothing but a stamp.
pub fn is_unchanged(existing_mtime_ns: i64, existing_size: i64, mtime_ns: i64, size_bytes: i64) -> (r:
    bool)
    ensures
        r == (existing_mtime_ns == mtime_ns && existing_size == size_bytes),
{
    existing_mtime_ns == mtime_ns && existing_size == size_bytes
}

/// `s` with every `'\\'` replaced by `'/'`.
pub open spec fn forward_slashes(s: Seq<char>) -> Seq<char> {
    s.map_values(|c: char| if c == '\\' { '/' } else { c })
}

/// What `Path::new(path).strip_prefix(root)` returns, as text.
pub uninterp spec fn path_strip_prefix(path: Seq<char>, root: Seq<char>) -> Option<Seq<char>>;

/// `Path::new(path).strip_prefix(root).ok()` as text.
#[verifier::external_body]
fn strip_prefix_of(path: &str, root: &str) -> (r: Option<String>)
    ensures
        match r {
            Some(s) => path_strip_prefix(path@, root@) == Some(s@),
            None => path_strip_prefix(path@, root@) is None,
        },
{
    std::path::Path::new(path)
        .strip_prefix(root)
        .ok()
        .map(|p| p.to_string_lossy().into_owned())
}

/// Path of a file relative to its root with `/` separators (the path itself when it is
/// not under the root).
pub fn relative_path(path: &str, root: &str) -> (r: String)
    ensures
        r@ == forward_slashes(
            match path_strip_prefix(path@, root@) {
                Some(s) => s,
                None => path@,
            },
        ),
{
    let base: Vec<char> = match strip_prefix_of(path, root) {
        Some(s) => str_chars(s.as_str()),
        None => str_chars(path),
    };
    let mut out: Vec<char> = Vec::new();
    let mut k: usize = 0;
    while k < base.len()
        invariant
            k <= base.len(),
            out@ == forward_slashes(base@.subrange(0, k as int)),
        decreases base.len() - k,
    {
        out.push(if base[k] == '\\' { '/' } else { base[k] });
        proof {
            assert(out@ =~= forward_slashes(base@.subrange(0, k + 1)));
        }
        k = k + 1;
    }
    proof {
        assert(base@.subrange(0, base.len() as int) =~= base@);
    }
    string_from_chars(out)
}

/// What happens to a changed or new file once its content fingerprint is known.
pub enum FingerprintAction {
    /// Same content already indexed under another path: the record moves here.
    Move { file_id: i64 },
    /// Same content already indexed under this path: the record is stamped as seen.
    Stamp { file_id: i64 },
    /// New content: the metadata is written (updated or added).
    Store,
}

/// Decides from the record holding the same fingerprint in this root, if any.
pub fn fingerprint_action(same_content: Option<(i64, &str)>, rel_path: &str) -> (r: FingerprintAction)
    ensures
        match same_content {
            None => r is Store,
            Some((id, p)) => if p@ != rel_path@ {
                r == FingerprintAction::Move { file_id: id }
            } else {
                r == FingerprintAction::Stamp { file_id: id }
            },
        },
{
    match same_content {
        None => FingerprintAction::Store,
        Some((id, p)) => {
            let a = str_chars(p);
            let b = str_chars(rel_path);
            if chars_eq(&a, &b) {
                FingerprintAction::Stamp { file_id: id }
            } else {
                FingerprintAction::Move { file_id: id }
            }
        },
    }
}

/// The BLAKE3 hash of some bytes as lowercase hex, as the `blake3` crate computes it.
pub uninterp spec fn blake3_hex(bytes: Seq<u8>) -> Seq<char>;

/// `blake3::hash(bytes).to_hex()`.
#[verifier::external_body]
fn blake3_hash_hex(bytes: &[u8]) -> (r: String)
    ensures
        r@ == blake3_hex(bytes@),
{
    blake3::hash(bytes).to_hex().to_string()
}

/// Content fingerprint of a file: the BLAKE3 hash of its bytes in hex.
pub fn fingerprint(bytes: &[u8]) -> (r: String)
    ensures
        r@ == blake3_hex(bytes@),
{
    blake3_hash_hex(bytes)
}

/// The text of the cancellation error.
pub open spec fn cancelled_message() -> Seq<char> {
    "cancelled"@
}

/// `Err(Indexer("cancelled"))` once cancellation is requested.
pub fn check_cancel(cancelled: bool) -> (r: Result<(), AppError>)
    ensures
        !cancelled ==> r is Ok,
        cancelled ==> (r matches Err(AppError::Indexer(m)) && m@ == cancelled_message()),
{
    if cancelled {
        Err(AppError::Indexer(string_from_chars(str_chars("cancelled"))))
    } else {
        Ok(())
    }
}

/// The error is the cancellation error.
pub fn is_cancelled_error(e: &AppError) -> (r: bool)
    ensures
        r == (e matches AppError::Indexer(m) && m@ == cancelled_message()),
{
    match e {
        AppError::Indexer(m) => {
            let a = str_chars(m.as_str());
            let b = str_chars("cancelled");
            chars_eq(&a, &b)
        },
        _ => false,
    }
}

/// Phase recorded for a job that ended in error: `"cancelled"` when cancellation was
/// requested or caused it, else `"interrupted"`.
pub fn final_phase(cancel_requested: bool, e: &AppError) -> (r: &'static str)
    ensures
        (cancel_requested || (e matches AppError::Indexer(m) && m@ == cancelled_message()))
            ==> r@ == "cancelled"@,
        !(cancel_requested || (e matches AppError::Indexer(m) && m@ == cancelled_message()))
            ==> r@ == "interrupted"@,
{
    if cancel_requested || is_cancelled_error(e) {
        "cancelled"
    } else {
        "interrupted"
    }
}

} // verus!

verus! {

// ── code repositories ───────────────────────────────────────────────────────

/// What `Path::new(p).parent()` returns, as text.
pub uninterp spec fn path_parent(p: Seq<char>) -> Option<Seq<char>>;

/// `Path::new(a) == Path::new(b)` (component-wise equality).
pub uninterp spec fn path_eq(a: Seq<char>, b: Seq<char>) -> bool;

/// `Path::new(p).starts_with(base)` (component-wise prefix).
pub uninterp spec fn path_starts_with(p: Seq<char>, base: Seq<char>) -> bool;

/// `Path::new(p).parent()` as text; the parent drops the final component, so it is
/// shorter than the path.
#[verifier::external_body]
fn parent_of(p: &str) -> (r: Option<String>)
    ensures
        match r {
            Some(q) => path_parent(p@) == Some(q@) && q@.len() < p@.len(),
            None => path_parent(p@) is None,
        },
{
    std::path::Path::new(p).parent().map(|q| q.to_string_lossy().into_owned())
}

/// `Path::new(a) == Path::new(b)`.
#[verifier::external_body]
fn paths_equal(a: &str, b: &str) -> (r: bool)
    ensures
        r == path_eq(a@, b@),
{
    std::path::Path::new(a) == std::path::Path::new(b)
}

/// `Path::new(p).starts_with(base)`.
#[verifier::external_body]
fn starts_with_path(p: &str, base: &str) -> (r: bool)
    ensures
        r == path_starts_with(p@, base@),
{
    std::path::Path::new(p).starts_with(base)
}

/// Directories checked for repository markers, from `dir` upward, stopping before the
/// root, at a path with no parent, or when the parent leaves the root.
pub open spec fn repo_walk(dir: Seq<char>, root: Seq<char>) -> Seq<Seq<char>>
    decreases dir.len(),
{
    if path_eq(dir, root) {
        Seq::<Seq<char>>::empty()
    } else {
        seq![dir] + match path_parent(dir) {
            None => Seq::<Seq<char>>::empty(),
            Some(p) => if p.len() < dir.len() && path_starts_with(p, root) {
                repo_walk(p, root)
            } else {
                Seq::<Seq<char>>::empty()
            },
        }
    }
}

/// Directories whose repository markers decide whether a file lies in a code
/// repository: the file's directory (the root, when the file has no parent), then its
/// ancestors, up to but not including the root.
pub open spec fn repo_dirs(file: Seq<char>, root: Seq<char>) -> Seq<Seq<char>> {
    repo_walk(
        match path_parent(file) {
            Some(p) => p,
            None => root,
        },
        root,
    )
}

/// The directories to check, in order (see [`repo_dirs`]); a file is in a code
/// repository when any of them holds a repository marker.
pub fn repo_check_dirs(file: &str, root: &str) -> (r: Vec<String>)
    ensures
        r@.map_values(|s: String| s@) == repo_dirs(file@, root@),
{
    let mut dir: String = match parent_of(file) {
        Some(p) => p,
        None => string_from_chars(str_chars(root)),
    };
    let ghost first = dir@;
    let mut out: Vec<String> = Vec::new();
    loop
        invariant
            out@.map_values(|s: String| s@) + repo_walk(dir@, root@) == repo_walk(first, root@),
            repo_walk(first, root@) == repo_dirs(file@, root@),
        decreases dir@.len(),
    {
        let ghost before = out@.map_values(|s: String| s@);
        let ghost d = dir@;
        if paths_equal(dir.as_str(), root) {
            proof {
                assert(repo_walk(d, root@) =~= Seq::<Seq<char>>::empty());
                assert(before + Seq::<Seq<char>>::empty() =~= before);
            }
            return out;
        }
        out.push(dir.clone());
        proof {
            assert(out@.map_values(|s: String| s@) =~= before.push(d));
        }
        match parent_of(dir.as_str()) {
            None => {
                proof {
                    assert(repo_walk(d, root@) =~= seq![d]);
                    assert(before.push(d) =~= before + seq![d]);
                }
                return out;
            },
            Some(p) => {
                if !starts_with_path(p.as_str(), root) {
                    proof {
                        assert(repo_walk(d, root@) =~= seq![d]);
                        assert(before.push(d) =~= before + seq![d]);
                    }
                    return out;
                }
                proof {
                    assert(repo_walk(d, root@) =~= seq![d] + repo_walk(p@, root@));
                    assert(before.push(d) + repo_walk(p@, root@) =~= before + (seq![d]
                        + repo_walk(p@, root@)));
                }
                dir = p;
            },
        }
    }
}

// ── extraction outcome ──────────────────────────────────────────────────────

/// Half of a confidence: the factor that files inside a code repository get, so that
/// they still appear in results but rank below standalone documents.
pub open spec fn half(c: Confidence) -> Confidence {
    Confidence { num: c.num, den: (2 * c.den) as u64 }
}

/// What an extraction that returned `extracted` means for the job: empty text counts as
/// an error and stores nothing; otherwise the file's content is stored with the
/// extractor's confidence, halved for a file inside a code repository.
pub fn extraction_step(extracted: &ExtractedText, in_code_repo: bool, counts: &mut JobCounts) -> (r:
    Option<Confidence>)
    requires
        extracted.text@.len() == 0 ==> old(counts).error_count < i64::MAX,
        extracted.text@.len() > 0 && in_code_repo ==> extracted.confidence.den <= 0x7fff_ffff_ffff_ffff,
    ensures
        extracted.text@.len() == 0 ==> r is None && *final(counts) == (JobCounts {
            error_count: (old(counts).error_count + 1) as i64,
            ..*old(counts)
        }),
        extracted.text@.len() > 0 ==> *final(counts) == *old(counts) && r == Some(
            if in_code_repo {
                half(extracted.confidence)
            } else {
                extracted.confidence
            },
        ),
{
    if extracted.text.as_str().is_empty() {
        counts.record_error();
        None
    } else if in_code_repo {
        Some(Confidence { num: extracted.confidence.num, den: 2 * extracted.confidence.den })
    } else {
        Some(Confidence { num: extracted.confidence.num, den: extracted.confidence.den })
    }
}

/// The vector stored with each of `n` chunks: the chunk's embedding when the embedding
/// call returned one for it, else none (the chunk is stored without a vector, and stays
/// findable by the full-text pass).
pub fn chunk_vectors(embedded: Option<Vec<Vec<u8>>>, n: usize) -> (r: Vec<Option<Vec<u8>>>)
    ensures
        r.len() == n,
        forall|i: int|
            0 <= i < n ==> match embedded {
                Some(v) => if i < v.len() {
                    (#[trigger] r[i]) matches Some(b) && b@ == v[i]@
                } else {
                    r[i] is None
                },
                None => r[i] is None,
            },
{
    let ghost orig = embedded;
    let mut r: Vec<Option<Vec<u8>>> = Vec::new();
    match embedded {
        None => {
            while r.len() < n
                invariant
                    r.len() <= n,
                    orig is None,
                    forall|i: int| 0 <= i < r.len() ==> (#[trigger] r[i]) is None,
                decreases n - r.len(),
            {
                r.push(None);
            }
        },
        Some(mut v) => {
            let ghost all = v@;
            while r.len() < n
                invariant
                    r.len() <= n,
                    orig matches Some(v0) && v0@ == all,
                    r.len() <= all.len() ==> v@ == all.subrange(r.len() as int, all.len() as int),
                    r.len() > all.len() ==> v@.len() == 0,
                    forall|i: int|
                        0 <= i < r.len() ==> if i < all.len() {
                            (#[trigger] r[i]) matches Some(b) && b@ == all[i]@
                        } else {
                            r[i] is None
                        },
                decreases n - r.len(),
            {
                if v.len() > 0 {
                    let ghost k = r.len() as int;
                    let b = v.remove(0);
                    proof {
                        assert(b == all[k]);
                    }
                    r.push(Some(b));
                    proof {
                        assert(v@ =~= all.subrange(r.len() as int, all.len() as int));
                    }
                } else {
                    r.push(None);
                }
            }
        },
    }
    r
}

// ── indexed types ───────────────────────────────────────────────────────────

/// The walk indexes exactly the files that an extractor can read, and the media type it
/// records names itself: a file whose extension is that type gets the same type again
/// and goes to the same extractor.
pub proof fn lemma_indexed_types_are_extractable(ext: Option<Seq<char>>)
    ensures
        media_type_of(ext) is None <==> kind_of_ext(ext) == ExtractKind::Unsupported,
        media_type_of(ext) matches Some(m) ==> media_type_of(Some(m)) == Some(m) && kind_of_ext(
            Some(m),
        ) == kind_of_ext(ext),
{
    lemma_words_spelled();
    if let Some(e) = ext {
        lemma_lower_is_unique(e);
    }
    if let Some(m) = media_type_of(ext) {
        lemma_lowercase_word_against_all(m);
    }
}

proof fn lemma_words_spelled()
    ensures
        "pdf"@.len() == 3 && "pdf"@[0] == 'p' && "pdf"@[1] == 'd' && "pdf"@[2] == 'f',
        "docx"@.len() == 4 && "docx"@[0] == 'd' && "docx"@[1] == 'o' && "docx"@[2] == 'c' && "docx"@[3] == 'x',
        "xlsx"@.len() == 4 && "xlsx"@[0] == 'x' && "xlsx"@[1] == 'l' && "xlsx"@[2] == 's' && "xlsx"@[3] == 'x',
        "xls"@.len() == 3 && "xls"@[0] == 'x' && "xls"@[1] == 'l' && "xls"@[2] == 's',
        "xlsm"@.len() == 4 && "xlsm"@[0] == 'x' && "xlsm"@[1] == 'l' && "xlsm"@[2] == 's' && "xlsm"@[3] == 'm',
        "csv"@.len() == 3 && "csv"@[0] == 'c' && "csv"@[1] == 's' && "csv"@[2] == 'v',
        "txt"@.len() == 3 && "txt"@[0] == 't' && "txt"@[1] == 'x' && "txt"@[2] == 't',
        "md"@.len() == 2 && "md"@[0] == 'm' && "md"@[1] == 'd',
        "png"@.len() == 3 && "png"@[0] == 'p' && "png"@[1] == 'n' && "png"@[2] == 'g',
        "jpg"@.len() == 3 && "jpg"@[0] == 'j' && "jpg"@[1] == 'p' && "jpg"@[2] == 'g',
        "jpeg"@.len() == 4 && "jpeg"@[0] == 'j' && "jpeg"@[1] == 'p' && "jpeg"@[2] == 'e' && "jpeg"@[3] == 'g',
        "webp"@.len() == 4 && "webp"@[0] == 'w' && "webp"@[1] == 'e' && "webp"@[2] == 'b' && "webp"@[3] == 'p',
{
    reveal_strlit("pdf");
    reveal_strlit("docx");
    reveal_strlit("xlsx");
    reveal_strlit("xls");
    reveal_strlit("xlsm");
    reveal_strlit("csv");
    reveal_strlit("txt");
    reveal_strlit("md");
    reveal_strlit("png");
    reveal_strlit("jpg");
    reveal_strlit("jpeg");
    reveal_strlit("webp");
}

proof fn lemma_lower_is_unique(e: Seq<char>)
    ensures
        forall|w1: Seq<char>, w2: Seq<char>|
            #[trigger] lower_is(e, w1) && #[trigger] lower_is(e, w2) ==> w1 == w2,
{
    assert forall|w1: Seq<char>, w2: Seq<char>| #[trigger] lower_is(e, w1) && #[trigger] lower_is(e, w2)
        implies w1 == w2 by {
        assert(w1 =~= w2);
    }
}

proof fn lemma_lowercase_word_is(m: Seq<char>, w: Seq<char>)
    requires
        forall|k: int| 0 <= k < m.len() ==> !('A' <= #[trigger] m[k] && m[k] <= 'Z'),
    ensures
        lower_is(m, w) <==> m == w,
{
    if lower_is(m, w) {
        assert(m =~= w);
    }
}

proof fn lemma_lowercase_word_against_all(m: Seq<char>)
    requires
        forall|k: int| 0 <= k < m.len() ==> !('A' <= #[trigger] m[k] && m[k] <= 'Z'),
    ensures
        lower_is(m, "pdf"@) <==> m == "pdf"@,
        lower_is(m, "docx"@) <==> m == "docx"@,
        lower_is(m, "xlsx"@) <==> m == "xlsx"@,
        lower_is(m, "xls"@) <==> m == "xls"@,
        lower_is(m, "xlsm"@) <==> m == "xlsm"@,
        lower_is(m, "csv"@) <==> m == "csv"@,
        lower_is(m, "txt"@) <==> m == "txt"@,
        lower_is(m, "md"@) <==> m == "md"@,
        lower_is(m, "png"@) <==> m == "png"@,
        lower_is(m, "jpg"@) <==> m == "jpg"@,
        lower_is(m, "jpeg"@) <==> m == "jpeg"@,
        lower_is(m, "webp"@) <==> m == "webp"@,
{
    lemma_lowercase_word_is(m, "pdf"@);
    lemma_lowercase_word_is(m, "docx"@);
    lemma_lowercase_word_is(m, "xlsx"@);
    lemma_lowercase_word_is(m, "xls"@);
    lemma_lowercase_word_is(m, "xlsm"@);
    lemma_lowercase_word_is(m, "csv"@);
    lemma_lowercase_word_is(m, "txt"@);
    lemma_lowercase_word_is(m, "md"@);
    lemma_lowercase_word_is(m, "png"@);
    lemma_lowercase_word_is(m, "jpg"@);
    lemma_lowercase_word_is(m, "jpeg"@);
    lemma_lowercase_word_is(m, "webp"@);
}

} // verus!
