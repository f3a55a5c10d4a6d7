//! The decisions of an indexing run: whether the stored index must be reset,
//! what happens to each document, which chunks it yields, what is committed,
//! and how the OCR collaborator is called.
use vstd::prelude::*;
use crate::chunker::{chunk_text, chunks_of};
use crate::document::{fingerprint_of, stored_view};
use crate::targets::{parent_of, path_parent};
use crate::text::{
    chars_of, decimal, decimal_chars, push_str, string_of, views,
};

verus! {

/// How documents are cut and read.
#[derive(Clone, Debug)]
pub struct IndexSettings {
    pub chunk_size: usize,
    pub chunk_overlap: usize,
    pub ocr_enabled: bool,
    pub ocr_lang: String,
    pub ocr_min_chars: usize,
    pub ocr_dpi: u16,
}

impl Default for IndexSettings {
    fn default() -> (r: IndexSettings)
        ensures
            r.chunk_size == 1400,
            r.chunk_overlap == 250,
            r.ocr_enabled,
            r.ocr_lang@ == "pol+eng"@,
            r.ocr_min_chars == 120,
            r.ocr_dpi == 300,
    {
        IndexSettings {
            chunk_size: 1400,
            chunk_overlap: 250,
            ocr_enabled: true,
            ocr_lang: "pol+eng".to_owned(),
            ocr_min_chars: 120,
            ocr_dpi: 300,
        }
    }
}

/// The stage or outcome that a progress event reports.
#[derive(Clone, Copy, Debug, PartialEq, Eq, Structural)]
pub enum ProgressStatus {
    Start,
    Skip,
    Extract,
    Missing,
    Error,
    Done,
}

pub open spec fn status_name(s: ProgressStatus) -> Seq<char> {
    match s {
        ProgressStatus::Start => "start"@,
        ProgressStatus::Skip => "skip"@,
        ProgressStatus::Extract => "extract"@,
        ProgressStatus::Missing => "missing"@,
        ProgressStatus::Error => "error"@,
        ProgressStatus::Done => "done"@,
    }
}

impl ProgressStatus {
    pub fn as_str(self) -> (r: &'static str)
        ensures
            r@ == status_name(self),
    {
        match self {
            ProgressStatus::Start => "start",
            ProgressStatus::Skip => "skip",
            ProgressStatus::Extract => "extract",
            ProgressStatus::Missing => "missing",
            ProgressStatus::Error => "error",
            ProgressStatus::Done => "done",
        }
    }
}

/// A progress event of an indexing run.
#[derive(Clone, Debug)]
pub struct IndexProgress {
    pub current: usize,
    pub total: usize,
    pub file: String,
    pub status: String,
}

impl IndexProgress {
    pub fn new(current: usize, total: usize, file: String, status: ProgressStatus) -> (r:
        IndexProgress)
        ensures
            r.current == current,
            r.total == total,
            r.file@ == file@,
            r.status@ == status_name(status),
    {
        IndexProgress { current, total, file, status: status.as_str().to_owned() }
    }
}

/// The index parameters recorded in the meta table, when present and readable.
#[derive(Clone, Copy, Debug)]
pub struct StoredMeta {
    pub embedding_dim: Option<i64>,
    pub chunk_size: Option<i64>,
    pub chunk_overlap: Option<i64>,
}

pub open spec fn differs(stored: Option<i64>, current: int) -> bool {
    match stored {
        Some(v) => v != current,
        None => false,
    }
}

/// The stored content is dropped when a recorded dimension, chunk size or
/// overlap differs from the one in use.
pub open spec fn reset_needed(m: StoredMeta, dim: int, chunk_size: int, chunk_overlap: int) -> bool {
    differs(m.embedding_dim, dim) || differs(m.chunk_size, chunk_size) || differs(
        m.chunk_overlap,
        chunk_overlap,
    )
}

fn differs_from(stored: Option<i64>, current: usize) -> (r: bool)
    ensures
        r == differs(stored, current as int),
{
    match stored {
        Some(v) => v < 0 || v as u64 != current as u64,
        None => false,
    }
}

/// Whether opening the index with this dimension and these settings must
/// reset all indexed content.
pub fn schema_reset_needed(stored: &StoredMeta, dim: usize, settings: &IndexSettings) -> (r: bool)
    ensures
        r == reset_needed(*stored, dim as int, settings.chunk_size as int, settings.chunk_overlap as int),
{
    differs_from(stored.embedding_dim, dim) || differs_from(stored.chunk_size, settings.chunk_size)
        || differs_from(stored.chunk_overlap, settings.chunk_overlap)
}

/// What happens to one document of a run.
#[derive(Clone, Copy, Debug, PartialEq, Eq, Structural)]
pub enum DocumentStep {
    /// The path is no longer a regular file.
    Missing,
    /// The stored fingerprint matches: nothing is written.
    Skip,
    /// The document is extracted, chunked, embedded and written.
    Index,
}

pub open spec fn step_spec(is_file: bool, stored: Option<Seq<char>>, fingerprint: Seq<char>) -> DocumentStep {
    if !is_file {
        DocumentStep::Missing
    } else if stored == Some(fingerprint) {
        DocumentStep::Skip
    } else {
        DocumentStep::Index
    }
}

/// The step for a document: missing when it is not a regular file, skipped
/// when its stored fingerprint equals the current one, indexed otherwise.
pub fn document_step(is_file: bool, stored: Option<&String>, fingerprint: &String) -> (r:
    DocumentStep)
    ensures
        r == step_spec(is_file, stored_view(stored), fingerprint@),
{
    if !is_file {
        DocumentStep::Missing
    } else {
        match stored {
            Some(h) => if *h == *fingerprint {
                DocumentStep::Skip
            } else {
                DocumentStep::Index
            },
            None => DocumentStep::Index,
        }
    }
}

/// A file indexed with some path, size and modification time, met again
/// with the same three, is skipped: nothing is written for it.
pub proof fn lemma_unchanged_file_is_skipped(path: Seq<char>, size: i64, mtime: i64)
    ensures
        step_spec(true, Some(fingerprint_of(path, size, mtime)), fingerprint_of(path, size, mtime))
            == DocumentStep::Skip,
{
}

/// The language that language detection finds in a text, as a three-letter code.
pub uninterp spec fn detected_lang(text: Seq<char>) -> Option<Seq<char>>;

/// Relies on `whatlang::detect` and `Lang::code`: the detected language's
/// three-letter ISO 639-3 code, or none.
#[verifier::external_body]
fn detect_lang_code(text: &str) -> (r: Option<String>)
    ensures
        match r {
            Some(c) => detected_lang(text@) == Some(c@) && c@.len() == 3,
            None => detected_lang(text@) is None,
        },
{
    whatlang::detect(text).map(|i| i.lang().code().to_string())
}

/// The language of a text (a chunk or a question), as a three-letter code.
pub fn language_of(text: &str) -> (r: Option<String>)
    ensures
        match r {
            Some(c) => detected_lang(text@) == Some(c@) && c@.len() == 3,
            None => detected_lang(text@) is None,
        },
{
    detect_lang_code(text)
}

/// A chunk ready to embed: its 0-based page, its ordinal within the page,
/// its language and its text.
#[derive(Clone, Debug)]
pub struct PlannedChunk {
    pub page: usize,
    pub chunk_index: usize,
    pub lang: Option<String>,
    pub text: String,
}

pub type PlanView = (int, int, Option<Seq<char>>, Seq<char>);

pub open spec fn plan_view(c: PlannedChunk) -> PlanView {
    (
        c.page as int,
        c.chunk_index as int,
        match c.lang {
            Some(l) => Some(l@),
            None => None,
        },
        c.text@,
    )
}

/// The chunks of one page, numbered within the page.
pub open spec fn page_plan(page: int, text: Seq<char>, size: nat, overlap: nat) -> Seq<PlanView> {
    let cs = chunks_of(text, size, overlap);
    Seq::new(cs.len(), |k: int| (page, k, detected_lang(cs[k]), cs[k]))
}

/// The chunks of all pages, page by page.
pub open spec fn planned(pages: Seq<Seq<char>>, size: nat, overlap: nat) -> Seq<PlanView>
    decreases pages.len(),
{
    if pages.len() == 0 {
        seq![]
    } else {
        planned(pages.drop_last(), size, overlap) + page_plan(
            pages.len() - 1,
            pages.last(),
            size,
            overlap,
        )
    }
}

/// Cuts each page into chunks and detects each chunk's language.
pub fn plan_chunks(pages: &Vec<String>, settings: &IndexSettings) -> (r: Vec<PlannedChunk>)
    ensures
        r@.map_values(|c: PlannedChunk| plan_view(c)) == planned(
            views(pages@),
            settings.chunk_size as nat,
            settings.chunk_overlap as nat,
        ),
{
    let ghost ps = views(pages@);
    let ghost size = settings.chunk_size as nat;
    let ghost ov = settings.chunk_overlap as nat;
    let mut out: Vec<PlannedChunk> = Vec::new();
    let mut i: usize = 0;
    while i < pages.len()
        invariant
            i <= pages.len(),
            ps == views(pages@),
            size == settings.chunk_size as nat,
            ov == settings.chunk_overlap as nat,
            out@.map_values(|c: PlannedChunk| plan_view(c)) == planned(
                ps.subrange(0, i as int),
                size,
                ov,
            ),
        decreases pages.len() - i,
    {
        let chunks = chunk_text(pages[i].as_str(), settings.chunk_size, settings.chunk_overlap);
        let ghost base = out@.map_values(|c: PlannedChunk| plan_view(c));
        let ghost pp = page_plan(i as int, ps[i as int], size, ov);
        assert(ps[i as int] == pages@[i as int]@);
        let mut k: usize = 0;
        while k < chunks.len()
            invariant
                k <= chunks.len(),
                i < pages.len(),
                ps == views(pages@),
                size == settings.chunk_size as nat,
                ov == settings.chunk_overlap as nat,
                views(chunks@) == chunks_of(ps[i as int], size, ov),
                pp == page_plan(i as int, ps[i as int], size, ov),
                out@.map_values(|c: PlannedChunk| plan_view(c)) == base + pp.subrange(0, k as int),
            decreases chunks.len() - k,
        {
            let text = chunks[k].clone();
            let lang = detect_lang_code(text.as_str());
            assert(views(chunks@)[k as int] == chunks@[k as int]@);
            let ghost before = out@.map_values(|c: PlannedChunk| plan_view(c));
            out.push(PlannedChunk { page: i, chunk_index: k, lang, text });
            assert(plan_view(out@[out@.len() - 1]) == pp[k as int]);
            assert(out@.map_values(|c: PlannedChunk| plan_view(c)) =~= before.push(pp[k as int]));
            assert(pp.subrange(0, k + 1) =~= pp.subrange(0, k as int).push(pp[k as int]));
            k = k + 1;
            assert(out@.map_values(|c: PlannedChunk| plan_view(c)) =~= base + pp.subrange(
                0,
                k as int,
            ));
        }
        assert(pp.subrange(0, chunks.len() as int) =~= pp);
        assert(ps.subrange(0, i + 1).drop_last() =~= ps.subrange(0, i as int));
        i = i + 1;
    }
    assert(ps.subrange(0, pages.len() as int) =~= ps);
    out
}

/// What is done with a document once its chunks were embedded.
#[derive(Clone, Copy, Debug, PartialEq, Eq, Structural)]
pub enum CommitDecision {
    /// Write the file row with the chunks that have a vector, in one transaction.
    Write,
    /// Every chunk was skipped: report an error, leave the stored rows as they are.
    AllSkipped,
    /// The document yielded no chunk: nothing to write.
    NoChunks,
}

pub open spec fn count_true(v: Seq<bool>) -> nat
    decreases v.len(),
{
    if v.len() == 0 {
        0
    } else {
        count_true(v.drop_last()) + if v.last() {
            1nat
        } else {
            0nat
        }
    }
}

/// The positions of the chunks that have a vector, in order.
pub open spec fn produced_positions(v: Seq<bool>) -> Seq<int>
    decreases v.len(),
{
    if v.len() == 0 {
        seq![]
    } else {
        produced_positions(v.drop_last()) + if v.last() {
            seq![v.len() - 1]
        } else {
            seq![]
        }
    }
}

/// The chunks to write and what to do with the document: `produced[i]` tells
/// whether chunk `i` got a vector. A file row is written only together with
/// at least one chunk.
pub fn commit_plan(produced: &Vec<bool>) -> (r: (CommitDecision, Vec<usize>))
    ensures
        r.1@.map_values(|x: usize| x as int) == produced_positions(produced@),
        r.0 == CommitDecision::Write <==> r.1.len() > 0,
        r.0 == CommitDecision::NoChunks <==> produced.len() == 0,
        r.0 == CommitDecision::AllSkipped <==> produced.len() > 0 && r.1.len() == 0,
{
    let mut rows: Vec<usize> = Vec::new();
    let mut i: usize = 0;
    while i < produced.len()
        invariant
            i <= produced.len(),
            rows@.map_values(|x: usize| x as int) == produced_positions(
                produced@.subrange(0, i as int),
            ),
        decreases produced.len() - i,
    {
        assert(produced@.subrange(0, i + 1).drop_last() =~= produced@.subrange(0, i as int));
        if produced[i] {
            rows.push(i);
        }
        i = i + 1;
        assert(rows@.map_values(|x: usize| x as int) =~= produced_positions(
            produced@.subrange(0, i as int),
        ));
    }
    assert(produced@.subrange(0, produced.len() as int) =~= produced@);
    let d = if rows.len() > 0 {
        CommitDecision::Write
    } else if produced.len() == 0 {
        CommitDecision::NoChunks
    } else {
        CommitDecision::AllSkipped
    };
    (d, rows)
}

/// The status reported once a document's step is known: `missing`, `skip`,
/// or `extract` for a document about to be read.
pub fn step_status(step: DocumentStep) -> (r: ProgressStatus)
    ensures
        r == match step {
            DocumentStep::Missing => ProgressStatus::Missing,
            DocumentStep::Skip => ProgressStatus::Skip,
            DocumentStep::Index => ProgressStatus::Extract,
        },
{
    match step {
        DocumentStep::Missing => ProgressStatus::Missing,
        DocumentStep::Skip => ProgressStatus::Skip,
        DocumentStep::Index => ProgressStatus::Extract,
    }
}

/// The last status of a document that was read: `error` when every chunk
/// was skipped, `done` otherwise.
pub fn commit_status(d: CommitDecision) -> (r: ProgressStatus)
    ensures
        r == if d == CommitDecision::AllSkipped {
            ProgressStatus::Error
        } else {
            ProgressStatus::Done
        },
{
    match d {
        CommitDecision::AllSkipped => ProgressStatus::Error,
        _ => ProgressStatus::Done,
    }
}

proof fn lemma_planned_pages(pages: Seq<Seq<char>>, size: nat, overlap: nat)
    ensures
        forall|k: int|
            0 <= k < planned(pages, size, overlap).len() ==> 0 <= (#[trigger] planned(
                pages,
                size,
                overlap,
            )[k]).0 < pages.len(),
    decreases pages.len(),
{
    if pages.len() > 0 {
        let init = pages.drop_last();
        lemma_planned_pages(init, size, overlap);
        let a = planned(init, size, overlap);
        let b = page_plan(pages.len() - 1, pages.last(), size, overlap);
        assert forall|k: int| 0 <= k < planned(pages, size, overlap).len() implies 0 <= (
        #[trigger] planned(pages, size, overlap)[k]).0 < pages.len() by {
            if k < a.len() {
                assert(planned(pages, size, overlap)[k] == a[k]);
            } else {
                assert(planned(pages, size, overlap)[k] == b[k - a.len()]);
            }
        }
    }
}

/// The chunks of a document are numbered from 0 on each page, without gaps,
/// and come in increasing (page, ordinal) order.
pub proof fn lemma_plan_ordinals(pages: Seq<Seq<char>>, size: nat, overlap: nat)
    ensures
        planned(pages, size, overlap).len() > 0 ==> planned(pages, size, overlap)[0].1 == 0,
        forall|k: int|
            0 < k < planned(pages, size, overlap).len() ==> {
                let prev = planned(pages, size, overlap)[k - 1];
                let cur = #[trigger] planned(pages, size, overlap)[k];
                (cur.0 == prev.0 && cur.1 == prev.1 + 1) || (cur.0 > prev.0 && cur.1 == 0)
            },
    decreases pages.len(),
{
    if pages.len() > 0 {
        let init = pages.drop_last();
        lemma_plan_ordinals(init, size, overlap);
        lemma_planned_pages(init, size, overlap);
        let a = planned(init, size, overlap);
        let b = page_plan(pages.len() - 1, pages.last(), size, overlap);
        let p = planned(pages, size, overlap);
        assert(p == a + b);
        assert forall|k: int| 0 < k < p.len() implies {
            let prev = p[k - 1];
            let cur = #[trigger] p[k];
            (cur.0 == prev.0 && cur.1 == prev.1 + 1) || (cur.0 > prev.0 && cur.1 == 0)
        } by {
            if k < a.len() {
                assert(p[k] == a[k] && p[k - 1] == a[k - 1]);
            } else if k == a.len() {
                assert(p[k] == b[0]);
                assert(p[k - 1] == a[k - 1]);
            } else {
                assert(p[k] == b[k - a.len()]);
                assert(p[k - 1] == b[k - 1 - a.len()]);
            }
        }
        if p.len() > 0 && a.len() == 0 {
            assert(p[0] == b[0]);
        } else if p.len() > 0 {
            assert(p[0] == a[0]);
        }
    }
}

/// Whether every vector has the index's dimension; `lens[i]` is the length
/// of vector `i`. Vectors of another length are never written.
pub fn vectors_match_dimension(lens: &Vec<usize>, dim: usize) -> (r: bool)
    ensures
        r == (forall|i: int| 0 <= i < lens.len() ==> #[trigger] lens[i] == dim),
{
    let mut i: usize = 0;
    while i < lens.len()
        invariant
            i <= lens.len(),
            forall|k: int| 0 <= k < i ==> #[trigger] lens[k] == dim,
        decreases lens.len() - i,
    {
        if lens[i] != dim {
            return false;
        }
        i = i + 1;
    }
    true
}

/// Whether OCR replaces what the PDF extractor found: OCR is on and the
/// cleaned text has fewer than `ocr_min_chars` characters.
pub fn pdf_needs_ocr(cleaned: &str, settings: &IndexSettings) -> (r: bool)
    ensures
        r == (settings.ocr_enabled && cleaned@.len() < settings.ocr_min_chars),
{
    settings.ocr_enabled && chars_of(cleaned).len() < settings.ocr_min_chars
}

/// The arguments of the OCR program: the file, `stdout`, the language, the
/// resolution, and the trained-data folder when one is bundled.
pub open spec fn ocr_args_spec(
    path: Seq<char>,
    lang: Seq<char>,
    dpi: u16,
    tessdata: Option<Seq<char>>,
) -> Seq<Seq<char>> {
    let base = seq![path, "stdout"@, "-l"@, lang, "--dpi"@, decimal(dpi as nat)];
    match tessdata {
        Some(d) => base + seq!["--tessdata-dir"@, d],
        None => base,
    }
}

pub fn ocr_arguments(path: &str, settings: &IndexSettings, tessdata: Option<&str>) -> (r: Vec<
    String,
>)
    ensures
        views(r@) == ocr_args_spec(
            path@,
            settings.ocr_lang@,
            settings.ocr_dpi,
            match tessdata {
                Some(d) => Some(d@),
                None => None,
            },
        ),
{
    let mut out: Vec<String> = Vec::new();
    out.push(path.to_owned());
    out.push("stdout".to_owned());
    out.push("-l".to_owned());
    out.push(settings.ocr_lang.clone());
    out.push("--dpi".to_owned());
    out.push(string_of(&decimal_chars(settings.ocr_dpi as u64)));
    if let Some(d) = tessdata {
        out.push("--tessdata-dir".to_owned());
        out.push(d.to_owned());
    }
    assert(views(out@) =~= ocr_args_spec(
        path@,
        settings.ocr_lang@,
        settings.ocr_dpi,
        match tessdata {
            Some(d) => Some(d@),
            None => None,
        },
    ));
    out
}

/// The last component of a path (`Path::file_name`), when there is one and it is valid UTF-8.
pub uninterp spec fn file_name_of(p: Seq<char>) -> Option<Seq<char>>;

/// Relies on `Path::file_name` and `OsStr::to_str`.
#[verifier::external_body]
fn path_file_name(p: &str) -> (r: Option<String>)
    ensures
        match r {
            Some(n) => file_name_of(p@) == Some(n@),
            None => file_name_of(p@) is None,
        },
{
    std::path::Path::new(p).file_name().and_then(|n| n.to_str()).map(|n| n.to_string())
}

/// The folder an OCR binary is installed under: the folder holding it, or the
/// one above when that folder is named `bin`.
pub open spec fn install_dir(bin: Seq<char>) -> Option<Seq<char>> {
    match parent_of(bin) {
        None => None,
        Some(p) => if file_name_of(p) == Some("bin"@) {
            parent_of(p)
        } else {
            Some(p)
        },
    }
}

pub fn tesseract_base_dir(bin: &str) -> (r: Option<String>)
    ensures
        match r {
            Some(d) => install_dir(bin@) == Some(d@),
            None => install_dir(bin@) is None,
        },
{
    match path_parent(bin) {
        None => None,
        Some(p) => {
            let is_bin = match path_file_name(p.as_str()) {
                Some(n) => crate::document::spells(&chars_of(n.as_str()), "bin"),
                None => false,
            };
            if is_bin {
                path_parent(p.as_str())
            } else {
                Some(p)
            }
        },
    }
}

/// A library search path with `dir` in front of the current value, separated
/// by a colon; `dir` alone when the current value is empty.
pub open spec fn prepended_path(dir: Seq<char>, current: Seq<char>) -> Seq<char> {
    if current.len() == 0 {
        dir
    } else {
        dir + ":"@ + current
    }
}

pub fn prepend_search_path(dir: &str, current: &str) -> (r: String)
    ensures
        r@ == prepended_path(dir@, current@),
{
    if current.is_empty() {
        return dir.to_owned();
    }
    let mut v = chars_of(dir);
    push_str(&mut v, ":");
    push_str(&mut v, current);
    string_of(&v)
}

} // verus!
