//! Document kinds, the choice of documents to index, fingerprints and the
//! preview status of a document.
use vstd::prelude::*;
use crate::text::{chars_of, string_of};
use sha2::Digest;

verus! {

/// The kinds of document the library can read.
#[derive(Clone, Copy, Debug, PartialEq, Eq, Structural)]
pub enum DocumentKind {
    Pdf,
    Txt,
    Md,
    Docx,
}

pub open spec fn kind_name(k: DocumentKind) -> Seq<char> {
    match k {
        DocumentKind::Pdf => "pdf"@,
        DocumentKind::Txt => "txt"@,
        DocumentKind::Md => "md"@,
        DocumentKind::Docx => "docx"@,
    }
}

impl DocumentKind {
    /// The kind's name as stored in the file table.
    pub fn as_str(self) -> (r: &'static str)
        ensures
            r@ == kind_name(self),
    {
        match self {
            DocumentKind::Pdf => "pdf",
            DocumentKind::Txt => "txt",
            DocumentKind::Md => "md",
            DocumentKind::Docx => "docx",
        }
    }
}

pub open spec fn ascii_lower_char(c: char) -> char {
    if 'A' <= c && c <= 'Z' {
        ((c as u8) + 32) as char
    } else {
        c
    }
}

/// ASCII letters lowered, every other character kept.
pub open spec fn ascii_lower(s: Seq<char>) -> Seq<char> {
    s.map_values(|c: char| ascii_lower_char(c))
}

pub fn to_ascii_lower(v: &Vec<char>) -> (r: Vec<char>)
    ensures
        r@ == ascii_lower(v@),
{
    let mut out: Vec<char> = Vec::new();
    let mut i: usize = 0;
    while i < v.len()
        invariant
            i <= v.len(),
            out@ == ascii_lower(v@.subrange(0, i as int)),
        decreases v.len() - i,
    {
        let c = v[i];
        let l = if 'A' <= c && c <= 'Z' {
            ((c as u8) + 32) as char
        } else {
            c
        };
        out.push(l);
        i = i + 1;
        assert(out@ =~= ascii_lower(v@.subrange(0, i as int)));
    }
    assert(v@.subrange(0, v.len() as int) =~= v@);
    out
}

/// Whether two character vectors hold the same text.
pub fn same_chars(a: &Vec<char>, b: &Vec<char>) -> (r: bool)
    ensures
        r == (a@ == b@),
{
    if a.len() != b.len() {
        return false;
    }
    let mut i: usize = 0;
    while i < a.len()
        invariant
            i <= a.len() == b.len(),
            a@.subrange(0, i as int) == b@.subrange(0, i as int),
        decreases a.len() - i,
    {
        if a[i] != b[i] {
            assert(a@[i as int] != b@[i as int]);
            return false;
        }
        assert(a@.subrange(0, i + 1) =~= a@.subrange(0, i as int).push(a@[i as int]));
        assert(b@.subrange(0, i + 1) =~= b@.subrange(0, i as int).push(b@[i as int]));
        i = i + 1;
    }
    assert(a@ =~= a@.subrange(0, a.len() as int));
    assert(b@ =~= b@.subrange(0, b.len() as int));
    true
}

/// Whether the characters spell `lit`.
pub fn spells(v: &Vec<char>, lit: &str) -> (r: bool)
    ensures
        r == (v@ == lit@),
{
    same_chars(v, &chars_of(lit))
}

/// The extension of a path under the platform's path syntax (`Path::extension`),
/// when it is valid UTF-8.
pub uninterp spec fn extension_of(path: Seq<char>) -> Option<Seq<char>>;

/// Relies on `Path::extension` and `OsStr::to_str`.
#[verifier::external_body]
fn path_extension(path: &str) -> (r: Option<String>)
    ensures
        match r {
            Some(e) => extension_of(path@) == Some(e@),
            None => extension_of(path@) is None,
        },
{
    std::path::Path::new(path).extension().and_then(|e| e.to_str()).map(|e| e.to_string())
}

/// The kind that an extension names, letters compared without case.
pub open spec fn kind_for_extension(ext: Seq<char>) -> Option<DocumentKind> {
    let e = ascii_lower(ext);
    if e == "pdf"@ {
        Some(DocumentKind::Pdf)
    } else if e == "txt"@ {
        Some(DocumentKind::Txt)
    } else if e == "md"@ || e == "markdown"@ {
        Some(DocumentKind::Md)
    } else if e == "docx"@ {
        Some(DocumentKind::Docx)
    } else {
        None
    }
}

/// The kind of the document at `path`, by its extension.
pub open spec fn kind_of_path(path: Seq<char>) -> Option<DocumentKind> {
    match extension_of(path) {
        Some(e) => kind_for_extension(e),
        None => None,
    }
}

pub fn kind_from_extension(ext: &str) -> (r: Option<DocumentKind>)
    ensures
        r == kind_for_extension(ext@),
{
    let e = to_ascii_lower(&chars_of(ext));
    if spells(&e, "pdf") {
        Some(DocumentKind::Pdf)
    } else if spells(&e, "txt") {
        Some(DocumentKind::Txt)
    } else if spells(&e, "md") || spells(&e, "markdown") {
        Some(DocumentKind::Md)
    } else if spells(&e, "docx") {
        Some(DocumentKind::Docx)
    } else {
        None
    }
}

pub fn kind_from_path(path: &str) -> (r: Option<DocumentKind>)
    ensures
        r == kind_of_path(path@),
{
    match path_extension(path) {
        Some(e) => kind_from_extension(e.as_str()),
        None => None,
    }
}

/// Whether the file at `path` is a document the library can read (PDF, plain
/// text, Markdown or DOCX, by extension).
pub fn is_supported_document(path: &str) -> (r: bool)
    ensures
        r == (kind_of_path(path@) is Some),
{
    kind_from_path(path).is_some()
}

/// A document chosen for indexing.
#[derive(Clone, Debug)]
pub struct DocumentCandidate {
    pub path: String,
    pub kind: DocumentKind,
}

/// The paths found, in order, reduced to the supported documents, each path once.
pub open spec fn chosen_documents(paths: Seq<Seq<char>>) -> Seq<(Seq<char>, DocumentKind)>
    decreases paths.len(),
{
    if paths.len() == 0 {
        seq![]
    } else {
        let prev = chosen_documents(paths.drop_last());
        let p = paths.last();
        match kind_of_path(p) {
            Some(k) => if exists|i: int| 0 <= i < prev.len() && #[trigger] prev[i].0 == p {
                prev
            } else {
                prev.push((p, k))
            },
            None => prev,
        }
    }
}

pub open spec fn candidate_views(v: Seq<DocumentCandidate>) -> Seq<(Seq<char>, DocumentKind)> {
    v.map_values(|c: DocumentCandidate| (c.path@, c.kind))
}

/// Picks, in order, the supported documents among the paths found, dropping
/// repeated paths.
pub fn select_documents(paths: &Vec<String>) -> (r: Vec<DocumentCandidate>)
    ensures
        candidate_views(r@) == chosen_documents(paths@.map_values(|p: String| p@)),
{
    let ghost ps = paths@.map_values(|p: String| p@);
    let mut out: Vec<DocumentCandidate> = Vec::new();
    let mut i: usize = 0;
    while i < paths.len()
        invariant
            i <= paths.len(),
            ps == paths@.map_values(|p: String| p@),
            candidate_views(out@) == chosen_documents(ps.subrange(0, i as int)),
        decreases paths.len() - i,
    {
        let p = &paths[i];
        assert(ps.subrange(0, i + 1).drop_last() =~= ps.subrange(0, i as int));
        let ghost prev = candidate_views(out@);
        match kind_from_path(p.as_str()) {
            Some(k) => {
                let mut seen = false;
                let mut j: usize = 0;
                while j < out.len()
                    invariant
                        j <= out.len(),
                        prev == candidate_views(out@),
                        seen == (exists|q: int| 0 <= q < j && #[trigger] prev[q].0 == p@),
                    decreases out.len() - j,
                {
                    assert(prev[j as int].0 == out@[j as int].path@);
                    if out[j].path == *p {
                        seen = true;
                    }
                    j = j + 1;
                }
                if !seen {
                    out.push(DocumentCandidate { path: p.clone(), kind: k });
                    assert(candidate_views(out@) =~= prev.push((p@, k)));
                }
            },
            None => {},
        }
        i = i + 1;
    }
    assert(ps.subrange(0, paths.len() as int) =~= ps);
    out
}

/// What SHA-256 gives for these bytes.
pub uninterp spec fn sha256_of(data: Seq<u8>) -> Seq<u8>;

/// Relies on `sha2::Sha256::digest`: the 32-byte SHA-256 digest of the data.
#[verifier::external_body]
fn sha256(data: &Vec<u8>) -> (r: Vec<u8>)
    ensures
        r@ == sha256_of(data@),
        r@.len() == 32,
{
    sha2::Sha256::digest(data.as_slice()).to_vec()
}

/// The eight bytes of `x`, least significant first.
pub open spec fn le_bytes(x: u64) -> Seq<u8> {
    seq![
        x as u8,
        (x >> 8) as u8,
        (x >> 16) as u8,
        (x >> 24) as u8,
        (x >> 32) as u8,
        (x >> 40) as u8,
        (x >> 48) as u8,
        (x >> 56) as u8,
    ]
}

fn push_le_bytes(out: &mut Vec<u8>, x: u64)
    ensures
        final(out)@ == old(out)@ + le_bytes(x),
{
    out.push(x as u8);
    out.push((x >> 8) as u8);
    out.push((x >> 16) as u8);
    out.push((x >> 24) as u8);
    out.push((x >> 32) as u8);
    out.push((x >> 40) as u8);
    out.push((x >> 48) as u8);
    out.push((x >> 56) as u8);
    assert(out@ =~= old(out)@ + le_bytes(x));
}

pub open spec fn hex_digit(d: int) -> char {
    if d < 10 {
        (48 + d) as char
    } else {
        (87 + d) as char
    }
}

/// Lower-case hexadecimal, two digits per byte.
pub open spec fn hex_of(b: Seq<u8>) -> Seq<char>
    decreases b.len(),
{
    if b.len() == 0 {
        seq![]
    } else {
        hex_of(b.drop_last()) + seq![hex_digit((b.last() / 16) as int), hex_digit((b.last() % 16) as int)]
    }
}

fn hex_char(d: u8) -> (r: char)
    requires
        d < 16,
    ensures
        r == hex_digit(d as int),
{
    if d < 10 {
        (48 + d) as char
    } else {
        (87 + d) as char
    }
}

pub fn to_hex(b: &Vec<u8>) -> (r: Vec<char>)
    ensures
        r@ == hex_of(b@),
{
    let mut out: Vec<char> = Vec::new();
    let mut i: usize = 0;
    while i < b.len()
        invariant
            i <= b.len(),
            out@ == hex_of(b@.subrange(0, i as int)),
        decreases b.len() - i,
    {
        assert(b@.subrange(0, i + 1).drop_last() =~= b@.subrange(0, i as int));
        let x = b[i];
        out.push(hex_char(x / 16));
        out.push(hex_char(x % 16));
        i = i + 1;
        assert(out@ =~= hex_of(b@.subrange(0, i as int)));
    }
    assert(b@.subrange(0, b.len() as int) =~= b@);
    out
}

/// The bytes a fingerprint is taken over: the path in UTF-8, then size and
/// modification time as little-endian 64-bit integers.
pub open spec fn fingerprint_input(path: Seq<char>, size: i64, mtime: i64) -> Seq<u8> {
    vstd::utf8::encode_utf8(path) + le_bytes(size as u64) + le_bytes(mtime as u64)
}

/// The fingerprint of a file: hex SHA-256 of its path, size and modification time.
pub open spec fn fingerprint_of(path: Seq<char>, size: i64, mtime: i64) -> Seq<char> {
    hex_of(sha256_of(fingerprint_input(path, size, mtime)))
}

/// The metadata fingerprint that tells whether a file changed since it was indexed.
pub fn file_fingerprint(path: &str, size: i64, mtime: i64) -> (r: String)
    ensures
        r@ == fingerprint_of(path@, size, mtime),
{
    let pb = path.as_bytes();
    let mut data: Vec<u8> = Vec::new();
    let mut i: usize = 0;
    while i < pb.len()
        invariant
            i <= pb.len(),
            data@ == pb@.subrange(0, i as int),
        decreases pb.len() - i,
    {
        data.push(pb[i]);
        i = i + 1;
    }
    assert(pb@.subrange(0, pb.len() as int) =~= pb@);
    push_le_bytes(&mut data, size as u64);
    push_le_bytes(&mut data, mtime as u64);
    let digest = sha256(&data);
    string_of(&to_hex(&digest))
}

/// Where a tracked document stands against the index.
#[derive(Clone, Copy, Debug, PartialEq, Eq, Structural)]
pub enum PreviewStatus {
    New,
    Indexed,
    Changed,
    Missing,
}

pub open spec fn stored_view(o: Option<&String>) -> Option<Seq<char>> {
    match o {
        Some(h) => Some(h@),
        None => None,
    }
}

/// Size and modification time are shown for files that exist, 0 otherwise.
pub open spec fn shown(exists: bool, x: i64) -> i64 {
    if exists {
        x
    } else {
        0
    }
}

pub open spec fn preview_status_spec(
    exists: bool,
    stored: Option<Seq<char>>,
    fingerprint: Seq<char>,
) -> PreviewStatus {
    if !exists {
        PreviewStatus::Missing
    } else {
        match stored {
            None => PreviewStatus::New,
            Some(h) => if h == fingerprint {
                PreviewStatus::Indexed
            } else {
                PreviewStatus::Changed
            },
        }
    }
}

/// `missing` when the file is gone; else `new` when the index holds no
/// fingerprint for it, `indexed` when the stored one equals the current one,
/// `changed` otherwise.
pub fn preview_status(exists: bool, stored: Option<&String>, fingerprint: &String) -> (r:
    PreviewStatus)
    ensures
        r == preview_status_spec(exists, stored_view(stored), fingerprint@),
{
    if !exists {
        PreviewStatus::Missing
    } else {
        match stored {
            None => PreviewStatus::New,
            Some(h) => if *h == *fingerprint {
                PreviewStatus::Indexed
            } else {
                PreviewStatus::Changed
            },
        }
    }
}

pub open spec fn preview_status_name(s: PreviewStatus) -> Seq<char> {
    match s {
        PreviewStatus::New => "new"@,
        PreviewStatus::Indexed => "indexed"@,
        PreviewStatus::Changed => "changed"@,
        PreviewStatus::Missing => "missing"@,
    }
}

impl PreviewStatus {
    pub fn as_str(self) -> (r: &'static str)
        ensures
            r@ == preview_status_name(self),
    {
        match self {
            PreviewStatus::New => "new",
            PreviewStatus::Indexed => "indexed",
            PreviewStatus::Changed => "changed",
            PreviewStatus::Missing => "missing",
        }
    }
}

/// One line of the index preview.
#[derive(Clone, Debug)]
pub struct IndexFilePreview {
    pub path: String,
    pub kind: String,
    pub status: String,
    pub size: i64,
    pub mtime: i64,
}

/// The preview line of a document: a missing file shows size and time 0.
pub fn preview_entry(
    path: String,
    kind: DocumentKind,
    exists: bool,
    stored: Option<&String>,
    fingerprint: &String,
    size: i64,
    mtime: i64,
) -> (r: IndexFilePreview)
    ensures
        r.path@ == path@,
        r.kind@ == kind_name(kind),
        r.status@ == preview_status_name(
            preview_status_spec(exists, stored_view(stored), fingerprint@),
        ),
        r.size == shown(exists, size),
        r.mtime == shown(exists, mtime),
{
    let status = preview_status(exists, stored, fingerprint);
    IndexFilePreview {
        path,
        kind: kind.as_str().to_owned(),
        status: status.as_str().to_owned(),
        size: if exists {
            size
        } else {
            0
        },
        mtime: if exists {
            mtime
        } else {
            0
        },
    }
}


/// `a` sorts before `b`, comparing characters by code point from position `i`
/// (the order of `str`'s `Ord`, which compares UTF-8 bytes).
pub open spec fn text_less_from(a: Seq<char>, b: Seq<char>, i: int) -> bool
    decreases a.len() - i,
{
    if i < 0 || i >= a.len() {
        0 <= i < b.len()
    } else if i >= b.len() {
        false
    } else if a[i] != b[i] {
        (a[i] as u32) < (b[i] as u32)
    } else {
        text_less_from(a, b, i + 1)
    }
}

pub open spec fn text_less(a: Seq<char>, b: Seq<char>) -> bool {
    text_less_from(a, b, 0)
}

proof fn lemma_text_less_transitive(a: Seq<char>, b: Seq<char>, c: Seq<char>, i: int)
    requires
        0 <= i,
        text_less_from(a, b, i),
        text_less_from(b, c, i),
    ensures
        text_less_from(a, c, i),
    decreases a.len() - i,
{
    if i < a.len() && a[i] == b[i] && b[i] == c[i] {
        lemma_text_less_transitive(a, b, c, i + 1);
    }
}

proof fn lemma_text_less_irreflexive(a: Seq<char>, i: int)
    requires
        0 <= i,
    ensures
        !text_less_from(a, a, i),
    decreases a.len() - i,
{
    if i < a.len() {
        lemma_text_less_irreflexive(a, i + 1);
    }
}

fn chars_less(a: &Vec<char>, b: &Vec<char>) -> (r: bool)
    ensures
        r == text_less(a@, b@),
{
    let mut i: usize = 0;
    while i < a.len() && i < b.len() && a[i] == b[i]
        invariant
            i <= a.len(),
            text_less(a@, b@) == text_less_from(a@, b@, i as int),
        decreases a.len() - i,
    {
        i = i + 1;
    }
    if i >= a.len() {
        i < b.len()
    } else if i >= b.len() {
        false
    } else {
        (a[i] as u32) < (b[i] as u32)
    }
}

/// The preview lines ordered by path.
pub fn sort_previews(items: Vec<IndexFilePreview>) -> (r: Vec<IndexFilePreview>)
    ensures
        r@.to_multiset() == items@.to_multiset(),
        forall|k: int, l: int|
            0 <= k < l < r.len() ==> !text_less(#[trigger] r[l].path@, #[trigger] r[k].path@),
{
    broadcast use
        vstd::seq_lib::group_to_multiset_ensures,
        vstd::multiset::group_multiset_axioms,
        vstd::multiset::lemma_multiset_empty_len,
    ;

    let mut rest = items;
    let mut out: Vec<IndexFilePreview> = Vec::new();
    let mut keys: Vec<Vec<char>> = Vec::new();
    let ghost orig = rest@;
    assert(out@.to_multiset().len() == 0);
    assert(orig.to_multiset() =~= rest@.to_multiset().add(out@.to_multiset()));
    while rest.len() > 0
        invariant
            orig.to_multiset() == rest@.to_multiset().add(out@.to_multiset()),
            keys.len() == out.len(),
            forall|k: int| 0 <= k < out.len() ==> #[trigger] keys[k]@ == out[k].path@,
            forall|k: int, l: int|
                0 <= k < l < out.len() ==> !text_less(#[trigger] out[l].path@, #[trigger] out[k].path@),
        decreases rest.len(),
    {
        let ghost before_rest = rest@;
        let x = rest.pop().unwrap();
        assert(before_rest =~= rest@.push(x));
        let xk = chars_of(x.path.as_str());
        let mut p: usize = 0;
        while p < out.len() && !chars_less(&xk, &keys[p])
            invariant
                p <= out.len() == keys.len(),
                xk@ == x.path@,
                forall|k: int| 0 <= k < out.len() ==> #[trigger] keys[k]@ == out[k].path@,
                forall|k: int| 0 <= k < p ==> !text_less(x.path@, #[trigger] out[k].path@),
            decreases out.len() - p,
        {
            p = p + 1;
        }
        let ghost old_out = out@;
        let ghost old_ms = out@.to_multiset();
        assert(p < out.len() ==> text_less(x.path@, out[p as int].path@));
        out.insert(p, x);
        keys.insert(p, xk);
        proof {
            assert forall|k: int| 0 <= k < out.len() implies #[trigger] keys[k]@ == out[k].path@ by {
                if k > p as int {
                    assert(out[k] == old_out[k - 1]);
                }
            }
            assert forall|k: int, l: int| 0 <= k < l < out.len() implies !text_less(
                #[trigger] out[l].path@,
                #[trigger] out[k].path@,
            ) by {
                if l == p {
                    assert(out[k] == old_out[k]);
                } else if k == p {
                    let y = old_out[l - 1];
                    assert(out[l] == y);
                    let z = old_out[p as int];
                    assert(text_less(x.path@, z.path@));
                    if l - 1 > p {
                        assert(!text_less(y.path@, z.path@));
                    }
                    if text_less(y.path@, x.path@) {
                        lemma_text_less_transitive(y.path@, x.path@, z.path@, 0);
                        lemma_text_less_irreflexive(z.path@, 0);
                    }
                } else {
                    let kk = if k < p { k } else { k - 1 };
                    let ll = if l < p { l } else { l - 1 };
                    assert(out[k] == old_out[kk]);
                    assert(out[l] == old_out[ll]);
                }
            }
            assert(out@ == old_out.insert(p as int, x));
            vstd::seq_lib::to_multiset_insert(old_out, p as int, x);
            vstd::seq_lib::to_multiset_build(rest@, x);
            assert(orig.to_multiset() =~= rest@.to_multiset().add(out@.to_multiset()));
        }
    }
    assert(rest@.to_multiset().len() == 0);
    assert(orig.to_multiset() =~= out@.to_multiset());
    out
}

} // verus!
