//! Index targets: their stored form, which paths they cover, and pruning.
use vstd::prelude::*;
use crate::document::{ascii_lower, spells, to_ascii_lower};
use crate::text::chars_of;

verus! {

/// Whether a target is a single file or a folder.
#[derive(Clone, Copy, Debug, PartialEq, Eq, Structural)]
pub enum IndexTargetKind {
    File,
    Folder,
}

/// A configured source of documents.
#[derive(Clone, Debug)]
pub struct IndexTarget {
    pub path: String,
    pub kind: IndexTargetKind,
    pub include_subfolders: bool,
}

/// A target as plain values: path, kind, whether subfolders count.
pub type TargetView = (Seq<char>, IndexTargetKind, bool);

pub open spec fn target_view(t: IndexTarget) -> TargetView {
    (t.path@, t.kind, t.include_subfolders)
}

pub open spec fn target_views(ts: Seq<IndexTarget>) -> Seq<TargetView> {
    ts.map_values(|t: IndexTarget| target_view(t))
}

/// A target as the targets table stores it.
#[derive(Clone, Debug)]
pub struct TargetRow {
    pub path: String,
    pub kind: String,
    pub include_subfolders: i64,
}

pub type RowView = (Seq<char>, Seq<char>, i64);

pub open spec fn row_view(r: TargetRow) -> RowView {
    (r.path@, r.kind@, r.include_subfolders)
}

pub open spec fn kind_text(k: IndexTargetKind) -> Seq<char> {
    match k {
        IndexTargetKind::File => "file"@,
        IndexTargetKind::Folder => "folder"@,
    }
}

/// The stored form of a target: kind as `file` or `folder`, the flag as 1 or 0.
pub open spec fn encode_target(t: TargetView) -> RowView {
    (
        t.0,
        kind_text(t.1),
        if t.2 {
            1
        } else {
            0
        },
    )
}

/// A kind read back, without regard to the case of its letters: `folder`
/// is a folder, anything else a file.
pub open spec fn kind_from_text(s: Seq<char>) -> IndexTargetKind {
    if ascii_lower(s) == "folder"@ {
        IndexTargetKind::Folder
    } else {
        IndexTargetKind::File
    }
}

pub open spec fn decode_target(r: RowView) -> TargetView {
    (r.0, kind_from_text(r.1), r.2 != 0)
}

pub fn target_row(t: &IndexTarget) -> (r: TargetRow)
    ensures
        row_view(r) == encode_target(target_view(*t)),
{
    let kind = match t.kind {
        IndexTargetKind::File => "file",
        IndexTargetKind::Folder => "folder",
    };
    TargetRow {
        path: t.path.clone(),
        kind: kind.to_owned(),
        include_subfolders: if t.include_subfolders {
            1
        } else {
            0
        },
    }
}

/// The target that a stored row describes.
pub fn target_from_row(path: String, kind: &str, include_subfolders: i64) -> (r: IndexTarget)
    ensures
        target_view(r) == decode_target((path@, kind@, include_subfolders)),
{
    let lower = to_ascii_lower(&chars_of(kind));
    let k = if spells(&lower, "folder") {
        IndexTargetKind::Folder
    } else {
        IndexTargetKind::File
    };
    IndexTarget { path, kind: k, include_subfolders: include_subfolders != 0 }
}

/// The rows stored for a list of targets, in order.
pub fn target_rows(ts: &Vec<IndexTarget>) -> (r: Vec<TargetRow>)
    ensures
        r@.map_values(|x: TargetRow| row_view(x)) == target_views(ts@).map_values(
            |t: TargetView| encode_target(t),
        ),
{
    let mut out: Vec<TargetRow> = Vec::new();
    let mut i: usize = 0;
    while i < ts.len()
        invariant
            i <= ts.len(),
            out.len() == i,
            forall|k: int|
                0 <= k < i ==> row_view(#[trigger] out@[k]) == encode_target(target_view(ts@[k])),
        decreases ts.len() - i,
    {
        let row = target_row(&ts[i]);
        out.push(row);
        i = i + 1;
    }
    assert(out@.map_values(|x: TargetRow| row_view(x)) =~= target_views(ts@).map_values(
        |t: TargetView| encode_target(t),
    ));
    out
}

/// Saving a list of targets and reading the rows back, in the order they were
/// written, gives the same list: paths, kinds and flags.
pub proof fn lemma_targets_round_trip(ts: Seq<TargetView>)
    ensures
        ts.map_values(|t: TargetView| encode_target(t)).map_values(|r: RowView| decode_target(r))
            == ts,
{
    reveal_strlit("folder");
    reveal_strlit("file");
    assert forall|i: int| 0 <= i < ts.len() implies #[trigger] decode_target(
        encode_target(ts[i]),
    ) == ts[i] by {
        let t = ts[i];
        if t.1 == IndexTargetKind::Folder {
            assert(ascii_lower("folder"@) =~= "folder"@);
        } else {
            assert(ascii_lower("file"@) =~= "file"@);
            assert(ascii_lower("file"@) != "folder"@);
        }
    }
    assert(ts.map_values(|t: TargetView| encode_target(t)).map_values(
        |r: RowView| decode_target(r),
    ) =~= ts);
}

/// Whether two paths name the same path, compared component by component
/// (`Path` equality).
pub uninterp spec fn same_path(a: Seq<char>, b: Seq<char>) -> bool;

/// The parent of a path (`Path::parent`), when there is one and it is valid UTF-8.
pub uninterp spec fn parent_of(p: Seq<char>) -> Option<Seq<char>>;

/// Whether `root` is a leading run of whole components of `p` (`Path::starts_with`).
pub uninterp spec fn under_root(p: Seq<char>, root: Seq<char>) -> bool;

/// Relies on `PartialEq for Path`.
#[verifier::external_body]
fn paths_equal(a: &str, b: &str) -> (r: bool)
    ensures
        r == same_path(a@, b@),
{
    std::path::Path::new(a) == std::path::Path::new(b)
}

/// Relies on `Path::parent` and `Path::to_str`.
#[verifier::external_body]
pub(crate) fn path_parent(p: &str) -> (r: Option<String>)
    ensures
        match r {
            Some(q) => parent_of(p@) == Some(q@),
            None => parent_of(p@) is None,
        },
{
    std::path::Path::new(p).parent().and_then(|q| q.to_str()).map(|q| q.to_string())
}

/// Relies on `Path::starts_with`.
#[verifier::external_body]
fn path_starts_with(p: &str, root: &str) -> (r: bool)
    ensures
        r == under_root(p@, root@),
{
    std::path::Path::new(p).starts_with(std::path::Path::new(root))
}

/// A path belongs to a target: the file itself; a direct child of a folder
/// taken without subfolders; anything under a folder taken with them.
pub open spec fn target_covers(t: TargetView, p: Seq<char>) -> bool {
    match t.1 {
        IndexTargetKind::File => same_path(p, t.0),
        IndexTargetKind::Folder => if t.2 {
            under_root(p, t.0)
        } else {
            match parent_of(p) {
                Some(q) => same_path(q, t.0),
                None => false,
            }
        },
    }
}

pub open spec fn in_targets(ts: Seq<TargetView>, p: Seq<char>) -> bool {
    exists|i: int| 0 <= i < ts.len() && #[trigger] target_covers(ts[i], p)
}

pub fn covers(t: &IndexTarget, p: &str) -> (r: bool)
    ensures
        r == target_covers(target_view(*t), p@),
{
    match t.kind {
        IndexTargetKind::File => paths_equal(p, t.path.as_str()),
        IndexTargetKind::Folder => if t.include_subfolders {
            path_starts_with(p, t.path.as_str())
        } else {
            match path_parent(p) {
                Some(q) => paths_equal(q.as_str(), t.path.as_str()),
                None => false,
            }
        },
    }
}

/// Whether some target covers the path.
pub fn path_in_targets(ts: &Vec<IndexTarget>, p: &str) -> (r: bool)
    ensures
        r == in_targets(target_views(ts@), p@),
{
    let ghost tv = target_views(ts@);
    let mut i: usize = 0;
    while i < ts.len()
        invariant
            i <= ts.len(),
            tv == target_views(ts@),
            forall|k: int| 0 <= k < i ==> !target_covers(#[trigger] tv[k], p@),
        decreases ts.len() - i,
    {
        if covers(&ts[i], p) {
            assert(target_covers(tv[i as int], p@));
            return true;
        }
        i = i + 1;
    }
    false
}

/// The indexed paths that no target covers, in order.
pub open spec fn paths_to_prune(ts: Seq<TargetView>, files: Seq<Seq<char>>) -> Seq<Seq<char>> {
    files.filter(uncovered(ts))
}

pub open spec fn uncovered(ts: Seq<TargetView>) -> spec_fn(Seq<char>) -> bool {
    |f: Seq<char>| !in_targets(ts, f)
}

/// The indexed files to remove: those that no target covers. With no targets
/// that is every file.
pub fn prune_selection(ts: &Vec<IndexTarget>, files: &Vec<String>) -> (r: Vec<String>)
    ensures
        r@.map_values(|s: String| s@) == paths_to_prune(
            target_views(ts@),
            files@.map_values(|s: String| s@),
        ),
{
    let ghost fs = files@.map_values(|s: String| s@);
    let ghost tv = target_views(ts@);
    let mut out: Vec<String> = Vec::new();
    let mut i: usize = 0;
    while i < files.len()
        invariant
            i <= files.len(),
            fs == files@.map_values(|s: String| s@),
            tv == target_views(ts@),
            out@.map_values(|s: String| s@) == fs.subrange(0, i as int).filter(uncovered(tv)),
        decreases files.len() - i,
    {
        let ghost before = fs.subrange(0, i as int);
        assert(fs.subrange(0, i + 1).drop_last() =~= before);
        proof {
            reveal(Seq::filter);
        }
        if !path_in_targets(ts, files[i].as_str()) {
            out.push(files[i].clone());
        }
        assert(out@.map_values(|s: String| s@) =~= fs.subrange(0, i + 1).filter(uncovered(tv)));
        i = i + 1;
    }
    assert(fs.subrange(0, files.len() as int) =~= fs);
    out
}

/// Pruning keeps exactly the covered files: a file is selected for removal if
/// and only if no target covers it, and with no targets every file goes.
pub proof fn lemma_prune_selects_uncovered(ts: Seq<TargetView>, files: Seq<Seq<char>>)
    ensures
        forall|f: Seq<char>|
            #[trigger] paths_to_prune(ts, files).contains(f) <==> files.contains(f) && !in_targets(
                ts,
                f,
            ),
        ts.len() == 0 ==> paths_to_prune(ts, files) == files,
{
    assert forall|f: Seq<char>| #[trigger]
        paths_to_prune(ts, files).contains(f) <==> files.contains(f) && !in_targets(ts, f) by {
        if paths_to_prune(ts, files).contains(f) {
            files.lemma_filter_contains_rev(uncovered(ts), f);
            let j = choose|j: int| 0 <= j < files.filter(uncovered(ts)).len() && files.filter(uncovered(ts))[j] == f;
            files.lemma_filter_pred(uncovered(ts), j);
        }
        if files.contains(f) && !in_targets(ts, f) {
            let i = choose|i: int| 0 <= i < files.len() && files[i] == f;
            files.lemma_filter_contains(uncovered(ts), i);
        }
    }
    if ts.len() == 0 {
        lemma_prune_without_targets(ts, files);
    }
}

proof fn lemma_prune_without_targets(ts: Seq<TargetView>, files: Seq<Seq<char>>)
    requires
        ts.len() == 0,
    ensures
        paths_to_prune(ts, files) == files,
    decreases files.len(),
{
    reveal(Seq::filter);
    if files.len() > 0 {
        lemma_prune_without_targets(ts, files.drop_last());
        assert(!in_targets(ts, files.last()));
        assert(files.drop_last().push(files.last()) =~= files);
    }
}

} // verus!
