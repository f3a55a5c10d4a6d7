//! Boundary-aware character chunks with overlap.
use vstd::prelude::*;
use crate::text::{
    chars_of, copy_range, is_unicode_space, lemma_trim_is_piece, string_of, trim, trim_chars,
    views,
};

verus! {

/// A character after which a chunk may end: whitespace or closing punctuation.
pub open spec fn is_boundary(c: char) -> bool {
    is_unicode_space(c) || c == '.' || c == '!' || c == '?' || c == ';' || c == ',' || c == ':'
        || c == ')' || c == ']' || c == '}'
}

fn boundary_char(c: char) -> (r: bool)
    ensures
        r == is_boundary(c),
{
    crate::text::char_is_space(c, false) || c == '.' || c == '!' || c == '?' || c == ';' || c
        == ',' || c == ':' || c == ')' || c == ']' || c == '}'
}

/// Index of the last boundary character in `t[lo..hi)`, or `lo - 1` when there is none.
pub open spec fn last_boundary(t: Seq<char>, lo: int, hi: int) -> int
    decreases hi - lo,
{
    if hi <= lo {
        lo - 1
    } else if is_boundary(t[hi - 1]) {
        hi - 1
    } else {
        last_boundary(t, lo, hi - 1)
    }
}

/// Where the window that starts at `start` ends (exclusive): the hard cut at
/// `max` characters, or just after the last boundary before it when that
/// boundary lies at least `max / 3` characters after the start.
pub open spec fn window_end(t: Seq<char>, start: int, max: int) -> int {
    let cand = if start + max < t.len() {
        start + max
    } else {
        t.len() as int
    };
    let b = last_boundary(t, start, cand);
    if b >= start && b - start >= max / 3 {
        b + 1
    } else {
        cand
    }
}

/// The start of the next window: `overlap` characters before the end, or the
/// end itself when the window is not longer than the overlap.
pub open spec fn next_start(start: int, end: int, overlap: int) -> int {
    if end - overlap > start {
        end - overlap
    } else {
        end
    }
}

/// The windows `[start, end)` cut from `t`, from `start` on.
pub open spec fn windows_from(t: Seq<char>, start: int, max: int, overlap: int) -> Seq<(int, int)>
    decreases t.len() - start,
{
    if start < 0 || start >= t.len() || max <= 0 || overlap < 0 {
        seq![]
    } else {
        let e = window_end(t, start, max);
        if e >= t.len() || e <= start {
            seq![(start, e)]
        } else {
            let nx = if e - overlap > start {
                e - overlap
            } else {
                e
            };
            seq![(start, e)] + windows_from(t, nx, max, overlap)
        }
    }
}

/// The text of a window, trimmed.
pub open spec fn piece(t: Seq<char>, w: (int, int)) -> Seq<char> {
    trim(t.subrange(w.0, w.1), false)
}

/// The non-empty trimmed windows, in order.
pub open spec fn pieces(t: Seq<char>, ws: Seq<(int, int)>) -> Seq<Seq<char>>
    decreases ws.len(),
{
    if ws.len() == 0 {
        seq![]
    } else {
        pieces(t, ws.drop_last()) + if piece(t, ws.last()).len() > 0 {
            seq![piece(t, ws.last())]
        } else {
            seq![]
        }
    }
}

/// The overlap actually used: at most `max - 1`.
pub open spec fn effective_overlap(max: int, overlap: int) -> int {
    if overlap < max - 1 {
        overlap
    } else {
        max - 1
    }
}

/// The windows cut from the trimmed input.
pub open spec fn chunk_windows(s: Seq<char>, max: nat, overlap: nat) -> Seq<(int, int)> {
    let t = trim(s, false);
    windows_from(t, 0, max as int, effective_overlap(max as int, overlap as int))
}

/// The chunks of `s`: the trimmed input cut into windows, each window trimmed,
/// the empty ones dropped.
pub open spec fn chunks_of(s: Seq<char>, max: nat, overlap: nat) -> Seq<Seq<char>> {
    pieces(trim(s, false), chunk_windows(s, max, overlap))
}

fn find_window_end(t: &Vec<char>, start: usize, max: usize) -> (e: usize)
    requires
        start < t.len(),
        max > 0,
    ensures
        e == window_end(t@, start as int, max as int),
        start < e <= t.len(),
{
    let cand = if max < t.len() - start {
        start + max
    } else {
        t.len()
    };
    let mut j: usize = cand;
    while j > start && !boundary_char(t[j - 1])
        invariant
            start <= j <= cand <= t.len(),
            last_boundary(t@, start as int, cand as int) == last_boundary(
                t@,
                start as int,
                j as int,
            ),
        decreases j,
    {
        j = j - 1;
    }
    if j > start && j - 1 - start >= max / 3 {
        j
    } else {
        cand
    }
}

/// Splits `s` into chunks of at most `max_chars` characters, consecutive
/// chunks sharing `overlap` characters, ends snapped back to a boundary
/// character where that keeps at least a third of the chunk.
pub fn chunk_text(s: &str, max_chars: usize, overlap: usize) -> (r: Vec<String>)
    ensures
        views(r@) == chunks_of(s@, max_chars as nat, overlap as nat),
{
    let v = chars_of(s);
    let t = trim_chars(&v, false);
    let mut out: Vec<String> = Vec::new();
    if max_chars == 0 {
        proof {
            assert(views(out@) =~= chunks_of(s@, max_chars as nat, overlap as nat));
        }
        return out;
    }
    let ov: usize = if overlap < max_chars - 1 {
        overlap
    } else {
        max_chars - 1
    };
    let n = t.len();
    let ghost ws = windows_from(t@, 0, max_chars as int, ov as int);
    let ghost mut done: Seq<(int, int)> = seq![];
    let mut start: usize = 0;
    while start < n
        invariant
            n == t.len(),
            max_chars > 0,
            ov < max_chars,
            ws == done + windows_from(t@, start as int, max_chars as int, ov as int),
            views(out@) == pieces(t@, done),
        decreases n - start,
    {
        let e = find_window_end(&t, start, max_chars);
        let w = copy_range(&t, start, e);
        let p = trim_chars(&w, false);
        let ghost prev = done;
        proof {
            done = done.push((start as int, e as int));
            assert(done.drop_last() =~= prev);
        }
        if p.len() > 0 {
            out.push(string_of(&p));
        }
        assert(views(out@) =~= pieces(t@, done));
        if e == n {
            assert(windows_from(t@, start as int, max_chars as int, ov as int) =~= seq![
                (start as int, e as int),
            ]);
            assert(ws =~= done + windows_from(t@, n as int, max_chars as int, ov as int));
            start = n;
        } else {
            let next: usize = if e - start > ov {
                e - ov
            } else {
                e
            };
            assert(next as int == next_start(start as int, e as int, ov as int));
            assert(ws =~= done + windows_from(t@, next as int, max_chars as int, ov as int));
            start = next;
        }
    }
    assert(ws =~= done);
    out
}

proof fn lemma_windows_bounds(t: Seq<char>, start: int, max: int, overlap: int)
    requires
        0 <= start,
        0 <= overlap,
    ensures
        forall|k: int|
            0 <= k < windows_from(t, start, max, overlap).len() ==> start <= #[trigger] windows_from(
                t,
                start,
                max,
                overlap,
            )[k].0 <= windows_from(t, start, max, overlap)[k].1 <= t.len(),
    decreases t.len() - start,
{
    if !(start < 0 || start >= t.len() || max <= 0 || overlap < 0) {
        let e = window_end(t, start, max);
        lemma_window_end_bounds(t, start, max);
        let ws = windows_from(t, start, max, overlap);
        if !(e >= t.len() || e <= start) {
            let nx = next_start(start, e, overlap);
            let rest = windows_from(t, nx, max, overlap);
            lemma_windows_bounds(t, nx, max, overlap);
            assert forall|k: int| 0 <= k < ws.len() implies start <= #[trigger] ws[k].0 <= ws[k].1
                <= t.len() by {
                if k > 0 {
                    assert(ws[k] == rest[k - 1]);
                }
            }
        }
    }
}

proof fn lemma_last_boundary_bounds(t: Seq<char>, lo: int, hi: int)
    ensures
        lo - 1 <= last_boundary(t, lo, hi),
        hi > lo ==> last_boundary(t, lo, hi) < hi,
    decreases hi - lo,
{
    if hi > lo && !is_boundary(t[hi - 1]) {
        lemma_last_boundary_bounds(t, lo, hi - 1);
    }
}

proof fn lemma_window_end_bounds(t: Seq<char>, start: int, max: int)
    requires
        0 <= start < t.len(),
        max > 0,
    ensures
        start < window_end(t, start, max) <= t.len(),
{
    let cand = if start + max < t.len() {
        start + max
    } else {
        t.len() as int
    };
    lemma_last_boundary_bounds(t, start, cand);
}

proof fn lemma_pieces_come_from_windows(t: Seq<char>, ws: Seq<(int, int)>)
    ensures
        forall|k: int|
            0 <= k < pieces(t, ws).len() ==> exists|j: int|
                0 <= j < ws.len() && #[trigger] pieces(t, ws)[k] == piece(t, ws[j]),
    decreases ws.len(),
{
    if ws.len() > 0 {
        let init = ws.drop_last();
        lemma_pieces_come_from_windows(t, init);
        assert forall|k: int| 0 <= k < pieces(t, ws).len() implies exists|j: int|
            0 <= j < ws.len() && #[trigger] pieces(t, ws)[k] == piece(t, ws[j]) by {
            if k < pieces(t, init).len() {
                let j = choose|j: int|
                    0 <= j < init.len() && #[trigger] pieces(t, init)[k] == piece(t, init[j]);
                assert(ws[j] == init[j]);
            } else {
                assert(pieces(t, ws)[k] == piece(t, ws[ws.len() - 1]));
            }
        }
    }
}

/// Every chunk is a contiguous run of characters of the input, so the chunker
/// never cuts a character in two and never brings in a replacement character.
pub proof fn lemma_chunks_are_pieces_of_input(s: Seq<char>, max: nat, overlap: nat)
    ensures
        forall|k: int|
            0 <= k < chunks_of(s, max, overlap).len() ==> exists|lo: int, hi: int|
                0 <= lo <= hi <= s.len() && #[trigger] chunks_of(s, max, overlap)[k]
                    == s.subrange(lo, hi),
        forall|k: int, m: int|
            0 <= k < chunks_of(s, max, overlap).len() && 0 <= m < chunks_of(
                s,
                max,
                overlap,
            )[k].len() && #[trigger] chunks_of(s, max, overlap)[k][m] == '\u{FFFD}' ==> s.contains(
                '\u{FFFD}',
            ),
{
    let t = trim(s, false);
    let ov = effective_overlap(max as int, overlap as int);
    let ws = windows_from(t, 0, max as int, ov);
    let cs = chunks_of(s, max, overlap);
    lemma_trim_is_piece(s, false);
    let (tl, th) = choose|lo: int, hi: int| 0 <= lo <= hi <= s.len() && t == s.subrange(lo, hi);
    if max == 0 {
        assert(cs.len() == 0);
        return;
    }
    lemma_windows_bounds(t, 0, max as int, ov);
    lemma_pieces_come_from_windows(t, ws);
    assert forall|k: int| 0 <= k < cs.len() implies exists|lo: int, hi: int|
        0 <= lo <= hi <= s.len() && #[trigger] cs[k] == s.subrange(lo, hi) by {
        let j = choose|j: int| 0 <= j < ws.len() && #[trigger] pieces(t, ws)[k] == piece(t, ws[j]);
        let w = ws[j];
        let sub = t.subrange(w.0, w.1);
        lemma_trim_is_piece(sub, false);
        let (pl, ph) = choose|lo: int, hi: int|
            0 <= lo <= hi <= sub.len() && trim(sub, false) == sub.subrange(lo, hi);
        assert(cs[k] =~= s.subrange(tl + w.0 + pl, tl + w.0 + ph));
    }
    assert forall|k: int, m: int|
        0 <= k < cs.len() && 0 <= m < cs[k].len() && #[trigger] cs[k][m] == '\u{FFFD}' implies s.contains(
        '\u{FFFD}',
    ) by {
        let (lo, hi) = choose|lo: int, hi: int|
            0 <= lo <= hi <= s.len() && #[trigger] cs[k] == s.subrange(lo, hi);
        assert(s[lo + m] == cs[k][m]);
    }
}

/// Position `i` lies in one of the windows.
pub open spec fn covers(ws: Seq<(int, int)>, i: int) -> bool {
    exists|k: int| 0 <= k < ws.len() && #[trigger] ws[k].0 <= i < ws[k].1
}

proof fn lemma_windows_cover(t: Seq<char>, start: int, max: int, overlap: int)
    requires
        0 <= start,
        0 <= overlap,
        max > 0,
    ensures
        forall|i: int|
            start <= i < t.len() ==> #[trigger] covers(windows_from(t, start, max, overlap), i),
    decreases t.len() - start,
{
    if start < t.len() {
        let e = window_end(t, start, max);
        lemma_window_end_bounds(t, start, max);
        let ws = windows_from(t, start, max, overlap);
        if e >= t.len() || e <= start {
            assert forall|i: int| start <= i < t.len() implies #[trigger] covers(ws, i) by {
                assert(ws[0].0 <= i < ws[0].1);
            }
        } else {
            let nx = next_start(start, e, overlap);
            let rest = windows_from(t, nx, max, overlap);
            lemma_windows_cover(t, nx, max, overlap);
            assert forall|i: int| start <= i < t.len() implies #[trigger] covers(ws, i) by {
                if i < e {
                    assert(ws[0].0 <= i < ws[0].1);
                } else {
                    assert(covers(rest, i));
                    let k = choose|k: int| 0 <= k < rest.len() && #[trigger] rest[k].0 <= i < rest[k].1;
                    assert(ws[k + 1] == rest[k]);
                }
            }
        }
    }
}

/// The windows that the chunker cuts cover the whole trimmed input, and the
/// chunks are exactly the non-empty trimmed windows, in order.
pub proof fn lemma_chunk_windows_cover_input(s: Seq<char>, max: nat, overlap: nat)
    requires
        max > 0,
    ensures
        forall|i: int|
            0 <= i < trim(s, false).len() ==> #[trigger] covers(chunk_windows(s, max, overlap), i),
        chunks_of(s, max, overlap) == pieces(trim(s, false), chunk_windows(s, max, overlap)),
{
    lemma_windows_cover(
        trim(s, false),
        0,
        max as int,
        effective_overlap(max as int, overlap as int),
    );
}

} // verus!
