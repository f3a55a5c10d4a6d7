//! Turning file-system events into re-index batches: what to watch, which
//! event paths count, and the per-path debounce window.
use vstd::prelude::*;
use crate::document::{is_supported_document, kind_of_path};
use crate::targets::{
    parent_of, path_in_targets, path_parent, in_targets, target_view, target_views, IndexTarget,
    IndexTargetKind, TargetView,
};

verus! {

/// Events for one path closer together than this (milliseconds) count once.
pub const DEBOUNCE_MS: u64 = 2000;

/// `now - then`, or 0 when the clock reads earlier than `then`.
pub open spec fn elapsed(now: u64, then: u64) -> int {
    if now >= then {
        now - then
    } else {
        0
    }
}

/// An event at `now` passes when the path had no event yet, or its last
/// admitted event lies at least `DEBOUNCE_MS` back.
pub open spec fn admits(last: Map<Seq<char>, u64>, p: Seq<char>, now: u64) -> bool {
    !last.contains_key(p) || elapsed(now, last[p]) >= DEBOUNCE_MS
}

/// The debounce step: whether the event passes, and the times after it.
pub open spec fn debounce(last: Map<Seq<char>, u64>, p: Seq<char>, now: u64) -> (Map<Seq<char>, u64>, bool) {
    if admits(last, p, now) {
        (last.insert(p, now), true)
    } else {
        (last, false)
    }
}

/// The time of the last admitted event of each path.
pub struct Debouncer {
    entries: Vec<(String, u64)>,
}

pub open spec fn entries_map(es: Seq<(String, u64)>) -> Map<Seq<char>, u64>
    decreases es.len(),
{
    if es.len() == 0 {
        Map::empty()
    } else {
        entries_map(es.drop_last()).insert(es.last().0@, es.last().1)
    }
}

proof fn lemma_entries_map_update(es: Seq<(String, u64)>, idx: int, e: (String, u64))
    requires
        0 <= idx < es.len(),
        es[idx].0@ == e.0@,
        forall|k: int| idx < k < es.len() ==> (#[trigger] es[k]).0@ != e.0@,
    ensures
        entries_map(es.update(idx, e)) == entries_map(es).insert(e.0@, e.1),
    decreases es.len(),
{
    let up = es.update(idx, e);
    if idx == es.len() - 1 {
        assert(up.drop_last() =~= es.drop_last());
        assert(entries_map(up) =~= entries_map(es).insert(e.0@, e.1));
    } else {
        assert(up.drop_last() =~= es.drop_last().update(idx, e));
        lemma_entries_map_update(es.drop_last(), idx, e);
        assert(es.last().0@ != e.0@);
        assert(entries_map(up) =~= entries_map(es).insert(e.0@, e.1));
    }
}

proof fn lemma_entries_map_lookup(es: Seq<(String, u64)>, p: Seq<char>, idx: int)
    requires
        -1 <= idx < es.len(),
        idx >= 0 ==> es[idx].0@ == p,
        forall|k: int| idx < k < es.len() ==> (#[trigger] es[k]).0@ != p,
    ensures
        idx < 0 ==> !entries_map(es).contains_key(p),
        idx >= 0 ==> entries_map(es).contains_key(p) && entries_map(es)[p] == es[idx].1,
    decreases es.len(),
{
    if es.len() > 0 && idx < es.len() - 1 {
        lemma_entries_map_lookup(es.drop_last(), p, idx);
    }
}

impl View for Debouncer {
    type V = Map<Seq<char>, u64>;

    closed spec fn view(&self) -> Map<Seq<char>, u64> {
        entries_map(self.entries@)
    }
}

impl Debouncer {
    pub fn new() -> (r: Debouncer)
        ensures
            r@ == Map::<Seq<char>, u64>::empty(),
    {
        Debouncer { entries: Vec::new() }
    }

    /// Whether an event for `path` at `now_ms` passes the debounce window; a
    /// passing event becomes the path's last event.
    pub fn should_process(&mut self, path: &String, now_ms: u64) -> (r: bool)
        ensures
            (final(self)@, r) == debounce(old(self)@, path@, now_ms),
    {
        let mut idx: usize = self.entries.len();
        let mut found = false;
        while idx > 0 && !found
            invariant
                idx <= self.entries.len(),
                self.entries@ == old(self).entries@,
                found ==> idx < self.entries.len() && self.entries@[idx as int].0@ == path@,
                forall|k: int|
                    (if found {
                        idx + 1
                    } else {
                        idx as int
                    }) <= k < self.entries.len() ==> (#[trigger] self.entries@[k]).0@ != path@,
            decreases idx + if found {
                0int
            } else {
                1int
            },
        {
            if self.entries[idx - 1].0 == *path {
                found = true;
            }
            idx = idx - 1;
        }
        proof {
            lemma_entries_map_lookup(
                self.entries@,
                path@,
                if found {
                    idx as int
                } else {
                    -1
                },
            );
        }
        if found {
            let then = self.entries[idx].1;
            let gap: u64 = if now_ms >= then {
                now_ms - then
            } else {
                0
            };
            if gap < DEBOUNCE_MS {
                return false;
            }
            let e = (self.entries[idx].0.clone(), now_ms);
            proof {
                lemma_entries_map_update(self.entries@, idx as int, e);
            }
            self.entries.set(idx, e);
            true
        } else {
            let e = (path.clone(), now_ms);
            self.entries.push(e);
            assert(self.entries@.drop_last() =~= old(self).entries@);
            true
        }
    }
}

/// A path to put under watch.
#[derive(Clone, Debug)]
pub struct WatchRequest {
    pub path: String,
    pub recursive: bool,
}

/// What a target asks to watch: a file itself when it exists, else its parent
/// folder (itself when it has none), never recursively; a folder, recursively
/// when its subfolders count.
pub open spec fn watch_spec(t: TargetView, exists: bool) -> (Seq<char>, bool) {
    match t.1 {
        IndexTargetKind::File => if exists {
            (t.0, false)
        } else {
            match parent_of(t.0) {
                Some(q) => (q, false),
                None => (t.0, false),
            }
        },
        IndexTargetKind::Folder => (t.0, t.2),
    }
}

/// The watch requests for a target list; `exists[i]` tells whether the path of
/// target `i` exists.
pub fn watch_requests(targets: &Vec<IndexTarget>, exists: &Vec<bool>) -> (r: Vec<WatchRequest>)
    requires
        exists.len() == targets.len(),
    ensures
        r.len() == targets.len(),
        forall|i: int|
            0 <= i < r.len() ==> ((#[trigger] r[i]).path@, r[i].recursive) == watch_spec(
                target_view(targets[i]),
                exists[i],
            ),
{
    let mut out: Vec<WatchRequest> = Vec::new();
    let mut i: usize = 0;
    while i < targets.len()
        invariant
            i <= targets.len() == exists.len(),
            out.len() == i,
            forall|k: int|
                0 <= k < i ==> ((#[trigger] out[k]).path@, out[k].recursive) == watch_spec(
                    target_view(targets[k]),
                    exists[k],
                ),
        decreases targets.len() - i,
    {
        let t = &targets[i];
        let req = match t.kind {
            IndexTargetKind::File => if exists[i] {
                WatchRequest { path: t.path.clone(), recursive: false }
            } else {
                match path_parent(t.path.as_str()) {
                    Some(q) => WatchRequest { path: q, recursive: false },
                    None => WatchRequest { path: t.path.clone(), recursive: false },
                }
            },
            IndexTargetKind::Folder => WatchRequest {
                path: t.path.clone(),
                recursive: t.include_subfolders,
            },
        };
        out.push(req);
        i = i + 1;
    }
    out
}

/// An event path is a candidate when it is a regular file, a supported
/// document, and covered by a target.
pub open spec fn eligible(ts: Seq<TargetView>, p: Seq<char>, is_file: bool) -> bool {
    is_file && kind_of_path(p) is Some && in_targets(ts, p)
}

/// The paths of one event that pass, in order, and the debounce times after them.
pub open spec fn admitted(
    ts: Seq<TargetView>,
    last: Map<Seq<char>, u64>,
    events: Seq<(Seq<char>, bool)>,
    now: u64,
) -> (Map<Seq<char>, u64>, Seq<Seq<char>>)
    decreases events.len(),
{
    if events.len() == 0 {
        (last, seq![])
    } else {
        let (m, acc) = admitted(ts, last, events.drop_last(), now);
        let (p, is_file) = events.last();
        if eligible(ts, p, is_file) {
            let (m2, ok) = debounce(m, p, now);
            (
                m2,
                if ok {
                    acc.push(p)
                } else {
                    acc
                },
            )
        } else {
            (m, acc)
        }
    }
}

pub open spec fn event_views(events: Seq<(String, bool)>) -> Seq<(Seq<char>, bool)> {
    events.map_values(|e: (String, bool)| (e.0@, e.1))
}

/// The batch of files that one watcher event re-indexes: each path of the event
/// (with whether it is a regular file) that is a supported document, covered by
/// a target, and outside its debounce window.
pub fn admit_event_paths(
    debouncer: &mut Debouncer,
    targets: &Vec<IndexTarget>,
    events: &Vec<(String, bool)>,
    now_ms: u64,
) -> (r: Vec<String>)
    ensures
        (final(debouncer)@, r@.map_values(|s: String| s@)) == admitted(
            target_views(targets@),
            old(debouncer)@,
            event_views(events@),
            now_ms,
        ),
{
    let ghost ts = target_views(targets@);
    let ghost evs = event_views(events@);
    let mut out: Vec<String> = Vec::new();
    let mut i: usize = 0;
    while i < events.len()
        invariant
            i <= events.len(),
            ts == target_views(targets@),
            evs == event_views(events@),
            (debouncer@, out@.map_values(|s: String| s@)) == admitted(
                ts,
                old(debouncer)@,
                evs.subrange(0, i as int),
                now_ms,
            ),
        decreases events.len() - i,
    {
        let (p, is_file) = (&events[i].0, events[i].1);
        assert(evs.subrange(0, i + 1).drop_last() =~= evs.subrange(0, i as int));
        assert(evs.subrange(0, i + 1).last() == (p@, is_file));
        if is_file && is_supported_document(p.as_str()) && path_in_targets(targets, p.as_str()) {
            if debouncer.should_process(p, now_ms) {
                out.push(p.clone());
            }
        }
        assert(out@.map_values(|s: String| s@) =~= admitted(
            ts,
            old(debouncer)@,
            evs.subrange(0, i + 1),
            now_ms,
        ).1);
        i = i + 1;
    }
    assert(evs.subrange(0, events.len() as int) =~= evs);
    out
}

/// Two events for one path less than two seconds apart count once; an event
/// two seconds or more after the last admitted one passes again.
pub proof fn lemma_debounce_window(last: Map<Seq<char>, u64>, p: Seq<char>, t0: u64, t1: u64, t2: u64)
    requires
        !last.contains_key(p),
        t0 <= t1 < t0 + DEBOUNCE_MS,
        t2 >= t0 + DEBOUNCE_MS,
    ensures
        debounce(last, p, t0).1,
        !debounce(debounce(last, p, t0).0, p, t1).1,
        debounce(debounce(debounce(last, p, t0).0, p, t1).0, p, t2).1,
{
}

} // verus!
