use local_rag::targets::{
    path_in_targets, prune_selection, target_from_row, target_row, target_rows, IndexTarget,
    IndexTargetKind,
};
use local_rag::watcher::{admit_event_paths, watch_requests, Debouncer};

fn file(p: &str) -> IndexTarget {
    IndexTarget { path: p.to_string(), kind: IndexTargetKind::File, include_subfolders: false }
}

fn folder(p: &str, deep: bool) -> IndexTarget {
    IndexTarget { path: p.to_string(), kind: IndexTargetKind::Folder, include_subfolders: deep }
}

#[test]
fn targets_round_trip_through_rows() {
    let ts = vec![folder("/docs", true), file("/x/a.pdf"), folder("/flat", false)];
    let rows = target_rows(&ts);
    assert_eq!(rows[0].kind, "folder");
    assert_eq!(rows[0].include_subfolders, 1);
    assert_eq!(rows[1].kind, "file");
    assert_eq!(rows[1].include_subfolders, 0);
    let back: Vec<IndexTarget> = rows
        .iter()
        .map(|r| target_from_row(r.path.clone(), &r.kind, r.include_subfolders))
        .collect();
    assert_eq!(back.len(), 3);
    for (a, b) in ts.iter().zip(back.iter()) {
        assert_eq!(a.path, b.path);
        assert_eq!(a.kind, b.kind);
        assert_eq!(a.include_subfolders, b.include_subfolders);
    }
    let r = target_row(&ts[1]);
    assert_eq!(r.path, "/x/a.pdf");
}

#[test]
fn kind_read_without_case() {
    assert_eq!(target_from_row("p".into(), "FOLDER", 1).kind, IndexTargetKind::Folder);
    assert_eq!(target_from_row("p".into(), "Folder", 0).kind, IndexTargetKind::Folder);
    assert_eq!(target_from_row("p".into(), "file", 0).kind, IndexTargetKind::File);
    assert_eq!(target_from_row("p".into(), "other", 0).kind, IndexTargetKind::File);
}

#[test]
fn coverage_rules() {
    let ts = vec![file("/x/a.pdf"), folder("/flat", false), folder("/deep", true)];
    assert!(path_in_targets(&ts, "/x/a.pdf"));
    assert!(!path_in_targets(&ts, "/x/b.pdf"));
    assert!(path_in_targets(&ts, "/flat/b.txt"));
    assert!(!path_in_targets(&ts, "/flat/sub/b.txt"));
    assert!(path_in_targets(&ts, "/deep/sub/more/b.txt"));
    assert!(!path_in_targets(&ts, "/deeper/b.txt"));
}

#[test]
fn prune_removes_uncovered_files() {
    let indexed = vec!["/d/A.txt".to_string(), "/d/B.txt".to_string()];
    let gone = prune_selection(&vec![file("/d/A.txt")], &indexed);
    assert_eq!(gone, vec!["/d/B.txt".to_string()]);
    assert_eq!(gone.len(), 1);
}

#[test]
fn prune_without_targets_removes_everything() {
    let indexed = vec!["/d/A.txt".to_string(), "/d/B.txt".to_string()];
    assert_eq!(prune_selection(&vec![], &indexed), indexed);
}

#[test]
fn debounce_two_seconds() {
    let mut d = Debouncer::new();
    let p = "/d/a.txt".to_string();
    assert!(d.should_process(&p, 10_000));
    assert!(!d.should_process(&p, 11_000));
    assert!(d.should_process(&p, 12_500));
    assert!(!d.should_process(&p, 14_000));
    assert!(d.should_process(&"/d/b.txt".to_string(), 14_000));
}

#[test]
fn event_paths_filtered_and_debounced() {
    let ts = vec![folder("/d", false)];
    let mut d = Debouncer::new();
    let events = vec![
        ("/d/a.txt".to_string(), true),
        ("/d/a.txt".to_string(), true),
        ("/d/b.exe".to_string(), true),
        ("/d/c.pdf".to_string(), false),
        ("/e/d.txt".to_string(), true),
        ("/d/e.md".to_string(), true),
    ];
    assert_eq!(admit_event_paths(&mut d, &ts, &events, 0), vec!["/d/a.txt", "/d/e.md"]);
    assert!(admit_event_paths(&mut d, &ts, &events[..1].to_vec(), 1500).is_empty());
    assert_eq!(admit_event_paths(&mut d, &ts, &events[..1].to_vec(), 2500), vec!["/d/a.txt"]);
}

#[test]
fn watch_requests_per_target() {
    let ts = vec![file("/x/a.pdf"), file("/x/gone.pdf"), folder("/deep", true), folder("/flat", false)];
    let w = watch_requests(&ts, &vec![true, false, true, true]);
    assert_eq!(w[0].path, "/x/a.pdf");
    assert!(!w[0].recursive);
    assert_eq!(w[1].path, "/x");
    assert!(!w[1].recursive);
    assert_eq!(w[2].path, "/deep");
    assert!(w[2].recursive);
    assert_eq!(w[3].path, "/flat");
    assert!(!w[3].recursive);
}
