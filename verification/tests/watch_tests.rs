use anywords::api::{
    add_watched, added_response, remove_watched, removed_response, scan_response,
    watch_request_path, IndexOpResponse,
};
use anywords::watch::{
    add_watch_dir, clean_watch_path, position_ignoring_case, remove_watch_dir, ChangeKind,
    Debouncer, WatchDirError,
};

const MS: u64 = 1_000_000;

fn dirs(v: &[&str]) -> Vec<String> {
    v.iter().map(|s| s.to_string()).collect()
}

#[test]
fn cleaning_typed_paths() {
    assert_eq!(clean_watch_path("  \"C:/Docs\"  "), "C:/Docs");
    assert_eq!(clean_watch_path("\"\"/data\"\""), "/data");
    assert_eq!(clean_watch_path("   "), "");
}

#[test]
fn adding_keeps_entries_distinct_ignoring_case() {
    let mut d = dirs(&["/home/A"]);
    assert!(add_watch_dir(&mut d, "/home/b".to_string()).is_ok());
    assert_eq!(d, dirs(&["/home/A", "/home/b"]));
    match add_watch_dir(&mut d, "/HOME/a".to_string()) {
        Err(WatchDirError::AlreadyWatching) => {}
        other => panic!("{:?}", other),
    }
    assert_eq!(d, dirs(&["/home/A", "/home/b"]));
    assert_eq!(position_ignoring_case(&d, "/HOME/B"), Some(1));
    assert_eq!(position_ignoring_case(&d, "/home/c"), None);
}

#[test]
fn removing_undoes_adding() {
    let mut d = dirs(&["/x", "/y"]);
    let before = d.clone();
    add_watch_dir(&mut d, "/z".to_string()).unwrap();
    assert_eq!(remove_watch_dir(&mut d, "/Z"), Some("/z".to_string()));
    assert_eq!(d, before);
    assert_eq!(remove_watch_dir(&mut d, "/nope"), None);
    assert_eq!(d, before);
}

#[test]
fn watch_requests() {
    match watch_request_path("  \"\"  ") {
        Err(IndexOpResponse { success, message, count, errors }) => {
            assert!(!success);
            assert_eq!(message, "Path is empty");
            assert!(count.is_none() && errors.is_none());
        }
        other => panic!("{:?}", other),
    }
    assert_eq!(watch_request_path(" \"/srv/docs\" ").unwrap(), "/srv/docs");

    let mut d = dirs(&["/srv/docs"]);
    let refused = add_watched(&mut d, "/SRV/DOCS".to_string()).unwrap_err();
    assert!(!refused.success);
    assert_eq!(refused.message, "Already watching: /SRV/DOCS");
    assert!(add_watched(&mut d, "/srv/more".to_string()).is_ok());
    assert_eq!(d.len(), 2);

    let added = added_response("/srv/more");
    assert!(added.success);
    assert_eq!(added.message, "Added and indexing in background: /srv/more");

    assert_eq!(remove_watched(&mut d, " \"/SRV/MORE\" "), Some("/srv/more".to_string()));
    assert_eq!(remove_watched(&mut d, "/srv/more"), None);
    let removed = removed_response("/srv/more");
    assert_eq!(
        removed.message,
        "Removed: /srv/more (indexed files are kept; live monitoring for it stops after restart)"
    );
}

#[test]
fn scan_answers() {
    let r = scan_response(3, 1, "D:/x");
    assert!(r.success);
    assert_eq!(r.message, "Indexed 3 files from 'D:/x' (1 failed)");
    assert_eq!((r.count, r.errors), (Some(3), Some(1)));
    assert_eq!(scan_response(0, 0, "/e").message, "Indexed 0 files from '/e'");
}

#[test]
fn debouncer_hands_out_after_the_window() {
    let mut d = Debouncer::new(2000);
    d.record("a.txt".to_string(), ChangeKind::Create, 0);
    assert!(d.flush(1999 * MS).is_empty());
    let out = d.flush(2000 * MS);
    assert_eq!(out, vec![("a.txt".to_string(), ChangeKind::Create)]);
    assert!(d.flush(2000 * MS).is_empty());
}

#[test]
fn debouncer_coalesces_a_burst() {
    let mut d = Debouncer::new(2000);
    d.record("a".to_string(), ChangeKind::Create, 0);
    d.record("a".to_string(), ChangeKind::Modify, 1500 * MS);
    d.record("b".to_string(), ChangeKind::Remove, 1500 * MS);
    let out = d.flush(2100 * MS);
    assert_eq!(out, vec![("a".to_string(), ChangeKind::Modify)]);
    let later = d.flush(3500 * MS);
    assert_eq!(later, vec![("b".to_string(), ChangeKind::Remove)]);
}

#[test]
fn debouncer_reopens_a_window_after_it_passed() {
    let mut d = Debouncer::new(100);
    d.record("p".to_string(), ChangeKind::Modify, 0);
    d.record("p".to_string(), ChangeKind::Remove, 150 * MS);
    assert!(d.flush(200 * MS).is_empty());
    assert_eq!(d.flush(250 * MS), vec![("p".to_string(), ChangeKind::Remove)]);
}

#[test]
fn debouncer_flushes_every_due_path_once() {
    let mut d = Debouncer::new(10);
    for (i, p) in ["x", "y", "z"].iter().enumerate() {
        d.record(p.to_string(), ChangeKind::Modify, i as u64 * MS);
    }
    let mut out = d.flush(100 * MS);
    out.sort_by(|a, b| a.0.cmp(&b.0));
    assert_eq!(
        out,
        vec![
            ("x".to_string(), ChangeKind::Modify),
            ("y".to_string(), ChangeKind::Modify),
            ("z".to_string(), ChangeKind::Modify),
        ]
    );
    assert!(d.flush(200 * MS).is_empty());
}
