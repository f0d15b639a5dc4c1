use anywords::config::Config;
use anywords::indexing::{
    admit_file, change_action, progress_label, should_skip_file, ChangeAction, IndexError,
};
use anywords::watch::ChangeKind;

#[test]
fn scan_skips_hidden_excluded_and_large_files() {
    let c = Config::default();
    assert!(should_skip_file(Some(".hidden"), None, "/d/.hidden", Some(1), &c));
    assert!(should_skip_file(Some("~lock.docx"), Some("docx"), "/d/~lock.docx", Some(1), &c));
    assert!(should_skip_file(Some("a.EXE"), Some("EXE"), "/d/a.EXE", Some(1), &c));
    assert!(should_skip_file(Some("x.js"), Some("js"), "/p/Node_Modules/x.js", Some(1), &c));
    assert!(should_skip_file(Some("big.txt"), Some("txt"), "/d/big.txt", Some(52_428_801), &c));
    assert!(!should_skip_file(Some("big.txt"), Some("txt"), "/d/big.txt", Some(52_428_800), &c));
    assert!(!should_skip_file(Some("notes.md"), Some("md"), "/d/notes.md", None, &c));
    assert!(!should_skip_file(None, None, "/d/noext", Some(3), &c));
}

#[test]
fn watcher_decides_per_change() {
    let mut c = Config::default();
    let w = &c.watcher;
    assert_eq!(change_action(ChangeKind::Create, Some("a.txt"), Some("txt"), "/d/a.txt", w), ChangeAction::Reindex);
    assert_eq!(change_action(ChangeKind::Modify, Some("a.txt"), Some("txt"), "/d/a.txt", w), ChangeAction::Reindex);
    assert_eq!(change_action(ChangeKind::Remove, Some("a.txt"), Some("txt"), "/d/a.txt", w), ChangeAction::Remove);
    assert_eq!(change_action(ChangeKind::Other, Some("a.txt"), Some("txt"), "/d/a.txt", w), ChangeAction::Ignore);
    assert_eq!(change_action(ChangeKind::Remove, Some(".x"), None, "/d/.x", w), ChangeAction::Ignore);
    assert_eq!(change_action(ChangeKind::Create, Some("a.TMP"), Some("TMP"), "/d/a.TMP", w), ChangeAction::Ignore);
    assert_eq!(change_action(ChangeKind::Create, Some("a.py"), Some("py"), "/r/.GIT/a.py", w), ChangeAction::Ignore);

    c.watcher.include_extensions = vec!["md".to_string()];
    let w = &c.watcher;
    assert_eq!(change_action(ChangeKind::Create, Some("a.txt"), Some("txt"), "/d/a.txt", w), ChangeAction::Ignore);
    assert_eq!(change_action(ChangeKind::Create, Some("a.MD"), Some("MD"), "/d/a.MD", w), ChangeAction::Reindex);
    assert_eq!(change_action(ChangeKind::Create, Some("Makefile"), None, "/d/Makefile", w), ChangeAction::Reindex);
}

#[test]
fn files_are_admitted_or_refused() {
    let c = Config::default();
    assert_eq!(admit_file("TXT", 10, &c).unwrap(), "txt");
    match admit_file("Exe", 10, &c) {
        Err(e @ IndexError::ExcludedExtension(_)) => assert_eq!(e.message(), "Excluded extension: exe"),
        other => panic!("{:?}", other),
    }
    match admit_file("pdf", 52_428_801, &c) {
        Err(e @ IndexError::FileTooLarge(52_428_801, 52_428_800)) => {
            assert_eq!(e.message(), "File too large: 52428801 bytes (max: 52428800)")
        }
        other => panic!("{:?}", other),
    }
    assert!(admit_file("", 0, &c).is_ok());
}

#[test]
fn progress_notes() {
    assert_eq!(progress_label(3, 10, "Indexed: /a"), Some("(3/10) Indexed: /a".to_string()));
    assert_eq!(progress_label(3, 10, ""), None);
}
