use backup_core::history::{
    apply_retention_index, guess_format, history_path, history_tmp_path, is_archive_name,
    load_history, rebuild_from_fs, sort_entries, FoundFile, History, HistoryEntry, HistoryWriter,
};
use backup_core::Platform::Linux;

fn entry(app_id: &str, file: &str) -> HistoryEntry {
    HistoryEntry {
        app_id: app_id.to_string(),
        file: file.to_string(),
        format: "zip".to_string(),
        size: 1,
        files: 1,
        bytes_total: 1,
        started_at: String::new(),
        finished_at: String::new(),
        checksum: None,
        status: "ok".to_string(),
    }
}

fn index(list: &[(&str, &str)]) -> History {
    History {
        version: 1,
        entries: list.iter().map(|(a, f)| entry(a, f)).collect(),
    }
}

fn files(h: &History) -> Vec<&str> {
    h.entries.iter().map(|e| e.file.as_str()).collect()
}

#[test]
fn appending_sorts_and_replaces() {
    let mut h = index(&[("a", "a_2"), ("a", "a_1")]);
    HistoryWriter::new().append(&mut h, entry("a", "a_3"));
    assert_eq!(files(&h), ["a_3", "a_2", "a_1"]);
    let mut again = entry("a", "a_2");
    again.size = 9;
    HistoryWriter::new().append(&mut h, again);
    assert_eq!(files(&h), ["a_3", "a_2", "a_1"]);
    assert_eq!(h.entries[1].size, 9);
    HistoryWriter::new().append(&mut h, entry("b", "a_2"));
    assert_eq!(h.entries.len(), 4);
}

#[test]
fn removing_undoes_appending() {
    let mut h = index(&[("a", "x_1"), ("b", "x_3"), ("a", "x_2")]);
    HistoryWriter::new().append(&mut h, entry("a", "x_3"));
    let own: Vec<&str> = h.entries_for("a").iter().map(|e| e.file.as_str()).collect();
    assert_eq!(own, ["x_3", "x_2", "x_1"]);
    assert_eq!(h.entries_for("b").len(), 1);
    HistoryWriter::new().remove(&mut h, "a", "x_3");
    let left: Vec<(&str, &str)> = h
        .entries
        .iter()
        .map(|e| (e.app_id.as_str(), e.file.as_str()))
        .collect();
    assert_eq!(left, [("b", "x_3"), ("a", "x_2"), ("a", "x_1")]);
}

#[test]
fn removing_takes_one_file_of_one_app() {
    let mut h = index(&[("a", "x"), ("b", "x"), ("a", "y")]);
    HistoryWriter::new().remove(&mut h, "a", "x");
    assert_eq!(h.entries.len(), 2);
    assert_eq!(h.entries[0].app_id, "b");
    HistoryWriter::new().remove(&mut h, "a", "x");
    assert_eq!(h.entries.len(), 2);
}

#[test]
fn retention_counts_by_app() {
    let mut h = index(&[("a", "a_3"), ("b", "b_1"), ("a", "a_2"), ("a", "a_1")]);
    let gone = apply_retention_index(&mut h, 1);
    assert_eq!(
        gone,
        vec![
            ("a".to_string(), "a_2".to_string()),
            ("a".to_string(), "a_1".to_string())
        ]
    );
    assert_eq!(files(&h), ["a_3", "b_1"]);
    assert!(HistoryWriter::new().apply_retention(&mut h, 1).is_empty());
    assert_eq!(files(&h), ["a_3", "b_1"]);
}

#[test]
fn retention_keeps_the_newest_of_an_unsorted_index() {
    let mut h = index(&[
        ("a", "a_20250101_000000.zip"),
        ("b", "b_20240101_000000.zip"),
        ("a", "a_20260101_000000.zip"),
    ]);
    let removed = apply_retention_index(&mut h, 1);
    assert_eq!(
        removed,
        [("a".to_string(), "a_20250101_000000.zip".to_string())]
    );
    assert_eq!(files(&h), ["b_20240101_000000.zip", "a_20260101_000000.zip"]);
    assert!(apply_retention_index(&mut h, 1).is_empty());
    assert!(apply_retention_index(&mut h, 5).is_empty());

    let mut h = index(&[("a", "a_1"), ("a", "a_3"), ("a", "a_2"), ("a", "a_4")]);
    let removed = HistoryWriter::new().apply_retention(&mut h, 2);
    let gone: Vec<&str> = removed.iter().map(|(_, f)| f.as_str()).collect();
    assert_eq!(gone, ["a_1", "a_2"]);
    assert_eq!(files(&h), ["a_3", "a_4"]);
}

#[test]
fn retention_counts_entries_of_one_name_apart() {
    let mut h = index(&[("a", "a_1"), ("a", "a_1"), ("a", "a_1")]);
    h.entries[0].size = 7;
    let removed = apply_retention_index(&mut h, 1);
    assert_eq!(removed.len(), 2);
    assert_eq!(h.entries.len(), 1);
    assert_eq!(h.entries[0].size, 7);
}

#[test]
fn retention_of_zero_keeps_all() {
    let mut h = index(&[("a", "2"), ("a", "1")]);
    assert!(apply_retention_index(&mut h, 0).is_empty());
    assert_eq!(files(&h), ["2", "1"]);
}

#[test]
fn sorting_keeps_the_order_of_equal_names() {
    let sorted = sort_entries(vec![
        entry("1", "m"),
        entry("2", "z"),
        entry("3", "m"),
        entry("4", "ma"),
    ]);
    let ids: Vec<&str> = sorted.iter().map(|e| e.app_id.as_str()).collect();
    assert_eq!(ids, ["2", "4", "1", "3"]);
}

#[test]
fn names_of_archives() {
    for name in ["a_1.zip", "a_1.tar.gz", "a_1.dir"] {
        assert!(is_archive_name(name), "{name}");
    }
    for name in [
        "a_1.zip.summary.json",
        "a_1.zip.tmp",
        "a_1.zip.zip.tmp",
        "a_1.txt",
        "history.json",
        "notes.gzip",
        "azip",
        "adir",
    ] {
        assert!(!is_archive_name(name), "{name}");
    }
    assert_eq!(guess_format("a.tar.gz"), "tar.gz");
    assert_eq!(guess_format("a.zip"), "zip");
    assert_eq!(guess_format("a.dir"), "dir");
    assert_eq!(guess_format("azip"), "dir");
}

#[test]
fn places_of_the_index() {
    assert_eq!(history_path("/d", Linux), "/d/history.json");
    assert_eq!(history_tmp_path("/d", Linux), "/d/history.json.tmp");
}

fn found(dir: &str, name: &str, size: Option<u64>) -> FoundFile {
    FoundFile {
        app_dir: dir.to_string(),
        name: name.to_string(),
        size,
        summary: None,
    }
}

#[test]
fn rebuilding_lists_backups_only() {
    let list = vec![
        found("a", "a_1.zip", Some(5)),
        found("a", "a_1.zip.summary.json", Some(6)),
        found("b", "b_2.dir", None),
        found("a", "a_2.zip.zip.tmp", Some(7)),
    ];
    let h = rebuild_from_fs(&list);
    assert_eq!(h.version, 1);
    assert_eq!(files(&h), ["b_2.dir", "a_1.zip"]);
    assert_eq!(h.entries[0].size, 0);
    assert_eq!(h.entries[0].format, "dir");
    assert_eq!(h.entries[1].size, 5);
    assert_eq!(h.entries[1].app_id, "a");

    let stored = load_history(Some(index(&[("x", "x_1")])), &list);
    assert_eq!(files(&stored), ["x_1"]);
    assert_eq!(History::default().version, 0);
}
