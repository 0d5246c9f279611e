//! Paths, prefixes, names and checksums.

use backup_core::archive::{
    archive_name, archive_target, build_archive_prefixes, unique_dest_file,
};
use backup_core::checksum::{hex_text, sha256_hex};
use backup_core::clock::{file_stamp_now, time_now};
use backup_core::config::Format;
use backup_core::history::is_archive_name;
use backup_core::pack::pack_paths;
use backup_core::paths::{
    path_components, path_file_name, path_is_absolute, path_join, path_key, path_parent,
    path_starts_with, path_strip, path_with_name,
};
use backup_core::summary::{summary_path_for, summary_tmp_path_for};
use backup_core::Platform::{Linux, Windows};
use std::path::Path;

fn strings(list: &[&str]) -> Vec<String> {
    list.iter().map(|s| s.to_string()).collect()
}

#[test]
fn unix_paths_as_the_standard_library_reads_them() {
    let samples = [
        "", "/", ".", "..", "a", "a/", "/a", "./a", "a/.", "a/./b", "a//b", "//a", "/a/b/", "a/..",
        "/.", "./", "../x", "/a/./b/../c.d", "C:\\x", "\\\\s\\h",
    ];
    for s in samples {
        let p = Path::new(s);
        let text = |p: &Path| p.to_str().unwrap().to_string();
        assert_eq!(path_is_absolute(Linux, s), p.is_absolute(), "{s}");
        assert_eq!(path_parent(Linux, s), p.parent().map(text), "{s}");
        assert_eq!(
            path_file_name(Linux, s),
            p.file_name().map(|n| n.to_str().unwrap().to_string()),
            "{s}"
        );
        assert_eq!(
            path_components(Linux, s),
            p.components()
                .map(|c| c.as_os_str().to_str().unwrap().to_string())
                .collect::<Vec<_>>(),
            "{s}"
        );
        assert_eq!(
            path_with_name(Linux, s, "n"),
            text(&p.with_file_name("n")),
            "{s}"
        );
        for t in samples {
            let q = Path::new(t);
            assert_eq!(path_join(Linux, s, t), text(&p.join(q)), "{s} {t}");
            assert_eq!(path_starts_with(Linux, s, t), p.starts_with(q), "{s} {t}");
            assert_eq!(
                path_strip(Linux, s, t),
                p.strip_prefix(q).ok().map(text),
                "{s} {t}"
            );
            assert_eq!(path_key(Linux, s) == path_key(Linux, t), p == q, "{s} {t}");
        }
    }
}

#[test]
fn windows_paths() {
    assert!(path_is_absolute(Windows, "C:\\a"));
    assert!(path_is_absolute(Windows, "\\\\server\\share"));
    assert!(!path_is_absolute(Windows, "C:a"));
    assert!(!path_is_absolute(Windows, "\\a"));
    assert_eq!(path_join(Windows, "C:\\a", "b"), "C:\\a\\b");
    assert_eq!(path_join(Windows, "C:", "b"), "C:b");
    assert_eq!(path_join(Windows, "C:\\a", "\\b"), "C:\\b");
    assert_eq!(path_join(Windows, "C:\\a", "D:b"), "D:b");
    assert_eq!(path_parent(Windows, "C:\\a\\b").unwrap(), "C:\\a");
    assert_eq!(path_parent(Windows, "C:\\a").unwrap(), "C:\\");
    assert_eq!(path_parent(Windows, "C:\\"), None);
    assert_eq!(path_file_name(Windows, "C:\\a/b.txt").unwrap(), "b.txt");
    assert_eq!(path_key(Windows, "c:\\a/b"), path_key(Windows, "C:/a\\b"));
    assert!(path_starts_with(Windows, "c:/a/b", "C:\\a"));
    assert_eq!(path_strip(Windows, "C:\\a\\b\\c", "C:\\a").unwrap(), "b\\c");
}

#[test]
fn long_prefixes_of_windows() {
    // Prefix, components behind it, parent.
    let samples: [(&str, &str, &[&str], Option<&str>); 24] = [
        ("c:", "C:", &[], None),
        ("c:a", "C:", &["a"], Some("c:")),
        ("c:./a", "C:", &["a"], Some("c:.")),
        ("c:\\", "C:", &["/"], None),
        (r"\\server\share", "//server/share", &["/"], None),
        (r"\\server\share\foo.txt", "//server/share", &["/", "foo.txt"], Some(r"\\server\share\")),
        (r"\\?\bar\foo.txt", r"\\?\bar", &["/", "foo.txt"], Some(r"\\?\bar\")),
        (r"\\?\bar", r"\\?\bar", &[], None),
        (r"\\?\", r"\\?\", &[], None),
        (
            r"\\?\UNC\server\share\foo.txt",
            r"\\?\UNC\server\share",
            &["/", "foo.txt"],
            Some(r"\\?\UNC\server\share\"),
        ),
        (r"\\?\UNC\server", r"\\?\UNC\server", &[], None),
        (r"\\?\UNC\", r"\\?\UNC\", &[], None),
        (r"\\?\c:\foo.txt", r"\\?\C:", &["/", "foo.txt"], Some(r"\\?\c:\")),
        (r"\\?\C:\", r"\\?\C:", &["/"], None),
        (r"\\?\C:", r"\\?\C:", &[], None),
        (r"\\?\foo/bar", r"\\?\foo/bar", &[], None),
        (r"\\?\C:/foo/bar", r"\\?\C:", &["/", "foo/bar"], Some(r"\\?\C:/")),
        (r"\\?\C:\a\.\b", r"\\?\C:", &["/", "a", ".", "b"], Some(r"\\?\C:\a\.")),
        (r"\\.\foo\bar", "//./foo", &["/", "bar"], Some(r"\\.\foo\")),
        (r"\\.\foo", "//./foo", &["/"], None),
        (r"\\.\foo/bar", "//./foo", &["/", "bar"], Some(r"\\.\foo/")),
        (r"\\.\", "//./", &["/"], None),
        (r"\\?\a\b\", r"\\?\a", &["/", "b"], Some(r"\\?\a\")),
        ("//?/x/a", "//?/x", &["/", "a"], Some("//?/x/")),
    ];
    for (s, prefix, rest, parent) in samples {
        let mut all = vec![prefix];
        all.extend(rest);
        assert_eq!(path_components(Windows, s), strings(&all), "{s}");
        assert_eq!(path_parent(Windows, s).as_deref(), parent, "{s}");
        let drive = prefix == "C:";
        let rooted = rest.first() == Some(&"/");
        assert_eq!(path_is_absolute(Windows, s), !drive || rooted, "{s}");
        let same = |t: &str| path_key(Windows, s) == path_key(Windows, t);
        assert!(same(s));
        assert!(!same(r"\\?\x\a"));
    }
    assert!(path_starts_with(Windows, r"\\?\c:\a", r"\\?\C:\"));
    assert!(!path_starts_with(Windows, r"\\?\C:\a", r"C:\"));
    assert_eq!(path_strip(Windows, r"\\?\C:\a/b\c", r"\\?\C:\a/b").unwrap(), "c");
    assert_eq!(path_strip(Windows, r"\\?\C:\a/b", r"\\?\C:\a"), None);
    assert_eq!(path_strip(Windows, "c:./a", "c:").unwrap(), "./a");
    assert_eq!(path_file_name(Windows, r"\\?\C:\a\."), None);

    // From such a path the whole is written anew.
    let base = r"\\?\C:\a\b";
    assert_eq!(path_join(Windows, base, "c"), r"\\?\C:\a\b\c");
    assert_eq!(path_join(Windows, base, "c/./d"), r"\\?\C:\a\b\c\d");
    assert_eq!(path_join(Windows, base, r"..\..\..\x"), r"\\?\C:\x");
    assert_eq!(path_join(Windows, base, r"\x/y"), r"\\?\C:\x\y");
    assert_eq!(path_join(Windows, base, ""), r"\\?\C:\a\b\");
    assert_eq!(path_join(Windows, r"\\?\C:/a\\.\b\", "c"), r"\\?\C:\a\.\b\c");
    assert_eq!(path_join(Windows, r"\\?\C:", "c"), r"\\?\C:\c");
    assert_eq!(path_join(Windows, r"\\?\C:", "."), r"\\?\C:");
    assert_eq!(path_join(Windows, r"C:\a\b", "../c/./d"), r"C:\a\b\../c/./d");
    assert_eq!(
        archive_target(r"\\?\D:\t", "x/p", r"C:\r", r"C:\r\a\b", Windows),
        r"\\?\D:\t\x\p\a\b"
    );
}

#[test]
fn prefixes() {
    let of = |roots: &[&str]| -> Vec<String> {
        build_archive_prefixes(&strings(roots), Linux)
            .into_iter()
            .map(|(_, p)| p)
            .collect()
    };
    assert_eq!(of(&[]), strings(&[]));
    assert_eq!(of(&["/x/a", "/y/b"]), ["a", "b"]);
    assert_eq!(of(&["/x/a", "/y/a", "/z/b"]), ["x/a", "y/a", "b"]);
    assert_eq!(of(&["/p/x/a", "/q/x/a"]), ["p/x/a", "q/x/a"]);
    assert_eq!(of(&["/a", "/a"]), ["a-2", "a-3"]);
    assert_eq!(of(&["/x/a", "/a", "/a"]), ["x/a", "a-2", "a-3"]);
    assert_eq!(of(&["/", "/"]), ["root-2", "root-3"]);
    assert_eq!(of(&["/a", "/a", "/a-2"]), ["a-3", "a-4", "a-2"]);
    let pairs = build_archive_prefixes(&strings(&["/x/a", "/y/a"]), Linux);
    assert_eq!(pairs[1].0, "/y/a");
}

#[test]
fn names_in_archives() {
    assert_eq!(archive_name("p", "/r", "/r", Linux), "p");
    assert_eq!(archive_name("p", "/r", "/r/a/b", Linux), "p/a/b");
    assert_eq!(archive_name("p", "/r", "/other", Linux), "p");
    assert_eq!(archive_name("p", "C:\\r", "C:\\r\\a\\b", Windows), "p/a/b");
    assert_eq!(
        archive_target("/w", "src", "/t/src", "/t/src/sub/b.txt", Linux),
        "/w/src/sub/b.txt"
    );
    assert_eq!(archive_target("/w", "src", "/t/src", "/t/src", Linux), "/w/src");
    for path in ["/t/src/sub/b.txt", "/t/src", "/t/src//a/./b", "/elsewhere"] {
        let name = archive_name("src", "/t/src", path, Linux);
        assert_eq!(
            archive_target("/w", "src", "/t/src", path, Linux),
            path_join(Linux, "/w", &name)
        );
        let name = archive_name("src/", "/t/src", path, Linux);
        assert_eq!(
            path_key(Linux, &archive_target("/w", "src/", "/t/src", path, Linux)),
            path_key(Linux, &path_join(Linux, "/w", &name))
        );
    }
    for path in [r"C:\t\src\sub\b.txt", r"C:\t\src", r"C:\t\src/a\.\b"] {
        for dir in [r"D:\w", r"D:", r"\\s\h", r"\\?\D:\w", "w"] {
            for prefix in ["src", r"src\", "a/src//"] {
                let name = archive_name(prefix, r"C:\t\src", path, Windows);
                assert_eq!(
                    path_key(Windows, &archive_target(dir, prefix, r"C:\t\src", path, Windows)),
                    path_key(Windows, &path_join(Windows, dir, &name)),
                    "{dir} {prefix} {path}"
                );
            }
        }
    }
    assert_eq!(archive_target("/t", "p", "/r", "/r", Linux), "/t/p");
    assert_eq!(archive_target("/t", "p", "/r", "/r/a/b", Linux), "/t/p/a/b");
    assert_eq!(
        archive_target("D:\\t", "x/p", "C:\\r", "C:\\r\\a", Windows),
        "D:\\t\\x/p\\a"
    );
}

#[test]
fn names_of_backups() {
    let free = |taken: &[&str]| unique_dest_file("/d", "b", Format::Zip, &strings(taken), Linux);
    assert_eq!(free(&[]), "/d/b.zip");
    assert_eq!(free(&["b.zip"]), "/d/b_1.zip");
    assert_eq!(free(&["b_1.zip", "b.zip"]), "/d/b_2.zip");
    assert_eq!(free(&["b_1.zip"]), "/d/b.zip");

    let p = pack_paths("/d", "b", Format::TarGz, &strings(&["b.tar.gz"]), Linux);
    assert_eq!(p.final_path, "/d/b_1.tar.gz");
    assert_eq!(p.tmp_path, "/d/b_1.tar.gz.tar.gz.tmp");
    let p = pack_paths("/d", "b", Format::Zip, &vec![], Linux);
    assert_eq!(p.tmp_path, "/d/b.zip.zip.tmp");
    let p = pack_paths("/d", "b", Format::Dir, &strings(&["b.dir"]), Linux);
    assert_eq!(p.final_path, "/d/b.dir");
    assert_eq!(p.tmp_path, "/d/b.dir.tmp");
}

#[test]
fn backups_lie_in_the_directory_of_their_app() {
    let names = |p: backup_core::Platform, path: &str| path_components(p, path);
    for format in [Format::Zip, Format::TarGz, Format::Dir] {
        let taken = strings(&["app_20260829_093000.zip"]);
        let p = pack_paths("/d/app", "app_20260829_093000", format, &taken, Linux);
        let parts = names(Linux, &p.final_path);
        assert_eq!(parts[..3], strings(&["/", "d", "app"]));
        assert_eq!(parts.len(), 4);
        assert!(parts[3].ends_with(format.extension()));
        assert!(is_archive_name(&parts[3]));
        let parts = names(Linux, &p.tmp_path);
        assert_eq!(parts.len(), 4);
        assert!(!is_archive_name(&parts[3]));
    }
}

#[test]
fn summaries_lie_beside() {
    assert_eq!(summary_path_for("/d/a.zip", Linux), "/d/a.zip.summary.json");
    assert_eq!(
        summary_tmp_path_for("/d/a.zip", Linux),
        "/d/a.zip.summary.json.tmp"
    );
    assert_eq!(
        summary_path_for("C:\\d\\a.zip", Windows),
        "C:\\d\\a.zip.summary.json"
    );
}

#[test]
fn checksums() {
    assert_eq!(hex_text(&vec![0, 9, 10, 255]), "00090aff");
    assert_eq!(
        sha256_hex(&b"abc".to_vec()),
        "ba7816bf8f01cfea414140de5dae2223b00361a396177a9cb410ff61f20015ad"
    );
    assert_eq!(
        sha256_hex(&vec![]),
        "e3b0c44298fc1c149afbf4c8996fb92427ae41e4649b934ca495991b7852b855"
    );
}

#[test]
fn times() {
    let stamp: Vec<char> = file_stamp_now().chars().collect();
    assert_eq!(stamp.len(), 15);
    for (i, c) in stamp.iter().enumerate() {
        assert!(if i == 8 { *c == '_' } else { c.is_ascii_digit() }, "{stamp:?}");
    }
    let now: Vec<char> = time_now().chars().collect();
    let n = now.len();
    let fraction = n - 19 - 6;
    assert!([0, 4, 7, 10].contains(&fraction), "{now:?}");
    for (i, c) in now.iter().enumerate() {
        let right = match i {
            4 | 7 => *c == '-',
            10 => *c == 'T',
            13 | 16 => *c == ':',
            19 if fraction > 0 => *c == '.',
            _ if i == n - 6 => *c == '+' || *c == '-',
            _ if i == n - 3 => *c == ':',
            _ => c.is_ascii_digit(),
        };
        assert!(right, "{now:?}");
    }
    let number = |text: &[char], i: usize| {
        let digits: String = text[i..i + 2].iter().collect();
        digits.parse::<u32>().unwrap()
    };
    let ranges: [(usize, usize, u32, u32); 5] =
        [(4, 5, 1, 12), (6, 8, 1, 31), (9, 11, 0, 23), (11, 14, 0, 59), (13, 17, 0, 60)];
    for (in_stamp, in_time, least, most) in ranges {
        assert!((least..=most).contains(&number(&stamp, in_stamp)), "{stamp:?}");
        assert!((least..=most).contains(&number(&now, in_time)), "{now:?}");
    }
    assert!(number(&now, n - 5) <= 24 && number(&now, n - 2) <= 59);
}
