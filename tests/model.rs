use std::cmp::Ordering;

use diffrust::model::{Collection, ContentType, Dir, File, FsNode};

fn digest(data: &[u8]) -> [u8; 16] {
    md5::compute(data).0
}

fn file_node(path: &str, bytes: &[u8]) -> FsNode {
    FsNode::RegularFile { path: String::from(path), bytes: bytes.to_vec() }
}

fn sample_tree() -> Vec<FsNode> {
    vec![
        file_node("/r/b.txt", b"same"),
        FsNode::Directory {
            path: String::from("/r/sub"),
            children: vec![
                file_node("/r/sub/c.txt", b"other"),
                FsNode::Directory { path: String::from("/r/sub/deep"), children: vec![] },
            ],
        },
        FsNode::Other { path: String::from("/r/link") },
        file_node("/r/a.txt", b"same"),
    ]
}

#[test]
fn collection_new() {
    let collection = Collection::new();
    assert_eq!(collection.name, "");
    assert_eq!(collection.root, String::new());
    assert!(collection.db.is_none());
    assert!(collection.root_dir.is_none());
}

#[test]
fn collection_from_path() {
    let dir = "/tmp/collection";
    let collection = Collection::from(dir);
    assert_eq!(collection.root, String::from(dir), "Unmatched paths");
}

#[test]
fn collection_save_ok() {
    let collection = Collection::new();
    let result = collection.save();
    assert!(result.is_ok());
}

#[test]
fn scan_empty() {
    let mut collection = Collection::new();
    collection.root = String::from("/tmp/empty");
    collection.scan(&vec![]);

    assert!(
        collection.root_dir.is_some(),
        "root_dir is None even after scan() of valid directory"
    );
    assert_eq!(
        "/tmp/empty",
        collection.root_dir.as_ref().unwrap().path,
        "Path of root Dir not matching given directory"
    );
    let content = collection.root_dir.unwrap().content;
    assert_eq!(0, content.len(), "Scan found some content in empty directory");
}

#[test]
fn scan_content() {
    let mut collection = Collection::from("/r");
    collection.scan(&sample_tree());
    let root = collection.root_dir.unwrap();
    assert_eq!(root.path, "/r");
    assert_eq!(root.content.len(), 3);
    assert_eq!(
        root.content[0],
        ContentType::ContentFile(File { path: String::from("/r/b.txt"), md5: digest(b"same") })
    );
    match &root.content[1] {
        ContentType::ContentDir(d) => {
            assert_eq!(d.path, "/r/sub");
            assert_eq!(d.content.len(), 2);
            assert_eq!(
                d.content[0],
                ContentType::ContentFile(File {
                    path: String::from("/r/sub/c.txt"),
                    md5: digest(b"other")
                })
            );
            assert_eq!(
                d.content[1],
                ContentType::ContentDir(Dir { path: String::from("/r/sub/deep"), content: vec![] })
            );
        }
        _ => panic!("subdirectory not indexed"),
    }
    assert_eq!(
        root.content[2],
        ContentType::ContentFile(File { path: String::from("/r/a.txt"), md5: digest(b"same") })
    );
}

#[test]
fn dir_scan() {
    let mut dir = Dir {
        path: String::from("/r"),
        content: vec![ContentType::ContentLink],
    };
    dir.scan(&vec![file_node("/r/x", b""), FsNode::Other { path: String::from("/r/y") }]);
    assert_eq!(dir.path, "/r");
    assert_eq!(
        dir.content,
        vec![ContentType::ContentFile(File { path: String::from("/r/x"), md5: digest(b"") })]
    );
}

#[test]
fn rescan_gives_same_tree() {
    let mut collection = Collection::from("/r");
    collection.scan(&sample_tree());
    let first = collection.root_dir.as_ref().unwrap().content.len();
    let files_first: Vec<File> = collection
        .root_dir
        .as_ref()
        .unwrap()
        .sorted_files()
        .into_iter()
        .map(|f| File { path: f.path.clone(), md5: f.md5 })
        .collect();
    collection.scan(&sample_tree());
    let root = collection.root_dir.as_ref().unwrap();
    assert_eq!(root.content.len(), first);
    let files_second: Vec<&File> = root.sorted_files();
    assert_eq!(files_first.iter().collect::<Vec<_>>(), files_second);
}

#[test]
fn dir_compare() {
    let d1 = Dir { path: String::from("/abc"), content: vec![] };
    let d2 = Dir { path: String::from("/abc/aaa"), content: vec![] };
    let d3 = Dir { path: String::from("/abf"), content: vec![] };
    assert_eq!(Ordering::Less, d1.cmp(&d3));
    assert_eq!(Ordering::Greater, d2.cmp(&d1));
    assert_eq!(Ordering::Equal, d3.cmp(&d3));
}

#[test]
fn file_compare() {
    let a = File { path: String::from("/a"), md5: digest(b"1") };
    let b = File { path: String::from("/b"), md5: digest(b"1") };
    assert_eq!(Ordering::Less, a.cmp(&b));
    assert_eq!(Ordering::Greater, b.cmp(&a));
    assert_eq!(Ordering::Equal, a.cmp(&a));
}

fn content_vector() -> Vec<ContentType> {
    vec![
        ContentType::ContentFile(File {
            path: String::from("/README.md"),
            md5: digest(b"README"),
        }),
        ContentType::ContentDir(Dir { path: String::from("/"), content: vec![] }),
        ContentType::ContentFile(File {
            path: String::from("~/Documents/hello.txt"),
            md5: digest(b"Hello World!"),
        }),
        ContentType::ContentDir(Dir { path: String::from("/root"), content: vec![] }),
    ]
}

fn files_vector() -> Vec<File> {
    vec![
        File { path: String::from("/README.md"), md5: digest(b"README") },
        File { path: String::from("~/Documents/hello.txt"), md5: digest(b"Hello World!") },
    ]
}

fn dirs_vector() -> Vec<Dir> {
    vec![
        Dir { path: String::from("/"), content: vec![] },
        Dir { path: String::from("/root"), content: vec![] },
    ]
}

#[test]
fn sort_files() {
    let dir = Dir { path: String::from("/"), content: content_vector() };
    let sorted = dir.sorted_files();
    let v = files_vector();
    assert_eq!(vec![&v[0], &v[1]], sorted, "Unsorted files in Dir")
}

#[test]
fn sort_dirs() {
    let dir = Dir { path: String::from(""), content: content_vector() };
    let sorted = dir.sorted_dirs();
    let v = dirs_vector();
    assert_eq!(vec![&v[0], &v[1]], sorted, "Unsorted directories in Dir");
}

#[test]
fn sorted_view_orders_by_path() {
    let names = ["/z", "/a/b", "/a", "/ab", "/A", "/a"];
    let content: Vec<ContentType> = names
        .iter()
        .map(|n| ContentType::ContentDir(Dir { path: String::from(*n), content: vec![] }))
        .collect();
    let dir = Dir { path: String::from("/"), content };
    let sorted: Vec<&str> = dir.sorted_dirs().iter().map(|d| d.path.as_str()).collect();
    assert_eq!(sorted, vec!["/A", "/a", "/a", "/a/b", "/ab", "/z"]);
}
