//! The directory index: entries, their mathematical model, and the scan
//! that builds the index from a snapshot of the file system.

use vstd::prelude::*;
use vstd::string::*;

use crate::order::{
    bytes_cmp, bytes_cmp_exec, key_of, lemma_sort_permutes, lemma_sort_sorted, sort_by_key, sort_refs,
    sorted_by, Keyed,
};

verus! {

/// The MD5 digest of a byte sequence, as the md5 crate computes it.
pub uninterp spec fn md5_of(data: Seq<u8>) -> Seq<u8>;

/// Relies on md5::compute: the 16-byte digest of the whole of `data`,
/// which depends on those bytes alone.
#[verifier::external_body]
fn content_digest(data: &Vec<u8>) -> (r: [u8; 16])
    ensures
        r@ == md5_of(data@),
{
    md5::compute(data).0
}

/// What the file system showed for one entry of a directory, handed in by
/// the caller that read it. A directory carries its own entries.
pub enum FsNode {
    /// A directory, with the entries shown in it
    Directory { path: String, children: Vec<FsNode> },
    /// A regular file, with its whole content
    RegularFile { path: String, bytes: Vec<u8> },
    /// Any other kind of entry (a link, a device, a socket)
    Other { path: String },
}

/// The kinds of entry that an indexed directory holds.
#[derive(Debug, PartialEq)]
pub enum ContentType {
    /// A subdirectory
    ContentDir(Dir),
    /// A regular file
    ContentFile(File),
    /// A hard or symbolic link (recognised, never produced by a scan)
    ContentLink,
}

/// An indexed directory.
#[derive(Debug, PartialEq)]
pub struct Dir {
    /// Absolute path of the directory
    pub path: String,
    /// Directory content, in scan order
    pub content: Vec<ContentType>,
}

/// An indexed file.
#[derive(Debug, PartialEq, Eq)]
pub struct File {
    /// File path
    pub path: String,
    /// MD5 digest of the file's content
    pub md5: [u8; 16],
}

/// The mathematical value of an index entry.
pub enum Entry {
    Directory { path: Seq<char>, children: Seq<Entry> },
    RegularFile { path: Seq<char>, digest: Seq<u8> },
    Link,
}

/// The index that a scan of `nodes` yields: directories keep their
/// (indexed) children, regular files become their digest, anything else is
/// left out. Order is kept.
pub open spec fn index_model(nodes: Seq<FsNode>) -> Seq<Entry>
    decreases nodes,
{
    if nodes.len() == 0 {
        Seq::empty()
    } else {
        let rest = index_model(nodes.subrange(0, nodes.len() - 1));
        match nodes[nodes.len() - 1] {
            FsNode::Directory { path, children } => rest.push(
                Entry::Directory { path: path@, children: index_model(children@) },
            ),
            FsNode::RegularFile { path, bytes } => rest.push(
                Entry::RegularFile { path: path@, digest: md5_of(bytes@) },
            ),
            FsNode::Other { .. } => rest,
        }
    }
}

/// The mathematical value of a sequence of index entries.
pub open spec fn content_model(content: Seq<ContentType>) -> Seq<Entry>
    decreases content,
{
    if content.len() == 0 {
        Seq::empty()
    } else {
        let rest = content_model(content.subrange(0, content.len() - 1));
        match content[content.len() - 1] {
            ContentType::ContentDir(d) => rest.push(
                Entry::Directory { path: d.path@, children: content_model(d.content@) },
            ),
            ContentType::ContentFile(f) => rest.push(
                Entry::RegularFile { path: f.path@, digest: f.md5@ },
            ),
            ContentType::ContentLink => rest.push(Entry::Link),
        }
    }
}

/// Indexes a snapshot of directory entries, to all depths.
fn index_nodes(nodes: &Vec<FsNode>) -> (r: Vec<ContentType>)
    ensures
        content_model(r@) == index_model(nodes@),
    decreases nodes@,
{
    let mut r: Vec<ContentType> = Vec::new();
    let mut i: usize = 0;
    while i < nodes.len()
        invariant
            i <= nodes.len(),
            content_model(r@) == index_model(nodes@.subrange(0, i as int)),
        decreases nodes.len() - i,
    {
        let ghost done = nodes@.subrange(0, i as int);
        let ghost old_r = r@;
        assert(nodes@.subrange(0, i + 1).subrange(0, i as int) == done);
        match &nodes[i] {
            FsNode::Directory { path, children } => {
                let sub = index_nodes(children);
                r.push(ContentType::ContentDir(Dir { path: path.clone(), content: sub }));
            },
            FsNode::RegularFile { path, bytes } => {
                let digest = content_digest(bytes);
                r.push(ContentType::ContentFile(File { path: path.clone(), md5: digest }));
            },
            FsNode::Other { .. } => {},
        }
        assert(r@.len() > old_r.len() ==> r@.subrange(0, r@.len() - 1) == old_r);
        i = i + 1;
    }
    assert(nodes@.subrange(0, nodes@.len() as int) == nodes@);
    r
}

impl Dir {
    /// Replaces the content of this directory with the index of `listing`,
    /// the entries that the file system shows in it (each directory with its
    /// own entries). Regular files are indexed by digest; entries that are
    /// neither directory nor regular file are skipped.
    pub fn scan(&mut self, listing: &Vec<FsNode>)
        ensures
            final(self).path == old(self).path,
            content_model(final(self).content@) == index_model(listing@),
    {
        self.content = index_nodes(listing);
    }
}

/// The bytes by which a path sorts: its UTF-8 encoding.
pub open spec fn path_key(path: Seq<char>) -> Seq<u8> {
    vstd::utf8::encode_utf8(path)
}

impl Keyed for Dir {
    open spec fn key_spec(&self) -> Seq<u8> {
        path_key(self.path@)
    }

    fn key(&self) -> (r: &[u8]) {
        self.path.as_str().as_bytes()
    }
}

impl Keyed for File {
    open spec fn key_spec(&self) -> Seq<u8> {
        path_key(self.path@)
    }

    fn key(&self) -> (r: &[u8]) {
        self.path.as_str().as_bytes()
    }
}

/// The subdirectories among `content`, in content order.
pub open spec fn dirs_of<'a>(content: Seq<ContentType>) -> Seq<&'a Dir>
    decreases content.len(),
{
    if content.len() == 0 {
        Seq::empty()
    } else {
        let rest = dirs_of(content.drop_last());
        match content.last() {
            ContentType::ContentDir(d) => rest.push(&d),
            _ => rest,
        }
    }
}

/// The files among `content`, in content order.
pub open spec fn files_of<'a>(content: Seq<ContentType>) -> Seq<&'a File>
    decreases content.len(),
{
    if content.len() == 0 {
        Seq::empty()
    } else {
        let rest = files_of(content.drop_last());
        match content.last() {
            ContentType::ContentFile(f) => rest.push(&f),
            _ => rest,
        }
    }
}

impl Dir {
    /// Orders directories by path.
    pub fn cmp(&self, other: &Dir) -> (r: core::cmp::Ordering)
        ensures
            r == bytes_cmp(self.key_spec(), other.key_spec()),
    {
        bytes_cmp_exec(self.key(), other.key())
    }

    /// The subdirectories of this directory, sorted by path.
    pub fn sorted_dirs(&self) -> (r: Vec<&Dir>)
        ensures
            r@ == sort_by_key(dirs_of(self.content@)),
            sorted_by(r@, |x: &Dir| key_of(x)),
            r@.to_multiset() == dirs_of(self.content@).to_multiset(),
    {
        let mut dirs: Vec<&Dir> = Vec::new();
        let mut i: usize = 0;
        while i < self.content.len()
            invariant
                i <= self.content.len(),
                dirs@ == dirs_of(self.content@.subrange(0, i as int)),
            decreases self.content.len() - i,
        {
            assert(self.content@.subrange(0, i + 1).drop_last() =~= self.content@.subrange(0, i as int));
            match &self.content[i] {
                ContentType::ContentDir(d) => dirs.push(d),
                _ => {},
            }
            i = i + 1;
        }
        assert(self.content@.subrange(0, self.content@.len() as int) =~= self.content@);
        proof {
            lemma_sort_sorted(dirs@, |x: &Dir| key_of(x));
            lemma_sort_permutes(dirs@, |x: &Dir| key_of(x));
        }
        sort_refs(dirs)
    }

    /// The files of this directory, sorted by path.
    pub fn sorted_files(&self) -> (r: Vec<&File>)
        ensures
            r@ == sort_by_key(files_of(self.content@)),
            sorted_by(r@, |x: &File| key_of(x)),
            r@.to_multiset() == files_of(self.content@).to_multiset(),
    {
        let mut files: Vec<&File> = Vec::new();
        let mut i: usize = 0;
        while i < self.content.len()
            invariant
                i <= self.content.len(),
                files@ == files_of(self.content@.subrange(0, i as int)),
            decreases self.content.len() - i,
        {
            assert(self.content@.subrange(0, i + 1).drop_last() =~= self.content@.subrange(0, i as int));
            match &self.content[i] {
                ContentType::ContentFile(f) => files.push(f),
                _ => {},
            }
            i = i + 1;
        }
        assert(self.content@.subrange(0, self.content@.len() as int) =~= self.content@);
        proof {
            lemma_sort_sorted(files@, |x: &File| key_of(x));
            lemma_sort_permutes(files@, |x: &File| key_of(x));
        }
        sort_refs(files)
    }
}

impl File {
    /// Orders files by path.
    pub fn cmp(&self, other: &File) -> (r: core::cmp::Ordering)
        ensures
            r == bytes_cmp(self.key_spec(), other.key_spec()),
    {
        bytes_cmp_exec(self.key(), other.key())
    }
}

/// The error type of file-system operations.
#[verifier::external_type_specification]
#[verifier::external_body]
pub struct ExIoError(std::io::Error);

/// A directory that is indexed.
pub struct Collection {
    /// Collection name (empty when none is configured)
    pub name: String,
    /// The root path of the collection
    pub root: String,
    /// Path of the configuration file, when one was read
    pub db: Option<String>,
    /// The root directory; `None` until the first scan
    pub root_dir: Option<Dir>,
}

impl Collection {
    /// Creates an empty collection: empty name and root, no configuration
    /// file, not scanned.
    pub fn new() -> (r: Self)
        ensures
            r.name@ == Seq::<char>::empty(),
            r.root@ == Seq::<char>::empty(),
            r.db is None,
            r.root_dir is None,
    {
        Collection { name: String::new(), root: String::new(), db: None, root_dir: None }
    }

    /// Creates an unscanned, unnamed collection rooted at `path`.
    pub fn from(path: &str) -> (r: Self)
        ensures
            r.name@ == Seq::<char>::empty(),
            r.root@ == path@,
            r.db is None,
            r.root_dir is None,
    {
        Collection { name: String::new(), root: String::from_str(path), db: None, root_dir: None }
    }

    /// Saving writes nothing and always succeeds.
    pub fn save(&self) -> (r: Result<(), std::io::Error>)
        ensures
            r is Ok,
    {
        Ok(())
    }

    /// Scans the collection from `listing`, the entries that the file
    /// system shows in its root directory: the root directory (created at
    /// the collection's root path on the first scan) gets the index of
    /// `listing` in place of what it held.
    pub fn scan(&mut self, listing: &Vec<FsNode>)
        ensures
            final(self).name == old(self).name,
            final(self).root == old(self).root,
            final(self).db == old(self).db,
            final(self).root_dir matches Some(d) && d.path@ == match old(self).root_dir {
                Some(o) => o.path@,
                None => old(self).root@,
            } && content_model(d.content@) == index_model(listing@),
    {
        let path = match &self.root_dir {
            Some(d) => d.path.clone(),
            None => self.root.clone(),
        };
        let mut dir = Dir { path, content: Vec::new() };
        dir.scan(listing);
        self.root_dir = Some(dir);
    }
}

proof fn lemma_content_model_len(content: Seq<ContentType>)
    ensures
        content_model(content).len() == content.len(),
    decreases content.len(),
{
    if content.len() > 0 {
        lemma_content_model_len(content.subrange(0, content.len() - 1));
    }
}

/// Two scans of one unchanged listing give the same index: the same
/// entries, paths, child counts and digests at every depth. An empty
/// listing gives an empty directory.
pub proof fn lemma_scan_deterministic(listing: Seq<FsNode>, a: Seq<ContentType>, b: Seq<ContentType>)
    requires
        content_model(a) == index_model(listing),
        content_model(b) == index_model(listing),
    ensures
        content_model(a) == content_model(b),
        a.len() == b.len(),
        listing.len() == 0 ==> a.len() == 0,
{
    lemma_content_model_len(a);
    lemma_content_model_len(b);
}

} // verus!
