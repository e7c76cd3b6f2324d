//! The two queries over a scanned directory, and the choice between them.

use vstd::prelude::*;

use core::ops::Range;

use crate::algorithm::{file_name_of, lower_of, name_matches, occurrences, substrings_in_name};
use crate::model::{ContentType, Dir, File};

verus! {

/// What the collection is opened with: its root path and, optionally, a
/// pattern to find entries by name.
pub struct Config {
    /// The path to the opened collection
    pub path: String,
    /// A pattern for finding files by name
    pub find: Option<String>,
}

impl Config {
    /// A configuration from its two values.
    pub fn build(path: String, find: Option<String>) -> (r: Config)
        ensures
            r.path == path,
            r.find == find,
    {
        Config { path, find }
    }
}

/// The query that a run performs.
#[derive(Debug, Clone, Copy, PartialEq, Eq)]
pub enum Command {
    /// List the content of the root directory
    Show,
    /// List the entries of the root directory whose name matches
    Find,
}

impl Command {
    /// `Find` when a pattern was given, else `Show`.
    pub fn from(config: &Config) -> (r: Command)
        ensures
            r == (if config.find is Some {
                Command::Find
            } else {
                Command::Show
            }),
    {
        if config.find.is_some() {
            Command::Find
        } else {
            Command::Show
        }
    }
}

/// The name part of `path` holds `pattern`, ignoring case.
pub open spec fn has_name_match(path: Seq<char>, pattern: Seq<char>) -> bool {
    match file_name_of(path) {
        Some(name) => occurrences(
            vstd::utf8::encode_utf8(lower_of(name)),
            vstd::utf8::encode_utf8(lower_of(pattern)),
        ).len() > 0,
        None => false,
    }
}

/// A directory or file entry whose name holds `pattern`.
pub open spec fn entry_matches(c: ContentType, pattern: Seq<char>) -> bool {
    match c {
        ContentType::ContentDir(d) => has_name_match(d.path@, pattern),
        ContentType::ContentFile(f) => has_name_match(f.path@, pattern),
        ContentType::ContentLink => false,
    }
}

/// The entries of `content` whose name holds `pattern`, in order.
pub open spec fn found_in<'a>(content: Seq<ContentType>, pattern: Seq<char>) -> Seq<&'a ContentType>
    decreases content.len(),
{
    if content.len() == 0 {
        Seq::empty()
    } else {
        let rest = found_in(content.drop_last(), pattern);
        if entry_matches(content.last(), pattern) {
            rest.push(&content.last())
        } else {
            rest
        }
    }
}

fn path_has_match(path: &String, pattern: &str) -> (r: bool)
    ensures
        r == has_name_match(path@, pattern@),
{
    let m = substrings_in_name(path.as_str(), pattern);
    assert(name_matches(path@, pattern@, m@));
    m.len() > 0
}

/// The immediate entries of `dir` whose name holds `pattern`, ignoring
/// case; entries of subdirectories are not searched.
pub fn find<'a>(dir: &'a Dir, pattern: &str) -> (r: Vec<&'a ContentType>)
    ensures
        r@ == found_in(dir.content@, pattern@),
{
    let mut r: Vec<&'a ContentType> = Vec::new();
    let mut i: usize = 0;
    while i < dir.content.len()
        invariant
            i <= dir.content.len(),
            r@ == found_in(dir.content@.subrange(0, i as int), pattern@),
        decreases dir.content.len() - i,
    {
        assert(dir.content@.subrange(0, i + 1).drop_last() =~= dir.content@.subrange(0, i as int));
        let c = &dir.content[i];
        let keep = match c {
            ContentType::ContentDir(d) => path_has_match(&d.path, pattern),
            ContentType::ContentFile(f) => path_has_match(&f.path, pattern),
            ContentType::ContentLink => false,
        };
        if keep {
            r.push(c);
        }
        i = i + 1;
    }
    assert(dir.content@.subrange(0, dir.content@.len() as int) =~= dir.content@);
    r
}

/// Every entry that a search finds is an immediate entry of the directory
/// searched, and its name matches.
pub proof fn lemma_found_are_children(content: Seq<ContentType>, pattern: Seq<char>)
    ensures
        forall|i: int|
            0 <= i < found_in(content, pattern).len() ==> content.contains(*#[trigger] found_in(content, pattern)[i])
                && entry_matches(*found_in(content, pattern)[i], pattern),
    decreases content.len(),
{
    if content.len() > 0 {
        let rest = content.drop_last();
        lemma_found_are_children(rest, pattern);
        assert forall|i: int| 0 <= i < found_in(content, pattern).len() implies content.contains(
            *#[trigger] found_in(content, pattern)[i],
        ) && entry_matches(*found_in(content, pattern)[i], pattern) by {
            if i < found_in(rest, pattern).len() {
                let j = choose|j: int| 0 <= j < rest.len() && rest[j] == *found_in(rest, pattern)[i];
                assert(content[j] == rest[j]);
            } else {
                assert(content[content.len() - 1] == content.last());
            }
        }
    }
}

/// The distinct digests among `files`.
pub open spec fn digest_set(files: Seq<&File>) -> Set<Seq<u8>> {
    files.map_values(|f: &File| f.md5@).to_set()
}

fn same_digest(a: &[u8; 16], b: &[u8; 16]) -> (r: bool)
    ensures
        r == (a@ == b@),
{
    let mut k: usize = 0;
    while k < 16
        invariant
            k <= 16,
            a@.len() == 16,
            b@.len() == 16,
            forall|q: int| 0 <= q < k ==> a@[q] == b@[q],
        decreases 16 - k,
    {
        if a[k] != b[k] {
            return false;
        }
        k = k + 1;
    }
    assert(a@ =~= b@);
    true
}

/// How many distinct contents `files` have: files with equal digests count
/// once, whatever their paths.
pub fn unique_digest_count(files: &Vec<&File>) -> (r: usize)
    ensures
        r == digest_set(files@).len(),
{
    let ghost dv = |f: &File| f.md5@;
    let ghost av = |d: [u8; 16]| d@;
    let mut seen: Vec<[u8; 16]> = Vec::new();
    let mut i: usize = 0;
    while i < files.len()
        invariant
            i <= files.len(),
            seen@.len() <= i,
            dv == (|f: &File| f.md5@),
            av == (|d: [u8; 16]| d@),
            seen@.map_values(av).no_duplicates(),
            seen@.map_values(av).to_set() == files@.subrange(0, i as int).map_values(dv).to_set(),
        decreases files.len() - i,
    {
        let d = files[i].md5;
        let mut k: usize = 0;
        let mut found = false;
        while k < seen.len() && !found
            invariant
                k <= seen.len(),
                av == (|d: [u8; 16]| d@),
                found ==> seen@.map_values(av).contains(d@),
                !found ==> forall|q: int| 0 <= q < k ==> seen@[q]@ != d@,
            decreases seen.len() - k + if found { 0int } else { 1int },
        {
            if same_digest(&seen[k], &d) {
                found = true;
                assert(seen@.map_values(av)[k as int] == d@);
            } else {
                k = k + 1;
            }
        }
        let ghost before = seen@.map_values(av);
        let ghost pre = files@.subrange(0, i as int).map_values(dv);
        let ghost post = files@.subrange(0, i as int + 1).map_values(dv);
        assert(post =~= pre.push(d@));
        if !found {
            assert(!before.contains(d@));
            seen.push(d);
            assert(seen@.map_values(av) =~= before.push(d@));
            assert(seen@.map_values(av).to_set() =~= post.to_set()) by {
                assert forall|x: Seq<u8>| seen@.map_values(av).to_set().contains(x) == post.to_set().contains(x) by {
                    if x == d@ {
                        assert(seen@.map_values(av)[seen@.len() - 1] == x);
                        assert(post[post.len() - 1] == x);
                    } else if before.contains(x) {
                        assert(pre.to_set().contains(x));
                        let j = choose|j: int| 0 <= j < pre.len() && pre[j] == x;
                        assert(post[j] == x);
                        let j2 = choose|j2: int| 0 <= j2 < before.len() && before[j2] == x;
                        assert(seen@.map_values(av)[j2] == x);
                    } else if post.contains(x) {
                        let j = choose|j: int| 0 <= j < post.len() && post[j] == x;
                        assert(pre[j] == x);
                        assert(pre.to_set().contains(x));
                    } else if seen@.map_values(av).contains(x) {
                        let j = choose|j: int| 0 <= j < seen@.len() && seen@.map_values(av)[j] == x;
                        assert(before[j] == x);
                    }
                }
            }
        } else {
            assert(before.to_set() =~= post.to_set()) by {
                assert forall|x: Seq<u8>| before.to_set().contains(x) == post.to_set().contains(x) by {
                    if x == d@ {
                        assert(post[post.len() - 1] == x);
                    } else if post.contains(x) {
                        let j = choose|j: int| 0 <= j < post.len() && post[j] == x;
                        assert(pre[j] == x);
                        assert(pre.to_set().contains(x));
                    } else if before.contains(x) {
                        assert(pre.to_set().contains(x));
                        let j = choose|j: int| 0 <= j < pre.len() && pre[j] == x;
                        assert(post[j] == x);
                    }
                }
            }
        }
        i = i + 1;
    }
    proof {
        seen@.map_values(av).unique_seq_to_set();
        assert(files@.subrange(0, files@.len() as int) =~= files@);
    }
    seen.len()
}

/// Files count once per distinct content: two files with equal digests,
/// whatever their paths, and a third with another digest make two.
pub proof fn lemma_duplicates_counted_once(a: &File, b: &File, c: &File)
    requires
        a.md5@ == b.md5@,
        c.md5@ != a.md5@,
    ensures
        digest_set(seq![a, b, c]).len() == 2,
{
    let s = seq![a, b, c].map_values(|f: &File| f.md5@);
    assert(s[0] == a.md5@ && s[1] == b.md5@ && s[2] == c.md5@);
    let two = Set::<Seq<u8>>::empty().insert(a.md5@).insert(c.md5@);
    assert(s.to_set() =~= two) by {
        assert forall|x: Seq<u8>| s.to_set().contains(x) == two.contains(x) by {
            if two.contains(x) {
                if x == a.md5@ {
                    assert(s[0] == x);
                } else {
                    assert(s[2] == x);
                }
            }
        }
    }
    assert(Set::<Seq<u8>>::empty().insert(a.md5@).len() == 1);
}

/// One slot per entry of `content` for the range where `pattern` matched
/// it; no entry is matched yet, so every slot is `None`.
pub fn _substring_match_content(content: &Vec<ContentType>, _pattern: &str) -> (r: Vec<Option<Range<usize>>>)
    ensures
        r@.len() == content@.len(),
        forall|i: int| 0 <= i < r@.len() ==> #[trigger] r@[i] is None,
{
    let mut r: Vec<Option<Range<usize>>> = Vec::new();
    let mut i: usize = 0;
    while i < content.len()
        invariant
            i <= content.len(),
            r@.len() == i,
            forall|k: int| 0 <= k < r@.len() ==> #[trigger] r@[k] is None,
        decreases content.len() - i,
    {
        r.push(None);
        i = i + 1;
    }
    r
}

} // verus!
