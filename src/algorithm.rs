//! String algorithms used to search the index: bigram similarity counts and
//! case-insensitive substring matching in the name part of a path.

use vstd::prelude::*;
use vstd::string::*;

use core::ops::Range;

use crate::order::{key_of, lemma_sort_map, lemma_sort_permutes, sort_by, sort_refs, Keyed};

verus! {

/// The lowercase form of a string, as `str::to_lowercase` gives it.
pub uninterp spec fn lower_of(s: Seq<char>) -> Seq<char>;

/// The last component of a path, as `Path::file_name` gives it.
pub uninterp spec fn file_name_of(path: Seq<char>) -> Option<Seq<char>>;

/// Relies on str::to_lowercase: the lowercase mapping of each character,
/// which depends on the characters alone and is one or more characters.
#[verifier::external_body]
fn to_lower(s: &str) -> (r: String)
    ensures
        r@ == lower_of(s@),
        s@.len() <= r@.len(),
{
    s.to_lowercase()
}

/// Relies on Path::file_name: the final component of `path`, or `None` when
/// the path ends in `..` or has no component.
#[verifier::external_body]
fn file_name(path: &str) -> (r: Option<String>)
    ensures
        match r {
            Some(n) => file_name_of(path@) == Some(n@),
            None => file_name_of(path@).is_none(),
        },
{
    std::path::Path::new(path).file_name().and_then(|n| n.to_str()).map(|n| n.to_string())
}

/// The overlapping windows of two adjacent characters of `s`, in order.
pub open spec fn bigram_seq(s: Seq<char>) -> Seq<Seq<char>> {
    Seq::new(if s.len() < 2 { 0 } else { (s.len() - 1) as nat }, |i: int| s.subrange(i, i + 2))
}

/// The bigrams of `s`: each pair of adjacent characters, in order, repeats
/// kept.
pub fn bigrams(s: &str) -> (r: Vec<String>)
    ensures
        r@.map_values(|b: String| b@) == bigram_seq(s@),
{
    let n = s.unicode_len();
    let mut r: Vec<String> = Vec::new();
    let mut i: usize = 0;
    while i + 1 < n
        invariant
            n == s@.len(),
            i <= n,
            i + 1 < n || r@.len() == bigram_seq(s@).len(),
            r@.len() == i,
            forall|k: int| 0 <= k < i ==> (#[trigger] r@[k])@ == s@.subrange(k, k + 2),
        decreases n - i,
    {
        let b = String::from_str(s.substring_char(i, i + 2));
        r.push(b);
        i = i + 1;
    }
    assert(r@.map_values(|b: String| b@) =~= bigram_seq(s@));
    r
}

/// Position `i` of `t` starts a UTF-8 character, or is its end.
pub open spec fn is_boundary(t: Seq<u8>, i: int) -> bool {
    i == t.len() || !(0x80 <= t[i] && t[i] < 0xC0)
}

/// `p` occurs in `t` at position `i`, starting a character.
pub open spec fn occurs_at(t: Seq<u8>, p: Seq<u8>, i: int) -> bool {
    &&& 0 <= i
    &&& i + p.len() <= t.len()
    &&& t.subrange(i, i + p.len()) == p
    &&& is_boundary(t, i)
}

/// Where the occurrences of `p` in `t` start, searching forward from `i`:
/// after an occurrence the search goes on at its end (or one further, for
/// an empty `p`), so that occurrences never overlap.
pub open spec fn occurrences_from(t: Seq<u8>, p: Seq<u8>, i: int) -> Seq<int>
    decreases t.len() + 1 - i,
{
    if i < 0 || i > t.len() {
        Seq::empty()
    } else if occurs_at(t, p, i) {
        seq![i] + occurrences_from(t, p, i + if p.len() == 0 { 1 } else { p.len() as int })
    } else {
        occurrences_from(t, p, i + 1)
    }
}

/// Where the non-overlapping occurrences of `p` in `t` start, from the left.
pub open spec fn occurrences(t: Seq<u8>, p: Seq<u8>) -> Seq<int> {
    occurrences_from(t, p, 0)
}

/// `r` lists one range per occurrence of `p` in `t`, in order, each from the
/// occurrence's start to its end.
pub open spec fn ranges_of_occurrences(t: Seq<u8>, p: Seq<u8>, r: Seq<Range<usize>>) -> bool {
    &&& r.len() == occurrences(t, p).len()
    &&& forall|k: int|
        0 <= k < r.len() ==> (#[trigger] r[k]).start == occurrences(t, p)[k] && r[k].end == r[k].start
            + p.len()
}

fn occurs_at_exec(t: &[u8], p: &[u8], i: usize) -> (r: bool)
    requires
        i <= t@.len(),
    ensures
        r == occurs_at(t@, p@, i as int),
{
    let n = t.len();
    let m = p.len();
    if m > n - i {
        return false;
    }
    if i < n && 0x80 <= t[i] && t[i] < 0xC0 {
        return false;
    }
    let mut k: usize = 0;
    while k < m
        invariant
            k <= m,
            m == p@.len(),
            n == t@.len(),
            i + m <= n,
            forall|q: int| 0 <= q < k ==> t@[i + q] == p@[q],
        decreases m - k,
    {
        if t[i + k] != p[k] {
            assert(t@.subrange(i as int, i + m)[k as int] != p@[k as int]);
            return false;
        }
        k = k + 1;
    }
    assert(t@.subrange(i as int, i + m) =~= p@);
    true
}

/// The byte ranges of the non-overlapping occurrences of `pattern` in
/// `name`, from the left.
pub fn match_ranges(name: &[u8], pattern: &[u8]) -> (r: Vec<Range<usize>>)
    ensures
        ranges_of_occurrences(name@, pattern@, r@),
{
    let n = name.len();
    let m = pattern.len();
    let ghost t = name@;
    let ghost p = pattern@;
    let mut r: Vec<Range<usize>> = Vec::new();
    let mut i: usize = 0;
    while i < n
        invariant
            i <= n,
            n == t.len(),
            m == p.len(),
            t == name@,
            p == pattern@,
            r@.map_values(|x: Range<usize>| x.start as int) + occurrences_from(t, p, i as int)
                == occurrences(t, p),
            forall|k: int| 0 <= k < r@.len() ==> (#[trigger] r@[k]).end == r@[k].start + m,
        decreases n - i,
    {
        let ghost before = r@;
        if occurs_at_exec(name, pattern, i) {
            r.push(Range { start: i, end: i + m });
            assert(r@.map_values(|x: Range<usize>| x.start as int) =~= before.map_values(
                |x: Range<usize>| x.start as int,
            ).push(i as int));
            if m == 0 {
                i = i + 1;
            } else {
                i = i + m;
            }
        } else {
            i = i + 1;
        }
    }
    let ghost before = r@;
    if occurs_at_exec(name, pattern, n) {
        r.push(Range { start: n, end: n + m });
        assert(r@.map_values(|x: Range<usize>| x.start as int) =~= before.map_values(
            |x: Range<usize>| x.start as int,
        ).push(n as int));
    }
    assert(occurrences_from(t, p, n as int + 1) == Seq::<int>::empty());
    assert forall|k: int| 0 <= k < r@.len() implies (#[trigger] r@[k]).start == occurrences(t, p)[k] by {
        assert(r@.map_values(|x: Range<usize>| x.start as int)[k] == r@[k].start as int);
    }
    r
}

/// The matches that `substrings_in_name` reports for `path` and `pattern`.
pub open spec fn name_matches(path: Seq<char>, pattern: Seq<char>, r: Seq<Range<usize>>) -> bool {
    match file_name_of(path) {
        Some(name) => ranges_of_occurrences(
            vstd::utf8::encode_utf8(lower_of(name)),
            vstd::utf8::encode_utf8(lower_of(pattern)),
            r,
        ),
        None => r.len() == 0,
    }
}

/// Returns all matches of the given pattern in the name part of the given
/// path, ignoring case: byte ranges in the lowercase name.
pub fn substrings_in_name(path: &str, pattern: &str) -> (r: Vec<Range<usize>>)
    ensures
        name_matches(path@, pattern@, r@),
{
    match file_name(path) {
        Some(name) => {
            let lname = to_lower(name.as_str());
            let lpattern = to_lower(pattern);
            match_ranges(lname.as_str().as_bytes(), lpattern.as_str().as_bytes())
        },
        None => Vec::new(),
    }
}

/// A character boundary at or after another one is a character boundary of
/// the text that starts there.
proof fn lemma_boundary_in_suffix(b: Seq<u8>, i: int, j: int)
    requires
        vstd::utf8::valid_utf8(b),
        0 <= i <= j <= b.len(),
        vstd::utf8::is_char_boundary(b, i),
        vstd::utf8::is_char_boundary(b, j),
    ensures
        vstd::utf8::valid_utf8(b.subrange(i, b.len() as int)),
        vstd::utf8::is_char_boundary(b.subrange(i, b.len() as int), j - i),
{
    vstd::utf8::valid_utf8_split(b, i);
    let r = b.subrange(i, b.len() as int);
    if j == b.len() {
        vstd::utf8::is_char_boundary_start_end_of_seq(r);
    } else {
        vstd::utf8::is_char_boundary_iff_not_is_continuation_byte(b, j);
        vstd::utf8::is_char_boundary_iff_not_is_continuation_byte(r, j - i);
        assert(r[j - i] == b[j]);
    }
}

/// `idx` is a non-decreasing run of character boundaries of `bytes`.
pub open spec fn valid_split(bytes: Seq<u8>, idx: Seq<int>) -> bool {
    &&& forall|k: int|
        0 <= k < idx.len() ==> 0 <= #[trigger] idx[k] <= bytes.len() && vstd::utf8::is_char_boundary(
            bytes,
            idx[k],
        )
    &&& forall|k: int| 0 < k < idx.len() ==> idx[k - 1] <= #[trigger] idx[k]
}

/// Where piece `k` of a split of `bytes` at `idx` starts.
pub open spec fn piece_start(idx: Seq<int>, k: int) -> int {
    if k == 0 {
        0
    } else {
        idx[k - 1]
    }
}

/// Where piece `k` of a split of `bytes` at `idx` ends.
pub open spec fn piece_end(bytes: Seq<u8>, idx: Seq<int>, k: int) -> int {
    if k == idx.len() {
        bytes.len() as int
    } else {
        idx[k]
    }
}

/// `r` is `bytes` cut at each position of `idx`.
pub open spec fn split_pieces(bytes: Seq<u8>, idx: Seq<int>, r: Seq<&str>) -> bool {
    &&& r.len() == idx.len() + 1
    &&& forall|k: int|
        0 <= k < r.len() ==> (#[trigger] r[k]).spec_bytes() == bytes.subrange(
            piece_start(idx, k),
            piece_end(bytes, idx, k),
        )
}

/// Splits a string into substrings at the given byte indexes.
pub fn _split_at_indexes<'a>(str: &'a str, indexes: Vec<usize>) -> (r: Vec<&'a str>)
    requires
        valid_split(str.spec_bytes(), indexes@.map_values(|x: usize| x as int)),
    ensures
        split_pieces(str.spec_bytes(), indexes@.map_values(|x: usize| x as int), r@),
{
    let ghost bytes = str.spec_bytes();
    let ghost idx = indexes@.map_values(|x: usize| x as int);
    proof {
        vstd::utf8::encode_utf8_valid_utf8(str@);
        vstd::utf8::is_char_boundary_start_end_of_seq(bytes);
    }
    let mut splits: Vec<&'a str> = Vec::new();
    let mut rest: &'a str = str;
    let mut i: usize = 0;
    let mut k: usize = 0;
    assert(bytes.subrange(0, bytes.len() as int) =~= bytes);
    while k < indexes.len()
        invariant
            bytes == str.spec_bytes(),
            vstd::utf8::valid_utf8(bytes),
            0 <= i <= bytes.len(),
            vstd::utf8::is_char_boundary(bytes, i as int),
            rest.spec_bytes() == bytes.subrange(i as int, bytes.len() as int),
            idx == indexes@.map_values(|x: usize| x as int),
            valid_split(bytes, idx),
            k <= indexes.len(),
            splits@.len() == k,
            i == piece_start(idx, k as int),
            forall|q: int|
                0 <= q < k ==> (#[trigger] splits@[q]).spec_bytes() == bytes.subrange(
                    piece_start(idx, q),
                    piece_end(bytes, idx, q),
                ),
        decreases indexes.len() - k,
    {
        let index = indexes[k];
        assert(idx[k as int] == index);
        proof {
            if k > 0 {
                assert(idx[k - 1] <= idx[k as int]);
            }
            lemma_boundary_in_suffix(bytes, i as int, index as int);
        }
        let (piece, tail) = rest.split_at(index - i);
        assert(piece.spec_bytes() =~= bytes.subrange(i as int, index as int));
        assert(tail.spec_bytes() =~= bytes.subrange(index as int, bytes.len() as int));
        splits.push(piece);
        rest = tail;
        i = index;
        k = k + 1;
    }
    splits.push(rest);
    splits
}

/// The byte positions where each match starts and ends, in order.
pub open spec fn match_bounds(ms: Seq<(usize, &str)>) -> Seq<int>
    decreases ms.len(),
{
    if ms.len() == 0 {
        Seq::empty()
    } else {
        match_bounds(ms.drop_last()) + seq![
            ms.last().0 as int,
            ms.last().0 + ms.last().1.spec_bytes().len(),
        ]
    }
}

proof fn lemma_match_bounds_len(ms: Seq<(usize, &str)>)
    ensures
        match_bounds(ms).len() == 2 * ms.len(),
    decreases ms.len(),
{
    if ms.len() > 0 {
        lemma_match_bounds_len(ms.drop_last());
    }
}

/// Splits a string around the given matches, each a byte position and the
/// matched text: pieces alternate between text outside and inside matches.
pub fn _split_at_match_indices<'a>(str: &'a str, matches: Vec<(usize, &str)>) -> (r: Vec<&'a str>)
    requires
        valid_split(str.spec_bytes(), match_bounds(matches@)),
    ensures
        split_pieces(str.spec_bytes(), match_bounds(matches@), r@),
{
    let n = str.as_bytes().len();
    let mut indices: Vec<usize> = Vec::new();
    let mut i: usize = 0;
    proof {
        lemma_match_bounds_len(matches@);
    }
    while i < matches.len()
        invariant
            i <= matches.len(),
            n == str.spec_bytes().len(),
            valid_split(str.spec_bytes(), match_bounds(matches@)),
            match_bounds(matches@).len() == 2 * matches@.len(),
            indices@.map_values(|x: usize| x as int) == match_bounds(matches@.subrange(0, i as int)),
        decreases matches.len() - i,
    {
        proof {
            lemma_match_bounds_at(matches@, i as int);
        }
        let m = matches[i];
        let ghost before = indices@;
        let start = m.0;
        let end = start + m.1.as_bytes().len();
        indices.push(start);
        indices.push(end);
        assert(indices@.map_values(|x: usize| x as int) =~= before.map_values(|x: usize| x as int)
            + seq![start as int, end as int]);
        i = i + 1;
    }
    assert(matches@.subrange(0, matches@.len() as int) =~= matches@);
    _split_at_indexes(str, indices)
}

proof fn lemma_match_bounds_at(ms: Seq<(usize, &str)>, i: int)
    requires
        0 <= i < ms.len(),
    ensures
        match_bounds(ms.subrange(0, i + 1)) == match_bounds(ms.subrange(0, i)) + seq![
            ms[i].0 as int,
            ms[i].0 + ms[i].1.spec_bytes().len(),
        ],
        match_bounds(ms)[2 * i + 1] == ms[i].0 + ms[i].1.spec_bytes().len(),
{
    let pre = ms.subrange(0, i + 1);
    assert(pre.drop_last() =~= ms.subrange(0, i));
    assert(pre.last() == ms[i]);
    lemma_match_bounds_prefix(ms, i + 1);
    lemma_match_bounds_len(ms);
    lemma_match_bounds_len(ms.subrange(0, i));
    assert(match_bounds(pre)[2 * i + 1] == match_bounds(ms)[2 * i + 1]);
}

proof fn lemma_match_bounds_prefix(ms: Seq<(usize, &str)>, i: int)
    requires
        0 <= i <= ms.len(),
    ensures
        match_bounds(ms.subrange(0, i)) =~= match_bounds(ms).subrange(0, 2 * i),
    decreases ms.len(),
{
    lemma_match_bounds_len(ms);
    lemma_match_bounds_len(ms.subrange(0, i));
    if i < ms.len() {
        assert(ms.drop_last().subrange(0, i) =~= ms.subrange(0, i));
        lemma_match_bounds_prefix(ms.drop_last(), i);
        lemma_match_bounds_len(ms.drop_last());
    } else {
        assert(ms.subrange(0, i) =~= ms);
    }
}

impl Keyed for String {
    open spec fn key_spec(&self) -> Seq<u8> {
        text_key(self@)
    }

    fn key(&self) -> (r: &[u8]) {
        self.as_str().as_bytes()
    }
}

/// The bytes by which a text sorts: its UTF-8 encoding.
pub open spec fn text_key(s: Seq<char>) -> Seq<u8> {
    vstd::utf8::encode_utf8(s)
}

/// The bigrams of the lowercase form of `s`, sorted.
pub open spec fn sorted_bigrams(s: Seq<char>) -> Seq<Seq<char>> {
    sort_by(bigram_seq(lower_of(s)), |b: Seq<char>| text_key(b))
}

/// The first position from `j` on where `v` holds `x`, or `v.len()`.
pub open spec fn next_equal(v: Seq<Seq<char>>, j: int, x: Seq<char>) -> int
    decreases v.len() - j,
{
    if j >= v.len() {
        v.len() as int
    } else if v[j] == x {
        j
    } else {
        next_equal(v, j + 1, x)
    }
}

/// The pairs that a forward pass finds from `vx[ix..]` into `vy[iy..]`:
/// each item of `vx`, in turn, takes the first equal item of `vy` after the
/// last one taken, if there is one.
pub open spec fn pairs_from(vx: Seq<Seq<char>>, ix: int, vy: Seq<Seq<char>>, iy: int) -> nat
    decreases vx.len() - ix,
{
    if ix >= vx.len() || ix < 0 {
        0
    } else {
        let j = next_equal(vy, iy, vx[ix]);
        if j < vy.len() {
            1 + pairs_from(vx, ix + 1, vy, j + 1)
        } else {
            pairs_from(vx, ix + 1, vy, iy)
        }
    }
}

/// The number of bigrams that `x` and `y` share, each bigram taken at most
/// once, after both are lowercased.
pub open spec fn shared_bigrams(x: Seq<char>, y: Seq<char>) -> nat {
    pairs_from(sorted_bigrams(x), 0, sorted_bigrams(y), 0)
}

/// The counts from which the Dice coefficient of two strings is
/// `2 * shared / (nx + ny)`.
pub struct DiceCounts {
    /// Bigrams that the two strings share
    pub shared: usize,
    /// Bigrams of the first string
    pub nx: usize,
    /// Bigrams of the second string
    pub ny: usize,
}

fn string_refs(v: &Vec<String>) -> (r: Vec<&String>)
    ensures
        r@.map_values(|b: &String| b@) == v@.map_values(|b: String| b@),
{
    let mut r: Vec<&String> = Vec::new();
    let mut i: usize = 0;
    while i < v.len()
        invariant
            i <= v.len(),
            r@.len() == i,
            forall|k: int| 0 <= k < i ==> (#[trigger] r@[k])@ == v@[k]@,
        decreases v.len() - i,
    {
        r.push(&v[i]);
        i = i + 1;
    }
    assert(r@.map_values(|b: &String| b@) =~= v@.map_values(|b: String| b@));
    r
}

fn sorted_bigram_refs(v: &Vec<String>, Ghost(s): Ghost<Seq<char>>) -> (r: Vec<&String>)
    requires
        v@.map_values(|b: String| b@) == bigram_seq(s),
    ensures
        r@.map_values(|b: &String| b@) == sort_by(bigram_seq(s), |b: Seq<char>| text_key(b)),
{
    let refs = string_refs(v);
    let r = sort_refs(refs);
    proof {
        let f = |b: &String| b@;
        let ka = |x: &String| key_of(x);
        let kb = |b: Seq<char>| text_key(b);
        assert forall|a: &String| #[trigger] ka(a) == kb(f(a)) by {}
        lemma_sort_map(refs@, f, ka, kb);
    }
    r
}

/// Counts the bigrams that `lx` and `ly` share, as a forward pass over both
/// sorted bigram sequences finds them, with the bigram count of each.
pub fn bigram_pair_counts(lx: &str, ly: &str) -> (r: DiceCounts)
    ensures
        r.shared == pairs_from(sort_by(bigram_seq(lx@), |b: Seq<char>| text_key(b)), 0, sort_by(bigram_seq(ly@), |b: Seq<char>| text_key(b)), 0),
        r.nx == bigram_seq(lx@).len(),
        r.ny == bigram_seq(ly@).len(),
{
    let bx = bigrams(lx);
    let by = bigrams(ly);
    let sx = sorted_bigram_refs(&bx, Ghost(lx@));
    let sy = sorted_bigram_refs(&by, Ghost(ly@));
    let ghost vx = sort_by(bigram_seq(lx@), |b: Seq<char>| text_key(b));
    let ghost vy = sort_by(bigram_seq(ly@), |b: Seq<char>| text_key(b));
    let mut nt: usize = 0;
    let mut ix: usize = 0;
    let mut iy: usize = 0;
    while ix < sx.len()
        invariant
            sx@.map_values(|b: &String| b@) == vx,
            sy@.map_values(|b: &String| b@) == vy,
            ix <= sx.len(),
            iy <= sy.len(),
            nt <= ix,
            nt + pairs_from(vx, ix as int, vy, iy as int) == pairs_from(vx, 0, vy, 0),
        decreases sx.len() - ix,
    {
        assert(vx[ix as int] == sx@[ix as int]@);
        let mut j: usize = iy;
        while j < sy.len() && !(*sx[ix] == *sy[j])
            invariant
                sx@.map_values(|b: &String| b@) == vx,
                sy@.map_values(|b: &String| b@) == vy,
                ix < sx.len(),
                iy <= j <= sy.len(),
                next_equal(vy, iy as int, vx[ix as int]) == next_equal(vy, j as int, vx[ix as int]),
            decreases sy.len() - j,
        {
            assert(vy[j as int] == sy@[j as int]@);
            j = j + 1;
        }
        if j < sy.len() {
            assert(vy[j as int] == sy@[j as int]@);
            nt = nt + 1;
            iy = j + 1;
        }
        ix = ix + 1;
    }
    proof {
        lemma_sort_permutes(bigram_seq(lx@), |b: Seq<char>| text_key(b));
        lemma_sort_permutes(bigram_seq(ly@), |b: Seq<char>| text_key(b));
    }
    DiceCounts { shared: nt, nx: bx.len(), ny: by.len() }
}

/// Counts the bigrams that `x` and `y` share once both are lowercased, with
/// the bigram count of each; `None` when either string has fewer than two
/// characters.
pub fn dice_counts(x: &str, y: &str) -> (r: Option<DiceCounts>)
    ensures
        r is None <==> x@.len() < 2 || y@.len() < 2,
        r matches Some(c) ==> {
            &&& c.shared == shared_bigrams(x@, y@)
            &&& c.nx == bigram_seq(lower_of(x@)).len()
            &&& c.ny == bigram_seq(lower_of(y@)).len()
            &&& c.nx > 0
            &&& c.ny > 0
        },
{
    if x.unicode_len() < 2 || y.unicode_len() < 2 {
        return None;
    }
    let lx = to_lower(x);
    let ly = to_lower(y);
    Some(bigram_pair_counts(lx.as_str(), ly.as_str()))
}

proof fn lemma_pairs_self(v: Seq<Seq<char>>, i: int)
    requires
        0 <= i <= v.len(),
    ensures
        pairs_from(v, i, v, i) == v.len() - i,
    decreases v.len() - i,
{
    if i < v.len() {
        lemma_pairs_self(v, i + 1);
    }
}

/// A string of two or more characters shares each of its bigrams with
/// itself: its Dice coefficient with itself is one.
pub proof fn lemma_similarity_self(x: Seq<char>)
    requires
        x.len() >= 2,
    ensures
        shared_bigrams(x, x) == bigram_seq(lower_of(x)).len(),
{
    let v = sorted_bigrams(x);
    lemma_pairs_self(v, 0);
    lemma_sort_permutes(bigram_seq(lower_of(x)), |b: Seq<char>| text_key(b));
    v.to_multiset_ensures();
    bigram_seq(lower_of(x)).to_multiset_ensures();
}

proof fn lemma_next_equal(v: Seq<Seq<char>>, j: int, x: Seq<char>)
    requires
        0 <= j,
    ensures
        next_equal(v, j, x) < v.len() ==> j <= next_equal(v, j, x) && v[next_equal(v, j, x)] == x,
    decreases v.len() - j,
{
    if j < v.len() && v[j] != x {
        lemma_next_equal(v, j + 1, x);
    }
}

proof fn lemma_pairs_disjoint(vx: Seq<Seq<char>>, ix: int, vy: Seq<Seq<char>>, iy: int)
    requires
        0 <= ix,
        0 <= iy,
        forall|a: Seq<char>| vx.contains(a) ==> !vy.contains(a),
    ensures
        pairs_from(vx, ix, vy, iy) == 0,
    decreases vx.len() - ix,
{
    if ix < vx.len() {
        lemma_next_equal(vy, iy, vx[ix]);
        assert(vx.contains(vx[ix]));
        lemma_pairs_disjoint(vx, ix + 1, vy, iy);
    }
}

/// Strings with no bigram in common, once lowercased, share none: their
/// Dice coefficient is zero.
pub proof fn lemma_similarity_disjoint(x: Seq<char>, y: Seq<char>)
    requires
        forall|a: Seq<char>|
            bigram_seq(lower_of(x)).contains(a) ==> !bigram_seq(lower_of(y)).contains(a),
    ensures
        shared_bigrams(x, y) == 0,
{
    broadcast use vstd::seq_lib::group_to_multiset_ensures;

    let bx = bigram_seq(lower_of(x));
    let by = bigram_seq(lower_of(y));
    lemma_sort_permutes(bx, |b: Seq<char>| text_key(b));
    lemma_sort_permutes(by, |b: Seq<char>| text_key(b));
    let vx = sorted_bigrams(x);
    let vy = sorted_bigrams(y);
    assert forall|a: Seq<char>| vx.contains(a) implies !vy.contains(a) by {
        assert(vx.to_multiset().count(a) > 0);
        assert(bx.contains(a));
        if vy.contains(a) {
            assert(vy.to_multiset().count(a) > 0);
            assert(by.contains(a));
        }
    }
    lemma_pairs_disjoint(vx, 0, vy, 0);
}

} // verus!
