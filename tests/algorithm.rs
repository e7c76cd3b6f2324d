use std::ops::Range;

use diffrust::algorithm::{
    _split_at_indexes, _split_at_match_indices, bigrams, dice_counts, match_ranges,
    substrings_in_name,
};

fn dice_coefficient(x: &str, y: &str) -> f64 {
    match dice_counts(x, y) {
        None => 0.0,
        Some(c) => 2.0 * c.shared as f64 / (c.nx + c.ny) as f64,
    }
}

#[test]
fn bigrams_empty() {
    let v = bigrams("");
    assert_eq!(v.len(), 0, "Non-empty bigrams vector");
}

#[test]
fn bigrams_no_repetition() {
    let s = "abcd";
    let v = bigrams(s);
    assert_eq!(v, vec!["ab", "bc", "cd"]);
}

#[test]
fn bigrams_with_repetition() {
    let s = "abbcab";
    let v = bigrams(s);
    assert_eq!(v, vec!["ab", "bb", "bc", "ca", "ab"]);
}

#[test]
fn bigrams_of_multibyte_text() {
    assert_eq!(bigrams("été"), vec!["ét", "té"]);
}

#[test]
fn dice_is_zero() {
    let x = "abcd";
    let y = "efg";
    assert_eq!(0.0, dice_coefficient(x, y));
}

#[test]
fn dice_with_empty() {
    let x = "";
    let y = "ab";
    assert_eq!(0.0, dice_coefficient(x, y));
    assert_eq!(0.0, dice_coefficient(x, x));
}

#[test]
fn dice_with_singleton() {
    let x = "a";
    let y = "ab";
    assert_eq!(0.0, dice_coefficient(x, y));
}

#[test]
fn dice_is_one() {
    let x = "abcd";
    let y = "abcd";
    assert_eq!(1.0, dice_coefficient(x, y));
}

#[test]
fn dice_with_repetition() {
    let x = "abab";
    let y = "acba";
    assert_eq!(2.0 / 6.0, dice_coefficient(x, y));
}

#[test]
fn dice_with_repetition_reversed() {
    let x = "acba";
    let y = "abab";
    assert_eq!(2.0 / 6.0, dice_coefficient(x, y));
}

#[test]
fn dice_without_repetition() {
    let x = "yz";
    let y = "yzuvx";
    assert_eq!(2.0 / 5.0, dice_coefficient(x, y));
}

#[test]
fn dice_counts_exact() {
    let c = dice_counts("abab", "acba").unwrap();
    assert_eq!((c.shared, c.nx, c.ny), (1, 3, 3));
    assert!(dice_counts("a", "abc").is_none());
    assert!(dice_counts("abc", "").is_none());
}

#[test]
fn dice_ignores_case() {
    let c = dice_counts("ABcd", "abCD").unwrap();
    assert_eq!((c.shared, c.nx, c.ny), (3, 3, 3));
}

#[test]
fn dice_self_similarity_is_one() {
    for x in ["ab", "aaaa", "Hello World", "abcabcabc"] {
        assert_eq!(1.0, dice_coefficient(x, x));
    }
}

#[test]
fn dice_of_disjoint_bigrams_is_zero() {
    assert_eq!(0.0, dice_coefficient("abab", "cdcd"));
    assert_eq!(0.0, dice_coefficient("xyz", "zyx"));
}

#[test]
fn dice_repeated_bigrams_pair_once() {
    let c = dice_counts("aaaa", "aa").unwrap();
    assert_eq!((c.shared, c.nx, c.ny), (1, 3, 1));
    let c = dice_counts("aa", "aaaa").unwrap();
    assert_eq!((c.shared, c.nx, c.ny), (1, 1, 3));
}

#[test]
fn substring_in_path_name() {
    let path = "/tmp/ab.txt";
    let pattern = "ab";
    assert_eq!(
        substrings_in_name(path, pattern),
        // We obtain the index on the name
        [Range { start: 0, end: 2 }],
        "Substring in path name not matched"
    );

    let path = "books/Introduction.to.Algorithms.pdf";
    let pattern = "Introduction";
    assert!(
        substrings_in_name(path, pattern).len() > 0,
        "Substring in path name not matched (mixed case test)"
    )
}

#[test]
fn substring_absent_gives_no_match() {
    assert!(substrings_in_name("/tmp/ab.txt", "zz").is_empty());
}

#[test]
fn substring_match_ignores_case() {
    assert_eq!(substrings_in_name("~/Abbey.jpg", "ab"), [Range { start: 0, end: 2 }]);
    assert_eq!(substrings_in_name("~/abbey.jpg", "AB"), [Range { start: 0, end: 2 }]);
}

#[test]
fn substring_not_searched_in_prefix() {
    assert!(substrings_in_name("lab/test/result.csv", "lab").is_empty());
    assert!(substrings_in_name("~/a/b.txt", "ab").is_empty());
}

#[test]
fn substring_in_directory_path_with_trailing_slash() {
    assert_eq!(substrings_in_name("Documents/books/", "oo"), [Range { start: 1, end: 3 }]);
}

#[test]
fn substring_matches_do_not_overlap() {
    assert_eq!(
        substrings_in_name("abracadabra.abb", "ab"),
        [
            Range { start: 0, end: 2 },
            Range { start: 7, end: 9 },
            Range { start: 12, end: 14 }
        ]
    );
    assert_eq!(
        substrings_in_name("/x/aaaa", "aa"),
        [Range { start: 0, end: 2 }, Range { start: 2, end: 4 }]
    );
}

#[test]
fn substring_without_name_component() {
    assert!(substrings_in_name("/", "a").is_empty());
    assert!(substrings_in_name("a/..", "a").is_empty());
}

#[test]
fn match_ranges_on_bytes() {
    assert_eq!(match_ranges(b"aaa", b"aa"), [Range { start: 0, end: 2 }]);
    assert_eq!(match_ranges(b"abc", b"d"), []);
    assert_eq!(
        match_ranges(b"ab", b""),
        [
            Range { start: 0, end: 0 },
            Range { start: 1, end: 1 },
            Range { start: 2, end: 2 }
        ]
    );
}

#[test]
fn match_ranges_on_multibyte_text() {
    let name = "é-é";
    assert_eq!(
        match_ranges(name.as_bytes(), "é".as_bytes()),
        [Range { start: 0, end: 2 }, Range { start: 3, end: 5 }]
    );
    assert_eq!(
        match_ranges("éa".as_bytes(), b""),
        [
            Range { start: 0, end: 0 },
            Range { start: 2, end: 2 },
            Range { start: 3, end: 3 }
        ]
    );
}

#[test]
fn split_by_indexes() {
    let s = "/A/b/ccc.txt";
    let indexes = vec![0, 2, 4];
    let splits = _split_at_indexes(&s, indexes);
    assert_eq!(splits.len(), 4, "Incorrect size of split result");
    assert_eq!(splits, vec!["", "/A", "/b", "/ccc.txt"], "Incorrect split")
}

#[test]
fn split_with_no_indexes() {
    assert_eq!(_split_at_indexes("abc", vec![]), vec!["abc"]);
}

#[test]
fn split_by_matches_indices() {
    let s = "/c/b/c.txt";
    let matches = s.match_indices("c").collect();
    let splits = _split_at_match_indices(s, matches);
    assert_eq!(splits, vec!["/", "c", "/b/", "c", ".txt"]);
}
