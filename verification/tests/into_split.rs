use std::io::{BufRead, BufReader, Read};

use split_ext::into_split::Whitespace;
use split_ext::re::Pattern;
use split_ext::re::Split;
use split_ext::IntoRegex;
use split_ext::IntoSplitIter;
use split_ext::IntoSplitWhitespace;

fn ownv(seq: &[&str]) -> Vec<String> {
    seq.iter().map(|s| s.to_string()).collect()
}

fn trim_and_lowercase(word: String) -> String {
    word.trim().to_lowercase()
}

fn words(reader: impl Read) -> Vec<String> {
    let re = Pattern::new("(?:--|/|[[:space:]])+").unwrap();
    let mut out = Vec::new();
    for line in BufReader::new(reader).lines() {
        let line = line.unwrap();
        if line.is_empty() {
            continue;
        }
        let mut it = line.into_split_regex_ref_map(&re, trim_and_lowercase);
        while let Some(word) = it.next() {
            out.push(word);
        }
    }
    out
}

fn assert_words(input: &str, expected: &[&str]) {
    assert_eq!(words(input.as_bytes()), ownv(expected));
}

#[test]
fn three_words() {
    assert_words("one two three", &["one", "two", "three"]);
}

#[test]
fn with_punctuation() {
    assert_words("one--two-two /three", &["one", "two-two", "three"]);
}

#[test]
fn multiple_lines() {
    assert_words(
        "first line\n\nabove line was blank!\n",
        &["first", "line", "above", "line", "was", "blank!"],
    );
}

fn collect_ws(mut it: IntoSplitWhitespace) -> Vec<String> {
    let mut v = Vec::new();
    while let Some(x) = it.next() {
        v.push(x);
    }
    v
}

#[test]
fn split_static_str() {
    let s: &'static str = "one two three";
    assert_eq!(collect_ws(s.into_split_whitespace()), ownv(&["one", "two", "three"]));
}

#[test]
fn split_borrowed_str() {
    let s = String::from("one two three");
    assert_eq!(collect_ws(s.as_str().into_split_whitespace()), ownv(&["one", "two", "three"]));
}

#[test]
fn split_boxed_str() {
    let s: Box<str> = "hello this is my string".into();
    assert_eq!(
        collect_ws(s.into_split_whitespace()),
        ownv(&["hello", "this", "is", "my", "string"])
    );
}

#[test]
fn split_owned_string() {
    let s = String::from("hello this is my string");
    assert_eq!(
        collect_ws(s.into_split_whitespace()),
        ownv(&["hello", "this", "is", "my", "string"])
    );
}

#[test]
fn whitespace_empty_input_yields_nothing() {
    let mut it = String::new().into_split_whitespace();
    assert_eq!(it.next(), None);
    assert_eq!(it.next(), None);
}

#[test]
fn whitespace_collapses_runs() {
    assert_eq!(collect_ws("  a \t\n b  ".into_split_whitespace()), ownv(&["a", "b"]));
}

#[test]
fn whitespace_split_is_idempotent() {
    let a = collect_ws("one  two\tthree".into_split_whitespace());
    let b = collect_ws("one  two\tthree".into_split_whitespace());
    assert_eq!(a, b);
}

fn upper(word: String) -> String {
    word.to_uppercase()
}

#[test]
fn whitespace_map_applies_transform() {
    let mut it = "ab cd".into_split_whitespace_map(upper);
    assert_eq!(it.next(), Some(String::from("AB")));
    assert_eq!(it.next(), Some(String::from("CD")));
    assert_eq!(it.next(), None::<String>);
}

fn chars_of(word: String) -> Vec<char> {
    word.chars().collect()
}

#[test]
fn whitespace_and_then_flattens() {
    let mut it = "ab c".into_split_whitespace_and_then(chars_of);
    assert_eq!(it.next(), Some('a'));
    assert_eq!(it.next(), Some('b'));
    assert_eq!(it.next(), Some('c'));
    assert_eq!(it.next(), None);
    assert_eq!(it.next(), None);
}

fn empty_for_short(word: String) -> Vec<char> {
    if word.len() < 2 {
        Vec::new()
    } else {
        word.chars().collect()
    }
}

#[test]
fn and_then_skips_empty_expansions() {
    let mut it = "a bc d ef".into_split_whitespace_and_then(empty_for_short);
    assert_eq!(it.next(), Some('b'));
    assert_eq!(it.next(), Some('c'));
    assert_eq!(it.next(), Some('e'));
    assert_eq!(it.next(), Some('f'));
    assert_eq!(it.next(), None);
}

#[test]
fn regex_split_words() {
    let re = Pattern::new(r"(?:--|/|\s)+").unwrap();
    let mut it = "one--two-two /three".into_split_regex(re);
    assert_eq!(it.next(), Some(String::from("one")));
    assert_eq!(it.next(), Some(String::from("two-two")));
    assert_eq!(it.next(), Some(String::from("three")));
    assert_eq!(it.next(), None);
}

#[test]
fn regex_ref_split_words() {
    let re = Pattern::new(r"(?:--|/|\s)+").unwrap();
    let mut it = "one--two-two /three".into_split_regex_ref(&re);
    assert_eq!(it.next(), Some(String::from("one")));
    assert_eq!(it.next(), Some(String::from("two-two")));
    assert_eq!(it.next(), Some(String::from("three")));
    assert_eq!(it.next(), None);
}

#[test]
fn regex_empty_input_yields_one_empty_piece() {
    let re = Pattern::new("x").unwrap();
    let mut it = String::new().into_split_regex(re);
    assert_eq!(it.next(), Some(String::new()));
    assert_eq!(it.next(), None);
}

#[test]
fn regex_empty_input_with_empty_matching_pattern() {
    // a pattern that matches the empty string finds one match in an empty
    // haystack, so the split yields two empty pieces
    let re = Pattern::new("x*").unwrap();
    let mut it = String::new().into_split_regex(re);
    assert_eq!(it.next(), Some(String::new()));
    assert_eq!(it.next(), Some(String::new()));
    assert_eq!(it.next(), None);
}

#[test]
fn regex_split_is_idempotent() {
    let re = Pattern::new(",").unwrap();
    let mut a = "p,q,,r".into_split_regex_ref(&re);
    let mut b = "p,q,,r".into_split_regex_ref(&re);
    loop {
        let x = a.next();
        let y = b.next();
        assert_eq!(x, y);
        if x.is_none() {
            break;
        }
    }
}

#[test]
fn regex_map_applies_transform() {
    let re = Pattern::new("-").unwrap();
    let mut it = "ab-cd".into_split_regex_map(re, upper);
    assert_eq!(it.next(), Some(String::from("AB")));
    assert_eq!(it.next(), Some(String::from("CD")));
    assert_eq!(it.next(), None::<String>);
}

#[test]
fn regex_and_then_flattens() {
    let re = Pattern::new(" ").unwrap();
    let mut it = "ab c".into_split_regex_and_then(re, chars_of);
    assert_eq!(it.next(), Some('a'));
    assert_eq!(it.next(), Some('b'));
    assert_eq!(it.next(), Some('c'));
    assert_eq!(it.next(), None);
}

#[test]
fn regex_ref_map_and_then_variants() {
    let re = Pattern::new(" ").unwrap();
    let mut m = "ab c".into_split_regex_ref_map(&re, upper);
    assert_eq!(m.next(), Some(String::from("AB")));
    assert_eq!(m.next(), Some(String::from("C")));
    assert_eq!(m.next(), None::<String>);
    let mut f = "ab c".into_split_regex_ref_and_then(&re, chars_of);
    assert_eq!(f.next(), Some('a'));
    assert_eq!(f.next(), Some('b'));
    assert_eq!(f.next(), Some('c'));
    assert_eq!(f.next(), None);
}

#[test]
fn pattern_rejects_bad_syntax() {
    assert!(Pattern::new("(").is_err());
    assert!(Pattern::new("[z-a]").is_err());
    assert!(Pattern::new("abc").is_ok());
}

#[test]
fn into_stable_regex_normalizes_ownership() {
    let owned = Pattern::new(",").unwrap();
    let stable = owned.into_stable_regex();
    let mut it = "a,b".into_split_regex_ref(&stable);
    assert_eq!(it.next(), Some(String::from("a")));
    assert_eq!(it.next(), Some(String::from("b")));
    assert_eq!(it.next(), None);

    let re = Pattern::new(",").unwrap();
    let borrowed = (&re).into_stable_regex();
    let mut it = "c,d".into_split_regex_ref(borrowed);
    assert_eq!(it.next(), Some(String::from("c")));
    assert_eq!(it.next(), Some(String::from("d")));
    assert_eq!(it.next(), None);
}

#[test]
fn next_map_transforms_one_piece_at_a_time() {
    let mut w = Whitespace::new(String::from("ab cd"));
    assert_eq!(w.next_map(|p: String| p.len()), Some(2));
    assert_eq!(w.next_map(|p: String| p.to_uppercase()), Some(String::from("CD")));
    assert_eq!(w.next_map(|p: String| p), None);

    let re = Pattern::new("-").unwrap();
    let mut s = Split::new(re.split_text("x-y"));
    assert_eq!(s.next_map(|p: String| p.to_uppercase()), Some(String::from("X")));
    assert_eq!(s.next_map(|p: String| p.to_uppercase()), Some(String::from("Y")));
    assert_eq!(s.next_map(|p: String| p), None);
}
