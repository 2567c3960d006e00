use split_ext::char_boundaries;
use split_ext::SplitEnd;

#[test]
fn str_split() {
    assert_eq!("hello".split_first(), Some(('h', "ello")));
    assert_eq!("h".split_first(), Some(('h', "")));
    assert_eq!("".split_first(), None);

    assert_eq!("hello".split_last(), Some(('o', "hell")));
    assert_eq!("h".split_last(), Some(('h', "")));
    assert_eq!("".split_last(), None);
}

#[test]
fn str_split_multibyte() {
    assert_eq!("€6".split_first(), Some(('€', "6")));
    assert_eq!("6€".split_first(), Some(('6', "€")));
    assert_eq!("€".split_first(), Some(('€', "")));

    assert_eq!("€6".split_last(), Some(('6', "€")));
    assert_eq!("6€".split_last(), Some(('€', "6")));
    assert_eq!("€".split_last(), Some(('€', "")));
}

#[test]
fn str_split_n() {
    assert_eq!("bye".split_first_n(0), ("", "bye"));
    assert_eq!("bye".split_first_n(1), ("b", "ye"));
    assert_eq!("bye".split_first_n(2), ("by", "e"));
    assert_eq!("bye".split_first_n(3), ("bye", ""));
    assert_eq!("bye".try_split_first_n(4), None);

    assert_eq!("bye".split_last_n(0), ("", "bye"));
    assert_eq!("bye".split_last_n(1), ("e", "by"));
    assert_eq!("bye".split_last_n(2), ("ye", "b"));
    assert_eq!("bye".split_last_n(3), ("bye", ""));
    assert_eq!("bye".try_split_last_n(4), None);

    assert_eq!("".try_split_first_n(0), Some(("", "")));
    assert_eq!("".try_split_first_n(1), None);
}

fn assert_all_splits(s: &str) {
    let len_c = s.chars().count();

    for (ic, ib) in char_boundaries(s).iter().cloned().enumerate() {
        let front = &s[..ib];
        let back = &s[ib..];
        assert_eq!(s.try_split_first_n(ic), Some((front, back)));
        assert_eq!(s.try_split_last_n(len_c - ic), Some((back, front)));
    }

    assert_eq!(s.try_split_first_n(len_c + 1), None);
    assert_eq!(s.try_split_last_n(len_c + 1), None);
}

#[test]
fn str_split_n_all() {
    assert_all_splits("");
    assert_all_splits("hello");
    assert_all_splits("€ह 𐍈");
}

#[test]
fn slice_split_ends() {
    let xs: &[u8] = &[1, 2, 3];
    assert_eq!(SplitEnd::split_first(xs), Some((&1u8, &[2u8, 3][..])));
    assert_eq!(SplitEnd::split_last(xs), Some((&3u8, &[1u8, 2][..])));
    assert_eq!(xs.try_split_first_n(2), Some((&[1u8, 2][..], &[3u8][..])));
    assert_eq!(xs.try_split_last_n(2), Some((&[2u8, 3][..], &[1u8][..])));
    assert_eq!(xs.try_split_first_n(4), None);
    let words: &[String] = &[String::from("a"), String::from("b")];
    assert_eq!(SplitEnd::split_first(words), Some((&String::from("a"), &words[1..])));
    let empty: &[u8] = &[];
    assert_eq!(SplitEnd::split_first(empty), None::<(&u8, &[u8])>);
    assert_eq!(empty.try_split_first_n(0), Some((&[][..], &[][..])));
}
