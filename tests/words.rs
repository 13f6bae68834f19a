use escaped_delimiter::{iter, Iter};

#[test]
fn test_words() {
    let s = b"";
    let mut words = Iter::from_slice(s, b'X', b'Y');
    assert_eq!(words.next(), None);

    let s = b"abc";
    let mut words = Iter::from_slice(s, b'X', b'Y');
    assert_eq!(words.next(), Some(&b"abc"[..]));
    assert_eq!(words.next(), None);

    let s = b"abcX";
    let mut words = Iter::from_slice(s, b'X', b'Y');
    assert_eq!(words.next(), Some(&b"abc"[..]));
    assert_eq!(words.next(), None);

    let s = b"abcXdefXXhX jklm";
    let mut words = Iter::from_slice(s, b'X', b'Y');
    assert_eq!(words.next(), Some(&b"abc"[..]));
    assert_eq!(words.next(), Some(&b"def"[..]));
    assert_eq!(words.next(), Some(&b"h"[..]));
    assert_eq!(words.next(), Some(&b" jklm"[..]));
    assert_eq!(words.next(), None);

    let s = b"abXYXcdeXYfYXXYYYXgYYX";
    let mut words = Iter::from_slice(s, b'X', b'Y');
    assert_eq!(words.next(), Some(&b"ab"[..]));
    assert_eq!(words.next(), Some(&b"YXcde"[..]));
    assert_eq!(words.next(), Some(&b"YfYX"[..]));
    assert_eq!(words.next(), Some(&b"YYYXgYY"[..]));
    assert_eq!(words.next(), None);
}

#[test]
fn test_words_rev() {
    let s = b"";
    let mut words = Iter::from_slice(s, b'X', b'Y');
    assert_eq!(words.next_back(), None);

    let s = b"abcXdefXXhX jklm";
    let mut words = Iter::from_slice(s, b'X', b'Y');
    assert_eq!(words.next_back(), Some(&b" jklm"[..]));
    assert_eq!(words.next_back(), Some(&b"h"[..]));
    assert_eq!(words.next_back(), Some(&b"def"[..]));
    assert_eq!(words.next_back(), Some(&b"abc"[..]));
    assert_eq!(words.next_back(), None);

    let s = b"XXabXYXcdeXYfYXXYYYXgYYX";
    let mut words = Iter::from_slice(s, b'X', b'Y');
    assert_eq!(words.next_back(), Some(&b"YYYXgYY"[..]));
    assert_eq!(words.next_back(), Some(&b"YfYX"[..]));
    assert_eq!(words.next_back(), Some(&b"YXcde"[..]));
    assert_eq!(words.next_back(), Some(&b"ab"[..]));
    assert_eq!(words.next_back(), None);

    let s = b"Xa";
    let mut words = Iter::from_slice(s, b'X', b'Y');
    assert_eq!(words.next_back(), Some(&b"a"[..]));
    assert_eq!(words.next_back(), None);

    let s = b"YXa";
    let mut words = Iter::from_slice(s, b'X', b'Y');
    assert_eq!(words.next_back(), Some(&b"YXa"[..]));
    assert_eq!(words.next_back(), None);

    let s = b"YYXa";
    let mut words = Iter::from_slice(s, b'X', b'Y');
    assert_eq!(words.next_back(), Some(&b"a"[..]));
    assert_eq!(words.next_back(), Some(&b"YY"[..]));
    assert_eq!(words.next_back(), None);
}

#[test]
fn test_words_mixed() {
    let s = b"abcXdefXXhX jklm";
    let mut words = Iter::from_slice(s, b'X', b'Y');
    assert_eq!(words.next(), Some(&b"abc"[..]));
    assert_eq!(words.next_back(), Some(&b" jklm"[..]));
    assert_eq!(words.next(), Some(&b"def"[..]));
    assert_eq!(words.next_back(), Some(&b"h"[..]));
    assert_eq!(words.next(), None);
    assert_eq!(words.next_back(), None);
}

fn collect_front(s: &[u8], delim: u8, escape: u8) -> Vec<Vec<u8>> {
    let mut it = iter(s, delim, escape);
    let mut out = Vec::new();
    while let Some(w) = it.next() {
        out.push(w.to_vec());
    }
    out
}

fn collect_back(s: &[u8], delim: u8, escape: u8) -> Vec<Vec<u8>> {
    let mut it = iter(s, delim, escape);
    let mut out = Vec::new();
    while let Some(w) = it.next_back() {
        out.push(w.to_vec());
    }
    out
}

fn owned(words: &[&[u8]]) -> Vec<Vec<u8>> {
    words.iter().map(|w| w.to_vec()).collect()
}

#[test]
fn no_escape_matches_plain_split() {
    let s = b"The quick brown fox";
    assert_eq!(
        collect_front(s, b' ', b'\\'),
        owned(&[b"The", b"quick", b"brown", b"fox"])
    );
    let s = b"  The  quick   brown fox  ";
    assert_eq!(
        collect_front(s, b' ', b'\\'),
        owned(&[b"The", b"quick", b"brown", b"fox"])
    );
}

#[test]
fn reverse_of_plain_split() {
    let s = b"The quick brown fox";
    assert_eq!(
        collect_back(s, b' ', b'\\'),
        owned(&[b"fox", b"brown", b"quick", b"The"])
    );
}

#[test]
fn front_and_back_agree_with_escapes() {
    let cases: [&[u8]; 6] = [
        b"XXabXYXcdeXYfYXXYYYXgYYX",
        b"YYaYX",
        b"aYXX",
        b"aY",
        b"YXYYXYYYXYYYYX",
        b"XYXYXY",
    ];
    for s in cases {
        let mut back = collect_back(s, b'X', b'Y');
        back.reverse();
        assert_eq!(collect_front(s, b'X', b'Y'), back);
    }
}

#[test]
fn escaped_delimiters_kept_verbatim() {
    let s = b"a\\ b\\\\ c\\\\\\ d\\\\\\\\ e";
    assert_eq!(
        collect_front(s, b' ', b'\\'),
        owned(&[b"a\\ b\\\\", b"c\\\\\\ d\\\\\\\\", b"e"])
    );
    assert_eq!(
        collect_back(s, b' ', b'\\'),
        owned(&[b"e", b"c\\\\\\ d\\\\\\\\", b"a\\ b\\\\"])
    );
}

#[test]
fn double_escape_cancels() {
    assert_eq!(collect_front(b"aYYXb", b'X', b'Y'), owned(&[b"aYY", b"b"]));
    assert_eq!(collect_back(b"aYYXb", b'X', b'Y'), owned(&[b"b", b"aYY"]));
    assert_eq!(collect_front(b"aYYYXb", b'X', b'Y'), owned(&[b"aYYYXb"]));
}

#[test]
fn leading_and_trailing_delimiters_dropped() {
    assert_eq!(collect_front(b"XXabXX", b'X', b'Y'), owned(&[b"ab"]));
    assert_eq!(collect_back(b"XXabXX", b'X', b'Y'), owned(&[b"ab"]));
    assert_eq!(collect_front(b"XXXX", b'X', b'Y'), owned(&[]));
    assert_eq!(collect_back(b"XXXX", b'X', b'Y'), owned(&[]));
}

#[test]
fn trailing_escape_without_delimiter() {
    assert_eq!(collect_back(b"aY", b'X', b'Y'), owned(&[b"aY"]));
    assert_eq!(collect_back(b"aYXX", b'X', b'Y'), owned(&[b"aYX"]));
    assert_eq!(collect_front(b"aYXX", b'X', b'Y'), owned(&[b"aYX"]));
}

#[test]
fn exhaustion_is_permanent() {
    let mut it = iter(b"abXcd", b'X', b'Y');
    assert_eq!(it.next(), Some(&b"ab"[..]));
    assert_eq!(it.next(), Some(&b"cd"[..]));
    assert_eq!(it.next(), None);
    assert_eq!(it.next(), None);
    assert_eq!(it.next_back(), None);
    assert_eq!(it.next(), None);

    let mut it = iter(b"XabX", b'X', b'Y');
    assert_eq!(it.next_back(), Some(&b"ab"[..]));
    assert_eq!(it.next_back(), None);
    assert_eq!(it.next(), None);
    assert_eq!(it.next_back(), None);
}

#[test]
fn as_slice_tracks_consumption() {
    let it = iter(b"abc", b' ', b'\\');
    assert_eq!(it.as_slice(), &b"abc"[..]);

    let mut it = iter(b"a b c d", b' ', b'\\');
    it.next();
    it.next_back();
    assert_eq!(it.as_slice(), &b" b c "[..]);
}

#[test]
fn escape_byte_zero() {
    assert_eq!(collect_front(b"a\0\0 b", b' ', 0), owned(&[b"a\0\0", b"b"]));
    assert_eq!(collect_front(b"a\0 b", b' ', 0), owned(&[b"a\0 b"]));
}

#[test]
fn interleaved_pulls_with_escapes() {
    let s = b"XXabXYXcdeXYfYXXYYYXgYYX";
    let mut it = iter(s, b'X', b'Y');
    assert_eq!(it.next_back(), Some(&b"YYYXgYY"[..]));
    assert_eq!(it.next(), Some(&b"ab"[..]));
    assert_eq!(it.next_back(), Some(&b"YfYX"[..]));
    assert_eq!(it.next(), Some(&b"YXcde"[..]));
    assert_eq!(it.next_back(), None);
    assert_eq!(it.next(), None);
}

#[test]
fn equal_delimiter_and_escape_still_ends() {
    assert_eq!(collect_front(b"aXXb", b'X', b'X'), owned(&[b"a", b"b"]));
    let mut it = iter(b"aXXb", b'X', b'X');
    let mut pulls = 0;
    while it.next_back().is_some() {
        pulls += 1;
        assert!(pulls <= 4);
    }
    assert_eq!(it.next(), None);
}
