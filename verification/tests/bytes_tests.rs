use blobkv::bytes::{
    contains_byte, copy_all, difference, extend, find_from, has_prefix, is_among, join_with,
    precedes, same, split_on, tail, to_vec, window,
};

fn list(items: &[&str]) -> Vec<Vec<u8>> {
    items.iter().map(|s| s.as_bytes().to_vec()).collect()
}

#[test]
fn extend_appends() {
    let mut out = b"ab".to_vec();
    extend(&mut out, b"cd");
    extend(&mut out, b"");
    assert_eq!(out, b"abcd".to_vec());
}

#[test]
fn copies_are_equal_to_what_was_copied() {
    assert_eq!(to_vec(b"abc"), b"abc".to_vec());
    assert_eq!(copy_all(&list(&["a", "", "bc"])), list(&["a", "", "bc"]));
}

#[test]
fn parts_of_a_text() {
    assert_eq!(tail(b"abcdef", 2), b"cdef");
    assert_eq!(tail(b"abcdef", 6), b"");
    assert_eq!(window(b"abcdef", 1, 4), b"bcd");
    assert_eq!(window(b"abcdef", 3, 3), b"");
}

#[test]
fn equality_and_prefixes() {
    assert!(same(b"abc", b"abc"));
    assert!(!same(b"abc", b"abd"));
    assert!(!same(b"abc", b"ab"));
    assert!(has_prefix(b"abc", b""));
    assert!(has_prefix(b"abc", b"ab"));
    assert!(has_prefix(b"abc", b"abc"));
    assert!(!has_prefix(b"abc", b"abcd"));
    assert!(!has_prefix(b"abc", b"b"));
    assert!(contains_byte(b"a,b", b','));
    assert!(!contains_byte(b"ab", b','));
}

#[test]
fn membership_and_difference() {
    let pool = list(&["A", "B", "C"]);
    assert!(is_among(&pool, b"B"));
    assert!(!is_among(&pool, b"D"));
    assert_eq!(difference(&pool, &list(&["B"])), list(&["A", "C"]));
    assert_eq!(difference(&pool, &list(&["C", "A", "B"])), list(&[]));
    assert_eq!(difference(&pool, &list(&[])), pool);
    assert_eq!(difference(&list(&["C", "D", "A"]), &pool), list(&["D"]));
}

#[test]
fn bytewise_order() {
    assert!(precedes(b"", b"a"));
    assert!(precedes(b"a", b"ab"));
    assert!(precedes(b"ab", b"b"));
    assert!(precedes(b"a", b"\xff"));
    assert!(precedes(b"Z", b"a"));
    assert!(!precedes(b"a", b"a"));
    assert!(!precedes(b"b", b"ab"));
    assert!(!precedes(b"", b""));
}

#[test]
fn finds_the_next_separator() {
    assert_eq!(find_from(b"a,b,c", 0, b','), 1);
    assert_eq!(find_from(b"a,b,c", 1, b','), 1);
    assert_eq!(find_from(b"a,b,c", 2, b','), 3);
    assert_eq!(find_from(b"a,b,c", 4, b','), 5);
    assert_eq!(find_from(b"", 0, b','), 0);
}

#[test]
fn splits_between_separators() {
    assert_eq!(split_on(b"a,b,c", b','), list(&["a", "b", "c"]));
    assert_eq!(split_on(b"abc", b','), list(&["abc"]));
    assert_eq!(split_on(b"", b','), list(&[""]));
    assert_eq!(split_on(b",", b','), list(&["", ""]));
    assert_eq!(split_on(b"a,,b,", b','), list(&["a", "", "b", ""]));
}

#[test]
fn joins_with_separators() {
    assert_eq!(join_with(&list(&["a", "b", "c"]), b','), b"a,b,c".to_vec());
    assert_eq!(join_with(&list(&["abc"]), b','), b"abc".to_vec());
    assert_eq!(join_with(&list(&[]), b','), b"".to_vec());
    assert_eq!(join_with(&list(&["", ""]), b','), b",".to_vec());
}

#[test]
fn joining_the_pieces_gives_the_text_back() {
    let texts: Vec<&[u8]> = vec![b"", b"a", b",", b"a,b", b",a,,b,", b"list&start=/k&limit=3"];
    for text in texts {
        assert_eq!(join_with(&split_on(text, b','), b','), text.to_vec());
        assert_eq!(join_with(&split_on(text, b'&'), b'&'), text.to_vec());
    }
}
