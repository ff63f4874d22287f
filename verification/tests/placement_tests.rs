use blobkv::placement::{
    choose_by_score, key2path, key2volume, key_is_short, key_len_fits, needs_rebalance,
    path_from_parts,
};

fn names(items: &[&str]) -> Vec<Vec<u8>> {
    items.iter().map(|s| s.as_bytes().to_vec()).collect()
}

#[test]
fn path_of_hello() {
    assert_eq!(key2path(b"/hello"), b"/3e/d1/L2hlbGxv".to_vec());
}

#[test]
fn path_uses_url_safe_alphabet_and_padding() {
    assert_eq!(key2path(b"/a?b>c~~"), b"/52/1a/L2E_Yj5jfn4=".to_vec());
}

#[test]
fn two_of_three_volumes() {
    let pool = names(&["A", "B", "C"]);
    assert_eq!(key2volume(b"/hello", &pool, 2, 1), names(&["C", "B"]));
}

#[test]
fn subvolumes_are_two_capital_hex_digits() {
    let pool = names(&["localhost:3001", "localhost:3002", "localhost:3003"]);
    assert_eq!(
        key2volume(b"/hello", &pool, 2, 10),
        names(&["localhost:3003/sv04", "localhost:3001/sv06"])
    );
}

#[test]
fn rebalance_compares_in_order() {
    assert!(!needs_rebalance(&names(&["A", "B"]), &names(&["A", "B"])));
    assert!(needs_rebalance(&names(&["A", "B"]), &names(&["B", "A"])));
    assert!(needs_rebalance(&names(&["A", "B"]), &names(&["A"])));
}

#[test]
fn all_of_a_small_pool() {
    let pool = names(&["A", "B", "C"]);
    assert_eq!(key2volume(b"/hello", &pool, 3, 1), names(&["C", "B", "A"]));
    assert_eq!(key2volume(b"/hello", &pool, 5, 1), names(&["C", "B", "A"]));
    assert_eq!(key2volume(b"/hello", &pool, 0, 1), names(&[]));
    assert_eq!(key2volume(b"/hello", &names(&[]), 2, 1), names(&[]));
}

#[test]
fn placement_by_key() {
    let pool = names(&["A", "B", "C"]);
    assert_eq!(key2volume(b"/a", &pool, 2, 1), names(&["C", "B"]));
    assert_eq!(key2volume(b"/b", &pool, 2, 1), names(&["A", "C"]));
    assert_eq!(key2volume(b"/bucket/x", &pool, 2, 1), names(&["B", "C"]));
    assert_eq!(key2volume(b"/k2", &pool, 3, 1), names(&["A", "C", "B"]));
}

#[test]
fn subvolume_numbers_above_two_digits() {
    let pool = names(&["localhost:3001", "localhost:3002", "localhost:3003"]);
    assert_eq!(
        key2volume(b"/hello", &pool, 3, 1000),
        names(&["localhost:3003/sv1DA", "localhost:3001/sv3C6", "localhost:3002/sv3BA"])
    );
    let pair = names(&["v1", "v2"]);
    assert_eq!(key2volume(b"/hello", &pair, 2, 256), names(&["v1/sv38", "v2/sv94"]));
    assert_eq!(key2volume(b"/hello", &pair, 2, 300), names(&["v1/sv40", "v2/sv98"]));
    assert_eq!(key2volume(b"/hello", &pair, 1, 2), names(&["v1/sv00"]));
}

#[test]
fn a_volume_named_twice_is_chosen_twice() {
    let pool = names(&["A", "B", "C", "A"]);
    assert_eq!(key2volume(b"/hello", &pool, 4, 1), names(&["C", "B", "A", "A"]));
}

#[test]
fn placement_depends_on_nothing_but_its_arguments() {
    let pool = names(&["vol0:3000", "vol1:3000", "vol2:3000", "vol3:3000"]);
    for i in 0..200 {
        let key = format!("/bucket/key-{}", i).into_bytes();
        let first = key2volume(&key, &pool, 3, 16);
        let again = key2volume(&key, &pool.clone(), 3, 16);
        assert_eq!(first, again);
        assert_eq!(first.len(), 3);
    }
}

#[test]
fn chosen_volumes_differ_and_come_from_the_pool() {
    let pool = names(&["vol0:3000", "vol1:3000", "vol2:3000", "vol3:3000"]);
    for i in 0..200 {
        let key = format!("/bucket/key-{}", i).into_bytes();
        let chosen = key2volume(&key, &pool, 3, 1);
        for (at, volume) in chosen.iter().enumerate() {
            assert!(pool.contains(volume));
            assert!(!chosen[..at].contains(volume));
        }
        // Fewer replicas are a beginning of more.
        assert_eq!(key2volume(&key, &pool, 2, 1), chosen[..2].to_vec());
    }
}

#[test]
fn added_volume_takes_its_share_and_nothing_else_moves() {
    let pool: Vec<Vec<u8>> = (0..5).map(|i| format!("vol{}:3000", i).into_bytes()).collect();
    let mut grown = pool.clone();
    grown.push(b"vol5:3000".to_vec());
    let mut moved = 0;
    for i in 0..1000 {
        let key = format!("/bucket/key-{}", i).into_bytes();
        let before = key2volume(&key, &pool, 1, 1);
        let after = key2volume(&key, &grown, 1, 1);
        if before != after {
            assert_eq!(after, vec![b"vol5:3000".to_vec()]);
            moved += 1;
        }
    }
    // About one key in six moves.
    assert_eq!(moved, 138);
    assert!(moved > 1000 / 6 - 70 && moved < 1000 / 6 + 70);
}

#[test]
fn removing_an_unrelated_volume_moves_nothing() {
    let pool = names(&["A", "B", "C", "D"]);
    for i in 0..200 {
        let key = format!("/k{}", i).into_bytes();
        let chosen = key2volume(&key, &pool, 1, 1);
        let rest: Vec<Vec<u8>> = pool.iter().filter(|v| **v != chosen[0]).cloned().collect();
        let other = rest[0].clone();
        let kept: Vec<Vec<u8>> = pool.iter().filter(|v| **v != other).cloned().collect();
        assert_eq!(key2volume(&key, &kept, 1, 1), chosen);
    }
}

#[test]
fn paths_by_key() {
    assert_eq!(key2path(b"/a"), b"/06/39/L2E=".to_vec());
    assert_eq!(key2path(b"/b"), b"/97/aa/L2I=".to_vec());
    assert_eq!(key2path(b"/bucket/x"), b"/5e/2b/L2J1Y2tldC94".to_vec());
    assert_eq!(key2path(b"/k1"), b"/3a/d3/L2sx".to_vec());
}

#[test]
fn key_lengths_that_fit() {
    assert!(key_len_fits(0));
    assert!(key_len_fits(1024));
    assert!(!key_len_fits(usize::MAX));
    assert!(!key_len_fits(usize::MAX / 4 * 3 + 3));
    assert!(key_len_fits(usize::MAX / 4 * 3));
    assert!(!key_len_fits(usize::MAX / 4 * 3 + 1));
    assert!(key_is_short(b""));
    assert!(key_is_short(b"/hello"));
}

#[test]
fn path_is_put_together_from_digest_and_text() {
    assert_eq!(path_from_parts(&[0x3e, 0xd1, 0x00], b"L2hlbGxv"), b"/3e/d1/L2hlbGxv".to_vec());
    assert_eq!(path_from_parts(&[0x00, 0xff], b""), b"/00/ff/".to_vec());
}

fn score(first: u8, last: [u8; 4]) -> Vec<u8> {
    let mut out = vec![first; 12];
    out.extend_from_slice(&last);
    out
}

#[test]
fn highest_score_comes_first() {
    let pool = names(&["A", "B", "C", "D"]);
    let scores = vec![
        score(0x10, [0, 0, 0, 0]),
        score(0xf0, [0, 0, 0, 0]),
        score(0x00, [0, 0, 0, 0]),
        score(0x7f, [0, 0, 0, 0]),
    ];
    assert_eq!(choose_by_score(&scores, &pool, 4, 1), names(&["B", "D", "A", "C"]));
    assert_eq!(choose_by_score(&scores, &pool, 2, 1), names(&["B", "D"]));
    assert_eq!(choose_by_score(&scores, &pool, 0, 1), names(&[]));
    assert_eq!(choose_by_score(&scores, &pool, 9, 1), names(&["B", "D", "A", "C"]));
}

#[test]
fn scores_are_compared_byte_by_byte() {
    let pool = names(&["A", "B", "C"]);
    let scores = vec![
        score(0x55, [0, 0, 0, 1]),
        score(0x55, [0, 0, 1, 0]),
        score(0x55, [0, 0, 0, 255]),
    ];
    assert_eq!(choose_by_score(&scores, &pool, 3, 1), names(&["B", "C", "A"]));
}

#[test]
fn equal_scores_keep_the_order_of_the_pool() {
    let pool = names(&["A", "B", "C"]);
    let scores = vec![score(1, [0, 0, 0, 0]), score(2, [0, 0, 0, 0]), score(1, [0, 0, 0, 0])];
    assert_eq!(choose_by_score(&scores, &pool, 3, 1), names(&["B", "A", "C"]));
}

#[test]
fn subvolume_is_the_end_of_the_score_modulo_the_count() {
    let pool = names(&["A", "B"]);
    let scores = vec![score(9, [0, 0, 1, 7]), score(3, [0xff, 0xff, 0xff, 0xff])];
    // 0x0107 = 263 and 0xffffffff = 4294967295.
    assert_eq!(choose_by_score(&scores, &pool, 2, 10), names(&["A/sv03", "B/sv05"]));
    assert_eq!(choose_by_score(&scores, &pool, 2, 256), names(&["A/sv07", "B/svFF"]));
    assert_eq!(choose_by_score(&scores, &pool, 2, 1000), names(&["A/sv107", "B/sv127"]));
    assert_eq!(choose_by_score(&scores, &pool, 2, 1), names(&["A", "B"]));
}

#[test]
fn different_keys_have_different_paths() {
    let keys: Vec<Vec<u8>> = vec![
        b"".to_vec(),
        b"/".to_vec(),
        b"/a".to_vec(),
        b"/a\0".to_vec(),
        b"/a\0\0".to_vec(),
        b"/ab".to_vec(),
        b"/abc".to_vec(),
        b"/abd".to_vec(),
        b"/abc/".to_vec(),
        vec![0xff],
        vec![0xff, 0xff],
        vec![0xfb, 0xef, 0xbe],
        vec![0xfb, 0xef, 0xbf],
    ];
    for (i, a) in keys.iter().enumerate() {
        for b in &keys[..i] {
            assert_ne!(key2path(a), key2path(b));
        }
    }
    assert_eq!(key2path(&[0xfb, 0xef, 0xbe]).split_off(7), b"----".to_vec());
    assert_eq!(key2path(&[0xfb, 0xef, 0xbf]).split_off(7), b"---_".to_vec());
    assert_eq!(key2path(&[0xff]).split_off(7), b"_w==".to_vec());
}
