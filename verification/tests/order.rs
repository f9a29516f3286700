use bevy_rbrb::order::{bytes_before, str_before};

#[test]
fn byte_order_is_lexicographic() {
    assert!(bytes_before(&[], &[0]));
    assert!(!bytes_before(&[], &[]));
    assert!(!bytes_before(&[0], &[]));
    assert!(bytes_before(&[1, 2], &[1, 3]));
    assert!(bytes_before(&[1, 2], &[1, 2, 0]));
    assert!(!bytes_before(&[2], &[1, 9, 9]));
    assert!(!bytes_before(&[1, 2], &[1, 2]));
}

#[test]
fn string_order_is_that_of_the_standard_library() {
    let samples = ["", "a", "ab", "b", "B", "player/10", "player/2", "é", "z", "日本", "\u{10FFFF}"];
    for a in samples {
        for b in samples {
            assert_eq!(str_before(a, b), a < b, "{:?} before {:?}", a, b);
        }
    }
}
