use rs_lib::string_utils::{find, rfind};

#[test]
fn find_tests() {
    assert_eq!(Some(0), find("", "", 0));
    assert_eq!(Some(0), find("abc", "a", 0));
    assert_eq!(None, find("abc", "a", 1));
    assert_eq!(Some(2), find("abc", "c", 0));
    assert_eq!(Some(2), find("abc", "c", 1));
    assert_eq!(Some(2), find("abc", "c", 2));
    assert_eq!(None, find("abc", "c", 3));
}

#[test]
fn rfind_tests() {
    assert_eq!(Some(0), rfind("", "", 0));
    assert_eq!(None, rfind("abc", "a", 0));
    assert_eq!(Some(0), rfind("abc", "a", 1));
    assert_eq!(None, rfind("abc", "c", 0));
    assert_eq!(None, rfind("abc", "c", 1));
    assert_eq!(None, rfind("abc", "c", 2));
    assert_eq!(Some(2), rfind("abc", "c", 3));
}

#[test]
fn find_uses_byte_offsets_and_char_boundaries() {
    assert_eq!(Some(2), find("éa", "a", 0));
    assert_eq!(None, find("éa", "a", 1));
    assert_eq!(Some(3), find("abcabc", "abc", 1));
    assert_eq!(Some(2), find("abc", "", 2));
    assert_eq!(None, find("abc", "abcd", 0));
}

#[test]
fn rfind_finds_the_last_occurrence_before_the_offset() {
    assert_eq!(Some(3), rfind("abcabc", "abc", 6));
    assert_eq!(Some(0), rfind("abcabc", "abc", 5));
    assert_eq!(Some(2), rfind("abc", "", 2));
    assert_eq!(None, rfind("éa", "a", 1));
    assert_eq!(None, rfind("abc", "a", 4));
}
