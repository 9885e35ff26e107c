use mtools::util::join;

#[test]
fn test_join() {
    assert_eq!("1;2;3;4", join(';', &[1, 2, 3, 4]));
}

#[test]
fn join_of_nothing_is_empty() {
    let empty: [u32; 0] = [];
    assert_eq!("", join(',', &empty));
}

#[test]
fn join_of_one_has_no_separator() {
    assert_eq!("abc", join('|', &["abc"]));
}

#[test]
fn join_with_multibyte_separator() {
    assert_eq!("a、b", join('、', &["a", "b"]));
}
