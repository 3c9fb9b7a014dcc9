use tealdeer::text::{
    blank_byte, blank_range, compare, copy_range, find_from, join, same_bytes, to_lower,
    trimmed_range, Side,
};

#[test]
fn space_tab_and_return_are_blank() {
    assert!(blank_byte(b' '));
    assert!(blank_byte(b'\t'));
    assert!(blank_byte(b'\r'));
    assert!(!blank_byte(b'\n'));
    assert!(!blank_byte(b'a'));
    assert!(!blank_byte(0));
}

#[test]
fn first_byte_is_found_from_a_place_on() {
    assert_eq!(find_from(b"a\nb\nc", 0, b'\n'), 1);
    assert_eq!(find_from(b"a\nb\nc", 1, b'\n'), 1);
    assert_eq!(find_from(b"a\nb\nc", 2, b'\n'), 3);
    assert_eq!(find_from(b"a\nb\nc", 4, b'\n'), 5);
    assert_eq!(find_from(b"", 0, b'\n'), 0);
}

#[test]
fn blank_range_looks_at_its_range_alone() {
    assert!(blank_range(b"a \t b", 1, 4));
    assert!(!blank_range(b"a \t b", 0, 4));
    assert!(blank_range(b"abc", 1, 1));
}

#[test]
fn trimming_takes_the_blanks_of_both_ends() {
    assert_eq!(trimmed_range(b"  a b \r", 0, 7), b"a b".to_vec());
    assert_eq!(trimmed_range(b"  a b \r", 2, 5), b"a b".to_vec());
    assert_eq!(trimmed_range(b" \t ", 0, 3), Vec::<u8>::new());
    assert_eq!(trimmed_range(b"x\ny", 0, 3), b"x\ny".to_vec());
    assert_eq!(copy_range(b"abcdef", 2, 4), b"cd".to_vec());
}

#[test]
fn dictionary_order_of_byte_strings() {
    assert_eq!(compare(b"a", b"b"), Side::Before);
    assert_eq!(compare(b"b", b"a"), Side::After);
    assert_eq!(compare(b"a", b"a"), Side::Same);
    assert_eq!(compare(b"", b""), Side::Same);
    assert_eq!(compare(b"", b"a"), Side::Before);
    assert_eq!(compare(b"ab", b"a"), Side::After);
    assert_eq!(compare(b"ab", b"b"), Side::Before);
    assert_eq!(compare(b"Z", b"a"), Side::Before);
    assert_eq!(compare(&[0xff], &[0x7f]), Side::After);
    assert!(same_bytes(b"tar", b"tar"));
    assert!(!same_bytes(b"tar", b"tar "));
    assert!(!same_bytes(b"tar", b"tax"));
}

#[test]
fn lower_case_changes_letters_alone() {
    assert_eq!(to_lower(b"LiNuX"), b"linux".to_vec());
    assert_eq!(to_lower(b"AZaz@[`{09"), b"azaz@[`{09".to_vec());
    assert_eq!(to_lower(&[0xc3, 0x84]), vec![0xc3, 0x84]);
}

#[test]
fn joining_puts_the_separator_between() {
    let names = vec![b"apt".to_vec(), b"tar".to_vec(), b"zip".to_vec()];
    assert_eq!(join(&names, b", "), b"apt, tar, zip".to_vec());
    assert_eq!(join(&names[..1].to_vec(), b", "), b"apt".to_vec());
    assert_eq!(join(&Vec::new(), b", "), Vec::<u8>::new());
}
