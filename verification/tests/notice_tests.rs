use tealdeer::notice::{outdated_notice, to_decimal};

#[test]
fn numbers_are_written_in_base_ten() {
    assert_eq!(to_decimal(0), b"0".to_vec());
    assert_eq!(to_decimal(7), b"7".to_vec());
    assert_eq!(to_decimal(10), b"10".to_vec());
    assert_eq!(to_decimal(30), b"30".to_vec());
    assert_eq!(to_decimal(1_002_003), b"1002003".to_vec());
    assert_eq!(to_decimal(u64::MAX), b"18446744073709551615".to_vec());
}

#[test]
fn warning_names_the_days() {
    assert_eq!(
        outdated_notice(30, false),
        b"The cache hasn't been updated for more than 30 days.\nYou should probably run `tldr --update` soon."
            .to_vec()
    );
}

#[test]
fn warning_is_yellow() {
    let words = format!(
        "The cache hasn't been updated for more than {} days.\n\
         You should probably run `tldr --update` soon.",
        30
    );
    let expected = ansi_term::Color::Yellow.paint(words).to_string();
    assert_eq!(outdated_notice(30, true), expected.into_bytes());
    assert!(outdated_notice(1, true).starts_with(b"\x1b[33mThe cache"));
    assert!(outdated_notice(1, true).ends_with(b"soon.\x1b[0m"));
}
