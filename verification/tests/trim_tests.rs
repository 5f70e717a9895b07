use rfit::trim_ascii_whitespace;
use rfit::trim_start_str;

#[test]
fn one_result() {
    assert_eq!("", trim_start_str("\u{3000}"));
}

#[test]
fn two_result() {
    assert_eq!(
        "第六百一十八章 墨蛟与神宫",
        trim_start_str("第六百一十八章 墨蛟与神宫")
    );
}

#[test]
fn three_result() {
    assert_eq!(
        "“别老一惊一乍的！又怎么了！？”",
        trim_start_str("\u{3000}“别老一惊一乍的！又怎么了！？”")
    );
}

#[test]
fn four_result() {
    assert_eq!(
        "“别老一惊一乍的！又怎么了！？”",
        trim_start_str("\u{3000}\u{3000}\u{3000}\u{3000}“别老一惊一乍的！又怎么了！？”")
    );
}

#[test]
fn five_result() {
    assert_eq!(
        "“别老一惊\u{3000}一乍的！又怎\u{3000}么了！？”",
        trim_start_str(
            "\u{3000}\u{3000}\u{3000}\u{3000}“别老一惊\u{3000}一乍的！又怎\u{3000}么了！？”"
        )
    );
}

#[test]
fn strip_keeps_exact_suffix() {
    assert_eq!("a\u{3000}b", trim_start_str("\u{3000}a\u{3000}b"));
    assert_eq!("a b ", trim_start_str("a b "));
    assert_eq!(" \u{3000}x", trim_start_str(" \u{3000}x"));
}

#[test]
fn strip_all_ideographic_spaces_gives_empty() {
    assert_eq!("", trim_start_str(""));
    assert_eq!("", trim_start_str("\u{3000}\u{3000}\u{3000}"));
}

#[test]
fn trim_whitespace_both_ends() {
    assert_eq!(b"hi".as_slice(), trim_ascii_whitespace(b"  hi\t\n"));
    assert_eq!(b"a b".as_slice(), trim_ascii_whitespace(b" a b "));
    assert_eq!(b"solo".as_slice(), trim_ascii_whitespace(b"solo"));
}

#[test]
fn trim_whitespace_empty_iff_all_whitespace() {
    assert_eq!(b"".as_slice(), trim_ascii_whitespace(b""));
    assert_eq!(b"".as_slice(), trim_ascii_whitespace(b" \t\r\n\x0b\x0c"));
    assert_ne!(b"".as_slice(), trim_ascii_whitespace(b" . "));
}

#[test]
fn trim_whitespace_leaves_non_ascii_whitespace_alone() {
    assert_eq!(
        "\u{3000}".as_bytes(),
        trim_ascii_whitespace(" \u{3000} ".as_bytes())
    );
}

#[test]
fn trim_whitespace_includes_vertical_tab() {
    assert_eq!(b"x".as_slice(), trim_ascii_whitespace(b"\x0bx\x0b"));
}

#[test]
fn trim_pipeline_idempotent_on_a_line() {
    let once =
        trim_ascii_whitespace(trim_start_str("\u{3000}\u{3000}  hello world  ").as_bytes())
            .to_vec();
    let text = String::from_utf8(once.clone()).unwrap();
    let twice = trim_ascii_whitespace(trim_start_str(&text).as_bytes()).to_vec();
    assert_eq!(once, twice);
    assert_eq!(once, b"hello world".to_vec());
}
