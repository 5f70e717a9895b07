use rfit::format_text;
use rfit::Config;
use rfit::Error;

#[test]
fn scenario_reformat_mixed_source() {
    let out = format_text("\u{3000}Hello world  \n\n\n\u{3000}\u{3000}Second line\n");
    assert_eq!(out, b"Hello world\n\nSecond line\n\n".to_vec());
}

#[test]
fn scenario_whitespace_only_source_gives_empty_output() {
    let out = format_text(" \t \n\u{3000}\u{3000}\n\u{3000} \t \n\n");
    assert_eq!(out, Vec::<u8>::new());
}

#[test]
fn round_trip_reproduces_normalized_output() {
    let src = "\u{3000}one  \n\nsecond \u{3000}line\n\t\nthird\n";
    let out1 = format_text(src);
    let text1 = String::from_utf8(out1.clone()).unwrap();
    let out2 = format_text(&text1);
    assert_eq!(out1, out2);
}

#[test]
fn last_line_without_terminator_is_kept() {
    assert_eq!(format_text("  tail"), b"tail\n\n".to_vec());
}

#[test]
fn carriage_return_before_line_feed_is_trimmed() {
    assert_eq!(format_text("a\r\nb\r\n"), b"a\n\nb\n\n".to_vec());
}

#[test]
fn mid_line_ideographic_space_is_kept() {
    assert_eq!(
        format_text(" a\u{3000}b \n"),
        "a\u{3000}b\n\n".as_bytes().to_vec()
    );
}

#[test]
fn empty_source_gives_empty_output() {
    assert_eq!(format_text(""), Vec::<u8>::new());
}

#[test]
fn config_and_error_carry_their_fields() {
    let from = String::from("in.txt");
    let to = String::from("out.txt");
    let config = Config {
        from_filename: &from,
        to_filename: &to,
    };
    assert_eq!(config.from_filename, "in.txt");
    assert_eq!(config.to_filename, "out.txt");

    let arg = Error::ArgumentError {
        message: String::from("missing argument"),
    };
    match arg {
        Error::ArgumentError { message } => assert_eq!(message, "missing argument"),
        Error::IoError { .. } => panic!("unexpected variant"),
    }

    let io = Error::IoError {
        source: std::io::Error::new(std::io::ErrorKind::NotFound, "gone"),
    };
    assert!(matches!(io, Error::IoError { .. }));
}
