use kindle_rust::decimal::{format_i32, format_u64, parse_i32, IntErrorKind};
use kindle_rust::power::wake_alarm_setting;
use kindle_rust::status::{parse_meme_status, status_request, MemeAction, MemeBoard, StatusError};

fn chars(s: &str) -> Vec<char> {
    s.chars().collect()
}

#[test]
fn format_u64_matches_to_string() {
    for n in [0u64, 7, 10, 42, 1000, 987654321, u64::MAX] {
        assert_eq!(format_u64(n), n.to_string().into_bytes());
    }
}

#[test]
fn format_i32_matches_to_string() {
    for n in [0i32, 5, -5, 10, -10, 123, -2048, i32::MAX, i32::MIN] {
        assert_eq!(format_i32(n), n.to_string().into_bytes());
    }
}

fn std_kind(e: std::num::ParseIntError) -> IntErrorKind {
    match e.kind() {
        std::num::IntErrorKind::Empty => IntErrorKind::Empty,
        std::num::IntErrorKind::InvalidDigit => IntErrorKind::InvalidDigit,
        std::num::IntErrorKind::PosOverflow => IntErrorKind::PosOverflow,
        std::num::IntErrorKind::NegOverflow => IntErrorKind::NegOverflow,
        other => panic!("unexpected kind {:?}", other),
    }
}

#[test]
fn parse_i32_reads_what_std_reads() {
    let cases: [&str; 26] = [
        "0", "42", "-42", "+42", "007", "-0", "2147483647", "-2147483648", "2147483648",
        "-2147483649", "99999999999999", "", "+", "-", " 1", "1 ", "1a", "--1", "+-1", "12\r",
        "99999999999x", "-99999999999x", "x99999999999", "21474836470", "2147483647x", "-",
    ];
    for c in cases {
        assert_eq!(parse_i32(c.as_bytes()), c.parse::<i32>().map_err(std_kind), "case {:?}", c);
    }
}

#[test]
fn parse_i32_error_kinds() {
    assert_eq!(parse_i32(b""), Err(IntErrorKind::Empty));
    assert_eq!(parse_i32(b"+"), Err(IntErrorKind::InvalidDigit));
    assert_eq!(parse_i32(b"42\r"), Err(IntErrorKind::InvalidDigit));
    assert_eq!(parse_i32(b"2147483648"), Err(IntErrorKind::PosOverflow));
    assert_eq!(parse_i32(b"-2147483649"), Err(IntErrorKind::NegOverflow));
    assert_eq!(parse_i32(b"99999999999x"), Err(IntErrorKind::PosOverflow));
}

#[test]
fn id_text_round_trip() {
    for n in [0i32, 1, -1, 314, -271828, i32::MAX, i32::MIN] {
        assert_eq!(parse_i32(&format_i32(n)), Ok(n));
    }
}

#[test]
fn wake_alarm_text() {
    assert_eq!(wake_alarm_setting(300), b"+300".to_vec());
    assert_eq!(wake_alarm_setting(0), b"+0".to_vec());
}

#[test]
fn status_request_trims_battery_text() {
    let body: String = status_request(&chars("  87%\n"), Some(12)).into_iter().collect();
    assert_eq!(body, "87 12");
    let body: String = status_request(&chars("%%55%%"), None).into_iter().collect();
    assert_eq!(body, "55 ");
    let body: String = status_request(&chars("\u{3000}\t 9 %\u{a0}"), Some(-3)).into_iter().collect();
    assert_eq!(body, "9  -3");
    let body: String = status_request(&chars(" % 40 % "), Some(0)).into_iter().collect();
    assert_eq!(body, " 40  0");
    let body: String = status_request(&chars(""), None).into_iter().collect();
    assert_eq!(body, " ");
}

#[test]
fn status_request_agrees_with_std_trim() {
    for raw in ["  87%\n", "%%55%%", "\u{2003}100\u{85}", "x y", "%", "  ", "%\t%"] {
        let expected = format!("{} {}", raw.trim().trim_matches('%'), 77);
        let body: String = status_request(&chars(raw), Some(77)).into_iter().collect();
        assert_eq!(body, expected, "case {:?}", raw);
    }
}

#[test]
fn parse_status_splits_id_and_picture() {
    assert_eq!(parse_meme_status(b"17\n\x89PNG\nrest"), Ok((17, b"\x89PNG\nrest".to_vec())));
    assert_eq!(parse_meme_status(b"-1\n"), Ok((-1, Vec::new())));
    assert_eq!(parse_meme_status(b"+8\nab"), Ok((8, b"ab".to_vec())));
}

fn bad_id(line: &[u8], kind: IntErrorKind) -> Result<(i32, Vec<u8>), StatusError> {
    Err(StatusError::BadMemeId { line: line.to_vec(), kind })
}

#[test]
fn parse_status_errors() {
    assert_eq!(parse_meme_status(b"17"), Err(StatusError::MissingPicture));
    assert_eq!(parse_meme_status(b""), bad_id(b"", IntErrorKind::Empty));
    assert_eq!(parse_meme_status(b"abc\nxyz"), bad_id(b"abc", IntErrorKind::InvalidDigit));
    assert_eq!(parse_meme_status(b"17 \nxyz"), bad_id(b"17 ", IntErrorKind::InvalidDigit));
    assert_eq!(parse_meme_status(b"42\r\nX"), bad_id(b"42\r", IntErrorKind::InvalidDigit));
    assert_eq!(
        parse_meme_status(b"\xff\xfe\nxyz"),
        Err(StatusError::NotUtf8 { line: b"\xff\xfe".to_vec() })
    );
    assert_eq!(parse_meme_status(b"99999999999\nxyz"), bad_id(b"99999999999", IntErrorKind::PosOverflow));
    assert_eq!(parse_meme_status(b"-99999999999\nxyz"), bad_id(b"-99999999999", IntErrorKind::NegOverflow));
}

#[test]
fn board_decides_and_remembers() {
    let mut board = MemeBoard::new();
    assert_eq!(board.shown(), None);
    assert_eq!(board.next_action(5), MemeAction::ShowNew);
    assert_eq!(board.next_action(-1), MemeAction::Quit);
    board.conclude_update(5, false);
    assert_eq!(board.shown(), None);
    board.conclude_update(5, true);
    assert_eq!(board.shown(), Some(5));
    board.conclude_update(9, false);
    assert_eq!(board.shown(), Some(5));
    assert_eq!(board.next_action(5), MemeAction::KeepCurrent);
    assert_eq!(board.next_action(6), MemeAction::ShowNew);
    assert_eq!(board.next_action(-1), MemeAction::Quit);
}
