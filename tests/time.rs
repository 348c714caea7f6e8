use asstosrt::error::FormatError;
use asstosrt::time::{parse_time, shift_time, to_srt_time};

#[test]
fn time_round_trip() {
    assert_eq!(parse_time("0:02:40.65"), Ok(16065));
    assert_eq!(to_srt_time(16065), "00:02:40,650");
}

#[test]
fn time_formula() {
    assert_eq!(parse_time("1:02:03.04"), Ok(360000 + 2 * 6000 + 3 * 100 + 4));
    assert_eq!(to_srt_time(0), "00:00:00,000");
    assert_eq!(to_srt_time(123 * 360000 + 99), "123:00:00,990");
}

#[test]
fn malformed_times_are_refused() {
    assert_eq!(parse_time("0:02:40"), Err(FormatError::Time("0:02:40".to_string())));
    assert_eq!(parse_time("a:02:40.65"), Err(FormatError::Time("a:02:40.65".to_string())));
    assert_eq!(parse_time(""), Err(FormatError::Time(String::new())));
    assert_eq!(
        parse_time("99999:00:00.00"),
        Err(FormatError::Time("99999:00:00.00".to_string()))
    );
}

#[test]
fn loose_forms_are_refused() {
    for t in ["1:2:3.4", "0:2:40.65", "0:02:4.65", "0:02:40.6", "0:02:40.650", "0:60:00.00", "0:00:60.00", ":02:40.65"] {
        assert_eq!(parse_time(t), Err(FormatError::Time(t.to_string())));
    }
    assert_eq!(parse_time("10:59:59.99"), Ok(10 * 360000 + 59 * 6000 + 59 * 100 + 99));
}

#[test]
fn shift_rounds_half_up_and_clamps() {
    assert_eq!(shift_time(10, 15), 12);
    assert_eq!(shift_time(10, -15), 9);
    assert_eq!(shift_time(5, -55), 0);
    assert_eq!(shift_time(100, 1000), 200);
    assert_eq!(shift_time(u32::MAX, i32::MAX), u32::MAX);
}
