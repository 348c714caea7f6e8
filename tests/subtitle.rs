use asstosrt::dict::Dict;
use asstosrt::error::{Field, FormatError};
use asstosrt::markup::cleanse_text;
use asstosrt::options::LineStrip;
use asstosrt::subtitle::ass_to_srt;

const ASS_SAMPLE: &str = r#"
; 啊啊啊啊啊
[Events]
Format: Start, End, Style, Name, MarginL, MarginR, MarginV, Effect, Text
Dialogue: 0:02:42.42,0:02:44.05,main,b,0,0,0,,Something...
Dialogue: 0:02:40.65,0:02:41.79,main,a,0,0,0,,Hello,\nworld!~
Dialogue: 0:02:40.65,0:02:41.79,main,a,0,0,0,x,[Effect]
Dialogue: 0:03:01.00,0:03:02.00,main,a,0,0,0,,{\p1}dr{\p2}aw{\p0}
Dialogue: 0:04:01.00,0:04:02.00,main,a,0,0,0,,some{\p2}draw with{\p0}text
"#;

fn convert(ass: &str) -> Result<String, FormatError> {
    ass_to_srt(ass, true, LineStrip::KeepAll, None, 0)
}

#[test]
fn subtitle_test_ass_to_srt() {
    let ass = r#"
; 啊啊啊啊啊
[Events]
Format: Start, End, Style, Name, MarginL, MarginR, MarginV, Effect, Text
Dialogue: 0:02:42.42,0:02:44.05,main,b,0,0,0,,Something...
Dialogue: 0:02:40.65,0:02:41.79,main,a,0,0,0,,Hello,\nworld!~
Dialogue: 0:02:40.65,0:02:41.79,main,a,0,0,0,x,[Effect]
"#;
    let srt = "\
1\r\n\
00:02:40,650 --> 00:02:41,790\r\n\
Hello,\r\nworld!~\r\n\r\n\
2\r\n\
00:02:42,420 --> 00:02:44,050\r\n\
Something...\r\n\r\n";
    let result = convert(ass).unwrap();
    assert_eq!(result, srt);
}

#[test]
fn tests_test_ass_to_srt() {
    let srt = "\
1\r\n\
00:02:40,650 --> 00:02:41,790\r\n\
Hello,\r\nworld!~\r\n\r\n\
2\r\n\
00:02:42,420 --> 00:02:44,050\r\n\
Something...\r\n\r\n\
3\r\n\
00:04:01,000 --> 00:04:02,000\r\n\
sometext\r\n\r\n";
    let result = convert(ASS_SAMPLE).unwrap();
    assert_eq!(result, srt);
}

#[test]
fn test_ass_line_ending() {
    let crlf = ASS_SAMPLE.replace('\n', "\r\n");
    let lf = ASS_SAMPLE.replace('\n', "\r");
    assert!(convert(&crlf).is_ok());
    assert!(convert(&lf).is_ok());
    assert_eq!(convert(&crlf).unwrap(), convert(ASS_SAMPLE).unwrap());
    assert_eq!(convert(&lf).unwrap(), convert(ASS_SAMPLE).unwrap());
}

#[test]
fn tests_test_cleanse_text() {
    let text = r"some{\fad(2,5)\p1\alpha&5}few{\p2}draw{\p0}{\b0\test}text{\b1}{\p0}\Nline";
    assert_eq!("sometext\r\nline", cleanse_text(text));
}

#[test]
fn cleanse_text_plain_drawing_tags() {
    let text = r"some{\p1}few{\p2}draw{\p0}{\b0}text{\b1}{\p0}\Nline";
    assert_eq!("sometext\r\nline", cleanse_text(text));
}

#[test]
fn cleanse_keeps_unclosed_brace_and_ends_open_drawing() {
    assert_eq!("a{b", cleanse_text("a{b"));
    assert_eq!("a", cleanse_text(r"a{\p1}bc"));
    assert_eq!("x\r\ny\r\n", cleanse_text(r"x\ny\N"));
}

#[test]
fn effect_lines_kept_when_asked() {
    let out = ass_to_srt(ASS_SAMPLE, false, LineStrip::KeepAll, None, 0).unwrap();
    assert!(out.contains("[Effect]"));
    assert!(out.starts_with("1\r\n00:02:40,650 --> 00:02:41,790\r\nHello,\r\nworld!~\r\n\r\n2\r\n"));
}

#[test]
fn equal_starts_keep_line_order() {
    let ass = "[Events]\nFormat: Start, End, Text\nDialogue: 0:00:01.00,0:00:02.00,b\nDialogue: 0:00:01.00,0:00:03.00,a\nDialogue: 0:00:00.50,0:00:01.00,c\n";
    let out = convert(ass).unwrap();
    assert_eq!(
        out,
        "1\r\n00:00:00,500 --> 00:00:01,000\r\nc\r\n\r\n\
2\r\n00:00:01,000 --> 00:00:02,000\r\nb\r\n\r\n\
3\r\n00:00:01,000 --> 00:00:03,000\r\na\r\n\r\n"
    );
}

#[test]
fn offset_shifts_and_drops_empty_spans() {
    let ass = "[Events]\nFormat: Start, End, Text\nDialogue: 0:00:01.00,0:00:02.00,one\nDialogue: 0:00:00.00,0:00:00.50,gone\n";
    let out = ass_to_srt(ass, true, LineStrip::KeepAll, None, -600).unwrap();
    assert_eq!(out, "1\r\n00:00:00,400 --> 00:00:01,400\r\none\r\n\r\n");
    let later = ass_to_srt(ass, true, LineStrip::KeepAll, None, 1005).unwrap();
    assert_eq!(
        later,
        "1\r\n00:00:01,010 --> 00:00:01,510\r\ngone\r\n\r\n2\r\n00:00:02,010 --> 00:00:03,010\r\none\r\n\r\n"
    );
}

#[test]
fn zero_length_event_dropped() {
    let ass = "[Events]\nFormat: Start, End, Text\nDialogue: 0:00:01.00,0:00:01.00,none\n";
    assert_eq!(convert(ass).unwrap(), "");
}

#[test]
fn line_strip_and_dictionary_apply() {
    let ass = "[Events]\nFormat: Start, End, Text\nDialogue: 0:00:01.00,0:00:02.00,头发\\N干燥\n";
    let dict = Dict::load("干燥 乾燥\n头发 頭髮\n");
    let first = ass_to_srt(ass, true, LineStrip::KeepFirst, Some(&dict), 0).unwrap();
    assert_eq!(first, "1\r\n00:00:01,000 --> 00:00:02,000\r\n頭髮\r\n\r\n");
    let last = ass_to_srt(ass, true, LineStrip::KeepLast, Some(&dict), 0).unwrap();
    assert_eq!(last, "1\r\n00:00:01,000 --> 00:00:02,000\r\n乾燥\r\n\r\n");
}

#[test]
fn lines_outside_events_are_ignored() {
    let ass = "[Script Info]\nDialogue: x\n[Events]\nFormat: Start, End, Text\nDialogue: 0:00:01.00,0:00:02.00,in\n[Fonts]\nDialogue: 0:00:03.00,0:00:04.00,out\n";
    assert_eq!(convert(ass).unwrap(), "1\r\n00:00:01,000 --> 00:00:02,000\r\nin\r\n\r\n");
}

#[test]
fn missing_format_line() {
    assert_eq!(convert("[Events]\nDialogue: 0:00:01.00,0:00:02.00,x\n"), Err(FormatError::NoFormatLine));
    assert_eq!(convert("no events here"), Err(FormatError::NoFormatLine));
}

#[test]
fn missing_format_column() {
    assert_eq!(
        convert("[Events]\nFormat: Start, Text\n"),
        Err(FormatError::NoFormatLineField(Field::End))
    );
    assert_eq!(
        convert("[Events]\nFormat: End, Text\n"),
        Err(FormatError::NoFormatLineField(Field::Start))
    );
    assert_eq!(
        convert("[Events]\nFormat: START, end\n"),
        Err(FormatError::NoFormatLineField(Field::Text))
    );
}

#[test]
fn missing_dialogue_field() {
    assert_eq!(
        convert("[Events]\nFormat: Start, End, Style, Text\nDialogue: 0:00:01.00,0:00:02.00,main\n"),
        Err(FormatError::NoField(Field::Text))
    );
    assert_eq!(
        convert("[Events]\nFormat: Text, Start, End\nDialogue: hi\n"),
        Err(FormatError::NoField(Field::Start))
    );
}

#[test]
fn bad_dialogue_time() {
    assert_eq!(
        convert("[Events]\nFormat: Start, End, Text\nDialogue: 0:00:01,0:00:02.00,x\n"),
        Err(FormatError::Time("0:00:01".to_string()))
    );
}

#[test]
fn field_names() {
    assert_eq!(Field::Start.name(), "start");
    assert_eq!(Field::Effect.name(), "effect");
}
