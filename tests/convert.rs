use asstosrt::archive::ArchiveError;
use asstosrt::charset::{detect_encoding, encode_utf16};
use asstosrt::convert::{
    archive_error_message, convert_entries, convert_single_file, ConvertError, ConvertMeta,
    InputEntry,
};
use asstosrt::options::{ChineseConvertion, LineStrip, Options};
use asstosrt::walk::{
    check_size, entry_path, is_subtitle_name, is_zip_name, single_output, srt_path, walk_inputs,
    FILE_SIZE_LIMIT,
};
use std::io::Read;

const ASS: &str = "[Events]\nFormat: Start, End, Text\nDialogue: 0:00:01.00,0:00:02.00,你好，世界\n";

fn opts(ass: &str, srt: &str) -> Options {
    Options {
        ass_charset: ass.to_string(),
        srt_charset: srt.to_string(),
        chinese_convertion: ChineseConvertion::Keep,
        line_strip: LineStrip::KeepAll,
        offset_millis: 0,
        no_zip: false,
        srt_bom: false,
    }
}

#[test]
fn converts_utf8_file() {
    let (bytes, meta) = convert_single_file(ASS.as_bytes(), &opts("utf-8", ""), None).unwrap();
    assert_eq!(
        String::from_utf8(bytes).unwrap(),
        "1\r\n00:00:01,000 --> 00:00:02,000\r\n你好，世界\r\n\r\n"
    );
    assert_eq!(meta.input_encoding, vec!["UTF-8".to_string()]);
    assert_eq!(meta.output_encoding, vec!["UTF-8".to_string()]);
    assert!(!meta.has_error());
}

#[test]
fn converts_from_and_to_gbk() {
    let (gbk, _, _) = encoding_rs::GBK.encode(ASS);
    let (bytes, meta) = convert_single_file(&gbk, &opts("gbk", "gb18030"), None).unwrap();
    let (expected, _, _) = encoding_rs::GB18030.encode("1\r\n00:00:01,000 --> 00:00:02,000\r\n你好，世界\r\n\r\n");
    assert_eq!(bytes, expected.into_owned());
    assert_eq!(meta.input_encoding, vec!["GBK".to_string()]);
    assert_eq!(meta.output_encoding, vec!["gb18030".to_string()]);
}

#[test]
fn empty_output_label_keeps_input_charset() {
    let (gbk, _, _) = encoding_rs::GBK.encode(ASS);
    let (bytes, meta) = convert_single_file(&gbk, &opts("gbk", ""), None).unwrap();
    let (expected, _, _) = encoding_rs::GBK.encode("1\r\n00:00:01,000 --> 00:00:02,000\r\n你好，世界\r\n\r\n");
    assert_eq!(bytes, expected.into_owned());
    assert_eq!(meta.input_encoding, vec!["GBK".to_string()]);
    assert_eq!(meta.output_encoding, vec!["GBK".to_string()]);
}

#[test]
fn replacement_sets_the_error_flags() {
    let bad = b"[Events]\nFormat: Start, End, Text\nDialogue: 0:00:01.00,0:00:02.00,a\xffb\n";
    let (bytes, meta) = convert_single_file(bad, &opts("utf-8", "iso-8859-1"), None).unwrap();
    assert!(meta.decode_error);
    assert!(meta.encode_error);
    assert!(bytes.ends_with(b"a&#65533;b\r\n\r\n"));
}

#[test]
fn detects_input_charset() {
    let text = "[Events]\nFormat: Start, End, Text\nDialogue: 0:00:01.00,0:00:02.00,曾经有一份真诚的爱情放在我面前，我没有珍惜，等我失去的时候我才后悔莫及。\n";
    assert!(detect_encoding(text.as_bytes()).is_some());
    let (bytes, meta) = convert_single_file(text.as_bytes(), &opts("", ""), None).unwrap();
    assert!(String::from_utf8(bytes).unwrap().contains("后悔莫及"));
    assert_eq!(meta.input_encoding.len(), 1);
}

#[test]
fn unknown_labels_are_refused() {
    assert_eq!(
        convert_single_file(ASS.as_bytes(), &opts("no-such-charset", ""), None).err(),
        Some(ConvertError::EncodingLabel("no-such-charset".to_string()))
    );
    assert_eq!(
        convert_single_file(ASS.as_bytes(), &opts("utf-8", "bogus"), None).err(),
        Some(ConvertError::EncodingLabel("bogus".to_string()))
    );
}

#[test]
fn utf16_output_with_and_without_bom() {
    let srt = "1\r\n00:00:01,000 --> 00:00:02,000\r\n你好，世界\r\n\r\n";
    let le: Vec<u8> = srt.encode_utf16().flat_map(|u| u.to_le_bytes()).collect();
    let (bytes, meta) = convert_single_file(ASS.as_bytes(), &opts("utf-8", "utf-16le"), None).unwrap();
    assert_eq!(bytes, le);
    assert_eq!(meta.output_encoding, vec!["UTF-16LE".to_string()]);
    let mut with_bom = opts("utf-8", "utf-16be");
    with_bom.srt_bom = true;
    let (bytes, _) = convert_single_file(ASS.as_bytes(), &with_bom, None).unwrap();
    let mut be: Vec<u8> = vec![0xfe, 0xff];
    be.extend(srt.encode_utf16().flat_map(|u| u.to_be_bytes()));
    assert_eq!(bytes, be);
}

#[test]
fn utf16_surrogate_pairs() {
    assert_eq!(
        encode_utf16("a€😀", false, true),
        vec![0xff, 0xfe, 0x61, 0x00, 0xac, 0x20, 0x3d, 0xd8, 0x00, 0xde]
    );
    assert_eq!(encode_utf16("a😀", true, false), vec![0x00, 0x61, 0xd8, 0x3d, 0xde, 0x00]);
    assert_eq!(encode_utf16("", true, false), Vec::<u8>::new());
}

#[test]
fn format_errors_are_wrapped() {
    assert_eq!(
        convert_single_file(b"[Events]\n", &opts("utf-8", ""), None).err(),
        Some(ConvertError::Format(asstosrt::error::FormatError::NoFormatLine))
    );
}

#[test]
fn meta_merge_is_union_and_or() {
    let mut a = ConvertMeta::new();
    let (_, m1) = convert_single_file(ASS.as_bytes(), &opts("utf-8", ""), None).unwrap();
    let (gbk, _, _) = encoding_rs::GBK.encode(ASS);
    let (_, m2) = convert_single_file(&gbk, &opts("gbk", "gbk"), None).unwrap();
    a.add_assign(m1);
    a.add_assign(m2);
    let (_, m3) = convert_single_file(ASS.as_bytes(), &opts("utf-8", ""), None).unwrap();
    a.add_assign(m3);
    assert_eq!(a.input_encoding, vec!["UTF-8".to_string(), "GBK".to_string()]);
    assert_eq!(a.output_encoding, vec!["UTF-8".to_string(), "GBK".to_string()]);
    assert!(!a.decode_error && !a.encode_error);
}

#[test]
fn entries_go_into_one_archive() {
    let entries = vec![
        InputEntry { path: "one.ass".to_string(), bytes: ASS.as_bytes().to_vec() },
        InputEntry { path: "pack/two.ssa".to_string(), bytes: ASS.as_bytes().to_vec() },
    ];
    let result = convert_entries(&entries, &opts("utf-8", ""), None).unwrap();
    assert_eq!(result.mime, "application/zip");
    let mut archive = zip::ZipArchive::new(std::io::Cursor::new(result.bytes)).unwrap();
    assert_eq!(archive.len(), 2);
    let mut f = archive.by_index(1).unwrap();
    assert_eq!(f.name(), "pack/two.srt");
    let mut s = String::new();
    f.read_to_string(&mut s).unwrap();
    assert_eq!(s, "1\r\n00:00:01,000 --> 00:00:02,000\r\n你好，世界\r\n\r\n");
}

#[test]
fn size_ceiling() {
    assert_eq!(check_size(FILE_SIZE_LIMIT, FILE_SIZE_LIMIT), Ok(()));
    assert_eq!(
        check_size(FILE_SIZE_LIMIT + 1, FILE_SIZE_LIMIT),
        Err(ConvertError::TooLarge { size: FILE_SIZE_LIMIT + 1, limit: FILE_SIZE_LIMIT })
    );
}

#[test]
fn single_or_archive_output() {
    assert_eq!(single_output(&vec![]), Err(ConvertError::NoFile));
    assert_eq!(single_output(&vec!["a.ass".to_string()]), Ok(true));
    assert_eq!(single_output(&vec!["a.ZIP".to_string()]), Ok(false));
    assert_eq!(single_output(&vec!["a.ass".to_string(), "b.ass".to_string()]), Ok(false));
}

#[test]
fn names_and_paths() {
    assert!(is_subtitle_name("dir/ep1.ass"));
    assert!(is_subtitle_name("EP1.SSA"));
    assert!(!is_subtitle_name("notes.txt"));
    assert!(!is_subtitle_name(".ass"));
    assert!(is_zip_name("subs.zip"));
    assert!(!is_zip_name("zip"));
    assert_eq!(srt_path("dir/ep1.ass"), "dir/ep1.srt");
    assert_eq!(srt_path("noext"), "noext.srt");
    assert_eq!(srt_path("a.b/c"), "a.b/c.srt");
    assert_eq!(entry_path("season1.zip", "ep1.ass", true), "season1/ep1.ass");
    assert_eq!(entry_path("season1.zip", "ep1.ass", false), "ep1.ass");
}

#[test]
fn archive_error_messages() {
    assert_eq!(archive_error_message(ArchiveError::NameTooLong), "file name too long");
    assert_eq!(archive_error_message(ArchiveError::TooManyEntries), "too many files");
    assert_eq!(archive_error_message(ArchiveError::ArchiveTooLarge), "archive too large");
}

fn zipped(files: &[(&str, &str)]) -> Vec<u8> {
    let mut zip = asstosrt::archive::ZipWriter::new();
    for (name, text) in files {
        zip.write_file(name, text.as_bytes()).unwrap();
    }
    zip.close()
}

#[test]
fn inputs_are_flattened() {
    let archive = zipped(&[("ep1.ass", ASS), ("readme.txt", "x"), ("sub/ep2.SSA", ASS)]);
    let files = vec![
        InputEntry { path: "season.zip".to_string(), bytes: archive },
        InputEntry { path: "extra.ass".to_string(), bytes: ASS.as_bytes().to_vec() },
        InputEntry { path: "cover.jpg".to_string(), bytes: vec![1, 2, 3] },
    ];
    let entries = walk_inputs(files, FILE_SIZE_LIMIT).unwrap();
    let paths: Vec<&str> = entries.iter().map(|e| e.path.as_str()).collect();
    assert_eq!(paths, vec!["season/ep1.ass", "season/sub/ep2.SSA", "extra.ass"]);
    assert_eq!(entries[0].bytes, ASS.as_bytes());
}

#[test]
fn single_archive_keeps_entry_paths() {
    let archive = zipped(&[("ep1.ass", ASS)]);
    let files = vec![InputEntry { path: "season.zip".to_string(), bytes: archive }];
    let entries = walk_inputs(files, FILE_SIZE_LIMIT).unwrap();
    assert_eq!(entries.len(), 1);
    assert_eq!(entries[0].path, "ep1.ass");
}

#[test]
fn oversized_entries_stop_the_walk() {
    let archive = zipped(&[("ep1.ass", ASS)]);
    let files = vec![InputEntry { path: "a.zip".to_string(), bytes: archive }];
    assert_eq!(
        walk_inputs(files, 10).err(),
        Some(ConvertError::TooLarge { size: ASS.len() as u64, limit: 10 })
    );
    let plain = vec![InputEntry { path: "a.ass".to_string(), bytes: ASS.as_bytes().to_vec() }];
    assert_eq!(
        walk_inputs(plain, 10).err(),
        Some(ConvertError::TooLarge { size: ASS.len() as u64, limit: 10 })
    );
}

#[test]
fn broken_archive_is_a_zip_error() {
    let files = vec![InputEntry { path: "bad.zip".to_string(), bytes: vec![1, 2, 3, 4] }];
    assert!(matches!(walk_inputs(files, FILE_SIZE_LIMIT), Err(ConvertError::Zip(_))));
}
