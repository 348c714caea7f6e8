use asstosrt::archive::{ArchiveError, ZipWriter};
use std::io::Read;

#[test]
fn empty_archive_is_end_record_only() {
    let zip = ZipWriter::new();
    let bytes = zip.close();
    assert_eq!(
        bytes,
        vec![0x50, 0x4b, 5, 6, 0, 0, 0, 0, 0, 0, 0, 0, 0, 0, 0, 0, 0, 0, 0, 0, 0, 0]
    );
}

#[test]
fn archive_reads_back_with_contents_and_crc() {
    let mut zip = ZipWriter::new();
    let files: Vec<(&str, Vec<u8>)> = vec![
        ("a.srt", b"1\r\n00:00:01,000 --> 00:00:02,000\r\nhi\r\n\r\n".to_vec()),
        ("字幕/第一集.srt", "你好".as_bytes().to_vec()),
        ("empty.srt", Vec::new()),
    ];
    for (name, data) in &files {
        zip.write_file(name, data).unwrap();
    }
    let bytes = zip.close();
    let mut archive = zip::ZipArchive::new(std::io::Cursor::new(bytes)).unwrap();
    assert_eq!(archive.len(), files.len());
    for (i, (name, data)) in files.iter().enumerate() {
        let mut f = archive.by_index(i).unwrap();
        assert_eq!(f.name(), *name);
        assert_eq!(f.size(), data.len() as u64);
        assert_eq!(f.crc32(), crc::crc32::checksum_ieee(data));
        let mut buf = Vec::new();
        f.read_to_end(&mut buf).unwrap();
        assert_eq!(&buf, data);
    }
}

#[test]
fn stored_crc_is_the_ieee_checksum() {
    let mut zip = ZipWriter::new();
    zip.write_file("x", b"123456789").unwrap();
    let bytes = zip.close();
    // the CRC-32 of "123456789" is 0xCBF43926
    assert_eq!(&bytes[14..18], &[0x26, 0x39, 0xf4, 0xcb]);
    assert_eq!(&bytes[0..4], &[0x50, 0x4b, 3, 4]);
    // header, name, unicode path field, then the contents
    assert_eq!(&bytes[30 + 1 + 10..30 + 1 + 10 + 9], b"123456789");
}

#[test]
fn overlong_name_is_refused() {
    let mut zip = ZipWriter::new();
    let name = "n".repeat(65527);
    assert_eq!(zip.write_file(&name, b"x"), Err(ArchiveError::NameTooLong));
    let ok_name = "n".repeat(65526);
    assert_eq!(zip.write_file(&ok_name, b"x"), Ok(()));
}
