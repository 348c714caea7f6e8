//! Reading ZIP archives given as bytes.

use vstd::prelude::*;
use std::io::{Cursor, Read};
use zip::result::ZipError;
use zip::ZipArchive;

verus! {

#[verifier::external_type_specification]
#[verifier::external_body]
#[verifier::reject_recursive_types(R)]
pub struct ExZipArchive<R>(ZipArchive<R>);

#[verifier::external_type_specification]
#[verifier::external_body]
#[verifier::reject_recursive_types(T)]
pub struct ExCursor<T>(Cursor<T>);

#[verifier::external_type_specification]
#[verifier::external_body]
pub struct ExZipError(ZipError);

/// The bytes an opened archive reads from.
pub uninterp spec fn archive_bytes(a: ZipArchive<Cursor<Vec<u8>>>) -> Seq<u8>;

/// Whether the bytes hold a readable central directory.
pub uninterp spec fn zip_opens(bytes: Seq<u8>) -> bool;

/// The entries of the archive in the bytes, in the order of its central
/// directory: the entry's path where it is a safe relative one, and its
/// uncompressed size.
pub uninterp spec fn zip_entries(bytes: Seq<u8>) -> Seq<(Option<Seq<char>>, u64)>;

/// Whether entry `i` of the archive in the bytes can be opened.
pub uninterp spec fn zip_entry_opens(bytes: Seq<u8>, i: int) -> bool;

/// The contents of entry `i`, where it opens, decompresses and matches its
/// CRC-32.
pub uninterp spec fn zip_entry_data(bytes: Seq<u8>, i: int) -> Option<Seq<u8>>;

/// Relies on `ZipArchive::new`: reads the central directory of the bytes,
/// which the archive keeps reading from.
#[verifier::external_body]
pub(crate) fn open_archive(bytes: Vec<u8>) -> (r: Result<ZipArchive<Cursor<Vec<u8>>>, ZipError>)
    ensures
        r is Ok <==> zip_opens(bytes@),
        r matches Ok(a) ==> archive_bytes(a) == bytes@,
{
    ZipArchive::new(Cursor::new(bytes))
}

/// Relies on `ZipArchive::len`: the number of entries.
#[verifier::external_body]
pub(crate) fn archive_len(a: &ZipArchive<Cursor<Vec<u8>>>) -> (r: usize)
    ensures
        r == zip_entries(archive_bytes(*a)).len(),
{
    a.len()
}

/// Relies on `ZipArchive::by_index`, then the entry's `enclosed_name` and
/// `size`, which come from the central directory; reading moves only the
/// archive's cursor. An index past the end gives an error.
#[verifier::external_body]
pub(crate) fn entry_info(a: &mut ZipArchive<Cursor<Vec<u8>>>, i: usize) -> (r: Result<
    (Option<String>, u64),
    ZipError,
>)
    ensures
        archive_bytes(*final(a)) == archive_bytes(*old(a)),
        r is Ok <==> i < zip_entries(archive_bytes(*old(a))).len() && zip_entry_opens(
            archive_bytes(*old(a)),
            i as int,
        ),
        r matches Ok((n, s)) ==> s == zip_entries(archive_bytes(*old(a)))[i as int].1 && match n {
            Some(p) => zip_entries(archive_bytes(*old(a)))[i as int].0 == Some(p@),
            None => zip_entries(archive_bytes(*old(a)))[i as int].0 is None,
        },
{
    let f = a.by_index(i)?;
    Ok((f.enclosed_name().map(|p| p.to_string_lossy().into_owned()), f.size()))
}

/// Relies on `ZipArchive::by_index` and reading the entry to its end:
/// the entry's contents, checked against its CRC-32.
#[verifier::external_body]
pub(crate) fn entry_data(a: &mut ZipArchive<Cursor<Vec<u8>>>, i: usize) -> (r: Result<Vec<u8>, ZipError>)
    ensures
        archive_bytes(*final(a)) == archive_bytes(*old(a)),
        r is Ok <==> zip_entry_data(archive_bytes(*old(a)), i as int) is Some,
        r matches Ok(d) ==> d@ == zip_entry_data(archive_bytes(*old(a)), i as int)->Some_0,
{
    let mut f = a.by_index(i)?;
    let mut buf = Vec::new();
    f.read_to_end(&mut buf).map_err(ZipError::Io)?;
    Ok(buf)
}

/// Relies on `ZipError`'s `Display`: the error's message.
#[verifier::external_body]
pub(crate) fn zip_error_text(e: &ZipError) -> String {
    e.to_string()
}

} // verus!
