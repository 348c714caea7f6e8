//! A writer of ZIP archives whose entries are stored without compression.

use vstd::prelude::*;
use vstd::string::StringSliceAdditionalSpecFns;

verus! {

/// The CRC-32 (IEEE) of a byte sequence.
pub uninterp spec fn crc32_of(data: Seq<u8>) -> u32;

/// Relies on `crc::crc32::checksum_ieee`: the CRC-32 of the bytes, which
/// depends on them alone.
#[verifier::external_body]
fn crc32(data: &[u8]) -> (r: u32)
    ensures
        r == crc32_of(data@),
{
    crc::crc32::checksum_ieee(data)
}

pub open spec fn le16(x: nat) -> Seq<u8> {
    seq![(x % 256) as u8, (x / 256 % 256) as u8]
}

pub open spec fn le32(x: nat) -> Seq<u8> {
    seq![(x % 256) as u8, (x / 256 % 256) as u8, (x / 65536 % 256) as u8, (x / 16777216 % 256) as u8]
}

/// The Info-ZIP Unicode Path extra field for a name.
pub open spec fn unicode_path_field(name: Seq<u8>) -> Seq<u8> {
    seq![0x75u8, 0x70u8] + le16(name.len() + 5) + seq![1u8] + le32(crc32_of(name) as nat) + name
}

/// The fields that local and central headers share, from the version
/// needed to extract to the extra field's length.
pub open spec fn common_fields(name: Seq<u8>, data: Seq<u8>) -> Seq<u8> {
    seq![0u8, 0u8, 0u8, 0u8, 0u8, 0u8, 0u8, 0u8, 0u8, 0u8] + le32(crc32_of(data) as nat) + le32(
        data.len(),
    ) + le32(data.len()) + le16(name.len()) + le16(unicode_path_field(name).len())
}

/// A local file header followed by the stored bytes.
#[verifier::opaque]
pub open spec fn local_record(name: Seq<u8>, data: Seq<u8>) -> Seq<u8> {
    seq![0x50u8, 0x4bu8, 3u8, 4u8] + common_fields(name, data) + name + unicode_path_field(name)
        + data
}

/// A central directory record for an entry whose local header is at `offset`.
#[verifier::opaque]
pub open spec fn central_record(name: Seq<u8>, data: Seq<u8>, offset: nat) -> Seq<u8> {
    seq![0x50u8, 0x4bu8, 1u8, 2u8, 0u8, 0x3fu8] + common_fields(name, data) + seq![
        0u8,
        0u8,
        0u8,
        0u8,
        0x10u8,
        0u8,
        0u8,
        0u8,
        0u8,
        0u8,
    ] + le32(offset) + name + unicode_path_field(name)
}

/// The local records of the entries, in order.
pub open spec fn locals(files: Seq<(Seq<u8>, Seq<u8>)>) -> Seq<u8>
    decreases files.len(),
{
    if files.len() == 0 {
        seq![]
    } else {
        locals(files.drop_last()) + local_record(files.last().0, files.last().1)
    }
}

/// The central directory of the entries.
pub open spec fn centrals(files: Seq<(Seq<u8>, Seq<u8>)>) -> Seq<u8>
    decreases files.len(),
{
    if files.len() == 0 {
        seq![]
    } else {
        centrals(files.drop_last()) + central_record(
            files.last().0,
            files.last().1,
            locals(files.drop_last()).len(),
        )
    }
}

/// The end of central directory record.
#[verifier::opaque]
pub open spec fn end_record(count: nat, dir_len: nat, dir_offset: nat) -> Seq<u8> {
    seq![0x50u8, 0x4bu8, 5u8, 6u8, 0u8, 0u8, 0u8, 0u8] + le16(count) + le16(count) + le32(dir_len)
        + le32(dir_offset) + seq![0u8, 0u8]
}

/// The bytes of an archive that holds `files` (name, contents), in order.
pub open spec fn zip_bytes(files: Seq<(Seq<u8>, Seq<u8>)>) -> Seq<u8> {
    locals(files) + centrals(files) + end_record(
        files.len(),
        centrals(files).len(),
        locals(files).len(),
    )
}

/// Why an entry could not be added.
#[derive(Debug, Clone, Copy, PartialEq, Eq, Structural)]
pub enum ArchiveError {
    /// The name does not fit its 16-bit length fields.
    NameTooLong,
    /// The archive already holds 65535 entries.
    TooManyEntries,
    /// The archive would outgrow its 32-bit offsets.
    ArchiveTooLarge,
}

pub const MAX_NAME_LEN: usize = 65526;

pub const MAX_ENTRIES: usize = 65535;

struct FileEntry {
    offset: u32,
    name: Vec<u8>,
    size: u32,
    crc: u32,
}

/// Writes stored entries into a byte buffer; `close` adds the central
/// directory.
pub struct ZipWriter {
    buf: Vec<u8>,
    entries: Vec<FileEntry>,
    dir_len: usize,
    files: Ghost<Seq<(Seq<u8>, Seq<u8>)>>,
}

fn push_le16(out: &mut Vec<u8>, x: u16)
    ensures
        final(out)@ == old(out)@ + le16(x as nat),
{
    out.push((x % 256) as u8);
    out.push((x / 256 % 256) as u8);
}

fn push_le32(out: &mut Vec<u8>, x: u32)
    ensures
        final(out)@ == old(out)@ + le32(x as nat),
{
    out.push((x % 256) as u8);
    out.push((x / 256 % 256) as u8);
    out.push((x / 65536 % 256) as u8);
    out.push((x / 16777216 % 256) as u8);
}

fn push_bytes(out: &mut Vec<u8>, s: &[u8])
    ensures
        final(out)@ == old(out)@ + s@,
{
    let ghost start = out@;
    let mut i: usize = 0;
    while i < s.len()
        invariant
            i <= s@.len(),
            out@ == start + s@.take(i as int),
        decreases s@.len() - i,
    {
        out.push(s[i]);
        i += 1;
        assert(out@ == start + s@.take(i as int));
    }
    assert(s@.take(s@.len() as int) == s@);
}

fn push_unicode_path(out: &mut Vec<u8>, name: &[u8])
    requires
        name@.len() <= MAX_NAME_LEN,
    ensures
        final(out)@ == old(out)@ + unicode_path_field(name@),
{
    let ghost s0 = out@;
    out.push(0x75u8);
    out.push(0x70u8);
    push_le16(out, (name.len() + 5) as u16);
    out.push(1u8);
    let c = crc32(name);
    push_le32(out, c);
    push_bytes(out, name);
    assert(out@ =~= s0 + unicode_path_field(name@));
}

fn push_common(out: &mut Vec<u8>, name: &[u8], size: u32, crc: u32)
    requires
        name@.len() <= MAX_NAME_LEN,
    ensures
        forall|data: Seq<u8>|
            data.len() == size && crc32_of(data) == crc ==> final(out)@ == old(out)@ + common_fields(
                name@,
                data,
            ),
{
    let ghost s0 = out@;
    let mut i: usize = 0;
    while i < 10
        invariant
            i <= 10,
            out@ == s0 + Seq::new(i as nat, |_k: int| 0u8),
        decreases 10 - i,
    {
        out.push(0u8);
        i += 1;
        assert(out@ =~= s0 + Seq::new(i as nat, |_k: int| 0u8));
    }
    push_le32(out, crc);
    push_le32(out, size);
    push_le32(out, size);
    push_le16(out, name.len() as u16);
    push_le16(out, (name.len() + 9) as u16);
    assert forall|data: Seq<u8>| data.len() == size && crc32_of(data) == crc implies out@ == s0
        + common_fields(name@, data) by {
        assert(unicode_path_field(name@).len() == name@.len() + 9);
        assert(out@ =~= s0 + common_fields(name@, data));
    }
}

/// Appends a local record; `crc` is the CRC-32 of `data`.
fn push_local(out: &mut Vec<u8>, name: &[u8], data: &[u8], crc: u32)
    requires
        name@.len() <= MAX_NAME_LEN,
        data@.len() <= u32::MAX,
        crc == crc32_of(data@),
    ensures
        final(out)@ == old(out)@ + local_record(name@, data@),
{
    let ghost s0 = out@;
    out.push(0x50u8);
    out.push(0x4bu8);
    out.push(3u8);
    out.push(4u8);
    push_common(out, name, data.len() as u32, crc);
    push_bytes(out, name);
    push_unicode_path(out, name);
    push_bytes(out, data);
    reveal(local_record);
    assert(out@ =~= s0 + local_record(name@, data@));
}

/// Appends a central record for contents of `size` bytes with CRC `crc`.
fn push_central(out: &mut Vec<u8>, name: &[u8], size: u32, crc: u32, offset: u32)
    requires
        name@.len() <= MAX_NAME_LEN,
    ensures
        forall|data: Seq<u8>|
            data.len() == size && crc32_of(data) == crc ==> final(out)@ == old(out)@ + central_record(
                name@,
                data,
                offset as nat,
            ),
{
    let ghost s0 = out@;
    out.push(0x50u8);
    out.push(0x4bu8);
    out.push(1u8);
    out.push(2u8);
    out.push(0u8);
    out.push(0x3fu8);
    let ghost s1 = out@;
    push_common(out, name, size, crc);
    let ghost s2 = out@;
    let mut i: usize = 0;
    while i < 10
        invariant
            i <= 10,
            out@ == s2 + seq![0u8, 0u8, 0u8, 0u8, 0x10u8, 0u8, 0u8, 0u8, 0u8, 0u8].take(i as int),
        decreases 10 - i,
    {
        out.push(if i == 4 { 0x10u8 } else { 0u8 });
        i += 1;
        assert(out@ =~= s2 + seq![0u8, 0u8, 0u8, 0u8, 0x10u8, 0u8, 0u8, 0u8, 0u8, 0u8].take(i as int));
    }
    let ghost s3 = out@;
    push_le32(out, offset);
    push_bytes(out, name);
    push_unicode_path(out, name);
    assert forall|data: Seq<u8>| data.len() == size && crc32_of(data) == crc implies out@ == s0
        + central_record(name@, data, offset as nat) by {
        assert(seq![0u8, 0u8, 0u8, 0u8, 0x10u8, 0u8, 0u8, 0u8, 0u8, 0u8].take(10) == seq![0u8, 0u8, 0u8, 0u8, 0x10u8, 0u8, 0u8, 0u8, 0u8, 0u8]);
        assert(s2 == s1 + common_fields(name@, data));
        reveal(central_record);
        assert(out@ =~= s0 + central_record(name@, data, offset as nat));
    }
}

proof fn lemma_record_lens(name: Seq<u8>, data: Seq<u8>, offset: nat)
    ensures
        local_record(name, data).len() == 39 + 2 * name.len() + data.len(),
        central_record(name, data, offset).len() == 55 + 2 * name.len(),
{
    reveal(local_record);
    reveal(central_record);
    assert(unicode_path_field(name).len() == name.len() + 9);
    assert(common_fields(name, data).len() == 26);
}

proof fn lemma_end_len(count: nat, dir_len: nat, dir_offset: nat)
    ensures
        end_record(count, dir_len, dir_offset).len() == 22,
{
    reveal(end_record);
}

proof fn lemma_push_lens(files: Seq<(Seq<u8>, Seq<u8>)>, name: Seq<u8>, data: Seq<u8>)
    ensures
        locals(files.push((name, data))) == locals(files) + local_record(name, data),
        centrals(files.push((name, data))) == centrals(files) + central_record(name, data, locals(files).len()),
        zip_bytes(files.push((name, data))).len() == locals(files).len() + centrals(files).len() + 94
            + 4 * name.len() + data.len() + 22,
{
    assert(files.push((name, data)).drop_last() == files);
    assert(files.push((name, data)).last() == (name, data));
    lemma_record_lens(name, data, locals(files).len());
    let f2 = files.push((name, data));
    lemma_end_len(f2.len(), centrals(f2).len(), locals(f2).len());
}

spec fn entry_ok(e: FileEntry, files: Seq<(Seq<u8>, Seq<u8>)>, i: int) -> bool {
    &&& e.name@ == files[i].0
    &&& e.name@.len() <= MAX_NAME_LEN
    &&& e.size as nat == files[i].1.len()
    &&& e.crc == crc32_of(files[i].1)
    &&& e.offset as nat == locals(files.take(i)).len()
}

impl ZipWriter {
    /// The entries written so far: name bytes and contents.
    pub closed spec fn files(&self) -> Seq<(Seq<u8>, Seq<u8>)> {
        self.files@
    }

    pub closed spec fn wf(&self) -> bool {
        &&& self.buf@ == locals(self.files@)
        &&& self.dir_len == centrals(self.files@).len()
        &&& self.entries@.len() == self.files@.len()
        &&& self.files@.len() <= MAX_ENTRIES
        &&& zip_bytes(self.files@).len() <= u32::MAX
        &&& forall|i: int|
            0 <= i < self.entries@.len() ==> entry_ok(#[trigger] self.entries@[i], self.files@, i)
    }

    /// An empty archive.
    pub fn new() -> (r: Self)
        ensures
            r.wf(),
            r.files() == Seq::<(Seq<u8>, Seq<u8>)>::empty(),
    {
        proof {
            lemma_end_len(0, 0, 0);
        }
        ZipWriter { buf: Vec::new(), entries: Vec::new(), dir_len: 0, files: Ghost(Seq::empty()) }
    }

    /// Adds an entry named `filename` (its UTF-8 bytes) holding `content`.
    pub fn write_file(&mut self, filename: &str, content: &[u8]) -> (r: Result<(), ArchiveError>)
        requires
            old(self).wf(),
        ensures
            final(self).wf(),
            filename.spec_bytes().len() > MAX_NAME_LEN ==> r == Err::<(), ArchiveError>(
                ArchiveError::NameTooLong,
            ),
            filename.spec_bytes().len() <= MAX_NAME_LEN && old(self).files().len() >= MAX_ENTRIES
                ==> r == Err::<(), ArchiveError>(ArchiveError::TooManyEntries),
            filename.spec_bytes().len() <= MAX_NAME_LEN && old(self).files().len() < MAX_ENTRIES
                ==> (r is Ok <==> zip_bytes(
                old(self).files().push((filename.spec_bytes(), content@)),
            ).len() <= u32::MAX),
            r is Ok ==> final(self).files() == old(self).files().push(
                (filename.spec_bytes(), content@),
            ),
            r is Err ==> final(self).files() == old(self).files(),
    {
        let name = filename.as_bytes();
        if name.len() > MAX_NAME_LEN {
            return Err(ArchiveError::NameTooLong);
        }
        if self.entries.len() >= MAX_ENTRIES {
            return Err(ArchiveError::TooManyEntries);
        }
        let ghost files2 = self.files@.push((name@, content@));
        proof {
            lemma_push_lens(self.files@, name@, content@);
        }
        if content.len() > u32::MAX as usize {
            return Err(ArchiveError::ArchiveTooLarge);
        }
        proof {
            lemma_end_len(self.files@.len(), centrals(self.files@).len(), locals(self.files@).len());
        }
        let local_len: u64 = 39 + 2 * name.len() as u64 + content.len() as u64;
        let central_len: u64 = 55 + 2 * name.len() as u64;
        if self.buf.len() as u64 + self.dir_len as u64 + 22 + local_len + central_len > u32::MAX as u64 {
            return Err(ArchiveError::ArchiveTooLarge);
        }
        let offset = self.buf.len() as u32;
        let size = content.len() as u32;
        let crc = crc32(content);
        push_local(&mut self.buf, name, content, crc);
        self.dir_len = self.dir_len + central_len as usize;
        let ghost old_entries = self.entries@;
        let ghost old_files = self.files@;
        let mut name_copy: Vec<u8> = Vec::new();
        push_bytes(&mut name_copy, name);
        assert(name_copy@ =~= name@);
        self.entries.push(FileEntry { offset, name: name_copy, size, crc });
        proof {
            self.files@ = files2;
            assert forall|i: int| 0 <= i < self.entries@.len() implies entry_ok(
                #[trigger] self.entries@[i],
                self.files@,
                i,
            ) by {
                if i < old_entries.len() {
                    assert(self.entries@[i] == old_entries[i]);
                    assert(self.files@.take(i) == old_files.take(i));
                } else {
                    assert(self.files@.take(i) == old_files);
                }
            }
            assert(self.buf@ == locals(self.files@));
            assert(self.dir_len == centrals(self.files@).len()) by {
                lemma_record_lens(name@, content@, locals(old_files).len());
            }
            assert(self.entries@.len() == self.files@.len());
            assert(zip_bytes(self.files@).len() <= u32::MAX);
        }
        Ok(())
    }

    /// Adds the central directory and hands out the archive's bytes.
    pub fn close(self) -> (r: Vec<u8>)
        requires
            self.wf(),
        ensures
            r@ == zip_bytes(self.files()),
    {
        let ghost files = self.files@;
        let ZipWriter { buf, entries, dir_len, files: _ } = self;
        let mut out = buf;
        let local_len = out.len();
        let mut i: usize = 0;
        assert(files.take(0) == Seq::<(Seq<u8>, Seq<u8>)>::empty());
        while i < entries.len()
            invariant
                i <= entries@.len() == files.len(),
                local_len == locals(files).len(),
                out@ == locals(files) + centrals(files.take(i as int)),
                forall|k: int| 0 <= k < entries@.len() ==> entry_ok(#[trigger] entries@[k], files, k),
            decreases entries@.len() - i,
        {
            let e = &entries[i];
            let ghost s0 = out@;
            let ghost f = files[i as int];
            assert(entry_ok(entries@[i as int], files, i as int));
            push_central(&mut out, e.name.as_slice(), e.size, e.crc, e.offset);
            assert(files.take(i + 1).drop_last() == files.take(i as int));
            assert(files.take(i + 1).last() == f);
            assert(out@ == s0 + central_record(f.0, f.1, locals(files.take(i as int)).len()));
            assert(centrals(files.take(i + 1)) == centrals(files.take(i as int)) + central_record(
                f.0,
                f.1,
                locals(files.take(i as int)).len(),
            ));
            assert(out@ =~= locals(files) + centrals(files.take(i + 1)));
            i += 1;
        }
        assert(files.take(i as int) == files);
        let ghost s1 = out@;
        out.push(0x50u8);
        out.push(0x4bu8);
        out.push(5u8);
        out.push(6u8);
        out.push(0u8);
        out.push(0u8);
        out.push(0u8);
        out.push(0u8);
        push_le16(&mut out, entries.len() as u16);
        push_le16(&mut out, entries.len() as u16);
        push_le32(&mut out, dir_len as u32);
        push_le32(&mut out, local_len as u32);
        out.push(0u8);
        out.push(0u8);
        reveal(end_record);
        assert(out@ =~= s1 + end_record(files.len(), centrals(files).len(), locals(files).len()));
        out
    }
}


proof fn lemma_locals_prefix(files: Seq<(Seq<u8>, Seq<u8>)>, n: int)
    requires
        0 <= n <= files.len(),
    ensures
        locals(files).len() >= locals(files.take(n)).len(),
        locals(files).subrange(0, locals(files.take(n)).len() as int) == locals(files.take(n)),
    decreases files.len() - n,
{
    if n < files.len() {
        lemma_locals_prefix(files, n + 1);
        let a = files.take(n + 1);
        assert(a.drop_last() == files.take(n));
        let p = locals(files.take(n));
        let q = locals(a);
        assert(q.subrange(0, p.len() as int) == p);
        assert(locals(files).subrange(0, p.len() as int) == q.subrange(0, p.len() as int));
    } else {
        assert(files.take(n) == files);
    }
}

proof fn lemma_record_fields(name: Seq<u8>, data: Seq<u8>)
    ensures
        ({
            let rec = local_record(name, data);
            let h = 39 + 2 * name.len() as int;
            &&& rec.len() == h + data.len()
            &&& rec.subrange(0, 4) == seq![0x50u8, 0x4bu8, 3u8, 4u8]
            &&& rec.subrange(14, 18) == le32(crc32_of(data) as nat)
            &&& rec.subrange(18, 22) == le32(data.len())
            &&& rec.subrange(22, 26) == le32(data.len())
            &&& rec.subrange(h, h + data.len()) == data
        }),
{
    lemma_record_lens(name, data, 0);
    reveal(local_record);
    let rec = local_record(name, data);
    let h = 39 + 2 * name.len() as int;
    assert(unicode_path_field(name).len() == name.len() + 9);
    assert(rec.subrange(0, 4) =~= seq![0x50u8, 0x4bu8, 3u8, 4u8]);
    assert(rec.subrange(14, 18) =~= le32(crc32_of(data) as nat));
    assert(rec.subrange(18, 22) =~= le32(data.len()));
    assert(rec.subrange(22, 26) =~= le32(data.len()));
    assert(rec.subrange(h, h + data.len()) =~= data);
}

proof fn lemma_sub_of_sub(z: Seq<u8>, n: int, off: int, rec: Seq<u8>, a: int, b: int)
    requires
        0 <= off,
        off + rec.len() <= n <= z.len(),
        z.subrange(0, n).subrange(off, off + rec.len()) == rec,
        0 <= a <= b <= rec.len(),
    ensures
        z.subrange(off + a, off + b) == rec.subrange(a, b),
{
    assert(z.subrange(off + a, off + b) =~= rec.subrange(a, b)) by {
        assert forall|k: int| 0 <= k < b - a implies z.subrange(off + a, off + b)[k] == rec.subrange(a, b)[k] by {
            assert(z.subrange(0, n).subrange(off, off + rec.len())[a + k] == rec[a + k]);
        }
    }
}

/// In the bytes of an archive, the local record of entry `i` starts where
/// the records before it end: it opens with the local header signature,
/// holds the CRC-32 of the contents, and then the contents as given.
pub proof fn lemma_entry_stored(files: Seq<(Seq<u8>, Seq<u8>)>, i: int)
    requires
        0 <= i < files.len(),
    ensures
        ({
            let off = locals(files.take(i)).len() as int;
            let name = files[i].0;
            let data = files[i].1;
            let z = zip_bytes(files);
            let start = off + 39 + 2 * name.len();
            &&& z.subrange(off, off + 4) == seq![0x50u8, 0x4bu8, 3u8, 4u8]
            &&& z.subrange(off + 14, off + 18) == le32(crc32_of(data) as nat)
            &&& z.subrange(off + 18, off + 22) == le32(data.len())
            &&& z.subrange(off + 22, off + 26) == le32(data.len())
            &&& z.subrange(start, start + data.len()) == data
        }),
{
    let off = locals(files.take(i)).len() as int;
    let name = files[i].0;
    let data = files[i].1;
    lemma_locals_prefix(files, i + 1);
    let a = files.take(i + 1);
    assert(a.drop_last() == files.take(i));
    assert(a.last() == files[i]);
    let rec = local_record(name, data);
    lemma_record_fields(name, data);
    assert(locals(a) == locals(files.take(i)) + rec);
    let z = zip_bytes(files);
    let n = locals(a).len() as int;
    assert(z.subrange(0, n) == locals(a));
    assert(locals(a).subrange(off, off + rec.len()) =~= rec);
    let h = 39 + 2 * name.len() as int;
    lemma_sub_of_sub(z, n, off, rec, 0, 4);
    lemma_sub_of_sub(z, n, off, rec, 14, 18);
    lemma_sub_of_sub(z, n, off, rec, 18, 22);
    lemma_sub_of_sub(z, n, off, rec, 22, 26);
    lemma_sub_of_sub(z, n, off, rec, h, h + data.len());
}


proof fn lemma_centrals_prefix(files: Seq<(Seq<u8>, Seq<u8>)>, n: int)
    requires
        0 <= n <= files.len(),
    ensures
        centrals(files).len() >= centrals(files.take(n)).len(),
        centrals(files).subrange(0, centrals(files.take(n)).len() as int) == centrals(files.take(n)),
    decreases files.len() - n,
{
    if n < files.len() {
        lemma_centrals_prefix(files, n + 1);
        let a = files.take(n + 1);
        assert(a.drop_last() == files.take(n));
        let p = centrals(files.take(n));
        let q = centrals(a);
        assert(q.subrange(0, p.len() as int) == p);
        assert(centrals(files).subrange(0, p.len() as int) == q.subrange(0, p.len() as int));
    } else {
        assert(files.take(n) == files);
    }
}

proof fn lemma_central_fields(name: Seq<u8>, data: Seq<u8>, offset: nat)
    ensures
        ({
            let rec = central_record(name, data, offset);
            &&& rec.len() == 55 + 2 * name.len()
            &&& rec.subrange(0, 4) == seq![0x50u8, 0x4bu8, 1u8, 2u8]
            &&& rec.subrange(16, 20) == le32(crc32_of(data) as nat)
            &&& rec.subrange(20, 24) == le32(data.len())
            &&& rec.subrange(24, 28) == le32(data.len())
            &&& rec.subrange(42, 46) == le32(offset)
        }),
{
    lemma_record_lens(name, data, offset);
    reveal(central_record);
    let rec = central_record(name, data, offset);
    assert(unicode_path_field(name).len() == name.len() + 9);
    assert(rec.subrange(0, 4) =~= seq![0x50u8, 0x4bu8, 1u8, 2u8]);
    assert(rec.subrange(16, 20) =~= le32(crc32_of(data) as nat));
    assert(rec.subrange(20, 24) =~= le32(data.len()));
    assert(rec.subrange(24, 28) =~= le32(data.len()));
    assert(rec.subrange(42, 46) =~= le32(offset));
}

/// In the bytes of an archive, the central record of entry `i` follows the
/// local records and the central records before it: it holds the CRC-32 of
/// the contents, their size twice, and where the entry's local record starts.
pub proof fn lemma_central_entry(files: Seq<(Seq<u8>, Seq<u8>)>, i: int)
    requires
        0 <= i < files.len(),
    ensures
        ({
            let c = (locals(files).len() + centrals(files.take(i)).len()) as int;
            let data = files[i].1;
            let z = zip_bytes(files);
            &&& z.subrange(c, c + 4) == seq![0x50u8, 0x4bu8, 1u8, 2u8]
            &&& z.subrange(c + 16, c + 20) == le32(crc32_of(data) as nat)
            &&& z.subrange(c + 20, c + 24) == le32(data.len())
            &&& z.subrange(c + 24, c + 28) == le32(data.len())
            &&& z.subrange(c + 42, c + 46) == le32(locals(files.take(i)).len())
        }),
{
    let l = locals(files).len() as int;
    let ci = centrals(files.take(i)).len() as int;
    let a = files.take(i + 1);
    assert(a.drop_last() == files.take(i));
    assert(a.last() == files[i]);
    lemma_centrals_prefix(files, i + 1);
    let rec = central_record(files[i].0, files[i].1, locals(files.take(i)).len());
    lemma_central_fields(files[i].0, files[i].1, locals(files.take(i)).len());
    assert(centrals(a) == centrals(files.take(i)) + rec);
    let z = zip_bytes(files);
    let n = l + centrals(a).len();
    assert(z.subrange(0, n) =~= locals(files) + centrals(a)) by {
        assert(centrals(files).subrange(0, centrals(a).len() as int) == centrals(a));
        assert forall|k: int| 0 <= k < n implies z.subrange(0, n)[k] == (locals(files) + centrals(a))[k] by {
            if k >= l {
                assert(centrals(files).subrange(0, centrals(a).len() as int)[k - l] == centrals(a)[k - l]);
            }
        }
    }
    assert(z.subrange(0, n).subrange(l + ci, l + ci + rec.len()) =~= rec);
    lemma_sub_of_sub(z, n, l + ci, rec, 0, 4);
    lemma_sub_of_sub(z, n, l + ci, rec, 16, 20);
    lemma_sub_of_sub(z, n, l + ci, rec, 20, 24);
    lemma_sub_of_sub(z, n, l + ci, rec, 24, 28);
    lemma_sub_of_sub(z, n, l + ci, rec, 42, 46);
}

} // verus!
