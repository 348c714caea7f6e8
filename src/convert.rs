//! One conversion task: errors, the metadata gathered over its files, and
//! the conversion of one file.

use vstd::prelude::*;
use vstd::string::StringSliceAdditionalSpecFns;
use vstd::utf8::encode_utf8;
use crate::archive::{zip_bytes, ArchiveError, ZipWriter, MAX_ENTRIES, MAX_NAME_LEN};
use crate::charset::{
    decode, detect_encoding, detect_from, encode, encode_result, encode_utf16, decode_result,
    is_encoding_name, label_encoding, label_known, lookup_label, spec_encode_utf16,
};
use crate::dict::Dict;
use crate::error::FormatError;
use crate::options::Options;
use crate::subtitle::{ass_to_srt, dict_model, spec_ass_to_srt, FormatFault};
use crate::text::str_eq;
use crate::walk::stem_path;

verus! {

/// Why a conversion task failed.
#[derive(Debug, Clone, PartialEq, Eq)]
pub enum ConvertError {
    /// The task holds no file.
    NoFile,
    /// An input, or an entry of an input archive, is larger than allowed.
    TooLarge { size: u64, limit: u64 },
    /// The dictionary could not be had.
    FetchDict(String),
    /// A charset label that the Encoding Standard does not know.
    EncodingLabel(String),
    /// No charset could be guessed for an input.
    EncodingDetect,
    /// The subtitle is not well formed.
    Format(FormatError),
    /// An archive could not be read or written.
    Zip(String),
    /// Reading an input failed.
    HostIo(String),
}

/// A `ConvertError` as a value of the specification; archive messages are
/// not modelled.
pub enum ConvertFault {
    NoFile,
    TooLarge { size: u64, limit: u64 },
    FetchDict(Seq<char>),
    EncodingLabel(Seq<char>),
    EncodingDetect,
    Format(FormatFault),
    Zip,
    HostIo(Seq<char>),
}

impl View for ConvertError {
    type V = ConvertFault;

    open spec fn view(&self) -> ConvertFault {
        match self {
            ConvertError::NoFile => ConvertFault::NoFile,
            ConvertError::TooLarge { size, limit } => ConvertFault::TooLarge { size: *size, limit: *limit },
            ConvertError::FetchDict(m) => ConvertFault::FetchDict(m@),
            ConvertError::EncodingLabel(l) => ConvertFault::EncodingLabel(l@),
            ConvertError::EncodingDetect => ConvertFault::EncodingDetect,
            ConvertError::Format(f) => ConvertFault::Format(f@),
            ConvertError::Zip(_) => ConvertFault::Zip,
            ConvertError::HostIo(m) => ConvertFault::HostIo(m@),
        }
    }
}

/// The charsets used and whether any text was replaced, over the files of
/// a task.
pub struct ConvertMeta {
    pub input_encoding: Vec<String>,
    pub output_encoding: Vec<String>,
    pub decode_error: bool,
    pub encode_error: bool,
}

pub struct MetaModel {
    pub inputs: Set<Seq<char>>,
    pub outputs: Set<Seq<char>>,
    pub decode_error: bool,
    pub encode_error: bool,
}

pub open spec fn names_set(v: Seq<String>) -> Set<Seq<char>> {
    Set::new(|n: Seq<char>| exists|i: int| 0 <= i < v.len() && (#[trigger] v[i])@ == n)
}

/// Metadata of two sets of files together.
pub open spec fn merge_meta(a: MetaModel, b: MetaModel) -> MetaModel {
    MetaModel {
        inputs: a.inputs.union(b.inputs),
        outputs: a.outputs.union(b.outputs),
        decode_error: a.decode_error || b.decode_error,
        encode_error: a.encode_error || b.encode_error,
    }
}

/// Adds `s` to the names of `v` unless it is there.
fn insert_name(v: &mut Vec<String>, s: String)
    ensures
        names_set(final(v)@) == names_set(old(v)@).insert(s@),
{
    let mut i: usize = 0;
    while i < v.len()
        invariant
            i <= v@.len(),
            forall|j: int| 0 <= j < i ==> (#[trigger] v@[j])@ != s@,
        decreases v@.len() - i,
    {
        if v[i] == s {
            assert(names_set(v@) =~= names_set(v@).insert(s@));
            return;
        }
        i += 1;
    }
    let ghost before = v@;
    let ghost sv = s@;
    v.push(s);
    assert(names_set(v@) =~= names_set(before).insert(sv)) by {
        assert forall|n: Seq<char>| names_set(v@).contains(n) implies names_set(before).insert(sv).contains(n) by {
            let i = choose|i: int| 0 <= i < v@.len() && (#[trigger] v@[i])@ == n;
            if i < before.len() {
                assert(before[i]@ == n);
            }
        }
        assert forall|n: Seq<char>| names_set(before).insert(sv).contains(n) implies names_set(v@).contains(n) by {
            if n == sv {
                assert(v@[before.len() as int]@ == n);
            } else {
                let i = choose|i: int| 0 <= i < before.len() && (#[trigger] before[i])@ == n;
                assert(v@[i]@ == n);
            }
        }
    }
}

impl ConvertMeta {
    pub open spec fn view(&self) -> MetaModel {
        MetaModel {
            inputs: names_set(self.input_encoding@),
            outputs: names_set(self.output_encoding@),
            decode_error: self.decode_error,
            encode_error: self.encode_error,
        }
    }

    /// No charset used yet, no replacement.
    pub fn new() -> (r: Self)
        ensures
            r@.inputs == Set::<Seq<char>>::empty(),
            r@.outputs == Set::<Seq<char>>::empty(),
            !r@.decode_error,
            !r@.encode_error,
    {
        let r = ConvertMeta {
            input_encoding: Vec::new(),
            output_encoding: Vec::new(),
            decode_error: false,
            encode_error: false,
        };
        assert(names_set(r.input_encoding@) =~= Set::<Seq<char>>::empty());
        assert(names_set(r.output_encoding@) =~= Set::<Seq<char>>::empty());
        r
    }

    /// Takes in the metadata of more files: charsets are joined, error
    /// flags or-ed.
    pub fn add_assign(&mut self, rhs: ConvertMeta)
        ensures
            final(self)@ == merge_meta(old(self)@, rhs@),
    {
        let ConvertMeta { input_encoding, output_encoding, decode_error, encode_error } = rhs;
        self.add_names(input_encoding, true);
        self.add_names(output_encoding, false);
        self.decode_error = self.decode_error || decode_error;
        self.encode_error = self.encode_error || encode_error;
        assert(self@ == merge_meta(old(self)@, rhs@));
    }

    fn add_names(&mut self, names: Vec<String>, input: bool)
        ensures
            input ==> final(self)@.inputs == old(self)@.inputs.union(names_set(names@)),
            input ==> final(self)@.outputs == old(self)@.outputs,
            !input ==> final(self)@.outputs == old(self)@.outputs.union(names_set(names@)),
            !input ==> final(self)@.inputs == old(self)@.inputs,
            final(self).decode_error == old(self).decode_error,
            final(self).encode_error == old(self).encode_error,
    {
        let ghost all = names@;
        let ghost base = if input { self@.inputs } else { self@.outputs };
        let mut names = names;
        let mut rest: Vec<String> = Vec::new();
        let mut k: usize = 0;
        while k < names.len()
            invariant
                k <= names@.len(),
                names@ == all,
                self.decode_error == old(self).decode_error,
                self.encode_error == old(self).encode_error,
                input ==> self@.outputs == old(self)@.outputs,
                !input ==> self@.inputs == old(self)@.inputs,
                input ==> self@.inputs == base.union(names_set(all.take(k as int))),
                !input ==> self@.outputs == base.union(names_set(all.take(k as int))),
            decreases names@.len() - k,
        {
            let n = names[k].clone();
            if input {
                insert_name(&mut self.input_encoding, n);
            } else {
                insert_name(&mut self.output_encoding, n);
            }
            assert(names_set(all.take(k + 1)) =~= names_set(all.take(k as int)).insert(all[k as int]@)) by {
                assert forall|x: Seq<char>| names_set(all.take(k + 1)).contains(x) implies names_set(all.take(k as int)).insert(all[k as int]@).contains(x) by {
                    let i = choose|i: int| 0 <= i < all.take(k + 1).len() && (#[trigger] all.take(k + 1)[i])@ == x;
                    if i < k {
                        assert(all.take(k as int)[i] == all.take(k + 1)[i]);
                    }
                }
                assert forall|x: Seq<char>| names_set(all.take(k as int)).insert(all[k as int]@).contains(x) implies names_set(all.take(k + 1)).contains(x) by {
                    if x == all[k as int]@ {
                        assert(all.take(k + 1)[k as int] == all[k as int]);
                    } else {
                        let i = choose|i: int| 0 <= i < all.take(k as int).len() && (#[trigger] all.take(k as int)[i])@ == x;
                        assert(all.take(k + 1)[i] == all.take(k as int)[i]);
                    }
                }
            }
            k += 1;
        }
        assert(all.take(k as int) == all);
    }

    /// Whether any text was replaced.
    pub fn has_error(&self) -> (r: bool)
        ensures
            r == (self@.decode_error || self@.encode_error),
    {
        self.decode_error || self.encode_error
    }
}

/// The message of an archive failure.
pub fn archive_error_message(e: ArchiveError) -> (r: String)
    ensures
        e == ArchiveError::NameTooLong ==> r@ == "file name too long"@,
        e == ArchiveError::TooManyEntries ==> r@ == "too many files"@,
        e == ArchiveError::ArchiveTooLarge ==> r@ == "archive too large"@,
{
    match e {
        ArchiveError::NameTooLong => String::from_str("file name too long"),
        ArchiveError::TooManyEntries => String::from_str("too many files"),
        ArchiveError::ArchiveTooLarge => String::from_str("archive too large"),
    }
}

/// Converts decoded ASS text to SRT text under `opts`; events with an
/// Effect are always dropped.
pub fn convert_text(text: &str, opts: &Options, dict: Option<&Dict>) -> (r: Result<String, ConvertError>)
    requires
        dict matches Some(d) ==> d.wf(),
    ensures
        match spec_ass_to_srt(text@, true, opts.line_strip, dict_model(dict), opts.offset_millis) {
            Ok(s) => r is Ok && r->Ok_0@ == s,
            Err(e) => r matches Err(ConvertError::Format(fe)) && fe@ == e,
        },
{
    match ass_to_srt(text, true, opts.line_strip, dict, opts.offset_millis) {
        Ok(s) => Ok(s),
        Err(e) => Err(ConvertError::Format(e)),
    }
}

pub open spec fn label_bytes(s: &String) -> Seq<u8> {
    encode_utf8(s@)
}

pub open spec fn empty_meta() -> MetaModel {
    MetaModel {
        inputs: Set::empty(),
        outputs: Set::empty(),
        decode_error: false,
        encode_error: false,
    }
}

pub open spec fn utf16be_name() -> Seq<char> {
    seq!['U', 'T', 'F', '-', '1', '6', 'B', 'E']
}

pub open spec fn utf16le_name() -> Seq<char> {
    seq!['U', 'T', 'F', '-', '1', '6', 'L', 'E']
}

/// SRT text in the encoding named `enc`: the bytes, the encoding used, and
/// whether anything was replaced. UTF-16, which the outside encoder does
/// not write, is written here.
pub open spec fn spec_output(enc: Seq<char>, s: Seq<char>, bom: bool) -> (Seq<u8>, Seq<char>, bool) {
    if enc == utf16be_name() {
        (spec_encode_utf16(s, true, bom), enc, false)
    } else if enc == utf16le_name() {
        (spec_encode_utf16(s, false, bom), enc, false)
    } else {
        encode_result(enc, s)
    }
}

/// The encoding an input is read in: the one its label names, or the one
/// guessed where the label is empty.
pub open spec fn input_encoding(input: Seq<u8>, opts: Options) -> Option<Seq<char>> {
    if opts.ass_charset@.len() == 0 {
        detect_from(input, 0)
    } else if label_known(label_bytes(&opts.ass_charset)) {
        Some(label_encoding(label_bytes(&opts.ass_charset)))
    } else {
        None
    }
}

/// One file converted: its SRT bytes and metadata. The output is in the
/// encoding that `opts.srt_charset` names, or, where that is empty, in the
/// encoding that the input was read in.
#[verifier::opaque]
pub open spec fn spec_convert_single(
    input: Seq<u8>,
    opts: Options,
    dict: Option<Map<Seq<char>, Seq<char>>>,
) -> Result<(Seq<u8>, MetaModel), ConvertFault> {
    if opts.ass_charset@.len() > 0 && !label_known(label_bytes(&opts.ass_charset)) {
        Err(ConvertFault::EncodingLabel(opts.ass_charset@))
    } else if input_encoding(input, opts) is None {
        Err(ConvertFault::EncodingDetect)
    } else if opts.srt_charset@.len() > 0 && !label_known(label_bytes(&opts.srt_charset)) {
        Err(ConvertFault::EncodingLabel(opts.srt_charset@))
    } else {
        let (text, used, decode_error) = decode_result(input_encoding(input, opts)->Some_0, input);
        let out = if opts.srt_charset@.len() == 0 {
            used
        } else {
            label_encoding(label_bytes(&opts.srt_charset))
        };
        match spec_ass_to_srt(text, true, opts.line_strip, dict, opts.offset_millis) {
            Err(e) => Err(ConvertFault::Format(e)),
            Ok(s) => {
                let (bytes, out_used, encode_error) = spec_output(out, s, opts.srt_bom);
                Ok(
                    (
                        bytes,
                        MetaModel {
                            inputs: set![used],
                            outputs: set![out_used],
                            decode_error,
                            encode_error,
                        },
                    ),
                )
            },
        }
    }
}

fn output_bytes(enc: &str, srt: &str, bom: bool) -> (r: (Vec<u8>, String, bool))
    requires
        is_encoding_name(enc@),
    ensures
        (r.0@, r.1@, r.2) == spec_output(enc@, srt@, bom),
{
    let be = str_eq(enc, "UTF-16BE");
    let le = str_eq(enc, "UTF-16LE");
    proof {
        reveal_strlit("UTF-16BE");
        reveal_strlit("UTF-16LE");
        assert("UTF-16BE"@ == utf16be_name());
        assert("UTF-16LE"@ == utf16le_name());
    }
    if be || le {
        let bytes = encode_utf16(srt, be, bom);
        (bytes, String::from_str(enc), false)
    } else {
        encode(enc, srt)
    }
}

/// Converts one ASS file's bytes into SRT bytes, with the charsets used.
///
/// The input is read in the charset `opts.ass_charset` names, or in a
/// guessed one where that is empty; the output is written in the charset
/// `opts.srt_charset` names, or in the input's where that is empty. The text
/// is converted as `convert_text` says; UTF-16 output starts with a byte
/// order mark where `opts.srt_bom` is set.
pub fn convert_single_file(input: &[u8], opts: &Options, dict: Option<&Dict>) -> (r: Result<
    (Vec<u8>, ConvertMeta),
    ConvertError,
>)
    requires
        dict matches Some(d) ==> d.wf(),
    ensures
        match spec_convert_single(input@, *opts, dict_model(dict)) {
            Ok((bytes, meta)) => r matches Ok((b, m)) && b@ == bytes && m@ == meta,
            Err(e) => r matches Err(x) && x@ == e,
        },
{
    reveal(spec_convert_single);
    let ass_label = opts.ass_charset.as_str();
    let enc = if ass_label.is_empty() {
        match detect_encoding(input) {
            Some(e) => e,
            None => return Err(ConvertError::EncodingDetect),
        }
    } else {
        match lookup_label(ass_label) {
            Some(e) => e,
            None => return Err(ConvertError::EncodingLabel(opts.ass_charset.clone())),
        }
    };
    let srt_label = opts.srt_charset.as_str();
    let out_label = if srt_label.is_empty() {
        None
    } else {
        match lookup_label(srt_label) {
            Some(e) => Some(e),
            None => return Err(ConvertError::EncodingLabel(opts.srt_charset.clone())),
        }
    };
    let (text, used, decode_error) = decode(enc.as_str(), input);
    let srt = match convert_text(text.as_str(), opts, dict) {
        Ok(s) => s,
        Err(e) => return Err(e),
    };
    let out = match out_label {
        Some(o) => o,
        None => used.clone(),
    };
    let (bytes, out_used, encode_error) = output_bytes(out.as_str(), srt.as_str(), opts.srt_bom);
    let mut meta = ConvertMeta::new();
    let ghost uv = used@;
    let ghost ov = out_used@;
    insert_name(&mut meta.input_encoding, used);
    insert_name(&mut meta.output_encoding, out_used);
    meta.decode_error = decode_error;
    meta.encode_error = encode_error;
    assert(meta@.inputs =~= set![uv]);
    assert(meta@.outputs =~= set![ov]);
    Ok((bytes, meta))
}

/// The name an entry's output goes under in the archive.
pub open spec fn output_name(path: Seq<char>) -> Seq<u8> {
    encode_utf8(stem_path(path) + seq!['.', 's', 'r', 't'])
}

pub open spec fn entry_model(e: InputEntry) -> (Seq<char>, Seq<u8>) {
    (e.path@, e.bytes@)
}

/// The archive files and merged metadata of the first `n` entries.
pub open spec fn spec_convert_entries(
    es: Seq<(Seq<char>, Seq<u8>)>,
    n: nat,
    opts: Options,
    dict: Option<Map<Seq<char>, Seq<char>>>,
) -> Result<(Seq<(Seq<u8>, Seq<u8>)>, MetaModel), ConvertFault>
    decreases n,
{
    if n == 0 {
        Ok((seq![], empty_meta()))
    } else {
        match spec_convert_entries(es, (n - 1) as nat, opts, dict) {
            Err(e) => Err(e),
            Ok((files, meta)) => match spec_convert_single(es[n - 1].1, opts, dict) {
                Err(e) => Err(e),
                Ok((bytes, m)) => {
                    let name = output_name(es[n - 1].0);
                    if name.len() > MAX_NAME_LEN || files.len() >= MAX_ENTRIES || zip_bytes(
                        files.push((name, bytes)),
                    ).len() > u32::MAX {
                        Err(ConvertFault::Zip)
                    } else {
                        Ok((files.push((name, bytes)), merge_meta(meta, m)))
                    }
                },
            },
        }
    }
}

pub const MIME_SRT: &'static str = "text/srt";

pub const MIME_ZIP: &'static str = "application/zip";

/// The outcome of a task: the output file, its media type, and metadata.
pub struct TaskResult {
    pub bytes: Vec<u8>,
    pub mime: String,
    pub meta: ConvertMeta,
}

/// One subtitle to convert: the path it goes under, and its bytes.
pub struct InputEntry {
    pub path: String,
    pub bytes: Vec<u8>,
}

proof fn lemma_entries_err(
    es: Seq<(Seq<char>, Seq<u8>)>,
    k: nat,
    n: nat,
    opts: Options,
    dict: Option<Map<Seq<char>, Seq<char>>>,
)
    requires
        k <= n,
        spec_convert_entries(es, k, opts, dict) is Err,
    ensures
        spec_convert_entries(es, n, opts, dict) == spec_convert_entries(es, k, opts, dict),
    decreases n,
{
    if n > k {
        lemma_entries_err(es, k, (n - 1) as nat, opts, dict);
    }
}

/// Converts each entry and stores the results, named after the entries
/// with the extension `srt`, in one archive, with the metadata of all of
/// them merged. The first failure ends the task.
pub fn convert_entries(entries: &Vec<InputEntry>, opts: &Options, dict: Option<&Dict>) -> (r: Result<
    TaskResult,
    ConvertError,
>)
    requires
        dict matches Some(d) ==> d.wf(),
    ensures
        match spec_convert_entries(
            entries@.map_values(|e: InputEntry| entry_model(e)),
            entries@.len(),
            *opts,
            dict_model(dict),
        ) {
            Ok((files, meta)) => r matches Ok(t) && t.bytes@ == zip_bytes(files) && t.meta@ == meta
                && t.mime@ == MIME_ZIP@,
            Err(e) => r matches Err(x) && x@ == e,
        },
{
    let ghost es = entries@.map_values(|e: InputEntry| entry_model(e));
    let mut zip = ZipWriter::new();
    let mut meta = ConvertMeta::new();
    let mut i: usize = 0;
    assert(meta@ == empty_meta());
    while i < entries.len()
        invariant
            i <= entries@.len(),
            es == entries@.map_values(|e: InputEntry| entry_model(e)),
            zip.wf(),
            spec_convert_entries(es, i as nat, *opts, dict_model(dict)) == Ok::<
                (Seq<(Seq<u8>, Seq<u8>)>, MetaModel),
                ConvertFault,
            >((zip.files(), meta@)),
            dict matches Some(d) ==> d.wf(),
        decreases entries@.len() - i,
    {
        let e = &entries[i];
        assert(es[i as int] == (e.path@, e.bytes@));
        let ghost files0 = zip.files();
        let ghost meta0 = meta@;
        let (output, file_meta) = match convert_single_file(e.bytes.as_slice(), opts, dict) {
            Ok(x) => x,
            Err(err) => {
                proof {
                    lemma_entries_err(es, (i + 1) as nat, entries@.len(), *opts, dict_model(dict));
                }
                return Err(err);
            },
        };
        let name = crate::walk::srt_path(e.path.as_str());
        let ns = name.as_str();
        assert(ns.spec_bytes() == output_name(e.path@));
        match zip.write_file(ns, output.as_slice()) {
            Ok(()) => {},
            Err(err) => {
                proof {
                    lemma_entries_err(es, (i + 1) as nat, entries@.len(), *opts, dict_model(dict));
                }
                return Err(ConvertError::Zip(archive_error_message(err)));
            },
        }
        meta.add_assign(file_meta);
        assert(zip.files() == files0.push((output_name(es[i as int].0), output@)));
        i += 1;
    }
    assert(es.len() == entries@.len());
    let bytes = zip.close();
    let mime = String::from_str(MIME_ZIP);
    Ok(TaskResult { bytes, mime, meta })
}

/// The order in which files are taken in does not change the metadata.
pub proof fn lemma_merge_commutative(a: MetaModel, b: MetaModel)
    ensures
        merge_meta(a, b) == merge_meta(b, a),
{
    assert(a.inputs.union(b.inputs) =~= b.inputs.union(a.inputs));
    assert(a.outputs.union(b.outputs) =~= b.outputs.union(a.outputs));
}

/// Nor does the grouping of files.
pub proof fn lemma_merge_associative(a: MetaModel, b: MetaModel, c: MetaModel)
    ensures
        merge_meta(merge_meta(a, b), c) == merge_meta(a, merge_meta(b, c)),
{
    assert(a.inputs.union(b.inputs).union(c.inputs) =~= a.inputs.union(b.inputs.union(c.inputs)));
    assert(a.outputs.union(b.outputs).union(c.outputs) =~= a.outputs.union(b.outputs.union(c.outputs)));
}

} // verus!
