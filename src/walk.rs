//! Decisions of the walk over a task's inputs: which files are archives or
//! subtitles, what an entry's output is called, and the size ceiling.

use vstd::prelude::*;
use std::io::Cursor;
use zip::ZipArchive;
use crate::convert::{entry_model, ConvertError, ConvertFault, InputEntry};
use crate::unpack::{
    archive_bytes, archive_len, entry_data, entry_info, open_archive, zip_entries, zip_entry_data,
    zip_entry_opens, zip_error_text, zip_opens,
};
use crate::text::{chars_of, lower, lower_char, string_of};

verus! {

/// The largest input, or archive entry, that a task takes: 100 MiB.
pub const FILE_SIZE_LIMIT: u64 = 104857600;

/// The index of the last `c` in `s` before `i`, or -1.
pub open spec fn last_index(s: Seq<char>, c: char, i: int) -> int
    decreases i,
{
    if i <= 0 || i > s.len() {
        -1
    } else if s[i - 1] == c {
        i - 1
    } else {
        last_index(s, c, i - 1)
    }
}

/// The index of the dot before a path's extension, or -1 where its last
/// component has none (a leading dot starts no extension).
pub open spec fn ext_dot(p: Seq<char>) -> int {
    let name_start = last_index(p, '/', p.len() as int) + 1;
    let d = last_index(p, '.', p.len() as int);
    if d > name_start {
        d
    } else {
        -1
    }
}

/// `p` without its extension.
pub open spec fn stem_path(p: Seq<char>) -> Seq<char> {
    if ext_dot(p) >= 0 {
        p.take(ext_dot(p))
    } else {
        p
    }
}

/// The extension of `p`, lower-cased; empty where there is none.
pub open spec fn extension(p: Seq<char>) -> Seq<char> {
    if ext_dot(p) >= 0 {
        lower(p.skip(ext_dot(p) + 1))
    } else {
        seq![]
    }
}

pub open spec fn spec_is_subtitle(p: Seq<char>) -> bool {
    extension(p) == seq!['a', 's', 's'] || extension(p) == seq!['s', 's', 'a']
}

pub open spec fn spec_is_zip(p: Seq<char>) -> bool {
    extension(p) == seq!['z', 'i', 'p']
}

proof fn lemma_last_index(s: Seq<char>, c: char, i: int)
    requires
        0 <= i <= s.len(),
    ensures
        -1 <= last_index(s, c, i) < i,
    decreases i,
{
    if i > 0 && s[i - 1] != c {
        lemma_last_index(s, c, i - 1);
    }
}

/// One past the last `c` in `s`, or 0.
fn last_index_exec(s: &Vec<char>, c: char) -> (r: usize)
    ensures
        r as int == last_index(s@, c, s@.len() as int) + 1,
        r <= s@.len(),
{
    let mut k = s.len();
    proof {
        lemma_last_index(s@, c, k as int);
    }
    while k > 0 && s[k - 1] != c
        invariant
            k <= s@.len(),
            last_index(s@, c, k as int) == last_index(s@, c, s@.len() as int),
        decreases k,
    {
        k -= 1;
    }
    k
}

fn ext_dot_exec(s: &Vec<char>) -> (r: Option<usize>)
    ensures
        ext_dot(s@) >= 0 <==> r is Some,
        r is Some ==> r->Some_0 as int == ext_dot(s@) && r->Some_0 < s@.len(),
{
    proof {
        lemma_last_index(s@, '.', s@.len() as int);
    }
    let name_start = last_index_exec(s, '/');
    let dot_after = last_index_exec(s, '.');
    if dot_after > name_start && dot_after - name_start > 1 {
        Some(dot_after - 1)
    } else {
        None
    }
}

fn extension_exec(s: &Vec<char>) -> (r: Vec<char>)
    ensures
        r@ == extension(s@),
{
    let mut r: Vec<char> = Vec::new();
    let start = match ext_dot_exec(s) {
        Some(d) => {
            assert(d < s.len());
            d + 1
        },
        None => return r,
    };
    let mut k = start;
    while k < s.len()
        invariant
            start <= k <= s@.len(),
            start == ext_dot(s@) + 1,
            r@ == lower(s@.subrange(start as int, k as int)),
        decreases s@.len() - k,
    {
        r.push(if 'A' <= s[k] && s[k] <= 'Z' {
            ((s[k] as u32) + 32) as u8 as char
        } else {
            s[k]
        });
        k += 1;
        assert(r@ =~= lower(s@.subrange(start as int, k as int)));
    }
    assert(s@.subrange(start as int, k as int) == s@.skip(start as int));
    r
}

fn is_ext(e: &Vec<char>, a: char, b: char, c: char) -> (r: bool)
    ensures
        r == (e@ == seq![a, b, c]),
{
    let r = e.len() == 3 && e[0] == a && e[1] == b && e[2] == c;
    if r {
        assert(e@ =~= seq![a, b, c]);
    }
    r
}

/// Whether `name` is an ASS or SSA subtitle, by its extension (any case).
pub fn is_subtitle_name(name: &str) -> (r: bool)
    ensures
        r == spec_is_subtitle(name@),
{
    let v = chars_of(name);
    let e = extension_exec(&v);
    is_ext(&e, 'a', 's', 's') || is_ext(&e, 's', 's', 'a')
}

/// Whether `name` is a ZIP archive, by its extension (any case).
pub fn is_zip_name(name: &str) -> (r: bool)
    ensures
        r == spec_is_zip(name@),
{
    let v = chars_of(name);
    let e = extension_exec(&v);
    is_ext(&e, 'z', 'i', 'p')
}

/// `p` with its extension replaced by `srt`.
pub fn srt_path(p: &str) -> (r: String)
    ensures
        r@ == stem_path(p@) + seq!['.', 's', 'r', 't'],
{
    let v = chars_of(p);
    let d = ext_dot_exec(&v);
    let end = match d {
        Some(x) => x,
        None => v.len(),
    };
    let mut r: Vec<char> = Vec::new();
    let mut k: usize = 0;
    while k < end
        invariant
            k <= end <= v@.len(),
            r@ == v@.take(k as int),
        decreases end - k,
    {
        r.push(v[k]);
        k += 1;
        assert(r@ == v@.take(k as int));
    }
    if d.is_none() {
        assert(v@.take(end as int) == v@);
    }
    let ghost stem = r@;
    assert(stem == stem_path(p@));
    r.push('.');
    r.push('s');
    r.push('r');
    r.push('t');
    assert(r@ =~= stem_path(p@) + seq!['.', 's', 'r', 't']);
    string_of(r.as_slice())
}

/// What an entry of an archive is called among the outputs: where the task
/// has several inputs, it goes under a directory named after the archive.
pub open spec fn spec_entry_path(archive: Seq<char>, entry: Seq<char>, several: bool) -> Seq<char> {
    if several {
        stem_path(archive) + seq!['/'] + entry
    } else {
        entry
    }
}

pub fn entry_path(archive: &str, entry: &str, several: bool) -> (r: String)
    ensures
        r@ == spec_entry_path(archive@, entry@, several),
{
    if !several {
        return string_of(chars_of(entry).as_slice());
    }
    let v = chars_of(archive);
    let d = ext_dot_exec(&v);
    let end = match d {
        Some(x) => x,
        None => v.len(),
    };
    let mut r: Vec<char> = Vec::new();
    let mut k: usize = 0;
    while k < end
        invariant
            k <= end <= v@.len(),
            r@ == v@.take(k as int),
        decreases end - k,
    {
        r.push(v[k]);
        k += 1;
        assert(r@ == v@.take(k as int));
    }
    if d.is_none() {
        assert(v@.take(end as int) == v@);
    }
    assert(r@ == stem_path(archive@));
    r.push('/');
    let e = chars_of(entry);
    let ghost mid = r@;
    let mut j: usize = 0;
    while j < e.len()
        invariant
            j <= e@.len(),
            r@ == mid + e@.take(j as int),
        decreases e@.len() - j,
    {
        r.push(e[j]);
        j += 1;
        assert(r@ == mid + e@.take(j as int));
    }
    assert(e@.take(e@.len() as int) == e@);
    assert(r@ =~= stem_path(archive@) + seq!['/'] + entry@);
    string_of(r.as_slice())
}

/// Refuses an input of more than `limit` bytes.
pub fn check_size(size: u64, limit: u64) -> (r: Result<(), ConvertError>)
    ensures
        size <= limit <==> r is Ok,
        size > limit ==> r == Err::<(), ConvertError>(ConvertError::TooLarge { size, limit }),
{
    if size > limit {
        Err(ConvertError::TooLarge { size, limit })
    } else {
        Ok(())
    }
}

/// Whether a task with inputs named `names` gives one SRT file rather than
/// an archive: one input that is no archive.
pub fn single_output(names: &Vec<String>) -> (r: Result<bool, ConvertError>)
    ensures
        names@.len() == 0 <==> r is Err,
        names@.len() == 0 ==> r == Err::<bool, ConvertError>(ConvertError::NoFile),
        names@.len() > 0 ==> r == Ok::<bool, ConvertError>(
            names@.len() == 1 && !spec_is_zip(names@[0]@),
        ),
{
    if names.len() == 0 {
        return Err(ConvertError::NoFile);
    }
    if names.len() > 1 {
        return Ok(false);
    }
    Ok(!is_zip_name(names[0].as_str()))
}


pub open spec fn entry_models(v: Seq<InputEntry>) -> Seq<(Seq<char>, Seq<u8>)> {
    v.map_values(|e: InputEntry| entry_model(e))
}

pub open spec fn prepend_ok(
    p: Seq<(Seq<char>, Seq<u8>)>,
    r: Result<Seq<(Seq<char>, Seq<u8>)>, ConvertFault>,
) -> Result<Seq<(Seq<char>, Seq<u8>)>, ConvertFault> {
    match r {
        Ok(x) => Ok(p + x),
        Err(e) => Err(e),
    }
}

proof fn lemma_prepend_twice(
    a: Seq<(Seq<char>, Seq<u8>)>,
    b: Seq<(Seq<char>, Seq<u8>)>,
    r: Result<Seq<(Seq<char>, Seq<u8>)>, ConvertFault>,
)
    ensures
        prepend_ok(a, prepend_ok(b, r)) == prepend_ok(a + b, r),
{
    if let Ok(x) = r {
        assert(a + (b + x) == (a + b) + x);
    }
}

/// The subtitle entries of the archive in `bytes` from entry `i` on, under
/// the paths `entry_path` gives them; an entry with no safe path or another
/// extension is passed over. Each subtitle's size is checked against
/// `limit` before it is read.
pub open spec fn spec_walk_archive(
    bytes: Seq<u8>,
    archive: Seq<char>,
    several: bool,
    limit: u64,
    i: int,
) -> Result<Seq<(Seq<char>, Seq<u8>)>, ConvertFault>
    decreases zip_entries(bytes).len() - i,
{
    if i < 0 || i >= zip_entries(bytes).len() {
        Ok(seq![])
    } else if !zip_entry_opens(bytes, i) {
        Err(ConvertFault::Zip)
    } else {
        let (name, size) = zip_entries(bytes)[i];
        let rest = spec_walk_archive(bytes, archive, several, limit, i + 1);
        match name {
            Some(p) => if !spec_is_subtitle(p) {
                rest
            } else if size > limit {
                Err(ConvertFault::TooLarge { size, limit })
            } else {
                match zip_entry_data(bytes, i) {
                    None => Err(ConvertFault::Zip),
                    Some(d) => prepend_ok(seq![(spec_entry_path(archive, p, several), d)], rest),
                }
            },
            None => rest,
        }
    }
}

/// Reads the subtitle entries of an archive named `archive_name`.
pub fn walk_archive(
    archive_name: &str,
    a: &mut ZipArchive<Cursor<Vec<u8>>>,
    several: bool,
    limit: u64,
) -> (r: Result<Vec<InputEntry>, ConvertError>)
    ensures
        archive_bytes(*final(a)) == archive_bytes(*old(a)),
        match spec_walk_archive(archive_bytes(*old(a)), archive_name@, several, limit, 0) {
            Ok(es) => r matches Ok(v) && entry_models(v@) == es,
            Err(e) => r matches Err(x) && x@ == e,
        },
{
    let ghost b = archive_bytes(*a);
    let n = archive_len(a);
    let mut out: Vec<InputEntry> = Vec::new();
    let mut i: usize = 0;
    while i < n
        invariant
            i <= n == zip_entries(b).len(),
            archive_bytes(*a) == b,
            b == archive_bytes(*old(a)),
            spec_walk_archive(b, archive_name@, several, limit, 0) == prepend_ok(
                entry_models(out@),
                spec_walk_archive(b, archive_name@, several, limit, i as int),
            ),
        decreases n - i,
    {
        let ghost models = entry_models(out@);
        let (name, size) = match entry_info(a, i) {
            Ok(x) => x,
            Err(e) => return Err(ConvertError::Zip(zip_error_text(&e))),
        };
        if let Some(p) = name {
            if is_subtitle_name(p.as_str()) {
                if size > limit {
                    return Err(ConvertError::TooLarge { size, limit });
                }
                let bytes = match entry_data(a, i) {
                    Ok(d) => d,
                    Err(e) => return Err(ConvertError::Zip(zip_error_text(&e))),
                };
                let path = entry_path(archive_name, p.as_str(), several);
                let ghost item = (path@, bytes@);
                out.push(InputEntry { path, bytes });
                proof {
                    assert(entry_models(out@) =~= models + seq![item]);
                    lemma_prepend_twice(
                        models,
                        seq![item],
                        spec_walk_archive(b, archive_name@, several, limit, i + 1),
                    );
                }
            }
        }
        i += 1;
    }
    assert(entry_models(out@) + Seq::<(Seq<char>, Seq<u8>)>::empty() == entry_models(out@));
    Ok(out)
}

/// The inputs of a task flattened from input `i` on: an archive gives its
/// subtitle entries (under a directory named after it where `several`), a
/// subtitle is taken as it is, anything else is passed over. A subtitle
/// larger than `limit` ends the walk.
pub open spec fn spec_walk_inputs(
    files: Seq<(Seq<char>, Seq<u8>)>,
    several: bool,
    limit: u64,
    i: int,
) -> Result<Seq<(Seq<char>, Seq<u8>)>, ConvertFault>
    decreases files.len() - i,
{
    if i < 0 || i >= files.len() {
        Ok(seq![])
    } else {
        let (name, bytes) = files[i];
        let rest = spec_walk_inputs(files, several, limit, i + 1);
        if spec_is_zip(name) {
            if !zip_opens(bytes) {
                Err(ConvertFault::Zip)
            } else {
                match spec_walk_archive(bytes, name, several, limit, 0) {
                    Err(e) => Err(e),
                    Ok(x) => prepend_ok(x, rest),
                }
            }
        } else if spec_is_subtitle(name) {
            if bytes.len() > limit {
                Err(ConvertFault::TooLarge { size: bytes.len() as u64, limit })
            } else {
                prepend_ok(seq![(name, bytes)], rest)
            }
        } else {
            rest
        }
    }
}

/// Flattens the inputs of a task.
pub fn walk_inputs(files: Vec<InputEntry>, limit: u64) -> (r: Result<Vec<InputEntry>, ConvertError>)
    ensures
        match spec_walk_inputs(entry_models(files@), files@.len() > 1, limit, 0) {
            Ok(es) => r matches Ok(v) && entry_models(v@) == es,
            Err(e) => r matches Err(x) && x@ == e,
        },
{
    let ghost ms = entry_models(files@);
    let several = files.len() > 1;
    let n = files.len();
    let mut work = files;
    let mut out: Vec<InputEntry> = Vec::new();
    let mut i: usize = 0;
    while i < n
        invariant
            i <= n == work@.len() == ms.len(),
            ms == entry_models(files@),
            several == (ms.len() > 1),
            forall|j: int| i <= j < n ==> #[trigger] entry_model(work@[j]) == ms[j],
            spec_walk_inputs(ms, several, limit, 0) == prepend_ok(
                entry_models(out@),
                spec_walk_inputs(ms, several, limit, i as int),
            ),
        decreases n - i,
    {
        let ghost models = entry_models(out@);
        assert(entry_model(work@[i as int]) == ms[i as int]);
        let mut bytes: Vec<u8> = Vec::new();
        std::mem::swap(&mut bytes, &mut work[i].bytes);
        let ghost after = work@;
        proof {
            assert forall|j: int| i < j < n implies #[trigger] entry_model(work@[j]) == ms[j] by {
                assert(work@[j] == after[j]);
            }
        }
        let name = work[i].path.as_str();
        assert(name@ == ms[i as int].0 && bytes@ == ms[i as int].1);
        if is_zip_name(name) {
            let mut a = match open_archive(bytes) {
                Ok(a) => a,
                Err(e) => return Err(ConvertError::Zip(zip_error_text(&e))),
            };
            let inner = match walk_archive(name, &mut a, several, limit) {
                Ok(v) => v,
                Err(e) => return Err(e),
            };
            let ghost im = entry_models(inner@);
            let mut inner = inner;
            out.append(&mut inner);
            proof {
                assert(entry_models(out@) =~= models + im);
                lemma_prepend_twice(models, im, spec_walk_inputs(ms, several, limit, i + 1));
            }
        } else if is_subtitle_name(name) {
            if bytes.len() as u64 > limit {
                return Err(ConvertError::TooLarge { size: bytes.len() as u64, limit });
            }
            let path = crate::text::string_of(crate::text::chars_of(name).as_slice());
            let ghost item = (path@, bytes@);
            out.push(InputEntry { path, bytes });
            proof {
                assert(entry_models(out@) =~= models + seq![item]);
                lemma_prepend_twice(models, seq![item], spec_walk_inputs(ms, several, limit, i + 1));
            }
        }
        i += 1;
    }
    assert(entry_models(out@) + Seq::<(Seq<char>, Seq<u8>)>::empty() == entry_models(out@));
    Ok(out)
}

} // verus!
