//! Character encodings: detection, lookup by label, decoding and encoding.

use vstd::prelude::*;
use encoding_rs::Encoding;
use chardetng::EncodingDetector;
use vstd::string::StringSliceAdditionalSpecFns;
use vstd::utf8::encode_utf8;

verus! {

/// chardetng's `EncodingDetector`.
#[verifier::external_type_specification]
#[verifier::external_body]
pub struct ExEncodingDetector(chardetng::EncodingDetector);

// Encodings are held as their canonical names, which the Encoding Standard
// lists among the labels of each encoding.

/// A label of the Encoding Standard, once ASCII-lowercased and trimmed.
pub uninterp spec fn label_known(label: Seq<u8>) -> bool;

/// The canonical name of the encoding that a known label stands for.
pub uninterp spec fn label_encoding(label: Seq<u8>) -> Seq<char>;

/// `n` is the canonical name of an encoding.
pub open spec fn is_encoding_name(n: Seq<char>) -> bool {
    label_known(encode_utf8(n)) && label_encoding(encode_utf8(n)) == n
}

/// Relies on `Encoding::for_label`, then `Encoding::name`: the canonical
/// name of the encoding for the label, `None` for an unknown label.
#[verifier::external_body]
pub(crate) fn lookup_label(label: &str) -> (r: Option<String>)
    ensures
        r is Some <==> label_known(label.spec_bytes()),
        r matches Some(n) ==> n@ == label_encoding(label.spec_bytes()) && is_encoding_name(n@),
{
    Encoding::for_label(label.as_bytes()).map(|e| e.name().to_string())
}

/// The bytes fed to a detector so far.
pub uninterp spec fn fed_bytes(d: EncodingDetector) -> Seq<u8>;

/// Whether a stream holds a byte that the detector counts as non-ASCII.
pub uninterp spec fn non_ascii_in(fed: Seq<u8>) -> bool;

/// The detector's guess (a canonical name) for a stream that may go on, and
/// whether it is sure.
pub uninterp spec fn guess_of(fed: Seq<u8>) -> (Seq<char>, bool);

/// The detector's guess for a stream that has ended, and whether it is sure.
pub uninterp spec fn final_guess_of(fed: Seq<u8>) -> (Seq<char>, bool);

/// Relies on `EncodingDetector::new`: a detector that has seen no input.
pub assume_specification[ EncodingDetector::new ]() -> (r: EncodingDetector)
    ensures
        fed_bytes(r) == Seq::<u8>::empty(),
;

/// Relies on `EncodingDetector::feed` with `last` false, which cannot panic
/// here: the detector is closed only by `finish`, which takes it by value.
/// How the stream is cut into pieces does not matter to the detector.
/// Gives whether a non-ASCII byte has been seen so far.
#[verifier::external_body]
fn feed_chunk_seen(d: &mut EncodingDetector, input: &[u8], from: usize, to: usize) -> (r: bool)
    requires
        from <= to <= input@.len(),
    ensures
        fed_bytes(*final(d)) == fed_bytes(*old(d)) + input@.subrange(from as int, to as int),
        r == non_ascii_in(fed_bytes(*final(d))),
{
    d.feed(&input[from..to], false)
}

/// Relies on `EncodingDetector::guess_assess` (UTF-8 allowed, no top-level
/// domain), then `Encoding::name`: the guess for the input so far.
#[verifier::external_body]
fn guess_so_far(d: &EncodingDetector) -> (r: (String, bool))
    ensures
        (r.0@, r.1) == guess_of(fed_bytes(*d)),
        is_encoding_name(r.0@),
{
    let (e, sure) = d.guess_assess(None, true);
    (e.name().to_string(), sure)
}

/// Relies on `EncodingDetector::feed` with `last` true, then
/// `EncodingDetector::guess_assess` and `Encoding::name`: the guess for all
/// input fed, as a stream that has ended.
#[verifier::external_body]
fn finish(d: EncodingDetector) -> (r: (String, bool))
    ensures
        (r.0@, r.1) == final_guess_of(fed_bytes(d)),
        is_encoding_name(r.0@),
{
    let mut d = d;
    d.feed(&[], true);
    let (e, sure) = d.guess_assess(None, true);
    (e.name().to_string(), sure)
}

/// What decoding gives: the text (invalid input replaced), the encoding
/// used after BOM sniffing, and whether anything was replaced.
pub uninterp spec fn decode_result(enc: Seq<char>, bytes: Seq<u8>) -> (Seq<char>, Seq<char>, bool);

/// Relies on `Encoding::for_label` to find the encoding by its name, then
/// `Encoding::decode`.
#[verifier::external_body]
pub(crate) fn decode(enc: &str, bytes: &[u8]) -> (r: (String, String, bool))
    requires
        is_encoding_name(enc@),
    ensures
        (r.0@, r.1@, r.2) == decode_result(enc@, bytes@),
        is_encoding_name(r.1@),
{
    let e = Encoding::for_label(enc.as_bytes()).unwrap();
    let (text, used, had_errors) = e.decode(bytes);
    (text.into_owned(), used.name().to_string(), had_errors)
}

/// What encoding gives: the bytes (unmappable characters replaced), the
/// encoding used, and whether anything was replaced.
pub uninterp spec fn encode_result(enc: Seq<char>, text: Seq<char>) -> (Seq<u8>, Seq<char>, bool);

pub open spec fn utf8_name() -> Seq<char> {
    seq!['U', 'T', 'F', '-', '8']
}

/// Relies on `Encoding::for_label` to find the encoding by its name, then
/// `Encoding::encode`, which hands UTF-8 text back as its own bytes.
#[verifier::external_body]
pub(crate) fn encode(enc: &str, text: &str) -> (r: (Vec<u8>, String, bool))
    requires
        is_encoding_name(enc@),
    ensures
        (r.0@, r.1@, r.2) == encode_result(enc@, text@),
        enc@ == utf8_name() ==> r.0@ == encode_utf8(text@) && r.1@ == utf8_name() && !r.2,
{
    let e = Encoding::for_label(enc.as_bytes()).unwrap();
    let (bytes, used, had_errors) = e.encode(text);
    (bytes.into_owned(), used.name().to_string(), had_errors)
}

/// Size of the pieces fed to the detector.
pub const CHUNK: usize = 256;

/// The guess for `input` from position `from` on: the pieces are fed in
/// turn until the detector is sure of its guess after one that leaves
/// non-ASCII bytes seen; at the end, the final guess where it is sure.
pub open spec fn detect_from(input: Seq<u8>, from: int) -> Option<Seq<char>>
    decreases input.len() - from,
{
    if from < 0 || from >= input.len() {
        let g = final_guess_of(input);
        if g.1 {
            Some(g.0)
        } else {
            None
        }
    } else {
        let to = if input.len() - from > CHUNK {
            from + CHUNK
        } else {
            input.len() as int
        };
        let p = input.take(to);
        if non_ascii_in(p) && guess_of(p).1 {
            Some(guess_of(p).0)
        } else {
            detect_from(input, to)
        }
    }
}

/// Guesses the encoding of `input`.
pub fn detect_encoding(input: &[u8]) -> (r: Option<String>)
    ensures
        match detect_from(input@, 0) {
            Some(n) => r matches Some(x) && x@ == n && is_encoding_name(n),
            None => r is None,
        },
{
    let mut d = EncodingDetector::new();
    let mut from: usize = 0;
    assert(input@.take(0) == Seq::<u8>::empty());
    while from < input.len()
        invariant
            from <= input@.len(),
            fed_bytes(d) == input@.take(from as int),
            detect_from(input@, 0) == detect_from(input@, from as int),
        decreases input@.len() - from,
    {
        let to = if input.len() - from > CHUNK {
            from + CHUNK
        } else {
            input.len()
        };
        let non_ascii = feed_chunk_seen(&mut d, input, from, to);
        assert(input@.take(from as int) + input@.subrange(from as int, to as int) == input@.take(to as int));
        if non_ascii {
            let (e, sure) = guess_so_far(&d);
            if sure {
                return Some(e);
            }
        }
        from = to;
    }
    assert(input@.take(from as int) == input@);
    let (e, sure) = finish(d);
    if sure {
        Some(e)
    } else {
        None
    }
}

/// The UTF-16 code units of a character.
pub open spec fn utf16_units(c: char) -> Seq<nat> {
    let v = c as u32 as nat;
    if v < 0x10000 {
        seq![v]
    } else {
        seq![(0xD800 + (v - 0x10000) / 1024) as nat, (0xDC00 + (v - 0x10000) % 1024) as nat]
    }
}

pub open spec fn unit_bytes(u: nat, big_endian: bool) -> Seq<u8> {
    if big_endian {
        seq![(u / 256 % 256) as u8, (u % 256) as u8]
    } else {
        seq![(u % 256) as u8, (u / 256 % 256) as u8]
    }
}

pub open spec fn char_utf16(c: char, big_endian: bool) -> Seq<u8> {
    let us = utf16_units(c);
    if us.len() == 1 {
        unit_bytes(us[0], big_endian)
    } else {
        unit_bytes(us[0], big_endian) + unit_bytes(us[1], big_endian)
    }
}

/// `s` in UTF-16 of the given byte order.
pub open spec fn utf16_of(s: Seq<char>, big_endian: bool) -> Seq<u8>
    decreases s.len(),
{
    if s.len() == 0 {
        seq![]
    } else {
        utf16_of(s.drop_last(), big_endian) + char_utf16(s.last(), big_endian)
    }
}

/// `s` in UTF-16, after a byte order mark where `bom` is set.
pub open spec fn spec_encode_utf16(s: Seq<char>, big_endian: bool, bom: bool) -> Seq<u8> {
    if bom {
        unit_bytes(0xFEFF, big_endian) + utf16_of(s, big_endian)
    } else {
        utf16_of(s, big_endian)
    }
}

fn push_unit(out: &mut Vec<u8>, u: u64, big_endian: bool)
    ensures
        final(out)@ == old(out)@ + unit_bytes(u as nat, big_endian),
{
    let hi = (u / 256 % 256) as u8;
    let lo = (u % 256) as u8;
    if big_endian {
        out.push(hi);
        out.push(lo);
    } else {
        out.push(lo);
        out.push(hi);
    }
}

/// Encodes text as UTF-16; every character can be encoded.
pub fn encode_utf16(text: &str, big_endian: bool, bom: bool) -> (r: Vec<u8>)
    ensures
        r@ == spec_encode_utf16(text@, big_endian, bom),
{
    let cs = crate::text::chars_of(text);
    let mut out: Vec<u8> = Vec::new();
    if bom {
        push_unit(&mut out, 0xFEFF, big_endian);
    }
    let ghost start = out@;
    let mut i: usize = 0;
    while i < cs.len()
        invariant
            i <= cs@.len(),
            out@ == start + utf16_of(cs@.take(i as int), big_endian),
        decreases cs@.len() - i,
    {
        let c = cs[i];
        let v = c as u32 as u64;
        let ghost before = out@;
        assert(v as nat == c as u32 as nat);
        if v < 0x10000 {
            push_unit(&mut out, v, big_endian);
        } else {
            push_unit(&mut out, 0xD800 + (v - 0x10000) / 1024, big_endian);
            push_unit(&mut out, 0xDC00 + (v - 0x10000) % 1024, big_endian);
        }
        assert(out@ == before + char_utf16(c, big_endian));
        assert(cs@.take(i + 1).drop_last() == cs@.take(i as int));
        assert(cs@.take(i + 1).last() == cs@[i as int]);
        assert(out@ =~= start + utf16_of(cs@.take(i + 1), big_endian));
        i += 1;
    }
    assert(cs@.take(cs@.len() as int) == cs@);
    if !bom {
        assert(start =~= Seq::<u8>::empty());
    }
    out
}

} // verus!
