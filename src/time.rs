//! Subtitle times, held as centiseconds.

use vstd::prelude::*;
use crate::error::FormatError;

verus! {

pub open spec fn is_digit(c: char) -> bool {
    '0' <= c && c <= '9'
}

pub open spec fn digit_val(c: char) -> nat {
    (c as int - '0' as int) as nat
}

/// The value of a run of decimal digits.
pub open spec fn dec_val(d: Seq<char>) -> nat
    decreases d.len(),
{
    if d.len() == 0 {
        0
    } else {
        dec_val(d.drop_last()) * 10 + digit_val(d.last())
    }
}

/// The first index at or after `i` that holds no digit, or the length of `s`.
pub open spec fn digits_end(s: Seq<char>, i: int) -> int
    decreases s.len() - i,
{
    if i >= s.len() {
        s.len() as int
    } else if !is_digit(s[i]) {
        i
    } else {
        digits_end(s, i + 1)
    }
}

/// A run of at least one digit from `i`, closed by `sep` (or by the end of
/// `s` where `sep` is `None`); gives the run's value and the index after it.
pub open spec fn digit_field(s: Seq<char>, i: int, sep: Option<char>) -> Option<(nat, int)> {
    let e = digits_end(s, i);
    if 0 <= i && e > i && match sep {
        Some(c) => e < s.len() && s[e] == c,
        None => e == s.len(),
    } {
        Some((dec_val(s.subrange(i, e)), if sep is Some { e + 1 } else { e }))
    } else {
        None
    }
}

/// The four numbers of `h:mm:ss.cc`: hours a non-empty run of digits,
/// minutes, seconds and centiseconds two digits each, minutes and seconds
/// below 60.
pub open spec fn time_fields(s: Seq<char>) -> Option<(nat, nat, nat, nat)> {
    match digit_field(s, 0, Some(':')) {
        None => None,
        Some((h, i1)) => match digit_field(s, i1, Some(':')) {
            None => None,
            Some((m, i2)) => match digit_field(s, i2, Some('.')) {
                None => None,
                Some((sec, i3)) => match digit_field(s, i3, None) {
                    None => None,
                    Some((c, end)) => if i2 - i1 == 3 && i3 - i2 == 3 && end - i3 == 2 && m < 60
                        && sec < 60 {
                        Some((h, m, sec, c))
                    } else {
                        None
                    },
                },
            },
        },
    }
}

pub open spec fn centisecs(h: nat, m: nat, s: nat, c: nat) -> nat {
    h * 360000 + m * 6000 + s * 100 + c
}

/// The time that `s` states, where it is well formed and fits in a `u32`.
pub open spec fn spec_parse_time(s: Seq<char>) -> Option<u32> {
    match time_fields(s) {
        Some((h, m, sec, c)) => if centisecs(h, m, sec, c) <= u32::MAX {
            Some(centisecs(h, m, sec, c) as u32)
        } else {
            None
        },
        None => None,
    }
}

proof fn lemma_digits_end(s: Seq<char>, i: int)
    requires
        0 <= i <= s.len(),
    ensures
        i <= digits_end(s, i) <= s.len(),
        digits_end(s, i) < s.len() ==> !is_digit(s[digits_end(s, i)]),
        forall|k: int| i <= k < digits_end(s, i) ==> is_digit(#[trigger] s[k]),
    decreases s.len() - i,
{
    if i < s.len() && is_digit(s[i]) {
        lemma_digits_end(s, i + 1);
    }
}

/// Reads the digits of `s` from `i`; gives where they end and their value,
/// `None` as value where it exceeds `u32::MAX`.
fn read_digits(s: &Vec<char>, i: usize) -> (r: (usize, Option<u64>))
    requires
        i <= s@.len(),
    ensures
        r.0 == digits_end(s@, i as int),
        r.1 is Some ==> r.1->Some_0 == dec_val(s@.subrange(i as int, r.0 as int))
            && r.1->Some_0 <= u32::MAX,
        r.1 is None ==> dec_val(s@.subrange(i as int, r.0 as int)) > u32::MAX,
{
    proof {
        lemma_digits_end(s@, i as int);
    }
    let mut k = i;
    let mut v: Option<u64> = Some(0);
    while k < s.len() && '0' <= s[k] && s[k] <= '9'
        invariant
            i <= k <= s@.len(),
            digits_end(s@, k as int) == digits_end(s@, i as int),
            v is Some ==> v->Some_0 == dec_val(s@.subrange(i as int, k as int))
                && v->Some_0 <= u32::MAX,
            v is None ==> dec_val(s@.subrange(i as int, k as int)) > u32::MAX,
        decreases s@.len() - k,
    {
        let ghost prev = dec_val(s@.subrange(i as int, k as int));
        let d = (s[k] as u32 - '0' as u32) as u64;
        assert(s@.subrange(i as int, k + 1).drop_last() == s@.subrange(i as int, k as int));
        assert(dec_val(s@.subrange(i as int, k + 1)) == prev * 10 + d);
        v = match v {
            Some(x) => {
                let y = x * 10 + d;
                if y <= u32::MAX as u64 {
                    Some(y)
                } else {
                    None
                }
            },
            None => {
                assert(prev * 10 + d >= prev) by (nonlinear_arith)
                    requires
                        d >= 0,
                        prev >= 0,
                ;
                None
            },
        };
        k += 1;
    }
    (k, v)
}

/// Reads one field of a time; `None` where it is malformed or too large.
fn read_field(s: &Vec<char>, i: usize, sep: Option<char>) -> (r: Option<(u64, usize)>)
    requires
        i <= s@.len(),
    ensures
        r is Some ==> digit_field(s@, i as int, sep) == Some(
            (r->Some_0.0 as nat, r->Some_0.1 as int),
        ) && r->Some_0.0 <= u32::MAX,
        r is None ==> digit_field(s@, i as int, sep) is None || digit_field(
            s@,
            i as int,
            sep,
        )->Some_0.0 > u32::MAX,
{
    let (e, v) = read_digits(s, i);
    proof {
        lemma_digits_end(s@, i as int);
    }
    if e == i {
        return None;
    }
    let closed = match sep {
        Some(c) => e < s.len() && s[e] == c,
        None => e == s.len(),
    };
    if !closed {
        return None;
    }
    match v {
        Some(x) => Some((x, if sep.is_some() { e + 1 } else { e })),
        None => None,
    }
}

/// Parses `h:mm:ss.cc` into centiseconds.
pub fn parse_time(s: &str) -> (r: Result<u32, FormatError>)
    ensures
        match spec_parse_time(s@) {
            Some(t) => r == Ok::<u32, FormatError>(t),
            None => r matches Err(FormatError::Time(raw)) && raw@ == s@,
        },
{
    let cs = crate::text::chars_of(s);
    parse_time_chars(&cs)
}

pub fn parse_time_chars(cs: &Vec<char>) -> (r: Result<u32, FormatError>)
    ensures
        match spec_parse_time(cs@) {
            Some(t) => r == Ok::<u32, FormatError>(t),
            None => r matches Err(FormatError::Time(raw)) && raw@ == cs@,
        },
{
    match parse_fields(cs) {
        Some(t) => Ok(t),
        None => Err(FormatError::Time(crate::text::string_of(cs.as_slice()))),
    }
}

fn parse_fields(cs: &Vec<char>) -> (r: Option<u32>)
    ensures
        r == spec_parse_time(cs@),
{
    let ghost s = cs@;
    let (h, i1) = match read_field(cs, 0, Some(':')) {
        Some(x) => x,
        None => return None,
    };
    assert(i1 <= s.len()) by {
        lemma_digits_end(s, 0);
    };
    let (m, i2) = match read_field(cs, i1, Some(':')) {
        Some(x) => x,
        None => {
            proof {
                lemma_big(h as nat, digit_field(s, i1 as int, Some(':')), 6000);
            }
            return None;
        },
    };
    assert(i2 <= s.len()) by {
        lemma_digits_end(s, i1 as int);
    };
    let (sec, i3) = match read_field(cs, i2, Some('.')) {
        Some(x) => x,
        None => {
            proof {
                lemma_big(h as nat, digit_field(s, i2 as int, Some('.')), 100);
            }
            return None;
        },
    };
    assert(i3 <= s.len()) by {
        lemma_digits_end(s, i2 as int);
    };
    let (c, end) = match read_field(cs, i3, None) {
        Some(x) => x,
        None => {
            proof {
                lemma_big(h as nat, digit_field(s, i3 as int, None), 1);
            }
            return None;
        },
    };
    assert(end <= s.len()) by {
        lemma_digits_end(s, i3 as int);
    };
    if !(i2 - i1 == 3 && i3 - i2 == 3 && end - i3 == 2 && m < 60 && sec < 60) {
        return None;
    }
    assert(h * 360000 + m * 6000 + sec * 100 + c <= 0xffff_ffffu64 * 360000 + 0xffff_ffffu64 * 6000
        + 0xffff_ffffu64 * 100 + 0xffff_ffffu64) by (nonlinear_arith)
        requires
            h <= 0xffff_ffffu64,
            m <= 0xffff_ffffu64,
            sec <= 0xffff_ffffu64,
            c <= 0xffff_ffffu64,
    ;
    let total: u64 = h * 360000 + m * 6000 + sec * 100 + c;
    if total <= u32::MAX as u64 {
        Some(total as u32)
    } else {
        None
    }
}

proof fn lemma_big(h: nat, f: Option<(nat, int)>, k: nat)
    requires
        k >= 1,
    ensures
        f is Some && f->Some_0.0 > u32::MAX ==> h * 360000 + f->Some_0.0 * k > u32::MAX,
{
    if f is Some && f->Some_0.0 > u32::MAX {
        let v = f->Some_0.0;
        assert(h * 360000 + v * k >= v) by (nonlinear_arith)
            requires
                k >= 1,
        ;
    }
}


pub open spec fn digit_char(d: nat) -> char {
    ((d % 10) + '0' as nat) as char
}

/// The decimal digits of `n`, without leading zeros.
pub open spec fn dec_str(n: nat) -> Seq<char>
    decreases n,
{
    if n < 10 {
        seq![digit_char(n)]
    } else {
        dec_str(n / 10).push(digit_char(n % 10))
    }
}

/// `x` with zeros in front up to `width` characters.
pub open spec fn zero_pad(x: Seq<char>, width: nat) -> Seq<char> {
    if x.len() < width {
        Seq::new((width - x.len()) as nat, |_i: int| '0') + x
    } else {
        x
    }
}

/// `t` centiseconds as `HH:MM:SS,mmm`; hours take more digits where needed.
pub open spec fn srt_time(t: nat) -> Seq<char> {
    zero_pad(dec_str(t / 360000), 2) + seq![':'] + zero_pad(dec_str(t / 6000 % 60), 2) + seq![':']
        + zero_pad(dec_str(t / 100 % 60), 2) + seq![','] + zero_pad(dec_str(t % 100 * 10), 3)
}

/// Appends the decimal digits of `n`.
fn push_dec(out: &mut Vec<char>, n: u64)
    ensures
        final(out)@ == old(out)@ + dec_str(n as nat),
    decreases n,
{
    if n >= 10 {
        push_dec(out, n / 10);
    }
    let d = ((n % 10) as u32 + '0' as u32) as u8 as char;
    assert(d == digit_char((n % 10) as nat));
    out.push(d);
}

/// Appends the decimal digits of `n`, zero-padded to `width`.
pub fn push_padded(out: &mut Vec<char>, n: u64, width: usize)
    ensures
        final(out)@ == old(out)@ + zero_pad(dec_str(n as nat), width as nat),
{
    let mut digits: Vec<char> = Vec::new();
    push_dec(&mut digits, n);
    assert(digits@ == dec_str(n as nat));
    let ghost start = out@;
    let mut k = digits.len();
    while k < width
        invariant
            digits@ == dec_str(n as nat),
            digits@.len() <= k <= width || (k == digits@.len() && k >= width),
            out@ == start + Seq::new((k - digits@.len()) as nat, |_i: int| '0'),
        decreases width - k,
    {
        out.push('0');
        k += 1;
        assert(out@ == start + Seq::new((k - digits@.len()) as nat, |_i: int| '0'));
    }
    let ghost mid = out@;
    let mut j: usize = 0;
    while j < digits.len()
        invariant
            j <= digits@.len(),
            out@ == mid + digits@.take(j as int),
        decreases digits@.len() - j,
    {
        out.push(digits[j]);
        j += 1;
        assert(out@ == mid + digits@.take(j as int));
    }
    assert(digits@.take(digits@.len() as int) == digits@);
    if digits.len() >= width {
        assert(Seq::new(0, |_i: int| '0') + digits@ == digits@);
    }
}

/// Appends `t` centiseconds in SRT form.
pub fn push_srt_time(out: &mut Vec<char>, t: u32)
    ensures
        final(out)@ == old(out)@ + srt_time(t as nat),
{
    let t = t as u64;
    let ghost start = out@;
    push_padded(out, t / 360000, 2);
    out.push(':');
    push_padded(out, t / 6000 % 60, 2);
    out.push(':');
    push_padded(out, t / 100 % 60, 2);
    out.push(',');
    push_padded(out, t % 100 * 10, 3);
    assert(out@ == start + srt_time(t as nat));
}

/// Renders centiseconds as `HH:MM:SS,mmm`.
pub fn to_srt_time(t: u32) -> (r: String)
    ensures
        r@ == srt_time(t as nat),
{
    let mut v: Vec<char> = Vec::new();
    push_srt_time(&mut v, t);
    assert(v@ == srt_time(t as nat));
    crate::text::string_of(v.as_slice())
}

/// `t` centiseconds moved by `offset_ms` milliseconds, rounded half up to a
/// centisecond, never below zero, and at most `u32::MAX`.
pub open spec fn spec_shift(t: u32, offset_ms: i32) -> u32 {
    let total = t as int * 10 + offset_ms as int;
    if total <= 0 {
        0
    } else if (total + 5) / 10 > u32::MAX {
        u32::MAX
    } else {
        ((total + 5) / 10) as u32
    }
}

/// Moves a time by a signed number of milliseconds.
pub fn shift_time(t: u32, offset_ms: i32) -> (r: u32)
    ensures
        r == spec_shift(t, offset_ms),
{
    let total: i64 = t as i64 * 10 + offset_ms as i64;
    if total <= 0 {
        0
    } else {
        let r = (total + 5) / 10;
        if r > u32::MAX as i64 {
            u32::MAX
        } else {
            r as u32
        }
    }
}

} // verus!
