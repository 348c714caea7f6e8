//! Dialogue text clean-up: override tags, drawings, line breaks, and the
//! choice of which line to keep.

use vstd::prelude::*;

verus! {

/// The index of the first `c` in `s` at or after `i`, or the length of `s`.
pub open spec fn find_from(s: Seq<char>, i: int, c: char) -> int
    decreases s.len() - i,
{
    if i >= s.len() {
        s.len() as int
    } else if s[i] == c {
        i
    } else {
        find_from(s, i + 1, c)
    }
}

pub proof fn lemma_find_from(s: Seq<char>, i: int, c: char)
    requires
        0 <= i,
    ensures
        i <= s.len() ==> i <= find_from(s, i, c) <= s.len(),
        find_from(s, i, c) < s.len() ==> s[find_from(s, i, c)] == c,
        forall|k: int| i <= k < find_from(s, i, c) ==> #[trigger] s[k] != c,
    decreases s.len() - i,
{
    if i < s.len() && s[i] != c {
        lemma_find_from(s, i + 1, c);
    }
}

/// `\p` and then `d` somewhere in `body`.
pub open spec fn has_p_digit(body: Seq<char>, lo: char, hi: char) -> bool {
    exists|k: int|
        0 <= k && k + 2 < body.len() && body[k] == '\\' && body[k + 1] == 'p' && lo <= #[trigger] body[k + 2] <= hi
}

/// A tag body that starts a drawing: `\p1` to `\p9`.
pub open spec fn starts_drawing(body: Seq<char>) -> bool {
    has_p_digit(body, '1', '9')
}

/// A tag body that ends a drawing: `\p0`.
pub open spec fn ends_drawing(body: Seq<char>) -> bool {
    has_p_digit(body, '0', '0')
}

/// How much of `r`, the text after a drawing's opening tag, the drawing
/// takes: through the first later tag that holds `\p0`, else all of `r`.
pub open spec fn drawing_len(r: Seq<char>, i: int) -> int
    decreases r.len() - i,
    via drawing_len_decreases
{
    if i < 0 || i >= r.len() {
        r.len() as int
    } else {
        let o = find_from(r, i, '{');
        let e = find_from(r, o, '}');
        if o >= r.len() || e >= r.len() {
            r.len() as int
        } else if ends_drawing(r.subrange(o + 1, e)) {
            e + 1
        } else {
            drawing_len(r, e + 1)
        }
    }
}

#[via_fn]
proof fn drawing_len_decreases(r: Seq<char>, i: int) {
    if 0 <= i < r.len() {
        lemma_find_from(r, i, '{');
        let o = find_from(r, i, '{');
        lemma_find_from(r, o, '}');
    }
}

/// `s` without override tags. A tag runs from `{` to the next `}`; one that
/// holds `\p1` to `\p9` opens a drawing, which is removed with everything up
/// to and including the next tag that holds `\p0` (or to the end). A `{`
/// with no `}` after it is kept as text.
pub open spec fn strip_tags(s: Seq<char>) -> Seq<char>
    decreases s.len(),
    via strip_tags_decreases
{
    if s.len() == 0 {
        seq![]
    } else if s[0] == '{' && find_from(s, 1, '}') < s.len() {
        let e = find_from(s, 1, '}');
        let rest = s.skip(e + 1);
        if starts_drawing(s.subrange(1, e)) {
            strip_tags(rest.skip(drawing_len(rest, 0)))
        } else {
            strip_tags(rest)
        }
    } else {
        seq![s[0]] + strip_tags(s.skip(1))
    }
}

proof fn lemma_drawing_len(r: Seq<char>, i: int)
    ensures
        0 <= drawing_len(r, i) <= r.len(),
    decreases r.len() - i,
{
    if 0 <= i < r.len() {
        lemma_find_from(r, i, '{');
        let o = find_from(r, i, '{');
        lemma_find_from(r, o, '}');
        let e = find_from(r, o, '}');
        if o < r.len() && e < r.len() && !ends_drawing(r.subrange(o + 1, e)) {
            lemma_drawing_len(r, e + 1);
        }
    }
}

#[via_fn]
proof fn strip_tags_decreases(s: Seq<char>) {
    if s.len() > 0 {
        lemma_find_from(s, 1, '}');
        let e = find_from(s, 1, '}');
        if e < s.len() {
            lemma_drawing_len(s.skip(e + 1), 0);
        }
    }
}

/// `s` with each `\N` or `\n` escape turned into a CRLF line break.
pub open spec fn expand_breaks(s: Seq<char>) -> Seq<char>
    decreases s.len(),
{
    if s.len() == 0 {
        seq![]
    } else if s.len() >= 2 && s[0] == '\\' && (s[1] == 'N' || s[1] == 'n') {
        seq!['\r', '\n'] + expand_breaks(s.skip(2))
    } else {
        seq![s[0]] + expand_breaks(s.skip(1))
    }
}

/// The text of a dialogue as it is shown: tags and drawings removed, line
/// breaks expanded.
pub open spec fn cleanse(s: Seq<char>) -> Seq<char> {
    expand_breaks(strip_tags(s))
}

pub fn find_char(s: &Vec<char>, i: usize, c: char) -> (r: usize)
    requires
        i <= s@.len(),
    ensures
        r == find_from(s@, i as int, c),
{
    proof {
        lemma_find_from(s@, i as int, c);
    }
    let mut k = i;
    while k < s.len() && s[k] != c
        invariant
            i <= k <= s@.len(),
            find_from(s@, k as int, c) == find_from(s@, i as int, c),
        decreases s@.len() - k,
    {
        k += 1;
    }
    k
}

fn has_p_digit_in(s: &Vec<char>, from: usize, to: usize, lo: char, hi: char) -> (r: bool)
    requires
        from <= to <= s@.len(),
    ensures
        r == has_p_digit(s@.subrange(from as int, to as int), lo, hi),
{
    let ghost body = s@.subrange(from as int, to as int);
    let mut k = from;
    while k < to && to - k > 2
        invariant
            from <= k,
            to <= s@.len(),
            body == s@.subrange(from as int, to as int),
            forall|j: int|
                0 <= j < k - from ==> !(j + 2 < body.len() && body[j] == '\\' && body[j + 1] == 'p'
                    && lo <= #[trigger] body[j + 2] <= hi),
        decreases to - k,
    {
        if s[k] == '\\' && s[k + 1] == 'p' && lo <= s[k + 2] && s[k + 2] <= hi {
            assert(body[k - from + 2] == s@[k + 2]);
            return true;
        }
        k += 1;
    }
    false
}

fn drawing_end(s: &Vec<char>, base: usize, i: usize) -> (r: usize)
    requires
        base <= s@.len(),
        base <= i <= s@.len(),
    ensures
        r - base == drawing_len(s@.skip(base as int), i - base),
        base <= r <= s@.len(),
    decreases s@.len() - i,
{
    let ghost rr = s@.skip(base as int);
    proof {
        lemma_drawing_len(rr, i - base);
    }
    if i >= s.len() {
        return s.len();
    }
    let o = find_char(s, i, '{');
    proof {
        lemma_find_from(s@, i as int, '{');
        lemma_find_from(rr, i - base, '{');
        assert forall|k: int| 0 <= k < rr.len() implies rr[k] == s@[k + base] by {}
        lemma_find_shift(s@, base as int, i as int, '{');
    }
    if o >= s.len() {
        return s.len();
    }
    let e = find_char(s, o, '}');
    proof {
        lemma_find_from(s@, o as int, '}');
        lemma_find_shift(s@, base as int, o as int, '}');
    }
    if e >= s.len() {
        return s.len();
    }
    assert(rr.subrange(o - base + 1, e - base) == s@.subrange(o + 1, e as int));
    if has_p_digit_in(s, o + 1, e, '0', '0') {
        e + 1
    } else {
        drawing_end(s, base, e + 1)
    }
}

pub proof fn lemma_find_shift(s: Seq<char>, base: int, i: int, c: char)
    requires
        0 <= base <= i <= s.len(),
    ensures
        find_from(s.skip(base), i - base, c) == find_from(s, i, c) - base,
    decreases s.len() - i,
{
    if i < s.len() && s[i] != c {
        lemma_find_shift(s, base, i + 1, c);
    }
}

/// Removes override tags and drawings from `s[i..]`, appending the rest to `out`.
fn strip_tags_into(s: &Vec<char>, out: &mut Vec<char>)
    ensures
        final(out)@ == old(out)@ + strip_tags(s@),
{
    let ghost start = out@;
    let mut i: usize = 0;
    assert(s@.skip(0) == s@);
    while i < s.len()
        invariant
            i <= s@.len(),
            start + strip_tags(s@) == out@ + strip_tags(s@.skip(i as int)),
        decreases s@.len() - i,
    {
        let ghost t = s@.skip(i as int);
        proof {
            lemma_find_from(t, 1, '}');
            lemma_find_shift(s@, i as int, i + 1, '}');
        }
        let mut done = false;
        if s[i] == '{' {
            let e = find_char(s, i + 1, '}');
            proof {
                lemma_find_from(s@, i + 1, '}');
            }
            if e < s.len() {
                assert(t.subrange(1, e - i) == s@.subrange(i + 1, e as int));
                assert(t.skip(e - i + 1) == s@.skip(e + 1));
                if has_p_digit_in(s, i + 1, e, '1', '9') {
                    let d = drawing_end(s, e + 1, e + 1);
                    assert(s@.skip(e + 1).skip(d - (e + 1)) == s@.skip(d as int));
                    i = d;
                } else {
                    i = e + 1;
                }
                done = true;
            }
        }
        if !done {
            let ghost before = out@;
            assert(strip_tags(t) == seq![t[0]] + strip_tags(t.skip(1)));
            out.push(s[i]);
            assert(t.skip(1) == s@.skip(i + 1));
            assert(before + (seq![t[0]] + strip_tags(t.skip(1))) =~= out@ + strip_tags(t.skip(1)));
            i += 1;
        }
    }
    assert(strip_tags(s@.skip(i as int)) == Seq::<char>::empty());
    assert(out@ + Seq::<char>::empty() == out@);
}

fn expand_breaks_into(s: &Vec<char>, out: &mut Vec<char>)
    ensures
        final(out)@ == old(out)@ + expand_breaks(s@),
{
    let ghost start = out@;
    let mut i: usize = 0;
    assert(s@.skip(0) == s@);
    while i < s.len()
        invariant
            i <= s@.len(),
            start + expand_breaks(s@) == out@ + expand_breaks(s@.skip(i as int)),
        decreases s@.len() - i,
    {
        let ghost t = s@.skip(i as int);
        if i + 1 < s.len() && s[i] == '\\' && (s[i + 1] == 'N' || s[i + 1] == 'n') {
            out.push('\r');
            out.push('\n');
            assert(t.skip(2) == s@.skip(i + 2));
            i += 2;
        } else {
            out.push(s[i]);
            assert(t.skip(1) == s@.skip(i + 1));
            i += 1;
        }
    }
    assert(expand_breaks(s@.skip(i as int)) == Seq::<char>::empty());
}

/// Removes override tags and drawings, and expands line-break escapes.
pub fn cleanse_chars(s: &Vec<char>) -> (r: Vec<char>)
    ensures
        r@ == cleanse(s@),
{
    let mut stripped: Vec<char> = Vec::new();
    strip_tags_into(s, &mut stripped);
    let mut r: Vec<char> = Vec::new();
    expand_breaks_into(&stripped, &mut r);
    r
}

/// Removes override tags and drawings from dialogue text, and turns `\N`
/// and `\n` escapes into CRLF line breaks.
pub fn cleanse_text(text: &str) -> (r: String)
    ensures
        r@ == cleanse(text@),
{
    let s = crate::text::chars_of(text);
    let r = cleanse_chars(&s);
    crate::text::string_of(r.as_slice())
}

} // verus!
