//! What a conversion is asked to do.

use vstd::prelude::*;
use crate::markup::find_from;

verus! {

/// Which Chinese script the text is converted to, if any.
#[derive(Debug, Clone, Copy, PartialEq, Eq, Structural)]
pub enum ChineseConvertion {
    Keep,
    ToSimplified,
    ToTraditional,
}

impl ChineseConvertion {
    /// The name of the dictionary resource that the conversion needs.
    pub fn dict_name(&self) -> (r: Option<&'static str>)
        ensures
            *self == ChineseConvertion::Keep <==> r is None,
            *self == ChineseConvertion::ToSimplified ==> r is Some && r->Some_0@ == seq![
                't',
                '2',
                's',
                '.',
                't',
                'x',
                't',
            ],
            *self == ChineseConvertion::ToTraditional ==> r is Some && r->Some_0@ == seq![
                's',
                '2',
                't',
                '.',
                't',
                'x',
                't',
            ],
    {
        match self {
            ChineseConvertion::Keep => None,
            ChineseConvertion::ToSimplified => {
                proof {
                    reveal_strlit("t2s.txt");
                }
                Some("t2s.txt")
            },
            ChineseConvertion::ToTraditional => {
                proof {
                    reveal_strlit("s2t.txt");
                }
                Some("s2t.txt")
            },
        }
    }
}

/// Which lines of a dialogue's text are kept.
#[derive(Debug, Clone, Copy, PartialEq, Eq, Structural)]
pub enum LineStrip {
    KeepAll,
    KeepFirst,
    KeepLast,
}

/// `x` without one trailing `\r`.
pub open spec fn strip_cr(x: Seq<char>) -> Seq<char> {
    if x.len() > 0 && x.last() == '\r' {
        x.drop_last()
    } else {
        x
    }
}

/// The index of the last `\n` in `s` before `i`, or -1.
pub open spec fn last_newline(s: Seq<char>, i: int) -> int
    decreases i,
{
    if i <= 0 || i > s.len() {
        -1
    } else if s[i - 1] == '\n' {
        i - 1
    } else {
        last_newline(s, i - 1)
    }
}

/// The first line of `s`, as `str::lines` gives it (a `\r` goes with the
/// `\n` after it); `s` itself where it has no `\n`.
pub open spec fn first_line(s: Seq<char>) -> Seq<char> {
    let i = find_from(s, 0, '\n');
    if i < s.len() {
        strip_cr(s.take(i))
    } else {
        s
    }
}

/// The last line of `s`, as `str::lines` gives it: a final `\n` closes the
/// last line and opens no new one.
pub open spec fn last_line(s: Seq<char>) -> Seq<char> {
    if s.len() > 0 && s.last() == '\n' {
        let b = s.drop_last();
        strip_cr(b.skip(last_newline(b, b.len() as int) + 1))
    } else {
        s.skip(last_newline(s, s.len() as int) + 1)
    }
}

pub open spec fn spec_strip(mode: LineStrip, s: Seq<char>) -> Seq<char> {
    match mode {
        LineStrip::KeepAll => s,
        LineStrip::KeepFirst => first_line(s),
        LineStrip::KeepLast => last_line(s),
    }
}

proof fn lemma_last_newline(s: Seq<char>, i: int)
    requires
        0 <= i <= s.len(),
    ensures
        -1 <= last_newline(s, i) < i,
        last_newline(s, i) >= 0 ==> s[last_newline(s, i)] == '\n',
    decreases i,
{
    if i > 0 && s[i - 1] != '\n' {
        lemma_last_newline(s, i - 1);
    }
}

fn copy_range(v: &Vec<char>, from: usize, to: usize) -> (r: Vec<char>)
    requires
        from <= to <= v@.len(),
    ensures
        r@ == v@.subrange(from as int, to as int),
{
    let mut r: Vec<char> = Vec::new();
    let mut k = from;
    while k < to
        invariant
            from <= k <= to <= v@.len(),
            r@ == v@.subrange(from as int, k as int),
        decreases to - k,
    {
        r.push(v[k]);
        k += 1;
    }
    r
}

fn last_newline_before(v: &Vec<char>, i: usize) -> (r: usize)
    requires
        i <= v@.len(),
    ensures
        r as int == last_newline(v@, i as int) + 1,
{
    proof {
        lemma_last_newline(v@, i as int);
    }
    let mut k = i;
    while k > 0 && v[k - 1] != '\n'
        invariant
            k <= i <= v@.len(),
            last_newline(v@, k as int) == last_newline(v@, i as int),
        decreases k,
    {
        k -= 1;
    }
    k
}

impl LineStrip {
    pub fn strip_chars(&self, v: &Vec<char>) -> (r: Vec<char>)
        ensures
            r@ == spec_strip(*self, v@),
    {
        match self {
            LineStrip::KeepAll => copy_range(v, 0, v.len()),
            LineStrip::KeepFirst => {
                let mut i: usize = 0;
                while i < v.len() && v[i] != '\n'
                    invariant
                        i <= v@.len(),
                        find_from(v@, i as int, '\n') == find_from(v@, 0, '\n'),
                    decreases v@.len() - i,
                {
                    i += 1;
                }
                if i < v.len() {
                    let end = if i > 0 && v[i - 1] == '\r' {
                        i - 1
                    } else {
                        i
                    };
                    copy_range(v, 0, end)
                } else {
                    copy_range(v, 0, v.len())
                }
            },
            LineStrip::KeepLast => {
                let n = v.len();
                if n > 0 && v[n - 1] == '\n' {
                    let ghost b = v@.drop_last();
                    let s = last_newline_before(v, n - 1);
                    assert(last_newline(b, b.len() as int) == last_newline(v@, n - 1)) by {
                        lemma_last_newline_prefix(v@, n - 1);
                    }
                    let end = if n - 1 > s && v[n - 2] == '\r' {
                        n - 2
                    } else {
                        n - 1
                    };
                    proof {
                        lemma_last_newline(v@, n - 1);
                    }
                    assert(b.skip(s as int) == v@.subrange(s as int, n - 1));
                    copy_range(v, s, end)
                } else {
                    let s = last_newline_before(v, n);
                    proof {
                        lemma_last_newline(v@, n as int);
                    }
                    copy_range(v, s, n)
                }
            },
        }
    }

    /// Keeps all lines of `text`, or only its first, or only its last.
    pub fn strip(&self, text: &str) -> (r: String)
        ensures
            r@ == spec_strip(*self, text@),
    {
        let v = crate::text::chars_of(text);
        let r = self.strip_chars(&v);
        crate::text::string_of(r.as_slice())
    }
}

proof fn lemma_last_newline_prefix(s: Seq<char>, i: int)
    requires
        0 <= i <= s.len(),
    ensures
        last_newline(s.take(i), i) == last_newline(s, i),
    decreases i,
{
    if i > 0 {
        assert(s.take(i)[i - 1] == s[i - 1]);
        if s[i - 1] != '\n' {
            lemma_last_newline_prefix(s, i - 1);
            lemma_last_newline_take(s, i, i - 1);
        }
    }
}

proof fn lemma_last_newline_take(s: Seq<char>, n: int, i: int)
    requires
        0 <= i <= n <= s.len(),
    ensures
        last_newline(s.take(n), i) == last_newline(s, i),
    decreases i,
{
    if i > 0 {
        assert(s.take(n)[i - 1] == s[i - 1]);
        lemma_last_newline_take(s, n, i - 1);
    }
}

/// What one conversion task does to each subtitle.
#[derive(Debug, Clone, PartialEq, Eq)]
pub struct Options {
    /// Label of the input charset; empty to detect it.
    pub ass_charset: String,
    /// Label of the output charset; empty for UTF-8.
    pub srt_charset: String,
    pub chinese_convertion: ChineseConvertion,
    pub line_strip: LineStrip,
    /// Shift of every time, in milliseconds.
    pub offset_millis: i32,
    /// Return a single file as it is instead of an archive.
    pub no_zip: bool,
    /// Start UTF-16 output with a byte order mark.
    pub srt_bom: bool,
}

} // verus!
