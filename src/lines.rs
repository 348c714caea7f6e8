//! Line splitting that accepts `\r\n`, a lone `\n` and a lone `\r` alike.

use vstd::prelude::*;

verus! {

pub open spec fn is_terminator(c: char) -> bool {
    c == '\r' || c == '\n'
}

/// Index of the first line terminator at or after `i`, or the length of `t`.
pub open spec fn line_end(t: Seq<char>, i: int) -> int
    decreases t.len() - i,
{
    if i >= t.len() {
        t.len() as int
    } else if is_terminator(t[i]) {
        i
    } else {
        line_end(t, i + 1)
    }
}

/// Where the next line starts once the line ending at `end` is consumed.
pub open spec fn after_terminator(t: Seq<char>, end: int) -> int {
    if end + 1 < t.len() && t[end] == '\r' && t[end + 1] == '\n' {
        end + 2
    } else if end < t.len() {
        end + 1
    } else {
        t.len() as int
    }
}

/// The lines of `t` that start at or after position `pos`.
pub open spec fn lines_from(t: Seq<char>, pos: int) -> Seq<Seq<char>>
    decreases t.len() - pos,
    via lines_from_decreases
{
    if pos < 0 || pos >= t.len() {
        seq![]
    } else {
        let end = line_end(t, pos);
        seq![t.subrange(pos, end)] + lines_from(t, after_terminator(t, end))
    }
}

/// The lines of `t`.
pub open spec fn lines_of(t: Seq<char>) -> Seq<Seq<char>> {
    lines_from(t, 0)
}

#[via_fn]
proof fn lines_from_decreases(t: Seq<char>, pos: int) {
    if 0 <= pos < t.len() {
        lemma_line_end_bounds(t, pos);
    }
}

pub proof fn lemma_line_end_bounds(t: Seq<char>, i: int)
    requires
        0 <= i,
    ensures
        i <= t.len() ==> i <= line_end(t, i) <= t.len(),
        i > t.len() ==> line_end(t, i) == t.len(),
        line_end(t, i) < t.len() ==> is_terminator(t[line_end(t, i)]),
        forall|k: int| i <= k < line_end(t, i) ==> !is_terminator(#[trigger] t[k]),
    decreases t.len() - i,
{
    if i < t.len() && !is_terminator(t[i]) {
        lemma_line_end_bounds(t, i + 1);
    }
}

/// A cursor over the lines of a text.
pub struct UniversalLines {
    text: Vec<char>,
    pos: usize,
}

impl UniversalLines {
    pub closed spec fn text(&self) -> Seq<char> {
        self.text@
    }

    pub closed spec fn pos(&self) -> int {
        self.pos as int
    }

    /// The lines not handed out yet.
    pub open spec fn rest(&self) -> Seq<Seq<char>> {
        lines_from(self.text(), self.pos())
    }

    pub closed spec fn wf(&self) -> bool {
        self.pos <= self.text@.len()
    }

    pub fn new(text: &str) -> (r: Self)
        ensures
            r.wf(),
            r.text() == text@,
            r.rest() == lines_of(text@),
    {
        UniversalLines { text: crate::text::chars_of(text), pos: 0 }
    }

    /// Hands out the next line, without its terminator.
    pub fn next(&mut self) -> (r: Option<String>)
        requires
            old(self).wf(),
        ensures
            final(self).wf(),
            final(self).text() == old(self).text(),
            old(self).rest().len() == 0 ==> r is None && final(self).rest().len() == 0,
            old(self).rest().len() > 0 ==> r is Some && r->Some_0@ == old(self).rest()[0]
                && final(self).rest() == old(self).rest().drop_first(),
    {
        match self.next_chars() {
            Some(l) => Some(crate::text::string_of(l.as_slice())),
            None => None,
        }
    }

    pub fn next_chars(&mut self) -> (r: Option<Vec<char>>)
        requires
            old(self).wf(),
        ensures
            final(self).wf(),
            final(self).text() == old(self).text(),
            old(self).rest().len() == 0 ==> r is None && final(self).rest().len() == 0,
            old(self).rest().len() > 0 ==> r is Some && r->Some_0@ == old(self).rest()[0]
                && final(self).rest() == old(self).rest().drop_first(),
    {
        let ghost t = self.text@;
        let start = self.pos;
        if start >= self.text.len() {
            return None;
        }
        proof {
            lemma_line_end_bounds(t, start as int);
        }
        let mut end = start;
        while end < self.text.len() && self.text[end] != '\r' && self.text[end] != '\n'
            invariant
                start <= end <= t.len(),
                self.text@ == t,
                line_end(t, start as int) == line_end(t, end as int),
            decreases t.len() - end,
        {
            end += 1;
        }
        let mut line: Vec<char> = Vec::new();
        let mut k = start;
        while k < end
            invariant
                start <= k <= end <= t.len(),
                self.text@ == t,
                line@ == t.subrange(start as int, k as int),
            decreases end - k,
        {
            line.push(self.text[k]);
            k += 1;
        }
        let n = self.text.len();
        self.pos = if end < n && end + 1 < n && self.text[end] == '\r' && self.text[end + 1] == '\n' {
            end + 2
        } else if end < n {
            end + 1
        } else {
            n
        };
        Some(line)
    }
}

} // verus!
