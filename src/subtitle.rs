//! ASS/SSA dialogue parsing and SubRip rendering.

use vstd::prelude::*;
use crate::dict::{replace_text, Dict};
use crate::error::{Field, FormatError};
use crate::lines::{lines_of, UniversalLines};
use crate::markup::{cleanse, find_char, find_from, lemma_find_from, lemma_find_shift};
use crate::options::{spec_strip, LineStrip};
use crate::text::{has_prefix, lower, starts_with, to_lower, trim, trimmed};
use crate::time::{dec_str, parse_time_chars, push_padded, push_srt_time, shift_time, spec_parse_time, spec_shift, srt_time, zero_pad};

verus! {

/// A parsed `Dialogue:` line; times in centiseconds.
pub struct Event {
    pub start: u32,
    pub end: u32,
    pub text: Seq<char>,
    pub effect: bool,
}

/// A `FormatError` as a value of the specification.
pub enum FormatFault {
    NoFormatLine,
    NoFormatLineField(Field),
    NoField(Field),
    Time(Seq<char>),
}

impl View for FormatError {
    type V = FormatFault;

    open spec fn view(&self) -> FormatFault {
        match self {
            FormatError::NoFormatLine => FormatFault::NoFormatLine,
            FormatError::NoFormatLineField(f) => FormatFault::NoFormatLineField(*f),
            FormatError::NoField(f) => FormatFault::NoField(*f),
            FormatError::Time(s) => FormatFault::Time(s@),
        }
    }
}

pub open spec fn events_tag() -> Seq<char> {
    seq!['[', 'E', 'v', 'e', 'n', 't', 's', ']']
}

pub open spec fn format_tag() -> Seq<char> {
    seq!['F', 'o', 'r', 'm', 'a', 't', ':']
}

pub open spec fn dialogue_tag() -> Seq<char> {
    seq!['D', 'i', 'a', 'l', 'o', 'g', 'u', 'e', ':']
}

/// The first line at or after `i` that starts with `p`, or the number of lines.
pub open spec fn find_line(ls: Seq<Seq<char>>, i: int, p: Seq<char>) -> int
    decreases ls.len() - i,
{
    if i >= ls.len() {
        ls.len() as int
    } else if has_prefix(ls[i], p) {
        i
    } else {
        find_line(ls, i + 1, p)
    }
}

/// The lines of the `[Events]` section, trimmed: those after the first line
/// that starts with `[Events]`, up to the next line that starts with `[`.
pub open spec fn events_lines(ls: Seq<Seq<char>>) -> Seq<Seq<char>> {
    let h = find_line(ls, 0, events_tag());
    if h >= ls.len() {
        seq![]
    } else {
        let e = find_line(ls, h + 1, seq!['[']);
        ls.subrange(h + 1, e).map_values(|l: Seq<char>| trim(l))
    }
}

/// `s` cut at every comma.
pub open spec fn split_all(s: Seq<char>) -> Seq<Seq<char>>
    decreases s.len(),
{
    let i = find_from(s, 0, ',');
    if 0 <= i < s.len() {
        seq![s.take(i)] + split_all(s.skip(i + 1))
    } else {
        seq![s]
    }
}

/// `s` cut at its first `n - 1` commas; the last piece keeps any others.
pub open spec fn split_n(s: Seq<char>, n: nat) -> Seq<Seq<char>>
    decreases n,
{
    if n == 0 {
        seq![]
    } else if n == 1 {
        seq![s]
    } else {
        let i = find_from(s, 0, ',');
        if 0 <= i < s.len() {
            seq![s.take(i)] + split_n(s.skip(i + 1), (n - 1) as nat)
        } else {
            seq![s]
        }
    }
}

/// The column names of a `Format:` line, trimmed and lower-cased.
pub open spec fn column_names(line: Seq<char>) -> Seq<Seq<char>> {
    split_all(line.skip(7)).map_values(|c: Seq<char>| lower(trim(c)))
}

/// The position of the last column named like `f`.
pub open spec fn col_index(names: Seq<Seq<char>>, f: Field) -> Option<int>
    decreases names.len(),
{
    if names.len() == 0 {
        None
    } else if names.last() == f.spec_name() {
        Some(names.len() - 1)
    } else {
        col_index(names.drop_last(), f)
    }
}

/// The first of Start, End and Text that no column is named after.
pub open spec fn missing_column(names: Seq<Seq<char>>) -> Option<Field> {
    if col_index(names, Field::Start) is None {
        Some(Field::Start)
    } else if col_index(names, Field::End) is None {
        Some(Field::End)
    } else if col_index(names, Field::Text) is None {
        Some(Field::Text)
    } else {
        None
    }
}

/// The trimmed fields of a `Dialogue:` line, as many as there are columns.
pub open spec fn dialogue_fields(n: nat, line: Seq<char>) -> Seq<Seq<char>> {
    trim_all(split_n(line.skip(9), n))
}

pub open spec fn trim_all(v: Seq<Seq<char>>) -> Seq<Seq<char>> {
    v.map_values(|c: Seq<char>| trim(c))
}

pub open spec fn field_of(names: Seq<Seq<char>>, fields: Seq<Seq<char>>, f: Field) -> Option<Seq<char>> {
    match col_index(names, f) {
        Some(i) => if 0 <= i < fields.len() {
            Some(fields[i])
        } else {
            None
        },
        None => None,
    }
}

pub open spec fn time_of(names: Seq<Seq<char>>, fields: Seq<Seq<char>>, f: Field) -> Result<u32, FormatFault> {
    match field_of(names, fields, f) {
        None => Err(FormatFault::NoField(f)),
        Some(raw) => match spec_parse_time(raw) {
            Some(t) => Ok(t),
            None => Err(FormatFault::Time(raw)),
        },
    }
}

/// One `Dialogue:` line under the columns `names`.
pub open spec fn parse_dialogue(names: Seq<Seq<char>>, line: Seq<char>) -> Result<Event, FormatFault> {
    let fields = dialogue_fields(names.len(), line);
    match time_of(names, fields, Field::Start) {
        Err(e) => Err(e),
        Ok(start) => match time_of(names, fields, Field::End) {
            Err(e) => Err(e),
            Ok(end) => match field_of(names, fields, Field::Text) {
                None => Err(FormatFault::NoField(Field::Text)),
                Some(text) => Ok(
                    Event {
                        start,
                        end,
                        text,
                        effect: match field_of(names, fields, Field::Effect) {
                            Some(x) => trim(x).len() > 0,
                            None => false,
                        },
                    },
                ),
            },
        },
    }
}

/// The `Dialogue:` lines among `ls`, parsed; the first failure wins.
pub open spec fn parse_lines(names: Seq<Seq<char>>, ls: Seq<Seq<char>>) -> Result<Seq<Event>, FormatFault>
    decreases ls.len(),
{
    if ls.len() == 0 {
        Ok(seq![])
    } else if !has_prefix(ls[0], dialogue_tag()) {
        parse_lines(names, ls.skip(1))
    } else {
        match parse_dialogue(names, ls[0]) {
            Err(e) => Err(e),
            Ok(ev) => match parse_lines(names, ls.skip(1)) {
                Ok(evs) => Ok(seq![ev] + evs),
                Err(e) => Err(e),
            },
        }
    }
}

/// The dialogue events of an ASS text, in the order of their lines.
pub open spec fn parse_ass(t: Seq<char>) -> Result<Seq<Event>, FormatFault> {
    let sec = events_lines(lines_of(t));
    let f = find_line(sec, 0, format_tag());
    if f >= sec.len() {
        Err(FormatFault::NoFormatLine)
    } else {
        let names = column_names(sec[f]);
        match missing_column(names) {
            Some(field) => Err(FormatFault::NoFormatLineField(field)),
            None => parse_lines(names, sec.skip(f + 1)),
        }
    }
}

/// The events that are kept: all, or those without an effect.
pub open spec fn keep_events(evs: Seq<Event>, no_effect: bool) -> Seq<Event>
    decreases evs.len(),
{
    if evs.len() == 0 {
        seq![]
    } else {
        let k = keep_events(evs.drop_last(), no_effect);
        if no_effect && evs.last().effect {
            k
        } else {
            k.push(evs.last())
        }
    }
}

/// Where an event starting at `key` goes in `t`: after every event that
/// starts no later.
pub open spec fn insert_pos(t: Seq<Event>, key: u32) -> int
    decreases t.len(),
{
    if t.len() == 0 {
        0
    } else if t.last().start > key {
        insert_pos(t.drop_last(), key)
    } else {
        t.len() as int
    }
}

pub open spec fn insert_event(t: Seq<Event>, x: Event) -> Seq<Event> {
    t.insert(insert_pos(t, x.start), x)
}

/// The events ordered by start time; events that start together keep
/// their order.
pub open spec fn sort_events(evs: Seq<Event>) -> Seq<Event>
    decreases evs.len(),
{
    if evs.len() == 0 {
        seq![]
    } else {
        insert_event(sort_events(evs.drop_last()), evs.last())
    }
}

/// Text after clean-up, line choice and dictionary.
pub open spec fn transform_text(
    t: Seq<char>,
    strip: LineStrip,
    dict: Option<Map<Seq<char>, Seq<char>>>,
) -> Seq<char> {
    let s = spec_strip(strip, t);
    match dict {
        Some(m) => replace_text(m, s),
        None => s,
    }
}

/// An event as it becomes a cue: `None` where its text is empty once
/// cleaned, or where it does not end after it starts once shifted.
pub open spec fn cue_of(
    ev: Event,
    strip: LineStrip,
    dict: Option<Map<Seq<char>, Seq<char>>>,
    offset: i32,
) -> Option<Event> {
    let c = cleanse(ev.text);
    let start = spec_shift(ev.start, offset);
    let end = spec_shift(ev.end, offset);
    if c.len() == 0 || end <= start {
        None
    } else {
        Some(Event { start, end, text: transform_text(c, strip, dict), effect: ev.effect })
    }
}

pub open spec fn cues_of(
    evs: Seq<Event>,
    strip: LineStrip,
    dict: Option<Map<Seq<char>, Seq<char>>>,
    offset: i32,
) -> Seq<Event>
    decreases evs.len(),
{
    if evs.len() == 0 {
        seq![]
    } else {
        let k = cues_of(evs.drop_last(), strip, dict, offset);
        match cue_of(evs.last(), strip, dict, offset) {
            Some(c) => k.push(c),
            None => k,
        }
    }
}

pub open spec fn crlf() -> Seq<char> {
    seq!['\r', '\n']
}

/// One SRT cue with its number.
pub open spec fn cue_block(id: nat, c: Event) -> Seq<char> {
    dec_str(id) + crlf() + srt_time(c.start as nat) + seq![' ', '-', '-', '>', ' '] + srt_time(
        c.end as nat,
    ) + crlf() + c.text + crlf() + crlf()
}

/// The cues numbered from 1, in order.
pub open spec fn srt_body(cues: Seq<Event>) -> Seq<char>
    decreases cues.len(),
{
    if cues.len() == 0 {
        seq![]
    } else {
        srt_body(cues.drop_last()) + cue_block(cues.len(), cues.last())
    }
}

/// The cues that an ASS text gives.
pub open spec fn spec_cues(
    evs: Seq<Event>,
    no_effect: bool,
    strip: LineStrip,
    dict: Option<Map<Seq<char>, Seq<char>>>,
    offset: i32,
) -> Seq<Event> {
    cues_of(sort_events(keep_events(evs, no_effect)), strip, dict, offset)
}

pub open spec fn spec_ass_to_srt(
    t: Seq<char>,
    no_effect: bool,
    strip: LineStrip,
    dict: Option<Map<Seq<char>, Seq<char>>>,
    offset: i32,
) -> Result<Seq<char>, FormatFault> {
    match parse_ass(t) {
        Ok(evs) => Ok(srt_body(spec_cues(evs, no_effect, strip, dict, offset))),
        Err(e) => Err(e),
    }
}

pub open spec fn dict_model(dict: Option<&Dict>) -> Option<Map<Seq<char>, Seq<char>>> {
    match dict {
        Some(d) => Some(d@),
        None => None,
    }
}


pub open spec fn views(v: Seq<Vec<char>>) -> Seq<Seq<char>> {
    v.map_values(|x: Vec<char>| x@)
}

/// All lines of `t`.
fn collect_lines(t: &str) -> (r: Vec<Vec<char>>)
    ensures
        views(r@) == lines_of(t@),
{
    let mut it = UniversalLines::new(t);
    let mut r: Vec<Vec<char>> = Vec::new();
    let ghost all = lines_of(t@);
    assert(all.skip(0) == all);
    loop
        invariant
            it.wf(),
            r@.len() <= all.len(),
            it.rest() == all.skip(r@.len() as int),
            views(r@) == all.take(r@.len() as int),
        ensures
            views(r@) == all,
        decreases it.rest().len(),
    {
        match it.next_chars() {
            None => {
                assert(all.take(r@.len() as int) == all);
                break;
            },
            Some(line) => {
                let ghost n: int = r@.len() as int;
                r.push(line);
                assert(all.skip(n).drop_first() == all.skip(n + 1));
                assert(views(r@) =~= all.take(n + 1));
            },
        }
    }
    r
}

fn find_line_exec(ls: &Vec<Vec<char>>, i: usize, p: &[char]) -> (r: usize)
    requires
        i <= ls@.len(),
    ensures
        r == find_line(views(ls@), i as int, p@),
        i <= r <= ls@.len(),
        r < ls@.len() ==> has_prefix(ls@[r as int]@, p@),
{
    let ghost vs = views(ls@);
    let mut k = i;
    while k < ls.len() && !starts_with(ls[k].as_slice(), p)
        invariant
            i <= k <= ls@.len(),
            vs == views(ls@),
            find_line(vs, k as int, p@) == find_line(vs, i as int, p@),
        decreases ls@.len() - k,
    {
        k += 1;
    }
    k
}

/// The trimmed lines of the `[Events]` section.
fn events_section(ls: &Vec<Vec<char>>) -> (r: Vec<Vec<char>>)
    ensures
        views(r@) == events_lines(views(ls@)),
{
    let tag = vec!['[', 'E', 'v', 'e', 'n', 't', 's', ']'];
    assert(tag@ == events_tag());
    let open = vec!['['];
    assert(open@ == seq!['[']);
    let h = find_line_exec(ls, 0, tag.as_slice());
    let mut r: Vec<Vec<char>> = Vec::new();
    if h >= ls.len() {
        assert(views(r@) =~= events_lines(views(ls@)));
        return r;
    }
    let e = find_line_exec(ls, h + 1, open.as_slice());
    let mut k = h + 1;
    while k < e
        invariant
            h + 1 <= k <= e <= ls@.len(),
            r@.len() == k - h - 1,
            views(r@) == views(ls@).subrange(h + 1, k as int).map_values(|l: Seq<char>| trim(l)),
        decreases e - k,
    {
        let line = trimmed(&ls[k], 0, ls[k].len());
        assert(ls@[k as int]@.subrange(0, ls@[k as int]@.len() as int) == ls@[k as int]@);
        let ghost before = views(r@);
        r.push(line);
        assert(views(r@) == before.push(trim(views(ls@)[k as int])));
        k += 1;
        assert(views(r@) =~= views(ls@).subrange(h + 1, k as int).map_values(|l: Seq<char>| trim(l)));
    }
    r
}

fn eq_chars(a: &Vec<char>, b: &[char]) -> (r: bool)
    ensures
        r == (a@ == b@),
{
    if a.len() != b.len() {
        return false;
    }
    let mut i: usize = 0;
    while i < a.len()
        invariant
            i <= a@.len() == b@.len(),
            forall|j: int| 0 <= j < i ==> a@[j] == b@[j],
        decreases a@.len() - i,
    {
        if a[i] != b[i] {
            return false;
        }
        i += 1;
    }
    assert(a@ =~= b@);
    true
}

/// The columns of a `Format:` line.
pub struct DialogueFormat {
    n_cols: usize,
    start: Option<usize>,
    end: Option<usize>,
    text: Option<usize>,
    effect: Option<usize>,
    names: Ghost<Seq<Seq<char>>>,
}

pub open spec fn opt_int(o: Option<usize>) -> Option<int> {
    match o {
        Some(i) => Some(i as int),
        None => None,
    }
}

impl DialogueFormat {
    pub closed spec fn names(&self) -> Seq<Seq<char>> {
        self.names@
    }

    pub closed spec fn wf(&self) -> bool {
        &&& self.n_cols == self.names@.len()
        &&& opt_int(self.start) == col_index(self.names@, Field::Start)
        &&& opt_int(self.end) == col_index(self.names@, Field::End)
        &&& opt_int(self.text) == col_index(self.names@, Field::Text)
        &&& opt_int(self.effect) == col_index(self.names@, Field::Effect)
    }

    /// Reads the column names of a `Format:` line.
    pub fn new(line: &Vec<char>) -> (r: Result<Self, FormatError>)
        requires
            has_prefix(line@, format_tag()),
        ensures
            match missing_column(column_names(line@)) {
                Some(f) => r is Err && r->Err_0@ == FormatFault::NoFormatLineField(f),
                None => r is Ok && r->Ok_0.wf() && r->Ok_0.names() == column_names(line@),
            },
    {
        let start_name = crate::text::chars_of(Field::Start.name());
        let end_name = crate::text::chars_of(Field::End.name());
        let text_name = crate::text::chars_of(Field::Text.name());
        let effect_name = crate::text::chars_of(Field::Effect.name());
        let ghost norm = |c: Seq<char>| lower(trim(c));
        let ghost all = split_all(line@.skip(7));
        let ghost mut pieces: Seq<Seq<char>> = seq![];
        let mut n: usize = 0;
        let mut start: Option<usize> = None;
        let mut end: Option<usize> = None;
        let mut text: Option<usize> = None;
        let mut effect: Option<usize> = None;
        let mut pos: usize = 7;
        let mut done = false;
        assert(line@.skip(7) == line@.skip(pos as int));
        while !done
            invariant
                7 <= pos <= line@.len(),
                n == pieces.len(),
                !done ==> n <= pos - 7,
                done ==> n <= pos - 6,
                !done ==> all == pieces + split_all(line@.skip(pos as int)),
                done ==> all == pieces,
                start_name@ == Field::Start.spec_name(),
                end_name@ == Field::End.spec_name(),
                text_name@ == Field::Text.spec_name(),
                effect_name@ == Field::Effect.spec_name(),
                opt_int(start) == col_index(pieces.map_values(norm), Field::Start),
                opt_int(end) == col_index(pieces.map_values(norm), Field::End),
                opt_int(text) == col_index(pieces.map_values(norm), Field::Text),
                opt_int(effect) == col_index(pieces.map_values(norm), Field::Effect),
                norm == (|c: Seq<char>| lower(trim(c))),
            decreases line@.len() - pos + if done { 0int } else { 1int },
        {
            let ghost rest = line@.skip(pos as int);
            let e = find_char(line, pos, ',');
            proof {
                lemma_find_from(line@, pos as int, ',');
                lemma_find_shift(line@, pos as int, pos as int, ',');
            }
            let piece = to_lower(&trimmed(line, pos, e));
            let ghost raw = line@.subrange(pos as int, e as int);
            assert(raw == rest.take(e - pos));
            let ghost old_pieces = pieces;
            proof {
                pieces = pieces.push(raw);
                assert(pieces.map_values(norm).drop_last() == old_pieces.map_values(norm));
                assert(pieces.map_values(norm).last() == piece@);
            }
            if eq_chars(&piece, start_name.as_slice()) {
                start = Some(n);
            }
            if eq_chars(&piece, end_name.as_slice()) {
                end = Some(n);
            }
            if eq_chars(&piece, text_name.as_slice()) {
                text = Some(n);
            }
            if eq_chars(&piece, effect_name.as_slice()) {
                effect = Some(n);
            }
            n += 1;
            if e < line.len() {
                assert(rest.skip(e - pos + 1) == line@.skip(e + 1));
                assert(split_all(rest) == seq![raw] + split_all(line@.skip(e + 1)));
                assert(old_pieces + (seq![raw] + split_all(line@.skip(e + 1))) == pieces + split_all(line@.skip(e + 1)));
                pos = e + 1;
            } else {
                assert(raw == rest);
                assert(split_all(rest) == seq![rest]);
                assert(old_pieces + seq![raw] == pieces);
                done = true;
            }
        }
        let ghost names = pieces.map_values(norm);
        assert(names == column_names(line@));
        if start.is_none() {
            return Err(FormatError::NoFormatLineField(Field::Start));
        }
        if end.is_none() {
            return Err(FormatError::NoFormatLineField(Field::End));
        }
        if text.is_none() {
            return Err(FormatError::NoFormatLineField(Field::Text));
        }
        Ok(DialogueFormat { n_cols: n, start, end, text, effect, names: Ghost(names) })
    }
}


/// A dialogue event; times in centiseconds.
pub struct Dialogue {
    pub start: u32,
    pub end: u32,
    pub text: Vec<char>,
    pub effect: bool,
}

impl View for Dialogue {
    type V = Event;

    open spec fn view(&self) -> Event {
        Event { start: self.start, end: self.end, text: self.text@, effect: self.effect }
    }
}

pub open spec fn event_views(v: Seq<Dialogue>) -> Seq<Event> {
    v.map_values(|d: Dialogue| d@)
}

fn copy_chars(v: &Vec<char>) -> (r: Vec<char>)
    ensures
        r@ == v@,
{
    let mut r: Vec<char> = Vec::new();
    let mut i: usize = 0;
    while i < v.len()
        invariant
            i <= v@.len(),
            r@ == v@.take(i as int),
        decreases v@.len() - i,
    {
        r.push(v[i]);
        i += 1;
        assert(r@ == v@.take(i as int));
    }
    assert(v@.take(v@.len() as int) == v@);
    r
}

/// The trimmed fields of a `Dialogue:` line.
fn split_fields(line: &Vec<char>, n: usize) -> (r: Vec<Vec<char>>)
    requires
        9 <= line@.len(),
    ensures
        views(r@) == dialogue_fields(n as nat, line@),
{
    let ghost all = split_n(line@.skip(9), n as nat);
    let ghost mut pieces: Seq<Seq<char>> = seq![];
    let mut r: Vec<Vec<char>> = Vec::new();
    let mut pos: usize = 9;
    let mut k: usize = 0;
    let mut done = n == 0;
    assert(line@.skip(9) == line@.skip(pos as int));
    while !done
        invariant
            9 <= pos <= line@.len(),
            k <= n,
            !done ==> k < n && all == pieces + split_n(line@.skip(pos as int), (n - k) as nat),
            done ==> all == pieces,
            views(r@) == trim_all(pieces),
        decreases line@.len() - pos + if done { 0int } else { 1int },
    {
        let ghost rest = line@.skip(pos as int);
        let ghost before = views(r@);
        if k + 1 == n {
            let piece = trimmed(line, pos, line.len());
            r.push(piece);
            assert(rest == line@.subrange(pos as int, line@.len() as int));
            assert(views(r@) == before.push(trim(rest)));
            proof {
                pieces = pieces.push(rest);
            }
            assert(trim_all(pieces) =~= before.push(trim(rest)));
            done = true;
        } else {
            let e = find_char(line, pos, ',');
            proof {
                lemma_find_from(line@, pos as int, ',');
                lemma_find_shift(line@, pos as int, pos as int, ',');
            }
            let piece = trimmed(line, pos, e);
            r.push(piece);
            let ghost raw = line@.subrange(pos as int, e as int);
            let ghost old_pieces = pieces;
            assert(views(r@) == before.push(trim(raw)));
            proof {
                pieces = pieces.push(raw);
            }
            assert(trim_all(pieces) =~= before.push(trim(raw)));
            if e < line.len() {
                assert(raw == rest.take(e - pos));
                assert(rest.skip(e - pos + 1) == line@.skip(e + 1));
                assert(split_n(rest, (n - k) as nat) == seq![raw] + split_n(line@.skip(e + 1), (n - k - 1) as nat));
                assert(old_pieces + (seq![raw] + split_n(line@.skip(e + 1), (n - k - 1) as nat)) == pieces
                    + split_n(line@.skip(e + 1), (n - k - 1) as nat));
                pos = e + 1;
                k += 1;
            } else {
                assert(raw == rest);
                assert(old_pieces + seq![raw] == pieces);
                done = true;
            }
        }
    }
    r
}

impl DialogueFormat {
    /// Reads a `Dialogue:` line under these columns.
    pub fn parse(&self, line: &Vec<char>) -> (r: Result<Dialogue, FormatError>)
        requires
            self.wf(),
            has_prefix(line@, dialogue_tag()),
        ensures
            match parse_dialogue(self.names(), line@) {
                Ok(ev) => r is Ok && r->Ok_0@ == ev,
                Err(e) => r is Err && r->Err_0@ == e,
            },
    {
        let fields = split_fields(line, self.n_cols);
        let ghost fs = dialogue_fields(self.names().len(), line@);
        let start = match self.start {
            Some(i) if i < fields.len() => match parse_time_chars(&fields[i]) {
                Ok(t) => t,
                Err(e) => return Err(e),
            },
            _ => return Err(FormatError::NoField(Field::Start)),
        };
        let end = match self.end {
            Some(i) if i < fields.len() => match parse_time_chars(&fields[i]) {
                Ok(t) => t,
                Err(e) => return Err(e),
            },
            _ => return Err(FormatError::NoField(Field::End)),
        };
        let text = match self.text {
            Some(i) if i < fields.len() => copy_chars(&fields[i]),
            _ => return Err(FormatError::NoField(Field::Text)),
        };
        let effect = match self.effect {
            Some(i) if i < fields.len() => trimmed(&fields[i], 0, fields[i].len()).len() > 0,
            _ => false,
        };
        proof {
            if let Some(i) = self.effect {
                if i < fields@.len() {
                    assert(fields@[i as int]@.subrange(0, fields@[i as int]@.len() as int) == fields@[i as int]@);
                }
            }
        }
        Ok(Dialogue { start, end, text, effect })
    }
}

/// Parses the `Dialogue:` lines among `ls`.
fn parse_dialogues(format: &DialogueFormat, ls: &Vec<Vec<char>>, from: usize) -> (r: Result<
    Vec<Dialogue>,
    FormatError,
>)
    requires
        format.wf(),
        from <= ls@.len(),
    ensures
        match parse_lines(format.names(), views(ls@).skip(from as int)) {
            Ok(evs) => r is Ok && event_views(r->Ok_0@) == evs,
            Err(e) => r is Err && r->Err_0@ == e,
        },
{
    let ghost names = format.names();
    let ghost all = views(ls@).skip(from as int);
    let dtag = vec!['D', 'i', 'a', 'l', 'o', 'g', 'u', 'e', ':'];
    assert(dtag@ == dialogue_tag());
    let mut r: Vec<Dialogue> = Vec::new();
    let mut k = from;
    assert(all == views(ls@).skip(k as int));
    while k < ls.len()
        invariant
            from <= k <= ls@.len(),
            format.wf(),
            names == format.names(),
            dtag@ == dialogue_tag(),
            all == views(ls@).skip(from as int),
            parse_lines(names, all) == match parse_lines(names, views(ls@).skip(k as int)) {
                Ok(evs) => Ok(event_views(r@) + evs),
                Err(e) => Err(e),
            },
        decreases ls@.len() - k,
    {
        let ghost rest = views(ls@).skip(k as int);
        assert(rest[0] == ls@[k as int]@);
        assert(rest.skip(1) == views(ls@).skip(k + 1));
        if starts_with(ls[k].as_slice(), dtag.as_slice()) {
            match format.parse(&ls[k]) {
                Ok(d) => {
                    let ghost before = event_views(r@);
                    let ghost ev = d@;
                    r.push(d);
                    assert(event_views(r@) == before.push(ev));
                    proof {
                        match parse_lines(names, views(ls@).skip(k + 1)) {
                            Ok(evs) => {
                                assert(before + (seq![ev] + evs) == before.push(ev) + evs);
                            },
                            Err(e) => {},
                        }
                    }
                },
                Err(e) => {
                    return Err(e);
                },
            }
        }
        k += 1;
    }
    assert(views(ls@).skip(k as int).len() == 0);
    assert(event_views(r@) + Seq::<Event>::empty() == event_views(r@));
    Ok(r)
}


/// Parses the dialogue events of an ASS text.
fn parse_ass_exec(ass: &str) -> (r: Result<Vec<Dialogue>, FormatError>)
    ensures
        match parse_ass(ass@) {
            Ok(evs) => r is Ok && event_views(r->Ok_0@) == evs,
            Err(e) => r is Err && r->Err_0@ == e,
        },
{
    let ls = collect_lines(ass);
    let sec = events_section(&ls);
    let ftag = vec!['F', 'o', 'r', 'm', 'a', 't', ':'];
    assert(ftag@ == format_tag());
    let f = find_line_exec(&sec, 0, ftag.as_slice());
    if f >= sec.len() {
        return Err(FormatError::NoFormatLine);
    }
    assert(views(sec@)[f as int] == sec@[f as int]@);
    let format = match DialogueFormat::new(&sec[f]) {
        Ok(x) => x,
        Err(e) => return Err(e),
    };
    parse_dialogues(&format, &sec, f + 1)
}

fn copy_dialogue(d: &Dialogue) -> (r: Dialogue)
    ensures
        r@ == d@,
{
    Dialogue { start: d.start, end: d.end, text: copy_chars(&d.text), effect: d.effect }
}

/// Drops the events with an effect where `no_effect` is set.
fn keep_exec(evs: &Vec<Dialogue>, no_effect: bool) -> (r: Vec<Dialogue>)
    ensures
        event_views(r@) == keep_events(event_views(evs@), no_effect),
{
    let ghost all = event_views(evs@);
    let mut r: Vec<Dialogue> = Vec::new();
    let mut i: usize = 0;
    while i < evs.len()
        invariant
            i <= evs@.len(),
            all == event_views(evs@),
            event_views(r@) == keep_events(all.take(i as int), no_effect),
        decreases evs@.len() - i,
    {
        let d = &evs[i];
        assert(all.take(i + 1).drop_last() == all.take(i as int));
        assert(all.take(i + 1).last() == d@);
        if !(no_effect && d.effect) {
            let ghost b = event_views(r@);
            r.push(copy_dialogue(d));
            assert(event_views(r@) =~= b.push(d@));
        }
        i += 1;
    }
    assert(all.take(i as int) == all);
    r
}

proof fn lemma_insert_pos(t: Seq<Event>, key: u32, j: int)
    requires
        0 <= j <= t.len(),
        forall|i: int| j <= i < t.len() ==> (#[trigger] t[i]).start > key,
    ensures
        insert_pos(t, key) == insert_pos(t.take(j), key),
    decreases t.len() - j,
{
    if j < t.len() {
        assert(t.take(j + 1).drop_last() == t.take(j));
        lemma_insert_pos(t, key, j + 1);
    } else {
        assert(t.take(j) == t);
    }
}

/// Orders events by start time, stably.
fn sort_exec(evs: &Vec<Dialogue>) -> (r: Vec<Dialogue>)
    ensures
        event_views(r@) == sort_events(event_views(evs@)),
{
    let ghost all = event_views(evs@);
    let mut r: Vec<Dialogue> = Vec::new();
    let mut i: usize = 0;
    while i < evs.len()
        invariant
            i <= evs@.len(),
            all == event_views(evs@),
            event_views(r@) == sort_events(all.take(i as int)),
        decreases evs@.len() - i,
    {
        let d = copy_dialogue(&evs[i]);
        assert(all.take(i + 1).drop_last() == all.take(i as int));
        assert(all.take(i + 1).last() == d@);
        let ghost t = event_views(r@);
        let mut j = r.len();
        while j > 0 && r[j - 1].start > d.start
            invariant
                j <= r@.len(),
                t == event_views(r@),
                forall|k: int| j <= k < t.len() ==> (#[trigger] t[k]).start > d.start,
            decreases j,
        {
            assert(t[j - 1] == r@[j - 1]@);
            j -= 1;
        }
        proof {
            lemma_insert_pos(t, d.start, j as int);
            if j > 0 {
                assert(t.take(j as int).last() == t[j - 1]);
            }
        }
        let ghost dv = d@;
        r.insert(j, d);
        assert(event_views(r@) =~= t.insert(j as int, dv));
        i += 1;
    }
    assert(all.take(i as int) == all);
    r
}

fn push_all(out: &mut Vec<char>, s: &[char])
    ensures
        final(out)@ == old(out)@ + s@,
{
    let ghost start = out@;
    let mut i: usize = 0;
    while i < s.len()
        invariant
            i <= s@.len(),
            out@ == start + s@.take(i as int),
        decreases s@.len() - i,
    {
        out.push(s[i]);
        i += 1;
        assert(out@ == start + s@.take(i as int));
    }
    assert(s@.take(s@.len() as int) == s@);
}

/// Appends an SRT cue with its number.
fn push_cue(out: &mut Vec<char>, id: u64, c: &Dialogue)
    ensures
        final(out)@ == old(out)@ + cue_block(id as nat, c@),
{
    let nl = vec!['\r', '\n'];
    let arrow = vec![' ', '-', '-', '>', ' '];
    assert(nl@ == crlf());
    assert(arrow@ == seq![' ', '-', '-', '>', ' ']);
    let ghost s0 = out@;
    push_padded(out, id, 0);
    assert(zero_pad(dec_str(id as nat), 0) == dec_str(id as nat));
    let ghost p1 = dec_str(id as nat);
    push_all(out, nl.as_slice());
    let ghost p2 = p1 + crlf();
    assert(out@ == s0 + p2);
    push_srt_time(out, c.start);
    let ghost p3 = p2 + srt_time(c.start as nat);
    assert(out@ == s0 + p3);
    push_all(out, arrow.as_slice());
    let ghost p4 = p3 + arrow@;
    assert(out@ == s0 + p4);
    push_srt_time(out, c.end);
    let ghost p5 = p4 + srt_time(c.end as nat);
    assert(out@ == s0 + p5);
    push_all(out, nl.as_slice());
    let ghost p6 = p5 + crlf();
    assert(out@ == s0 + p6);
    push_all(out, c.text.as_slice());
    let ghost p7 = p6 + c.text@;
    assert(out@ == s0 + p7);
    push_all(out, nl.as_slice());
    let ghost p8 = p7 + crlf();
    assert(out@ == s0 + p8);
    push_all(out, nl.as_slice());
    let ghost p9 = p8 + crlf();
    assert(out@ == s0 + p9);
    assert(p9 == cue_block(id as nat, c@));
}

/// Converts the text of an ASS file to SubRip.
///
/// The dialogue events of the `[Events]` section are read under its
/// `Format:` line; where `no_effect` is set, those with an Effect are
/// dropped. The rest are ordered by start time (stably), cleaned of markup,
/// cut to the lines that `strip` keeps, rewritten through `dict` where one
/// is given, and shifted by `offset_millis`. An event whose cleaned text is
/// empty, or that does not end after it starts once shifted, is dropped; the
/// others are numbered from 1.
pub fn ass_to_srt(
    ass: &str,
    no_effect: bool,
    strip: LineStrip,
    dict: Option<&Dict>,
    offset_millis: i32,
) -> (r: Result<String, FormatError>)
    requires
        dict matches Some(d) ==> d.wf(),
    ensures
        match spec_ass_to_srt(ass@, no_effect, strip, dict_model(dict), offset_millis) {
            Ok(s) => r is Ok && r->Ok_0@ == s,
            Err(e) => r is Err && r->Err_0@ == e,
        },
{
    let evs = match parse_ass_exec(ass) {
        Ok(evs) => evs,
        Err(e) => return Err(e),
    };
    let ghost parsed = event_views(evs@);
    let kept = keep_exec(&evs, no_effect);
    let sorted = sort_exec(&kept);
    let ghost srt = event_views(sorted@);
    let ghost dm = dict_model(dict);
    let mut out: Vec<char> = Vec::new();
    let mut id: u64 = 0;
    let mut i: usize = 0;
    let ghost mut cues: Seq<Event> = seq![];
    while i < sorted.len()
        invariant
            i <= sorted@.len(),
            srt == event_views(sorted@),
            dict matches Some(d) ==> d.wf(),
            dm == dict_model(dict),
            cues == cues_of(srt.take(i as int), strip, dm, offset_millis),
            id as nat == cues.len(),
            id <= i,
            out@ == srt_body(cues),
        decreases sorted@.len() - i,
    {
        let d = &sorted[i];
        assert(srt[i as int] == d@);
        assert(srt.take(i + 1).drop_last() == srt.take(i as int));
        assert(srt.take(i + 1).last() == d@);
        let c = crate::markup::cleanse_chars(&d.text);
        let start = shift_time(d.start, offset_millis);
        let end = shift_time(d.end, offset_millis);
        if c.len() > 0 && end > start {
            let stripped = strip.strip_chars(&c);
            let text = match dict {
                Some(dd) => dd.replace_chars(&stripped),
                None => stripped,
            };
            let cue = Dialogue { start, end, text, effect: d.effect };
            id += 1;
            push_cue(&mut out, id, &cue);
            proof {
                let prev = cues;
                cues = cues.push(cue@);
                assert(cues.drop_last() == prev);
            }
        }
        i += 1;
    }
    assert(srt.take(i as int) == srt);
    Ok(crate::text::string_of(out.as_slice()))
}


pub open spec fn sorted_by_start(s: Seq<Event>) -> bool {
    forall|i: int, j: int| 0 <= i < j < s.len() ==> (#[trigger] s[i]).start <= (#[trigger] s[j]).start
}

proof fn lemma_insert_pos_props(t: Seq<Event>, key: u32)
    ensures
        0 <= insert_pos(t, key) <= t.len(),
        forall|i: int| insert_pos(t, key) <= i < t.len() ==> (#[trigger] t[i]).start > key,
        insert_pos(t, key) > 0 ==> t[insert_pos(t, key) - 1].start <= key,
    decreases t.len(),
{
    if t.len() > 0 && t.last().start > key {
        lemma_insert_pos_props(t.drop_last(), key);
        assert forall|i: int| insert_pos(t, key) <= i < t.len() implies (#[trigger] t[i]).start > key by {
            if i < t.len() - 1 {
                assert(t.drop_last()[i] == t[i]);
            }
        }
        if insert_pos(t, key) > 0 {
            assert(t.drop_last()[insert_pos(t, key) - 1] == t[insert_pos(t, key) - 1]);
        }
    }
}

proof fn lemma_sort_sorted(evs: Seq<Event>)
    ensures
        sorted_by_start(sort_events(evs)),
        sort_events(evs).len() == evs.len(),
    decreases evs.len(),
{
    if evs.len() > 0 {
        lemma_sort_sorted(evs.drop_last());
        let t = sort_events(evs.drop_last());
        let x = evs.last();
        lemma_insert_pos_props(t, x.start);
        let k = insert_pos(t, x.start);
        let r = t.insert(k, x);
        assert forall|i: int, j: int| 0 <= i < j < r.len() implies (#[trigger] r[i]).start <= (
        #[trigger] r[j]).start by {
            if j < k {
                assert(r[i] == t[i] && r[j] == t[j]);
            } else if j == k {
                assert(r[i] == t[i]);
                assert(t[i].start <= t[k - 1].start);
            } else if i < k {
                assert(r[i] == t[i] && r[j] == t[j - 1]);
            } else if i == k {
                assert(r[j] == t[j - 1]);
            } else {
                assert(r[i] == t[i - 1] && r[j] == t[j - 1]);
            }
        }
    }
}

proof fn lemma_shift_monotone(a: u32, b: u32, offset: i32)
    requires
        a <= b,
    ensures
        spec_shift(a, offset) <= spec_shift(b, offset),
{
    let ta = a as int * 10 + offset as int;
    let tb = b as int * 10 + offset as int;
    if ta > 0 {
        vstd::arithmetic::div_mod::lemma_div_is_ordered(ta + 5, tb + 5, 10);
    }
}

proof fn lemma_cues_bound(
    evs: Seq<Event>,
    strip: LineStrip,
    dict: Option<Map<Seq<char>, Seq<char>>>,
    offset: i32,
    b: u32,
)
    requires
        forall|i: int| 0 <= i < evs.len() ==> (#[trigger] evs[i]).start <= b,
    ensures
        forall|i: int|
            0 <= i < cues_of(evs, strip, dict, offset).len() ==> (#[trigger] cues_of(
                evs,
                strip,
                dict,
                offset,
            )[i]).start <= spec_shift(b, offset),
    decreases evs.len(),
{
    if evs.len() > 0 {
        let init = evs.drop_last();
        assert forall|i: int| 0 <= i < init.len() implies (#[trigger] init[i]).start <= b by {
            assert(init[i] == evs[i]);
        }
        lemma_cues_bound(init, strip, dict, offset, b);
        lemma_shift_monotone(evs.last().start, b, offset);
        let k = cues_of(init, strip, dict, offset);
        let r = cues_of(evs, strip, dict, offset);
        assert forall|i: int| 0 <= i < r.len() implies (#[trigger] r[i]).start <= spec_shift(b, offset) by {
            if i < k.len() {
                assert(r[i] == k[i]);
            }
        }
    }
}

proof fn lemma_cues_sorted(
    evs: Seq<Event>,
    strip: LineStrip,
    dict: Option<Map<Seq<char>, Seq<char>>>,
    offset: i32,
)
    requires
        sorted_by_start(evs),
    ensures
        sorted_by_start(cues_of(evs, strip, dict, offset)),
    decreases evs.len(),
{
    if evs.len() > 0 {
        let init = evs.drop_last();
        assert forall|i: int, j: int| 0 <= i < j < init.len() implies (#[trigger] init[i]).start <= (
        #[trigger] init[j]).start by {
            assert(init[i] == evs[i] && init[j] == evs[j]);
        }
        lemma_cues_sorted(init, strip, dict, offset);
        assert forall|i: int| 0 <= i < init.len() implies (#[trigger] init[i]).start <= evs.last().start by {
            assert(init[i] == evs[i]);
        }
        lemma_cues_bound(init, strip, dict, offset, evs.last().start);
        let k = cues_of(init, strip, dict, offset);
        let r = cues_of(evs, strip, dict, offset);
        assert forall|i: int, j: int| 0 <= i < j < r.len() implies (#[trigger] r[i]).start <= (
        #[trigger] r[j]).start by {
            if j < k.len() {
                assert(r[i] == k[i] && r[j] == k[j]);
            } else {
                assert(r[i] == k[i]);
            }
        }
    }
}

proof fn lemma_cues_end_after_start(
    evs: Seq<Event>,
    strip: LineStrip,
    dict: Option<Map<Seq<char>, Seq<char>>>,
    offset: i32,
)
    ensures
        forall|i: int|
            0 <= i < cues_of(evs, strip, dict, offset).len() ==> (#[trigger] cues_of(
                evs,
                strip,
                dict,
                offset,
            )[i]).start < cues_of(evs, strip, dict, offset)[i].end,
    decreases evs.len(),
{
    if evs.len() > 0 {
        let init = evs.drop_last();
        lemma_cues_end_after_start(init, strip, dict, offset);
        let k = cues_of(init, strip, dict, offset);
        let r = cues_of(evs, strip, dict, offset);
        assert forall|i: int| 0 <= i < r.len() implies (#[trigger] r[i]).start < r[i].end by {
            if i < k.len() {
                assert(r[i] == k[i]);
            }
        }
    }
}

proof fn lemma_kept_no_effect(evs: Seq<Event>)
    ensures
        forall|i: int| 0 <= i < keep_events(evs, true).len() ==> !(#[trigger] keep_events(evs, true)[i]).effect,
    decreases evs.len(),
{
    if evs.len() > 0 {
        lemma_kept_no_effect(evs.drop_last());
        let k = keep_events(evs.drop_last(), true);
        let r = keep_events(evs, true);
        assert forall|i: int| 0 <= i < r.len() implies !(#[trigger] r[i]).effect by {
            if i < k.len() {
                assert(r[i] == k[i]);
            }
        }
    }
}

proof fn lemma_sort_no_effect(evs: Seq<Event>)
    requires
        forall|i: int| 0 <= i < evs.len() ==> !(#[trigger] evs[i]).effect,
    ensures
        forall|i: int| 0 <= i < sort_events(evs).len() ==> !(#[trigger] sort_events(evs)[i]).effect,
    decreases evs.len(),
{
    if evs.len() > 0 {
        let init = evs.drop_last();
        assert forall|i: int| 0 <= i < init.len() implies !(#[trigger] init[i]).effect by {
            assert(init[i] == evs[i]);
        }
        lemma_sort_no_effect(evs.drop_last());
        let t = sort_events(evs.drop_last());
        lemma_insert_pos_props(t, evs.last().start);
        let k = insert_pos(t, evs.last().start);
        assert forall|i: int| 0 <= i < t.insert(k, evs.last()).len() implies !(#[trigger] t.insert(
            k,
            evs.last(),
        )[i]).effect by {
            if i < k {
                assert(t.insert(k, evs.last())[i] == t[i]);
            } else if i > k {
                assert(t.insert(k, evs.last())[i] == t[i - 1]);
            }
        }
    }
}

proof fn lemma_cues_no_effect(
    evs: Seq<Event>,
    strip: LineStrip,
    dict: Option<Map<Seq<char>, Seq<char>>>,
    offset: i32,
)
    requires
        forall|i: int| 0 <= i < evs.len() ==> !(#[trigger] evs[i]).effect,
    ensures
        forall|i: int|
            0 <= i < cues_of(evs, strip, dict, offset).len() ==> !(#[trigger] cues_of(
                evs,
                strip,
                dict,
                offset,
            )[i]).effect,
    decreases evs.len(),
{
    if evs.len() > 0 {
        let init = evs.drop_last();
        assert forall|i: int| 0 <= i < init.len() implies !(#[trigger] init[i]).effect by {
            assert(init[i] == evs[i]);
        }
        lemma_cues_no_effect(init, strip, dict, offset);
        let k = cues_of(init, strip, dict, offset);
        let r = cues_of(evs, strip, dict, offset);
        assert forall|i: int| 0 <= i < r.len() implies !(#[trigger] r[i]).effect by {
            if i < k.len() {
                assert(r[i] == k[i]);
            }
        }
    }
}

/// Of a well-formed ASS text, the SRT text is the cues in order of start
/// time, the k-th of them numbered k (from 1).
pub proof fn lemma_srt_ordered_and_numbered(
    t: Seq<char>,
    no_effect: bool,
    strip: LineStrip,
    dict: Option<Map<Seq<char>, Seq<char>>>,
    offset: i32,
)
    requires
        parse_ass(t) is Ok,
    ensures
        ({
            let cues = spec_cues(parse_ass(t)->Ok_0, no_effect, strip, dict, offset);
            &&& spec_ass_to_srt(t, no_effect, strip, dict, offset) == Ok::<Seq<char>, FormatFault>(
                srt_body(cues),
            )
            &&& sorted_by_start(cues)
            &&& forall|k: int|
                0 <= k < cues.len() ==> #[trigger] srt_body(cues.take(k + 1)) == srt_body(
                    cues.take(k),
                ) + cue_block((k + 1) as nat, cues[k])
        }),
{
    let evs = parse_ass(t)->Ok_0;
    let cues = spec_cues(evs, no_effect, strip, dict, offset);
    lemma_sort_sorted(keep_events(evs, no_effect));
    lemma_cues_sorted(sort_events(keep_events(evs, no_effect)), strip, dict, offset);
    assert forall|k: int| 0 <= k < cues.len() implies #[trigger] srt_body(cues.take(k + 1))
        == srt_body(cues.take(k)) + cue_block((k + 1) as nat, cues[k]) by {
        assert(cues.take(k + 1).drop_last() == cues.take(k));
        assert(cues.take(k + 1).last() == cues[k]);
    }
}

/// Where events with an Effect are dropped, no cue comes from one.
pub proof fn lemma_no_effect_in_output(
    t: Seq<char>,
    strip: LineStrip,
    dict: Option<Map<Seq<char>, Seq<char>>>,
    offset: i32,
)
    requires
        parse_ass(t) is Ok,
    ensures
        forall|i: int|
            0 <= i < spec_cues(parse_ass(t)->Ok_0, true, strip, dict, offset).len() ==> !(
            #[trigger] spec_cues(parse_ass(t)->Ok_0, true, strip, dict, offset)[i]).effect,
{
    let evs = parse_ass(t)->Ok_0;
    lemma_kept_no_effect(evs);
    lemma_sort_no_effect(keep_events(evs, true));
    lemma_cues_no_effect(sort_events(keep_events(evs, true)), strip, dict, offset);
}

/// Every cue ends after it starts, once shifted: an event that does not is
/// dropped.
pub proof fn lemma_cues_have_duration(
    evs: Seq<Event>,
    no_effect: bool,
    strip: LineStrip,
    dict: Option<Map<Seq<char>, Seq<char>>>,
    offset: i32,
)
    ensures
        forall|i: int|
            0 <= i < spec_cues(evs, no_effect, strip, dict, offset).len() ==> (#[trigger] spec_cues(
                evs,
                no_effect,
                strip,
                dict,
                offset,
            )[i]).start < spec_cues(evs, no_effect, strip, dict, offset)[i].end,
{
    lemma_cues_end_after_start(sort_events(keep_events(evs, no_effect)), strip, dict, offset);
}


/// The events of `s` that start at `k`, in order.
pub open spec fn with_start(s: Seq<Event>, k: u32) -> Seq<Event>
    decreases s.len(),
{
    if s.len() == 0 {
        seq![]
    } else {
        let p = with_start(s.drop_last(), k);
        if s.last().start == k {
            p.push(s.last())
        } else {
            p
        }
    }
}

proof fn lemma_with_start_concat(a: Seq<Event>, b: Seq<Event>, k: u32)
    ensures
        with_start(a + b, k) == with_start(a, k) + with_start(b, k),
    decreases b.len(),
{
    if b.len() == 0 {
        assert(a + b == a);
        assert(with_start(a, k) + Seq::<Event>::empty() == with_start(a, k));
    } else {
        lemma_with_start_concat(a, b.drop_last(), k);
        assert((a + b).drop_last() == a + b.drop_last());
        assert((a + b).last() == b.last());
        assert(with_start(a, k) + with_start(b.drop_last(), k).push(b.last()) == (with_start(a, k)
            + with_start(b.drop_last(), k)).push(b.last()));
    }
}

proof fn lemma_with_start_later(b: Seq<Event>, k: u32)
    requires
        forall|j: int| 0 <= j < b.len() ==> (#[trigger] b[j]).start > k,
    ensures
        with_start(b, k) == Seq::<Event>::empty(),
    decreases b.len(),
{
    if b.len() > 0 {
        let init = b.drop_last();
        assert forall|j: int| 0 <= j < init.len() implies (#[trigger] init[j]).start > k by {
            assert(init[j] == b[j]);
        }
        lemma_with_start_later(init, k);
    }
}

/// The sort is stable: the events that start at the same time come out in
/// the order of their lines.
pub proof fn lemma_sort_stable(evs: Seq<Event>, k: u32)
    ensures
        with_start(sort_events(evs), k) == with_start(evs, k),
    decreases evs.len(),
{
    if evs.len() > 0 {
        let init = evs.drop_last();
        let x = evs.last();
        lemma_sort_stable(init, k);
        let t = sort_events(init);
        lemma_insert_pos_props(t, x.start);
        let p = insert_pos(t, x.start);
        assert(t.insert(p, x) == t.take(p) + seq![x] + t.skip(p));
        assert(t == t.take(p) + t.skip(p));
        lemma_with_start_concat(t.take(p) + seq![x], t.skip(p), k);
        lemma_with_start_concat(t.take(p), seq![x], k);
        lemma_with_start_concat(t.take(p), t.skip(p), k);
        assert(seq![x].drop_last() == Seq::<Event>::empty());
        assert(seq![x].last() == x);
        assert(with_start(Seq::<Event>::empty(), k) == Seq::<Event>::empty());
        assert(Seq::<Event>::empty().push(x) == seq![x]);
        let a = with_start(t.take(p), k);
        let b = with_start(t.skip(p), k);
        if x.start == k {
            assert(with_start(seq![x], k) == seq![x]);
            assert forall|j: int| 0 <= j < t.skip(p).len() implies (#[trigger] t.skip(p)[j]).start > k by {
                assert(t.skip(p)[j] == t[p + j]);
            }
            lemma_with_start_later(t.skip(p), k);
            assert(a + Seq::<Event>::empty() == a);
            assert(with_start(sort_events(evs), k) == (a + seq![x]) + b);
            assert((a + seq![x]) + b =~= a.push(x));
            assert(with_start(evs, k) == with_start(init, k).push(x));
        } else {
            assert(with_start(seq![x], k) == Seq::<Event>::empty());
            assert(a + Seq::<Event>::empty() == a);
            assert(with_start(sort_events(evs), k) == (a + Seq::<Event>::empty()) + b);
            assert(with_start(evs, k) == with_start(init, k));
        }
    }
}

} // verus!
