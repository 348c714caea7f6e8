//! A prefix trie that rewrites text by longest-match replacement, used for
//! conversion between Simplified and Traditional Chinese.

use vstd::prelude::*;
use crate::lines::{lines_of, UniversalLines};

verus! {

/// What a dictionary line holds: the key before the first space, the value
/// after it. A line without a space, or with an empty key, holds no entry.
pub open spec fn entry_of(line: Seq<char>) -> Option<(Seq<char>, Seq<char>)> {
    if exists|i: int| 0 <= i < line.len() && line[i] == ' ' {
        let i = choose|i: int|
            0 <= i < line.len() && line[i] == ' ' && forall|j: int|
                0 <= j < i ==> line[j] != ' ';
        if i == 0 {
            None
        } else {
            Some((line.take(i), line.skip(i + 1)))
        }
    } else {
        None
    }
}

/// The entries of dictionary lines; a later line wins over an earlier one
/// with the same key.
pub open spec fn entries_of(lines: Seq<Seq<char>>) -> Map<Seq<char>, Seq<char>>
    decreases lines.len(),
{
    if lines.len() == 0 {
        Map::empty()
    } else {
        let m = entries_of(lines.drop_last());
        match entry_of(lines.last()) {
            Some((k, v)) => m.insert(k, v),
            None => m,
        }
    }
}

/// The length of the longest key of `m` that is a prefix of `t` and at most
/// `n` long; 0 where there is none.
pub open spec fn longest_upto(m: Map<Seq<char>, Seq<char>>, t: Seq<char>, n: nat) -> nat
    decreases n,
{
    if n == 0 {
        0
    } else if n <= t.len() && m.contains_key(t.take(n as int)) {
        n
    } else {
        longest_upto(m, t, (n - 1) as nat)
    }
}

pub open spec fn longest_key(m: Map<Seq<char>, Seq<char>>, t: Seq<char>) -> nat {
    longest_upto(m, t, t.len())
}

/// Left-to-right rewriting of `t`: at each position the longest key that
/// starts there is replaced by its value; where no key starts, one character
/// is kept as it is.
pub open spec fn replace_text(m: Map<Seq<char>, Seq<char>>, t: Seq<char>) -> Seq<char>
    decreases t.len(),
{
    if t.len() == 0 {
        seq![]
    } else {
        let n = longest_key(m, t);
        if n > 0 && n <= t.len() {
            m[t.take(n as int)] + replace_text(m, t.skip(n as int))
        } else {
            seq![t[0]] + replace_text(m, t.skip(1))
        }
    }
}

struct Node {
    value: Option<Vec<char>>,
    children: Vec<(char, usize)>,
}

/// The child reached by `c` among `ch`; the last edge for `c` counts.
spec fn child_of(ch: Seq<(char, usize)>, c: char) -> Option<int>
    decreases ch.len(),
{
    if ch.len() == 0 {
        None
    } else if ch.last().0 == c {
        Some(ch.last().1 as int)
    } else {
        child_of(ch.drop_last(), c)
    }
}

/// The node reached from the root by the characters of `k`.
spec fn walk(nodes: Seq<Node>, k: Seq<char>) -> Option<int>
    decreases k.len(),
{
    if k.len() == 0 {
        Some(0)
    } else {
        match walk(nodes, k.drop_last()) {
            Some(n) => if 0 <= n < nodes.len() {
                child_of(nodes[n].children@, k.last())
            } else {
                None
            },
            None => None,
        }
    }
}

spec fn lookup(nodes: Seq<Node>, k: Seq<char>) -> Option<Seq<char>> {
    match walk(nodes, k) {
        Some(n) => if 0 <= n < nodes.len() && nodes[n].value is Some {
            Some(nodes[n].value->Some_0@)
        } else {
            None
        },
        None => None,
    }
}

spec fn edges_ok(nodes: Seq<Node>) -> bool {
    forall|n: int, j: int|
        0 <= n < nodes.len() && 0 <= j < nodes[n].children@.len() ==> (
        #[trigger] nodes[n].children@[j]).1 < nodes.len()
}

/// A prefix trie. Node 0 is the root; every node is reached from it by
/// exactly one key, its path.
pub struct Dict {
    nodes: Vec<Node>,
    paths: Ghost<Seq<Seq<char>>>,
}

proof fn lemma_child_bound(ch: Seq<(char, usize)>, c: char, bound: int)
    requires
        forall|j: int| 0 <= j < ch.len() ==> (#[trigger] ch[j]).1 < bound,
    ensures
        child_of(ch, c) is Some ==> 0 <= child_of(ch, c)->Some_0 < bound,
    decreases ch.len(),
{
    if ch.len() > 0 && ch.last().0 != c {
        lemma_child_bound(ch.drop_last(), c, bound);
    }
}

proof fn lemma_walk_bound(nodes: Seq<Node>, k: Seq<char>)
    requires
        nodes.len() > 0,
        edges_ok(nodes),
    ensures
        walk(nodes, k) is Some ==> 0 <= walk(nodes, k)->Some_0 < nodes.len(),
    decreases k.len(),
{
    if k.len() > 0 {
        lemma_walk_bound(nodes, k.drop_last());
        if let Some(n) = walk(nodes, k.drop_last()) {
            if 0 <= n < nodes.len() {
                lemma_child_bound(nodes[n].children@, k.last(), nodes.len() as int);
            }
        }
    }
}

/// Walks agree on two arenas whose nodes below `nodes.len()` have the same edges.
proof fn lemma_walk_same_edges(nodes: Seq<Node>, other: Seq<Node>, k: Seq<char>)
    requires
        nodes.len() > 0,
        edges_ok(nodes),
        nodes.len() <= other.len(),
        forall|n: int| 0 <= n < nodes.len() ==> (#[trigger] other[n]).children@ == nodes[n].children@,
    ensures
        walk(other, k) == walk(nodes, k),
    decreases k.len(),
{
    if k.len() > 0 {
        lemma_walk_same_edges(nodes, other, k.drop_last());
        lemma_walk_bound(nodes, k.drop_last());
    }
}

/// Adding an edge for `c` from `p`, which had none, to a fresh leaf `f`
/// leaves every walk as it was, but the one to `f` itself.
proof fn lemma_walk_new_edge(nodes: Seq<Node>, other: Seq<Node>, p: int, c: char, f: usize, k: Seq<char>)
    requires
        nodes.len() > 0,
        edges_ok(nodes),
        0 <= p < nodes.len(),
        f == nodes.len() - 1,
        f != p,
        other.len() == nodes.len(),
        nodes[f as int].children@.len() == 0,
        child_of(nodes[p].children@, c) is None,
        other[p].children@ == nodes[p].children@.push((c, f)),
        forall|n: int| 0 <= n < nodes.len() && n != p ==> (#[trigger] other[n]).children@ == nodes[n].children@,
    ensures
        walk(other, k) == walk(nodes, k) || (walk(nodes, k) is None && walk(other, k) == Some(f as int)
            && k.len() > 0 && walk(nodes, k.drop_last()) == Some(p) && k.last() == c),
    decreases k.len(),
{
    if k.len() > 0 {
        let k1 = k.drop_last();
        lemma_walk_new_edge(nodes, other, p, c, f, k1);
        lemma_walk_bound(nodes, k1);
        if walk(nodes, k1) == walk(other, k1) {
            if let Some(n) = walk(nodes, k1) {
                if n == p {
                    let ch = nodes[p].children@;
                    assert(other[p].children@.drop_last() == ch);
                    assert(other[p].children@.last() == (c, f));
                }
            }
        } else {
            assert(other[f as int].children@ == nodes[f as int].children@);
        }
    }
}

proof fn lemma_walk_none_extends(nodes: Seq<Node>, k: Seq<char>, n: int)
    requires
        walk(nodes, k.take(n)) is None,
        0 <= n <= k.len(),
    ensures
        walk(nodes, k) is None,
    decreases k.len() - n,
{
    if n < k.len() {
        assert(k.take(n + 1).drop_last() == k.take(n));
        lemma_walk_none_extends(nodes, k, n + 1);
    } else {
        assert(k.take(n) == k);
    }
}

proof fn lemma_longest_bound(m: Map<Seq<char>, Seq<char>>, t: Seq<char>, n: nat)
    ensures
        longest_upto(m, t, n) <= n,
        longest_upto(m, t, n) > 0 ==> longest_upto(m, t, n) <= t.len() && m.contains_key(
            t.take(longest_upto(m, t, n) as int),
        ),
    decreases n,
{
    if n > 0 {
        lemma_longest_bound(m, t, (n - 1) as nat);
    }
}

proof fn lemma_longest_skip(m: Map<Seq<char>, Seq<char>>, t: Seq<char>, lo: nat, hi: nat)
    requires
        lo <= hi,
        forall|n: nat| lo < n <= hi && n <= t.len() ==> !m.contains_key(#[trigger] t.take(n as int)),
    ensures
        longest_upto(m, t, hi) == longest_upto(m, t, lo),
    decreases hi,
{
    if hi > lo {
        lemma_longest_skip(m, t, lo, (hi - 1) as nat);
    }
}

/// Splits a dictionary line at its first space.
fn split_entry(line: &Vec<char>) -> (r: Option<(Vec<char>, Vec<char>)>)
    ensures
        match entry_of(line@) {
            Some((k, v)) => r is Some && r->Some_0.0@ == k && r->Some_0.1@ == v,
            None => r is None,
        },
        r is Some ==> r->Some_0.0@.len() > 0,
{
    let mut i: usize = 0;
    while i < line.len() && line[i] != ' '
        invariant
            i <= line@.len(),
            forall|j: int| 0 <= j < i ==> line@[j] != ' ',
        decreases line@.len() - i,
    {
        i += 1;
    }
    if i == line.len() || i == 0 {
        if i == 0 && i < line.len() {
            let ghost c = choose|c: int|
                0 <= c < line@.len() && line@[c] == ' ' && forall|j: int| 0 <= j < c ==> line@[j] != ' ';
            assert(0 <= c < line@.len() && line@[c] == ' ' && forall|j: int| 0 <= j < c ==> line@[j] != ' ');
            assert(c == 0) by {
                if c > 0 {
                    assert(line@[0] != ' ');
                }
            }
        }
        return None;
    }
    let mut key: Vec<char> = Vec::new();
    let mut j: usize = 0;
    while j < i
        invariant
            j <= i < line@.len(),
            key@ == line@.take(j as int),
        decreases i - j,
    {
        key.push(line[j]);
        j += 1;
        assert(key@ == line@.take(j as int));
    }
    let mut value: Vec<char> = Vec::new();
    let mut k: usize = i + 1;
    while k < line.len()
        invariant
            i < k <= line@.len(),
            value@ == line@.subrange(i + 1, k as int),
        decreases line@.len() - k,
    {
        value.push(line[k]);
        k += 1;
        assert(value@ == line@.subrange(i + 1, k as int));
    }
    proof {
        assert(line@[i as int] == ' ');
        let c = choose|c: int|
            0 <= c < line@.len() && line@[c] == ' ' && forall|j: int| 0 <= j < c ==> line@[j] != ' ';
        assert(0 <= c < line@.len() && line@[c] == ' ' && forall|j: int| 0 <= j < c ==> line@[j] != ' ');
        assert(c == i) by {
            if c < i {
                assert(line@[c] != ' ');
            } else if c > i {
                assert(line@[i as int] != ' ');
            }
        }
        assert(value@ == line@.skip(i + 1));
    }
    Some((key, value))
}

impl Dict {
    /// The entries of the dictionary.
    pub closed spec fn view(&self) -> Map<Seq<char>, Seq<char>> {
        Map::new(
            |k: Seq<char>| lookup(self.nodes@, k) is Some,
            |k: Seq<char>| lookup(self.nodes@, k)->Some_0,
        )
    }

    pub closed spec fn wf(&self) -> bool {
        &&& self.nodes@.len() > 0
        &&& edges_ok(self.nodes@)
        &&& self.nodes@[0].value is None
        &&& self.paths@.len() == self.nodes@.len()
        &&& forall|k: Seq<char>| #[trigger] walk(self.nodes@, k) is Some ==> self.paths@[walk(self.nodes@, k)->Some_0] == k
    }

    /// An empty dictionary.
    pub fn new() -> (r: Self)
        ensures
            r.wf(),
            r.view() == Map::<Seq<char>, Seq<char>>::empty(),
    {
        let mut nodes: Vec<Node> = Vec::new();
        nodes.push(Node { value: None, children: Vec::new() });
        let ghost p0: Seq<Seq<char>> = seq![Seq::<char>::empty()];
        let r = Dict { nodes, paths: Ghost(p0) };
        assert forall|k: Seq<char>| #[trigger] walk(r.nodes@, k) is Some implies r.paths@[walk(r.nodes@, k)->Some_0] == k by {
            if k.len() > 0 {
                let n = walk(r.nodes@, k.drop_last());
                lemma_walk_bound(r.nodes@, k.drop_last());
            }
        }
        assert(r.view() =~= Map::<Seq<char>, Seq<char>>::empty()) by {
            assert forall|k: Seq<char>| lookup(r.nodes@, k) is None by {
                if k.len() > 0 {
                    lemma_walk_bound(r.nodes@, k.drop_last());
                }
            }
        }
        r
    }

    fn find_child(&self, n: usize, c: char) -> (r: Option<usize>)
        requires
            self.wf(),
            n < self.nodes@.len(),
        ensures
            r is Some <==> child_of(self.nodes@[n as int].children@, c) is Some,
            r is Some ==> r->Some_0 as int == child_of(self.nodes@[n as int].children@, c)->Some_0,
            r is Some ==> r->Some_0 < self.nodes@.len(),
    {
        let ch = &self.nodes[n].children;
        assert(ch@ == self.nodes@[n as int].children@);
        proof {
            lemma_child_bound(ch@, c, self.nodes@.len() as int);
        }
        let mut j = ch.len();
        assert(ch@.take(j as int) == ch@);
        while j > 0
            invariant
                j <= ch@.len(),
                ch@ == self.nodes@[n as int].children@,
                child_of(ch@, c) is Some ==> 0 <= child_of(ch@, c)->Some_0 < self.nodes@.len(),
                child_of(ch@, c) == child_of(ch@.take(j as int), c),
            decreases j,
        {
            assert(ch@.take(j as int).drop_last() == ch@.take(j - 1));
            assert(ch@.take(j as int).last() == ch@[j - 1]);
            if ch[j - 1].0 == c {
                assert(child_of(ch@.take(j as int), c) == Some(ch@[j - 1].1 as int));
                return Some(ch[j - 1].1);
            }
            j -= 1;
        }
        None
    }

    /// Adds an entry; an entry with the same key is replaced.
    pub fn insert(&mut self, key: &Vec<char>, value: Vec<char>)
        requires
            old(self).wf(),
            key@.len() > 0,
        ensures
            final(self).wf(),
            final(self).view() == old(self).view().insert(key@, value@),
    {
        let ghost m0 = self.view();
        let mut cur: usize = 0;
        let mut d: usize = 0;
        assert(key@.take(0) == Seq::<char>::empty());
        while d < key.len()
            invariant
                self.wf(),
                d <= key@.len(),
                cur < self.nodes@.len(),
                walk(self.nodes@, key@.take(d as int)) == Some(cur as int),
                self.view() == m0,
            decreases key@.len() - d,
        {
            let c = key[d];
            assert(key@.take(d + 1).drop_last() == key@.take(d as int));
            assert(key@.take(d + 1).last() == c);
            match self.find_child(cur, c) {
                Some(j) => {
                    assert(walk(self.nodes@, key@.take(d + 1)) == Some(j as int));
                    cur = j;
                },
                None => {
                    let ghost old_nodes = self.nodes@;
                    let ghost old_view = self.view();
                    let ghost old_paths = self.paths@;
                    assert(forall|k: Seq<char>| #[trigger] walk(old_nodes, k) is Some ==> old_paths[walk(old_nodes, k)->Some_0] == k);
                    let f = self.nodes.len();
                    self.nodes.push(Node { value: None, children: Vec::new() });
                    let ghost pushed = self.nodes@;
                    proof {
                        assert(edges_ok(pushed));
                        assert forall|k: Seq<char>| walk(pushed, k) == walk(old_nodes, k) by {
                            lemma_walk_same_edges(old_nodes, pushed, k);
                        }
                    }
                    self.nodes[cur].children.push((c, f));
                    let ghost added = self.nodes@;
                    proof {
                        self.paths@ = self.paths@.push(key@.take(d + 1));
                        assert(edges_ok(added)) by {
                            assert forall|n: int, i: int|
                                0 <= n < added.len() && 0 <= i < added[n].children@.len() implies (#[trigger] added[n].children@[i]).1 < added.len() by {
                                if n == cur && i == added[n].children@.len() - 1 {
                                } else {
                                    assert(added[n].children@[i] == pushed[n].children@[i]);
                                }
                            }
                        }
                        assert forall|k: Seq<char>| #[trigger] walk(added, k) is Some implies self.paths@[walk(added, k)->Some_0] == k by {
                            lemma_walk_new_edge(pushed, added, cur as int, c, f, k);
                            lemma_walk_bound(pushed, k);
                            assert(walk(pushed, k) == walk(old_nodes, k));
                            if walk(added, k) == walk(pushed, k) {
                                lemma_walk_bound(old_nodes, k);
                                assert(old_paths[walk(old_nodes, k)->Some_0] == k);
                            } else {
                                assert(walk(pushed, k.drop_last()) == walk(old_nodes, k.drop_last()));
                                assert(old_paths[cur as int] == k.drop_last());
                                assert(k == k.drop_last().push(k.last()));
                                assert(key@.take(d + 1) == key@.take(d as int).push(c));
                            }
                        }
                        assert forall|k: Seq<char>| lookup(added, k) == lookup(old_nodes, k) by {
                            lemma_walk_new_edge(pushed, added, cur as int, c, f, k);
                            lemma_walk_bound(pushed, k);
                        }
                        assert(self.view() =~= old_view);
                        assert(walk(pushed, key@.take(d as int)) == Some(cur as int));
                        assert(walk(pushed, key@.take(d + 1)) is None);
                        lemma_walk_new_edge(pushed, added, cur as int, c, f, key@.take(d as int));
                        assert(walk(added, key@.take(d as int)) == Some(cur as int));
                        assert(added[cur as int].children@.last() == (c, f));
                        assert(walk(added, key@.take(d + 1)) == Some(f as int));
                    }
                    assert(walk(self.nodes@, key@.take(d + 1)) == Some(f as int));
                    cur = f;
                },
            }
            d += 1;
        }
        assert(key@.take(key@.len() as int) == key@);
        let ghost before = self.nodes@;
        self.nodes[cur].value = Some(value);
        proof {
            let after = self.nodes@;
            assert forall|k: Seq<char>| walk(after, k) == walk(before, k) by {
                lemma_walk_same_edges(before, after, k);
            }
            assert(cur != 0) by {
                assert(walk(before, seq![]) == Some(0int));
                assert(self.paths@[0] == Seq::<char>::empty());
            }
            assert forall|k: Seq<char>| #[trigger] lookup(after, k) == if k == key@ {
                Some(value@)
            } else {
                lookup(before, k)
            } by {
                lemma_walk_bound(before, k);
            }
            assert(self.view() =~= m0.insert(key@, value@));
        }
    }

    /// The length of the longest key that starts at `p` in `t`, and the node
    /// that holds its value.
    fn longest_at(&self, t: &Vec<char>, p: usize) -> (r: (usize, usize))
        requires
            self.wf(),
            p <= t@.len(),
        ensures
            r.0 == longest_key(self.view(), t@.skip(p as int)),
            r.0 > 0 ==> r.1 < self.nodes@.len() && self.nodes@[r.1 as int].value is Some
                && self.view()[t@.skip(p as int).take(r.0 as int)]
                == self.nodes@[r.1 as int].value->Some_0@,
    {
        let ghost s = t@.skip(p as int);
        let ghost m = self.view();
        let mut cur: usize = 0;
        let mut d: usize = 0;
        let mut best: usize = 0;
        let mut best_node: usize = 0;
        let mut stop = false;
        assert(s.take(0) == Seq::<char>::empty());
        while d < t.len() - p && !stop
            invariant
                self.wf(),
                m == self.view(),
                s == t@.skip(p as int),
                p <= t@.len(),
                d <= s.len(),
                cur < self.nodes@.len(),
                walk(self.nodes@, s.take(d as int)) == Some(cur as int),
                best <= d,
                best == longest_upto(m, s, d as nat),
                best > 0 ==> best_node < self.nodes@.len() && self.nodes@[best_node as int].value is Some
                    && lookup(self.nodes@, s.take(best as int)) == Some(
                    self.nodes@[best_node as int].value->Some_0@,
                ),
                stop ==> d < s.len() && walk(self.nodes@, s.take(d + 1)) is None,
            decreases s.len() - d, if stop { 0int } else { 1int },
        {
            let c = t[p + d];
            assert(s.take(d + 1).drop_last() == s.take(d as int));
            assert(s.take(d + 1).last() == c);
            match self.find_child(cur, c) {
                None => {
                    stop = true;
                },
                Some(j) => {
                    cur = j;
                    d += 1;
                    assert(walk(self.nodes@, s.take(d as int)) == Some(j as int));
                    if self.nodes[cur].value.is_some() {
                        best = d;
                        best_node = cur;
                        assert(m.contains_key(s.take(d as int)));
                    } else {
                        assert(!m.contains_key(s.take(d as int)));
                    }
                },
            }
        }
        proof {
            assert forall|n: nat| d < n <= s.len() && n <= s.len() implies !m.contains_key(
                #[trigger] s.take(n as int),
            ) by {
                assert(s.take(n as int).take(d + 1) == s.take(d + 1));
                lemma_walk_none_extends(self.nodes@, s.take(n as int), d + 1);
            }
            lemma_longest_skip(m, s, d as nat, s.len());
        }
        (best, best_node)
    }

    /// The longest key that is a prefix of `query`, with its value.
    pub fn prefix_match(&self, query: &str) -> (r: Option<(String, String)>)
        requires
            self.wf(),
        ensures
            longest_key(self@, query@) == 0 <==> r is None,
            r is Some ==> r->Some_0.0@ == query@.take(longest_key(self@, query@) as int)
                && self@.contains_key(r->Some_0.0@)
                && r->Some_0.1@ == self@[r->Some_0.0@],
    {
        let t = crate::text::chars_of(query);
        let (n, node) = self.longest_at(&t, 0);
        assert(t@.skip(0) == t@);
        if n == 0 {
            return None;
        }
        proof {
            lemma_longest_bound(self@, t@, t@.len());
        }
        let key = crate::text::string_of_range(t.as_slice(), 0, n);
        let value = crate::text::string_of(self.nodes[node].value.as_ref().unwrap().as_slice());
        Some((key, value))
    }

    /// Rewrites `text`: at each position the longest key that starts there
    /// is replaced by its value; other characters are kept.
    pub fn replace_all(&self, text: &str) -> (r: String)
        requires
            self.wf(),
        ensures
            r@ == replace_text(self@, text@),
    {
        let t = crate::text::chars_of(text);
        let out = self.replace_chars(&t);
        crate::text::string_of(out.as_slice())
    }

    pub fn replace_chars(&self, t: &Vec<char>) -> (r: Vec<char>)
        requires
            self.wf(),
        ensures
            r@ == replace_text(self@, t@),
    {
        let ghost m = self.view();
        let mut out: Vec<char> = Vec::new();
        let mut p: usize = 0;
        assert(t@.skip(0) == t@);
        while p < t.len()
            invariant
                self.wf(),
                m == self.view(),
                p <= t@.len(),
                out@ + replace_text(m, t@.skip(p as int)) == replace_text(m, t@),
            decreases t@.len() - p,
        {
            let ghost s = t@.skip(p as int);
            let ghost before = out@;
            let (n, node) = self.longest_at(&t, p);
            proof {
                lemma_longest_bound(m, s, s.len());
            }
            if n > 0 {
                let v = self.nodes[node].value.as_ref().unwrap();
                let mut i: usize = 0;
                while i < v.len()
                    invariant
                        i <= v@.len(),
                        out@ == before + v@.take(i as int),
                    decreases v@.len() - i,
                {
                    out.push(v[i]);
                    i += 1;
                    assert(out@ == before + v@.take(i as int));
                }
                assert(v@.take(v@.len() as int) == v@);
                assert(s.skip(n as int) == t@.skip(p + n));
                p += n;
            } else {
                out.push(t[p]);
                assert(s.skip(1) == t@.skip(p + 1));
                assert(before + replace_text(m, s) == before + seq![s[0]] + replace_text(m, s.skip(1)));
                p += 1;
            }
        }
        assert(t@.skip(p as int).len() == 0);
        assert(out@ + Seq::<char>::empty() == out@);
        out
    }

    /// Builds a dictionary from `KEY VALUE` lines; lines without a space or
    /// with an empty key are passed over, and a later line wins over an
    /// earlier one with the same key.
    pub fn load(raw: &str) -> (r: Self)
        ensures
            r.wf(),
            r@ == entries_of(lines_of(raw@)),
    {
        let mut dict = Dict::new();
        let mut it = UniversalLines::new(raw);
        let ghost all = lines_of(raw@);
        let ghost mut done: int = 0;
        assert(all.take(0) == Seq::<Seq<char>>::empty());
        assert(all.skip(0) == all);
        loop
            invariant
                dict.wf(),
                it.wf(),
                0 <= done <= all.len(),
                it.rest() == all.skip(done),
                dict@ == entries_of(all.take(done)),
            ensures
                dict.wf(),
                dict@ == entries_of(all),
            decreases it.rest().len(),
        {
            match it.next_chars() {
                None => {
                    assert(all.take(done) == all);
                    break;
                },
                Some(line) => {
                    assert(line@ == all[done]);
                    assert(all.take(done + 1).drop_last() == all.take(done));
                    assert(all.take(done + 1).last() == all[done]);
                    match split_entry(&line) {
                        Some((k, v)) => {
                            dict.insert(&k, v);
                        },
                        None => {},
                    }
                    assert(all.skip(done).drop_first() == all.skip(done + 1));
                    proof {
                        done = done + 1;
                    }
                },
            }
        }
        dict
    }
}


proof fn lemma_longest_none(m: Map<Seq<char>, Seq<char>>, t: Seq<char>, n: nat)
    requires
        forall|j: int| 0 < j <= t.len() ==> !m.contains_key(#[trigger] t.take(j)),
    ensures
        longest_upto(m, t, n) == 0,
    decreases n,
{
    if n > 0 {
        lemma_longest_none(m, t, (n - 1) as nat);
    }
}

/// Rewriting changes nothing in a text where no key occurs; in particular,
/// a dictionary without entries changes no text.
pub proof fn lemma_replace_identity(m: Map<Seq<char>, Seq<char>>, t: Seq<char>)
    requires
        forall|i: int, j: int| 0 <= i < j <= t.len() ==> !m.contains_key(#[trigger] t.subrange(i, j)),
    ensures
        replace_text(m, t) == t,
    decreases t.len(),
{
    if t.len() > 0 {
        assert forall|j: int| 0 < j <= t.len() implies !m.contains_key(#[trigger] t.take(j)) by {
            assert(t.take(j) == t.subrange(0, j));
        }
        lemma_longest_none(m, t, t.len());
        let r = t.skip(1);
        assert forall|i: int, j: int| 0 <= i < j <= r.len() implies !m.contains_key(#[trigger] r.subrange(i, j)) by {
            assert(r.subrange(i, j) == t.subrange(i + 1, j + 1));
        }
        lemma_replace_identity(m, r);
        assert(seq![t[0]] + r == t);
    }
}

} // verus!
