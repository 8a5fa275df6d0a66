//! A keyword automaton: a trie over code points with suffix links and output
//! sets, supporting insertion and removal of patterns.
use vstd::prelude::*;
use crate::text::chars_of;
use crate::words::{
    is_suffix, lemma_pattern_is_path, lemma_prefix_closed, lemma_push_suffix, lemma_suffix_of_push,
    lemma_suffix_of_suffix, lemma_suffix_same_len, lemma_suffix_self, lemma_suffixes_nest,
    longest_proper_suffix, prefix_of_some,
};

verus! {

/// One state of the automaton.
pub struct AhoCorasickNode {
    /// Outgoing trie edges, one per code point.
    pub children: Vec<(char, usize)>,
    /// The node of the longest proper suffix of this node's path that is a trie path.
    pub suffix_link: Option<usize>,
    /// Nodes of the patterns that end this node's path.
    pub output_links: Vec<usize>,
    /// Length of the pattern ending at this node, or 0.
    pub length: usize,
}

/// The edge list holds an entry for `c`.
pub open spec fn has_key(children: Seq<(char, usize)>, c: char) -> bool {
    exists|k: int| 0 <= k < children.len() && #[trigger] children[k].0 == c
}

/// No two edges of the list share a code point.
pub open spec fn keys_unique(children: Seq<(char, usize)>) -> bool {
    forall|i: int, j: int|
        0 <= i < children.len() && 0 <= j < children.len() && i != j ==> #[trigger] children[i].0
            != #[trigger] children[j].0
}

impl AhoCorasickNode {
    pub fn new() -> (r: Self)
        ensures
            r.children@.len() == 0,
            r.suffix_link is None,
            r.output_links@.len() == 0,
            r.length == 0,
    {
        AhoCorasickNode {
            children: Vec::new(),
            suffix_link: None,
            output_links: Vec::new(),
            length: 0,
        }
    }
}

/// Position of the edge for `c` in an edge list.
fn child_index(children: &Vec<(char, usize)>, c: char) -> (r: Option<usize>)
    ensures
        match r {
            Some(k) => k < children.len() && children@[k as int].0 == c,
            None => !has_key(children@, c),
        },
{
    let mut k: usize = 0;
    while k < children.len()
        invariant
            k <= children.len(),
            forall|j: int| 0 <= j < k ==> children@[j].0 != c,
        decreases children.len() - k,
    {
        if children[k].0 == c {
            return Some(k);
        }
        k += 1;
    }
    None
}

/// `v` holds `x`.
fn contains_id(v: &Vec<usize>, x: usize) -> (r: bool)
    ensures
        r == v@.contains(x),
{
    let mut k: usize = 0;
    while k < v.len()
        invariant
            k <= v.len(),
            forall|j: int| 0 <= j < k ==> v@[j] != x,
        decreases v.len() - k,
    {
        if v[k] == x {
            return true;
        }
        k += 1;
    }
    false
}

/// Some non-empty suffix of `s` is a trie path of `d`.
pub open spec fn ends_in_trie(d: Set<Seq<char>>, s: Seq<char>) -> bool {
    exists|j: int| 0 <= j < s.len() && #[trigger] prefix_of_some(d, s.subrange(j, s.len() as int))
}

/// A search of `t` over the dictionary `d` reports `(start, len)`: an occurrence of a
/// non-empty pattern; or, where the empty pattern is in `d`, the empty match at 0 and
/// at each later position where a non-empty suffix of the text read so far begins a
/// pattern (there the automaton stands off the root).
pub open spec fn reported(d: Set<Seq<char>>, t: Seq<char>, start: int, len: int) -> bool {
    ||| {
        &&& len > 0
        &&& 0 <= start
        &&& start + len <= t.len()
        &&& d.contains(t.subrange(start, start + len))
    }
    ||| {
        &&& len == 0
        &&& d.contains(Seq::<char>::empty())
        &&& (start == 0 || (1 <= start <= t.len() && ends_in_trie(d, t.subrange(0, start))))
    }
}

/// `r` lists, once each and by end position, the reports of a search of `t` that
/// end at or before `n`.
pub open spec fn reports_upto(d: Set<Seq<char>>, t: Seq<char>, r: Seq<(usize, usize)>, n: int) -> bool {
    &&& r.no_duplicates()
    &&& forall|k: int|
        #![trigger r[k]]
        0 <= k < r.len() ==> reported(d, t, r[k].0 as int, r[k].1 as int) && r[k].0 + r[k].1 <= n
    &&& forall|a: usize, b: usize|
        #![trigger reported(d, t, a as int, b as int)]
        reported(d, t, a as int, b as int) && a + b <= n ==> r.contains((a, b))
    &&& forall|k1: int, k2: int|
        0 <= k1 <= k2 < r.len() ==> #[trigger] r[k1].0 + r[k1].1 <= #[trigger] r[k2].0 + r[k2].1
}

/// `r` is the result of a search of `t` over the dictionary `d`.
pub open spec fn search_result(d: Set<Seq<char>>, t: Seq<char>, r: Seq<(usize, usize)>) -> bool {
    reports_upto(d, t, r, t.len() as int)
}

/// The code-point sequences of a list of strings.
pub open spec fn views_of(ws: Seq<&str>) -> Seq<Seq<char>> {
    ws.map_values(|w: &str| w@)
}

/// The dictionary after inserting the words of `ws` one at a time, in order.
pub open spec fn insert_each(d: Set<Seq<char>>, ws: Seq<Seq<char>>) -> Set<Seq<char>>
    decreases ws.len(),
{
    if ws.len() == 0 {
        d
    } else {
        insert_each(d, ws.drop_last()).insert(ws.last())
    }
}

/// Where the empty pattern is not in the dictionary, a search result holds each
/// occurrence `(i, |p|)` of a pattern `p` exactly once, and nothing else.
pub proof fn search_finds_each_occurrence(d: Set<Seq<char>>, t: Seq<char>, r: Seq<(usize, usize)>)
    requires
        search_result(d, t, r),
        !d.contains(Seq::<char>::empty()),
    ensures
        forall|i: usize, len: usize|
            #[trigger] r.to_multiset().count((i, len)) == if i + len <= t.len() && d.contains(
                t.subrange(i as int, i + len),
            ) {
                1nat
            } else {
                0nat
            },
{
    r.to_multiset_ensures();
    r.lemma_multiset_has_no_duplicates();
    assert forall|i: usize, len: usize|
        #[trigger] r.to_multiset().count((i, len)) == if i + len <= t.len() && d.contains(
            t.subrange(i as int, i + len),
        ) {
            1nat
        } else {
            0nat
        } by {
        if i + len <= t.len() && d.contains(t.subrange(i as int, i + len)) {
            if len == 0 {
                assert(t.subrange(i as int, i + len) =~= Seq::<char>::empty());
            }
            assert(reported(d, t, i as int, len as int));
            assert(r.contains((i, len)));
        } else if r.contains((i, len)) {
            let k = choose|k: int| 0 <= k < r.len() && r[k] == (i, len);
            assert(reported(d, t, r[k].0 as int, r[k].1 as int));
        }
    }
}

/// A search of the empty text reports `(0, 0)` alone where the empty pattern is in
/// the dictionary, and nothing where it is not; with the empty pattern in the
/// dictionary, a search of any text reports `(0, 0)` first.
pub proof fn search_empty_pattern(d: Set<Seq<char>>, t: Seq<char>, r: Seq<(usize, usize)>)
    requires
        search_result(d, t, r),
    ensures
        t.len() == 0 ==> r == if d.contains(Seq::<char>::empty()) {
            seq![(0usize, 0usize)]
        } else {
            Seq::<(usize, usize)>::empty()
        },
        d.contains(Seq::<char>::empty()) ==> r.len() > 0 && r[0] == (0usize, 0usize),
{
    if d.contains(Seq::<char>::empty()) {
        assert(reported(d, t, 0, 0));
        assert(r.contains((0usize, 0usize)));
        let k = choose|k: int| 0 <= k < r.len() && r[k] == (0usize, 0usize);
        assert(r[0].0 + r[0].1 <= r[k].0 + r[k].1);
    }
    if t.len() == 0 {
        assert forall|k: int| 0 <= k < r.len() implies r[k] == (0usize, 0usize) by {
            assert(reported(d, t, r[k].0 as int, r[k].1 as int));
        }
        if r.len() > 1 {
            assert(r[0] == r[1]);
        }
        if d.contains(Seq::<char>::empty()) {
            assert(r =~= seq![(0usize, 0usize)]);
        } else if r.len() > 0 {
            assert(reported(d, t, r[0].0 as int, r[0].1 as int));
        } else {
            assert(r =~= Seq::<(usize, usize)>::empty());
        }
    }
}

/// Inserting a word that is not in the dictionary and then removing it gives back
/// the dictionary, and so the same search results on every text.
pub proof fn insert_remove_round_trip(d: Set<Seq<char>>, w: Seq<char>, t: Seq<char>, r: Seq<(usize, usize)>)
    requires
        !d.contains(w),
    ensures
        d.insert(w).remove(w) == d,
        search_result(d.insert(w).remove(w), t, r) <==> search_result(d, t, r),
{
    assert(d.insert(w).remove(w) =~= d);
}

/// Building from a list of words gives the dictionary, and so the search results,
/// that inserting the same words one at a time in the same order gives.
pub proof fn build_same_as_inserts(d: Set<Seq<char>>, ws: Seq<Seq<char>>, t: Seq<char>, r: Seq<(usize, usize)>)
    ensures
        d.union(ws.to_set()) == insert_each(d, ws),
        search_result(d.union(ws.to_set()), t, r) <==> search_result(insert_each(d, ws), t, r),
    decreases ws.len(),
{
    if ws.len() == 0 {
        assert(d.union(ws.to_set()) =~= d);
    } else {
        let front = ws.drop_last();
        build_same_as_inserts(d, front, t, r);
        assert(ws =~= front.push(ws.last()));
        assert forall|y: Seq<char>| ws.contains(y) <==> front.contains(y) || y == ws.last() by {
            if ws.contains(y) {
                let i = choose|i: int| 0 <= i < ws.len() && ws[i] == y;
                if i < front.len() {
                    assert(front[i] == y);
                }
            }
            if front.contains(y) {
                let i = choose|i: int| 0 <= i < front.len() && front[i] == y;
                assert(ws[i] == y);
            }
        }
        assert(d.union(ws.to_set()) =~= d.union(front.to_set()).insert(ws.last()));
    }
}

/// A keyword automaton over a dictionary of patterns.
pub struct AhoCorasick {
    /// The nodes, indexed by identifier.
    pub nodes: Vec<AhoCorasickNode>,
    /// Identifier of the root, always 0.
    pub root: usize,
    /// The identifier of each trie path.
    pub trie: Ghost<Map<Seq<char>, usize>>,
    /// The path of each identifier ever assigned.
    pub paths: Ghost<Seq<Seq<char>>>,
    /// The dictionary.
    pub words: Ghost<Set<Seq<char>>>,
}

impl View for AhoCorasick {
    type V = Set<Seq<char>>;

    open spec fn view(&self) -> Set<Seq<char>> {
        self.words@
    }
}

impl AhoCorasick {
    /// The node of path `s` is consistent with its edges and with the dictionary.
    pub open spec fn node_ok(self, s: Seq<char>) -> bool {
        let id = self.trie@[s];
        let n = self.nodes@[id as int];
        &&& id < self.nodes.len()
        &&& self.paths@[id as int] == s
        &&& s.len() < self.nodes.len()
        &&& keys_unique(n.children@)
        &&& forall|k: int|
            #![trigger n.children@[k]]
            0 <= k < n.children@.len() ==> self.trie@.contains_key(s.push(n.children@[k].0))
                && self.trie@[s.push(n.children@[k].0)] == n.children@[k].1
        &&& forall|c: char| #[trigger]
            self.trie@.contains_key(s.push(c)) ==> has_key(n.children@, c)
        &&& s.len() > 0 ==> n.length == (if self.words@.contains(s) {
            s.len()
        } else {
            0
        })
    }

    /// The trie holds exactly the paths of the dictionary and those that `extra` admits.
    pub open spec fn trie_wf_with(self, extra: spec_fn(Seq<char>) -> bool) -> bool {
        &&& self.root == 0
        &&& self.paths@.len() == self.nodes.len()
        &&& self.words@.finite()
        &&& self.trie@.contains_key(Seq::<char>::empty())
        &&& self.trie@[Seq::<char>::empty()] == 0
        &&& forall|s: Seq<char>|
            #![trigger self.trie@.contains_key(s)]
            #![trigger prefix_of_some(self.words@, s)]
            self.trie@.contains_key(s) <==> (prefix_of_some(self.words@, s) || extra(s))
        &&& forall|s: Seq<char>| #[trigger] self.trie@.contains_key(s) ==> self.node_ok(s)
        &&& self.nodes@[0].length == 0
        &&& self.nodes@[0].suffix_link is None
        &&& self.nodes@[0].output_links@ == (if self.words@.contains(Seq::<char>::empty()) {
            seq![0usize]
        } else {
            Seq::<usize>::empty()
        })
    }

    /// The trie holds exactly the paths of the dictionary.
    pub open spec fn trie_wf(self) -> bool {
        self.trie_wf_with(|s: Seq<char>| false)
    }

    /// `id` is the node of a trie path.
    pub open spec fn is_node(self, id: usize) -> bool {
        &&& id < self.nodes.len()
        &&& self.trie@.contains_key(self.paths@[id as int])
        &&& self.trie@[self.paths@[id as int]] == id
    }

    /// `out` lists, once each, the nodes of the patterns that end `s`.
    pub open spec fn outputs_ok(self, s: Seq<char>, out: Seq<usize>) -> bool {
        &&& out.no_duplicates()
        &&& forall|k: int|
            #![trigger out[k]]
            0 <= k < out.len() ==> self.is_node(out[k]) && self.words@.contains(
                self.paths@[out[k] as int],
            ) && is_suffix(self.paths@[out[k] as int], s)
        &&& forall|p: Seq<char>|
            #![trigger self.words@.contains(p), is_suffix(p, s)]
            self.words@.contains(p) && is_suffix(p, s) ==> out.contains(self.trie@[p])
    }

    /// `link` and `out` are the right suffix link and output set for path `s`.
    pub open spec fn link_fields_ok(self, s: Seq<char>, link: Option<usize>, out: Seq<usize>) -> bool {
        &&& s.len() > 0 ==> {
            &&& link is Some
            &&& self.is_node(link->0)
            &&& longest_proper_suffix(self.words@, s, self.paths@[link->0 as int])
        }
        &&& self.outputs_ok(s, out)
    }

    pub open spec fn link_ok(self, s: Seq<char>) -> bool {
        let n = self.nodes@[self.trie@[s] as int];
        self.link_fields_ok(s, n.suffix_link, n.output_links@)
    }

    /// Every node of the trie has its right suffix link and output set.
    pub open spec fn links_wf(self) -> bool {
        forall|s: Seq<char>| #[trigger] self.trie@.contains_key(s) ==> self.link_ok(s)
    }

    /// The automaton is ready for searching.
    pub open spec fn wf(self) -> bool {
        self.trie_wf() && self.links_wf()
    }

    pub fn new() -> (r: Self)
        ensures
            r.wf(),
            r@ == Set::<Seq<char>>::empty(),
            r.root == 0,
            r.nodes@.len() == 1,
            r.nodes@[0].children@.len() == 0,
            r.nodes@[0].output_links@.len() == 0,
            r.nodes@[0].suffix_link is None,
            r.nodes@[0].length == 0,
    {
        let mut nodes: Vec<AhoCorasickNode> = Vec::new();
        nodes.push(AhoCorasickNode::new());
        let ghost trie = map![Seq::<char>::empty() => 0usize];
        let ghost paths = seq![Seq::<char>::empty()];
        let ghost words = Set::<Seq<char>>::empty();
        let r = AhoCorasick { nodes, root: 0, trie: Ghost(trie), paths: Ghost(paths), words: Ghost(words) };
        assert forall|s: Seq<char>|
            #[trigger] r.trie@.contains_key(s) <==> prefix_of_some(r.words@, s) by {
            if s.len() == 0 {
                assert(s =~= Seq::<char>::empty());
            }
        }
        assert forall|s: Seq<char>| #[trigger] r.trie@.contains_key(s) implies r.node_ok(s) by {
            assert(s == Seq::<char>::empty());
            assert forall|c: char| !#[trigger] r.trie@.contains_key(s.push(c)) by {
                assert(s.push(c).len() == 1);
            }
        }
        assert(r.nodes@[0].output_links@ =~= Seq::<usize>::empty());
        assert(r.trie_wf_with(|s: Seq<char>| false));
        assert forall|s: Seq<char>| #[trigger] r.trie@.contains_key(s) implies r.link_ok(s) by {
            assert(s == Seq::<char>::empty());
        }
        r
    }

    /// Adds `word` to the dictionary.
    pub fn insert(&mut self, word: &str)
        requires
            old(self).wf(),
        ensures
            final(self).wf(),
            final(self)@ == old(self)@.insert(word@),
            old(self).extends_along(*final(self), word@),
    {
        self.insert_trie(word);
        let ghost mid = *self;
        self.construct_links();
        assert forall|i: int|
            0 <= i < old(self).nodes.len() implies old(self).nodes@[i].children@.is_prefix_of(
            #[trigger] self.nodes@[i].children@,
        ) by {
            assert(mid.nodes@[i].children@.len() >= 0);
            assert(self.nodes@[i].children == mid.nodes@[i].children);
        }
    }

    /// Adds every word of `words` to the dictionary, rebuilding the links once.
    pub fn build(&mut self, words: Vec<&str>)
        requires
            old(self).wf(),
        ensures
            final(self).wf(),
            final(self)@ == old(self)@.union(views_of(words@).to_set()),
            old(self).nodes.len() <= final(self).nodes.len(),
            forall|s: Seq<char>|
                #[trigger] old(self).trie@.contains_key(s) ==> final(self).trie@.contains_key(s)
                    && final(self).trie@[s] == old(self).trie@[s],
    {
        let mut k: usize = 0;
        while k < words.len()
            invariant
                old(self).nodes.len() <= self.nodes.len(),
                forall|s: Seq<char>|
                    #[trigger] old(self).trie@.contains_key(s) ==> self.trie@.contains_key(s)
                        && self.trie@[s] == old(self).trie@[s],
                self.trie_wf(),
                k <= words.len(),
                self@ == old(self)@.union(views_of(words@.subrange(0, k as int)).to_set()),
            decreases words.len() - k,
        {
            self.insert_trie(words[k]);
            proof {
                let before = views_of(words@.subrange(0, k as int));
                let after = views_of(words@.subrange(0, k + 1));
                let x = words@[k as int]@;
                assert(after =~= before.push(x));
                assert forall|y: Seq<char>| after.contains(y) <==> before.contains(y) || y == x by {
                    if after.contains(y) {
                        let i = choose|i: int| 0 <= i < after.len() && after[i] == y;
                        if i < before.len() {
                            assert(before[i] == y);
                        }
                    }
                    if before.contains(y) {
                        let i = choose|i: int| 0 <= i < before.len() && before[i] == y;
                        assert(after[i] == y);
                    }
                    if y == x {
                        assert(after[before.len() as int] == y);
                    }
                }
                assert(after.to_set() =~= before.to_set().insert(x));
            }
            k += 1;
        }
        assert(words@.subrange(0, words.len() as int) =~= words@);
        self.construct_links();
    }

    /// Removes `word` from the dictionary; nothing happens where it is absent.
    pub fn remove(&mut self, word: &str)
        requires
            old(self).wf(),
        ensures
            final(self).wf(),
            final(self)@ == old(self)@.remove(word@),
            final(self).nodes.len() == old(self).nodes.len(),
            final(self).paths@ == old(self).paths@,
            forall|s: Seq<char>|
                #[trigger] final(self).trie@.contains_key(s) ==> old(self).trie@.contains_key(s)
                    && final(self).trie@[s] == old(self).trie@[s],
            !old(self)@.contains(word@) ==> final(self).trie@ == old(self).trie@,
    {
        let chars = chars_of(word);
        self.delete_trie_node(&chars);
        self.delete_links();
        self.construct_links();
    }

    /// No suffix of `u` longer than `len` that is a trie path continues with `c`.
    closed spec fn no_longer_step(self, u: Seq<char>, len: int, c: char) -> bool {
        forall|t2: Seq<char>|
            #![trigger self.trie@.contains_key(t2.push(c))]
            is_suffix(t2, u) && t2.len() > len && self.trie@.contains_key(t2)
                ==> !self.trie@.contains_key(t2.push(c))
    }

    /// No suffix of `u` longer than `len` is a trie path.
    closed spec fn longest_in_trie(self, u: Seq<char>, len: int) -> bool {
        forall|t2: Seq<char>|
            #![trigger is_suffix(t2, u), self.trie@.contains_key(t2)]
            is_suffix(t2, u) && self.trie@.contains_key(t2) ==> t2.len() <= len
    }

    /// The pairs emitted at end position `end` for the output nodes `outs`.
    closed spec fn emitted(self, outs: Seq<usize>, end: int) -> Seq<(usize, usize)> {
        outs.map(
            |k: int, o: usize|
                ((end - self.paths@[o as int].len()) as usize, self.paths@[o as int].len() as usize),
        )
    }

    /// Reports all occurrences of the dictionary's patterns in `text`, as
    /// `(start, length)` pairs over code points, in the order of their end positions.
    pub fn search(&self, text: &str) -> (r: Vec<(usize, usize)>)
        requires
            self.wf(),
        ensures
            search_result(self@, text@, r@),
    {
        let chars = chars_of(text);
        let ghost t = text@;
        let mut output: Vec<(usize, usize)> = Vec::new();
        if self.nodes[self.root].output_links.len() > 0 {
            output.push((0, 0));
        }
        proof {
            self.lemma_search_start(t, output@);
        }
        let mut node: usize = self.root;
        let ghost mut cur: Seq<char> = Seq::empty();
        let mut i: usize = 0;
        proof {
            lemma_suffix_self(t.subrange(0, 0));
        }
        while i < chars.len()
            invariant
                self.wf(),
                chars@ == t,
                i <= t.len(),
                self.trie@.contains_key(cur),
                self.trie@[cur] == node,
                is_suffix(cur, t.subrange(0, i as int)),
                i < t.len() ==> self.no_longer_step(t.subrange(0, i as int), cur.len() as int, t[i as int]),
                reports_upto(self@, t, output@, i as int),
            decreases 2 * (t.len() - i) + cur.len(),
        {
            let c = chars[i];
            proof {
                assert(self.node_ok(cur));
                assert(self.link_ok(cur));
            }
            match child_index(&self.nodes[node].children, c) {
                Some(j) => {
                    node = self.nodes[node].children[j].1;
                    proof {
                        self.lemma_step_child(t, i as int, cur);
                        cur = cur.push(c);
                    }
                    i += 1;
                    let ghost base = output@;
                    let mut m: usize = 0;
                    proof {
                        assert(self.node_ok(cur));
                        assert(self.link_ok(cur));
                    }
                    while m < self.nodes[node].output_links.len()
                        invariant
                            self.wf(),
                            self.trie@.contains_key(cur),
                            self.trie@[cur] == node,
                            cur.len() <= i,
                            self.outputs_ok(cur, self.nodes@[node as int].output_links@),
                            m <= self.nodes@[node as int].output_links@.len(),
                            output@ == base + self.emitted(
                                self.nodes@[node as int].output_links@.subrange(0, m as int),
                                i as int,
                            ),
                        decreases self.nodes@[node as int].output_links@.len() - m,
                    {
                        let out_node = self.nodes[node].output_links[m];
                        proof {
                            let p = self.paths@[out_node as int];
                            assert(self.words@.contains(p));
                            assert(self.node_ok(p));
                            if p.len() == 0 {
                                assert(p =~= Seq::<char>::empty());
                            }
                        }
                        let len = self.nodes[out_node].length;
                        output.push((i - len, len));
                        proof {
                            let outs = self.nodes@[node as int].output_links@;
                            assert(outs.subrange(0, m + 1) =~= outs.subrange(0, m as int).push(out_node));
                            assert(self.emitted(outs.subrange(0, m + 1), i as int) =~= self.emitted(outs.subrange(0, m as int), i as int).push(((i - len) as usize, len)));
                        }
                        m += 1;
                    }
                    proof {
                        let outs = self.nodes@[node as int].output_links@;
                        assert(outs.subrange(0, outs.len() as int) =~= outs);
                        self.lemma_emit(t, i as int, cur, base, output@);
                    }
                },
                None => {
                    if node == self.root {
                        proof {
                            self.lemma_step_root(t, i as int, cur, output@);
                        }
                        i += 1;
                        proof {
                            cur = Seq::empty();
                            lemma_suffix_self(t.subrange(0, i as int));
                        }
                    } else {
                        proof {
                            self.lemma_step_fail(t, i as int, cur);
                        }
                        node = self.nodes[node].suffix_link.unwrap();
                        proof {
                            cur = self.paths@[node as int];
                        }
                    }
                },
            }
        }
        output
    }

    proof fn lemma_search_start(self, t: Seq<char>, r: Seq<(usize, usize)>)
        requires
            self.wf(),
            r == (if self.nodes@[0].output_links@.len() > 0 {
                seq![(0usize, 0usize)]
            } else {
                Seq::<(usize, usize)>::empty()
            }),
        ensures
            reports_upto(self@, t, r, 0),
    {
        assert forall|a: usize, b: usize|
            #![trigger reported(self@, t, a as int, b as int)]
            reported(self@, t, a as int, b as int) && a + b <= 0 implies r.contains((a, b)) by {
            assert(r[0] == (0usize, 0usize));
        }
    }

    proof fn lemma_step_child(self, t: Seq<char>, i: int, cur: Seq<char>)
        requires
            self.trie_wf(),
            0 <= i < t.len(),
            is_suffix(cur, t.subrange(0, i)),
            self.no_longer_step(t.subrange(0, i), cur.len() as int, t[i]),
            self.trie@.contains_key(cur.push(t[i])),
        ensures
            is_suffix(cur.push(t[i]), t.subrange(0, i + 1)),
            self.longest_in_trie(t.subrange(0, i + 1), cur.len() + 1 as int),
            i + 1 < t.len() ==> self.no_longer_step(t.subrange(0, i + 1), cur.len() + 1 as int, t[i + 1]),
    {
        let c = t[i];
        let u = t.subrange(0, i);
        assert(t.subrange(0, i + 1) =~= u.push(c));
        lemma_push_suffix(cur, u, c);
        assert forall|t2: Seq<char>|
            #![trigger is_suffix(t2, u.push(c)), self.trie@.contains_key(t2)]
            is_suffix(t2, u.push(c)) && self.trie@.contains_key(t2) implies t2.len() <= cur.len() + 1 by {
            if t2.len() > cur.len() + 1 {
                lemma_suffix_of_push(t2, u, c);
                let t3 = t2.drop_last();
                lemma_prefix_closed(self.words@, t2, t3.len() as int);
                assert(t2.subrange(0, t3.len() as int) =~= t3);
                assert(self.trie@.contains_key(t3));
                assert(!self.trie@.contains_key(t3.push(c)));
            }
        }
    }

    proof fn lemma_step_root(self, t: Seq<char>, i: int, cur: Seq<char>, r: Seq<(usize, usize)>)
        requires
            self.trie_wf(),
            0 <= i < t.len(),
            self.trie@.contains_key(cur),
            self.trie@[cur] == 0,
            !has_key(self.nodes@[0].children@, t[i]),
            self.no_longer_step(t.subrange(0, i), cur.len() as int, t[i]),
            reports_upto(self@, t, r, i),
        ensures
            self.longest_in_trie(t.subrange(0, i + 1), 0),
            i + 1 < t.len() ==> self.no_longer_step(t.subrange(0, i + 1), 0, t[i + 1]),
            reports_upto(self@, t, r, i + 1),
    {
        let c = t[i];
        let u = t.subrange(0, i);
        let e = Seq::<char>::empty();
        assert(self.node_ok(e));
        assert(self.node_ok(cur));
        assert(cur =~= e);
        assert(!self.trie@.contains_key(e.push(c)));
        assert(t.subrange(0, i + 1) =~= u.push(c));
        assert forall|t2: Seq<char>|
            #![trigger is_suffix(t2, u.push(c)), self.trie@.contains_key(t2)]
            is_suffix(t2, u.push(c)) && self.trie@.contains_key(t2) implies t2.len() <= 0 by {
            if t2.len() > 0 {
                lemma_suffix_of_push(t2, u, c);
                let t3 = t2.drop_last();
                lemma_prefix_closed(self.words@, t2, t3.len() as int);
                assert(t2.subrange(0, t3.len() as int) =~= t3);
                assert(self.trie@.contains_key(t3));
                if t3.len() == 0 {
                    assert(t3 =~= e);
                }
            }
        }
        let w = t.subrange(0, i + 1);
        assert forall|a: usize, b: usize|
            #![trigger reported(self@, t, a as int, b as int)]
            reported(self@, t, a as int, b as int) && a + b <= i + 1 implies r.contains((a, b)) by {
            if a + b == i + 1 {
                if b > 0 {
                    let p = t.subrange(a as int, a + b);
                    assert(w.subrange(w.len() - p.len(), w.len() as int) =~= p);
                    lemma_pattern_is_path(self.words@, p);
                    assert(is_suffix(p, w));
                    assert(self.trie@.contains_key(p));
                    assert(false);
                } else {
                    let j = choose|j: int| 0 <= j < w.len() && #[trigger] prefix_of_some(self.words@, w.subrange(j, w.len() as int));
                    let p = w.subrange(j, w.len() as int);
                    assert(w.subrange(w.len() - p.len(), w.len() as int) =~= p);
                    assert(is_suffix(p, w));
                    assert(self.trie@.contains_key(p));
                    assert(false);
                }
            }
        }
    }

    proof fn lemma_step_fail(self, t: Seq<char>, i: int, cur: Seq<char>)
        requires
            self.wf(),
            0 <= i < t.len(),
            self.trie@.contains_key(cur),
            self.trie@[cur] != 0,
            is_suffix(cur, t.subrange(0, i)),
            !has_key(self.nodes@[self.trie@[cur] as int].children@, t[i]),
            self.no_longer_step(t.subrange(0, i), cur.len() as int, t[i]),
        ensures
            self.nodes@[self.trie@[cur] as int].suffix_link is Some,
            ({
                let g = self.nodes@[self.trie@[cur] as int].suffix_link->0;
                &&& self.is_node(g)
                &&& is_suffix(self.paths@[g as int], t.subrange(0, i))
                &&& self.paths@[g as int].len() < cur.len()
                &&& self.no_longer_step(t.subrange(0, i), self.paths@[g as int].len() as int, t[i])
            }),
    {
        let c = t[i];
        let u = t.subrange(0, i);
        assert(self.node_ok(cur));
        assert(self.link_ok(cur));
        if cur.len() == 0 {
            assert(cur =~= Seq::<char>::empty());
        }
        assert(!self.trie@.contains_key(cur.push(c)));
        let g = self.nodes@[self.trie@[cur] as int].suffix_link->0;
        let pg = self.paths@[g as int];
        lemma_suffix_of_suffix(pg, cur, u);
        assert forall|t2: Seq<char>|
            #![trigger self.trie@.contains_key(t2.push(c))]
            is_suffix(t2, u) && t2.len() > pg.len() && self.trie@.contains_key(t2) implies !self.trie@.contains_key(t2.push(c)) by {
            if t2.len() == cur.len() {
                lemma_suffix_same_len(t2, cur, u);
            } else if t2.len() < cur.len() {
                lemma_suffixes_nest(t2, cur, u);
                assert(prefix_of_some(self.words@, t2));
            }
        }
    }

    proof fn lemma_emit(self, t: Seq<char>, i: int, cur: Seq<char>, base: Seq<(usize, usize)>, r: Seq<(usize, usize)>)
        requires
            self.wf(),
            1 <= i <= t.len(),
            t.len() <= usize::MAX,
            self.trie@.contains_key(cur),
            cur.len() > 0,
            is_suffix(cur, t.subrange(0, i)),
            self.longest_in_trie(t.subrange(0, i), cur.len() as int),
            reports_upto(self@, t, base, i - 1),
            r == base + self.emitted(self.nodes@[self.trie@[cur] as int].output_links@, i),
        ensures
            reports_upto(self@, t, r, i),
    {
        let outs = self.nodes@[self.trie@[cur] as int].output_links@;
        let em = self.emitted(outs, i);
        let w = t.subrange(0, i);
        assert(self.link_ok(cur));
        assert(self.outputs_ok(cur, outs));
        assert forall|m: int| #![trigger outs[m]] 0 <= m < outs.len() implies {
            let p = self.paths@[outs[m] as int];
            &&& is_suffix(p, w)
            &&& t.subrange(i - p.len(), i) == p
            &&& em[m] == ((i - p.len()) as usize, p.len() as usize)
            &&& reported(self@, t, i - p.len(), p.len() as int)
        } by {
            let p = self.paths@[outs[m] as int];
            lemma_suffix_of_suffix(p, cur, w);
            assert(w.subrange(w.len() - p.len(), w.len() as int) =~= t.subrange(i - p.len(), i));
            if p.len() == 0 {
                assert(p =~= Seq::<char>::empty());
                let j = i - cur.len();
                assert(w.subrange(w.len() - cur.len(), w.len() as int) == cur);
                assert(prefix_of_some(self.words@, w.subrange(j, w.len() as int)));
            }
        }
        assert forall|k: int|
            #![trigger r[k]]
            0 <= k < r.len() implies reported(self@, t, r[k].0 as int, r[k].1 as int) && r[k].0 + r[k].1 <= i by {
            if k >= base.len() {
                assert(r[k] == em[k - base.len()]);
            }
        }
        assert forall|a: usize, b: usize|
            #![trigger reported(self@, t, a as int, b as int)]
            reported(self@, t, a as int, b as int) && a + b <= i implies r.contains((a, b)) by {
            if a + b <= i - 1 {
                let k = choose|k: int| 0 <= k < base.len() && base[k] == (a, b);
                assert(r[k] == base[k]);
            } else {
                let p = t.subrange(a as int, a + b);
                assert(w.subrange(w.len() - p.len(), w.len() as int) =~= p);
                if b == 0 {
                    assert(p =~= Seq::<char>::empty());
                }
                lemma_pattern_is_path(self.words@, p);
                assert(is_suffix(p, w));
                assert(self.trie@.contains_key(p));
                assert(p.len() <= cur.len());
                lemma_suffixes_nest(p, cur, w);
                let m = choose|m: int| 0 <= m < outs.len() && outs[m] == self.trie@[p];
                assert(self.node_ok(p));
                assert(r[base.len() + m] == em[m]);
            }
        }
        assert forall|k1: int, k2: int|
            0 <= k1 <= k2 < r.len() implies #[trigger] r[k1].0 + r[k1].1 <= #[trigger] r[k2].0 + r[k2].1 by {
            if k1 >= base.len() {
                assert(r[k1] == em[k1 - base.len()]);
            }
            if k2 >= base.len() {
                assert(r[k2] == em[k2 - base.len()]);
            }
        }
        assert(r.no_duplicates()) by {
            assert forall|k1: int, k2: int| 0 <= k1 < r.len() && 0 <= k2 < r.len() && k1 != k2 implies r[k1] != r[k2] by {
                if k1 >= base.len() && k2 >= base.len() {
                    let m1 = k1 - base.len();
                    let m2 = k2 - base.len();
                    assert(r[k1] == em[m1]);
                    assert(r[k2] == em[m2]);
                    let p1 = self.paths@[outs[m1] as int];
                    let p2 = self.paths@[outs[m2] as int];
                    if p1.len() == p2.len() {
                        lemma_suffix_of_suffix(p1, cur, w);
                        lemma_suffix_of_suffix(p2, cur, w);
                        lemma_suffix_same_len(p1, p2, w);
                    }
                } else if k1 >= base.len() {
                    assert(r[k1] == em[k1 - base.len()]);
                    assert(r[k2] == base[k2]);
                } else if k2 >= base.len() {
                    assert(r[k2] == em[k2 - base.len()]);
                    assert(r[k1] == base[k1]);
                }
            }
        }
    }

    /// Adds the path of `word` to the trie and marks its end; suffix links and
    /// output sets are left as they were.
    fn insert_trie(&mut self, word: &str)
        requires
            old(self).trie_wf(),
        ensures
            final(self).trie_wf(),
            final(self)@ == old(self)@.insert(word@),
            old(self).extends_along(*final(self), word@),
            final(self).trie@.contains_key(word@),
            final(self).nodes@[final(self).trie@[word@] as int].output_links@.contains(
                final(self).trie@[word@],
            ),
            forall|i: int|
                #![trigger final(self).nodes@[i]]
                0 <= i < old(self).nodes.len() ==> {
                    &&& final(self).nodes@[i].suffix_link == old(self).nodes@[i].suffix_link
                    &&& i != final(self).trie@[word@] ==> final(self).nodes@[i].output_links
                        == old(self).nodes@[i].output_links && final(self).nodes@[i].length
                        == old(self).nodes@[i].length
                },
    {
        let chars = chars_of(word);
        let ghost w = word@;
        let mut node_id: usize = 0;
        let mut k: usize = 0;
        assert(w.subrange(0, 0) =~= Seq::<char>::empty());
        assert forall|s: Seq<char>|
            #![trigger self.trie@.contains_key(s)]
            #![trigger prefix_of_some(self.words@, s)]
            self.trie@.contains_key(s) <==> (prefix_of_some(self.words@, s) || (s.is_prefix_of(w)
                && s.len() <= 0)) by {
            if s.len() == 0 {
                assert(s =~= Seq::<char>::empty());
            }
        }
        while k < chars.len()
            invariant
                chars@ == w,
                w == word@,
                k <= chars.len(),
                self.trie_wf_with(|s: Seq<char>| s.is_prefix_of(w) && s.len() <= k),
                self.words@ == old(self).words@,
                self.trie@.contains_key(w.subrange(0, k as int)),
                self.trie@[w.subrange(0, k as int)] == node_id,
                old(self).nodes.len() <= self.nodes.len() <= old(self).nodes.len() + k,
                forall|s: Seq<char>|
                    #[trigger] old(self).trie@.contains_key(s) ==> self.trie@.contains_key(s)
                        && self.trie@[s] == old(self).trie@[s],
                forall|i: int|
                    #![trigger self.nodes@[i]]
                    0 <= i < old(self).nodes.len() ==> {
                        &&& old(self).nodes@[i].children@.is_prefix_of(self.nodes@[i].children@)
                        &&& self.nodes@[i].suffix_link == old(self).nodes@[i].suffix_link
                        &&& self.nodes@[i].output_links == old(self).nodes@[i].output_links
                        &&& self.nodes@[i].length == old(self).nodes@[i].length
                    },
                forall|i: int|
                    #![trigger self.paths@[i]]
                    old(self).nodes.len() <= i < self.nodes.len() ==> self.trie@.contains_key(
                        self.paths@[i],
                    ) && self.trie@[self.paths@[i]] == i && self.paths@[i].is_prefix_of(w),
            decreases chars.len() - k,
        {
            let c = chars[k];
            let ghost p = w.subrange(0, k as int);
            let ghost q = w.subrange(0, k + 1);
            assert(q =~= p.push(c));
            assert(self.node_ok(p));
            match child_index(&self.nodes[node_id].children, c) {
                Some(j) => {
                    node_id = self.nodes[node_id].children[j].1;
                    proof {
                        self.lemma_extend_known(w, k as int);
                    }
                },
                None => {
                    let new_id = self.nodes.len();
                    let ghost before = *self;
                    self.nodes.push(AhoCorasickNode::new());
                    self.nodes[node_id].children.push((c, new_id));
                    proof {
                        self.trie@ = self.trie@.insert(q, new_id);
                        self.paths@ = self.paths@.push(q);
                    }
                    proof {
                        before.lemma_add_child(*self, w, k as int, node_id, new_id);
                        assert(q.is_prefix_of(w));
                        assert forall|i: int|
                            #![trigger self.nodes@[i]]
                            0 <= i < old(self).nodes.len() implies old(self).nodes@[i].children@.is_prefix_of(self.nodes@[i].children@) by {
                            let a = old(self).nodes@[i].children@;
                            let b = before.nodes@[i].children@;
                            assert(a.is_prefix_of(b));
                            if i == node_id {
                                assert(b.is_prefix_of(self.nodes@[i].children@)) by {
                                    assert(self.nodes@[i].children@.subrange(0, b.len() as int) =~= b);
                                }
                                assert(self.nodes@[i].children@.subrange(0, a.len() as int) =~= b.subrange(0, a.len() as int));
                            }
                        }
                        assert forall|i: int|
                            #![trigger self.paths@[i]]
                            old(self).nodes.len() <= i < self.nodes.len() implies self.trie@.contains_key(
                                self.paths@[i],
                            ) && self.trie@[self.paths@[i]] == i && self.paths@[i].is_prefix_of(w) by {
                            if i < new_id {
                                assert(before.paths@[i] == self.paths@[i]);
                            }
                        }
                    }
                    node_id = new_id;
                },
            }
            k += 1;
        }
        assert(w.subrange(0, k as int) =~= w);
        let ghost before = *self;
        if k > 0 {
            self.nodes[node_id].length = k;
        }
        if !contains_id(&self.nodes[node_id].output_links, node_id) {
            self.nodes[node_id].output_links.push(node_id);
        }
        proof {
            self.words@ = self.words@.insert(w);
            before.lemma_mark_end(*self, w, node_id);
            assert(self.nodes@[node_id as int].output_links@.contains(node_id)) by {
                let o = before.nodes@[node_id as int].output_links@;
                if !o.contains(node_id) {
                    assert(self.nodes@[node_id as int].output_links@[o.len() as int] == node_id);
                }
            }
        }
    }

    /// `id` is the node of a prefix of `w`.
    pub open spec fn on_path(self, w: Seq<char>, id: usize) -> bool {
        exists|j: int|
            0 <= j <= w.len() && #[trigger] self.trie@.contains_key(w.subrange(0, j))
                && self.trie@[w.subrange(0, j)] == id
    }

    /// `after` keeps every node of `self` under the same id and path, with all its
    /// edges, and adds nodes, under fresh ids, only for prefixes of `w`.
    pub open spec fn extends_along(self, after: Self, w: Seq<char>) -> bool {
        &&& self.nodes.len() <= after.nodes.len() <= self.nodes.len() + w.len()
        &&& forall|s: Seq<char>|
            #[trigger] self.trie@.contains_key(s) ==> after.trie@.contains_key(s)
                && after.trie@[s] == self.trie@[s]
        &&& forall|i: int|
            0 <= i < self.nodes.len() ==> self.nodes@[i].children@.is_prefix_of(
                #[trigger] after.nodes@[i].children@,
            )
        &&& forall|i: int|
            #![trigger after.paths@[i]]
            self.nodes.len() <= i < after.nodes.len() ==> after.trie@.contains_key(after.paths@[i])
                && after.trie@[after.paths@[i]] == i && after.paths@[i].is_prefix_of(w)
    }

    /// Appending a fresh node for the next step along `w` keeps the trie consistent.
    proof fn lemma_add_child(self, after: Self, w: Seq<char>, k: int, p_id: usize, new_id: usize)
        requires
            0 <= k < w.len(),
            self.trie_wf_with(|s: Seq<char>| s.is_prefix_of(w) && s.len() <= k),
            self.trie@.contains_key(w.subrange(0, k)),
            self.trie@[w.subrange(0, k)] == p_id,
            !has_key(self.nodes@[p_id as int].children@, w[k]),
            new_id == self.nodes.len(),
            after.nodes.len() == new_id + 1,
            after.nodes@[new_id as int].children@.len() == 0,
            after.nodes@[new_id as int].length == 0,
            after.nodes@[p_id as int].children@ == self.nodes@[p_id as int].children@.push(
                (w[k], new_id),
            ),
            after.nodes@[p_id as int].length == self.nodes@[p_id as int].length,
            after.nodes@[p_id as int].suffix_link == self.nodes@[p_id as int].suffix_link,
            after.nodes@[p_id as int].output_links@ == self.nodes@[p_id as int].output_links@,
            forall|i: int| 0 <= i < new_id && i != p_id ==> after.nodes@[i] == self.nodes@[i],
            after.trie@ == self.trie@.insert(w.subrange(0, k + 1), new_id),
            after.paths@ == self.paths@.push(w.subrange(0, k + 1)),
            after.words@ == self.words@,
            after.root == self.root,
        ensures
            after.trie_wf_with(|s: Seq<char>| s.is_prefix_of(w) && s.len() <= k + 1),
            !self.trie@.contains_key(w.subrange(0, k + 1)),
    {
        let p = w.subrange(0, k);
        let q = w.subrange(0, k + 1);
        assert(q =~= p.push(w[k]));
        assert(self.node_ok(p));
        assert(!self.trie@.contains_key(q));
        assert forall|s: Seq<char>|
            #![trigger after.trie@.contains_key(s)]
            #![trigger prefix_of_some(after.words@, s)]
            after.trie@.contains_key(s) <==> (prefix_of_some(after.words@, s) || (s.is_prefix_of(w)
                && s.len() <= k + 1)) by {
            if s.is_prefix_of(w) && s.len() == k + 1 {
                assert(s =~= q);
            }
        }
        assert forall|s: Seq<char>| #[trigger] after.trie@.contains_key(s) implies after.node_ok(
            s,
        ) by {
            if s == q {
                assert forall|c: char| !#[trigger] after.trie@.contains_key(s.push(c)) by {
                    if after.trie@.contains_key(s.push(c)) {
                        assert(s.push(c) != q);
                        assert(self.trie@.contains_key(s.push(c)));
                        if prefix_of_some(self.words@, s.push(c)) {
                            lemma_prefix_closed(self.words@, s.push(c), s.len() as int);
                            assert(s.push(c).subrange(0, s.len() as int) =~= s);
                        } else {
                            assert(s.is_prefix_of(w)) by {
                                assert(w.subrange(0, s.len() as int) =~= s.push(c).subrange(0, s.len() as int));
                                assert(s.push(c).subrange(0, s.len() as int) =~= s);
                            }
                        }
                    }
                }
                if self.words@.contains(s) {
                    lemma_pattern_is_path(self.words@, s);
                }
            } else {
                assert(self.node_ok(s));
                let id = self.trie@[s];
                assert(id != new_id);
                let n = after.nodes@[id as int];
                assert forall|c: char| #[trigger] after.trie@.contains_key(s.push(c)) implies has_key(
                    n.children@,
                    c,
                ) by {
                    if s == p && c == w[k] {
                        assert(n.children@[n.children@.len() - 1].0 == c);
                    } else {
                        if s.push(c) == q {
                            assert(s =~= s.push(c).drop_last());
                            assert(p =~= q.drop_last());
                            assert(s.push(c)[s.len() as int] == c);
                            assert(q[k] == w[k]);
                        }
                        assert(self.trie@.contains_key(s.push(c)));
                        if s == p {
                            let kk = choose|kk: int|
                                0 <= kk < self.nodes@[p_id as int].children@.len()
                                    && #[trigger] self.nodes@[p_id as int].children@[kk].0 == c;
                            assert(n.children@[kk].0 == c);
                        }
                    }
                }
                assert forall|kk: int|
                    #![trigger n.children@[kk]]
                    0 <= kk < n.children@.len() implies after.trie@.contains_key(
                    s.push(n.children@[kk].0),
                ) && after.trie@[s.push(n.children@[kk].0)] == n.children@[kk].1 by {
                    if s == p && kk == n.children@.len() - 1 {
                    } else {
                        assert(self.nodes@[id as int].children@[kk] == n.children@[kk]);
                        let x = n.children@[kk].0;
                        if s.push(x) == q {
                            assert(s =~= s.push(x).drop_last());
                            assert(p =~= q.drop_last());
                        }
                    }
                }
                if s == p {
                    assert forall|i: int, j: int|
                        0 <= i < n.children@.len() && 0 <= j < n.children@.len() && i != j implies #[trigger] n.children@[i].0
                        != #[trigger] n.children@[j].0 by {
                        if i == n.children@.len() - 1 {
                            assert(self.nodes@[p_id as int].children@[j].0 == n.children@[j].0);
                        } else if j == n.children@.len() - 1 {
                            assert(self.nodes@[p_id as int].children@[i].0 == n.children@[i].0);
                        } else {
                            assert(self.nodes@[p_id as int].children@[i].0 == n.children@[i].0);
                            assert(self.nodes@[p_id as int].children@[j].0 == n.children@[j].0);
                        }
                    }
                }
            }
        }
    }

    /// Where the next step along `w` already has a node, admitting one more
    /// prefix of `w` changes nothing.
    proof fn lemma_extend_known(self, w: Seq<char>, k: int)
        requires
            0 <= k < w.len(),
            self.trie_wf_with(|s: Seq<char>| s.is_prefix_of(w) && s.len() <= k),
            self.trie@.contains_key(w.subrange(0, k + 1)),
        ensures
            self.trie_wf_with(|s: Seq<char>| s.is_prefix_of(w) && s.len() <= k + 1),
    {
        assert forall|s: Seq<char>|
            #![trigger self.trie@.contains_key(s)]
            #![trigger prefix_of_some(self.words@, s)]
            self.trie@.contains_key(s) <==> (prefix_of_some(self.words@, s) || (s.is_prefix_of(w)
                && s.len() <= k + 1)) by {
            if s.is_prefix_of(w) && s.len() == k + 1 {
                assert(s =~= w.subrange(0, k + 1));
            }
        }
    }

    /// Marking the end of the fully added path of `w` adds `w` to the dictionary.
    proof fn lemma_mark_end(self, after: Self, w: Seq<char>, id: usize)
        requires
            self.trie_wf_with(|s: Seq<char>| s.is_prefix_of(w) && s.len() <= w.len()),
            self.trie@.contains_key(w),
            self.trie@[w] == id,
            after.nodes.len() == self.nodes.len(),
            after.nodes@[id as int].children@ == self.nodes@[id as int].children@,
            after.nodes@[id as int].suffix_link == self.nodes@[id as int].suffix_link,
            w.len() > 0 ==> after.nodes@[id as int].length == w.len(),
            w.len() == 0 ==> after.nodes@[id as int].length == self.nodes@[id as int].length,
            after.nodes@[id as int].output_links@ == (if self.nodes@[id as int].output_links@.contains(id) {
                self.nodes@[id as int].output_links@
            } else {
                self.nodes@[id as int].output_links@.push(id)
            }),
            forall|i: int| 0 <= i < after.nodes.len() && i != id ==> after.nodes@[i] == self.nodes@[i],
            after.trie@ == self.trie@,
            after.paths@ == self.paths@,
            after.words@ == self.words@.insert(w),
            after.root == self.root,
        ensures
            after.trie_wf(),
    {
        assert forall|s: Seq<char>|
            #![trigger after.trie@.contains_key(s)]
            #![trigger prefix_of_some(after.words@, s)]
            after.trie@.contains_key(s) <==> (prefix_of_some(after.words@, s) || false) by {
            if prefix_of_some(self.words@, s) && s.len() > 0 {
                let p = choose|p: Seq<char>| #[trigger] self.words@.contains(p) && s.is_prefix_of(p);
                assert(after.words@.contains(p));
            }
            if prefix_of_some(after.words@, s) && s.len() > 0 {
                let p = choose|p: Seq<char>| #[trigger] after.words@.contains(p) && s.is_prefix_of(p);
                if p != w {
                    assert(self.words@.contains(p));
                }
            }
            if s.is_prefix_of(w) && s.len() > 0 {
                assert(after.words@.contains(w));
            }
        }
        assert forall|s: Seq<char>| #[trigger] after.trie@.contains_key(s) implies after.node_ok(
            s,
        ) by {
            assert(self.node_ok(s));
            let sid = self.trie@[s];
            assert(after.nodes@[sid as int].children@ == self.nodes@[sid as int].children@);
        }
        if w.len() == 0 {
            assert(w =~= Seq::<char>::empty());
            assert(id == 0);
            if self.words@.contains(w) {
                assert(self.nodes@[0].output_links@[0] == 0);
            } else {
                assert(after.nodes@[0].output_links@ =~= seq![0usize]);
            }
        }
    }

    /// Removes `word` from the trie: clears the mark at its end, then cuts the
    /// nodes of its path that no longer lead to a pattern, from the end upwards.
    fn delete_trie_node(&mut self, word: &Vec<char>)
        requires
            old(self).trie_wf(),
        ensures
            final(self).trie_wf(),
            final(self)@ == old(self)@.remove(word@),
            !old(self)@.contains(word@) ==> *final(self) == *old(self),
            final(self).nodes.len() == old(self).nodes.len(),
            final(self).paths@ == old(self).paths@,
            final(self).root == old(self).root,
            forall|s: Seq<char>|
                #[trigger] final(self).trie@.contains_key(s) ==> old(self).trie@.contains_key(s)
                    && final(self).trie@[s] == old(self).trie@[s],
            forall|i: int|
                #![trigger final(self).nodes@[i]]
                0 <= i < old(self).nodes.len() && !old(self).on_path(word@, i as usize)
                    ==> final(self).nodes@[i] == old(self).nodes@[i],
    {
        let ghost w = word@;
        let mut ids: Vec<usize> = Vec::new();
        ids.push(0);
        let mut node: usize = 0;
        let mut k: usize = 0;
        assert(w.subrange(0, 0) =~= Seq::<char>::empty());
        while k < word.len()
            invariant
                self == old(self),
                self.trie_wf(),
                w == word@,
                k <= w.len(),
                self.trie@.contains_key(w.subrange(0, k as int)),
                self.trie@[w.subrange(0, k as int)] == node,
                ids@.len() == k + 1,
                forall|j: int|
                    0 <= j <= k ==> self.trie@.contains_key(w.subrange(0, j))
                        && #[trigger] ids@[j] == self.trie@[w.subrange(0, j)],
            decreases w.len() - k,
        {
            let ghost p = w.subrange(0, k as int);
            proof {
                assert(self.node_ok(p));
                assert(w.subrange(0, k + 1) =~= p.push(w[k as int]));
            }
            match child_index(&self.nodes[node].children, word[k]) {
                Some(j) => {
                    node = self.nodes[node].children[j].1;
                    ids.push(node);
                    k += 1;
                },
                None => {
                    proof {
                        if self.words@.contains(w) {
                            lemma_pattern_is_path(self.words@, w);
                            lemma_prefix_closed(self.words@, w, k + 1);
                        }
                        assert(self.words@.remove(w) =~= self.words@);
                    }
                    return;
                },
            }
        }
        assert(w.subrange(0, k as int) =~= w);
        if word.len() == 0 {
            if self.nodes[0].output_links.len() == 0 {
                proof {
                    assert(w =~= Seq::<char>::empty());
                    assert(!self.words@.contains(w));
                }
                return;
            }
            self.nodes[0].output_links = Vec::new();
            proof {
                assert(old(self).on_path(w, 0)) by {
                    assert(old(self).trie@.contains_key(w.subrange(0, 0)));
                }
                let e = Seq::<char>::empty();
                assert(w =~= e);
                let before = *old(self);
                self.words@ = self.words@.remove(w);
                before.lemma_drop_empty(*self);
            }
            return;
        }
        if self.nodes[node].length == 0 {
            proof {
                assert(self.node_ok(w));
                assert(self.words@.remove(w) =~= self.words@);
            }
            return;
        }
        let ghost before = *self;
        self.nodes[node].length = 0;
        proof {
            self.words@ = self.words@.remove(w);
            before.lemma_unmark(*self, w, node);
            assert(old(self).on_path(w, node)) by {
                assert(old(self).trie@.contains_key(w.subrange(0, w.len() as int)));
            }
        }
        let mut k: usize = word.len();
        while k > 0
            invariant
                w == word@,
                k <= w.len(),
                ids@.len() == w.len() + 1,
                self.trie_wf_with(|s: Seq<char>| s.is_prefix_of(w) && s.len() <= k),
                self.words@ == old(self).words@.remove(w),
                forall|j: int|
                    0 <= j <= k ==> self.trie@.contains_key(w.subrange(0, j))
                        && #[trigger] ids@[j] == self.trie@[w.subrange(0, j)],
                old(self).words@.contains(w),
                self.nodes.len() == old(self).nodes.len(),
                self.paths@ == old(self).paths@,
                self.root == old(self).root,
                forall|s: Seq<char>|
                    #[trigger] self.trie@.contains_key(s) ==> old(self).trie@.contains_key(s)
                        && self.trie@[s] == old(self).trie@[s],
                forall|i: int|
                    #![trigger self.nodes@[i]]
                    0 <= i < old(self).nodes.len() && !old(self).on_path(w, i as usize)
                        ==> self.nodes@[i] == old(self).nodes@[i],
            decreases k,
        {
            let cur = ids[k];
            if self.nodes[cur].length != 0 || self.nodes[cur].children.len() != 0 {
                proof {
                    self.lemma_keep_rest(w, k as int);
                }
                return;
            }
            let parent = ids[k - 1];
            let c = word[k - 1];
            proof {
                assert(w.subrange(0, k as int) =~= w.subrange(0, k - 1).push(c));
                assert(self.node_ok(w.subrange(0, k - 1)));
            }
            match child_index(&self.nodes[parent].children, c) {
                Some(j) => {
                    let ghost before = *self;
                    self.nodes[parent].children.remove(j);
                    proof {
                        self.trie@ = self.trie@.remove(w.subrange(0, k as int));
                        before.lemma_cut(*self, w, k as int, parent, j as int);
                        assert(old(self).on_path(w, parent)) by {
                            assert(old(self).trie@.contains_key(w.subrange(0, k - 1)));
                        }
                    }
                },
                None => {
                    proof {
                        assert(false);
                    }
                },
            }
            k -= 1;
        }
        proof {
            assert forall|s: Seq<char>|
                #![trigger self.trie@.contains_key(s)]
                #![trigger prefix_of_some(self.words@, s)]
                self.trie@.contains_key(s) <==> (prefix_of_some(self.words@, s) || false) by {
                if s.is_prefix_of(w) && s.len() <= 0 {
                    assert(s.len() == 0);
                }
            }
        }
    }

    /// Clearing the mark at the end of the pattern `w` takes it out of the
    /// dictionary; its path stays in the trie for now.
    proof fn lemma_unmark(self, after: Self, w: Seq<char>, id: usize)
        requires
            self.trie_wf(),
            w.len() > 0,
            self.trie@.contains_key(w),
            self.trie@[w] == id,
            self.nodes@[id as int].length != 0,
            after.nodes.len() == self.nodes.len(),
            after.nodes@[id as int].children == self.nodes@[id as int].children,
            after.nodes@[id as int].length == 0,
            forall|i: int| 0 <= i < self.nodes.len() && i != id ==> after.nodes@[i] == self.nodes@[i],
            after.trie@ == self.trie@,
            after.paths@ == self.paths@,
            after.words@ == self.words@.remove(w),
            after.root == self.root,
        ensures
            after.trie_wf_with(|s: Seq<char>| s.is_prefix_of(w) && s.len() <= w.len()),
    {
        assert(self.node_ok(w));
        assert(self.words@.contains(w));
        assert(id != 0) by {
            assert(self.node_ok(Seq::<char>::empty()));
        }
        assert forall|s: Seq<char>|
            #![trigger after.trie@.contains_key(s)]
            #![trigger prefix_of_some(after.words@, s)]
            after.trie@.contains_key(s) <==> (prefix_of_some(after.words@, s) || (s.is_prefix_of(w)
                && s.len() <= w.len())) by {
            if s.len() > 0 && prefix_of_some(self.words@, s) {
                let p = choose|p: Seq<char>| #[trigger] self.words@.contains(p) && s.is_prefix_of(p);
                if p != w {
                    assert(after.words@.contains(p));
                }
            }
            if s.len() > 0 && prefix_of_some(after.words@, s) {
                let p = choose|p: Seq<char>| #[trigger] after.words@.contains(p) && s.is_prefix_of(p);
                assert(self.words@.contains(p));
            }
            if s.is_prefix_of(w) && s.len() > 0 {
                assert(self.words@.contains(w));
            }
        }
        assert forall|s: Seq<char>| #[trigger] after.trie@.contains_key(s) implies after.node_ok(s) by {
            assert(self.node_ok(s));
            let sid = self.trie@[s];
            assert(after.nodes@[sid as int].children == self.nodes@[sid as int].children);
        }
    }

    /// Cutting the edge to `w[..k]`, a node that keeps neither a pattern nor an
    /// edge, removes that path from the trie.
    proof fn lemma_cut(self, after: Self, w: Seq<char>, k: int, parent: usize, j: int)
        requires
            1 <= k <= w.len(),
            self.trie_wf_with(|s: Seq<char>| s.is_prefix_of(w) && s.len() <= k),
            self.trie@.contains_key(w.subrange(0, k - 1)),
            self.trie@[w.subrange(0, k - 1)] == parent,
            self.trie@.contains_key(w.subrange(0, k)),
            self.nodes@[self.trie@[w.subrange(0, k)] as int].length == 0,
            self.nodes@[self.trie@[w.subrange(0, k)] as int].children@.len() == 0,
            0 <= j < self.nodes@[parent as int].children@.len(),
            self.nodes@[parent as int].children@[j].0 == w[k - 1],
            after.nodes.len() == self.nodes.len(),
            after.nodes@[parent as int].children@ == self.nodes@[parent as int].children@.remove(j),
            after.nodes@[parent as int].length == self.nodes@[parent as int].length,
            after.nodes@[parent as int].suffix_link == self.nodes@[parent as int].suffix_link,
            after.nodes@[parent as int].output_links == self.nodes@[parent as int].output_links,
            forall|i: int| 0 <= i < self.nodes.len() && i != parent ==> after.nodes@[i] == self.nodes@[i],
            after.trie@ == self.trie@.remove(w.subrange(0, k)),
            after.paths@ == self.paths@,
            after.words@ == self.words@,
            after.root == self.root,
        ensures
            after.trie_wf_with(|s: Seq<char>| s.is_prefix_of(w) && s.len() <= k - 1),
    {
        let q = w.subrange(0, k - 1);
        let p = w.subrange(0, k);
        assert(p =~= q.push(w[k - 1]));
        assert(self.node_ok(p));
        assert(self.node_ok(q));
        let pn = self.nodes@[parent as int].children@;
        let an = after.nodes@[parent as int].children@;
        assert(!prefix_of_some(self.words@, p)) by {
            if prefix_of_some(self.words@, p) {
                let pat = choose|pat: Seq<char>| #[trigger] self.words@.contains(pat) && p.is_prefix_of(pat);
                if pat.len() == p.len() {
                    assert(pat =~= p);
                } else {
                    let longer = pat.subrange(0, k + 1);
                    lemma_pattern_is_path(self.words@, pat);
                    lemma_prefix_closed(self.words@, pat, k + 1);
                    assert(longer =~= p.push(pat[k]));
                    assert(self.trie@.contains_key(p.push(pat[k])));
                }
            }
        }
        assert forall|s: Seq<char>|
            #![trigger after.trie@.contains_key(s)]
            #![trigger prefix_of_some(after.words@, s)]
            after.trie@.contains_key(s) <==> (prefix_of_some(after.words@, s) || (s.is_prefix_of(w)
                && s.len() <= k - 1)) by {
            if s.is_prefix_of(w) && s.len() == k {
                assert(s =~= p);
            }
        }
        assert forall|s: Seq<char>| #[trigger] after.trie@.contains_key(s) implies after.node_ok(s) by {
            assert(self.node_ok(s));
            let sid = self.trie@[s];
            if s == q {
                assert forall|i: int, i2: int|
                    0 <= i < an.len() && 0 <= i2 < an.len() && i != i2 implies #[trigger] an[i].0
                    != #[trigger] an[i2].0 by {
                    let a = if i < j { i } else { i + 1 };
                    let b = if i2 < j { i2 } else { i2 + 1 };
                    assert(an[i] == pn[a]);
                    assert(an[i2] == pn[b]);
                }
                assert forall|i: int|
                    #![trigger an[i]]
                    0 <= i < an.len() implies after.trie@.contains_key(s.push(an[i].0))
                    && after.trie@[s.push(an[i].0)] == an[i].1 by {
                    let a = if i < j { i } else { i + 1 };
                    assert(an[i] == pn[a]);
                    assert(pn[a].0 != pn[j].0);
                    if s.push(an[i].0) == p {
                        assert(s.push(an[i].0)[k - 1] == an[i].0);
                    }
                }
                assert forall|c: char| #[trigger] after.trie@.contains_key(s.push(c)) implies has_key(an, c) by {
                    assert(self.trie@.contains_key(s.push(c)));
                    let a = choose|a: int| 0 <= a < pn.len() && #[trigger] pn[a].0 == c;
                    if a == j {
                        assert(s.push(c) =~= p);
                    } else if a < j {
                        assert(an[a] == pn[a]);
                    } else {
                        assert(an[a - 1] == pn[a]);
                    }
                }
            } else {
                assert(sid != parent);
                assert forall|c: char| #[trigger] after.trie@.contains_key(s.push(c)) implies has_key(after.nodes@[sid as int].children@, c) by {
                    assert(self.trie@.contains_key(s.push(c)));
                }
                assert forall|i: int|
                    #![trigger after.nodes@[sid as int].children@[i]]
                    0 <= i < after.nodes@[sid as int].children@.len() implies after.trie@.contains_key(s.push(after.nodes@[sid as int].children@[i].0))
                    && after.trie@[s.push(after.nodes@[sid as int].children@[i].0)] == after.nodes@[sid as int].children@[i].1 by {
                    let x = after.nodes@[sid as int].children@[i].0;
                    assert(self.nodes@[sid as int].children@[i].0 == x);
                    if s.push(x) == p {
                        assert(s =~= s.push(x).drop_last());
                        assert(q =~= p.drop_last());
                    }
                }
            }
        }
    }

    /// The node of `w[..k]` keeps a pattern or an edge, so every remaining path
    /// leads to a pattern.
    proof fn lemma_keep_rest(self, w: Seq<char>, k: int)
        requires
            1 <= k <= w.len(),
            self.trie_wf_with(|s: Seq<char>| s.is_prefix_of(w) && s.len() <= k),
            self.trie@.contains_key(w.subrange(0, k)),
            self.nodes@[self.trie@[w.subrange(0, k)] as int].length != 0
                || self.nodes@[self.trie@[w.subrange(0, k)] as int].children@.len() != 0,
        ensures
            self.trie_wf(),
    {
        let p = w.subrange(0, k);
        assert(self.node_ok(p));
        let n = self.nodes@[self.trie@[p] as int];
        if n.length != 0 {
            lemma_pattern_is_path(self.words@, p);
        } else {
            let c = n.children@[0].0;
            assert(self.trie@.contains_key(p.push(c)));
            if !prefix_of_some(self.words@, p.push(c)) {
                assert(p.push(c).len() == k + 1);
            }
            lemma_prefix_closed(self.words@, p.push(c), k);
            assert(p.push(c).subrange(0, k) =~= p);
        }
        assert forall|s: Seq<char>|
            #![trigger self.trie@.contains_key(s)]
            #![trigger prefix_of_some(self.words@, s)]
            self.trie@.contains_key(s) <==> (prefix_of_some(self.words@, s) || false) by {
            if s.is_prefix_of(w) && s.len() <= k {
                lemma_prefix_closed(self.words@, p, s.len() as int);
                assert(p.subrange(0, s.len() as int) =~= s);
            }
        }
    }

    /// Clearing the root's output set drops the empty pattern.
    proof fn lemma_drop_empty(self, after: Self)
        requires
            self.trie_wf(),
            after.nodes.len() == self.nodes.len(),
            after.nodes@[0].children == self.nodes@[0].children,
            after.nodes@[0].length == self.nodes@[0].length,
            after.nodes@[0].suffix_link == self.nodes@[0].suffix_link,
            after.nodes@[0].output_links@.len() == 0,
            forall|i: int| 0 < i < self.nodes.len() ==> after.nodes@[i] == self.nodes@[i],
            after.trie@ == self.trie@,
            after.paths@ == self.paths@,
            after.words@ == self.words@.remove(Seq::<char>::empty()),
            after.root == self.root,
        ensures
            after.trie_wf(),
    {
        let e = Seq::<char>::empty();
        assert forall|s: Seq<char>|
            #![trigger after.trie@.contains_key(s)]
            #![trigger prefix_of_some(after.words@, s)]
            after.trie@.contains_key(s) <==> (prefix_of_some(after.words@, s) || false) by {
            if s.len() > 0 && prefix_of_some(self.words@, s) {
                let p = choose|p: Seq<char>| #[trigger] self.words@.contains(p) && s.is_prefix_of(p);
                assert(p != e);
                assert(after.words@.contains(p));
            }
            if s.len() > 0 && prefix_of_some(after.words@, s) {
                let p = choose|p: Seq<char>| #[trigger] after.words@.contains(p) && s.is_prefix_of(p);
                assert(self.words@.contains(p));
            }
        }
        assert forall|s: Seq<char>| #[trigger] after.trie@.contains_key(s) implies after.node_ok(s) by {
            assert(self.node_ok(s));
            let id = self.trie@[s];
            assert(after.nodes@[id as int].children == self.nodes@[id as int].children);
        }
        assert(after.nodes@[0].output_links@ =~= Seq::<usize>::empty());
    }

    /// Clears the suffix links and output sets, keeping only each node's own pattern.
    fn delete_links(&mut self)
        requires
            old(self).trie_wf(),
        ensures
            final(self).trie_wf(),
            final(self)@ == old(self)@,
            final(self).trie@ == old(self).trie@,
            final(self).paths@ == old(self).paths@,
            final(self).root == old(self).root,
            final(self).nodes.len() == old(self).nodes.len(),
            final(self).nodes@[0] == old(self).nodes@[0],
            forall|i: int|
                #![trigger final(self).nodes@[i]]
                1 <= i < final(self).nodes.len() ==> {
                    &&& final(self).nodes@[i].suffix_link is None
                    &&& final(self).nodes@[i].output_links@ == if final(self).nodes@[i].length != 0 {
                        seq![i as usize]
                    } else {
                        Seq::<usize>::empty()
                    }
                    &&& final(self).nodes@[i].children == old(self).nodes@[i].children
                    &&& final(self).nodes@[i].length == old(self).nodes@[i].length
                },
    {
        let mut id: usize = 1;
        while id < self.nodes.len()
            invariant
                1 <= id <= self.nodes.len(),
                self.nodes.len() == old(self).nodes.len(),
                self.trie@ == old(self).trie@,
                self.paths@ == old(self).paths@,
                self.words@ == old(self).words@,
                self.root == old(self).root,
                self.nodes@[0] == old(self).nodes@[0],
                forall|i: int|
                    0 <= i < self.nodes.len() ==> (#[trigger] self.nodes@[i]).children
                        == old(self).nodes@[i].children && self.nodes@[i].length
                        == old(self).nodes@[i].length,
                forall|i: int|
                    #![trigger self.nodes@[i]]
                    1 <= i < id ==> {
                        &&& self.nodes@[i].suffix_link is None
                        &&& self.nodes@[i].output_links@ == if self.nodes@[i].length != 0 {
                            seq![i as usize]
                        } else {
                            Seq::<usize>::empty()
                        }
                    },
            decreases self.nodes.len() - id,
        {
            let mut own: Vec<usize> = Vec::new();
            if self.nodes[id].length != 0 {
                own.push(id);
                assert(own@ =~= seq![id]);
            } else {
                assert(own@ =~= Seq::<usize>::empty());
            }
            self.nodes[id].suffix_link = None;
            self.nodes[id].output_links = own;
            id += 1;
        }
        proof {
            assert forall|s: Seq<char>| #[trigger] self.trie@.contains_key(s) implies self.node_ok(s) by {
                assert(old(self).node_ok(s));
                assert(self.nodes@[self.trie@[s] as int].children == old(self).nodes@[self.trie@[s] as int].children);
            }
            assert(self.trie_wf_with(|s: Seq<char>| false));
        }
    }

    /// Gives every node its suffix link and output set, level by level from the root.
    fn construct_links(&mut self)
        requires
            old(self).trie_wf(),
        ensures
            final(self).wf(),
            final(self)@ == old(self)@,
            final(self).trie@ == old(self).trie@,
            final(self).paths@ == old(self).paths@,
            final(self).root == old(self).root,
            final(self).nodes.len() == old(self).nodes.len(),
            final(self).nodes@[0] == old(self).nodes@[0],
            forall|i: int|
                0 <= i < final(self).nodes.len() ==> (#[trigger] final(self).nodes@[i]).children
                    == old(self).nodes@[i].children && final(self).nodes@[i].length
                    == old(self).nodes@[i].length,
    {
        let mut level: Vec<usize> = Vec::new();
        level.push(0);
        let ghost mut depth: int = 0;
        proof {
            let e = Seq::<char>::empty();
            assert(self.node_ok(e));
            lemma_suffix_self(e);
            assert forall|s: Seq<char>|
                #![trigger self.trie@.contains_key(s)]
                self.trie@.contains_key(s) && s.len() <= 0 implies self.link_ok(s) by {
                assert(s =~= e);
                let out = self.nodes@[0].output_links@;
                assert forall|p: Seq<char>|
                    #![trigger self.words@.contains(p), is_suffix(p, s)]
                    self.words@.contains(p) && is_suffix(p, s) implies out.contains(self.trie@[p]) by {
                    assert(p =~= e);
                    assert(out[0] == 0);
                }
            }
            assert forall|s: Seq<char>|
                #![trigger self.trie@.contains_key(s)]
                self.trie@.contains_key(s) && s.len() == 0 implies level@.contains(self.trie@[s]) by {
                assert(s =~= e);
                assert(level@[0] == 0);
            }
        }
        while level.len() > 0
            invariant
                self.trie_wf(),
                self.trie@ == old(self).trie@,
                self.paths@ == old(self).paths@,
                self.words@ == old(self).words@,
                self.nodes.len() == old(self).nodes.len(),
                self.root == old(self).root,
                self.nodes@[0] == old(self).nodes@[0],
                forall|i: int|
                    0 <= i < self.nodes.len() ==> (#[trigger] self.nodes@[i]).children
                        == old(self).nodes@[i].children && self.nodes@[i].length
                        == old(self).nodes@[i].length,
                0 <= depth <= self.nodes.len(),
                forall|s: Seq<char>|
                    #![trigger self.trie@.contains_key(s)]
                    self.trie@.contains_key(s) && s.len() <= depth ==> self.link_ok(s),
                forall|i: int|
                    0 <= i < level.len() ==> self.is_node(#[trigger] level@[i])
                        && self.paths@[level@[i] as int].len() == depth,
                forall|s: Seq<char>|
                    #![trigger self.trie@.contains_key(s)]
                    self.trie@.contains_key(s) && s.len() == depth ==> level@.contains(self.trie@[s]),
            decreases self.nodes.len() - depth,
        {
            proof {
                assert(self.node_ok(self.paths@[level@[0] as int]));
            }
            let mut next: Vec<usize> = Vec::new();
            let mut li: usize = 0;
            while li < level.len()
                invariant
                    self.trie_wf(),
                    self.trie@ == old(self).trie@,
                    self.paths@ == old(self).paths@,
                    self.words@ == old(self).words@,
                    self.nodes.len() == old(self).nodes.len(),
                    self.root == old(self).root,
                    self.nodes@[0] == old(self).nodes@[0],
                    forall|i: int|
                        0 <= i < self.nodes.len() ==> (#[trigger] self.nodes@[i]).children
                            == old(self).nodes@[i].children && self.nodes@[i].length
                            == old(self).nodes@[i].length,
                    0 <= depth < self.nodes.len(),
                    li <= level.len(),
                    forall|s: Seq<char>|
                        #![trigger self.trie@.contains_key(s)]
                        self.trie@.contains_key(s) && s.len() <= depth ==> self.link_ok(s),
                    forall|i: int|
                        0 <= i < level.len() ==> self.is_node(#[trigger] level@[i])
                            && self.paths@[level@[i] as int].len() == depth,
                    forall|m: int|
                        0 <= m < next.len() ==> self.is_node(#[trigger] next@[m])
                            && self.paths@[next@[m] as int].len() == depth + 1
                            && self.link_ok(self.paths@[next@[m] as int]),
                    forall|i: int, j: int|
                        0 <= i < li && 0 <= j < self.nodes@[level@[i] as int].children@.len()
                            ==> next@.contains(#[trigger] self.nodes@[level@[i] as int].children@[j].1),
                decreases level.len() - li,
            {
                let current = level[li];
                let ghost x = self.paths@[current as int];
                let mut ci: usize = 0;
                while ci < self.nodes[current].children.len()
                    invariant
                        self.trie_wf(),
                        self.trie@ == old(self).trie@,
                        self.paths@ == old(self).paths@,
                        self.words@ == old(self).words@,
                        self.nodes.len() == old(self).nodes.len(),
                        self.root == old(self).root,
                        self.nodes@[0] == old(self).nodes@[0],
                        forall|i: int|
                            0 <= i < self.nodes.len() ==> (#[trigger] self.nodes@[i]).children
                                == old(self).nodes@[i].children && self.nodes@[i].length
                                == old(self).nodes@[i].length,
                        0 <= depth < self.nodes.len(),
                        li < level.len(),
                        current == level@[li as int],
                        x == self.paths@[current as int],
                        ci <= self.nodes@[current as int].children@.len(),
                        forall|s: Seq<char>|
                            #![trigger self.trie@.contains_key(s)]
                            self.trie@.contains_key(s) && s.len() <= depth ==> self.link_ok(s),
                        forall|i: int|
                            0 <= i < level.len() ==> self.is_node(#[trigger] level@[i])
                                && self.paths@[level@[i] as int].len() == depth,
                        forall|m: int|
                            0 <= m < next.len() ==> self.is_node(#[trigger] next@[m])
                                && self.paths@[next@[m] as int].len() == depth + 1
                                && self.link_ok(self.paths@[next@[m] as int]),
                        forall|i: int, j: int|
                            0 <= i < li && 0 <= j < self.nodes@[level@[i] as int].children@.len()
                                ==> next@.contains(#[trigger] self.nodes@[level@[i] as int].children@[j].1),
                        forall|j: int|
                            0 <= j < ci ==> next@.contains(#[trigger] self.nodes@[current as int].children@[j].1),
                    decreases self.nodes@[current as int].children@.len() - ci,
                {
                    let key = self.nodes[current].children[ci].0;
                    let child = self.nodes[current].children[ci].1;
                    proof {
                        assert(self.node_ok(x));
                        assert(self.node_ok(x.push(key)));
                    }
                    let target = self.suffix_target(current, key);
                    let out = self.outputs_for(child, target);
                    let ghost before = *self;
                    self.nodes[child].suffix_link = Some(target);
                    self.nodes[child].output_links = out;
                    proof {
                        before.lemma_set_links(*self, child);
                    }
                    let ghost next_before = next@;
                    next.push(child);
                    proof {
                        assert forall|i: int, j: int|
                            0 <= i < li && 0 <= j < self.nodes@[level@[i] as int].children@.len()
                                implies next@.contains(#[trigger] self.nodes@[level@[i] as int].children@[j].1) by {
                            assert(before.nodes@[level@[i] as int].children == self.nodes@[level@[i] as int].children);
                            let m = choose|m: int| 0 <= m < next_before.len() && next_before[m] == before.nodes@[level@[i] as int].children@[j].1;
                            assert(next@[m] == next_before[m]);
                        }
                        assert forall|j: int|
                            0 <= j < ci + 1 implies next@.contains(#[trigger] self.nodes@[current as int].children@[j].1) by {
                            assert(before.nodes@[current as int].children == self.nodes@[current as int].children);
                            if j < ci {
                                let m = choose|m: int| 0 <= m < next_before.len() && next_before[m] == before.nodes@[current as int].children@[j].1;
                                assert(next@[m] == next_before[m]);
                            } else {
                                assert(next@[next_before.len() as int] == child);
                            }
                        }
                    }
                    ci += 1;
                }
                li += 1;
            }
            proof {
                assert forall|s: Seq<char>|
                    #![trigger self.trie@.contains_key(s)]
                    self.trie@.contains_key(s) && s.len() == depth + 1 implies next@.contains(self.trie@[s]) && self.link_ok(s) by {
                    let t = s.drop_last();
                    lemma_prefix_closed(self.words@, s, t.len() as int);
                    assert(s.subrange(0, t.len() as int) =~= t);
                    assert(s =~= t.push(s.last()));
                    assert(self.node_ok(t));
                    let i = choose|i: int| 0 <= i < level.len() && level@[i] == self.trie@[t];
                    let ch = self.nodes@[level@[i] as int].children@;
                    let j = choose|j: int| 0 <= j < ch.len() && #[trigger] ch[j].0 == s.last();
                    assert(ch[j].1 == self.trie@[s]);
                    assert(next@.contains(ch[j].1));
                    let m = choose|m: int| 0 <= m < next.len() && next@[m] == self.trie@[s];
                    assert(self.node_ok(s));
                }
            }
            level = next;
            proof {
                depth = depth + 1;
            }
        }
        proof {
            assert forall|s: Seq<char>| #[trigger] self.trie@.contains_key(s) implies self.link_ok(s) by {
                if s.len() >= depth {
                    let t = s.subrange(0, depth);
                    lemma_prefix_closed(self.words@, s, depth);
                    assert(self.trie@.contains_key(t));
                }
            }
        }
    }

    /// Setting the suffix link and output set of one node keeps the rest.
    proof fn lemma_set_links(self, after: Self, child: usize)
        requires
            self.trie_wf(),
            self.is_node(child),
            self.paths@[child as int].len() > 0,
            after.trie@ == self.trie@,
            after.paths@ == self.paths@,
            after.words@ == self.words@,
            after.root == self.root,
            after.nodes.len() == self.nodes.len(),
            after.nodes@[child as int].children == self.nodes@[child as int].children,
            after.nodes@[child as int].length == self.nodes@[child as int].length,
            forall|i: int| 0 <= i < self.nodes.len() && i != child ==> after.nodes@[i] == self.nodes@[i],
            self.link_fields_ok(self.paths@[child as int], after.nodes@[child as int].suffix_link, after.nodes@[child as int].output_links@),
        ensures
            after.trie_wf(),
            after.link_ok(after.paths@[child as int]),
            forall|s: Seq<char>|
                #![trigger after.trie@.contains_key(s)]
                self.trie@.contains_key(s) && s != self.paths@[child as int] && self.link_ok(s) ==> after.link_ok(s),
            forall|i: int| 0 <= i < self.nodes.len() ==> (#[trigger] after.nodes@[i]).children == self.nodes@[i].children && after.nodes@[i].length == self.nodes@[i].length,
            child != 0,
    {
        let y = self.paths@[child as int];
        assert(child != 0) by {
            assert(self.node_ok(Seq::<char>::empty()));
        }
        assert forall|s: Seq<char>| #[trigger] after.trie@.contains_key(s) implies after.node_ok(s) by {
            assert(self.node_ok(s));
        }
        assert(after.trie_wf_with(|s: Seq<char>| false));
        assert forall|s: Seq<char>|
            #![trigger after.trie@.contains_key(s)]
            self.trie@.contains_key(s) && s != y && self.link_ok(s) implies after.link_ok(s) by {
            assert(self.node_ok(s));
        }
    }

    /// The suffix links followed from a proper suffix of `x` have found no
    /// longer suffix that continues with `key`.
    closed spec fn fail_ok(self, x: Seq<char>, key: char, fail: Option<usize>) -> bool {
        match fail {
            None => forall|t: Seq<char>|
                #![trigger self.trie@.contains_key(t.push(key))]
                is_suffix(t, x) && t.len() < x.len() && self.trie@.contains_key(t)
                    ==> !self.trie@.contains_key(t.push(key)),
            Some(f) => {
                &&& self.is_node(f)
                &&& is_suffix(self.paths@[f as int], x)
                &&& self.paths@[f as int].len() < x.len()
                &&& forall|t: Seq<char>|
                    #![trigger self.trie@.contains_key(t.push(key))]
                    is_suffix(t, x) && self.paths@[f as int].len() < t.len() < x.len()
                        && self.trie@.contains_key(t) ==> !self.trie@.contains_key(t.push(key))
            },
        }
    }

    /// The node for the longest proper suffix of `paths[current] + key` that is a
    /// trie path, found by following suffix links from `current`.
    fn suffix_target(&self, current: usize, key: char) -> (target: usize)
        requires
            self.trie_wf(),
            self.is_node(current),
            forall|s: Seq<char>|
                #![trigger self.trie@.contains_key(s)]
                self.trie@.contains_key(s) && s.len() <= self.paths@[current as int].len()
                    ==> self.link_ok(s),
        ensures
            self.is_node(target),
            longest_proper_suffix(
                self.words@,
                self.paths@[current as int].push(key),
                self.paths@[target as int],
            ),
    {
        let ghost x = self.paths@[current as int];
        let mut fail: Option<usize> = self.nodes[current].suffix_link;
        proof {
            assert(self.link_ok(x));
            if x.len() == 0 {
                assert(x =~= Seq::<char>::empty());
                assert(current == 0);
            }
        }
        loop
            invariant
                self.trie_wf(),
                self.is_node(current),
                x == self.paths@[current as int],
                forall|s: Seq<char>|
                    #![trigger self.trie@.contains_key(s)]
                    self.trie@.contains_key(s) && s.len() <= x.len() ==> self.link_ok(s),
                self.fail_ok(x, key, fail),
            decreases
                match fail {
                    None => 0,
                    Some(f) => self.paths@[f as int].len() + 1,
                },
        {
            match fail {
                None => {
                    proof {
                        self.lemma_target_root(x, key);
                    }
                    return 0;
                },
                Some(f) => {
                    match child_index(&self.nodes[f].children, key) {
                        Some(j) => {
                            let target = self.nodes[f].children[j].1;
                            proof {
                                self.lemma_target_child(x, key, f);
                            }
                            return target;
                        },
                        None => {
                            proof {
                                self.lemma_fail_step(x, key, f);
                            }
                            fail = self.nodes[f].suffix_link;
                        },
                    }
                },
            }
        }
    }

    proof fn lemma_fail_step(self, x: Seq<char>, key: char, f: usize)
        requires
            self.trie_wf(),
            self.trie@.contains_key(x),
            forall|s: Seq<char>|
                #![trigger self.trie@.contains_key(s)]
                self.trie@.contains_key(s) && s.len() <= x.len() ==> self.link_ok(s),
            self.fail_ok(x, key, Some(f)),
            !has_key(self.nodes@[f as int].children@, key),
        ensures
            self.fail_ok(x, key, self.nodes@[f as int].suffix_link),
            match self.nodes@[f as int].suffix_link {
                None => true,
                Some(g) => self.paths@[g as int].len() < self.paths@[f as int].len(),
            },
    {
        let pf = self.paths@[f as int];
        assert(self.node_ok(pf));
        assert(!self.trie@.contains_key(pf.push(key)));
        assert(self.link_ok(pf));
        if pf.len() == 0 {
            assert(pf =~= Seq::<char>::empty());
            assert(f == 0);
            assert forall|t: Seq<char>|
                #![trigger self.trie@.contains_key(t.push(key))]
                is_suffix(t, x) && t.len() < x.len() && self.trie@.contains_key(t) implies !self.trie@.contains_key(t.push(key)) by {
                if t.len() == 0 {
                    assert(t =~= pf);
                }
            }
        } else {
            let g = self.nodes@[f as int].suffix_link->0;
            let pg = self.paths@[g as int];
            lemma_suffix_of_suffix(pg, pf, x);
            assert forall|t: Seq<char>|
                #![trigger self.trie@.contains_key(t.push(key))]
                is_suffix(t, x) && pg.len() < t.len() < x.len() && self.trie@.contains_key(t) implies !self.trie@.contains_key(t.push(key)) by {
                if t.len() == pf.len() {
                    lemma_suffix_same_len(t, pf, x);
                } else if t.len() < pf.len() {
                    lemma_suffixes_nest(t, pf, x);
                    assert(prefix_of_some(self.words@, t));
                }
            }
        }
    }

    proof fn lemma_target_child(self, x: Seq<char>, key: char, f: usize)
        requires
            self.trie_wf(),
            self.trie@.contains_key(x),
            self.fail_ok(x, key, Some(f)),
            has_key(self.nodes@[f as int].children@, key),
        ensures
            self.trie@.contains_key(self.paths@[f as int].push(key)),
            forall|j: int|
                0 <= j < self.nodes@[f as int].children@.len()
                    && self.nodes@[f as int].children@[j].0 == key ==> self.is_node(
                    self.nodes@[f as int].children@[j].1,
                ) && self.paths@[self.nodes@[f as int].children@[j].1 as int] == self.paths@[f as int].push(key),
            longest_proper_suffix(self.words@, x.push(key), self.paths@[f as int].push(key)),
    {
        let pf = self.paths@[f as int];
        let y = x.push(key);
        assert(self.node_ok(pf));
        let j0 = choose|j: int| 0 <= j < self.nodes@[f as int].children@.len() && #[trigger] self.nodes@[f as int].children@[j].0 == key;
        assert(self.trie@.contains_key(pf.push(key)));
        assert forall|j: int|
            0 <= j < self.nodes@[f as int].children@.len()
                && self.nodes@[f as int].children@[j].0 == key implies self.is_node(
                self.nodes@[f as int].children@[j].1,
            ) && self.paths@[self.nodes@[f as int].children@[j].1 as int] == pf.push(key) by {
            assert(self.node_ok(pf.push(key)));
        }
        lemma_push_suffix(pf, x, key);
        assert(prefix_of_some(self.words@, pf.push(key)));
        assert forall|t: Seq<char>|
            #![trigger is_suffix(t, y), prefix_of_some(self.words@, t)]
            is_suffix(t, y) && t.len() < y.len() && prefix_of_some(self.words@, t) implies t.len() <= pf.len() + 1 by {
            if t.len() > pf.len() + 1 {
                lemma_suffix_of_push(t, x, key);
                let t2 = t.drop_last();
                lemma_prefix_closed(self.words@, t, t2.len() as int);
                assert(t.subrange(0, t2.len() as int) =~= t2);
                assert(self.trie@.contains_key(t2));
                assert(self.trie@.contains_key(t2.push(key)));
            }
        }
    }

    proof fn lemma_target_root(self, x: Seq<char>, key: char)
        requires
            self.trie_wf(),
            self.trie@.contains_key(x),
            self.fail_ok(x, key, None),
        ensures
            self.is_node(0),
            self.paths@[0] == Seq::<char>::empty(),
            longest_proper_suffix(self.words@, x.push(key), Seq::<char>::empty()),
    {
        let y = x.push(key);
        assert(self.node_ok(Seq::<char>::empty()));
        lemma_suffix_self(y);
        assert forall|t: Seq<char>|
            #![trigger is_suffix(t, y), prefix_of_some(self.words@, t)]
            is_suffix(t, y) && t.len() < y.len() && prefix_of_some(self.words@, t) implies t.len() <= 0 by {
            if t.len() > 0 {
                lemma_suffix_of_push(t, x, key);
                let t2 = t.drop_last();
                lemma_prefix_closed(self.words@, t, t2.len() as int);
                assert(t.subrange(0, t2.len() as int) =~= t2);
                assert(self.trie@.contains_key(t2));
                assert(self.trie@.contains_key(t2.push(key)));
            }
        }
    }

    /// Output set of the node `child`, whose suffix link goes to `target`: the
    /// node itself where a pattern ends there, then the output set of `target`.
    fn outputs_for(&self, child: usize, target: usize) -> (out: Vec<usize>)
        requires
            self.trie_wf(),
            self.is_node(child),
            self.is_node(target),
            self.paths@[child as int].len() > 0,
            longest_proper_suffix(self.words@, self.paths@[child as int], self.paths@[target as int]),
            self.link_ok(self.paths@[target as int]),
        ensures
            self.outputs_ok(self.paths@[child as int], out@),
    {
        let ghost y = self.paths@[child as int];
        let ghost f = self.paths@[target as int];
        let ghost inherited = self.nodes@[target as int].output_links@;
        let mut out: Vec<usize> = Vec::new();
        if self.nodes[child].length > 0 {
            out.push(child);
        }
        let ghost base = out@;
        let mut m: usize = 0;
        while m < self.nodes[target].output_links.len()
            invariant
                target < self.nodes.len(),
                m <= inherited.len(),
                inherited == self.nodes@[target as int].output_links@,
                out@ == base + inherited.subrange(0, m as int),
            decreases inherited.len() - m,
        {
            out.push(self.nodes[target].output_links[m]);
            m += 1;
        }
        proof {
            assert(inherited.subrange(0, inherited.len() as int) =~= inherited);
            assert(self.node_ok(y));
            self.lemma_outputs_for(child, target, base, out@);
        }
        out
    }

    proof fn lemma_outputs_for(self, child: usize, target: usize, base: Seq<usize>, out: Seq<usize>)
        requires
            self.trie_wf(),
            self.is_node(child),
            self.is_node(target),
            self.paths@[child as int].len() > 0,
            longest_proper_suffix(self.words@, self.paths@[child as int], self.paths@[target as int]),
            self.link_ok(self.paths@[target as int]),
            base == (if self.nodes@[child as int].length > 0 {
                seq![child]
            } else {
                Seq::<usize>::empty()
            }),
            out == base + self.nodes@[target as int].output_links@,
        ensures
            self.outputs_ok(self.paths@[child as int], out),
    {
        let y = self.paths@[child as int];
        let f = self.paths@[target as int];
        let inherited = self.nodes@[target as int].output_links@;
        assert(self.node_ok(y));
        assert(self.outputs_ok(f, inherited));
        assert forall|k: int| 0 <= k < inherited.len() implies inherited[k] != child by {
            assert(is_suffix(self.paths@[inherited[k] as int], f));
        }
        assert forall|k: int|
            #![trigger out[k]]
            0 <= k < out.len() implies self.is_node(out[k]) && self.words@.contains(
                self.paths@[out[k] as int],
            ) && is_suffix(self.paths@[out[k] as int], y) by {
            if k < base.len() {
                lemma_suffix_self(y);
            } else {
                assert(out[k] == inherited[k - base.len()]);
                lemma_suffix_of_suffix(self.paths@[out[k] as int], f, y);
            }
        }
        assert(out.no_duplicates()) by {
            assert forall|i: int, j: int| 0 <= i < out.len() && 0 <= j < out.len() && i != j implies out[i] != out[j] by {
                if i >= base.len() && j >= base.len() {
                    assert(out[i] == inherited[i - base.len()]);
                    assert(out[j] == inherited[j - base.len()]);
                } else if i >= base.len() {
                    assert(out[i] == inherited[i - base.len()]);
                } else if j >= base.len() {
                    assert(out[j] == inherited[j - base.len()]);
                }
            }
        }
        assert forall|p: Seq<char>|
            #![trigger self.words@.contains(p), is_suffix(p, y)]
            self.words@.contains(p) && is_suffix(p, y) implies out.contains(self.trie@[p]) by {
            if p.len() == y.len() {
                lemma_suffix_self(y);
                lemma_suffix_same_len(p, y, y);
                assert(out[0] == child);
            } else {
                lemma_pattern_is_path(self.words@, p);
                lemma_suffixes_nest(p, f, y);
                let k = choose|k: int| 0 <= k < inherited.len() && inherited[k] == self.trie@[p];
                assert(out[k + base.len()] == inherited[k]);
            }
        }
    }
}

} // verus!
