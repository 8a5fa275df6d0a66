//! Censoring text with a keyword automaton: every code point inside an
//! occurrence of a pattern is replaced.
use vstd::prelude::*;
use crate::aho_corasick::{reported, search_result, AhoCorasick};
use crate::text::{chars_of, push_char};

verus! {

/// Position `j` of `t` lies inside an occurrence of a non-empty pattern of `d`.
pub open spec fn covered(d: Set<Seq<char>>, t: Seq<char>, j: int) -> bool {
    exists|a: int, len: int|
        0 <= a <= j < a + len && a + len <= t.len() && len > 0 && #[trigger] d.contains(
            t.subrange(a, a + len),
        )
}

/// The first `n` positions of `t` censored: a covered position becomes `rep`,
/// any other stays as it is.
pub open spec fn censored(d: Set<Seq<char>>, t: Seq<char>, rep: Seq<char>, n: int) -> Seq<char>
    decreases n,
{
    if n <= 0 {
        Seq::empty()
    } else {
        censored(d, t, rep, n - 1) + if covered(d, t, n - 1) {
            rep
        } else {
            seq![t[n - 1]]
        }
    }
}

/// `t` with every covered position replaced by `rep`.
pub open spec fn filtered(d: Set<Seq<char>>, t: Seq<char>, rep: Seq<char>) -> Seq<char> {
    censored(d, t, rep, t.len() as int)
}

/// A position that is covered becomes one copy of `rep` in the censored text.
proof fn lemma_censored_step(d: Set<Seq<char>>, t: Seq<char>, rep: Seq<char>, j: int)
    requires
        0 <= j,
        covered(d, t, j),
    ensures
        censored(d, t, rep, j + 1) == censored(d, t, rep, j) + rep,
{
}

/// Where an occurrence `(b, lb)` starts inside an occurrence `(a, la)`, every
/// position from `a` up to the later of the two ends is covered, and each becomes
/// one copy of `rep` in the censored text.
pub proof fn overlapping_occurrences_merge(
    d: Set<Seq<char>>,
    t: Seq<char>,
    rep: Seq<char>,
    a: int,
    la: int,
    b: int,
    lb: int,
)
    requires
        0 <= a,
        la > 0,
        a + la <= t.len(),
        d.contains(t.subrange(a, a + la)),
        lb > 0,
        b + lb <= t.len(),
        d.contains(t.subrange(b, b + lb)),
        a <= b < a + la,
    ensures
        forall|j: int|
            a <= j < (if a + la >= b + lb {
                a + la
            } else {
                b + lb
            }) ==> #[trigger] covered(d, t, j) && censored(d, t, rep, j + 1) == censored(
                d,
                t,
                rep,
                j,
            ) + rep,
{
    assert forall|j: int|
        a <= j < (if a + la >= b + lb {
            a + la
        } else {
            b + lb
        }) implies #[trigger] covered(d, t, j) && censored(d, t, rep, j + 1) == censored(
        d,
        t,
        rep,
        j,
    ) + rep by {
        if j < a + la {
            assert(d.contains(t.subrange(a, a + la)));
        } else {
            assert(d.contains(t.subrange(b, b + lb)));
        }
        lemma_censored_step(d, t, rep, j);
    }
}

/// The code points among the first `n` positions of `t` that are not in `ignore`.
pub open spec fn visible(t: Seq<char>, ignore: Seq<char>, n: int) -> Seq<char>
    decreases n,
{
    if n <= 0 {
        Seq::empty()
    } else {
        visible(t, ignore, n - 1) + if ignore.contains(t[n - 1]) {
            Seq::empty()
        } else {
            seq![t[n - 1]]
        }
    }
}

/// The first `n` positions of `t` censored while the code points of `ignore`
/// are invisible: those stay as they are, and a position of another code point
/// becomes `rep` where it is covered within the visible code points.
pub open spec fn censored_ignoring(
    d: Set<Seq<char>>,
    t: Seq<char>,
    rep: Seq<char>,
    ignore: Seq<char>,
    n: int,
) -> Seq<char>
    decreases n,
{
    if n <= 0 {
        Seq::empty()
    } else {
        censored_ignoring(d, t, rep, ignore, n - 1) + if !ignore.contains(t[n - 1]) && covered(
            d,
            visible(t, ignore, t.len() as int),
            visible(t, ignore, n - 1).len() as int,
        ) {
            rep
        } else {
            seq![t[n - 1]]
        }
    }
}

/// `t` censored while the code points of `ignore` are invisible.
pub open spec fn filtered_ignoring(d: Set<Seq<char>>, t: Seq<char>, rep: Seq<char>, ignore: Seq<char>) -> Seq<char> {
    censored_ignoring(d, t, rep, ignore, t.len() as int)
}

/// The visible code points of a longer prefix are at least as many.
proof fn lemma_visible_grows(t: Seq<char>, ignore: Seq<char>, m: int, n: int)
    requires
        0 <= m <= n,
    ensures
        visible(t, ignore, m).len() <= visible(t, ignore, n).len(),
    decreases n - m,
{
    if m < n {
        lemma_visible_grows(t, ignore, m, n - 1);
    }
}

/// `v` holds `c`.
fn contains_char(v: &Vec<char>, c: char) -> (r: bool)
    ensures
        r == v@.contains(c),
{
    let mut k: usize = 0;
    while k < v.len()
        invariant
            k <= v.len(),
            forall|j: int| 0 <= j < k ==> v@[j] != c,
        decreases v.len() - k,
    {
        if v[k] == c {
            return true;
        }
        k += 1;
    }
    false
}

/// A censoring filter over a dictionary of patterns.
pub struct AhoCorasickFilter {
    inner: AhoCorasick,
}

impl View for AhoCorasickFilter {
    type V = Set<Seq<char>>;

    closed spec fn view(&self) -> Set<Seq<char>> {
        self.inner@
    }
}

impl AhoCorasickFilter {
    pub closed spec fn wf(self) -> bool {
        self.inner.wf()
    }

    pub fn new() -> (r: Self)
        ensures
            r.wf(),
            r@ == Set::<Seq<char>>::empty(),
    {
        AhoCorasickFilter { inner: AhoCorasick::new() }
    }

    /// Adds `word` to the dictionary.
    pub fn insert(&mut self, word: &str)
        requires
            old(self).wf(),
        ensures
            final(self).wf(),
            final(self)@ == old(self)@.insert(word@),
    {
        self.inner.insert(word)
    }

    /// Removes `word` from the dictionary; nothing happens where it is absent.
    pub fn remove(&mut self, word: &str)
        requires
            old(self).wf(),
        ensures
            final(self).wf(),
            final(self)@ == old(self)@.remove(word@),
    {
        self.inner.remove(word)
    }

    /// The occurrences of the dictionary's patterns in `text`.
    pub fn search(&self, text: &str) -> (r: Vec<(usize, usize)>)
        requires
            self.wf(),
        ensures
            search_result(self@, text@, r@),
    {
        self.inner.search(text)
    }

    /// Adds every word of `words` to the dictionary.
    pub fn build(&mut self, words: Vec<&str>)
        requires
            old(self).wf(),
        ensures
            final(self).wf(),
            final(self)@ == old(self)@.union(crate::aho_corasick::views_of(words@).to_set()),
    {
        self.inner.build(words)
    }

    /// For each position of `text`, whether it lies inside an occurrence of a
    /// non-empty pattern.
    fn coverage(&self, text: &str) -> (flags: Vec<bool>)
        requires
            self.wf(),
        ensures
            flags@.len() == text@.len(),
            forall|j: int| 0 <= j < text@.len() ==> flags@[j] == covered(self@, text@, j),
    {
        let ghost d = self@;
        let ghost t = text@;
        let matches = self.inner.search(text);
        let chars = chars_of(text);
        let n = chars.len();
        let mut longest: Vec<usize> = Vec::new();
        let mut a: usize = 0;
        while a < n
            invariant
                a <= n,
                longest@.len() == a,
                forall|b: int| 0 <= b < a ==> longest@[b] == 0,
            decreases n - a,
        {
            longest.push(0);
            a += 1;
        }
        // the longest occurrence that starts at each position
        let mut k: usize = 0;
        while k < matches.len()
            invariant
                search_result(d, t, matches@),
                n == t.len(),
                k <= matches.len(),
                longest@.len() == n,
                forall|b: int|
                    #![trigger longest@[b]]
                    0 <= b < n && longest@[b] > 0 ==> b + longest@[b] <= n && d.contains(
                        t.subrange(b, b + longest@[b]),
                    ),
                forall|m: int|
                    #![trigger matches@[m]]
                    0 <= m < k && matches@[m].1 > 0 ==> longest@[matches@[m].0 as int]
                        >= matches@[m].1,
            decreases matches.len() - k,
        {
            let (start, len) = matches[k];
            proof {
                assert(reported(d, t, start as int, len as int));
            }
            if len > 0 && len > longest[start] {
                longest.set(start, len);
            }
            k += 1;
        }
        // sweep, keeping the furthest end of the occurrences started so far
        let mut flags: Vec<bool> = Vec::new();
        let mut reach: usize = 0;
        let mut j: usize = 0;
        while j < n
            invariant
                n == t.len(),
                j <= n,
                reach <= n,
                longest@.len() == n,
                flags@.len() == j,
                forall|b: int|
                    #![trigger longest@[b]]
                    0 <= b < n && longest@[b] > 0 ==> b + longest@[b] <= n && d.contains(
                        t.subrange(b, b + longest@[b]),
                    ),
                forall|a1: usize, l1: usize|
                    #![trigger reported(d, t, a1 as int, l1 as int)]
                    reported(d, t, a1 as int, l1 as int) && l1 > 0 ==> longest@[a1 as int] >= l1,
                forall|b: int| 0 <= b < j && #[trigger] longest@[b] > 0 ==> b + longest@[b] <= reach,
                reach > 0 ==> exists|b: int|
                    0 <= b < j && #[trigger] longest@[b] > 0 && b + longest@[b] == reach,
                forall|i: int| 0 <= i < j ==> flags@[i] == covered(d, t, i),
            decreases n - j,
        {
            if longest[j] > 0 && j + longest[j] > reach {
                reach = j + longest[j];
            }
            proof {
                if reach > j {
                    let b = choose|b: int| 0 <= b <= j && #[trigger] longest@[b] > 0 && b + longest@[b] == reach;
                    assert(d.contains(t.subrange(b, b + longest@[b])));
                }
                if covered(d, t, j as int) {
                    let (a1, l1) = choose|a1: int, l1: int|
                        0 <= a1 <= j < a1 + l1 && a1 + l1 <= t.len() && l1 > 0 && #[trigger] d.contains(
                            t.subrange(a1, a1 + l1),
                        );
                    assert(reported(d, t, a1 as usize as int, l1 as usize as int));
                }
            }
            flags.push(reach > j);
            j += 1;
        }
        flags
    }

    /// `text` with every code point that lies inside an occurrence of a
    /// non-empty pattern replaced by one copy of `censored_string`.
    pub fn filter(&self, string: &str, censored_string: &str) -> (r: String)
        requires
            self.wf(),
        ensures
            r@ == filtered(self@, string@, censored_string@),
    {
        let flags = self.coverage(string);
        let chars = chars_of(string);
        let mut output = String::new();
        let mut j: usize = 0;
        while j < chars.len()
            invariant
                chars@ == string@,
                flags@.len() == chars@.len(),
                forall|i: int| 0 <= i < chars@.len() ==> flags@[i] == covered(self@, string@, i),
                j <= chars.len(),
                output@ == censored(self@, string@, censored_string@, j as int),
            decreases chars.len() - j,
        {
            if flags[j] {
                output.append(censored_string);
            } else {
                push_char(&mut output, chars[j]);
            }
            j += 1;
        }
        output
    }

    /// `string` censored as by `filter`, except that the code points of `ignore`
    /// are invisible to matching and kept in the output, also inside a censored
    /// region.
    pub fn filter_ignore(&self, string: &str, censored_string: &str, ignore: &Vec<char>) -> (r: String)
        requires
            self.wf(),
        ensures
            r@ == filtered_ignoring(self@, string@, censored_string@, ignore@),
    {
        let ghost t = string@;
        let chars = chars_of(string);
        let mut kept = String::new();
        let mut j: usize = 0;
        while j < chars.len()
            invariant
                chars@ == t,
                j <= chars.len(),
                kept@ == visible(t, ignore@, j as int),
            decreases chars.len() - j,
        {
            if !contains_char(ignore, chars[j]) {
                push_char(&mut kept, chars[j]);
            } else {
                assert(kept@ =~= kept@ + Seq::<char>::empty());
            }
            j += 1;
        }
        let ghost v = kept@;
        let flags = self.coverage(kept.as_str());
        let mut output = String::new();
        let mut vi: usize = 0;
        let mut j: usize = 0;
        while j < chars.len()
            invariant
                chars@ == t,
                t == string@,
                v == visible(t, ignore@, t.len() as int),
                flags@.len() == v.len(),
                forall|i: int| 0 <= i < v.len() ==> flags@[i] == covered(self@, v, i),
                j <= chars.len(),
                vi == visible(t, ignore@, j as int).len(),
                output@ == censored_ignoring(self@, t, censored_string@, ignore@, j as int),
            decreases chars.len() - j,
        {
            if contains_char(ignore, chars[j]) {
                push_char(&mut output, chars[j]);
            } else {
                proof {
                    lemma_visible_grows(t, ignore@, j + 1, t.len() as int);
                    assert(visible(t, ignore@, j + 1).len() == vi + 1);
                    assert(vi < flags.len());
                }
                if flags[vi] {
                    output.append(censored_string);
                } else {
                    push_char(&mut output, chars[j]);
                }
                vi += 1;
            }
            j += 1;
        }
        output
    }
}

} // verus!
