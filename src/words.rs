//! Facts about prefixes and suffixes of code-point sequences.
use vstd::prelude::*;

verus! {

/// `a` is a suffix of `b`.
pub open spec fn is_suffix(a: Seq<char>, b: Seq<char>) -> bool {
    a.len() <= b.len() && b.subrange(b.len() - a.len(), b.len() as int) == a
}

/// `s` is the path of a trie built from the patterns `d`: the empty path, or a
/// prefix of one of the patterns.
pub open spec fn prefix_of_some(d: Set<Seq<char>>, s: Seq<char>) -> bool {
    s.len() == 0 || exists|p: Seq<char>| #[trigger] d.contains(p) && s.is_prefix_of(p)
}

/// `f` is the longest proper suffix of `s` that is a path of the trie of `d`.
pub open spec fn longest_proper_suffix(d: Set<Seq<char>>, s: Seq<char>, f: Seq<char>) -> bool {
    &&& is_suffix(f, s)
    &&& f.len() < s.len()
    &&& prefix_of_some(d, f)
    &&& forall|t: Seq<char>|
        #![trigger is_suffix(t, s), prefix_of_some(d, t)]
        is_suffix(t, s) && t.len() < s.len() && prefix_of_some(d, t) ==> t.len() <= f.len()
}

pub proof fn lemma_suffix_of_suffix(a: Seq<char>, b: Seq<char>, c: Seq<char>)
    requires
        is_suffix(a, b),
        is_suffix(b, c),
    ensures
        is_suffix(a, c),
{
    assert(c.subrange(c.len() - a.len(), c.len() as int) =~= a);
}

/// Of two suffixes of one sequence, the shorter is a suffix of the longer.
pub proof fn lemma_suffixes_nest(a: Seq<char>, b: Seq<char>, c: Seq<char>)
    requires
        is_suffix(a, c),
        is_suffix(b, c),
        a.len() <= b.len(),
    ensures
        is_suffix(a, b),
{
    assert(b.subrange(b.len() - a.len(), b.len() as int) =~= a);
}

/// Two suffixes of one sequence with the same length are equal.
pub proof fn lemma_suffix_same_len(a: Seq<char>, b: Seq<char>, c: Seq<char>)
    requires
        is_suffix(a, c),
        is_suffix(b, c),
        a.len() == b.len(),
    ensures
        a == b,
{
}

/// A non-empty suffix of `s.push(x)` is a suffix of `s` followed by `x`.
pub proof fn lemma_suffix_of_push(t: Seq<char>, s: Seq<char>, x: char)
    requires
        is_suffix(t, s.push(x)),
        t.len() > 0,
    ensures
        is_suffix(t.drop_last(), s),
        t == t.drop_last().push(x),
{
    assert(s.subrange(s.len() - (t.len() - 1), s.len() as int) =~= t.drop_last());
    assert(t =~= t.drop_last().push(x));
}

/// A suffix of `s` followed by `x` is a suffix of `s.push(x)`.
pub proof fn lemma_push_suffix(t: Seq<char>, s: Seq<char>, x: char)
    requires
        is_suffix(t, s),
    ensures
        is_suffix(t.push(x), s.push(x)),
{
    let sx = s.push(x);
    assert(sx.subrange(sx.len() - (t.len() + 1), sx.len() as int) =~= t.push(x));
}

pub proof fn lemma_suffix_self(s: Seq<char>)
    ensures
        is_suffix(s, s),
        is_suffix(Seq::<char>::empty(), s),
{
    assert(s.subrange(0, s.len() as int) =~= s);
    assert(s.subrange(s.len() as int, s.len() as int) =~= Seq::<char>::empty());
}

/// The trie paths of `d` are closed under taking prefixes.
pub proof fn lemma_prefix_closed(d: Set<Seq<char>>, s: Seq<char>, n: int)
    requires
        prefix_of_some(d, s),
        0 <= n <= s.len(),
    ensures
        prefix_of_some(d, s.subrange(0, n)),
{
    if n > 0 {
        let p = choose|p: Seq<char>| #[trigger] d.contains(p) && s.is_prefix_of(p);
        assert(s.subrange(0, n).is_prefix_of(p)) by {
            assert(p.subrange(0, n) =~= s.subrange(0, n));
        }
    }
}

/// Every pattern is a trie path.
pub proof fn lemma_pattern_is_path(d: Set<Seq<char>>, p: Seq<char>)
    requires
        d.contains(p),
    ensures
        prefix_of_some(d, p),
{
    assert(p.is_prefix_of(p)) by {
        assert(p.subrange(0, p.len() as int) =~= p);
    }
}

} // verus!
