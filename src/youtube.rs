//! Helpers for YouTube links: recognising them, turning a shorts link into a
//! watch link, and dropping tracking parameters.
use vstd::prelude::*;
use crate::text::{chars_of, push_char};

verus! {

/// `u` starts with one of the YouTube link prefixes.
pub open spec fn is_youtube(u: Seq<char>) -> bool {
    ||| "https://www.youtube.com/"@.is_prefix_of(u)
    ||| "https://youtube.com/"@.is_prefix_of(u)
    ||| "https://youtu.be/"@.is_prefix_of(u)
}

/// `s` with every occurrence of `pat`, taken from left to right without overlap,
/// replaced by `rep`.
pub open spec fn replace_all(s: Seq<char>, pat: Seq<char>, rep: Seq<char>) -> Seq<char>
    decreases s.len(),
{
    if pat.len() == 0 || s.len() < pat.len() {
        s
    } else if pat.is_prefix_of(s) {
        rep + replace_all(s.subrange(pat.len() as int, s.len() as int), pat, rep)
    } else {
        seq![s[0]] + replace_all(s.drop_first(), pat, rep)
    }
}

/// The pieces of `s` between occurrences of `sep`.
pub open spec fn split(s: Seq<char>, sep: char) -> Seq<Seq<char>>
    decreases s.len(),
{
    if s.len() == 0 {
        seq![Seq::<char>::empty()]
    } else {
        let front = split(s.drop_last(), sep);
        if s.last() == sep {
            front.push(Seq::<char>::empty())
        } else {
            front.update(front.len() - 1, front.last().push(s.last()))
        }
    }
}

/// The parts joined, with `sep` between each two.
pub open spec fn join(parts: Seq<Seq<char>>, sep: char) -> Seq<char>
    decreases parts.len(),
{
    if parts.len() == 0 {
        Seq::empty()
    } else if parts.len() == 1 {
        parts[0]
    } else {
        join(parts.drop_last(), sep).push(sep) + parts.last()
    }
}

/// A query parameter named `si` or `pp`.
pub open spec fn is_tracking(param: Seq<char>) -> bool {
    let name = split(param, '=')[0];
    name == "si"@ || name == "pp"@
}

/// The parameters that are not tracking parameters, in order.
pub open spec fn untracked_params(params: Seq<Seq<char>>) -> Seq<Seq<char>>
    decreases params.len(),
{
    if params.len() == 0 {
        params
    } else if is_tracking(params.last()) {
        untracked_params(params.drop_last())
    } else {
        untracked_params(params.drop_last()).push(params.last())
    }
}

/// A YouTube link without its tracking parameters: the part before the first
/// `?`, then the parameters between the first and a second `?` that are kept.
pub open spec fn without_tracking(u: Seq<char>) -> Seq<char> {
    let chunks = split(u, '?');
    if !is_youtube(u) || chunks.len() < 2 {
        u
    } else {
        let kept = join(untracked_params(split(chunks[1], '&')), '&');
        chunks[0] + if kept.len() > 0 {
            seq!['?'] + kept
        } else {
            Seq::<char>::empty()
        }
    }
}

/// The code-point sequences of a list of vectors.
pub open spec fn views(v: Seq<Vec<char>>) -> Seq<Seq<char>> {
    v.map_values(|x: Vec<char>| x@)
}

proof fn lemma_split_nonempty(s: Seq<char>, sep: char)
    ensures
        split(s, sep).len() >= 1,
    decreases s.len(),
{
    if s.len() > 0 {
        lemma_split_nonempty(s.drop_last(), sep);
    }
}

/// `p` is a prefix of `s`.
fn starts_with(s: &Vec<char>, p: &Vec<char>) -> (r: bool)
    ensures
        r == p@.is_prefix_of(s@),
{
    if p.len() > s.len() {
        return false;
    }
    matches_at(s, p, 0)
}

/// `p` occurs in `s` at position `i`.
fn matches_at(s: &Vec<char>, p: &Vec<char>, i: usize) -> (r: bool)
    requires
        i <= s@.len(),
    ensures
        r == (i + p@.len() <= s@.len() && s@.subrange(i as int, i + p@.len()) == p@),
{
    if p.len() > s.len() - i {
        return false;
    }
    let n = s.len();
    let mut k: usize = 0;
    while k < p.len()
        invariant
            n == s@.len(),
            k <= p@.len(),
            i + p@.len() <= s@.len(),
            forall|j: int| 0 <= j < k ==> s@[i + j] == p@[j],
        decreases p@.len() - k,
    {
        if s[i + k] != p[k] {
            assert(s@.subrange(i as int, i + p@.len())[k as int] != p@[k as int]);
            return false;
        }
        k += 1;
    }
    assert(s@.subrange(i as int, i + p@.len()) =~= p@);
    true
}

/// Appends the code points of `v` to `out`.
fn push_all(out: &mut String, v: &Vec<char>)
    ensures
        final(out)@ == old(out)@ + v@,
{
    let mut k: usize = 0;
    while k < v.len()
        invariant
            k <= v@.len(),
            out@ == old(out)@ + v@.subrange(0, k as int),
        decreases v@.len() - k,
    {
        push_char(out, v[k]);
        assert(v@.subrange(0, k + 1) =~= v@.subrange(0, k as int).push(v@[k as int]));
        k += 1;
    }
    assert(v@.subrange(0, v@.len() as int) =~= v@);
}

/// The pieces of `s` between occurrences of `sep`.
fn split_chars(s: &Vec<char>, sep: char) -> (r: Vec<Vec<char>>)
    ensures
        views(r@) == split(s@, sep),
{
    let mut pieces: Vec<Vec<char>> = Vec::new();
    pieces.push(Vec::new());
    let mut i: usize = 0;
    assert(views(pieces@) =~= split(s@.subrange(0, 0), sep));
    while i < s.len()
        invariant
            i <= s@.len(),
            views(pieces@) == split(s@.subrange(0, i as int), sep),
        decreases s@.len() - i,
    {
        let ghost before = pieces@;
        let c = s[i];
        proof {
            lemma_split_nonempty(s@.subrange(0, i as int), sep);
            assert(s@.subrange(0, i + 1).drop_last() =~= s@.subrange(0, i as int));
        }
        if c == sep {
            pieces.push(Vec::new());
            assert(views(pieces@) =~= split(s@.subrange(0, i + 1), sep));
        } else {
            let last = pieces.len() - 1;
            pieces[last].push(c);
            assert(views(pieces@) =~= split(s@.subrange(0, i + 1), sep));
        }
        i += 1;
    }
    assert(s@.subrange(0, s@.len() as int) =~= s@);
    pieces
}

/// Whether `url` is a YouTube link.
pub fn is_youtube_url(url: &str) -> (r: bool)
    ensures
        r == is_youtube(url@),
{
    let chars = chars_of(url);
    let www = chars_of("https://www.youtube.com/");
    let bare = chars_of("https://youtube.com/");
    let short = chars_of("https://youtu.be/");
    starts_with(&chars, &www) || starts_with(&chars, &bare) || starts_with(&chars, &short)
}

/// `s` with every occurrence of `pat` replaced by `rep`.
fn replace_chars(s: &Vec<char>, pat: &Vec<char>, rep: &Vec<char>) -> (r: String)
    ensures
        r@ == replace_all(s@, pat@, rep@),
{
    let mut out = String::new();
    let n = s.len();
    let m = pat.len();
    if m == 0 {
        push_all(&mut out, s);
        return out;
    }
    let mut i: usize = 0;
    assert(s@.subrange(0, n as int) =~= s@);
    while i < n
        invariant
            n == s@.len(),
            m == pat@.len(),
            m > 0,
            i <= n,
            out@ + replace_all(s@.subrange(i as int, n as int), pat@, rep@) == replace_all(s@, pat@, rep@),
        decreases n - i,
    {
        let ghost rest = s@.subrange(i as int, n as int);
        if matches_at(s, pat, i) {
            proof {
                assert(rest.subrange(0, m as int) =~= s@.subrange(i as int, i + m));
                assert(rest.subrange(m as int, rest.len() as int) =~= s@.subrange(i + m, n as int));
            }
            let ghost o = out@;
            push_all(&mut out, rep);
            i += m;
            proof {
                let x = replace_all(s@.subrange(i as int, n as int), pat@, rep@);
                assert(out@ + x =~= o + (rep@ + x));
            }
        } else {
            proof {
                if rest.len() >= m {
                    assert(rest.subrange(0, m as int) =~= s@.subrange(i as int, i + m));
                }
                assert(rest.drop_first() =~= s@.subrange(i + 1, n as int));
            }
            let ghost o = out@;
            push_char(&mut out, s[i]);
            i += 1;
            proof {
                let x = replace_all(s@.subrange(i as int, n as int), pat@, rep@);
                assert(out@ + x =~= o + (seq![s@[i - 1]] + x));
            }
        }
    }
    assert(s@.subrange(n as int, n as int) =~= Seq::<char>::empty());
    out
}

/// A shorts link turned into the matching watch link; any other text is
/// returned as it is.
pub fn short_to_video(url: &str) -> (r: String)
    ensures
        r@ == if is_youtube(url@) {
            replace_all(url@, "shorts/"@, "watch?v="@)
        } else {
            url@
        },
{
    let chars = chars_of(url);
    if is_youtube_url(url) {
        let path = chars_of("shorts/");
        let replacement = chars_of("watch?v=");
        return replace_chars(&chars, &path, &replacement);
    }
    let mut out = String::new();
    push_all(&mut out, &chars);
    out
}

/// `a` and `b` hold the same code points.
fn same_chars(a: &Vec<char>, b: &Vec<char>) -> (r: bool)
    ensures
        r == (a@ == b@),
{
    if a.len() != b.len() {
        return false;
    }
    let r = starts_with(a, b);
    assert(a@.subrange(0, a@.len() as int) =~= a@);
    r
}

/// Whether the query parameter `param` is named `si` or `pp`.
fn is_tracking_param(param: &Vec<char>) -> (r: bool)
    ensures
        r == is_tracking(param@),
{
    let parts = split_chars(param, '=');
    proof {
        lemma_split_nonempty(param@, '=');
    }
    let si = chars_of("si");
    let pp = chars_of("pp");
    same_chars(&parts[0], &si) || same_chars(&parts[0], &pp)
}

/// A YouTube link without the `si` and `pp` query parameters; the query is
/// read between the first `?` and a second one, and dropped where nothing of it
/// is left. Any other text is returned as it is.
pub fn remove_tracking_parameters(url: &str) -> (r: String)
    ensures
        r@ == without_tracking(url@),
{
    let chars = chars_of(url);
    let mut result = String::new();
    if !is_youtube_url(url) {
        push_all(&mut result, &chars);
        return result;
    }
    let chunks = split_chars(&chars, '?');
    if chunks.len() < 2 {
        push_all(&mut result, &chars);
        return result;
    }
    let params = split_chars(&chunks[1], '&');
    let ghost ps = views(params@);
    let mut joined: Vec<char> = Vec::new();
    let mut kept: usize = 0;
    let mut k: usize = 0;
    assert(ps.subrange(0, 0) =~= Seq::<Seq<char>>::empty());
    while k < params.len()
        invariant
            ps == views(params@),
            k <= params@.len(),
            kept <= k,
            kept == untracked_params(ps.subrange(0, k as int)).len(),
            joined@ == join(untracked_params(ps.subrange(0, k as int)), '&'),
        decreases params@.len() - k,
    {
        let ghost before = untracked_params(ps.subrange(0, k as int));
        proof {
            assert(ps.subrange(0, k + 1).drop_last() =~= ps.subrange(0, k as int));
            assert(ps.subrange(0, k + 1).last() == params@[k as int]@);
        }
        if !is_tracking_param(&params[k]) {
            if kept > 0 {
                joined.push('&');
            }
            let ghost mid = joined@;
            let param = &params[k];
            let mut j: usize = 0;
            while j < param.len()
                invariant
                    j <= param@.len(),
                    joined@ == mid + param@.subrange(0, j as int),
                decreases param@.len() - j,
            {
                joined.push(param[j]);
                assert(param@.subrange(0, j + 1) =~= param@.subrange(0, j as int).push(param@[j as int]));
                j += 1;
            }
            proof {
                assert(param@.subrange(0, param@.len() as int) =~= param@);
                let after = before.push(param@);
                assert(after.drop_last() =~= before);
                if before.len() > 0 {
                    assert(joined@ =~= join(before, '&').push('&') + param@);
                } else {
                    assert(joined@ =~= param@);
                }
            }
            kept += 1;
        }
        k += 1;
    }
    assert(ps.subrange(0, ps.len() as int) =~= ps);
    push_all(&mut result, &chunks[0]);
    if joined.len() > 0 {
        push_char(&mut result, '?');
        let ghost o = result@;
        let mut j: usize = 0;
        while j < joined.len()
            invariant
                j <= joined@.len(),
                result@ == o + joined@.subrange(0, j as int),
            decreases joined@.len() - j,
        {
            push_char(&mut result, joined[j]);
            assert(joined@.subrange(0, j + 1) =~= joined@.subrange(0, j as int).push(joined@[j as int]));
            j += 1;
        }
        assert(joined@.subrange(0, joined@.len() as int) =~= joined@);
    }
    proof {
        let kept_text = join(untracked_params(split(split(url@, '?')[1], '&')), '&');
        if kept_text.len() > 0 {
            assert(result@ =~= split(url@, '?')[0] + (seq!['?'] + kept_text));
        } else {
            assert(result@ =~= split(url@, '?')[0] + Seq::<char>::empty());
        }
    }
    result
}

} // verus!
