//! Substring search by byte offset, starting from or ending at a given offset.
use vstd::prelude::*;
use vstd::string::StringSliceAdditionalSpecFns;
use vstd::utf8::is_char_boundary;

verus! {

/// `sub` occurs in `s` at byte offset `p`.
pub open spec fn occurs_at(s: Seq<u8>, sub: Seq<u8>, p: int) -> bool {
    0 <= p && p + sub.len() <= s.len() && s.subrange(p, p + sub.len()) == sub
}

/// `index` splits the string with bytes `s` into two strings.
pub open spec fn valid_split(s: Seq<u8>, index: int) -> bool {
    index <= s.len() && is_char_boundary(s, index)
}

/// Compares `sub` with the bytes of `s` from offset `p`.
fn occurs_at_exec(s: &[u8], sub: &[u8], p: usize) -> (r: bool)
    requires
        p + sub@.len() <= s@.len(),
    ensures
        r == occurs_at(s@, sub@, p as int),
{
    let n = s.len();
    let mut k: usize = 0;
    while k < sub.len()
        invariant
            n == s@.len(),
            k <= sub@.len(),
            p + sub@.len() <= s@.len(),
            forall|j: int| 0 <= j < k ==> s@[p + j] == sub@[j],
        decreases sub@.len() - k,
    {
        if s[p + k] != sub[k] {
            assert(s@.subrange(p as int, p + sub@.len())[k as int] != sub@[k as int]);
            return false;
        }
        k += 1;
    }
    assert(s@.subrange(p as int, p + sub@.len()) =~= sub@);
    true
}

/// The first byte offset at or after `index` where `substring` occurs in
/// `string`; `None` where there is none, or where `index` is past the end or
/// inside a character.
pub fn find(string: &str, substring: &str, index: usize) -> (r: Option<usize>)
    ensures
        match r {
            Some(p) => {
                &&& valid_split(string.spec_bytes(), index as int)
                &&& index <= p
                &&& occurs_at(string.spec_bytes(), substring.spec_bytes(), p as int)
                &&& forall|q: int|
                    index <= q < p ==> !occurs_at(string.spec_bytes(), substring.spec_bytes(), q)
            },
            None => !valid_split(string.spec_bytes(), index as int) || forall|q: int|
                index <= q ==> !occurs_at(string.spec_bytes(), substring.spec_bytes(), q),
        },
{
    let s = string.as_bytes();
    let sub = substring.as_bytes();
    if index > s.len() || !string.is_char_boundary(index) {
        return None;
    }
    if sub.len() > s.len() {
        return None;
    }
    let last = s.len() - sub.len();
    if index > last {
        return None;
    }
    let mut p: usize = index;
    loop
        invariant
            index <= p <= last,
            last + sub@.len() == s@.len(),
            s@ == string.spec_bytes(),
            sub@ == substring.spec_bytes(),
            valid_split(string.spec_bytes(), index as int),
            forall|q: int| index <= q < p ==> !occurs_at(s@, sub@, q),
        decreases last - p,
    {
        if occurs_at_exec(s, sub, p) {
            return Some(p);
        }
        if p == last {
            return None;
        }
        p += 1;
    }
}

/// The last byte offset where `substring` occurs in `string` and ends at or
/// before `index`; `None` where there is none, or where `index` is past the end
/// or inside a character.
pub fn rfind(string: &str, substring: &str, index: usize) -> (r: Option<usize>)
    ensures
        match r {
            Some(p) => {
                &&& valid_split(string.spec_bytes(), index as int)
                &&& p + substring.spec_bytes().len() <= index
                &&& occurs_at(string.spec_bytes(), substring.spec_bytes(), p as int)
                &&& forall|q: int|
                    p < q && q + substring.spec_bytes().len() <= index ==> !occurs_at(
                        string.spec_bytes(),
                        substring.spec_bytes(),
                        q,
                    )
            },
            None => !valid_split(string.spec_bytes(), index as int) || forall|q: int|
                q + substring.spec_bytes().len() <= index ==> !occurs_at(
                    string.spec_bytes(),
                    substring.spec_bytes(),
                    q,
                ),
        },
{
    let s = string.as_bytes();
    let sub = substring.as_bytes();
    if index > s.len() || !string.is_char_boundary(index) {
        return None;
    }
    if sub.len() > index {
        return None;
    }
    let mut p: usize = index - sub.len();
    loop
        invariant
            p + sub@.len() <= index <= s@.len(),
            valid_split(string.spec_bytes(), index as int),
            s@ == string.spec_bytes(),
            sub@ == substring.spec_bytes(),
            forall|q: int| p < q && q + sub@.len() <= index ==> !occurs_at(s@, sub@, q),
        decreases p,
    {
        if occurs_at_exec(s, sub, p) {
            return Some(p);
        }
        if p == 0 {
            return None;
        }
        p -= 1;
    }
}

} // verus!
