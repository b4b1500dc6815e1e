//! Key and prefix arithmetic over path-like strings.
//!
//! A key is a flat string; hierarchy is a convention built from the `/`
//! delimiter and directory-marker keys ending in `/_$folder$`.  Everything
//! here is stated over the character sequences that `&str` and `String` view
//! to.

use vstd::prelude::*;
use vstd::string::*;

verus! {

/// `p` is a prefix of `s`.
pub open spec fn is_prefix_of(p: Seq<char>, s: Seq<char>) -> bool {
    p.len() <= s.len() && s.subrange(0, p.len() as int) == p
}

/// The characters of the directory-marker suffix, `/_$folder$`.
pub open spec fn marker_suffix() -> Seq<char> {
    "/_$folder$"@
}

/// A key that designates a directory marker: it ends in `/_$folder$`.
pub open spec fn is_marker_key(k: Seq<char>) -> bool {
    marker_suffix().len() <= k.len() && k.subrange(
        k.len() - marker_suffix().len(),
        k.len() as int,
    ) == marker_suffix()
}

/// The directory-marker suffix as a string slice.
pub fn marker_suffix_str() -> (r: &'static str)
    ensures
        r@ == marker_suffix(),
        r@.len() == 10,
{
    proof {
        reveal_strlit("/_$folder$");
    }
    "/_$folder$"
}

/// The characters of the directory-marker suffix after the delimiter,
/// `_$folder$`.
pub open spec fn marker_tail() -> Seq<char> {
    "_$folder$"@
}

/// The tail of the directory-marker suffix as a string slice.
pub fn marker_tail_str() -> (r: &'static str)
    ensures
        r@ == marker_tail(),
        r@.len() == 9,
{
    proof {
        reveal_strlit("_$folder$");
    }
    "_$folder$"
}

/// Character-wise equality of two string slices.
pub fn str_eq(a: &str, b: &str) -> (r: bool)
    ensures
        r == (a@ == b@),
{
    let alen = a.unicode_len();
    let blen = b.unicode_len();
    if alen != blen {
        return false;
    }
    let mut i: usize = 0;
    while i < alen
        invariant
            alen == a@.len(),
            alen == b@.len(),
            i <= alen,
            forall|j: int| 0 <= j < i ==> a@[j] == b@[j],
        decreases alen - i,
    {
        if a.get_char(i) != b.get_char(i) {
            return false;
        }
        i += 1;
    }
    proof {
        assert(a@ =~= b@);
    }
    true
}

/// Does `s` start with `p`?
pub fn has_prefix(s: &str, p: &str) -> (r: bool)
    ensures
        r == is_prefix_of(p@, s@),
{
    let slen = s.unicode_len();
    let plen = p.unicode_len();
    if plen > slen {
        return false;
    }
    let mut i: usize = 0;
    while i < plen
        invariant
            slen == s@.len(),
            plen == p@.len(),
            plen <= slen,
            i <= plen,
            forall|j: int| 0 <= j < i ==> s@[j] == p@[j],
        decreases plen - i,
    {
        if s.get_char(i) != p.get_char(i) {
            proof {
                assert(s@.subrange(0, p@.len() as int)[i as int] == s@[i as int]);
            }
            return false;
        }
        i += 1;
    }
    proof {
        assert(s@.subrange(0, p@.len() as int) =~= p@);
    }
    true
}

/// Does `s` end with `p`?
pub fn has_suffix(s: &str, p: &str) -> (r: bool)
    ensures
        r == (p@.len() <= s@.len() && s@.subrange(s@.len() - p@.len(), s@.len() as int) == p@),
{
    let slen = s.unicode_len();
    let plen = p.unicode_len();
    if plen > slen {
        return false;
    }
    let tail = s.substring_char(slen - plen, slen);
    str_eq(tail, p)
}

/// The characters of `s` from position `n` on, as an owned string.
pub fn suffix_from(s: &str, n: usize) -> (r: String)
    requires
        n <= s@.len(),
    ensures
        r@ == s@.skip(n as int),
{
    let slen = s.unicode_len();
    let tail = s.substring_char(n, slen);
    proof {
        assert(tail@ =~= s@.skip(n as int));
    }
    tail.to_owned()
}

/// The concatenation of two string slices, as an owned string.
pub fn concat_strs(a: &str, b: &str) -> (r: String)
    ensures
        r@ == a@ + b@,
{
    let mut r = a.to_owned();
    r.append(b);
    r
}

/// The first position at or after `from` where `c` occurs in `s`.
pub fn find_char_from(s: &str, from: usize, c: char) -> (r: Option<usize>)
    requires
        from <= s@.len(),
    ensures
        match r {
            Some(i) => from <= i < s@.len() && s@[i as int] == c && forall|j: int|
                from <= j < i ==> s@[j] != c,
            None => forall|j: int| from <= j < s@.len() ==> s@[j] != c,
        },
{
    let slen = s.unicode_len();
    let mut i: usize = from;
    while i < slen
        invariant
            slen == s@.len(),
            from <= i <= slen,
            forall|j: int| from <= j < i ==> s@[j] != c,
        decreases slen - i,
    {
        if s.get_char(i) == c {
            return Some(i);
        }
        i += 1;
    }
    None
}

/// Appending equal tails to a common head yields equal strings only for
/// equal tails.
pub proof fn lemma_append_cancels(a: Seq<char>, x: Seq<char>, y: Seq<char>)
    requires
        a + x == a + y,
    ensures
        x == y,
{
    assert((a + x).len() == a.len() + x.len());
    assert((a + y).len() == a.len() + y.len());
    assert(x.len() == y.len());
    assert forall|i: int| 0 <= i < x.len() implies x[i] == y[i] by {
        assert((a + x)[a.len() + i] == x[i]);
        assert((a + y)[a.len() + i] == y[i]);
    }
    assert(x =~= y);
}

/// A string with a prefix is that prefix followed by the rest.
pub proof fn lemma_split_at_prefix(p: Seq<char>, s: Seq<char>)
    requires
        is_prefix_of(p, s),
    ensures
        s == p + s.skip(p.len() as int),
{
    assert(s =~= p + s.skip(p.len() as int));
}

} // verus!
