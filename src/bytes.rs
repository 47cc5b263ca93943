//! Byte-string helpers shared by the extractor and the cache layout.

use vstd::prelude::*;
use vstd::string::StringSliceAdditionalSpecFns;

verus! {

/// `pat` occurs in `text` starting at byte `i`.
pub open spec fn occurs_at(text: Seq<u8>, i: int, pat: Seq<u8>) -> bool {
    0 <= i && i + pat.len() <= text.len() && text.subrange(i, i + pat.len()) == pat
}

/// `i` is the position of the first occurrence of `pat` in `text`.
pub open spec fn is_first_occurrence(text: Seq<u8>, pat: Seq<u8>, i: int) -> bool {
    &&& occurs_at(text, i, pat)
    &&& forall|j: int| 0 <= j < i ==> !occurs_at(text, j, pat)
}

/// Whether `pat` occurs in `text` at byte `i`.
pub fn bytes_at(text: &[u8], i: usize, pat: &[u8]) -> (r: bool)
    ensures
        r == occurs_at(text@, i as int, pat@),
{
    if i > text.len() || pat.len() > text.len() - i {
        return false;
    }
    let mut k: usize = 0;
    while k < pat.len()
        invariant
            i + pat@.len() <= text@.len(),
            text@.len() == text.len(),
            k <= pat@.len(),
            forall|m: int| 0 <= m < k ==> text@[i + m] == pat@[m],
        decreases pat@.len() - k,
    {
        if text[i + k] != pat[k] {
            assert(text@.subrange(i as int, i + pat@.len())[k as int] != pat@[k as int]);
            return false;
        }
        k = k + 1;
    }
    assert(text@.subrange(i as int, i + pat@.len()) =~= pat@);
    true
}

/// Position of the first occurrence of `pat` in `text`.
pub fn find_bytes(text: &[u8], pat: &[u8]) -> (r: Option<usize>)
    ensures
        match r {
            Some(i) => is_first_occurrence(text@, pat@, i as int),
            None => forall|j: int| !occurs_at(text@, j, pat@),
        },
{
    if pat.len() > text.len() {
        return None;
    }
    let last = text.len() - pat.len();
    let mut i: usize = 0;
    while i <= last
        invariant
            last == text@.len() - pat@.len(),
            forall|j: int| 0 <= j < i ==> !occurs_at(text@, j, pat@),
        decreases last + 1 - i,
    {
        if bytes_at(text, i, pat) {
            return Some(i);
        }
        if i == last {
            return None;
        }
        i = i + 1;
    }
    None
}

/// Appending a relative path `rel` to `base`, with one separator between
/// them unless `base` is empty or already ends in one.
pub open spec fn path_join<A>(base: Seq<A>, rel: Seq<A>, sep: A) -> Seq<A> {
    if base.len() == 0 || base.last() == sep {
        base + rel
    } else {
        base + seq![sep] + rel
    }
}

/// `base` joined with the relative path `rel`.
pub fn join_bytes(base: &[u8], rel: &[u8]) -> (r: Vec<u8>)
    ensures
        r@ == path_join(base@, rel@, '/' as u8),
{
    let mut out = copy_bytes(base);
    if base.len() > 0 && base[base.len() - 1] != '/' as u8 {
        out.push('/' as u8);
    }
    push_all(&mut out, rel);
    out
}

/// Byte strings seen as sequences.
pub open spec fn texts(v: Seq<Vec<u8>>) -> Seq<Seq<u8>> {
    v.map_values(|x: Vec<u8>| x@)
}

/// The bytes of a string literal.
pub fn literal_bytes(s: &str) -> (r: Vec<u8>)
    ensures
        r@ == s.spec_bytes(),
{
    vstd::slice::slice_to_vec(s.as_bytes())
}

/// Appends all of `s` to `out`.
pub fn push_all(out: &mut Vec<u8>, s: &[u8])
    ensures
        final(out)@ == old(out)@ + s@,
{
    let mut i: usize = 0;
    while i < s.len()
        invariant
            i <= s@.len(),
            out@ == old(out)@ + s@.subrange(0, i as int),
        decreases s@.len() - i,
    {
        out.push(s[i]);
        assert(s@.subrange(0, i + 1) =~= s@.subrange(0, i as int).push(s@[i as int]));
        i = i + 1;
    }
    assert(s@.subrange(0, s@.len() as int) =~= s@);
}

/// A copy of `s`.
pub fn copy_bytes(s: &[u8]) -> (r: Vec<u8>)
    ensures
        r@ == s@,
{
    let mut out: Vec<u8> = Vec::new();
    push_all(&mut out, s);
    assert(out@ =~= s@);
    out
}

/// Whether `a` and `b` hold the same bytes.
pub fn bytes_eq(a: &[u8], b: &[u8]) -> (r: bool)
    ensures
        r == (a@ == b@),
{
    if a.len() != b.len() {
        return false;
    }
    let mut i: usize = 0;
    while i < a.len()
        invariant
            a@.len() == b@.len(),
            i <= a@.len(),
            forall|k: int| 0 <= k < i ==> a@[k] == b@[k],
        decreases a@.len() - i,
    {
        if a[i] != b[i] {
            return false;
        }
        i = i + 1;
    }
    assert(a@ =~= b@);
    true
}

} // verus!
