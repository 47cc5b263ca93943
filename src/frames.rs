//! Frame extraction without a syntax tree: the frames of a deck are the
//! multi-line matches of `^\begin{frame}.*?^\end{frame}`, taken
//! leftmost-first and without overlap, and the preamble is everything before
//! the first `\begin{document}`.

use vstd::prelude::*;
use vstd::string::StringSliceAdditionalSpecFns;
use crate::bytes::{find_bytes, bytes_at, occurs_at, is_first_occurrence};

verus! {

/// `\begin{frame}`
pub open spec fn begin_frame_tag() -> Seq<u8> {
    seq!['\\' as u8, 'b' as u8, 'e' as u8, 'g' as u8, 'i' as u8, 'n' as u8, '{' as u8, 'f' as u8, 'r' as u8, 'a' as u8, 'm' as u8, 'e' as u8, '}' as u8]
}

pub(crate) fn begin_frame_bytes() -> (r: Vec<u8>)
    ensures
        r@ == begin_frame_tag(),
{
    let r = vec!['\\' as u8, 'b' as u8, 'e' as u8, 'g' as u8, 'i' as u8, 'n' as u8, '{' as u8, 'f' as u8, 'r' as u8, 'a' as u8, 'm' as u8, 'e' as u8, '}' as u8];
    assert(r@ =~= begin_frame_tag());
    r
}

/// `\end{frame}`
pub open spec fn end_frame_tag() -> Seq<u8> {
    seq!['\\' as u8, 'e' as u8, 'n' as u8, 'd' as u8, '{' as u8, 'f' as u8, 'r' as u8, 'a' as u8, 'm' as u8, 'e' as u8, '}' as u8]
}

pub(crate) fn end_frame_bytes() -> (r: Vec<u8>)
    ensures
        r@ == end_frame_tag(),
{
    let r = vec!['\\' as u8, 'e' as u8, 'n' as u8, 'd' as u8, '{' as u8, 'f' as u8, 'r' as u8, 'a' as u8, 'm' as u8, 'e' as u8, '}' as u8];
    assert(r@ =~= end_frame_tag());
    r
}

/// `\begin{document}`
pub open spec fn begin_document_tag() -> Seq<u8> {
    seq!['\\' as u8, 'b' as u8, 'e' as u8, 'g' as u8, 'i' as u8, 'n' as u8, '{' as u8, 'd' as u8, 'o' as u8, 'c' as u8, 'u' as u8, 'm' as u8, 'e' as u8, 'n' as u8, 't' as u8, '}' as u8]
}

pub(crate) fn begin_document_bytes() -> (r: Vec<u8>)
    ensures
        r@ == begin_document_tag(),
{
    let r = vec!['\\' as u8, 'b' as u8, 'e' as u8, 'g' as u8, 'i' as u8, 'n' as u8, '{' as u8, 'd' as u8, 'o' as u8, 'c' as u8, 'u' as u8, 'm' as u8, 'e' as u8, 'n' as u8, 't' as u8, '}' as u8];
    assert(r@ =~= begin_document_tag());
    r
}

/// `\end{document}`
pub open spec fn end_document_tag() -> Seq<u8> {
    seq!['\\' as u8, 'e' as u8, 'n' as u8, 'd' as u8, '{' as u8, 'd' as u8, 'o' as u8, 'c' as u8, 'u' as u8, 'm' as u8, 'e' as u8, 'n' as u8, 't' as u8, '}' as u8]
}

pub(crate) fn end_document_bytes() -> (r: Vec<u8>)
    ensures
        r@ == end_document_tag(),
{
    let r = vec!['\\' as u8, 'e' as u8, 'n' as u8, 'd' as u8, '{' as u8, 'd' as u8, 'o' as u8, 'c' as u8, 'u' as u8, 'm' as u8, 'e' as u8, 'n' as u8, 't' as u8, '}' as u8];
    assert(r@ =~= end_document_tag());
    r
}

/// The class declaration used as preamble when the source has no
/// `\begin{document}`.
pub open spec fn default_preamble() -> Seq<u8> {
    "\\documentclass[aspectratio=43,c,xcolor=dvipsnames]{beamer}".spec_bytes()
}

pub(crate) fn default_preamble_bytes() -> (r: Vec<u8>)
    ensures
        r@ == default_preamble(),
{
    let s: &str = "\\documentclass[aspectratio=43,c,xcolor=dvipsnames]{beamer}";
    let b = s.as_bytes();
    vstd::slice::slice_to_vec(b)
}

/// Byte `i` opens a line: where `^` matches in multi-line mode.
pub open spec fn is_line_start(t: Seq<u8>, i: int) -> bool {
    i == 0 || (0 < i <= t.len() && t[i - 1] == '\n' as u8)
}

/// `tag` stands at the start of a line, at byte `i`.
pub open spec fn tag_on_line_at(t: Seq<u8>, i: int, tag: Seq<u8>) -> bool {
    is_line_start(t, i) && occurs_at(t, i, tag)
}

/// The first byte at or after `q` where a line opens with `\end{frame}`.
pub open spec fn next_frame_end(t: Seq<u8>, q: int) -> Option<int>
    decreases t.len() - q,
{
    if q < 0 || q >= t.len() {
        None
    } else if tag_on_line_at(t, q, end_frame_tag()) {
        Some(q)
    } else {
        next_frame_end(t, q + 1)
    }
}

/// The frame matches found by scanning from byte `p`, as `(start, end)`
/// byte ranges: at the first line that opens with `\begin{frame}` and is
/// later closed by a line that opens with `\end{frame}`, the shortest such
/// match is taken and the scan goes on after it.
pub open spec fn frame_spans_from(t: Seq<u8>, p: int) -> Seq<(int, int)>
    decreases t.len() - p,
{
    if p < 0 || p >= t.len() {
        seq![]
    } else if tag_on_line_at(t, p, begin_frame_tag()) {
        match next_frame_end(t, p + begin_frame_tag().len()) {
            Some(e) => {
                proof {
                    lemma_next_frame_end(t, p + begin_frame_tag().len());
                }
                seq![(p, e + end_frame_tag().len())] + frame_spans_from(
                    t,
                    e + end_frame_tag().len(),
                )
            },
            None => frame_spans_from(t, p + 1),
        }
    } else {
        frame_spans_from(t, p + 1)
    }
}

/// The frame matches of a whole source.
pub open spec fn frame_spans_of(t: Seq<u8>) -> Seq<(int, int)> {
    frame_spans_from(t, 0)
}

/// The bytes of each frame match, in source order.
pub open spec fn frames_of(t: Seq<u8>) -> Seq<Seq<u8>> {
    frame_spans_of(t).map_values(|s: (int, int)| t.subrange(s.0, s.1))
}

/// The preamble: the bytes before the first `\begin{document}`, or the
/// default class declaration where there is none.
pub open spec fn preamble_of(t: Seq<u8>) -> Seq<u8> {
    if exists|i: int| is_first_occurrence(t, begin_document_tag(), i) {
        t.subrange(0, choose|i: int| is_first_occurrence(t, begin_document_tag(), i))
    } else {
        default_preamble()
    }
}

/// Byte ranges seen as integers.
pub open spec fn spans_view(s: Seq<(usize, usize)>) -> Seq<(int, int)> {
    s.map_values(|x: (usize, usize)| (x.0 as int, x.1 as int))
}

/// Ranges that lie in a text of `len` bytes, are non-empty, and come one
/// after the other without overlap.
pub open spec fn ordered_spans(s: Seq<(int, int)>, len: int) -> bool {
    &&& forall|i: int| 0 <= i < s.len() ==> 0 <= #[trigger] s[i].0 < s[i].1 <= len
    &&& forall|i: int, j: int| 0 <= i < j < s.len() ==> #[trigger] s[i].1 <= #[trigger] s[j].0
}

pub proof fn lemma_next_frame_end(t: Seq<u8>, q: int)
    requires
        0 <= q,
    ensures
        match next_frame_end(t, q) {
            Some(e) => {
                &&& q <= e < t.len()
                &&& tag_on_line_at(t, e, end_frame_tag())
                &&& forall|k: int| q <= k < e ==> !tag_on_line_at(t, k, end_frame_tag())
            },
            None => forall|k: int| q <= k ==> !tag_on_line_at(t, k, end_frame_tag()),
        },
    decreases t.len() - q,
{
    if q < t.len() && !tag_on_line_at(t, q, end_frame_tag()) {
        lemma_next_frame_end(t, q + 1);
    }
}

/// Where no frame end follows `q`, no match starts at or after `q - 13`.
proof fn lemma_no_end_no_spans(t: Seq<u8>, p: int, q: int)
    requires
        0 <= q <= p + begin_frame_tag().len(),
        0 <= p,
        next_frame_end(t, q) is None,
    ensures
        frame_spans_from(t, p) == Seq::<(int, int)>::empty(),
    decreases t.len() - p,
{
    lemma_next_frame_end(t, q);
    if p < t.len() {
        let q2 = p + begin_frame_tag().len();
        lemma_next_frame_end(t, q2);
        lemma_no_end_no_spans(t, p + 1, q);
    }
}

proof fn lemma_spans_ordered(t: Seq<u8>, p: int)
    requires
        0 <= p,
    ensures
        ordered_spans(frame_spans_from(t, p), t.len() as int),
        forall|i: int| 0 <= i < frame_spans_from(t, p).len() ==> p <= #[trigger] frame_spans_from(t, p)[i].0,
    decreases t.len() - p,
{
    if p < t.len() {
        if tag_on_line_at(t, p, begin_frame_tag()) {
            let q = p + begin_frame_tag().len();
            lemma_next_frame_end(t, q);
            match next_frame_end(t, q) {
                Some(e) => {
                    let after = e + end_frame_tag().len();
                    lemma_spans_ordered(t, after);
                    assert(occurs_at(t, e, end_frame_tag()));
                    let rest = frame_spans_from(t, after);
                    let all = frame_spans_from(t, p);
                    assert(all == seq![(p, after)] + rest);
                    assert forall|i: int, j: int| 0 <= i < j < all.len() implies #[trigger] all[i].1 <= #[trigger] all[j].0 by {
                        if i > 0 {
                            assert(all[i] == rest[i - 1]);
                        }
                        assert(all[j] == rest[j - 1]);
                    }
                    assert forall|i: int| 0 <= i < all.len() implies 0 <= #[trigger] all[i].0 < all[i].1 <= t.len() && p <= all[i].0 by {
                        if i > 0 {
                            assert(all[i] == rest[i - 1]);
                        }
                    }
                },
                None => {
                    lemma_spans_ordered(t, p + 1);
                },
            }
        } else {
            lemma_spans_ordered(t, p + 1);
        }
    }
}

fn line_opens_at(src: &[u8], i: usize, tag: &[u8]) -> (r: bool)
    ensures
        r == tag_on_line_at(src@, i as int, tag@),
{
    if i == 0 {
        bytes_at(src, i, tag)
    } else if i <= src.len() && src[i - 1] == '\n' as u8 {
        bytes_at(src, i, tag)
    } else {
        false
    }
}

fn find_frame_end(src: &[u8], q: usize, end: &[u8]) -> (r: Option<usize>)
    requires
        end@ == end_frame_tag(),
    ensures
        match r {
            Some(e) => next_frame_end(src@, q as int) == Some(e as int),
            None => next_frame_end(src@, q as int) is None,
        },
{
    let mut k: usize = q;
    while k < src.len()
        invariant
            end@ == end_frame_tag(),
            q <= k,
            next_frame_end(src@, q as int) == next_frame_end(src@, k as int),
        decreases src@.len() - k,
    {
        if line_opens_at(src, k, end) {
            return Some(k);
        }
        k = k + 1;
    }
    None
}

/// The byte ranges of the frame matches of `src`, in source order.
pub fn frame_spans(src: &[u8]) -> (r: Vec<(usize, usize)>)
    ensures
        spans_view(r@) == frame_spans_of(src@),
        ordered_spans(spans_view(r@), src@.len() as int),
{
    let begin = begin_frame_bytes();
    let end = end_frame_bytes();
    let mut out: Vec<(usize, usize)> = Vec::new();
    let mut p: usize = 0;
    while p < src.len()
        invariant
            begin@ == begin_frame_tag(),
            end@ == end_frame_tag(),
            p <= src@.len(),
            spans_view(out@) + frame_spans_from(src@, p as int) == frame_spans_of(src@),
        decreases src@.len() - p,
    {
        if line_opens_at(src, p, &begin) {
            let q = p + begin.len();
            match find_frame_end(src, q, &end) {
                Some(e) => {
                    proof {
                        lemma_next_frame_end(src@, q as int);
                    }
                    let after = e + end.len();
                    let ghost before = out@;
                    out.push((p, after));
                    proof {
                        assert(spans_view(out@) =~= spans_view(before) + seq![(p as int, after as int)]);
                        assert(frame_spans_from(src@, p as int) == seq![(p as int, after as int)]
                            + frame_spans_from(src@, after as int));
                        vstd::seq_lib::lemma_concat_associative(spans_view(before), seq![(p as int, after as int)], frame_spans_from(src@, after as int));
                    }
                    p = after;
                },
                None => {
                    proof {
                        lemma_no_end_no_spans(src@, p as int, q as int);
                        assert(spans_view(out@) + frame_spans_from(src@, p as int) =~= spans_view(out@));
                        lemma_spans_ordered(src@, 0);
                    }
                    return out;
                },
            }
        } else {
            p = p + 1;
        }
    }
    proof {
        assert(spans_view(out@) + frame_spans_from(src@, p as int) =~= spans_view(out@));
        lemma_spans_ordered(src@, 0);
    }
    out
}

/// A copy of `src[a..b]`.
pub fn copy_range(src: &[u8], a: usize, b: usize) -> (r: Vec<u8>)
    requires
        a <= b <= src@.len(),
    ensures
        r@ == src@.subrange(a as int, b as int),
{
    let mut out: Vec<u8> = Vec::new();
    let mut i: usize = a;
    while i < b
        invariant
            a <= i <= b <= src@.len(),
            out@ == src@.subrange(a as int, i as int),
        decreases b - i,
    {
        out.push(src[i]);
        assert(src@.subrange(a as int, i + 1) =~= src@.subrange(a as int, i as int).push(src@[i as int]));
        i = i + 1;
    }
    out
}

/// The preamble of `src`: the bytes before its first `\begin{document}`,
/// or the default class declaration where it has none.
pub fn find_preamble(src: &[u8]) -> (r: Vec<u8>)
    ensures
        r@ == preamble_of(src@),
{
    let tag = begin_document_bytes();
    match find_bytes(src, tag.as_slice()) {
        Some(i) => {
            proof {
                assert(is_first_occurrence(src@, begin_document_tag(), i as int));
                let c = choose|j: int| is_first_occurrence(src@, begin_document_tag(), j);
                if c < i {
                    assert(!occurs_at(src@, c, begin_document_tag()));
                } else if c > i {
                    assert(!occurs_at(src@, i as int, begin_document_tag()));
                }
            }
            copy_range(src, 0, i)
        },
        None => default_preamble_bytes(),
    }
}

/// The frames of `src` found by the multi-line frame pattern, in source
/// order.
pub fn find_frames(src: &[u8]) -> (r: Vec<Vec<u8>>)
    ensures
        r@.len() == frames_of(src@).len(),
        forall|i: int| 0 <= i < r@.len() ==> #[trigger] r@[i]@ == frames_of(src@)[i],
{
    let spans = frame_spans(src);
    let mut out: Vec<Vec<u8>> = Vec::new();
    let mut k: usize = 0;
    while k < spans.len()
        invariant
            spans_view(spans@) == frame_spans_of(src@),
            ordered_spans(spans_view(spans@), src@.len() as int),
            k <= spans@.len(),
            out@.len() == k,
            forall|i: int| 0 <= i < k ==> #[trigger] out@[i]@ == frames_of(src@)[i],
        decreases spans@.len() - k,
    {
        let (a, b) = spans[k];
        assert(spans_view(spans@)[k as int] == (a as int, b as int));
        let f = copy_range(src, a, b);
        out.push(f);
        k = k + 1;
    }
    out
}

/// The first frame end at or after `q` is at `e`.
pub proof fn lemma_next_frame_end_at(t: Seq<u8>, q: int, e: int)
    requires
        0 <= q <= e,
        tag_on_line_at(t, e, end_frame_tag()),
        forall|k: int| q <= k < e ==> !tag_on_line_at(t, k, end_frame_tag()),
    ensures
        next_frame_end(t, q) == Some(e),
    decreases e - q,
{
    if q < e {
        lemma_next_frame_end_at(t, q + 1, e);
    }
}

/// Bytes where no line opens with `\begin{frame}` are passed over.
pub proof fn lemma_skip_to(t: Seq<u8>, p: int, q: int)
    requires
        0 <= p <= q <= t.len(),
        forall|k: int| p <= k < q ==> !tag_on_line_at(t, k, begin_frame_tag()),
    ensures
        frame_spans_from(t, p) == frame_spans_from(t, q),
    decreases q - p,
{
    if p < q {
        lemma_skip_to(t, p + 1, q);
    }
}

/// A text that is one whole frame match opens with `\begin{frame}` and has
/// its first frame end where the text ends.
pub proof fn lemma_whole_match(f: Seq<u8>)
    requires
        frame_spans_of(f) == seq![(0int, f.len() as int)],
    ensures
        tag_on_line_at(f, 0, begin_frame_tag()),
        next_frame_end(f, begin_frame_tag().len() as int) == Some(f.len() - end_frame_tag().len()),
{
    lemma_spans_ordered(f, 1);
    let q = begin_frame_tag().len() as int;
    if tag_on_line_at(f, 0, begin_frame_tag()) {
        lemma_next_frame_end(f, q);
        match next_frame_end(f, q) {
            Some(e) => {
                assert(frame_spans_from(f, 0)[0] == (0int, e + end_frame_tag().len()));
            },
            None => {
                assert(frame_spans_from(f, 0) == frame_spans_from(f, 1));
                assert(frame_spans_from(f, 1)[0].0 >= 1);
            },
        }
    } else {
        assert(frame_spans_from(f, 0) == frame_spans_from(f, 1));
        assert(frame_spans_from(f, 1)[0].0 >= 1);
    }
}

/// Frame order: the frame matches of any source lie in it one after the
/// other, so their start bytes strictly increase.
pub proof fn law_frames_in_source_order(t: Seq<u8>)
    ensures
        ordered_spans(frame_spans_of(t), t.len() as int),
        forall|i: int, j: int|
            0 <= i < j < frame_spans_of(t).len() ==> #[trigger] frame_spans_of(t)[i].0 < #[trigger] frame_spans_of(t)[j].0,
{
    lemma_spans_ordered(t, 0);
    let s = frame_spans_of(t);
    assert forall|i: int, j: int| 0 <= i < j < s.len() implies #[trigger] s[i].0 < #[trigger] s[j].0 by {
        assert(s[i].0 < s[i].1);
        assert(s[i].1 <= s[j].0);
    }
}

} // verus!
