//! A labelled syntax tree of the source, as the parser gave it, and the
//! traversals that the frame extractor asks of it.

use vstd::prelude::*;

verus! {

/// A named node of the syntax tree: its kind, the byte range of the source
/// it spans, and its named children in source order.
pub struct SyntaxNode {
    pub kind: String,
    pub start_byte: usize,
    pub end_byte: usize,
    pub children: Vec<SyntaxNode>,
}

/// The order in which a search visits the nodes under a root.
pub enum TraversalOrder {
    /// A node, then its children from first to last: pre-order.
    DepthFirst,
    /// A node, then its children from last to first.
    BreadthFirst,
}

/// The nodes under `n`, `n` included, that `p` selects, in visiting
/// order: `n` first, then its children from first to last, or from last to
/// first where `mirrored`.
pub open spec fn select(n: SyntaxNode, p: spec_fn(SyntaxNode) -> bool, mirrored: bool) -> Seq<SyntaxNode>
    decreases n,
{
    (if p(n) {
        seq![n]
    } else {
        seq![]
    }) + select_all(n.children@, p, mirrored)
}

/// The nodes that `p` selects under each of `ns`, taken in order, or in
/// reverse order where `mirrored`.
pub open spec fn select_all(ns: Seq<SyntaxNode>, p: spec_fn(SyntaxNode) -> bool, mirrored: bool) -> Seq<SyntaxNode>
    decreases ns,
{
    if ns.len() == 0 {
        seq![]
    } else if mirrored {
        select_all(ns.subrange(1, ns.len() as int), p, mirrored) + select(ns[0], p, mirrored)
    } else {
        select_all(ns.subrange(0, ns.len() - 1), p, mirrored) + select(ns[ns.len() - 1], p, mirrored)
    }
}

/// The first element of `s`, if any.
pub open spec fn take_first<A>(s: Seq<A>) -> Seq<A> {
    if s.len() == 0 {
        s
    } else {
        seq![s[0]]
    }
}

/// What a search returns: all selected nodes, or only the first.
pub open spec fn search_result(s: Seq<SyntaxNode>, first_only: bool) -> Seq<SyntaxNode> {
    if first_only {
        take_first(s)
    } else {
        s
    }
}

/// `f` can be called on every node and gives one answer for each.
pub open spec fn is_node_predicate<F: Fn(&SyntaxNode) -> bool>(f: F) -> bool {
    &&& forall|n: &SyntaxNode| #[trigger] f.requires((n,))
    &&& forall|n: &SyntaxNode, b: bool| #[trigger] f.ensures((n,), b) ==> b == f.ensures((n,), true)
}

/// `f` can be called on every node and answers as `p` does.
pub open spec fn decides<F: Fn(&SyntaxNode) -> bool>(f: F, p: spec_fn(SyntaxNode) -> bool) -> bool {
    &&& forall|n: &SyntaxNode| #[trigger] f.requires((n,))
    &&& forall|n: &SyntaxNode, b: bool| #[trigger] f.ensures((n,), b) ==> b == p(*n)
}

/// The nodes under `root` that `pred`, which answers as `p` does, selects
/// in the given order; only the first of them where `first_only`.
pub(crate) fn search<'a, F: Fn(&SyntaxNode) -> bool>(
    root: &'a SyntaxNode,
    pred: &F,
    Ghost(p): Ghost<spec_fn(SyntaxNode) -> bool>,
    first_only: bool,
    mirrored: bool,
) -> (r: Vec<&'a SyntaxNode>)
    requires
        decides(*pred, p),
    ensures
        nodes_view(r@) == search_result(select(*root, p, mirrored), first_only),
{
    let mut out: Vec<&'a SyntaxNode> = Vec::new();
    visit(root, pred, Ghost(p), first_only, mirrored, &mut out);
    assert(nodes_view(Seq::<&SyntaxNode>::empty()) =~= Seq::<SyntaxNode>::empty());
    proof {
        if !first_only {
            let s = select(*root, p, mirrored);
            assert(Seq::<SyntaxNode>::empty() + s =~= s);
        }
    }
    out
}

/// The nodes that `f` selects.
pub open spec fn selected_by<F: Fn(&SyntaxNode) -> bool>(f: F) -> spec_fn(SyntaxNode) -> bool {
    |n: SyntaxNode| f.ensures((&n,), true)
}

/// Nodes seen as values.
pub open spec fn nodes_view(v: Seq<&SyntaxNode>) -> Seq<SyntaxNode> {
    v.map_values(|n: &SyntaxNode| *n)
}

proof fn lemma_take_first_concat(a: Seq<SyntaxNode>, b: Seq<SyntaxNode>)
    ensures
        a.len() > 0 ==> take_first(a + b) == take_first(a),
        a.len() == 0 ==> take_first(a + b) == take_first(b),
{
    if a.len() == 0 {
        assert(a + b =~= b);
    }
}

fn visit<'a, F: Fn(&SyntaxNode) -> bool>(
    n: &'a SyntaxNode,
    pred: &F,
    Ghost(p): Ghost<spec_fn(SyntaxNode) -> bool>,
    first_only: bool,
    mirrored: bool,
    out: &mut Vec<&'a SyntaxNode>,
)
    requires
        decides(*pred, p),
    ensures
        !first_only ==> nodes_view(final(out)@) == nodes_view(old(out)@) + select(*n, p, mirrored),
        first_only && old(out)@.len() > 0 ==> final(out)@ == old(out)@,
        first_only && old(out)@.len() == 0 ==> nodes_view(final(out)@) == take_first(select(*n, p, mirrored)),
    decreases *n,
{
    if first_only && out.len() > 0 {
        return;
    }
    let ghost start = nodes_view(out@);
    let hit = pred(n);
    let ghost own: Seq<SyntaxNode> = if p(*n) {
        seq![*n]
    } else {
        seq![]
    };
    if hit {
        out.push(n);
    }
    assert(nodes_view(out@) =~= start + own);
    let ghost kids = n.children@;
    let len = n.children.len();
    if mirrored {
        let mut i: usize = len;
        while i > 0
            invariant
                decides(*pred, p),
                kids == n.children@,
                len == kids.len(),
                i <= len,
                mirrored,
                !first_only ==> nodes_view(out@) == start + own + select_all(kids.subrange(i as int, len as int), p, true),
                first_only ==> start.len() == 0,
                first_only ==> nodes_view(out@) == take_first(own + select_all(kids.subrange(i as int, len as int), p, true)),
            decreases i,
        {
            let ghost before = nodes_view(out@);
            let ghost rest = select_all(kids.subrange(i as int, len as int), p, true);
            assert(kids.subrange(i - 1, len as int).subrange(1, len - (i - 1)) =~= kids.subrange(i as int, len as int));
            assert(kids.subrange(i - 1, len as int)[0] == kids[i - 1]);
            let ghost part = select(kids[i - 1], p, true);
            assert(select_all(kids.subrange(i - 1, len as int), p, true) == rest + part);
            visit(&n.children[i - 1], pred, Ghost(p), first_only, mirrored, out);
            proof {
                if first_only {
                    lemma_take_first_concat(own + rest, part);
                    assert(own + rest + part =~= own + (rest + part));
                } else {
                    assert(start + own + (rest + part) =~= before + part);
                }
            }
            i = i - 1;
        }
        assert(kids.subrange(0, len as int) =~= kids);
    } else {
        let mut i: usize = 0;
        while i < len
            invariant
                decides(*pred, p),
                kids == n.children@,
                len == kids.len(),
                i <= len,
                !mirrored,
                !first_only ==> nodes_view(out@) == start + own + select_all(kids.subrange(0, i as int), p, false),
                first_only ==> start.len() == 0,
                first_only ==> nodes_view(out@) == take_first(own + select_all(kids.subrange(0, i as int), p, false)),
            decreases len - i,
        {
            let ghost before = nodes_view(out@);
            let ghost rest = select_all(kids.subrange(0, i as int), p, false);
            assert(kids.subrange(0, i + 1).subrange(0, i as int) =~= kids.subrange(0, i as int));
            assert(kids.subrange(0, i + 1)[i as int] == kids[i as int]);
            let ghost part = select(kids[i as int], p, false);
            assert(select_all(kids.subrange(0, i + 1), p, false) == rest + part);
            visit(&n.children[i], pred, Ghost(p), first_only, mirrored, out);
            proof {
                if first_only {
                    lemma_take_first_concat(own + rest, part);
                    assert(own + rest + part =~= own + (rest + part));
                } else {
                    assert(start + own + (rest + part) =~= before + part);
                }
            }
            i = i + 1;
        }
        assert(kids.subrange(0, len as int) =~= kids);
    }
    proof {
        if first_only {
            assert(own + select_all(kids, p, mirrored) == select(*n, p, mirrored));
        } else {
            assert(start + own + select_all(kids, p, mirrored) =~= start + select(*n, p, mirrored));
        }
    }
}

/// The nodes under `root`, `root` included, that `predicate` selects, in
/// the given order; only the first of them where `return_first_only`.
pub fn get_children<'a, F: Fn(&SyntaxNode) -> bool>(
    root_node: &'a SyntaxNode,
    predicate: &F,
    return_first_only: bool,
    traversal_order: TraversalOrder,
) -> (r: Vec<&'a SyntaxNode>)
    requires
        is_node_predicate(*predicate),
    ensures
        nodes_view(r@) == search_result(
            select(*root_node, selected_by(*predicate), traversal_order is BreadthFirst),
            return_first_only,
        ),
{
    let mirrored = match traversal_order {
        TraversalOrder::DepthFirst => false,
        TraversalOrder::BreadthFirst => true,
    };
    search(root_node, predicate, Ghost(selected_by(*predicate)), return_first_only, mirrored)
}

/// Selects the nodes of kind `kind`.
pub open spec fn of_kind(kind: Seq<char>) -> spec_fn(SyntaxNode) -> bool {
    |n: SyntaxNode| n.kind@ == kind
}

/// The nodes under `root`, `root` included, of kind `node_type`, in
/// pre-order; only the first of them where `return_first_only`.
pub fn get_nodes_of_type<'a>(root_node: &'a SyntaxNode, node_type: String, return_first_only: bool) -> (r: Vec<&'a SyntaxNode>)
    ensures
        nodes_view(r@) == search_result(select(*root_node, of_kind(node_type@), false), return_first_only),
{
    let wanted = node_type;
    let pred = |n: &SyntaxNode| -> (b: bool)
        ensures
            b == (n.kind@ == wanted@),
        { n.kind == wanted };
    search(root_node, &pred, Ghost(of_kind(node_type@)), return_first_only, false)
}

/// All byte ranges of the nodes under `n`, `n` included, lie in a source of
/// `len` bytes.
pub open spec fn spans_within(n: SyntaxNode, len: int) -> bool
    decreases n,
{
    &&& n.start_byte <= n.end_byte <= len
    &&& all_spans_within(n.children@, len)
}

/// `spans_within` for each of `ns`.
pub open spec fn all_spans_within(ns: Seq<SyntaxNode>, len: int) -> bool
    decreases ns,
{
    ns.len() > 0 ==> spans_within(ns[ns.len() - 1], len) && all_spans_within(ns.subrange(0, ns.len() - 1), len)
}

pub(crate) fn check_spans(n: &SyntaxNode, len: usize) -> (r: bool)
    ensures
        r == spans_within(*n, len as int),
    decreases *n,
{
    if !(n.start_byte <= n.end_byte && n.end_byte <= len) {
        return false;
    }
    let ghost kids = n.children@;
    let mut i: usize = 0;
    while i < n.children.len()
        invariant
            kids == n.children@,
            i <= kids.len(),
            all_spans_within(kids.subrange(0, i as int), len as int),
        decreases kids.len() - i,
    {
        assert(kids.subrange(0, i + 1).subrange(0, i as int) =~= kids.subrange(0, i as int));
        if !check_spans(&n.children[i], len) {
            proof {
                if all_spans_within(kids, len as int) {
                    lemma_spans_prefix(kids, i as int + 1, len as int);
                    assert(kids.subrange(0, i + 1)[i as int] == kids[i as int]);
                }
            }
            return false;
        }
        i = i + 1;
    }
    assert(kids.subrange(0, kids.len() as int) =~= kids);
    true
}

proof fn lemma_spans_prefix(ns: Seq<SyntaxNode>, k: int, len: int)
    requires
        0 <= k <= ns.len(),
        all_spans_within(ns, len),
    ensures
        all_spans_within(ns.subrange(0, k), len),
    decreases ns.len(),
{
    if k < ns.len() {
        assert(ns.subrange(0, ns.len() - 1).subrange(0, k) =~= ns.subrange(0, k));
        lemma_spans_prefix(ns.subrange(0, ns.len() - 1), k, len);
    } else {
        assert(ns.subrange(0, k) =~= ns);
    }
}

proof fn lemma_all_spans_index(ns: Seq<SyntaxNode>, i: int, len: int)
    requires
        0 <= i < ns.len(),
        all_spans_within(ns, len),
    ensures
        spans_within(ns[i], len),
    decreases ns.len(),
{
    if i < ns.len() - 1 {
        lemma_all_spans_index(ns.subrange(0, ns.len() - 1), i, len);
    }
}

pub proof fn lemma_select_within(n: SyntaxNode, p: spec_fn(SyntaxNode) -> bool, mirrored: bool, len: int)
    requires
        spans_within(n, len),
    ensures
        forall|i: int| 0 <= i < select(n, p, mirrored).len() ==> spans_within(#[trigger] select(n, p, mirrored)[i], len),
    decreases n,
{
    lemma_select_all_within(n.children@, p, mirrored, len);
    let own: Seq<SyntaxNode> = if p(n) { seq![n] } else { seq![] };
    let rest = select_all(n.children@, p, mirrored);
    assert forall|i: int| 0 <= i < select(n, p, mirrored).len() implies spans_within(#[trigger] select(n, p, mirrored)[i], len) by {
        if i >= own.len() {
            assert(select(n, p, mirrored)[i] == rest[i - own.len()]);
        }
    }
}

proof fn lemma_select_all_within(ns: Seq<SyntaxNode>, p: spec_fn(SyntaxNode) -> bool, mirrored: bool, len: int)
    requires
        all_spans_within(ns, len),
    ensures
        forall|i: int| 0 <= i < select_all(ns, p, mirrored).len() ==> spans_within(#[trigger] select_all(ns, p, mirrored)[i], len),
    decreases ns,
{
    if ns.len() > 0 {
        let all = select_all(ns, p, mirrored);
        if mirrored {
            let tail = ns.subrange(1, ns.len() as int);
            lemma_all_spans_index(ns, 0, len);
            assert(all_spans_within(tail, len)) by {
                lemma_all_spans_shift(ns, len);
            }
            lemma_select_all_within(tail, p, mirrored, len);
            lemma_select_within(ns[0], p, mirrored, len);
            let a = select_all(tail, p, mirrored);
            let b = select(ns[0], p, mirrored);
            assert forall|i: int| 0 <= i < all.len() implies spans_within(#[trigger] all[i], len) by {
                if i < a.len() {
                    assert(all[i] == a[i]);
                } else {
                    assert(all[i] == b[i - a.len()]);
                }
            }
        } else {
            let init = ns.subrange(0, ns.len() - 1);
            lemma_select_all_within(init, p, mirrored, len);
            lemma_select_within(ns[ns.len() - 1], p, mirrored, len);
            let a = select_all(init, p, mirrored);
            let b = select(ns[ns.len() - 1], p, mirrored);
            assert forall|i: int| 0 <= i < all.len() implies spans_within(#[trigger] all[i], len) by {
                if i < a.len() {
                    assert(all[i] == a[i]);
                } else {
                    assert(all[i] == b[i - a.len()]);
                }
            }
        }
    }
}

proof fn lemma_all_spans_shift(ns: Seq<SyntaxNode>, len: int)
    requires
        ns.len() > 0,
        all_spans_within(ns, len),
    ensures
        all_spans_within(ns.subrange(1, ns.len() as int), len),
    decreases ns.len(),
{
    let tail = ns.subrange(1, ns.len() as int);
    if tail.len() > 0 {
        let init = ns.subrange(0, ns.len() - 1);
        lemma_all_spans_shift(init, len);
        assert(tail.subrange(0, tail.len() - 1) =~= init.subrange(1, init.len() as int));
        assert(tail[tail.len() - 1] == ns[ns.len() - 1]);
    }
}

/// Every node of the tree under `n` lies inside its parent and after its
/// elder siblings.
pub open spec fn nested(n: SyntaxNode) -> bool
    decreases n,
{
    &&& n.start_byte <= n.end_byte
    &&& children_nested(n.children@, n.start_byte as int, n.end_byte as int)
}

/// `ns` lie in order, without overlap, between bytes `lo` and `hi`, and each
/// is `nested`.
pub open spec fn children_nested(ns: Seq<SyntaxNode>, lo: int, hi: int) -> bool
    decreases ns,
{
    ns.len() > 0 ==> {
        &&& nested(ns[ns.len() - 1])
        &&& lo <= ns[ns.len() - 1].start_byte
        &&& ns[ns.len() - 1].end_byte <= hi
        &&& children_nested(ns.subrange(0, ns.len() - 1), lo, ns[ns.len() - 1].start_byte as int)
    }
}

/// Of any two of `s`, the later lies inside the earlier or after its end.
pub open spec fn laminar(s: Seq<SyntaxNode>) -> bool {
    forall|i: int, j: int|
        0 <= i < j < s.len() ==> (#[trigger] s[i].start_byte <= #[trigger] s[j].start_byte && s[j].end_byte
            <= s[i].end_byte) || s[i].end_byte <= s[j].start_byte
}

/// Each of `s` spans bytes between `lo` and `hi`.
pub open spec fn ranges_within(s: Seq<SyntaxNode>, lo: int, hi: int) -> bool {
    forall|i: int| 0 <= i < s.len() ==> lo <= #[trigger] s[i].start_byte <= s[i].end_byte <= hi
}

proof fn lemma_concat_laminar(a: Seq<SyntaxNode>, b: Seq<SyntaxNode>, lo: int, mid: int, hi: int)
    requires
        lo <= mid <= hi,
        laminar(a),
        laminar(b),
        ranges_within(a, lo, mid),
        ranges_within(b, mid, hi),
    ensures
        laminar(a + b),
        ranges_within(a + b, lo, hi),
{
    let c = a + b;
    assert forall|i: int, j: int| 0 <= i < j < c.len() implies (#[trigger] c[i].start_byte
        <= #[trigger] c[j].start_byte && c[j].end_byte <= c[i].end_byte) || c[i].end_byte
        <= c[j].start_byte by {
        if j < a.len() {
            assert(c[i] == a[i] && c[j] == a[j]);
        } else if i >= a.len() {
            assert(c[i] == b[i - a.len()] && c[j] == b[j - a.len()]);
        } else {
            assert(c[i] == a[i] && c[j] == b[j - a.len()]);
        }
    }
    assert forall|i: int| 0 <= i < c.len() implies lo <= #[trigger] c[i].start_byte <= c[i].end_byte <= hi by {
        if i < a.len() {
            assert(c[i] == a[i]);
        } else {
            assert(c[i] == b[i - a.len()]);
        }
    }
}

proof fn lemma_enclosing_laminar(own: Seq<SyntaxNode>, b: Seq<SyntaxNode>, lo: int, hi: int)
    requires
        own.len() <= 1,
        own.len() == 1 ==> own[0].start_byte == lo && own[0].end_byte == hi,
        lo <= hi,
        laminar(b),
        ranges_within(b, lo, hi),
    ensures
        laminar(own + b),
        ranges_within(own + b, lo, hi),
{
    let c = own + b;
    assert forall|i: int, j: int| 0 <= i < j < c.len() implies (#[trigger] c[i].start_byte
        <= #[trigger] c[j].start_byte && c[j].end_byte <= c[i].end_byte) || c[i].end_byte
        <= c[j].start_byte by {
        assert(c[j] == b[j - own.len()]);
        if i >= own.len() {
            assert(c[i] == b[i - own.len()]);
        }
    }
    assert forall|i: int| 0 <= i < c.len() implies lo <= #[trigger] c[i].start_byte <= c[i].end_byte <= hi by {
        if i >= own.len() {
            assert(c[i] == b[i - own.len()]);
        }
    }
}

/// In a nested tree, a pre-order search finds nodes each of which lies
/// inside an earlier one or after its end, all inside the root.
pub proof fn lemma_select_laminar(n: SyntaxNode, p: spec_fn(SyntaxNode) -> bool)
    requires
        nested(n),
    ensures
        laminar(select(n, p, false)),
        ranges_within(select(n, p, false), n.start_byte as int, n.end_byte as int),
    decreases n,
{
    lemma_select_all_laminar(n.children@, p, n.start_byte as int, n.end_byte as int);
    let own: Seq<SyntaxNode> = if p(n) {
        seq![n]
    } else {
        seq![]
    };
    lemma_enclosing_laminar(own, select_all(n.children@, p, false), n.start_byte as int, n.end_byte as int);
}

proof fn lemma_select_all_laminar(ns: Seq<SyntaxNode>, p: spec_fn(SyntaxNode) -> bool, lo: int, hi: int)
    requires
        children_nested(ns, lo, hi),
        lo <= hi,
    ensures
        laminar(select_all(ns, p, false)),
        ranges_within(select_all(ns, p, false), lo, hi),
    decreases ns,
{
    if ns.len() > 0 {
        let last = ns[ns.len() - 1];
        let init = ns.subrange(0, ns.len() - 1);
        assert(nested(last));
        assert(last.start_byte <= last.end_byte);
        lemma_select_all_laminar(init, p, lo, last.start_byte as int);
        lemma_select_laminar(last, p);
        lemma_concat_laminar(
            select_all(init, p, false),
            select(last, p, false),
            lo,
            last.start_byte as int,
            hi,
        );
    }
}

/// Whether every node of the tree under `n` lies inside its parent and
/// after its elder siblings.
pub(crate) fn check_nested(n: &SyntaxNode) -> (r: bool)
    ensures
        r == nested(*n),
    decreases *n,
{
    if n.start_byte > n.end_byte {
        return false;
    }
    let ghost kids = n.children@;
    let ghost lo = n.start_byte as int;
    let mut hi: usize = n.end_byte;
    let mut i: usize = n.children.len();
    assert(kids.subrange(0, i as int) =~= kids);
    while i > 0
        invariant
            kids == n.children@,
            i <= kids.len(),
            lo == n.start_byte,
            lo <= n.end_byte,
            nested(*n) == children_nested(kids, lo, n.end_byte as int),
            children_nested(kids, lo, n.end_byte as int) == children_nested(
                kids.subrange(0, i as int),
                lo,
                hi as int,
            ),
        decreases i,
    {
        let c = &n.children[i - 1];
        let ghost pre = kids.subrange(0, i as int);
        assert(pre[i - 1] == *c);
        assert(pre.subrange(0, i - 1) =~= kids.subrange(0, i - 1));
        assert(children_nested(pre, lo, hi as int) == (nested(*c) && lo <= c.start_byte && c.end_byte <= hi
            && children_nested(kids.subrange(0, i - 1), lo, c.start_byte as int)));
        if !(n.start_byte <= c.start_byte && c.end_byte <= hi) || !check_nested(c) {
            return false;
        }
        hi = c.start_byte;
        i = i - 1;
    }
    assert(kids.subrange(0, kids.len() as int) =~= kids);
    true
}

} // verus!
