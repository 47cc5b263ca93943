//! The frame extractor: a source becomes its preamble and its ordered list
//! of frame bodies, taken from the syntax tree where one is asked for and
//! found, and from the multi-line frame pattern otherwise.

use vstd::prelude::*;
use vstd::string::StringSliceAdditionalSpecFns;
use vstd::string::StringExecFns;
use crate::bytes::{find_bytes, literal_bytes, occurs_at, texts};
use crate::frames::{copy_range, find_frames, find_preamble, frames_of, preamble_of};
use crate::parsing::ParsedFile;
use crate::syntax::{
    SyntaxNode, laminar, lemma_select_laminar, lemma_select_within, nodes_view, of_kind,
    ranges_within, search, select, spans_within,
};

verus! {

/// `{frame}`
pub open spec fn frame_argument() -> Seq<u8> {
    "{frame}".spec_bytes()
}

/// `n` is a `begin` node whose text holds `{frame}`.
pub open spec fn is_begin_frame(n: SyntaxNode, content: Seq<u8>) -> bool {
    &&& n.kind@ == "begin"@
    &&& n.start_byte <= n.end_byte <= content.len()
    &&& exists|i: int| occurs_at(content.subrange(n.start_byte as int, n.end_byte as int), i, frame_argument())
}

/// Selects the `begin` nodes that open a frame.
pub open spec fn begins_frame(content: Seq<u8>) -> spec_fn(SyntaxNode) -> bool {
    |n: SyntaxNode| is_begin_frame(n, content)
}

/// A `begin` of a frame lies under `t`, `t` included.
pub open spec fn holds_frame_begin(t: SyntaxNode, content: Seq<u8>) -> bool {
    select(t, begins_frame(content), false).len() > 0
}

/// Those of `ts` that hold the `begin` of a frame, in order.
pub open spec fn keep_framed(ts: Seq<SyntaxNode>, content: Seq<u8>) -> Seq<SyntaxNode>
    decreases ts.len(),
{
    if ts.len() == 0 {
        seq![]
    } else if holds_frame_begin(ts.last(), content) {
        keep_framed(ts.drop_last(), content).push(ts.last())
    } else {
        keep_framed(ts.drop_last(), content)
    }
}

/// The frame nodes of a file: its `text_env` nodes, in pre-order, that hold
/// the `begin` of a frame; none without a tree.
pub open spec fn tree_frames(file: ParsedFile) -> Seq<SyntaxNode> {
    keep_framed(file.spec_nodes_of_type("text_env"@), file.file_content@)
}

fn has_begin_frame(node: &SyntaxNode, parsed_file: &ParsedFile) -> (r: bool)
    ensures
        r == is_begin_frame(*node, parsed_file.file_content@),
{
    let begin = String::from_str("begin");
    if !(node.kind == begin) {
        return false;
    }
    if !(node.start_byte <= node.end_byte && node.end_byte <= parsed_file.file_content.len()) {
        return false;
    }
    let text = &parsed_file.file_content.as_slice()[node.start_byte..node.end_byte];
    let word = literal_bytes("{frame}");
    match find_bytes(text, word.as_slice()) {
        Some(j) => {
            assert(occurs_at(text@, j as int, frame_argument()));
            true
        },
        None => false,
    }
}

/// The frame nodes of `parsed_file`: its `text_env` nodes, in pre-order,
/// under which a search for a `begin` holding `{frame}` finds one.
pub fn get_frames(parsed_file: &ParsedFile) -> (r: Vec<&SyntaxNode>)
    ensures
        nodes_view(r@) == tree_frames(*parsed_file),
{
    let mut frames: Vec<&SyntaxNode> = Vec::new();
    let text_envs = parsed_file.get_nodes_of_type(String::from_str("text_env"));
    let ghost envs = nodes_view(text_envs@);
    let ghost content = parsed_file.file_content@;
    let pred = |n: &SyntaxNode| -> (b: bool)
        ensures
            b == is_begin_frame(*n, parsed_file.file_content@),
        { has_begin_frame(n, parsed_file) };
    let mut i: usize = 0;
    while i < text_envs.len()
        invariant
            envs == nodes_view(text_envs@),
            envs == parsed_file.spec_nodes_of_type("text_env"@),
            content == parsed_file.file_content@,
            i <= envs.len(),
            nodes_view(frames@) == keep_framed(envs.subrange(0, i as int), content),
            forall|n: &SyntaxNode| #[trigger] pred.requires((n,)),
            forall|n: &SyntaxNode, b: bool| #[trigger] pred.ensures((n,), b) ==> b == is_begin_frame(*n, content),
        decreases envs.len() - i,
    {
        let t = text_envs[i];
        assert(envs[i as int] == *t);
        let children = search(t, &pred, Ghost(begins_frame(content)), true, false);
        let ghost before = frames@;
        proof {
            let pre = envs.subrange(0, i + 1);
            assert(pre.drop_last() =~= envs.subrange(0, i as int));
            assert(pre.last() == *t);
        }
        if children.len() == 1 {
            frames.push(t);
            assert(nodes_view(frames@) =~= nodes_view(before).push(*t));
        }
        i = i + 1;
    }
    assert(envs.subrange(0, envs.len() as int) =~= envs);
    frames
}

/// The bytes that each of `nodes` spans.
pub open spec fn node_texts(nodes: Seq<SyntaxNode>, content: Seq<u8>) -> Seq<Seq<u8>> {
    nodes.map_values(|n: SyntaxNode| content.subrange(n.start_byte as int, n.end_byte as int))
}

/// What the extractor makes of `file`: its preamble and its frames. With
/// `use_tree`, the frames are the texts of the tree's frame nodes and the
/// preamble ends where the one `document_env` node starts; where the tree
/// gives no frame, or no single `document_env`, the frame pattern and the
/// search for `\begin{document}` take over.
pub open spec fn extraction_of(file: ParsedFile, use_tree: bool) -> (Seq<u8>, Seq<Seq<u8>>) {
    let content = file.file_content@;
    let nodes = if use_tree {
        tree_frames(file)
    } else {
        seq![]
    };
    let frames = if nodes.len() > 0 {
        node_texts(nodes, content)
    } else {
        frames_of(content)
    };
    let docs = file.spec_nodes_of_type("document_env"@);
    let preamble = if use_tree && docs.len() == 1 {
        content.subrange(0, docs[0].start_byte as int)
    } else {
        preamble_of(content)
    };
    (preamble, frames)
}

proof fn lemma_keep_framed_within(ts: Seq<SyntaxNode>, content: Seq<u8>)
    requires
        forall|i: int| 0 <= i < ts.len() ==> spans_within(#[trigger] ts[i], content.len() as int),
    ensures
        forall|i: int|
            0 <= i < keep_framed(ts, content).len() ==> spans_within(
                #[trigger] keep_framed(ts, content)[i],
                content.len() as int,
            ),
    decreases ts.len(),
{
    if ts.len() > 0 {
        let init = ts.drop_last();
        assert forall|i: int| 0 <= i < init.len() implies spans_within(#[trigger] init[i], content.len() as int) by {
            assert(init[i] == ts[i]);
        }
        lemma_keep_framed_within(init, content);
        let k = keep_framed(ts, content);
        let ki = keep_framed(init, content);
        assert forall|i: int| 0 <= i < k.len() implies spans_within(#[trigger] k[i], content.len() as int) by {
            if holds_frame_begin(ts.last(), content) && i == ki.len() {
                assert(k[i] == ts[ts.len() - 1]);
            } else {
                assert(k[i] == ki[i]);
            }
        }
    }
}

proof fn lemma_file_nodes_within(file: ParsedFile, kind: Seq<char>)
    requires
        file.wf(),
    ensures
        forall|i: int|
            0 <= i < file.spec_nodes_of_type(kind).len() ==> spans_within(
                #[trigger] file.spec_nodes_of_type(kind)[i],
                file.file_content@.len() as int,
            ),
{
    if let Some(t) = file.syntax_tree {
        lemma_select_within(t, of_kind(kind), false, file.file_content@.len() as int);
    }
}

/// Splits `file` into its preamble and its frames, from the syntax tree
/// where `use_tree` asks for it and it gives frames, from the frame pattern
/// otherwise.
pub fn extract(file: &ParsedFile, use_tree: bool) -> (r: (Vec<u8>, Vec<Vec<u8>>))
    requires
        file.wf(),
    ensures
        r.0@ == extraction_of(*file, use_tree).0,
        texts(r.1@) == extraction_of(*file, use_tree).1,
{
    let ghost content = file.file_content@;
    let src = file.file_content.as_slice();
    let nodes: Vec<&SyntaxNode> = if use_tree {
        get_frames(file)
    } else {
        Vec::new()
    };
    let ghost nv = nodes_view(nodes@);
    assert(nv =~= (if use_tree { tree_frames(*file) } else { seq![] }));
    let mut frames: Vec<Vec<u8>> = Vec::new();
    if nodes.len() > 0 {
        proof {
            lemma_file_nodes_within(*file, "text_env"@);
            lemma_keep_framed_within(file.spec_nodes_of_type("text_env"@), content);
        }
        let mut i: usize = 0;
        while i < nodes.len()
            invariant
                nv == nodes_view(nodes@),
                nv == tree_frames(*file),
                content == file.file_content@,
                src@ == content,
                forall|k: int| 0 <= k < nv.len() ==> spans_within(#[trigger] nv[k], content.len() as int),
                i <= nv.len(),
                texts(frames@) == node_texts(nv, content).subrange(0, i as int),
            decreases nv.len() - i,
        {
            let n = nodes[i];
            assert(nv[i as int] == *n);
            let f = copy_range(src, n.start_byte, n.end_byte);
            let ghost before = frames@;
            frames.push(f);
            assert(node_texts(nv, content)[i as int] == content.subrange(n.start_byte as int, n.end_byte as int));
            assert(texts(frames@) =~= texts(before).push(f@));
            assert(texts(frames@) =~= node_texts(nv, content).subrange(0, i + 1));
            i = i + 1;
        }
        assert(node_texts(nv, content).subrange(0, nv.len() as int) =~= node_texts(nv, content));
    } else {
        frames = find_frames(src);
        assert(texts(frames@) =~= frames_of(content));
    }
    let docs = if use_tree {
        file.get_nodes_of_type(String::from_str("document_env"))
    } else {
        Vec::new()
    };
    let preamble = if use_tree && docs.len() == 1 {
        proof {
            lemma_file_nodes_within(*file, "document_env"@);
            assert(nodes_view(docs@)[0] == *docs[0]);
        }
        copy_range(src, 0, docs[0].start_byte)
    } else {
        find_preamble(src)
    };
    (preamble, frames)
}

proof fn lemma_keep_framed_laminar(ts: Seq<SyntaxNode>, content: Seq<u8>, lo: int, hi: int)
    requires
        laminar(ts),
        ranges_within(ts, lo, hi),
    ensures
        laminar(keep_framed(ts, content)),
        ranges_within(keep_framed(ts, content), lo, hi),
        forall|i: int| 0 <= i < keep_framed(ts, content).len() ==> ts.contains(#[trigger] keep_framed(ts, content)[i]),
    decreases ts.len(),
{
    if ts.len() > 0 {
        let init = ts.drop_last();
        let last = ts.last();
        assert(laminar(init)) by {
            assert forall|i: int, j: int| 0 <= i < j < init.len() implies (#[trigger] init[i].start_byte
                <= #[trigger] init[j].start_byte && init[j].end_byte <= init[i].end_byte)
                || init[i].end_byte <= init[j].start_byte by {
                assert(init[i] == ts[i] && init[j] == ts[j]);
            }
        }
        assert(ranges_within(init, lo, hi)) by {
            assert forall|i: int| 0 <= i < init.len() implies lo <= #[trigger] init[i].start_byte
                <= init[i].end_byte <= hi by {
                assert(init[i] == ts[i]);
            }
        }
        lemma_keep_framed_laminar(init, content, lo, hi);
        let ki = keep_framed(init, content);
        let k = keep_framed(ts, content);
        assert forall|i: int| 0 <= i < ki.len() implies ts.contains(#[trigger] ki[i]) by {
            assert(init.contains(ki[i]));
            let m = choose|m: int| 0 <= m < init.len() && init[m] == ki[i];
            assert(ts[m] == ki[i]);
        }
        if holds_frame_begin(last, content) {
            assert(k == ki.push(last));
            assert(ts[ts.len() - 1] == last);
            assert forall|i: int, j: int| 0 <= i < j < k.len() implies (#[trigger] k[i].start_byte
                <= #[trigger] k[j].start_byte && k[j].end_byte <= k[i].end_byte) || k[i].end_byte
                <= k[j].start_byte by {
                assert(k[i] == ki[i]);
                if j < ki.len() {
                    assert(k[j] == ki[j]);
                } else {
                    assert(init.contains(ki[i]));
                    let m2 = choose|m2: int| 0 <= m2 < init.len() && init[m2] == ki[i];
                    assert(ts[m2] == ki[i]);
                    assert(m2 < ts.len() - 1);
                }
            }
            assert forall|i: int| 0 <= i < k.len() implies lo <= #[trigger] k[i].start_byte <= k[i].end_byte
                <= hi by {
                if i < ki.len() {
                    assert(k[i] == ki[i]);
                }
            }
            assert forall|i: int| 0 <= i < k.len() implies ts.contains(#[trigger] k[i]) by {
                if i < ki.len() {
                    assert(k[i] == ki[i]);
                } else {
                    assert(k[i] == ts[ts.len() - 1]);
                }
            }
        }
    }
}

/// The frame nodes `s` are not empty and none lies inside another.
pub open spec fn frames_apart(s: Seq<SyntaxNode>) -> bool {
    &&& forall|i: int| 0 <= i < s.len() ==> #[trigger] s[i].start_byte < s[i].end_byte
    &&& forall|i: int, j: int|
        0 <= i < s.len() && 0 <= j < s.len() && i != j ==> !(#[trigger] s[i].start_byte
            <= #[trigger] s[j].start_byte && s[j].end_byte <= s[i].end_byte)
}

/// Frame order in a tree: in a well-formed file each frame node lies
/// inside an earlier one or after its end; so frames that are not empty and
/// do not nest come in strictly increasing order of their start bytes.
pub proof fn law_tree_frames_in_source_order(file: ParsedFile)
    requires
        file.wf(),
    ensures
        laminar(tree_frames(file)),
        frames_apart(tree_frames(file)) ==> forall|i: int, j: int|
            0 <= i < j < tree_frames(file).len() ==> #[trigger] tree_frames(file)[i].start_byte
                < #[trigger] tree_frames(file)[j].start_byte,
{
    let envs = file.spec_nodes_of_type("text_env"@);
    if let Some(t) = file.syntax_tree {
        lemma_select_laminar(t, of_kind("text_env"@));
        lemma_keep_framed_laminar(envs, file.file_content@, t.start_byte as int, t.end_byte as int);
    } else {
        assert(envs.len() == 0);
        lemma_keep_framed_laminar(envs, file.file_content@, 0, 0);
    }
    let f = tree_frames(file);
    if frames_apart(f) {
        assert forall|i: int, j: int| 0 <= i < j < f.len() implies #[trigger] f[i].start_byte
            < #[trigger] f[j].start_byte by {
            assert(f[i].start_byte < f[i].end_byte);
            assert(!(f[i].start_byte <= f[j].start_byte && f[j].end_byte <= f[i].end_byte));
        }
    }
}

/// Default preamble: a source without `\begin{document}` gets the default
/// class declaration as preamble, unless a tree is used that claims a
/// single `document_env` node anyway; extraction itself never fails.
pub proof fn law_default_preamble(file: ParsedFile, use_tree: bool)
    requires
        forall|i: int| !occurs_at(file.file_content@, i, crate::frames::begin_document_tag()),
        use_tree ==> file.spec_nodes_of_type("document_env"@).len() != 1,
    ensures
        extraction_of(file, use_tree).0 == crate::frames::default_preamble(),
{
    let t = file.file_content@;
    assert(!exists|i: int| crate::bytes::is_first_occurrence(t, crate::frames::begin_document_tag(), i));
}

} // verus!
