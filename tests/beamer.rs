use faster_beamer::beamer::{extract, get_frames};
use faster_beamer::frames::{find_frames, find_preamble, frame_spans};
use faster_beamer::parsing::ParsedFile;
use faster_beamer::syntax::SyntaxNode;

#[test]
fn it_works() {}

fn node(kind: &str, start: usize, end: usize, children: Vec<SyntaxNode>) -> SyntaxNode {
    SyntaxNode { kind: kind.to_string(), start_byte: start, end_byte: end, children }
}

fn span_of(src: &str, part: &str) -> (usize, usize) {
    let s = src.find(part).unwrap();
    (s, s + part.len())
}

const TWO_FRAME_DECK: &str = "\\documentclass{beamer}\n\\begin{document}\n\\begin{frame}A\\end{frame}\n\\begin{frame}B\\end{frame}\n\\end{document}";

/// The tree a LaTeX grammar gives for a deck: a document environment
/// holding one text environment per frame, each opened by a `begin` node.
fn deck_tree(src: &str, frames: &[&str]) -> SyntaxNode {
    let mut envs = Vec::new();
    let mut from = 0;
    for f in frames {
        let s = from + src[from..].find(f).unwrap();
        let e = s + f.len();
        let begin = node("begin", s, s + "\\begin{frame}".len(), vec![]);
        envs.push(node("text_env", s, e, vec![begin]));
        from = e;
    }
    let (ds, de) = span_of(src, &src[src.find("\\begin{document}").unwrap()..]);
    let doc_begin = node("begin", ds, ds + "\\begin{document}".len(), vec![]);
    let mut doc_children = vec![doc_begin];
    doc_children.extend(envs);
    let doc = node("document_env", ds, de, doc_children);
    node("program", 0, src.len(), vec![doc])
}

#[test]
fn tree_mode_finds_both_frames_of_a_two_frame_deck() {
    let tree = deck_tree(TWO_FRAME_DECK, &["\\begin{frame}A\\end{frame}", "\\begin{frame}B\\end{frame}"]);
    let file = ParsedFile::from_string("a.tex".to_string(), TWO_FRAME_DECK.as_bytes().to_vec(), Some(tree));
    assert!(file.syntax_tree.is_some());
    let nodes = get_frames(&file);
    assert_eq!(nodes.len(), 2);
    let (preamble, frames) = extract(&file, true);
    assert_eq!(preamble, b"\\documentclass{beamer}\n".to_vec());
    assert_eq!(frames, vec![b"\\begin{frame}A\\end{frame}".to_vec(), b"\\begin{frame}B\\end{frame}".to_vec()]);
}

#[test]
fn pattern_mode_needs_the_frame_end_at_a_line_start() {
    let file = ParsedFile::from_string("a.tex".to_string(), TWO_FRAME_DECK.as_bytes().to_vec(), None);
    let (preamble, frames) = extract(&file, false);
    assert_eq!(preamble, b"\\documentclass{beamer}\n".to_vec());
    assert!(frames.is_empty());
}

#[test]
fn pattern_mode_takes_multi_line_frames_in_order() {
    let src = b"\\documentclass{beamer}\n\\begin{document}\n\\begin{frame}\nA\n\\end{frame}\n%\n\\begin{frame}\nB\n\\end{frame}\n\\end{document}\n";
    let frames = find_frames(src);
    assert_eq!(frames, vec![b"\\begin{frame}\nA\n\\end{frame}".to_vec(), b"\\begin{frame}\nB\n\\end{frame}".to_vec()]);
    let spans = frame_spans(src);
    assert_eq!(spans.len(), 2);
    assert!(spans[0].0 < spans[0].1 && spans[0].1 <= spans[1].0 && spans[1].0 < spans[1].1);
}

#[test]
fn pattern_match_is_the_shortest_one() {
    let src = b"\\begin{frame}\nA\n\\end{frame}\nB\n\\end{frame}\n";
    assert_eq!(find_frames(src), vec![b"\\begin{frame}\nA\n\\end{frame}".to_vec()]);
}

#[test]
fn pattern_match_needs_line_starts() {
    let src = b"x\\begin{frame}\nA\n\\end{frame}\n \\begin{frame}\n\\end{frame}";
    assert!(find_frames(src).is_empty());
}

#[test]
fn unclosed_frame_gives_no_match() {
    let src = b"\\begin{frame}\nA\n\\begin{frame}\nB\n";
    assert!(find_frames(src).is_empty());
}

#[test]
fn empty_source_has_no_frames_and_the_default_preamble() {
    let file = ParsedFile::from_string("a.tex".to_string(), Vec::new(), None);
    let (preamble, frames) = extract(&file, true);
    assert!(frames.is_empty());
    assert_eq!(preamble, b"\\documentclass[aspectratio=43,c,xcolor=dvipsnames]{beamer}".to_vec());
}

#[test]
fn source_without_document_uses_the_default_preamble() {
    let src = b"\\begin{frame}\nA\n\\end{frame}\n";
    assert_eq!(find_preamble(src), b"\\documentclass[aspectratio=43,c,xcolor=dvipsnames]{beamer}".to_vec());
    let file = ParsedFile::from_string("a.tex".to_string(), src.to_vec(), None);
    let (preamble, frames) = extract(&file, false);
    assert_eq!(preamble, b"\\documentclass[aspectratio=43,c,xcolor=dvipsnames]{beamer}".to_vec());
    assert_eq!(frames, vec![b"\\begin{frame}\nA\n\\end{frame}".to_vec()]);
}

#[test]
fn preamble_ends_at_the_first_begin_document() {
    let src = b"pre\n\\begin{document}\nx\\begin{document}";
    assert_eq!(find_preamble(src), b"pre\n".to_vec());
}

#[test]
fn duplicate_frames_are_kept() {
    let src = b"\\begin{frame}\nA\n\\end{frame}\n\\begin{frame}\nA\n\\end{frame}\n";
    assert_eq!(find_frames(src).len(), 2);
}

#[test]
fn tree_without_frames_falls_back_to_the_pattern() {
    let src = "\\begin{document}\n\\begin{frame}\nA\n\\end{frame}\n\\end{document}";
    let tree = node("program", 0, src.len(), vec![]);
    let file = ParsedFile::from_string("a.tex".to_string(), src.as_bytes().to_vec(), Some(tree));
    let (preamble, frames) = extract(&file, true);
    assert_eq!(preamble, Vec::<u8>::new());
    assert_eq!(frames, vec![b"\\begin{frame}\nA\n\\end{frame}".to_vec()]);
}

#[test]
fn tree_with_a_node_outside_the_source_is_dropped() {
    let src = "abc";
    let tree = node("program", 0, 10, vec![]);
    let file = ParsedFile::from_string("a.tex".to_string(), src.as_bytes().to_vec(), Some(tree));
    assert!(file.syntax_tree.is_none());
}

#[test]
fn test_get_scope_nodes() {
    let source_code = r#" 
#include <iostream>

int main() 
{
std::cout << "Hello, World!";
return 0;
}
    "#;
    let parsed = ParsedFile::from_string("main.c".to_string(), source_code.as_bytes().to_vec(), None);
    assert_eq!(parsed.filename, "main.c");
    assert_eq!(parsed.file_content, source_code.as_bytes().to_vec());
    assert!(parsed.get_nodes_of_type("text_env".to_string()).is_empty());
}

#[test]
fn compile_source_gives_back_its_single_frame() {
    let deck = b"\\documentclass{beamer}\n\\begin{document}\n\\begin{frame}\nOnly\n\\end{frame}\n\\end{document}\n";
    let file = ParsedFile::from_string("a.tex".to_string(), deck.to_vec(), None);
    let (preamble, frames) = extract(&file, false);
    assert_eq!(frames.len(), 1);
    let name = faster_beamer::pipeline::preamble_name(&preamble, false);
    let source = faster_beamer::pipeline::compile_source(&name, &preamble, &frames[0]);
    assert_eq!(find_frames(&source), frames);
    let mut header = b"%&".to_vec();
    header.extend_from_slice(&name);
    header.push(b'\n');
    header.extend_from_slice(&preamble);
    header.push(b'\n');
    assert_eq!(find_preamble(&source), header);
}

#[test]
fn tree_with_overlapping_siblings_is_dropped() {
    let src = "abcdef";
    let tree = node("program", 0, 6, vec![node("a", 0, 4, vec![]), node("b", 2, 6, vec![])]);
    let file = ParsedFile::from_string("a.tex".to_string(), src.as_bytes().to_vec(), Some(tree));
    assert!(file.syntax_tree.is_none());
    let inside = node("program", 0, 6, vec![node("a", 0, 2, vec![]), node("b", 2, 6, vec![])]);
    let kept = ParsedFile::from_string("a.tex".to_string(), src.as_bytes().to_vec(), Some(inside));
    assert!(kept.syntax_tree.is_some());
}
