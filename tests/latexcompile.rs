use faster_beamer::latexcompile::{join_path, LatexCompiler, LatexError, LatexInput, LatexRunOptions, ProcessOutcome};
use faster_beamer::pipeline::frame_compiler;

#[test]
fn compiler_command_line() {
    let c = LatexCompiler::new("/w".to_string()).add_arg("-shell-escape");
    let cmd = c.get_cmd("main.tex");
    assert_eq!(cmd.program, "pdflatex");
    assert_eq!(cmd.args, vec!["-interaction=nonstopmode", "-shell-escape", "main.tex"]);
    assert_eq!(cmd.current_dir, "/w");
}

#[test]
fn frame_compiler_arguments() {
    let cmd = frame_compiler("/c".to_string()).get_cmd("/c/x.tex");
    assert_eq!(cmd.program, "pdflatex");
    assert_eq!(cmd.args, vec!["-shell-escape", "-interaction=nonstopmode", "/c/x.tex"]);
    assert_eq!(cmd.current_dir, "/c");
}

#[test]
fn run_reports_the_pdf_next_to_the_working_dir() {
    let c = LatexCompiler::new("/w".to_string());
    let ok = ProcessOutcome::Exited { success: true, stderr: String::new() };
    match c.run("/c/abc.tex", &LatexInput::new(), LatexRunOptions::new(), ok, None) {
        Ok(p) => assert_eq!(p, "/w/abc.pdf"),
        Err(_) => panic!("expected success"),
    }
}

#[test]
fn run_reports_engine_failure_with_its_stderr() {
    let c = LatexCompiler::new("/w".to_string());
    let failed = ProcessOutcome::Exited { success: false, stderr: "! Undefined control sequence.".to_string() };
    match c.run("a.tex", &LatexInput::new(), LatexRunOptions::new(), failed, None) {
        Err(LatexError::LatexError(m)) => assert_eq!(m, "! Undefined control sequence."),
        _ => panic!("expected an engine error"),
    }
    let spawn = ProcessOutcome::SpawnFailed("not found".to_string());
    match c.run("a.tex", &LatexInput::new(), LatexRunOptions::new(), spawn, None) {
        Err(LatexError::Io(m)) => assert_eq!(m, "not found"),
        _ => panic!("expected an I/O error"),
    }
}

#[test]
fn run_options_default_to_one_pass() {
    assert!(!LatexRunOptions::new().double_compilation());
}

#[test]
fn latex_input_keeps_added_files() {
    let mut input = LatexInput::new();
    assert_eq!(input.len(), 0);
    input.add_file("a.sty".to_string(), b"x".to_vec());
    assert_eq!(input.len(), 1);
}

#[test]
fn join_inserts_one_separator() {
    assert_eq!(join_path("/a", "b"), "/a/b");
    assert_eq!(join_path("/a/", "b"), "/a/b");
    assert_eq!(join_path("", "b"), "b");
    assert_eq!(join_path("/c", "./x/y"), "/c/./x/y");
}

#[test]
fn lazy_mirror_keeps_the_source_path_under_the_destination() {
    assert_eq!(LatexInput::lazy_destination("/cache", "/home/u/talk/img.png"), "/cache/.//home/u/talk/img.png");
    assert_eq!(LatexInput::lazy_destination("/cache/", "img.png"), "/cache/./img.png");
}

#[test]
fn run_sets_the_extension_of_the_stem() {
    let c = LatexCompiler::new("/w".to_string());
    let ok = ProcessOutcome::Exited { success: true, stderr: String::new() };
    match c.run("/c/a.b.tex", &LatexInput::new(), LatexRunOptions::new(), ok, None) {
        Ok(p) => assert_eq!(p, "/w/a.pdf"),
        Err(_) => panic!("expected success"),
    }
}
