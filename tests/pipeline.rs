use faster_beamer::fingerprint::{fingerprint, to_hex};
use faster_beamer::pipeline::{
    cache_entry, cache_root, cache_subdir, check_input, compile_source, format_file, needs_precompile,
    pending_builds, plan_output, plan_run, precompile_result, preamble_command, preamble_name, startup_exit_code, unite_command,
    DiffTracker, FasterBeamerError, OutputStep,
};

fn frames(list: &[&str]) -> Vec<Vec<u8>> {
    list.iter().map(|f| f.as_bytes().to_vec()).collect()
}

#[test]
fn fingerprint_is_md5_in_lower_case_hex() {
    assert_eq!(fingerprint(b""), b"d41d8cd98f00b204e9800998ecf8427e".to_vec());
    assert_eq!(fingerprint(b"abc"), b"900150983cd24fb0d6963f7d28e17f72".to_vec());
    assert_eq!(
        fingerprint(b"The quick brown fox jumps over the lazy dog"),
        b"9e107d9d372bb6826bd81d3542a419d6".to_vec()
    );
}

#[test]
fn hex_has_two_digits_per_byte() {
    assert_eq!(to_hex(&[0x00, 0x0f, 0xa0, 0xff]), b"000fa0ff".to_vec());
    assert_eq!(to_hex(&[]), Vec::<u8>::new());
}

#[test]
fn compile_source_layout_is_exact() {
    let src = compile_source(b"abc_false", b"\\documentclass{beamer}\n", b"\\begin{frame}A\\end{frame}");
    assert_eq!(
        src,
        b"%&abc_false\n\\documentclass{beamer}\n\n\\begin{document}\n\\begin{frame}A\\end{frame}\n\\end{document}\n".to_vec()
    );
}

#[test]
fn preamble_name_is_fingerprint_and_draft_flag() {
    let pre = b"\\documentclass{beamer}\n";
    let mut expected = fingerprint(pre);
    expected.extend_from_slice(b"_false");
    assert_eq!(preamble_name(pre, false), expected);
    let mut drafted = fingerprint(pre);
    drafted.extend_from_slice(b"_true");
    assert_eq!(preamble_name(pre, true), drafted);
}

#[test]
fn cache_layout_paths() {
    assert_eq!(cache_root(b"/home/u/.cache"), b"/home/u/.cache/faster-beamer".to_vec());
    assert_eq!(cache_root(b"/home/u/.cache/"), b"/home/u/.cache/faster-beamer".to_vec());
    assert_eq!(cache_subdir(b"/c/faster-beamer", b"/home/u/talk"), b"/c/faster-beamer/.//home/u/talk".to_vec());
    assert_eq!(format_file(b"/home/u/talk", b"abc_false"), b"/home/u/talk/abc_false.fmt".to_vec());
    let e = cache_entry(b"n", b"p", b"f", b"/c");
    let fp = fingerprint(&compile_source(b"n", b"p", b"f"));
    assert_eq!(e.fingerprint, fp);
    let mut pdf = b"/c/".to_vec();
    pdf.extend_from_slice(&fp);
    let mut tex = pdf.clone();
    pdf.extend_from_slice(b".pdf");
    tex.extend_from_slice(b".tex");
    assert_eq!(e.pdf_path, pdf);
    assert_eq!(e.tex_path, tex);
}

#[test]
fn preamble_command_line() {
    let argv = preamble_command(b"abc_false", b"a.tex");
    assert_eq!(
        argv,
        frames(&["pdflatex", "-shell-escape", "-ini", "-jobname=\"abc_false\"", "\"&pdflatex\"", "mylatexformat.ltx", "a.tex"])
    );
}

#[test]
fn first_run_publishes_the_first_frame() {
    let tracker = DiffTracker::new();
    let fs = frames(&["\\begin{frame}A\\end{frame}", "\\begin{frame}B\\end{frame}"]);
    let plan = plan_run(b"\\documentclass{beamer}\n", &fs, false, b"a.tex", b"/d", b"/c", &tracker);
    assert_eq!(plan.first_changed, 0);
    assert_eq!(plan.entries.len(), 2);
    assert_ne!(plan.entries[0].fingerprint, plan.entries[1].fingerprint);
    match plan_output(&plan, false, b"output.pdf") {
        OutputStep::Link { target, output } => {
            assert_eq!(target, plan.entries[0].pdf_path);
            assert_eq!(output, b"output.pdf".to_vec());
        }
        _ => panic!("expected a link"),
    }
}

#[test]
fn editing_the_second_frame_publishes_it() {
    let pre = b"\\documentclass{beamer}\n";
    let mut tracker = DiffTracker::new();
    let old = frames(&["\\begin{frame}A\\end{frame}", "\\begin{frame}B\\end{frame}"]);
    let first = plan_run(pre, &old, false, b"a.tex", b"/d", b"/c", &tracker);
    tracker.commit(old);
    let new = frames(&["\\begin{frame}A\\end{frame}", "\\begin{frame}B2\\end{frame}"]);
    let second = plan_run(pre, &new, false, b"a.tex", b"/d", b"/c", &tracker);
    assert_eq!(second.first_changed, 1);
    assert_eq!(second.entries[0].pdf_path, first.entries[0].pdf_path);
    assert_ne!(second.entries[1].pdf_path, first.entries[1].pdf_path);
    assert_eq!(second.preamble_name, first.preamble_name);
    match plan_output(&second, false, b"out.pdf") {
        OutputStep::Link { target, .. } => assert_eq!(target, second.entries[1].pdf_path),
        _ => panic!("expected a link"),
    }
    // only the new entry is missing from the cache
    let present = vec![true, false];
    assert_eq!(pending_builds(&present), vec![1]);
}

#[test]
fn unite_concatenates_all_frames_in_order() {
    let tracker = DiffTracker::new();
    let fs = frames(&["\\begin{frame}A\\end{frame}", "\\begin{frame}B\\end{frame}"]);
    let plan = plan_run(b"p", &fs, false, b"a.tex", b"/d", b"/c", &tracker);
    let expected = vec![
        b"pdfunite".to_vec(),
        plan.entries[0].pdf_path.clone(),
        plan.entries[1].pdf_path.clone(),
        b"slides.pdf".to_vec(),
    ];
    assert_eq!(unite_command(&plan.entries, b"slides.pdf"), expected);
    match plan_output(&plan, true, b"slides.pdf") {
        OutputStep::Unite { command } => assert_eq!(command, expected),
        _ => panic!("expected unite"),
    }
    assert_eq!(OutputStep::Unite { command: vec![] }.result(false), Err(FasterBeamerError::PdfUniteError));
    assert_eq!(OutputStep::Unite { command: vec![] }.result(true), Ok(()));
}

#[test]
fn missing_input_fails_the_run() {
    assert_eq!(check_input(false), Err(FasterBeamerError::InputFileNotExistent));
    assert_eq!(check_input(true), Ok(()));
}

#[test]
fn present_format_file_skips_precompile() {
    assert!(!needs_precompile(true));
    assert!(needs_precompile(false));
    assert_eq!(precompile_result(false), Err(FasterBeamerError::CompileError));
    assert_eq!(precompile_result(true), Ok(()));
    // the same preamble names the same format file whatever the frames
    let a = plan_run(b"p", &frames(&["x"]), false, b"a.tex", b"/d", b"/c", &DiffTracker::new());
    let b = plan_run(b"p", &frames(&["y", "z"]), false, b"a.tex", b"/d", b"/c", &DiffTracker::new());
    assert_eq!(a.format_file, b.format_file);
}

#[test]
fn unchanged_frames_leave_the_output() {
    let mut tracker = DiffTracker::new();
    let fs = frames(&["a", "b"]);
    tracker.commit(fs.clone());
    let plan = plan_run(b"p", &fs, false, b"a.tex", b"/d", b"/c", &tracker);
    assert_eq!(plan.first_changed, 2);
    let step = plan_output(&plan, false, b"o.pdf");
    assert!(matches!(step, OutputStep::Unchanged));
    assert_eq!(step.result(false), Ok(()));
}

#[test]
fn missing_pdf_of_published_frame_is_a_compile_error() {
    let step = OutputStep::Link { target: b"t.pdf".to_vec(), output: b"o.pdf".to_vec() };
    assert_eq!(step.result(false), Err(FasterBeamerError::CompileError));
    assert_eq!(step.result(true), Ok(()));
}

#[test]
fn first_changed_is_the_common_prefix_length() {
    let mut tracker = DiffTracker::new();
    assert_eq!(tracker.first_changed(&frames(&["a", "b"])), 0);
    tracker.commit(frames(&["a", "b", "c"]));
    assert_eq!(tracker.first_changed(&frames(&["a", "b", "c"])), 3);
    assert_eq!(tracker.first_changed(&frames(&["a", "x", "c"])), 1);
    assert_eq!(tracker.first_changed(&frames(&["a", "b"])), 2);
    assert_eq!(tracker.first_changed(&frames(&["a", "b", "c", "d"])), 3);
    assert_eq!(tracker.first_changed(&frames(&[])), 0);
}

#[test]
fn pending_builds_are_the_missing_pdfs() {
    assert_eq!(pending_builds(&vec![true, true, true]), Vec::<usize>::new());
    assert_eq!(pending_builds(&vec![false, true, false]), vec![0, 2]);
    assert_eq!(pending_builds(&vec![]), Vec::<usize>::new());
}

#[test]
fn second_run_on_unchanged_source_builds_nothing() {
    let fs = frames(&["a", "b"]);
    let first = plan_run(b"p", &fs, false, b"a.tex", b"/d", b"/c", &DiffTracker::new());
    let built: Vec<Vec<u8>> = first.entries.iter().map(|e| e.pdf_path.clone()).collect();
    let second = plan_run(b"p", &fs, false, b"a.tex", b"/d", b"/c", &DiffTracker::new());
    let present: Vec<bool> = second.entries.iter().map(|e| built.contains(&e.pdf_path)).collect();
    assert!(pending_builds(&present).is_empty());
}

#[test]
fn duplicate_frames_share_a_cache_entry() {
    let fs = frames(&["a", "a"]);
    let plan = plan_run(b"p", &fs, false, b"a.tex", b"/d", b"/c", &DiffTracker::new());
    assert_eq!(plan.entries[0].pdf_path, plan.entries[1].pdf_path);
}

#[test]
fn exit_codes_after_the_first_run() {
    assert_eq!(startup_exit_code(Err(FasterBeamerError::InputFileNotExistent), false), Some(-1));
    assert_eq!(startup_exit_code(Err(FasterBeamerError::InputFileNotExistent), true), Some(-1));
    assert_eq!(startup_exit_code(Err(FasterBeamerError::CompileError), false), Some(1));
    assert_eq!(startup_exit_code(Err(FasterBeamerError::PdfUniteError), true), None);
    assert_eq!(startup_exit_code(Ok(()), false), Some(0));
    assert_eq!(startup_exit_code(Ok(()), true), None);
}
