//! The decisions of one compile run: the name of the precompiled preamble,
//! the compile source and cache paths of each frame, which frames still need
//! a build, which frame changed since the previous run, and what is
//! published as output. Running the engine, reading and writing files are
//! left to the caller, which hands the outcomes back.

use vstd::prelude::*;
use vstd::string::StringSliceAdditionalSpecFns;
use crate::bytes::{copy_bytes, bytes_eq, join_bytes, literal_bytes, path_join, push_all, texts};
use crate::fingerprint::{fingerprint, fingerprint_of};
use crate::frames::{
    begin_document_bytes, begin_document_tag, begin_frame_tag, end_document_bytes, end_document_tag,
    end_frame_tag, frame_spans_from, frame_spans_of, frames_of, lemma_next_frame_end,
    lemma_next_frame_end_at, lemma_skip_to, lemma_whole_match, next_frame_end, tag_on_line_at,
};
use crate::bytes::occurs_at;
use crate::latexcompile::LatexCompiler;

verus! {

/// Why a compile run failed.
#[derive(PartialEq, Eq, Structural, Debug, Clone, Copy)]
pub enum FasterBeamerError {
    /// The input is not a regular file.
    InputFileNotExistent,
    /// The preamble could not be precompiled, or the frame to publish has
    /// no PDF.
    CompileError,
    /// The PDF concatenator failed.
    PdfUniteError,
}

/// The bytes that compile one frame: `%&` and the preamble name on the
/// first line, then the preamble, `\begin{document}`, the frame and
/// `\end{document}`, each on lines of their own.
pub open spec fn compile_source_of(name: Seq<u8>, preamble: Seq<u8>, frame: Seq<u8>) -> Seq<u8> {
    seq!['%' as u8, '&' as u8] + name + seq!['\n' as u8] + preamble + seq!['\n' as u8]
        + begin_document_tag() + seq!['\n' as u8] + frame + seq!['\n' as u8] + end_document_tag()
        + seq!['\n' as u8]
}

/// `true` or `false`.
pub open spec fn flag_word(flag: bool) -> Seq<u8> {
    if flag {
        "true".spec_bytes()
    } else {
        "false".spec_bytes()
    }
}

/// The name of the precompiled preamble: the preamble's fingerprint, `_`,
/// and the draft flag.
pub open spec fn preamble_name_of(preamble: Seq<u8>, draft: bool) -> Seq<u8> {
    fingerprint_of(preamble) + "_".spec_bytes() + flag_word(draft)
}

/// The format file of a precompiled preamble, next to the input.
pub open spec fn format_file_of(input_dir: Seq<u8>, name: Seq<u8>) -> Seq<u8> {
    path_join(input_dir, name + ".fmt".spec_bytes(), '/' as u8)
}

/// The cache root under the user's cache directory.
pub open spec fn cache_root_of(user_cache_dir: Seq<u8>) -> Seq<u8> {
    path_join(user_cache_dir, "faster-beamer".spec_bytes(), '/' as u8)
}

/// The cache directory of one input directory: its canonical path appended
/// under the cache root as a relative path.
pub open spec fn cache_subdir_of(cache_root: Seq<u8>, input_dir: Seq<u8>) -> Seq<u8> {
    path_join(cache_root, "./".spec_bytes() + input_dir, '/' as u8)
}

/// The cached PDF of a fingerprint.
pub open spec fn pdf_path_of(cache_subdir: Seq<u8>, fp: Seq<u8>) -> Seq<u8> {
    path_join(cache_subdir, fp + ".pdf".spec_bytes(), '/' as u8)
}

/// The compile source written for a fingerprint.
pub open spec fn tex_path_of(cache_subdir: Seq<u8>, fp: Seq<u8>) -> Seq<u8> {
    path_join(cache_subdir, fp + ".tex".spec_bytes(), '/' as u8)
}

/// The cache entry of one frame.
pub struct CacheEntry {
    pub fingerprint: Vec<u8>,
    pub compile_source: Vec<u8>,
    pub pdf_path: Vec<u8>,
    pub tex_path: Vec<u8>,
}

/// `e` is the cache entry of `frame`.
pub open spec fn is_entry_of(
    e: CacheEntry,
    name: Seq<u8>,
    preamble: Seq<u8>,
    frame: Seq<u8>,
    cache_subdir: Seq<u8>,
) -> bool {
    &&& e.compile_source@ == compile_source_of(name, preamble, frame)
    &&& e.fingerprint@ == fingerprint_of(e.compile_source@)
    &&& e.pdf_path@ == pdf_path_of(cache_subdir, e.fingerprint@)
    &&& e.tex_path@ == tex_path_of(cache_subdir, e.fingerprint@)
}

/// `entries` are the cache entries of `frames`, in order.
pub open spec fn is_plan_of(
    entries: Seq<CacheEntry>,
    name: Seq<u8>,
    preamble: Seq<u8>,
    frames: Seq<Seq<u8>>,
    cache_subdir: Seq<u8>,
) -> bool {
    &&& entries.len() == frames.len()
    &&& forall|i: int|
        0 <= i < entries.len() ==> is_entry_of(#[trigger] entries[i], name, preamble, frames[i], cache_subdir)
}

/// The positions whose flag is false, in increasing order.
pub open spec fn unset_positions(flags: Seq<bool>) -> Seq<int>
    decreases flags.len(),
{
    if flags.len() == 0 {
        seq![]
    } else if flags.last() {
        unset_positions(flags.drop_last())
    } else {
        unset_positions(flags.drop_last()).push(flags.len() - 1)
    }
}

/// Positions seen as integers.
pub open spec fn positions_view(v: Seq<usize>) -> Seq<int> {
    v.map_values(|i: usize| i as int)
}

/// The name of the precompiled preamble for `preamble`.
pub fn preamble_name(preamble: &[u8], draft: bool) -> (r: Vec<u8>)
    ensures
        r@ == preamble_name_of(preamble@, draft),
{
    let mut out = fingerprint(preamble);
    let sep = literal_bytes("_");
    push_all(&mut out, sep.as_slice());
    let word = if draft {
        literal_bytes("true")
    } else {
        literal_bytes("false")
    };
    push_all(&mut out, word.as_slice());
    out
}

/// The format file of the precompiled preamble `name`, in `input_dir`.
pub fn format_file(input_dir: &[u8], name: &[u8]) -> (r: Vec<u8>)
    ensures
        r@ == format_file_of(input_dir@, name@),
{
    let mut file = copy_bytes(name);
    let ext = literal_bytes(".fmt");
    push_all(&mut file, ext.as_slice());
    join_bytes(input_dir, file.as_slice())
}

/// The cache root under the user's cache directory.
pub fn cache_root(user_cache_dir: &[u8]) -> (r: Vec<u8>)
    ensures
        r@ == cache_root_of(user_cache_dir@),
{
    let name = literal_bytes("faster-beamer");
    join_bytes(user_cache_dir, name.as_slice())
}

/// The cache directory of the input directory `input_dir` (canonical).
pub fn cache_subdir(cache_root: &[u8], input_dir: &[u8]) -> (r: Vec<u8>)
    ensures
        r@ == cache_subdir_of(cache_root@, input_dir@),
{
    let mut rel = literal_bytes("./");
    push_all(&mut rel, input_dir);
    join_bytes(cache_root, rel.as_slice())
}

/// The compile source of `frame` under the preamble `preamble` precompiled
/// as `name`.
pub fn compile_source(name: &[u8], preamble: &[u8], frame: &[u8]) -> (r: Vec<u8>)
    ensures
        r@ == compile_source_of(name@, preamble@, frame@),
{
    let mut out: Vec<u8> = Vec::new();
    out.push('%' as u8);
    out.push('&' as u8);
    push_all(&mut out, name);
    out.push('\n' as u8);
    push_all(&mut out, preamble);
    out.push('\n' as u8);
    let begin = begin_document_bytes();
    push_all(&mut out, begin.as_slice());
    out.push('\n' as u8);
    push_all(&mut out, frame);
    out.push('\n' as u8);
    let end = end_document_bytes();
    push_all(&mut out, end.as_slice());
    out.push('\n' as u8);
    assert(out@ =~= compile_source_of(name@, preamble@, frame@));
    out
}

/// The cache entry of `frame`.
pub fn cache_entry(name: &[u8], preamble: &[u8], frame: &[u8], cache_subdir: &[u8]) -> (r: CacheEntry)
    ensures
        is_entry_of(r, name@, preamble@, frame@, cache_subdir@),
{
    let source = compile_source(name, preamble, frame);
    let fp = fingerprint(source.as_slice());
    let mut pdf_name = copy_bytes(fp.as_slice());
    let pdf_ext = literal_bytes(".pdf");
    push_all(&mut pdf_name, pdf_ext.as_slice());
    let mut tex_name = copy_bytes(fp.as_slice());
    let tex_ext = literal_bytes(".tex");
    push_all(&mut tex_name, tex_ext.as_slice());
    let pdf_path = join_bytes(cache_subdir, pdf_name.as_slice());
    let tex_path = join_bytes(cache_subdir, tex_name.as_slice());
    CacheEntry { fingerprint: fp, compile_source: source, pdf_path, tex_path }
}

/// The cache entries of `frames`, in frame order.
pub fn build_plan(name: &[u8], preamble: &[u8], frames: &Vec<Vec<u8>>, cache_subdir: &[u8]) -> (r: Vec<CacheEntry>)
    ensures
        is_plan_of(r@, name@, preamble@, texts(frames@), cache_subdir@),
{
    let mut out: Vec<CacheEntry> = Vec::new();
    let mut i: usize = 0;
    while i < frames.len()
        invariant
            i <= frames@.len(),
            out@.len() == i,
            forall|k: int|
                0 <= k < i ==> is_entry_of(#[trigger] out@[k], name@, preamble@, frames@[k]@, cache_subdir@),
        decreases frames@.len() - i,
    {
        let e = cache_entry(name, preamble, frames[i].as_slice(), cache_subdir);
        out.push(e);
        i = i + 1;
    }
    out
}

/// The entries that still need a build: those whose PDF is not present.
/// `present[i]` says whether the PDF of entry `i` is a regular file.
pub fn pending_builds(present: &Vec<bool>) -> (r: Vec<usize>)
    ensures
        positions_view(r@) == unset_positions(present@),
{
    let mut out: Vec<usize> = Vec::new();
    let mut i: usize = 0;
    while i < present.len()
        invariant
            i <= present@.len(),
            positions_view(out@) == unset_positions(present@.subrange(0, i as int)),
        decreases present@.len() - i,
    {
        let ghost before = out@;
        proof {
            let pre = present@.subrange(0, i + 1);
            assert(pre.drop_last() =~= present@.subrange(0, i as int));
        }
        if !present[i] {
            out.push(i);
            assert(positions_view(out@) =~= positions_view(before).push(i as int));
        }
        i = i + 1;
    }
    assert(present@.subrange(0, present@.len() as int) =~= present@);
    out
}

/// The command that precompiles the preamble of `input_file` into the
/// format file named `name`.
pub fn preamble_command(name: &[u8], input_file: &[u8]) -> (r: Vec<Vec<u8>>)
    ensures
        texts(r@) == seq![
            "pdflatex".spec_bytes(),
            "-shell-escape".spec_bytes(),
            "-ini".spec_bytes(),
            "-jobname=\"".spec_bytes() + name@ + "\"".spec_bytes(),
            "\"&pdflatex\"".spec_bytes(),
            "mylatexformat.ltx".spec_bytes(),
            input_file@,
        ],
{
    let mut job = literal_bytes("-jobname=\"");
    push_all(&mut job, name);
    let quote = literal_bytes("\"");
    push_all(&mut job, quote.as_slice());
    let r = vec![
        literal_bytes("pdflatex"),
        literal_bytes("-shell-escape"),
        literal_bytes("-ini"),
        job,
        literal_bytes("\"&pdflatex\""),
        literal_bytes("mylatexformat.ltx"),
        copy_bytes(input_file),
    ];
    assert(texts(r@) =~= seq![
        "pdflatex".spec_bytes(),
        "-shell-escape".spec_bytes(),
        "-ini".spec_bytes(),
        "-jobname=\"".spec_bytes() + name@ + "\"".spec_bytes(),
        "\"&pdflatex\"".spec_bytes(),
        "mylatexformat.ltx".spec_bytes(),
        input_file@,
    ]);
    r
}

/// The PDFs of `entries`, in order.
pub open spec fn pdf_paths(entries: Seq<CacheEntry>) -> Seq<Seq<u8>> {
    entries.map_values(|e: CacheEntry| e.pdf_path@)
}

/// The command that concatenates the PDFs of `entries`, in order, into
/// `output`.
pub fn unite_command(entries: &Vec<CacheEntry>, output: &[u8]) -> (r: Vec<Vec<u8>>)
    ensures
        texts(r@) == seq!["pdfunite".spec_bytes()] + pdf_paths(entries@) + seq![output@],
{
    let mut out: Vec<Vec<u8>> = Vec::new();
    out.push(literal_bytes("pdfunite"));
    let mut i: usize = 0;
    while i < entries.len()
        invariant
            i <= entries@.len(),
            texts(out@) == seq!["pdfunite".spec_bytes()] + pdf_paths(entries@).subrange(0, i as int),
        decreases entries@.len() - i,
    {
        let ghost before = out@;
        out.push(copy_bytes(entries[i].pdf_path.as_slice()));
        assert(texts(out@) =~= texts(before).push(entries@[i as int].pdf_path@));
        assert(texts(out@) =~= seq!["pdfunite".spec_bytes()] + pdf_paths(entries@).subrange(0, i + 1));
        i = i + 1;
    }
    let ghost before = out@;
    out.push(copy_bytes(output));
    assert(texts(out@) =~= texts(before).push(output@));
    assert(pdf_paths(entries@).subrange(0, entries@.len() as int) =~= pdf_paths(entries@));
    out
}

/// The engine invocation that builds one frame in `working_dir`:
/// `pdflatex -shell-escape -interaction=nonstopmode`.
pub fn frame_compiler(working_dir: String) -> (r: LatexCompiler)
    ensures
        r.spec_working_dir() == working_dir@,
        r.spec_program() == "pdflatex"@,
        r.spec_args() == seq!["-shell-escape"@, "-interaction=nonstopmode"@],
{
    let c = LatexCompiler::with_program("pdflatex", working_dir).add_arg("-shell-escape").add_arg(
        "-interaction=nonstopmode",
    );
    assert(c.spec_args() =~= seq!["-shell-escape"@, "-interaction=nonstopmode"@]);
    c
}

/// `k` is the length of the longest common prefix of `a` and `b`.
pub open spec fn is_common_prefix_len(a: Seq<Seq<u8>>, b: Seq<Seq<u8>>, k: int) -> bool {
    &&& 0 <= k <= a.len()
    &&& k <= b.len()
    &&& forall|i: int| 0 <= i < k ==> a[i] == b[i]
    &&& (k < a.len() && k < b.len() ==> a[k] != b[k])
}

/// The frames of the previous successful run, kept to find the frame that
/// changed since.
pub struct DiffTracker {
    previous: Vec<Vec<u8>>,
}

impl View for DiffTracker {
    type V = Seq<Seq<u8>>;

    closed spec fn view(&self) -> Seq<Seq<u8>> {
        texts(self.previous@)
    }
}

impl DiffTracker {
    /// No previous run.
    pub fn new() -> (r: DiffTracker)
        ensures
            r@ == Seq::<Seq<u8>>::empty(),
    {
        let r = DiffTracker { previous: Vec::new() };
        assert(r@ =~= Seq::<Seq<u8>>::empty());
        r
    }

    /// The first frame that differs from the previous run: the length of
    /// the longest common prefix of `frames` and the previous frames.
    pub fn first_changed(&self, frames: &Vec<Vec<u8>>) -> (r: usize)
        ensures
            is_common_prefix_len(texts(frames@), self@, r as int),
    {
        let mut k: usize = 0;
        while k < frames.len() && k < self.previous.len()
            invariant
                k <= frames@.len(),
                k <= self.previous@.len(),
                forall|i: int| 0 <= i < k ==> texts(frames@)[i] == self@[i],
            decreases frames@.len() - k,
        {
            if !bytes_eq(frames[k].as_slice(), self.previous[k].as_slice()) {
                return k;
            }
            k = k + 1;
        }
        k
    }

    /// Remembers `frames` as those of the latest successful run.
    pub fn commit(&mut self, frames: Vec<Vec<u8>>)
        ensures
            final(self)@ == texts(frames@),
    {
        self.previous = frames;
    }
}

/// What one run needs and found, before any build.
pub struct RunPlan {
    /// The name of the precompiled preamble.
    pub preamble_name: Vec<u8>,
    /// Its format file.
    pub format_file: Vec<u8>,
    /// The command that precompiles it.
    pub preamble_command: Vec<Vec<u8>>,
    /// One cache entry per frame, in frame order.
    pub entries: Vec<CacheEntry>,
    /// The first frame that changed since the previous run.
    pub first_changed: usize,
}

/// The plan of a run on `preamble` and `frames` of the input file
/// `input_file` in `input_dir`, with artefacts cached in `cache_subdir`,
/// after a run that left `previous`.
pub open spec fn is_run_plan(
    r: RunPlan,
    preamble: Seq<u8>,
    frames: Seq<Seq<u8>>,
    draft: bool,
    input_file: Seq<u8>,
    input_dir: Seq<u8>,
    cache_subdir: Seq<u8>,
    previous: Seq<Seq<u8>>,
) -> bool {
    &&& r.preamble_name@ == preamble_name_of(preamble, draft)
    &&& r.format_file@ == format_file_of(input_dir, r.preamble_name@)
    &&& texts(r.preamble_command@) == seq![
        "pdflatex".spec_bytes(),
        "-shell-escape".spec_bytes(),
        "-ini".spec_bytes(),
        "-jobname=\"".spec_bytes() + r.preamble_name@ + "\"".spec_bytes(),
        "\"&pdflatex\"".spec_bytes(),
        "mylatexformat.ltx".spec_bytes(),
        input_file,
    ]
    &&& is_plan_of(r.entries@, r.preamble_name@, preamble, frames, cache_subdir)
    &&& is_common_prefix_len(frames, previous, r.first_changed as int)
}

/// Plans a run: names the precompiled preamble, lays out the cache entry
/// of each frame and finds the first frame that changed since `tracker`'s
/// run.
pub fn plan_run(
    preamble: &[u8],
    frames: &Vec<Vec<u8>>,
    draft: bool,
    input_file: &[u8],
    input_dir: &[u8],
    cache_subdir: &[u8],
    tracker: &DiffTracker,
) -> (r: RunPlan)
    ensures
        is_run_plan(r, preamble@, texts(frames@), draft, input_file@, input_dir@, cache_subdir@, tracker@),
{
    let name = preamble_name(preamble, draft);
    let format_file = format_file(input_dir, name.as_slice());
    let command = preamble_command(name.as_slice(), input_file);
    let entries = build_plan(name.as_slice(), preamble, frames, cache_subdir);
    let first_changed = tracker.first_changed(frames);
    RunPlan {
        preamble_name: name,
        format_file,
        preamble_command: command,
        entries,
        first_changed,
    }
}

/// A run goes on only where its input is a regular file.
pub fn check_input(is_file: bool) -> (r: Result<(), FasterBeamerError>)
    ensures
        r == if is_file {
            Ok::<(), FasterBeamerError>(())
        } else {
            Err(FasterBeamerError::InputFileNotExistent)
        },
{
    if is_file {
        Ok(())
    } else {
        Err(FasterBeamerError::InputFileNotExistent)
    }
}

/// The preamble is precompiled only where its format file is missing.
pub fn needs_precompile(format_present: bool) -> (r: bool)
    ensures
        r == !format_present,
{
    !format_present
}

/// A failed precompilation of the preamble fails the run.
pub fn precompile_result(success: bool) -> (r: Result<(), FasterBeamerError>)
    ensures
        r == if success {
            Ok::<(), FasterBeamerError>(())
        } else {
            Err(FasterBeamerError::CompileError)
        },
{
    if success {
        Ok(())
    } else {
        Err(FasterBeamerError::CompileError)
    }
}

/// The exit code of the program after its first run, or `None` where it
/// goes on: `-1` for a missing input, then in watch mode nothing, else `0`
/// on success and `1` on a failed engine or concatenator.
pub fn startup_exit_code(result: Result<(), FasterBeamerError>, watch: bool) -> (r: Option<i32>)
    ensures
        r == match result {
            Err(FasterBeamerError::InputFileNotExistent) => Some(-1i32),
            Err(_) => if watch {
                None
            } else {
                Some(1i32)
            },
            Ok(()) => if watch {
                None
            } else {
                Some(0i32)
            },
        },
{
    match result {
        Err(FasterBeamerError::InputFileNotExistent) => Some(-1),
        Err(_) => if watch {
            None
        } else {
            Some(1)
        },
        Ok(()) => if watch {
            None
        } else {
            Some(0)
        },
    }
}

/// What a run publishes.
pub enum OutputStep {
    /// Run the concatenator with this command line.
    Unite { command: Vec<Vec<u8>> },
    /// Replace `output` by a link to `target`, the PDF of the first changed
    /// frame.
    Link { target: Vec<u8>, output: Vec<u8> },
    /// Nothing changed: leave the output as it is.
    Unchanged,
}

/// Chooses what the run of `plan` publishes at `output`: with `unite`, all
/// frames concatenated in order; else a link to the first changed frame's
/// PDF, or nothing where no frame changed.
pub fn plan_output(plan: &RunPlan, unite: bool, output: &[u8]) -> (r: OutputStep)
    ensures
        match r {
            OutputStep::Unite { command } => unite && texts(command@) == seq!["pdfunite".spec_bytes()]
                + pdf_paths(plan.entries@) + seq![output@],
            OutputStep::Link { target, output: out } => {
                &&& !unite
                &&& plan.first_changed < plan.entries@.len()
                &&& target@ == plan.entries@[plan.first_changed as int].pdf_path@
                &&& out@ == output@
            },
            OutputStep::Unchanged => !unite && plan.first_changed >= plan.entries@.len(),
        },
{
    if unite {
        OutputStep::Unite { command: unite_command(&plan.entries, output) }
    } else if plan.first_changed < plan.entries.len() {
        OutputStep::Link {
            target: copy_bytes(plan.entries[plan.first_changed].pdf_path.as_slice()),
            output: copy_bytes(output),
        }
    } else {
        OutputStep::Unchanged
    }
}

impl OutputStep {
    /// The run's result once the step was carried out: `ok` says whether
    /// the concatenator succeeded, or whether the linked PDF exists.
    pub fn result(&self, ok: bool) -> (r: Result<(), FasterBeamerError>)
        ensures
            r == match self {
                OutputStep::Unite { .. } => if ok {
                    Ok::<(), FasterBeamerError>(())
                } else {
                    Err(FasterBeamerError::PdfUniteError)
                },
                OutputStep::Link { .. } => if ok {
                    Ok::<(), FasterBeamerError>(())
                } else {
                    Err(FasterBeamerError::CompileError)
                },
                OutputStep::Unchanged => Ok::<(), FasterBeamerError>(()),
            },
    {
        match self {
            OutputStep::Unite { .. } => if ok {
                Ok(())
            } else {
                Err(FasterBeamerError::PdfUniteError)
            },
            OutputStep::Link { .. } => if ok {
                Ok(())
            } else {
                Err(FasterBeamerError::CompileError)
            },
            OutputStep::Unchanged => Ok(()),
        }
    }
}

/// Whether each path is among `files`.
pub open spec fn present_in(paths: Seq<Seq<u8>>, files: Set<Seq<u8>>) -> Seq<bool> {
    paths.map_values(|p: Seq<u8>| files.contains(p))
}

/// How many times a run of `plan` starts the engine where `files` are the
/// regular files present: once for the preamble if its format file is
/// missing, and once for each frame whose PDF is missing.
pub open spec fn typesetter_runs(plan: RunPlan, files: Set<Seq<u8>>) -> int {
    (if files.contains(plan.format_file@) {
        0int
    } else {
        1int
    }) + unset_positions(present_in(pdf_paths(plan.entries@), files)).len()
}

proof fn lemma_no_unset(flags: Seq<bool>)
    requires
        forall|i: int| 0 <= i < flags.len() ==> flags[i],
    ensures
        unset_positions(flags) == Seq::<int>::empty(),
    decreases flags.len(),
{
    if flags.len() > 0 {
        lemma_no_unset(flags.drop_last());
    }
}

proof fn lemma_one_unset(flags: Seq<bool>, k: int)
    requires
        0 <= k < flags.len(),
        !flags[k],
        forall|i: int| 0 <= i < flags.len() && i != k ==> flags[i],
    ensures
        unset_positions(flags) == seq![k],
    decreases flags.len(),
{
    if k == flags.len() - 1 {
        lemma_no_unset(flags.drop_last());
        assert(Seq::<int>::empty().push(k) =~= seq![k]);
    } else {
        lemma_one_unset(flags.drop_last(), k);
    }
}

/// Cache idempotence: once a run has left the format file and the PDF of
/// every frame, a second run on the same preamble and frames starts the
/// engine no more, whatever run came before each.
pub proof fn law_cache_idempotence(
    first: RunPlan,
    second: RunPlan,
    preamble: Seq<u8>,
    frames: Seq<Seq<u8>>,
    draft: bool,
    input_file: Seq<u8>,
    input_dir: Seq<u8>,
    cache_subdir: Seq<u8>,
    previous_first: Seq<Seq<u8>>,
    previous_second: Seq<Seq<u8>>,
    files: Set<Seq<u8>>,
)
    requires
        is_run_plan(first, preamble, frames, draft, input_file, input_dir, cache_subdir, previous_first),
        is_run_plan(second, preamble, frames, draft, input_file, input_dir, cache_subdir, previous_second),
        files.contains(first.format_file@),
        forall|i: int| 0 <= i < first.entries@.len() ==> files.contains(#[trigger] first.entries@[i].pdf_path@),
    ensures
        typesetter_runs(second, files) == 0,
{
    let flags = present_in(pdf_paths(second.entries@), files);
    assert forall|i: int| 0 <= i < flags.len() implies flags[i] by {
        assert(is_entry_of(first.entries@[i], first.preamble_name@, preamble, frames[i], cache_subdir));
        assert(is_entry_of(second.entries@[i], second.preamble_name@, preamble, frames[i], cache_subdir));
    }
    lemma_no_unset(flags);
}

/// Selective recompile: where the frames of two runs on the same preamble
/// differ only at position `k`, the first run left the format file and all
/// its PDFs, and the new frame `k` was not cached before, the second run
/// builds frame `k` and nothing else.
pub proof fn law_selective_recompile(
    first: RunPlan,
    second: RunPlan,
    preamble: Seq<u8>,
    frames_first: Seq<Seq<u8>>,
    frames_second: Seq<Seq<u8>>,
    k: int,
    draft: bool,
    input_file: Seq<u8>,
    input_dir: Seq<u8>,
    cache_subdir: Seq<u8>,
    previous_first: Seq<Seq<u8>>,
    previous_second: Seq<Seq<u8>>,
    files: Set<Seq<u8>>,
)
    requires
        is_run_plan(first, preamble, frames_first, draft, input_file, input_dir, cache_subdir, previous_first),
        is_run_plan(second, preamble, frames_second, draft, input_file, input_dir, cache_subdir, previous_second),
        frames_first.len() == frames_second.len(),
        0 <= k < frames_second.len(),
        forall|i: int| 0 <= i < frames_first.len() && i != k ==> frames_first[i] == frames_second[i],
        files.contains(first.format_file@),
        forall|i: int| 0 <= i < first.entries@.len() ==> files.contains(#[trigger] first.entries@[i].pdf_path@),
        !files.contains(second.entries@[k].pdf_path@),
    ensures
        files.contains(second.format_file@),
        unset_positions(present_in(pdf_paths(second.entries@), files)) == seq![k],
        typesetter_runs(second, files) == 1,
{
    let flags = present_in(pdf_paths(second.entries@), files);
    assert forall|i: int| 0 <= i < flags.len() && i != k implies flags[i] by {
        assert(is_entry_of(first.entries@[i], first.preamble_name@, preamble, frames_first[i], cache_subdir));
        assert(is_entry_of(second.entries@[i], second.preamble_name@, preamble, frames_second[i], cache_subdir));
    }
    lemma_one_unset(flags, k);
}

/// The name line and preamble that open a compile source.
pub open spec fn compile_header(name: Seq<u8>, preamble: Seq<u8>) -> Seq<u8> {
    seq!['%' as u8, '&' as u8] + name + seq!['\n' as u8] + preamble
}

/// Compile-source round trip: where `frame` is one whole frame match and no
/// line of the name line and preamble opens with `\begin{frame}`, the
/// frames found in the compile source of `frame` are `frame` alone.
#[verifier::rlimit(40)]
pub proof fn law_compile_source_round_trip(name: Seq<u8>, preamble: Seq<u8>, frame: Seq<u8>)
    requires
        frame_spans_of(frame) == seq![(0int, frame.len() as int)],
        forall|p: int| !tag_on_line_at(compile_header(name, preamble), p, begin_frame_tag()),
    ensures
        frames_of(compile_source_of(name, preamble, frame)) == seq![frame],
{
    let bf = begin_frame_tag();
    let ef = end_frame_tag();
    let bd = begin_document_tag();
    let ed = end_document_tag();
    let nl = '\n' as u8;
    let h = compile_header(name, preamble);
    let a = h + seq![nl] + bd + seq![nl];
    let b = seq![nl] + ed + seq![nl];
    let c = compile_source_of(name, preamble, frame);
    assert(c =~= a + frame + b);
    let hl = h.len() as int;
    let l = a.len() as int;
    let f = frame.len() as int;
    let m = l + f;
    assert(l == hl + 18);
    assert(c.len() == m + 16);
    lemma_whole_match(frame);
    lemma_next_frame_end(frame, 13);
    assert(f >= 24);
    assert(c.subrange(l, m) =~= frame);
    assert forall|i: int| 0 <= i < f implies #[trigger] c[l + i] == frame[i] by {
        assert(c[l + i] == (a + frame)[l + i]);
    }
    assert forall|i: int| 0 <= i < 16 implies #[trigger] c[m + i] == b[i] by {}
    assert forall|i: int| 0 <= i < 18 implies #[trigger] c[hl + i] == (seq![nl] + bd + seq![nl])[i] by {
        assert(c[hl + i] == (a + frame)[hl + i]);
        assert(a[hl + i] == (seq![nl] + bd + seq![nl])[i]);
    }
    assert forall|i: int| 0 <= i < hl implies #[trigger] c[i] == h[i] by {
        assert(c[i] == (a + frame)[i]);
        assert(a[i] == h[i]);
    }
    // no frame opens before the frame itself
    assert forall|k: int| 0 <= k < l implies !tag_on_line_at(c, k, bf) by {
        if k + 13 <= hl {
            assert(c.subrange(k, k + 13) =~= h.subrange(k, k + 13));
            if k > 0 {
                assert(c[k - 1] == h[k - 1]);
            }
            assert(!tag_on_line_at(h, k, bf));
        } else if k <= hl {
            if occurs_at(c, k, bf) {
                assert(c.subrange(k, k + 13)[hl - k] == c[hl]);
                assert(c[hl] == nl);
            }
        } else if k == hl + 1 {
            if occurs_at(c, k, bf) {
                assert(c.subrange(k, k + 13)[7] == c[hl + 8]);
                assert(c[hl + 8] == bd[7]);
            }
        } else {
            assert(c[k - 1] == (seq![nl] + bd + seq![nl])[k - 1 - hl]);
            assert(c[k - 1] == bd[k - 2 - hl]);
        }
    }
    lemma_skip_to(c, 0, l);
    // the frame opens at `l`
    assert(c[l - 1] == nl);
    assert(c.subrange(l, l + 13) =~= frame.subrange(0, 13));
    assert(tag_on_line_at(c, l, bf));
    // and ends where it ends
    let e = f - 11;
    assert(c.subrange(l + e, l + e + 11) =~= frame.subrange(e, e + 11));
    assert(c[l + e - 1] == frame[e - 1]);
    assert(tag_on_line_at(c, l + e, ef));
    assert forall|k: int| l + 13 <= k < l + e implies !tag_on_line_at(c, k, ef) by {
        let j = k - l;
        assert(!tag_on_line_at(frame, j, ef));
        assert(c[k - 1] == frame[j - 1]);
        if occurs_at(c, k, ef) {
            assert(c.subrange(k, k + 11) =~= frame.subrange(j, j + 11));
        }
    }
    lemma_next_frame_end_at(c, l + 13, l + e);
    assert(next_frame_end(c, l + bf.len()) == Some(l + e));
    assert(frame_spans_from(c, l) == seq![(l, m)] + frame_spans_from(c, m));
    // nothing opens after it
    assert(frame[f - 1] == frame.subrange(e, f)[10]);
    assert forall|k: int| m <= k < m + 16 implies !tag_on_line_at(c, k, bf) by {
        if k == m {
            assert(c[m - 1] == frame[f - 1]);
        } else if k == m + 1 {
            if occurs_at(c, k, bf) {
                assert(c.subrange(k, k + 13)[1] == c[m + 2]);
                assert(c[m + 2] == ed[1]);
            }
        } else if k < m + 16 {
            assert(c[k - 1] == b[k - 1 - m]);
            assert(b[k - 1 - m] == ed[k - 2 - m]);
        }
    }
    lemma_skip_to(c, m, m + 16);
    assert(frame_spans_from(c, m + 16) == Seq::<(int, int)>::empty());
    assert(frame_spans_of(c) =~= seq![(l, m)]);
    assert(frames_of(c) =~= seq![frame]);
}

} // verus!
