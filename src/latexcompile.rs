//! A thin model of a LaTeX engine invocation: the command line that runs
//! the engine, the files handed to it, and what a finished run means.

use vstd::prelude::*;
use vstd::string::StringExecFns;
use crate::bytes::path_join;

verus! {

/// How a LaTeX run is carried out.
pub struct LatexRunOptions {
    double_compilation: bool,
    capture_stdout: bool,
}

impl LatexRunOptions {
    /// Whether a second pass follows a successful first one.
    pub closed spec fn spec_double_compilation(&self) -> bool {
        self.double_compilation
    }

    /// Whether the engine's output is captured.
    pub closed spec fn spec_capture_stdout(&self) -> bool {
        self.capture_stdout
    }

    /// One pass, with the engine's output captured.
    pub fn new() -> (r: Self)
        ensures
            !r.spec_double_compilation(),
            r.spec_capture_stdout(),
    {
        Self { double_compilation: false, capture_stdout: true }
    }

    /// Whether a second pass follows a successful first one.
    pub fn double_compilation(&self) -> (r: bool)
        ensures
            r == self.spec_double_compilation(),
    {
        self.double_compilation
    }
}

/// Why a LaTeX run failed.
#[derive(Debug)]
pub enum LatexError {
    /// The engine ran and reported failure; its standard error.
    LatexError(String),
    /// An input file could not be read; the I/O error's message.
    Input(String),
    /// The engine or a file could not be handled; the I/O error's message.
    Io(String),
}

/// A `LatexError` with its messages seen as sequences.
pub enum LatexErrorView {
    LatexError(Seq<char>),
    Input(Seq<char>),
    Io(Seq<char>),
}

impl View for LatexError {
    type V = LatexErrorView;

    open spec fn view(&self) -> LatexErrorView {
        match self {
            LatexError::LatexError(m) => LatexErrorView::LatexError(m@),
            LatexError::Input(m) => LatexErrorView::Input(m@),
            LatexError::Io(m) => LatexErrorView::Io(m@),
        }
    }
}

/// The files handed to a LaTeX run, as names with their contents.
pub struct LatexInput {
    input: Vec<(String, Vec<u8>)>,
}

/// Names and contents seen as sequences.
pub open spec fn inputs_view(v: Seq<(String, Vec<u8>)>) -> Seq<(Seq<char>, Seq<u8>)> {
    v.map_values(|e: (String, Vec<u8>)| (e.0@, e.1@))
}

impl View for LatexInput {
    type V = Seq<(Seq<char>, Seq<u8>)>;

    closed spec fn view(&self) -> Seq<(Seq<char>, Seq<u8>)> {
        inputs_view(self.input@)
    }
}

impl LatexInput {
    /// No files.
    pub fn new() -> (r: LatexInput)
        ensures
            r@ == Seq::<(Seq<char>, Seq<u8>)>::empty(),
    {
        let r = LatexInput { input: Vec::new() };
        assert(r@ =~= Seq::<(Seq<char>, Seq<u8>)>::empty());
        r
    }

    /// Adds one file, under `name`, with the bytes that were read from it.
    pub fn add_file(&mut self, name: String, content: Vec<u8>)
        ensures
            final(self)@ == old(self)@.push((name@, content@)),
    {
        self.input.push((name, content));
        assert(self@ =~= old(self)@.push((name@, content@)));
    }

    /// Where the lazy mirror under `dest_path` places the file or folder
    /// `source`: `source` appended to `dest_path` as a relative path, so
    /// that each source tree gets its own subtree.
    pub fn lazy_destination(dest_path: &str, source: &str) -> (r: String)
        ensures
            r@ == path_join(dest_path@, "./"@ + source@, '/'),
    {
        let rel = String::from_str("./").concat(source);
        join_path(dest_path, rel.as_str())
    }

    /// How many files were added.
    pub fn len(&self) -> (r: usize)
        ensures
            r == self@.len(),
    {
        self.input.len()
    }
}

/// Sequences of strings seen as sequences of characters.
pub open spec fn strings_view(v: Seq<String>) -> Seq<Seq<char>> {
    v.map_values(|s: String| s@)
}

/// `base` joined with the relative path `rel`.
pub fn join_path(base: &str, rel: &str) -> (r: String)
    ensures
        r@ == path_join(base@, rel@, '/'),
{
    let n = base.unicode_len();
    let owned = base.to_owned();
    if n == 0 || base.get_char(n - 1) == '/' {
        owned.concat(rel)
    } else {
        proof {
            reveal_strlit("/");
        }
        let with_sep = owned.concat("/");
        assert(with_sep@ == base@ + seq!['/']);
        with_sep.concat(rel)
    }
}

/// The file stem that `std::path::Path::file_stem` gives for a path.
pub uninterp spec fn path_file_stem(p: Seq<char>) -> Option<Seq<char>>;

/// Relies on std::path::Path::file_stem: the file name of `p` without its
/// extension, if `p` has a file name.
#[verifier::external_body]
fn file_stem(p: &str) -> (r: Option<String>)
    ensures
        match r {
            Some(s) => path_file_stem(p@) == Some(s@),
            None => path_file_stem(p@) is None,
        },
{
    match std::path::Path::new(p).file_stem() {
        Some(s) => Some(s.to_string_lossy().into_owned()),
        None => None,
    }
}

/// A program to run, its arguments, and the directory to run it in.
pub struct CommandLine {
    pub program: String,
    pub args: Vec<String>,
    pub current_dir: String,
}

/// How a run of an outside program ended.
#[derive(Debug)]
pub enum ProcessOutcome {
    /// The program could not be started; the I/O error's message.
    SpawnFailed(String),
    /// The program ran; whether its exit status was success, and what it
    /// wrote to standard error.
    Exited { success: bool, stderr: String },
}

/// The result of a LaTeX run of `main` in `working_dir`, given how the first
/// pass and, where one was run, the second pass ended.
pub open spec fn run_result(
    working_dir: Seq<char>,
    main: Seq<char>,
    double_compilation: bool,
    first: ProcessOutcome,
    second: Option<ProcessOutcome>,
) -> Result<Seq<char>, LatexErrorView> {
    match first {
        ProcessOutcome::SpawnFailed(m) => Err(LatexErrorView::Io(m@)),
        ProcessOutcome::Exited { success, stderr } => {
            if !success {
                Err(LatexErrorView::LatexError(stderr@))
            } else if double_compilation && second matches Some(ProcessOutcome::SpawnFailed(_)) {
                Err(LatexErrorView::Io(second->Some_0->SpawnFailed_0@))
            } else {
                match path_file_stem(main) {
                    Some(stem) => match path_file_stem(stem) {
                        Some(base) => Ok(path_join(working_dir, base + ".pdf"@, '/')),
                        None => Err(LatexErrorView::LatexError(main)),
                    },
                    None => Err(LatexErrorView::LatexError(main)),
                }
            }
        },
    }
}

/// A run's result seen as sequences.
pub open spec fn result_view(r: Result<String, LatexError>) -> Result<Seq<char>, LatexErrorView> {
    match r {
        Ok(p) => Ok(p@),
        Err(e) => Err(e@),
    }
}

/// A LaTeX engine invocation: the engine and its arguments, run in a
/// working directory.
pub struct LatexCompiler {
    pub working_dir: String,
    cmd: (String, Vec<String>),
}

impl LatexCompiler {
    /// The directory the engine runs in.
    pub closed spec fn spec_working_dir(&self) -> Seq<char> {
        self.working_dir@
    }

    /// The engine that is run.
    pub closed spec fn spec_program(&self) -> Seq<char> {
        self.cmd.0@
    }

    /// The arguments that precede the main file.
    pub closed spec fn spec_args(&self) -> Seq<Seq<char>> {
        strings_view(self.cmd.1@)
    }

    /// `program` with no arguments yet, run in `working_dir`.
    pub fn with_program(program: &str, working_dir: String) -> (r: LatexCompiler)
        ensures
            r.spec_working_dir() == working_dir@,
            r.spec_program() == program@,
            r.spec_args() == Seq::<Seq<char>>::empty(),
    {
        let r = LatexCompiler {
            working_dir,
            cmd: (String::from_str(program), Vec::new()),
        };
        assert(r.spec_args() =~= Seq::<Seq<char>>::empty());
        r
    }

    /// `pdflatex -interaction=nonstopmode`, run in `working_dir`.
    pub fn new(working_dir: String) -> (r: LatexCompiler)
        ensures
            r.spec_working_dir() == working_dir@,
            r.spec_program() == "pdflatex"@,
            r.spec_args() == seq!["-interaction=nonstopmode"@],
    {
        let mut args: Vec<String> = Vec::new();
        args.push(String::from_str("-interaction=nonstopmode"));
        let r = LatexCompiler {
            working_dir,
            cmd: (String::from_str("pdflatex"), args),
        };
        assert(r.spec_args() =~= seq!["-interaction=nonstopmode"@]);
        r
    }

    /// Adds an argument after those already there.
    pub fn add_arg(self, cmd: &str) -> (r: Self)
        ensures
            r.spec_working_dir() == self.spec_working_dir(),
            r.spec_program() == self.spec_program(),
            r.spec_args() == self.spec_args().push(cmd@),
    {
        let mut this = self;
        this.cmd.1.push(String::from_str(cmd));
        assert(this.spec_args() =~= self.spec_args().push(cmd@));
        this
    }

    /// The command line that compiles `main`: the engine, its arguments and
    /// then `main`, run in the working directory.
    pub fn get_cmd(&self, main: &str) -> (r: CommandLine)
        ensures
            r.program@ == self.spec_program(),
            strings_view(r.args@) == self.spec_args().push(main@),
            r.current_dir@ == self.spec_working_dir(),
    {
        let mut args: Vec<String> = Vec::new();
        let mut i: usize = 0;
        while i < self.cmd.1.len()
            invariant
                i <= self.cmd.1@.len(),
                strings_view(args@) == strings_view(self.cmd.1@).subrange(0, i as int),
            decreases self.cmd.1@.len() - i,
        {
            let a = self.cmd.1[i].clone();
            let ghost before = args@;
            args.push(a);
            assert(strings_view(args@) =~= strings_view(before).push(a@));
            assert(strings_view(args@) =~= strings_view(self.cmd.1@).subrange(0, i + 1));
            i = i + 1;
        }
        let ghost before = args@;
        args.push(String::from_str(main));
        assert(strings_view(before) =~= self.spec_args());
        assert(strings_view(args@) =~= strings_view(before).push(main@));
        CommandLine {
            program: self.cmd.0.clone(),
            args,
            current_dir: self.working_dir.clone(),
        }
    }

    /// What a run of `get_cmd(main)` gave: on success the path of the PDF
    /// that the engine wrote, `main`'s stem with its extension set to `pdf`
    /// (so `a.b.tex` gives `a.pdf`), in the working directory. `first` is how the first pass ended, `second` how
    /// the second did, where the options asked for one and it was run. A
    /// pass that could not start gives `Io`, a failed first pass `LatexError`
    /// with its standard error, and a `main` without a file name
    /// `LatexError` with `main`.
    pub fn run(
        &self,
        main: &str,
        _input: &LatexInput,
        options: LatexRunOptions,
        first: ProcessOutcome,
        second: Option<ProcessOutcome>,
    ) -> (r: Result<String, LatexError>)
        requires
            options.spec_capture_stdout(),
        ensures
            result_view(r) == run_result(
                self.spec_working_dir(),
                main@,
                options.spec_double_compilation(),
                first,
                second,
            ),
    {
        match first {
            ProcessOutcome::SpawnFailed(m) => {
                return Err(LatexError::Io(m));
            },
            ProcessOutcome::Exited { success, stderr } => {
                if !success {
                    return Err(LatexError::LatexError(stderr));
                }
            },
        }
        if options.double_compilation() {
            match second {
                Some(ProcessOutcome::SpawnFailed(m)) => {
                    return Err(LatexError::Io(m));
                },
                _ => {},
            }
        }
        match file_stem(main) {
            Some(stem) => match file_stem(stem.as_str()) {
                Some(base) => {
                    proof {
                        reveal_strlit(".pdf");
                    }
                    let name = base.concat(".pdf");
                    Ok(join_path(self.working_dir.as_str(), name.as_str()))
                },
                None => Err(LatexError::LatexError(String::from_str(main))),
            },
            None => Err(LatexError::LatexError(String::from_str(main))),
        }
    }
}

} // verus!
