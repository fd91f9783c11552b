//! The mutable context that evaluation reads and writes.

use vstd::prelude::*;

verus! {

/// What the last command left behind.
#[derive(Debug)]
pub struct ShellOutput {
    /// Status code; `Some(0)` is success, `None` means that nothing ran.
    pub code: Option<u32>,
    pub stdout: Option<String>,
    pub stderr: Option<String>,
    pub stdin: Option<String>,
}

/// The context of a whole run of the shell.
#[derive(Debug)]
pub struct ShellState {
    pub current_dir: String,
    pub output: ShellOutput,
    /// The text of the history log, as the `history` builtin reads it.
    pub history: String,
}

/// The text of an optional string.
pub open spec fn text_of(s: Option<String>) -> Option<Seq<char>> {
    match s {
        Some(text) => Some(text@),
        None => None,
    }
}

/// The mathematical value of a [`ShellOutput`].
pub struct OutputView {
    pub code: Option<u32>,
    pub stdout: Option<Seq<char>>,
    pub stderr: Option<Seq<char>>,
    pub stdin: Option<Seq<char>>,
}

/// The mathematical value of a [`ShellState`].
pub struct StateView {
    pub current_dir: Seq<char>,
    pub output: OutputView,
    pub history: Seq<char>,
}

impl OutputView {
    /// The output in which nothing has run.
    pub open spec fn empty() -> OutputView {
        OutputView { code: None, stdout: None, stderr: None, stdin: None }
    }

    /// Whether the last command succeeded.
    pub open spec fn is_ok(self) -> bool {
        self.code == Some(0u32)
    }

    /// A success record with `text` on stdout; stdin is kept.
    pub open spec fn success(self, text: Seq<char>) -> OutputView {
        OutputView { code: Some(0u32), stdout: Some(text), stderr: None, stdin: self.stdin }
    }

    /// A failure record with status `code` and `text` on stderr; stdin is kept.
    pub open spec fn failure(self, code: u32, text: Seq<char>) -> OutputView {
        OutputView { code: Some(code), stdout: None, stderr: Some(text), stdin: self.stdin }
    }

    /// The same output with another status code.
    pub open spec fn with_code(self, code: u32) -> OutputView {
        OutputView { code: Some(code), ..self }
    }

    /// The output after stdout has been moved to stdin.
    pub open spec fn piped(self) -> OutputView {
        OutputView { stdin: self.stdout, stdout: None, ..self }
    }
}

impl StateView {
    /// The same state with another output.
    pub open spec fn with_output(self, output: OutputView) -> StateView {
        StateView { output, ..self }
    }
}

impl View for ShellOutput {
    type V = OutputView;

    open spec fn view(&self) -> OutputView {
        OutputView {
            code: self.code,
            stdout: text_of(self.stdout),
            stderr: text_of(self.stderr),
            stdin: text_of(self.stdin),
        }
    }
}

impl View for ShellState {
    type V = StateView;

    open spec fn view(&self) -> StateView {
        StateView {
            current_dir: self.current_dir@,
            output: self.output@,
            history: self.history@,
        }
    }
}

impl Default for ShellOutput {
    fn default() -> (out: ShellOutput)
        ensures
            out@ == OutputView::empty(),
    {
        ShellOutput { code: None, stdout: None, stderr: None, stdin: None }
    }
}

impl Default for ShellState {
    fn default() -> (state: ShellState)
        ensures
            state@.current_dir == Seq::<char>::empty(),
            state@.output == OutputView::empty(),
            state@.history == Seq::<char>::empty(),
    {
        ShellState {
            current_dir: String::new(),
            output: ShellOutput::default(),
            history: String::new(),
        }
    }
}

impl ShellOutput {
    /// Whether the last command succeeded, that is, left status 0.
    pub fn is_ok(&self) -> (ok: bool)
        ensures
            ok == self@.is_ok(),
    {
        match self.code {
            Some(code) => code == 0,
            None => false,
        }
    }

    /// Records success: status 0, `stdout` as output, no error text.
    pub fn set_stdout(&mut self, stdout: String)
        ensures
            final(self)@ == old(self)@.success(stdout@),
    {
        self.code = Some(0);
        self.stdout = Some(stdout);
        self.stderr = None;
    }

    /// Records failure: status `code`, `stderr` as error text, no output.
    pub fn set_stderr(&mut self, code: u32, stderr: String)
        ensures
            final(self)@ == old(self)@.failure(code, stderr@),
    {
        self.code = Some(code);
        self.stderr = Some(stderr);
        self.stdout = None;
    }

    /// Forgets everything the last command left.
    pub fn clear(&mut self)
        ensures
            final(self)@ == OutputView::empty(),
    {
        self.code = None;
        self.stdout = None;
        self.stderr = None;
        self.stdin = None;
    }

    /// Hands the output over as the next command's input.
    pub fn move_stdout_to_stdin(&mut self)
        ensures
            final(self)@ == old(self)@.piped(),
    {
        self.stdin = self.stdout.take();
    }
}

} // verus!
