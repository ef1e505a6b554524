//! Exercises and their completion state.
//!
//! An exercise is a source file worked on by a learner.  A file still counts
//! as pending while it carries an "I AM NOT DONE" marker comment; its state
//! reports the marker's surroundings so a runner can show them.  Reading
//! files and spawning the toolchain belong to the caller: the functions here
//! take the source text and hand back plain values.

use vstd::prelude::*;

verus! {

/// Whether a single line is an "I AM NOT DONE" marker comment.
pub uninterp spec fn marker_match(line: Seq<char>) -> bool;

/// Relies on `regex::Regex::new` and `regex::Regex::is_match`: whether the
/// line is an "I AM NOT DONE" marker comment.  The pattern is a fixed
/// literal, so the result is a function of the line alone.
#[verifier::external_body]
fn line_is_marker(line: &str) -> (r: bool)
    ensures
        r == marker_match(line@),
{
    regex::Regex::new(r"^\s*///?\s*I\s+AM\s+NOT\s+DONE").unwrap().is_match(line)
}

/// The position of the first newline in `s`, or `s.len()` if there is none.
pub open spec fn first_newline(s: Seq<char>) -> nat
    decreases s.len(),
{
    if s.len() == 0 {
        0
    } else if s[0] == '\n' {
        0
    } else {
        1 + first_newline(s.skip(1))
    }
}

/// A line terminated by a newline, with a carriage return before the
/// newline stripped.
pub open spec fn strip_cr(l: Seq<char>) -> Seq<char> {
    if l.len() > 0 && l.last() == '\r' {
        l.drop_last()
    } else {
        l
    }
}

/// The lines of a source text: split at newlines, the separators dropped, a
/// carriage return directly before a newline stripped, and no final empty
/// line for a text that ends with a newline.
pub open spec fn lines_of(s: Seq<char>) -> Seq<Seq<char>>
    decreases s.len(),
{
    if s.len() == 0 {
        Seq::empty()
    } else {
        let i = first_newline(s) as int;
        if i >= s.len() {
            seq![s]
        } else {
            seq![strip_cr(s.take(i))] + lines_of(s.skip(i + 1))
        }
    }
}

/// Relies on `str::lines`: the source split into lines, the newline
/// separators removed and a carriage return before each newline stripped.
#[verifier::external_body]
fn source_lines(source: &str) -> (r: Vec<String>)
    ensures
        r@.len() == lines_of(source@).len(),
        forall|i: int| 0 <= i < r@.len() ==> (#[trigger] r@[i])@ == lines_of(source@)[i],
{
    source.lines().map(|l| l.to_string()).collect()
}

/// Whether some line carries the marker.
pub open spec fn has_marker(lines: Seq<Seq<char>>) -> bool {
    exists|i: int| 0 <= i < lines.len() && marker_match(lines[i])
}

/// The index of the first marker line.
pub open spec fn marker_index(lines: Seq<Seq<char>>) -> int
    decreases lines.len(),
{
    if lines.len() == 0 {
        0
    } else if marker_match(lines[0]) {
        0
    } else {
        1 + marker_index(lines.skip(1))
    }
}

/// The first marker position characterises `marker_index`.
proof fn lemma_marker_index_unique(lines: Seq<Seq<char>>, i: int)
    requires
        0 <= i < lines.len(),
        marker_match(lines[i]),
        forall|j: int| 0 <= j < i ==> !marker_match(lines[j]),
    ensures
        marker_index(lines) == i,
    decreases i,
{
    if i == 0 {
    } else {
        assert(!marker_match(lines[0]));
        let rest = lines.skip(1);
        assert(rest[i - 1] == lines[i]);
        assert forall|j: int| 0 <= j < i - 1 implies !marker_match(rest[j]) by {
            assert(rest[j] == lines[j + 1]);
        }
        lemma_marker_index_unique(rest, i - 1);
    }
}

/// Find the first marker line, if any.
fn find_marker(lines: &Vec<String>) -> (r: Option<usize>)
    ensures
        r is Some ==> r->Some_0 < lines@.len() && marker_match(lines@[r->Some_0 as int]@)
            && forall|j: int| 0 <= j < r->Some_0 ==> !marker_match(lines@[j]@),
        r is None ==> forall|j: int| 0 <= j < lines@.len() ==> !marker_match(lines@[j]@),
{
    let n = lines.len();
    let mut i: usize = 0;
    while i < n
        invariant
            n == lines@.len(),
            i <= n,
            forall|j: int| 0 <= j < i ==> !marker_match(lines@[j]@),
        decreases n - i,
    {
        if line_is_marker(lines[i].as_str()) {
            return Some(i);
        }
        i = i + 1;
    }
    None
}

/// How an exercise is built and run.
#[derive(Copy, Clone, Debug)]
pub enum Mode {
    /// The exercise is compiled as a stand-alone binary.
    Compile,
    /// The exercise is compiled as a test harness.
    Test,
}

/// An exercise: one source file a learner works on, with the metadata a
/// runner needs to build it.
#[derive(Debug)]
pub struct Exercise {
    /// Name of the exercise.
    pub name: String,
    /// The test module run for a test exercise.
    pub test_mod: String,
    /// The path of the file holding the exercise's source code.
    pub path: String,
    /// The feature the exercise's tests are gated behind.
    pub feature: String,
    /// The mode the exercise is built in.
    pub mode: Mode,
    /// The hint text shown on request.
    pub hint: String,
}

/// A list of exercises.
pub struct ExerciseList {
    /// The exercises, in order.
    pub exercises: Vec<Exercise>,
}

/// One line of context around a pending exercise's marker.
#[derive(Debug)]
pub struct ContextLine {
    /// The source line.
    pub line: String,
    /// Its one-based line number.
    pub number: usize,
    /// Whether this is the marker line itself.
    pub important: bool,
}

impl PartialEq for ContextLine {
    fn eq(&self, other: &ContextLine) -> (r: bool) {
        let line_eq = self.line == other.line;
        line_eq && self.number == other.number && self.important == other.important
    }
}

impl vstd::std_specs::cmp::PartialEqSpecImpl for ContextLine {
    open spec fn obeys_eq_spec() -> bool {
        true
    }

    open spec fn eq_spec(&self, other: &ContextLine) -> bool {
        self.line@ == other.line@ && self.number == other.number && self.important
            == other.important
    }
}

/// The plain views of a list of context lines: what equality of two states
/// compares.
pub open spec fn context_views(cs: Seq<ContextLine>) -> Seq<(Seq<char>, usize, bool)> {
    cs.map_values(|c: ContextLine| (c.line@, c.number, c.important))
}

/// The state of an exercise: completed, or pending with the source lines
/// around its marker.
#[derive(Debug)]
pub enum State {
    /// The marker is gone: the exercise looks completed.
    Done,
    /// The exercise still carries the marker; the lines around it.
    Pending(Vec<ContextLine>),
}

impl PartialEq for State {
    #[verifier::loop_isolation(false)]
    fn eq(&self, other: &State) -> (r: bool) {
        match (self, other) {
            (State::Done, State::Done) => true,
            (State::Pending(a), State::Pending(b)) => {
                if a.len() != b.len() {
                    proof {
                        assert(context_views(a@).len() != context_views(b@).len());
                    }
                    return false;
                }
                let n = a.len();
                let mut i: usize = 0;
                while i < n
                    invariant
                        n == a@.len() == b@.len(),
                        i <= n,
                        forall|j: int|
                            0 <= j < i ==> #[trigger] context_views(a@)[j] == context_views(
                                b@,
                            )[j],
                    decreases n - i,
                {
                    let ai = &a[i];
                    let bi = &b[i];
                    if !ai.eq(bi) {
                        proof {
                            assert(context_views(a@)[i as int] != context_views(b@)[i as int]);
                        }
                        return false;
                    }
                    proof {
                        assert(context_views(a@)[i as int] == context_views(b@)[i as int]);
                    }
                    i = i + 1;
                }
                proof {
                    assert(context_views(a@) =~= context_views(b@));
                }
                true
            },
            _ => false,
        }
    }
}

impl vstd::std_specs::cmp::PartialEqSpecImpl for State {
    open spec fn obeys_eq_spec() -> bool {
        true
    }

    open spec fn eq_spec(&self, other: &State) -> bool {
        match (self, other) {
            (State::Done, State::Done) => true,
            (State::Pending(a), State::Pending(b)) => context_views(a@) == context_views(b@),
            _ => false,
        }
    }
}

/// What an executed exercise binary printed.
#[derive(Debug)]
pub struct ExerciseOutput {
    /// The text on the binary's standard output.
    pub stdout: String,
    /// The text on the binary's standard error.
    pub stderr: String,
}

/// An exercise that compiled; running it yields its output.
pub struct CompiledExercise<'a> {
    exercise: &'a Exercise,
}

impl<'a> CompiledExercise<'a> {
    /// Wrap an exercise whose compile step succeeded.
    pub fn new(exercise: &'a Exercise) -> (r: CompiledExercise<'a>) {
        CompiledExercise { exercise }
    }

    /// Run the compiled exercise.
    pub fn run(&self) -> (r: Result<ExerciseOutput, ExerciseOutput>)
        ensures
            r is Ok,
            r->Ok_0.stdout@ == Seq::<char>::empty(),
            r->Ok_0.stderr@ == Seq::<char>::empty(),
    {
        self.exercise.run()
    }
}

impl Exercise {
    /// Run the exercise.  The runner no longer spawns the built binary;
    /// the output is empty on success.
    fn run(&self) -> (r: Result<ExerciseOutput, ExerciseOutput>)
        ensures
            r is Ok,
            r->Ok_0.stdout@ == Seq::<char>::empty(),
            r->Ok_0.stderr@ == Seq::<char>::empty(),
    {
        let output = ExerciseOutput { stdout: String::new(), stderr: String::new() };
        Ok(output)
    }

    /// The program the compile step runs: the plain compiler for a compile
    /// exercise, the build tool for a test exercise.
    pub fn compile_program(&self) -> (program: String)
        ensures
            self.mode is Compile ==> program@ == "rustc"@,
            self.mode is Test ==> program@ == "cargo"@,
    {
        match self.mode {
            Mode::Compile => "rustc".to_owned(),
            Mode::Test => "cargo".to_owned(),
        }
    }

    /// The argument list of the compile step, with `temp_file` the path the
    /// binary is written to: the exercise file with colour, edition and
    /// debug-info flags for a compile exercise; the exercise's test module
    /// behind its feature for a test exercise.
    pub fn compile_args(&self, temp_file: &str) -> (args: Vec<String>)
        ensures
            self.mode is Compile ==> args@.len() == 9 && args@[0]@ == self.path@ && args@[1]@
                == "-o"@ && args@[2]@ == temp_file@ && args@[3]@ == "--color"@ && args@[4]@
                == "always"@ && args@[5]@ == "--edition"@ && args@[6]@ == "2021"@ && args@[7]@
                == "-C"@ && args@[8]@ == "strip=debuginfo"@,
            self.mode is Test ==> args@.len() == 6 && args@[0]@ == "test"@ && args@[1]@
                == "--features"@ && args@[2]@ == self.feature@ && args@[3]@ == "--"@ && args@[4]@
                == "--nocapture"@ && args@[5]@ == self.test_mod@,
    {
        let mut args: Vec<String> = Vec::new();
        match self.mode {
            Mode::Compile => {
                args.push(self.path.clone());
                args.push("-o".to_owned());
                args.push(temp_file.to_owned());
                args.push("--color".to_owned());
                args.push("always".to_owned());
                args.push("--edition".to_owned());
                args.push("2021".to_owned());
                args.push("-C".to_owned());
                args.push("strip=debuginfo".to_owned());
            },
            Mode::Test => {
                args.push("test".to_owned());
                args.push("--features".to_owned());
                args.push(self.feature.clone());
                args.push("--".to_owned());
                args.push("--nocapture".to_owned());
                args.push(self.test_mod.clone());
            },
        }
        args
    }

    /// The state of the exercise, judged from its source text: done when no
    /// line carries the marker; otherwise pending, with up to two lines of
    /// context on each side of the first marker line, each line under its
    /// one-based number and the marker line flagged important.
    pub fn state(&self, source: &str) -> (st: State)
        ensures
            (st is Done) <==> !has_marker(lines_of(source@)),
            st matches State::Pending(ctx) ==> ({
                let lines = lines_of(source@);
                let idx = marker_index(lines);
                let lo = if idx >= 2 {
                    idx - 2
                } else {
                    0
                };
                let hi = if idx + 2 < lines.len() {
                    idx + 2
                } else {
                    lines.len() - 1
                };
                &&& ctx@.len() == hi - lo + 1
                &&& forall|j: int| 0 <= j < ctx@.len() ==> (#[trigger] ctx@[j]).line@ == lines[lo + j]
                &&& forall|j: int| 0 <= j < ctx@.len() ==> (#[trigger] ctx@[j]).number == lo + j + 1
                &&& forall|j: int|
                    0 <= j < ctx@.len() ==> (#[trigger] ctx@[j]).important == (lo + j == idx)
            }),
    {
        let lines = source_lines(source);
        let found = find_marker(&lines);
        match found {
            None => {
                proof {
                    assert forall|ii: int|
                        0 <= ii < lines_of(source@).len() implies !marker_match(
                        lines_of(source@)[ii],
                    ) by {
                        assert(lines@[ii]@ == lines_of(source@)[ii]);
                    }
                }
                State::Done
            },
            Some(found_idx) => {
                let n = lines.len();
                proof {
                    assert(lines@[found_idx as int]@ == lines_of(source@)[found_idx as int]);
                    assert(marker_match(lines_of(source@)[found_idx as int]));
                    assert forall|jj: int| 0 <= jj < found_idx implies !marker_match(
                        lines_of(source@)[jj],
                    ) by {
                        assert(lines@[jj]@ == lines_of(source@)[jj]);
                    }
                    lemma_marker_index_unique(lines_of(source@), found_idx as int);
                }
                let lo = if found_idx >= 2 {
                    found_idx - 2
                } else {
                    0
                };
                let hi = if n - found_idx >= 3 {
                    found_idx + 2
                } else {
                    n - 1
                };
                let mut ctx: Vec<ContextLine> = Vec::new();
                let mut j = lo;
                while j <= hi
                    invariant
                        n == lines@.len(),
                        lo <= j <= hi + 1,
                        hi < n,
                        ctx@.len() == j - lo,
                        forall|i: int|
                            0 <= i < lines@.len() ==> (#[trigger] lines@[i])@ == lines_of(
                                source@,
                            )[i],
                        lines@.len() == lines_of(source@).len(),
                        found_idx < n,
                        forall|t: int|
                            0 <= t < ctx@.len() ==> (#[trigger] ctx@[t]).line@ == lines_of(
                                source@,
                            )[lo + t],
                        forall|t: int| 0 <= t < ctx@.len() ==> (#[trigger] ctx@[t]).number == lo + t
                            + 1,
                        forall|t: int|
                            0 <= t < ctx@.len() ==> (#[trigger] ctx@[t]).important == (lo + t
                                == found_idx),
                    decreases hi + 1 - j,
                {
                    let line = lines[j].clone();
                    ctx.push(ContextLine { line, number: j + 1, important: j == found_idx });
                    j = j + 1;
                }
                State::Pending(ctx)
            },
        }
    }

    /// Whether the exercise looks completed: its source no longer carries
    /// the marker.  The learner may have removed the marker without solving
    /// anything; only building and running the exercise could tell.
    pub fn looks_done(&self, source: &str) -> (done: bool)
        ensures
            done <==> !has_marker(lines_of(source@)),
    {
        let st = self.state(source);
        match st {
            State::Done => true,
            State::Pending(_) => false,
        }
    }
}

} // verus!
