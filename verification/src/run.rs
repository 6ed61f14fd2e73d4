//! Compiling and running a C program: which step follows which outcome.
//!
//! Whoever performs the steps asks [`Job::begin`] for the first one, and hands
//! each outcome to [`Job::next`] until a step finishes the job.
use crate::numbering::law_decimals_differ;
use crate::text::{decimal, decimal_string};
use vstd::prelude::*;
use vstd::string::*;
use vstd::utf8::*;

verus! {

/// What a job came to.
#[derive(Debug, PartialEq, Eq)]
pub struct ExecuteResult {
    pub output: String,
    pub error: String,
}

/// A program that is to be compiled and run.
#[derive(Debug, PartialEq, Eq)]
pub struct Job {
    pub source: String,
    pub program: String,
    pub stdin: String,
}

/// What is being waited for.
#[derive(Clone, Copy, Debug, PartialEq, Eq, Structural)]
pub enum Stage {
    Writing,
    Compiling,
    Starting,
    Feeding,
    Collecting,
    Finished,
}

/// What came of an action. Errors are given by their text.
#[derive(Debug, PartialEq, Eq)]
pub enum Event {
    Written,
    WriteFailed(String),
    Compiled,
    /// The compiler refused the source; this is what it printed.
    Rejected(Vec<u8>),
    CompilerFailed(String),
    Started,
    StartFailed(String),
    Fed,
    /// The program ended; this is what it printed.
    Ended { stdout: Vec<u8>, stderr: Vec<u8> },
    CollectFailed(String),
}

/// What is to be done.
#[derive(Debug, PartialEq, Eq)]
pub enum Action {
    /// Write the source text into the file.
    Write(String),
    /// Run `gcc` with these arguments.
    Compile(Vec<String>),
    /// Start the program.
    Start(String),
    /// Write these texts, in order, to the program's standard input, whatever
    /// comes of it, and close it.
    Feed(Vec<String>),
    /// Wait for the program to end.
    Collect,
    /// Nothing more: this is the result.
    Finish(ExecuteResult),
}

/// Remove the files, whatever comes of it, and then do the action.
#[derive(Debug, PartialEq, Eq)]
pub struct Step {
    pub remove: Vec<String>,
    pub action: Action,
}

/// What a [`Job`] stands for.
pub struct JobView {
    pub source: Seq<char>,
    pub program: Seq<char>,
    pub stdin: Seq<char>,
}

/// What an [`Event`] stands for.
pub enum EventView {
    Written,
    WriteFailed(Seq<char>),
    Compiled,
    Rejected(Seq<u8>),
    CompilerFailed(Seq<char>),
    Started,
    StartFailed(Seq<char>),
    Fed,
    Ended { stdout: Seq<u8>, stderr: Seq<u8> },
    CollectFailed(Seq<char>),
}

/// What an [`Action`] stands for.
pub enum ActionView {
    Write(Seq<char>),
    Compile(Seq<Seq<char>>),
    Start(Seq<char>),
    Feed(Seq<Seq<char>>),
    Collect,
    Finish { output: Seq<char>, error: Seq<char> },
}

/// What a [`Step`] stands for.
pub struct StepView {
    pub remove: Seq<Seq<char>>,
    pub action: ActionView,
}

/// The views of a list of texts.
pub open spec fn text_views(texts: Seq<String>) -> Seq<Seq<char>> {
    texts.map_values(|t: String| t@)
}

impl View for Job {
    type V = JobView;

    open spec fn view(&self) -> JobView {
        JobView { source: self.source@, program: self.program@, stdin: self.stdin@ }
    }
}

impl View for Event {
    type V = EventView;

    open spec fn view(&self) -> EventView {
        match self {
            Event::Written => EventView::Written,
            Event::WriteFailed(e) => EventView::WriteFailed(e@),
            Event::Compiled => EventView::Compiled,
            Event::Rejected(bytes) => EventView::Rejected(bytes@),
            Event::CompilerFailed(e) => EventView::CompilerFailed(e@),
            Event::Started => EventView::Started,
            Event::StartFailed(e) => EventView::StartFailed(e@),
            Event::Fed => EventView::Fed,
            Event::Ended { stdout, stderr } => EventView::Ended {
                stdout: stdout@,
                stderr: stderr@,
            },
            Event::CollectFailed(e) => EventView::CollectFailed(e@),
        }
    }
}

impl View for Action {
    type V = ActionView;

    open spec fn view(&self) -> ActionView {
        match self {
            Action::Write(file) => ActionView::Write(file@),
            Action::Compile(args) => ActionView::Compile(text_views(args@)),
            Action::Start(program) => ActionView::Start(program@),
            Action::Feed(texts) => ActionView::Feed(text_views(texts@)),
            Action::Collect => ActionView::Collect,
            Action::Finish(result) => ActionView::Finish {
                output: result.output@,
                error: result.error@,
            },
        }
    }
}

impl View for Step {
    type V = StepView;

    open spec fn view(&self) -> StepView {
        StepView { remove: text_views(self.remove@), action: self.action@ }
    }
}

/// The text that bytes stand for when invalid sequences are replaced.
pub uninterp spec fn lossy_text(bytes: Seq<u8>) -> Seq<char>;

/// `String::from_utf8_lossy`: bytes that are valid UTF-8 become the text that
/// they encode; of others the text is only named.
#[verifier::external_body]
fn from_utf8_lossy(bytes: &[u8]) -> (res: String)
    ensures
        res@ == lossy_text(bytes@),
        valid_utf8(bytes@) ==> res@ == decode_utf8(bytes@),
{
    String::from_utf8_lossy(bytes).into_owned()
}

/// Whether `event` can come of what is being waited for.
pub open spec fn expects(stage: Stage, event: EventView) -> bool {
    match event {
        EventView::Written | EventView::WriteFailed(_) => stage == Stage::Writing,
        EventView::Compiled | EventView::Rejected(_) | EventView::CompilerFailed(_) => stage
            == Stage::Compiling,
        EventView::Started | EventView::StartFailed(_) => stage == Stage::Starting,
        EventView::Fed => stage == Stage::Feeding,
        EventView::Ended { .. } | EventView::CollectFailed(_) => stage == Stage::Collecting,
    }
}

/// The step that only does `action`.
pub open spec fn simply(action: ActionView) -> StepView {
    StepView { remove: seq![], action }
}

/// The step that removes the files and finishes with an error.
pub open spec fn fail(remove: Seq<Seq<char>>, error: Seq<char>) -> StepView {
    StepView { remove, action: ActionView::Finish { output: ""@, error } }
}

/// What is written to a program that is given `stdin`.
pub open spec fn stdin_texts(stdin: Seq<char>) -> Seq<Seq<char>> {
    if stdin.len() == 0 {
        seq![]
    } else {
        seq![stdin, "\n"@]
    }
}

/// What is waited for, and what is done, after `event`.
pub open spec fn after(job: JobView, event: EventView) -> (Stage, StepView) {
    match event {
        EventView::Written => (
            Stage::Compiling,
            simply(ActionView::Compile(seq![job.source, "-o"@, job.program])),
        ),
        EventView::WriteFailed(e) => (Stage::Finished, fail(seq![], "Failed to write: "@ + e)),
        EventView::Compiled => (Stage::Starting, simply(ActionView::Start(job.program))),
        EventView::Rejected(stderr) => (
            Stage::Finished,
            fail(seq![job.source], lossy_text(stderr)),
        ),
        EventView::CompilerFailed(e) => (
            Stage::Finished,
            fail(seq![job.source], "GCC not found: "@ + e),
        ),
        EventView::Started => (
            Stage::Feeding,
            simply(ActionView::Feed(stdin_texts(job.stdin))),
        ),
        EventView::StartFailed(e) => (
            Stage::Finished,
            fail(seq![job.source, job.program], "Run failed: "@ + e),
        ),
        EventView::Fed => (
            Stage::Collecting,
            StepView { remove: seq![job.source], action: ActionView::Collect },
        ),
        EventView::Ended { stdout, stderr } => (
            Stage::Finished,
            StepView {
                remove: seq![job.program],
                action: ActionView::Finish {
                    output: lossy_text(stdout),
                    error: lossy_text(stderr),
                },
            },
        ),
        EventView::CollectFailed(e) => (
            Stage::Finished,
            fail(seq![], "Execution failed: "@ + e),
        ),
    }
}

/// The job that number `uid` stands for.
pub open spec fn job_of(uid: nat, windows: bool, stdin: Seq<char>) -> JobView {
    JobView {
        source: "temp_"@ + decimal(uid) + ".c"@,
        program: if windows {
            "temp_"@ + decimal(uid) + ".exe"@
        } else {
            "./temp_"@ + decimal(uid)
        },
        stdin,
    }
}

/// No file.
fn no_file() -> (res: Vec<String>)
    ensures
        text_views(res@) == Seq::<Seq<char>>::empty(),
{
    let res: Vec<String> = Vec::new();
    assert(text_views(res@) == Seq::<Seq<char>>::empty());
    res
}

/// One file.
fn one_file(file: &String) -> (res: Vec<String>)
    ensures
        text_views(res@) == seq![file@],
{
    let mut res: Vec<String> = Vec::new();
    res.push(file.clone());
    assert(text_views(res@) == seq![file@]);
    res
}

/// The step that only does `action`.
fn simple_step(action: Action) -> (res: Step)
    ensures
        res@ == simply(action@),
{
    Step { remove: no_file(), action }
}

/// The step that removes the files and finishes with an error.
fn failing_step(remove: Vec<String>, error: String) -> (res: Step)
    ensures
        res@ == fail(text_views(remove@), error@),
{
    Step { remove, action: Action::Finish(ExecuteResult { output: "".to_owned(), error }) }
}

/// `error` behind `message`.
fn explained(message: &str, error: &String) -> (res: String)
    ensures
        res@ == message@ + error@,
{
    let mut res = message.to_owned();
    res.append(error.as_str());
    res
}

impl Stage {
    /// Whether `event` can come of what is being waited for.
    pub fn accepts(self, event: &Event) -> (res: bool)
        ensures
            res == expects(self, event@),
    {
        match event {
            Event::Written | Event::WriteFailed(_) => self == Stage::Writing,
            Event::Compiled | Event::Rejected(_) | Event::CompilerFailed(_) => self
                == Stage::Compiling,
            Event::Started | Event::StartFailed(_) => self == Stage::Starting,
            Event::Fed => self == Stage::Feeding,
            Event::Ended { .. } | Event::CollectFailed(_) => self == Stage::Collecting,
        }
    }
}

impl Job {
    /// The job that number `uid` stands for.
    pub fn new(uid: u32, windows: bool, stdin: String) -> (res: Job)
        ensures
            res@ == job_of(uid as nat, windows, stdin@),
    {
        let number = decimal_string(uid as u64);
        let mut source = "temp_".to_owned();
        source.append(number.as_str());
        source.append(".c");
        let mut program = if windows {
            "temp_".to_owned()
        } else {
            "./temp_".to_owned()
        };
        program.append(number.as_str());
        if windows {
            program.append(".exe");
        }
        Job { source, program, stdin }
    }

    /// The first step.
    pub fn begin(&self) -> (res: (Stage, Step))
        ensures
            res.0 == Stage::Writing,
            res.1@ == simply(ActionView::Write(self@.source)),
    {
        (Stage::Writing, simple_step(Action::Write(self.source.clone())))
    }

    /// The arguments of the compiler.
    fn compiler_args(&self) -> (res: Vec<String>)
        ensures
            text_views(res@) == seq![self@.source, "-o"@, self@.program],
    {
        let mut res: Vec<String> = Vec::new();
        res.push(self.source.clone());
        res.push("-o".to_owned());
        res.push(self.program.clone());
        assert(text_views(res@) == seq![self@.source, "-o"@, self@.program]);
        res
    }

    /// What is written to the program.
    fn input_texts(&self) -> (res: Vec<String>)
        ensures
            text_views(res@) == stdin_texts(self@.stdin),
    {
        let mut res: Vec<String> = Vec::new();
        if !self.stdin.as_str().is_empty() {
            res.push(self.stdin.clone());
            res.push("\n".to_owned());
        }
        assert(text_views(res@) == stdin_texts(self@.stdin));
        res
    }

    /// The step after `event`, and what is waited for then.
    pub fn next(&self, stage: Stage, event: Event) -> (res: (Stage, Step))
        requires
            expects(stage, event@),
        ensures
            (res.0, res.1@) == after(self@, event@),
    {
        match event {
            Event::Written => (
                Stage::Compiling,
                simple_step(Action::Compile(self.compiler_args())),
            ),
            Event::WriteFailed(e) => (
                Stage::Finished,
                failing_step(no_file(), explained("Failed to write: ", &e)),
            ),
            Event::Compiled => (
                Stage::Starting,
                simple_step(Action::Start(self.program.clone())),
            ),
            Event::Rejected(stderr) => (
                Stage::Finished,
                failing_step(one_file(&self.source), from_utf8_lossy(stderr.as_slice())),
            ),
            Event::CompilerFailed(e) => (
                Stage::Finished,
                failing_step(one_file(&self.source), explained("GCC not found: ", &e)),
            ),
            Event::Started => (Stage::Feeding, simple_step(Action::Feed(self.input_texts()))),
            Event::StartFailed(e) => {
                let mut files = one_file(&self.source);
                let ghost first = text_views(files@);
                files.push(self.program.clone());
                assert(text_views(files@) == first.push(self@.program));
                assert(text_views(files@) == seq![self@.source, self@.program]);
                (Stage::Finished, failing_step(files, explained("Run failed: ", &e)))
            },
            Event::Fed => (
                Stage::Collecting,
                Step { remove: one_file(&self.source), action: Action::Collect },
            ),
            Event::Ended { stdout, stderr } => {
                let result = ExecuteResult {
                    output: from_utf8_lossy(stdout.as_slice()),
                    error: from_utf8_lossy(stderr.as_slice()),
                };
                (
                    Stage::Finished,
                    Step { remove: one_file(&self.program), action: Action::Finish(result) },
                )
            },
            Event::CollectFailed(e) => (
                Stage::Finished,
                failing_step(no_file(), explained("Execution failed: ", &e)),
            ),
        }
    }
}

/// What is waited for after the events of a run, if each of them could come
/// of what was waited for.
pub open spec fn stage_after(job: JobView, events: Seq<EventView>) -> Option<Stage>
    decreases events.len(),
{
    if events.len() == 0 {
        Some(Stage::Writing)
    } else {
        match stage_after(job, events.drop_last()) {
            Some(stage) => if expects(stage, events.last()) {
                Some(after(job, events.last()).0)
            } else {
                None
            },
            None => None,
        }
    }
}

/// The files that are removed after the events of a run, in order.
pub open spec fn removed(job: JobView, events: Seq<EventView>) -> Seq<Seq<char>>
    decreases events.len(),
{
    if events.len() == 0 {
        seq![]
    } else {
        removed(job, events.drop_last()) + after(job, events.last()).1.remove
    }
}

/// How many events a run has had when it waits at `stage`, and which files have
/// been removed by then.
proof fn lemma_stages(job: JobView, events: Seq<EventView>)
    requires
        stage_after(job, events) is Some,
    ensures
        match stage_after(job, events)->0 {
            Stage::Writing => events.len() == 0 && removed(job, events).len() == 0,
            Stage::Compiling => {
                &&& events.len() == 1
                &&& events[0] == EventView::Written
                &&& removed(job, events).len() == 0
            },
            Stage::Starting => {
                &&& events.len() == 2
                &&& events[0] == EventView::Written
                &&& removed(job, events).len() == 0
            },
            Stage::Feeding => {
                &&& events.len() == 3
                &&& events[0] == EventView::Written
                &&& removed(job, events).len() == 0
            },
            Stage::Collecting => {
                &&& events.len() == 4
                &&& events[0] == EventView::Written
                &&& removed(job, events) == seq![job.source]
            },
            Stage::Finished => {
                &&& 1 <= events.len() <= 5
                &&& events[0] == EventView::Written || events[0] is WriteFailed
                &&& removed(job, events) == match events.last() {
                    EventView::WriteFailed(_) => Seq::<Seq<char>>::empty(),
                    EventView::StartFailed(_) | EventView::Ended { .. } => seq![
                        job.source,
                        job.program,
                    ],
                    _ => seq![job.source],
                }
                &&& events.last() is WriteFailed <==> events[0] is WriteFailed
            },
        },
    decreases events.len(),
{
    if events.len() > 0 {
        let before = events.drop_last();
        lemma_stages(job, before);
        assert(removed(job, events) == removed(job, before) + after(
            job,
            events.last(),
        ).1.remove);
        if before.len() > 0 {
            assert(events[0] == before[0]);
        }
    }
}

/// Every run ends: it has at most five events, and no event can follow the step
/// that finishes it.
pub proof fn law_runs_end(job: JobView, events: Seq<EventView>, event: EventView)
    requires
        stage_after(job, events) is Some,
    ensures
        events.len() <= 5,
        stage_after(job, events) == Some(Stage::Finished) ==> !expects(Stage::Finished, event),
        events.len() > 0 ==> (stage_after(job, events) == Some(Stage::Finished) <==> after(
            job,
            events.last(),
        ).1.action is Finish),
{
    lemma_stages(job, events);
}

/// A finished run has removed the source file exactly if it was written, and
/// the program after it exactly if the program could not be started or its
/// output was collected.
pub proof fn law_files_are_removed(job: JobView, events: Seq<EventView>)
    requires
        stage_after(job, events) == Some(Stage::Finished),
    ensures
        removed(job, events) == if events[0] is WriteFailed {
            Seq::<Seq<char>>::empty()
        } else if events.last() is StartFailed || events.last() is Ended {
            seq![job.source, job.program]
        } else {
            seq![job.source]
        },
{
    lemma_stages(job, events);
}

/// The files of a job are two different ones.
pub proof fn law_source_is_not_the_program(uid: nat, windows: bool, stdin: Seq<char>)
    ensures
        job_of(uid, windows, stdin).source != job_of(uid, windows, stdin).program,
{
    let job = job_of(uid, windows, stdin);
    reveal_strlit("temp_");
    reveal_strlit("./temp_");
    reveal_strlit(".c");
    reveal_strlit(".exe");
    if windows {
        assert(job.source.len() != job.program.len());
    } else {
        assert(job.source[0] == 't');
        assert(job.program[0] == '.');
    }
}

/// Jobs of different numbers have different files.
pub proof fn law_jobs_share_no_files(
    uid: nat,
    other: nat,
    windows: bool,
    stdin: Seq<char>,
    other_stdin: Seq<char>,
)
    requires
        uid != other,
    ensures
        job_of(uid, windows, stdin).source != job_of(other, windows, other_stdin).source,
        job_of(uid, windows, stdin).program != job_of(other, windows, other_stdin).program,
{
    let (a, b) = (job_of(uid, windows, stdin), job_of(other, windows, other_stdin));
    law_decimals_differ(uid, other);
    lemma_between("temp_"@, decimal(uid), decimal(other), ".c"@);
    lemma_between("temp_"@, decimal(uid), decimal(other), ".exe"@);
    lemma_between("./temp_"@, decimal(uid), decimal(other), Seq::<char>::empty());
    assert("./temp_"@ + decimal(uid) + Seq::<char>::empty() == "./temp_"@ + decimal(uid));
    assert("./temp_"@ + decimal(other) + Seq::<char>::empty() == "./temp_"@ + decimal(other));
}

/// Texts that differ do so between the same texts.
proof fn lemma_between(front: Seq<char>, a: Seq<char>, b: Seq<char>, back: Seq<char>)
    requires
        a != b,
    ensures
        front + a + back != front + b + back,
{
    let (x, y) = (front + a + back, front + b + back);
    if x == y {
        assert(x.len() == y.len());
        assert(a == x.subrange(front.len() as int, (front.len() + a.len()) as int));
        assert(b == y.subrange(front.len() as int, (front.len() + b.len()) as int));
    }
}

/// What is written to the program, joined together, is the whole input and a
/// newline after it; without an input nothing is written. Nothing is removed then.
pub proof fn law_input_is_fed(job: JobView)
    ensures
        ({
            let (stage, step) = after(job, EventView::Started);
            &&& stage == Stage::Feeding
            &&& step.remove.len() == 0
            &&& step.action matches ActionView::Feed(texts) && {
                &&& job.stdin.len() > 0 ==> texts.flatten() == job.stdin + "\n"@
                &&& job.stdin.len() == 0 ==> texts.len() == 0
            }
        }),
{
    let texts = after(job, EventView::Started).1.action->Feed_0;
    if job.stdin.len() > 0 {
        reveal_with_fuel(Seq::<Seq<char>>::flatten, 3);
        assert(texts.drop_first() == seq!["\n"@]);
        assert(texts.drop_first().drop_first() == Seq::<Seq<char>>::empty());
        assert(texts.flatten() == job.stdin + "\n"@);
    }
}

/// A step that only does something removes nothing.
pub proof fn law_simple_steps(action: ActionView)
    ensures
        simply(action).action == action,
        simply(action).remove.len() == 0,
{
}

/// A source that is written is compiled to the program, and a program that is
/// compiled is started; nothing is removed on the way. Once the program has been
/// given its input, the source is removed and its end is waited for.
pub proof fn law_run_goes_on(job: JobView)
    ensures
        ({
            let (stage, step) = after(job, EventView::Written);
            &&& stage == Stage::Compiling
            &&& step.remove.len() == 0
            &&& step.action matches ActionView::Compile(args) && {
                &&& args.len() == 3
                &&& args[0] == job.source
                &&& args[1] == "-o"@
                &&& args[2] == job.program
            }
        }),
        ({
            let (stage, step) = after(job, EventView::Compiled);
            &&& stage == Stage::Starting
            &&& step.remove.len() == 0
            &&& step.action == ActionView::Start(job.program)
        }),
        ({
            let (stage, step) = after(job, EventView::Fed);
            &&& stage == Stage::Collecting
            &&& step.remove.len() == 1
            &&& step.remove[0] == job.source
            &&& step.action is Collect
        }),
{
}

/// A program that ended has its output and errors for a result, byte for byte
/// where they are UTF-8, and is removed.
pub proof fn law_output_is_returned(job: JobView, stdout: Seq<u8>, stderr: Seq<u8>)
    ensures
        ({
            let (stage, step) = after(job, EventView::Ended { stdout, stderr });
            &&& stage == Stage::Finished
            &&& step.remove.len() == 1
            &&& step.remove[0] == job.program
            &&& step.action matches ActionView::Finish { output, error } && output == lossy_text(
                stdout,
            ) && error == lossy_text(stderr)
        }),
{
}

/// Whatever fails finishes the run without an output. What the compiler printed
/// is the error if it refused the source; other errors stand behind a message
/// that says what failed.
pub proof fn law_failures_are_told(job: JobView, e: Seq<char>, printed: Seq<u8>)
    ensures
        after(job, EventView::WriteFailed(e)).0 == Stage::Finished,
        after(job, EventView::WriteFailed(e)).1.action == (ActionView::Finish {
            output: ""@,
            error: "Failed to write: "@ + e,
        }),
        after(job, EventView::Rejected(printed)).0 == Stage::Finished,
        after(job, EventView::Rejected(printed)).1.action == (ActionView::Finish {
            output: ""@,
            error: lossy_text(printed),
        }),
        after(job, EventView::CompilerFailed(e)).0 == Stage::Finished,
        after(job, EventView::CompilerFailed(e)).1.action == (ActionView::Finish {
            output: ""@,
            error: "GCC not found: "@ + e,
        }),
        after(job, EventView::StartFailed(e)).0 == Stage::Finished,
        after(job, EventView::StartFailed(e)).1.action == (ActionView::Finish {
            output: ""@,
            error: "Run failed: "@ + e,
        }),
        after(job, EventView::CollectFailed(e)).0 == Stage::Finished,
        after(job, EventView::CollectFailed(e)).1.action == (ActionView::Finish {
            output: ""@,
            error: "Execution failed: "@ + e,
        }),
{
}

/// What each failure removes: nothing if the source could not be written or the
/// output not collected, the source if it could not be compiled, and the program
/// too if it could not be started.
pub proof fn law_failures_clean_up(job: JobView, e: Seq<char>, printed: Seq<u8>)
    ensures
        after(job, EventView::WriteFailed(e)).1.remove.len() == 0,
        after(job, EventView::Rejected(printed)).1.remove == seq![job.source],
        after(job, EventView::CompilerFailed(e)).1.remove == seq![job.source],
        after(job, EventView::StartFailed(e)).1.remove == seq![job.source, job.program],
        after(job, EventView::CollectFailed(e)).1.remove.len() == 0,
{
}

/// Each stage awaits the outcomes of what is being done, and no others.
pub proof fn law_outcomes_of_stages(stage: Stage, event: EventView)
    ensures
        expects(stage, event) <==> match stage {
            Stage::Writing => event is Written || event is WriteFailed,
            Stage::Compiling => event is Compiled || event is Rejected || event is CompilerFailed,
            Stage::Starting => event is Started || event is StartFailed,
            Stage::Feeding => event is Fed,
            Stage::Collecting => event is Ended || event is CollectFailed,
            Stage::Finished => false,
        },
{
}

/// A job keeps its input, and its files bear its number: the source before `.c`,
/// the program before `.exe` or in the working directory.
pub proof fn law_files_of_a_job(uid: nat, windows: bool, stdin: Seq<char>)
    ensures
        job_of(uid, windows, stdin).stdin == stdin,
        job_of(uid, windows, stdin).source == "temp_"@ + decimal(uid) + ".c"@,
        windows ==> job_of(uid, windows, stdin).program == "temp_"@ + decimal(uid) + ".exe"@,
        !windows ==> job_of(uid, windows, stdin).program == "./temp_"@ + decimal(uid),
{
}

/// The views of jobs, events, actions and steps hold what these hold.
pub proof fn law_run_views(job: Job, event: Event, action: Action, step: Step)
    ensures
        job@.source == job.source@,
        job@.program == job.program@,
        job@.stdin == job.stdin@,
        event matches Event::WriteFailed(e) ==> event@ == EventView::WriteFailed(e@),
        event matches Event::Rejected(b) ==> event@ == EventView::Rejected(b@),
        event matches Event::CompilerFailed(e) ==> event@ == EventView::CompilerFailed(e@),
        event matches Event::StartFailed(e) ==> event@ == EventView::StartFailed(e@),
        event matches Event::CollectFailed(e) ==> event@ == EventView::CollectFailed(e@),
        event matches Event::Ended { stdout, stderr } ==> event@ == (EventView::Ended {
            stdout: stdout@,
            stderr: stderr@,
        }),
        event is Written <==> event@ is Written,
        event is Compiled <==> event@ is Compiled,
        event is Started <==> event@ is Started,
        event is Fed <==> event@ is Fed,
        action matches Action::Write(f) ==> action@ == ActionView::Write(f@),
        action matches Action::Start(f) ==> action@ == ActionView::Start(f@),
        action matches Action::Compile(a) ==> (action@ matches ActionView::Compile(v) && v.len()
            == a@.len() && forall|i: int| 0 <= i < v.len() ==> #[trigger] v[i] == a@[i]@),
        action matches Action::Feed(a) ==> (action@ matches ActionView::Feed(v) && v.len()
            == a@.len() && forall|i: int| 0 <= i < v.len() ==> #[trigger] v[i] == a@[i]@),
        action is Collect <==> action@ is Collect,
        action matches Action::Finish(r) ==> action@ == (ActionView::Finish {
            output: r.output@,
            error: r.error@,
        }),
        step@.action == step.action@,
        step@.remove.len() == step.remove@.len(),
        forall|i: int| 0 <= i < step@.remove.len() ==> #[trigger] step@.remove[i]
            == step.remove@[i]@,
{
}

} // verus!
