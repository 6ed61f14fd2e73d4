use c_flowchart::run::{Action, Event, ExecuteResult, Job, Stage, Step};

fn job(stdin: &str) -> Job {
    Job::new(42, false, stdin.to_string())
}

fn texts(list: &[&str]) -> Vec<String> {
    list.iter().map(|t| t.to_string()).collect()
}

fn finish(remove: &[&str], output: &str, error: &str) -> (Stage, Step) {
    let result = ExecuteResult { output: output.to_string(), error: error.to_string() };
    (Stage::Finished, Step { remove: texts(remove), action: Action::Finish(result) })
}

#[test]
fn files_are_named_after_the_number() {
    let unix = Job::new(7, false, "in".to_string());
    assert_eq!(unix.source, "temp_7.c");
    assert_eq!(unix.program, "./temp_7");
    assert_eq!(unix.stdin, "in");
    let windows = Job::new(999999999, true, "".to_string());
    assert_eq!(windows.source, "temp_999999999.c");
    assert_eq!(windows.program, "temp_999999999.exe");
}

#[test]
fn different_numbers_name_different_files() {
    let (a, b) = (Job::new(1, true, "".to_string()), Job::new(11, true, "".to_string()));
    assert_ne!(a.source, b.source);
    assert_ne!(a.program, b.program);
    assert_ne!(a.source, a.program);
}

#[test]
fn a_run_goes_through_all_its_stages() {
    let j = job("1 2");
    let (stage, step) = j.begin();
    assert_eq!(stage, Stage::Writing);
    assert_eq!(step, Step { remove: vec![], action: Action::Write("temp_42.c".to_string()) });

    let (stage, step) = j.next(stage, Event::Written);
    assert_eq!(stage, Stage::Compiling);
    let args = texts(&["temp_42.c", "-o", "./temp_42"]);
    assert_eq!(step, Step { remove: vec![], action: Action::Compile(args) });

    let (stage, step) = j.next(stage, Event::Compiled);
    assert_eq!(stage, Stage::Starting);
    assert_eq!(step, Step { remove: vec![], action: Action::Start("./temp_42".to_string()) });

    let (stage, step) = j.next(stage, Event::Started);
    assert_eq!(stage, Stage::Feeding);
    assert_eq!(step, Step { remove: vec![], action: Action::Feed(texts(&["1 2", "\n"])) });

    let (stage, step) = j.next(stage, Event::Fed);
    assert_eq!(stage, Stage::Collecting);
    assert_eq!(step, Step { remove: texts(&["temp_42.c"]), action: Action::Collect });

    let ended = Event::Ended { stdout: b"3\n".to_vec(), stderr: b"".to_vec() };
    assert_eq!(j.next(stage, ended), finish(&["./temp_42"], "3\n", ""));
}

#[test]
fn without_input_nothing_is_written_to_the_program() {
    let (_, step) = job("").next(Stage::Starting, Event::Started);
    assert_eq!(step.action, Action::Feed(vec![]));
}

#[test]
fn failures_are_explained() {
    let j = job("");
    assert_eq!(
        j.next(Stage::Writing, Event::WriteFailed("disk full".to_string())),
        finish(&[], "", "Failed to write: disk full")
    );
    assert_eq!(
        j.next(Stage::Compiling, Event::CompilerFailed("no such file".to_string())),
        finish(&["temp_42.c"], "", "GCC not found: no such file")
    );
    assert_eq!(
        j.next(Stage::Compiling, Event::Rejected(b"error: x".to_vec())),
        finish(&["temp_42.c"], "", "error: x")
    );
    assert_eq!(
        j.next(Stage::Starting, Event::StartFailed("denied".to_string())),
        finish(&["temp_42.c", "./temp_42"], "", "Run failed: denied")
    );
    assert_eq!(
        j.next(Stage::Collecting, Event::CollectFailed("gone".to_string())),
        finish(&[], "", "Execution failed: gone")
    );
}

#[test]
fn output_that_is_no_text_is_mended() {
    let j = job("");
    let ended = Event::Ended { stdout: vec![b'a', 0xff, b'b'], stderr: vec![0xc3] };
    assert_eq!(
        j.next(Stage::Collecting, ended),
        finish(&["./temp_42"], "a\u{fffd}b", "\u{fffd}")
    );
    let ended = Event::Ended { stdout: "\u{e9}\u{1f600}".as_bytes().to_vec(), stderr: vec![] };
    assert_eq!(
        j.next(Stage::Collecting, ended),
        finish(&["./temp_42"], "\u{e9}\u{1f600}", "")
    );
}

#[test]
fn stages_accept_what_can_come_of_them() {
    let all = [
        Stage::Writing,
        Stage::Compiling,
        Stage::Starting,
        Stage::Feeding,
        Stage::Collecting,
        Stage::Finished,
    ];
    let text = || "e".to_string();
    let events = vec![
        (Event::Written, Stage::Writing),
        (Event::WriteFailed(text()), Stage::Writing),
        (Event::Compiled, Stage::Compiling),
        (Event::Rejected(vec![]), Stage::Compiling),
        (Event::CompilerFailed(text()), Stage::Compiling),
        (Event::Started, Stage::Starting),
        (Event::StartFailed(text()), Stage::Starting),
        (Event::Fed, Stage::Feeding),
        (Event::Ended { stdout: vec![], stderr: vec![] }, Stage::Collecting),
        (Event::CollectFailed(text()), Stage::Collecting),
    ];
    for (event, at) in &events {
        for stage in all {
            assert_eq!(stage.accepts(event), stage == *at);
        }
    }
}

#[test]
fn written_sources_are_removed() {
    let text = || "e".to_string();
    let runs = vec![
        vec![Event::WriteFailed(text())],
        vec![Event::Written, Event::Rejected(vec![])],
        vec![Event::Written, Event::CompilerFailed(text())],
        vec![Event::Written, Event::Compiled, Event::StartFailed(text())],
        vec![
            Event::Written,
            Event::Compiled,
            Event::Started,
            Event::Fed,
            Event::Ended { stdout: vec![], stderr: vec![] },
        ],
        vec![
            Event::Written,
            Event::Compiled,
            Event::Started,
            Event::Fed,
            Event::CollectFailed(text()),
        ],
    ];
    let removed = vec![
        texts(&[]),
        texts(&["temp_42.c"]),
        texts(&["temp_42.c"]),
        texts(&["temp_42.c", "./temp_42"]),
        texts(&["temp_42.c", "./temp_42"]),
        texts(&["temp_42.c"]),
    ];
    let j = job("");
    for (run, expected) in runs.into_iter().zip(removed) {
        let (mut stage, _) = j.begin();
        let mut files: Vec<String> = Vec::new();
        for event in run {
            assert!(stage.accepts(&event));
            let (then, step) = j.next(stage, event);
            assert_eq!(then == Stage::Finished, matches!(step.action, Action::Finish(_)));
            files.extend(step.remove);
            stage = then;
        }
        assert_eq!(stage, Stage::Finished);
        assert_eq!(files, expected);
    }
}
