//! Runtime checks of the exercise tracker: marker detection, context
//! extraction, runner output and the compile argument lists.

use range_decompose::exercise::{
    CompiledExercise, ContextLine, Exercise, ExerciseList, ExerciseOutput, Mode, State,
};

fn sample_exercise(mode: Mode) -> Exercise {
    Exercise {
        name: String::from("example"),
        path: String::from("tests/fixture/state/pending_exercise.rs"),
        mode,
        hint: String::from(""),
        test_mod: String::from(""),
        feature: String::from(""),
    }
}

const PENDING_SOURCE: &str = "// fake_exercise\n\n// I AM NOT DONE\n\nfn main() {\n}\n";

#[test]
fn test_pending_state() {
    let exercise = Exercise {
        name: "pending_exercise".into(),
        path: String::from("tests/fixture/state/pending_exercise.rs"),
        mode: Mode::Compile,
        hint: String::new(),
        test_mod: String::new(),
        feature: String::from(""),
    };

    let state = exercise.state(PENDING_SOURCE);
    let expected = vec![
        ContextLine {
            line: "// fake_exercise".to_string(),
            number: 1,
            important: false,
        },
        ContextLine {
            line: "".to_string(),
            number: 2,
            important: false,
        },
        ContextLine {
            line: "// I AM NOT DONE".to_string(),
            number: 3,
            important: true,
        },
        ContextLine {
            line: "".to_string(),
            number: 4,
            important: false,
        },
        ContextLine {
            line: "fn main() {".to_string(),
            number: 5,
            important: false,
        },
    ];

    assert_eq!(state, State::Pending(expected));
}

#[test]
fn test_finished_exercise() {
    let exercise = Exercise {
        name: "finished_exercise".into(),
        path: String::from("tests/fixture/state/finished_exercise.rs"),
        mode: Mode::Compile,
        hint: String::new(),
        test_mod: String::new(),
        feature: String::from(""),
    };

    let source = "// fake_exercise\n\nfn main() {\n}\n";
    assert_eq!(exercise.state(source), State::Done);
}

#[test]
fn test_marker_variants() {
    let exercise = sample_exercise(Mode::Compile);
    // doc-comment marker, extra spacing, leading indentation
    assert!(!exercise.looks_done("/// I AM NOT DONE\nfn main() {}\n"));
    assert!(!exercise.looks_done("    //  I  AM  NOT  DONE\nfn main() {}\n"));
    assert!(!exercise.looks_done("// I AM NOT DONE and more text\n"));
    // no marker, or only lookalikes
    assert!(exercise.looks_done("fn main() {}\n"));
    assert!(exercise.looks_done("// I AM DONE\n"));
    assert!(exercise.looks_done("I AM NOT DONE\n"));
    assert!(exercise.looks_done(""));
}

#[test]
fn test_marker_at_edges() {
    let exercise = sample_exercise(Mode::Compile);
    // marker on the first line: context has no lines above
    match exercise.state("// I AM NOT DONE\nline two\nline three\n") {
        State::Pending(ctx) => {
            assert_eq!(ctx.len(), 3);
            assert_eq!(ctx[0].line, "// I AM NOT DONE");
            assert_eq!(ctx[0].number, 1);
            assert!(ctx[0].important);
            assert_eq!(ctx[2].line, "line three");
        }
        State::Done => panic!("marker not found"),
    }
    // marker on the last line: context has no lines below
    match exercise.state("line one\nline two\n// I AM NOT DONE") {
        State::Pending(ctx) => {
            assert_eq!(ctx.len(), 3);
            assert_eq!(ctx[2].line, "// I AM NOT DONE");
            assert_eq!(ctx[2].number, 3);
            assert!(ctx[2].important);
        }
        State::Done => panic!("marker not found"),
    }
}

#[test]
fn test_run_output() {
    let exercise = sample_exercise(Mode::Compile);
    let compiled = CompiledExercise::new(&exercise);
    let output: ExerciseOutput = compiled.run().unwrap();
    assert_eq!(output.stdout, "");
    assert_eq!(output.stderr, "");
}

#[test]
fn test_compile_args_compile_mode() {
    let exercise = sample_exercise(Mode::Compile);
    assert_eq!(exercise.compile_program(), "rustc");
    let args = exercise.compile_args("./temp_1234_main");
    let expected: Vec<String> = [
        "tests/fixture/state/pending_exercise.rs",
        "-o",
        "./temp_1234_main",
        "--color",
        "always",
        "--edition",
        "2021",
        "-C",
        "strip=debuginfo",
    ]
    .iter()
    .map(|s| s.to_string())
    .collect();
    assert_eq!(args, expected);
}

#[test]
fn test_compile_args_test_mode() {
    let mut exercise = sample_exercise(Mode::Test);
    exercise.feature = String::from("chap_1");
    exercise.test_mod = String::from("chap_1::exercise_1::tests");
    assert_eq!(exercise.compile_program(), "cargo");
    let args = exercise.compile_args("./temp_1234_main");
    let expected: Vec<String> = [
        "test",
        "--features",
        "chap_1",
        "--",
        "--nocapture",
        "chap_1::exercise_1::tests",
    ]
    .iter()
    .map(|s| s.to_string())
    .collect();
    assert_eq!(args, expected);
}

#[test]
fn test_exercise_list() {
    let list = ExerciseList {
        exercises: vec![sample_exercise(Mode::Compile), sample_exercise(Mode::Test)],
    };
    assert_eq!(list.exercises.len(), 2);
    assert_eq!(list.exercises[0].name, "example");
}

#[test]
fn test_crlf_lines() {
    let exercise = sample_exercise(Mode::Compile);
    match exercise.state("first\r\n// I AM NOT DONE\r\nlast\r\n") {
        State::Pending(ctx) => {
            assert_eq!(ctx.len(), 3);
            assert_eq!(ctx[0].line, "first");
            assert_eq!(ctx[1].line, "// I AM NOT DONE");
            assert!(ctx[1].important);
            assert_eq!(ctx[2].line, "last");
        }
        State::Done => panic!("marker not found"),
    }
}
