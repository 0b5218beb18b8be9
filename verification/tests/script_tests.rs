use cli_test::command::Action;
use cli_test::command::Outcome;
use cli_test::error::Error;
use cli_test::script::EvalStep;
use cli_test::script::Evaluation;
use cli_test::script::Script;
use cli_test::script::SourceRange;

fn outcome(e_code: Option<i32>, std_out: &str, std_err: &str) -> Outcome {
    Outcome { e_code, std_out: std_out.to_string(), std_err: std_err.to_string() }
}

#[test]
fn empty_text_is_an_empty_script() {
    let s = Script::read("").unwrap();
    assert_eq!(s.len(), 0);
    assert!(matches!(s.evaluate(&vec![]), EvalStep::Finished(Evaluation::Pass)));
}

#[test]
fn text_without_command_lines_is_an_empty_script() {
    let s = Script::read("no commands here\njust prose\n").unwrap();
    assert_eq!(s.len(), 0);
}

#[test]
fn echo_script_expects_stdout_with_newline() {
    let s = Script::read("$ echo hi\n> hi\n").unwrap();
    assert_eq!(s.len(), 1);
    let b = s.block(0);
    assert_eq!(b.range, SourceRange { start: 1, end: 3 });
    assert_eq!(b.expected_outcome, outcome(Some(0), "hi\n", ""));
    // what `echo hi` actually produces matches the accumulated expectation
    let step = s.evaluate(&vec![outcome(Some(0), "hi\n", "")]);
    assert!(matches!(step, EvalStep::Finished(Evaluation::Pass)));
}

#[test]
fn false_with_expected_exit_one_passes() {
    let s = Script::read("$ false\n? 1\n").unwrap();
    assert_eq!(s.block(0).expected_outcome, outcome(Some(1), "", ""));
    let step = s.evaluate(&vec![outcome(Some(1), "", "")]);
    assert!(matches!(step, EvalStep::Finished(Evaluation::Pass)));
}

#[test]
fn false_with_expected_exit_zero_fails_with_range() {
    let s = Script::read("$ false\n? 0\n").unwrap();
    match s.evaluate(&vec![outcome(Some(1), "", "")]) {
        EvalStep::Finished(Evaluation::Fail(range, raw, expected, actual)) => {
            assert_eq!(range, SourceRange { start: 1, end: 3 });
            assert_eq!(raw, " false\n".to_string());
            assert_eq!(expected.e_code, Some(0));
            assert_eq!(actual.e_code, Some(1));
        }
        other => panic!("unexpected step: {:?}", other),
    }
}

#[test]
fn cd_to_missing_directory_is_planned_but_fails_outside() {
    // the library's part: the script parses, the first step asks to run
    // block 0, and the block's command is a `cd` builtin; the IO failure
    // itself comes from the operating system when the caller performs it
    let s = Script::read("$ cd /nonexistent-path\n").unwrap();
    assert!(matches!(s.evaluate(&vec![]), EvalStep::Run(0)));
    match s.block(0).command.plan().unwrap() {
        Action::ChangeDir(d) => assert_eq!(d, "/nonexistent-path".to_string()),
        other => panic!("unexpected action: {:?}", other),
    }
}

#[test]
fn environment_persists_across_blocks() {
    let s = Script::read("$ export FOO=bar\n$ printenv FOO\n> bar\n").unwrap();
    assert_eq!(s.len(), 2);
    assert_eq!(s.block(0).range, SourceRange { start: 1, end: 2 });
    assert_eq!(s.block(1).range, SourceRange { start: 2, end: 4 });
    match s.block(0).command.plan().unwrap() {
        Action::SetVars(ps) => assert_eq!(ps, vec![("FOO".to_string(), "bar".to_string())]),
        other => panic!("unexpected action: {:?}", other),
    }
    // `export` succeeds with the neutral outcome, then `printenv FOO`
    // sees the variable the first block set
    let step = s.evaluate(&vec![outcome(Some(0), "", ""), outcome(Some(0), "bar\n", "")]);
    assert!(matches!(step, EvalStep::Finished(Evaluation::Pass)));
}

#[test]
fn evaluation_is_fail_fast() {
    let s = Script::read("$ a\n? 1\n$ b\n? 2\n$ c\n? 3\n").unwrap();
    assert_eq!(s.len(), 3);
    // nothing run yet: the first block is asked for
    assert!(matches!(s.evaluate(&vec![]), EvalStep::Run(0)));
    // the first block matched: the second is asked for
    assert!(matches!(s.evaluate(&vec![outcome(Some(1), "", "")]), EvalStep::Run(1)));
    // the second block mismatches: the verdict names it, and the third
    // block is never asked for
    match s.evaluate(&vec![outcome(Some(1), "", ""), outcome(Some(99), "", "")]) {
        EvalStep::Finished(Evaluation::Fail(range, raw, expected, actual)) => {
            assert_eq!(range, SourceRange { start: 3, end: 5 });
            assert_eq!(raw, " b\n".to_string());
            assert_eq!(expected.e_code, Some(2));
            assert_eq!(actual.e_code, Some(99));
        }
        other => panic!("unexpected step: {:?}", other),
    }
}

#[test]
fn parsing_twice_gives_identical_scripts() {
    let text = "prose\n$ echo one > f\n> out\n! err\n? 3\n\n$ tail < f\n";
    let a = Script::read(text).unwrap();
    let b = Script::read(text).unwrap();
    assert_eq!(a.len(), b.len());
    for i in 0..a.len() {
        let x = a.block(i);
        let y = b.block(i);
        assert_eq!(x.range, y.range);
        assert_eq!(x.expected_outcome, y.expected_outcome);
        assert_eq!(x.command.raw_line(), y.command.raw_line());
        assert_eq!(x.command.argv(), y.command.argv());
        assert_eq!(x.command.input_path(), y.command.input_path());
        assert_eq!(x.command.redirection_path(), y.command.redirection_path());
    }
}

#[test]
fn blank_exit_code_means_killed_by_signal() {
    let s = Script::read("$ foo\n?   \n").unwrap();
    assert_eq!(s.block(0).expected_outcome.e_code, None);
    // an actual exit code of zero must not match the expectation
    match s.evaluate(&vec![outcome(Some(0), "", "")]) {
        EvalStep::Finished(Evaluation::Fail(_, _, expected, actual)) => {
            assert_eq!(expected.e_code, None);
            assert_eq!(actual.e_code, Some(0));
        }
        other => panic!("unexpected step: {:?}", other),
    }
}

#[test]
fn last_exit_code_annotation_wins() {
    let s = Script::read("$ a\n? 1\n? 2\n").unwrap();
    assert_eq!(s.block(0).expected_outcome.e_code, Some(2));
}

#[test]
fn negative_and_signed_exit_codes_parse() {
    let s = Script::read("$ a\n? -5\n").unwrap();
    assert_eq!(s.block(0).expected_outcome.e_code, Some(-5));
    let s = Script::read("$ a\n? +7\n").unwrap();
    assert_eq!(s.block(0).expected_outcome.e_code, Some(7));
}

#[test]
fn extreme_exit_codes_parse_exactly() {
    let s = Script::read("$ a\n? 2147483647\n").unwrap();
    assert_eq!(s.block(0).expected_outcome.e_code, Some(i32::MAX));
    let s = Script::read("$ a\n? -2147483648\n").unwrap();
    assert_eq!(s.block(0).expected_outcome.e_code, Some(i32::MIN));
    assert_eq!(Script::read("$ a\n? -2147483649\n").unwrap_err(), Error::MalformedErrorCode);
    assert_eq!(Script::read("$ a\n? 2147483648\n").unwrap_err(), Error::MalformedErrorCode);
}

#[test]
fn non_integer_exit_code_fails_the_parse() {
    assert_eq!(Script::read("$ a\n? 12x\n").unwrap_err(), Error::MalformedErrorCode);
    assert_eq!(Script::read("$ a\n? 99999999999\n").unwrap_err(), Error::MalformedErrorCode);
    assert_eq!(Script::read("$ a\n? --1\n").unwrap_err(), Error::MalformedErrorCode);
}

#[test]
fn command_errors_fail_the_parse() {
    assert_eq!(Script::read("$ echo 'x\n").unwrap_err(), Error::MalformedSyntax);
    assert_eq!(Script::read("$   \n").unwrap_err(), Error::EmptyCommand);
    assert_eq!(Script::read("$ cat <\n").unwrap_err(), Error::MissingRedirectionTarget);
}

#[test]
fn ignored_lines_do_not_end_a_block() {
    let s = Script::read("$ a\nsome comment\n? 1\n").unwrap();
    assert_eq!(s.len(), 1);
    assert_eq!(s.block(0).range, SourceRange { start: 1, end: 4 });
    assert_eq!(s.block(0).expected_outcome.e_code, Some(1));
}

#[test]
fn stdout_lines_accumulate_left_trimmed() {
    let s = Script::read("$ a\n> one\n>   two\n").unwrap();
    assert_eq!(s.block(0).expected_outcome.std_out, "one\ntwo\n".to_string());
}

#[test]
fn stderr_lines_accumulate_left_trimmed() {
    let s = Script::read("$ a\n! oops\n! more\n").unwrap();
    assert_eq!(s.block(0).expected_outcome.std_err, "oops\nmore\n".to_string());
}

#[test]
fn last_line_without_newline_is_kept() {
    let s = Script::read("$ a\n> hi").unwrap();
    assert_eq!(s.block(0).expected_outcome.std_out, "hi".to_string());
    assert_eq!(s.block(0).range, SourceRange { start: 1, end: 3 });
}

#[test]
fn evaluation_failed_distinguishes_verdicts() {
    assert!(!Evaluation::Pass.failed());
    let fail = Evaluation::Fail(
        SourceRange { start: 1, end: 2 },
        "x".to_string(),
        outcome(Some(0), "", ""),
        outcome(Some(1), "", ""),
    );
    assert!(fail.failed());
}

#[test]
fn extra_actual_outcomes_beyond_the_blocks_still_pass() {
    let s = Script::read("$ a\n").unwrap();
    let step = s.evaluate(&vec![outcome(Some(0), "", ""), outcome(Some(7), "", "")]);
    assert!(matches!(step, EvalStep::Finished(Evaluation::Pass)));
}
