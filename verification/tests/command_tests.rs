use cli_test::command::Action;
use cli_test::command::Command;
use cli_test::command::Outcome;
use cli_test::error::Error;
use cli_test::failure::Failure;

#[test]
fn new_command() {
    println!("{:?}", Command::new("whatever x y < bbb > aaa"))
}

#[test]
fn trailing_output_redirect_extracted() {
    let c = Command::new("prog a b > out").unwrap();
    assert_eq!(c.argv(), &vec!["prog".to_string(), "a".to_string(), "b".to_string()]);
    assert_eq!(c.redirection_path(), &Some("out".to_string()));
    assert_eq!(c.input_path(), &None);
}

#[test]
fn both_redirects_extracted() {
    let c = Command::new("prog x < in y > out z").unwrap();
    let argv = c.argv();
    assert_eq!(argv, &vec!["prog".to_string(), "x".to_string(), "y".to_string(), "z".to_string()]);
    assert!(!argv.iter().any(|w| w == "<" || w == "in" || w == ">" || w == "out"));
    assert_eq!(c.input_path(), &Some("in".to_string()));
    assert_eq!(c.redirection_path(), &Some("out".to_string()));
}

#[test]
fn whitespace_only_line_is_empty_command() {
    assert_eq!(Command::new("   ").unwrap_err(), Error::EmptyCommand);
    assert_eq!(Command::new("").unwrap_err(), Error::EmptyCommand);
    assert_eq!(Command::new(" \t ").unwrap_err(), Error::EmptyCommand);
}

#[test]
fn unbalanced_quote_is_malformed_syntax() {
    assert_eq!(Command::new("echo 'oops").unwrap_err(), Error::MalformedSyntax);
}

#[test]
fn redirection_without_target_is_an_error() {
    assert_eq!(Command::new("cat <").unwrap_err(), Error::MissingRedirectionTarget);
    assert_eq!(Command::new("echo a >").unwrap_err(), Error::MissingRedirectionTarget);
}

#[test]
fn quoted_words_stay_one_word() {
    let c = Command::new("echo 'a b'").unwrap();
    assert_eq!(c.argv(), &vec!["echo".to_string(), "a b".to_string()]);
}

#[test]
fn raw_line_is_kept() {
    let c = Command::new(" echo hi ").unwrap();
    assert_eq!(c.raw_line(), " echo hi ".to_string());
    assert_eq!(c.cmd_line_string, " echo hi ".to_string());
}

#[test]
fn plan_umask_is_unsupported() {
    let c = Command::new("umask 022").unwrap();
    assert_eq!(c.plan().unwrap_err(), Failure::UnsupportedBuiltin);
}

#[test]
fn plan_cd_wants_one_argument() {
    let c = Command::new("cd /somewhere").unwrap();
    match c.plan().unwrap() {
        Action::ChangeDir(d) => assert_eq!(d, "/somewhere".to_string()),
        other => panic!("unexpected action: {:?}", other),
    }
    let c = Command::new("cd").unwrap();
    assert_eq!(c.plan().unwrap_err(), Failure::BadArgumentCount);
    let c = Command::new("cd a b").unwrap();
    assert_eq!(c.plan().unwrap_err(), Failure::BadArgumentCount);
}

#[test]
fn plan_export_splits_pairs() {
    let c = Command::new("export FOO=bar BAZ=").unwrap();
    match c.plan().unwrap() {
        Action::SetVars(ps) => {
            assert_eq!(
                ps,
                vec![
                    ("FOO".to_string(), "bar".to_string()),
                    ("BAZ".to_string(), "".to_string()),
                ]
            );
        }
        other => panic!("unexpected action: {:?}", other),
    }
}

#[test]
fn plan_export_rejects_bad_pairs() {
    let c = Command::new("export JUSTANAME").unwrap();
    assert_eq!(c.plan().unwrap_err(), Failure::BadArgumentSyntax);
    let c = Command::new("export A=b=c").unwrap();
    assert_eq!(c.plan().unwrap_err(), Failure::BadArgumentSyntax);
}

#[test]
fn plan_unset_lists_names() {
    let c = Command::new("unset A B").unwrap();
    match c.plan().unwrap() {
        Action::UnsetVars(ns) => assert_eq!(ns, vec!["A".to_string(), "B".to_string()]),
        other => panic!("unexpected action: {:?}", other),
    }
}

#[test]
fn plan_other_words_spawn() {
    let c = Command::new("ls -l").unwrap();
    assert!(matches!(c.plan().unwrap(), Action::Spawn));
}

#[test]
fn error_messages_name_their_cause() {
    assert_eq!(Error::EmptyCommand.message(), "empty command line");
    assert_eq!(Error::MalformedSyntax.message(), "poorly formed command line");
    assert_eq!(Failure::UnsupportedBuiltin.message(), "\"umask\" is not available");
    assert_eq!(Failure::BadArgumentSyntax.message(), "expected \"ARG=VALUE\"");
}

#[test]
fn default_outcome_is_neutral() {
    let o = Outcome::default();
    assert_eq!(o.e_code, Some(0));
    assert_eq!(o.std_out, "".to_string());
    assert_eq!(o.std_err, "".to_string());
}

#[test]
fn killed_by_signal_differs_from_exit_zero() {
    let killed = Outcome { e_code: None, std_out: String::new(), std_err: String::new() };
    let zero = Outcome::default();
    assert!(killed != zero);
    assert!(killed == killed.duplicate());
}
