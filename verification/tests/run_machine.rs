//! The verdict state machine: folding instance outcomes into one verdict.

use lit::Error;
use lit::Test;
use lit::TestResultKind;
use lit::step_verdict;

fn run_test(body: &str) -> Test {
    Test::parse("t.txt".to_string(), body).unwrap()
}

#[test]
fn zero_instances_with_directives_is_a_vacuous_pass() {
    let t = run_test("; CHECK: never executed\n");
    let r = t.run(&vec![]);
    assert!(matches!(r.kind, TestResultKind::Pass));
}

#[test]
fn single_skip_outcome_promotes_to_pass() {
    let t = run_test("; RUN: foo\n");
    let r = t.run(&vec![TestResultKind::Skip]);
    assert!(matches!(r.kind, TestResultKind::Pass));
}

#[test]
fn single_fail_outcome_is_adopted_unchanged() {
    let t = run_test("; RUN: foo\n");
    let outcome = TestResultKind::Fail {
        message: "mismatch on line 3".to_string(),
        stderr: Some("tool noise".to_string()),
    };
    let r = t.run(&vec![outcome]);
    match r.kind {
        TestResultKind::Fail { message, stderr } => {
            assert_eq!(message, "mismatch on line 3");
            assert_eq!(stderr, Some("tool noise".to_string()));
        },
        _ => panic!("expected the Fail verdict, unchanged"),
    }
}

#[test]
fn fail_without_stderr_keeps_the_missing_capture() {
    let t = run_test("; RUN: foo\n");
    let r = t.run(&vec![TestResultKind::Fail { message: "m".to_string(), stderr: None }]);
    match r.kind {
        TestResultKind::Fail { message, stderr } => {
            assert_eq!(message, "m");
            assert!(stderr.is_none());
        },
        _ => panic!("expected the Fail verdict, unchanged"),
    }
}

#[test]
fn all_passing_instances_pass_the_test() {
    let t = run_test("; RUN: foo\n; RUN: bar\n");
    let r = t.run(&vec![TestResultKind::Pass, TestResultKind::Pass]);
    assert!(matches!(r.kind, TestResultKind::Pass));
    assert_eq!(r.path, "t.txt");
}

#[test]
fn first_non_pass_outcome_decides() {
    let t = run_test("; RUN: foo\n; RUN: bar\n");
    let r = t.run(&vec![TestResultKind::Pass, TestResultKind::UnexpectedPass]);
    assert!(matches!(r.kind, TestResultKind::UnexpectedPass));

    let r = t.run(&vec![TestResultKind::ExpectedFailure, TestResultKind::Pass]);
    assert!(matches!(r.kind, TestResultKind::ExpectedFailure));
}

#[test]
fn error_outcome_carries_its_message_through() {
    let t = run_test("; RUN: foo\n");
    let outcome = TestResultKind::Error(Error { message: "tool not found".to_string() });
    let r = t.run(&vec![outcome]);
    match r.kind {
        TestResultKind::Error(e) => assert_eq!(e.message, "tool not found"),
        _ => panic!("expected the Error verdict, unchanged"),
    }
}

#[test]
fn step_verdict_continues_only_on_pass() {
    assert!(step_verdict(TestResultKind::Pass).is_none());
    assert!(matches!(step_verdict(TestResultKind::Skip), Some(TestResultKind::Pass)));
    match step_verdict(TestResultKind::Fail { message: "m".to_string(), stderr: None }) {
        Some(TestResultKind::Fail { message, stderr }) => {
            assert_eq!(message, "m");
            assert!(stderr.is_none());
        },
        _ => panic!("expected the Fail outcome to stop the fold"),
    }
    assert!(matches!(
        step_verdict(TestResultKind::UnexpectedPass),
        Some(TestResultKind::UnexpectedPass)
    ));
    assert!(matches!(
        step_verdict(TestResultKind::ExpectedFailure),
        Some(TestResultKind::ExpectedFailure)
    ));
}

#[test]
fn outcome_kinds_can_be_cloned() {
    let k = TestResultKind::Fail { message: "m".to_string(), stderr: Some("s".to_string()) };
    match k.clone() {
        TestResultKind::Fail { message, stderr } => {
            assert_eq!(message, "m");
            assert_eq!(stderr, Some("s".to_string()));
        },
        _ => panic!("expected the clone to keep the variant"),
    }
}
