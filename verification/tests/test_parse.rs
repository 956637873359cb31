//! Parsing whole bodies into tests, and the per-test derived data.

use lit::Command;
use lit::Test;
use lit::TestResultKind;

#[test]
fn scenario_run_then_check() {
    let t = Test::parse("a.txt".to_string(), "; RUN: foo\n; CHECK: bar").unwrap();
    assert_eq!(t.directives.len(), 2);
    assert_eq!(t.directives[0].line, 1);
    assert!(matches!(t.directives[0].command, Command::Run(_)));
    assert_eq!(t.directives[1].line, 2);
    assert!(matches!(t.directives[1].command, Command::Check(_)));
    assert_eq!(t.instances().len(), 1);
    assert!(!t.is_empty());
}

#[test]
fn scenario_bogus_keyword_fails_whole_parse() {
    let e = Test::parse("b.txt".to_string(), "; BOGUS: x").unwrap_err();
    assert!(e.contains("command 'BOGUS' not known"));
    assert_eq!(e, "could not parse directive: command 'BOGUS' not known");
}

#[test]
fn scenario_empty_body_is_a_skipped_test() {
    let t = Test::parse("c.txt".to_string(), "").unwrap();
    assert!(t.is_empty());
    assert_eq!(t.directives.len(), 0);
    let r = t.run(&vec![]);
    assert!(matches!(r.kind, TestResultKind::Skip));
    assert_eq!(r.path, "c.txt");
}

#[test]
fn body_without_markers_parses_empty_and_skips() {
    let t = Test::parse("d.txt".to_string(), "hello\nworld\nnothing here\n").unwrap();
    assert!(t.is_empty());
    let r = t.run(&vec![]);
    assert!(matches!(r.kind, TestResultKind::Skip));
}

#[test]
fn parse_aborts_on_first_malformed_line() {
    // The RUN on line 1 parses, but the whole file is rejected at line 2:
    // nothing of line 1 is retained anywhere observable.
    let r = Test::parse("e.txt".to_string(), "; RUN: ok\n; BOGUS: x\n; CHECK: y");
    assert!(r.is_err());
    assert_eq!(r.unwrap_err(), "could not parse directive: command 'BOGUS' not known");
}

#[test]
fn parse_propagates_invocation_errors() {
    let e = Test::parse("f.txt".to_string(), "; CHECK: fine\n; RUN:\n").unwrap_err();
    assert_eq!(e, "could not parse directive: expected an executable");
}

#[test]
fn instances_are_the_run_directives_in_order() {
    let body = "; RUN: first a\n; CHECK: x\n; RUN: second b\n; XFAIL:\n";
    let t = Test::parse("g.txt".to_string(), body).unwrap();
    assert_eq!(t.directives.len(), 4);
    let instances = t.instances();
    assert_eq!(instances.len(), 2);
    assert_eq!(instances[0].invocation.executable, "first");
    assert_eq!(instances[0].invocation.arguments, vec!["a".to_string()]);
    assert_eq!(instances[1].invocation.executable, "second");
    assert_eq!(instances[1].invocation.arguments, vec!["b".to_string()]);
}

#[test]
fn check_only_test_has_no_instances() {
    let t = Test::parse("h.txt".to_string(), "; CHECK: a\n; XFAIL:\n").unwrap();
    assert!(!t.is_empty());
    assert_eq!(t.instances().len(), 0);
}

#[test]
fn crlf_line_endings_are_handled() {
    let t = Test::parse("i.txt".to_string(), "; CHECK: bar\r\n; RUN: foo\r\n").unwrap();
    assert_eq!(t.directives.len(), 2);
    match &t.directives[0].command {
        Command::Check(m) => assert_eq!(m.render().as_str(), "bar"),
        _ => panic!("expected a Check command"),
    }
    assert_eq!(t.directives[1].line, 2);
}

#[test]
fn directive_lines_strictly_increase() {
    let body = "plain\n; CHECK: a\nplain again\n; CHECK: b\n\n; XFAIL:\n";
    let t = Test::parse("j.txt".to_string(), body).unwrap();
    let lines: Vec<u32> = t.directives.iter().map(|d| d.line).collect();
    assert_eq!(lines, vec![2, 4, 6]);
    for w in lines.windows(2) {
        assert!(w[0] < w[1]);
    }
}

#[test]
fn variables_bind_file_to_the_path() {
    let t = Test::parse("k.txt".to_string(), "").unwrap();
    let vars = t.variables();
    assert_eq!(vars.len(), 1);
    assert_eq!(vars[0].0, "file");
    assert_eq!(vars[0].1, "k.txt");
}

#[test]
fn blank_lines_are_not_directives() {
    let t = Test::parse("m.txt".to_string(), "\n\n\n").unwrap();
    assert!(t.is_empty());
    let r = t.run(&vec![]);
    assert!(matches!(r.kind, lit::TestResultKind::Skip));
}

#[test]
fn tests_can_be_cloned_and_compared() {
    let t = Test::parse("l.txt".to_string(), "; RUN: foo\n; CHECK: bar").unwrap();
    let u = t.clone();
    assert_eq!(t, u);
    let v = Test::parse("l.txt".to_string(), "; RUN: foo\n; CHECK: baz").unwrap();
    assert_ne!(t, v);
}
