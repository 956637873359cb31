//! The harness's general guarantees, stated and proved once over the
//! mathematical model that the executable contracts speak of.

use vstd::prelude::*;

use crate::test::CommandView;
use crate::test::DirectiveView;
use crate::test::TestResultKindView;
use crate::test::TestView;
use crate::test::run_invocations;
use crate::test::spec_maybe_parse;
use crate::test::spec_parse_lines;
use crate::test::spec_parse_test;
use crate::test::spec_step_verdict;
use crate::test::spec_test_verdict;
use crate::test::spec_verdict_of;
use crate::test::unknown_command_message;
use crate::text;

verus! {

/// A line without a marker substring is not a directive: classifying it
/// yields nothing, whatever line number it carries.
pub proof fn lemma_no_marker_no_directive(s: Seq<char>, line: u32)
    requires
        !text::has_marker(s),
    ensures
        spec_maybe_parse(s, line) is None,
{
}

/// A marker line with a recognized keyword and a valid payload parses to a
/// directive carrying exactly the caller-supplied line number.  Every
/// payload is valid but a `RUN` payload with no token in it.
pub proof fn lemma_known_keyword_line_number(s: Seq<char>, line: u32)
    requires
        text::has_marker(s),
        text::marker_keyword(s) == "RUN"@ || text::marker_keyword(s) == "CHECK"@
            || text::marker_keyword(s) == "CHECK-NEXT"@ || text::marker_keyword(s) == "XFAIL"@,
        text::marker_keyword(s) == "RUN"@ ==> text::split_ws(
            text::trim(text::marker_payload(s)),
        ).len() > 0,
    ensures
        spec_maybe_parse(s, line) matches Some(r) && r matches Ok(d) && d.line == line,
{
}

/// A marker line with an unrecognized keyword is a parse error whose text
/// holds that literal keyword.
pub proof fn lemma_unknown_keyword_error(s: Seq<char>, line: u32)
    requires
        text::has_marker(s),
        text::marker_keyword(s) != "RUN"@,
        text::marker_keyword(s) != "CHECK"@,
        text::marker_keyword(s) != "CHECK-NEXT"@,
        text::marker_keyword(s) != "XFAIL"@,
    ensures
        spec_maybe_parse(s, line) matches Some(r) && r matches Err(e) && e
            == unknown_command_message(text::marker_keyword(s)),
        spec_maybe_parse(s, line) matches Some(r) && r matches Err(e) && exists|i: int|
            0 <= i && i + text::marker_keyword(s).len() <= e.len() && (#[trigger] e.subrange(
                i,
                i + text::marker_keyword(s).len() as int,
            )) == text::marker_keyword(s),
{
    let kw = text::marker_keyword(s);
    let e = unknown_command_message(kw);
    reveal_strlit("command '");
    reveal_strlit("' not known");
    assert(e.subrange(9, 9 + kw.len() as int) =~= kw);
    assert(0 <= 9 && 9 + kw.len() <= e.len() && e.subrange(9, 9 + kw.len() as int) == kw);
}

proof fn lemma_parse_lines_no_markers(lines: Seq<Seq<char>>, i: int)
    requires
        0 <= i,
        forall|j: int| i <= j < lines.len() ==> !text::has_marker(#[trigger] lines[j]),
    ensures
        spec_parse_lines(lines, i) == Ok::<Seq<DirectiveView>, Seq<char>>(Seq::empty()),
    decreases lines.len() - i,
{
    if i < lines.len() {
        lemma_parse_lines_no_markers(lines, i + 1);
    }
}

/// A body with no marker line parses to a test with no directives, and
/// such an empty test's verdict is `Skip`, whatever outcomes are offered.
pub proof fn lemma_no_markers_empty_test(
    path: Seq<char>,
    body: Seq<char>,
    outcomes: Seq<TestResultKindView>,
)
    requires
        forall|i: int|
            0 <= i < text::lines_of(body).len() ==> !text::has_marker(
                #[trigger] text::lines_of(body)[i],
            ),
    ensures
        spec_parse_test(path, body) matches Ok(t) && t.directives.len() == 0 && spec_test_verdict(
            t,
            outcomes,
        ) == TestResultKindView::Skip,
{
    lemma_parse_lines_no_markers(text::lines_of(body), 0);
}

proof fn lemma_parse_lines_first_error(lines: Seq<Seq<char>>, i: int, k: int, e: Seq<char>)
    requires
        0 <= i <= k < lines.len(),
        spec_maybe_parse(lines[k], (k + 1) as u32) == Some(Err::<DirectiveView, Seq<char>>(e)),
        forall|j: int|
            i <= j < k ==> !(spec_maybe_parse(#[trigger] lines[j], (j + 1) as u32) matches Some(
                Err(_),
            )),
    ensures
        spec_parse_lines(lines, i) == Err::<Seq<DirectiveView>, Seq<char>>(
            "could not parse directive: "@ + e,
        ),
    decreases k - i,
{
    if i < k {
        lemma_parse_lines_first_error(lines, i + 1, k, e);
    }
}

/// Parsing aborts on the first malformed directive line: no test value is
/// produced, and nothing parsed from the lines before it is retained — the
/// result is exactly the error formed from that line's own error.
pub proof fn lemma_parse_aborts_on_first_error(
    path: Seq<char>,
    body: Seq<char>,
    k: int,
    e: Seq<char>,
)
    requires
        0 <= k < text::lines_of(body).len(),
        spec_maybe_parse(text::lines_of(body)[k], (k + 1) as u32) == Some(
            Err::<DirectiveView, Seq<char>>(e),
        ),
        forall|j: int|
            0 <= j < k ==> !(spec_maybe_parse(
                #[trigger] text::lines_of(body)[j],
                (j + 1) as u32,
            ) matches Some(Err(_))),
    ensures
        spec_parse_test(path, body) == Err::<TestView, Seq<char>>(
            "could not parse directive: "@ + e,
        ),
{
    lemma_parse_lines_first_error(text::lines_of(body), 0, k, e);
}

proof fn lemma_parse_lines_line_bounds(lines: Seq<Seq<char>>, i: int)
    requires
        0 <= i,
        lines.len() < u32::MAX,
    ensures
        spec_parse_lines(lines, i) matches Ok(ds) ==> (forall|a: int|
            0 <= a < ds.len() ==> i + 1 <= (#[trigger] ds[a]).line) && (forall|a: int, b: int|
            0 <= a < b < ds.len() ==> ds[a].line < ds[b].line),
    decreases lines.len() - i,
{
    if 0 <= i < lines.len() {
        lemma_parse_lines_line_bounds(lines, i + 1);
        match spec_maybe_parse(lines[i], (i + 1) as u32) {
            Some(Ok(d)) => {
                assert(d.line == i + 1);
                match spec_parse_lines(lines, i + 1) {
                    Ok(ds2) => {
                        let ds = seq![d] + ds2;
                        assert(forall|a: int| 0 < a < ds.len() ==> ds[a] == ds2[a - 1]);
                    },
                    Err(_) => {
                    },
                }
            },
            _ => {
            },
        }
    }
}

/// A parsed test's directive order is exactly source order: the line
/// numbers of its directives strictly increase.
pub proof fn lemma_directive_lines_increase(path: Seq<char>, body: Seq<char>)
    requires
        body.len() < u32::MAX,
    ensures
        spec_parse_test(path, body) matches Ok(t) ==> forall|a: int, b: int|
            0 <= a < b < t.directives.len() ==> t.directives[a].line < t.directives[b].line,
{
    text::lemma_lines_count(body);
    lemma_parse_lines_line_bounds(text::lines_of(body), 0);
}

/// The instances of a test are exactly its `Run` directives, in source
/// order: their count is the count of `Run` directives.
pub proof fn lemma_instances_count(ds: Seq<DirectiveView>)
    ensures
        run_invocations(ds).len() == ds.filter(|d: DirectiveView| d.command is Run).len(),
    decreases ds.len(),
{
    reveal(Seq::filter);
    if ds.len() > 0 {
        lemma_instances_count(ds.drop_last());
    }
}

/// A test with no `Run` directive yields no instances at all.
pub proof fn lemma_no_runs_no_instances(ds: Seq<DirectiveView>)
    requires
        forall|i: int| 0 <= i < ds.len() ==> !((#[trigger] ds[i]).command is Run),
    ensures
        run_invocations(ds).len() == 0,
    decreases ds.len(),
{
    if ds.len() > 0 {
        lemma_no_runs_no_instances(ds.drop_last());
    }
}

/// The fold over outcomes is short-circuiting: once an outcome decides the
/// verdict, nothing that stands after it can change it.
pub proof fn lemma_verdict_ignores_later_outcomes(outcomes: Seq<TestResultKindView>, i: int)
    requires
        0 <= i < outcomes.len(),
        forall|j: int| 0 <= j < i ==> spec_step_verdict(#[trigger] outcomes[j]) is None,
        spec_step_verdict(outcomes[i]) is Some,
    ensures
        spec_verdict_of(outcomes) == spec_step_verdict(outcomes[i]).unwrap(),
    decreases i,
{
    if i > 0 {
        let rest = outcomes.drop_first();
        assert(forall|j: int| 0 <= j < rest.len() ==> rest[j] == outcomes[j + 1]);
        lemma_verdict_ignores_later_outcomes(rest, i - 1);
    }
}

/// When every instance passes, the test passes: the fold over outcomes
/// that all say to go on is `Pass`.
pub proof fn lemma_all_pass_verdict(outcomes: Seq<TestResultKindView>)
    requires
        forall|j: int| 0 <= j < outcomes.len() ==> spec_step_verdict(#[trigger] outcomes[j]) is None,
    ensures
        spec_verdict_of(outcomes) == TestResultKindView::Pass,
    decreases outcomes.len(),
{
    if outcomes.len() > 0 {
        let rest = outcomes.drop_first();
        assert(forall|j: int| 0 <= j < rest.len() ==> rest[j] == outcomes[j + 1]);
        lemma_all_pass_verdict(rest);
    }
}

/// A non-empty test with no instances passes vacuously: the fold over zero
/// outcomes is `Pass`.
pub proof fn lemma_vacuous_pass(t: TestView)
    requires
        t.directives.len() > 0,
    ensures
        spec_test_verdict(t, Seq::empty()) == TestResultKindView::Pass,
{
}

/// A single instance-level skip promotes the whole test to a pass: a
/// collaborator skip never surfaces as the test's own verdict.
pub proof fn lemma_skip_promotes_to_pass(t: TestView)
    requires
        t.directives.len() > 0,
    ensures
        spec_test_verdict(t, seq![TestResultKindView::Skip]) == TestResultKindView::Pass,
{
    assert(seq![TestResultKindView::Skip][0] == TestResultKindView::Skip);
}

/// A single failing instance makes its message and captured stderr the
/// test's verdict, unchanged.
pub proof fn lemma_fail_adopted_unchanged(
    t: TestView,
    message: Seq<char>,
    stderr: Option<Seq<char>>,
)
    requires
        t.directives.len() > 0,
    ensures
        spec_test_verdict(t, seq![TestResultKindView::Fail { message, stderr }])
            == (TestResultKindView::Fail { message, stderr }),
{
    assert(seq![TestResultKindView::Fail { message, stderr }][0] == (TestResultKindView::Fail {
        message,
        stderr,
    }));
}

} // verus!
