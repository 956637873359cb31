//! The aggregate: many tests run together, and the collected verdicts.

use vstd::prelude::*;

use crate::test::Test;
use crate::test::TestResult;
use crate::test::TestResultKind;
use crate::test::TestResultView;
use crate::test::TestView;
use crate::test::kind_views;
use crate::test::run_invocations;
use crate::test::spec_test_verdict;
use crate::text::views_of;

verus! {

/// What a context is, mathematically.
pub struct ContextView {
    pub exec_search_dirs: Seq<Seq<char>>,
    pub tests: Seq<TestView>,
}

/// The views of a sequence of tests.
pub open spec fn test_views(s: Seq<Test>) -> Seq<TestView> {
    s.map_values(|t: Test| t@)
}

/// The views of a sequence of test results.
pub open spec fn result_views(s: Seq<TestResult>) -> Seq<TestResultView> {
    s.map_values(|r: TestResult| r@)
}

/// An ordered collection of tests plus the shared executable-search
/// configuration.
#[derive(Debug, PartialEq, Eq)]
pub struct Context {
    pub exec_search_dirs: Vec<String>,
    pub tests: Vec<Test>,
}

impl View for Context {
    type V = ContextView;

    open spec fn view(&self) -> ContextView {
        ContextView {
            exec_search_dirs: views_of(self.exec_search_dirs@),
            tests: test_views(self.tests@),
        }
    }
}

impl Context {
    /// The empty aggregate.
    pub fn new() -> (r: Self)
        ensures
            r@.exec_search_dirs == Seq::<Seq<char>>::empty(),
            r@.tests == Seq::<TestView>::empty(),
    {
        let r = Context { exec_search_dirs: Vec::new(), tests: Vec::new() };
        proof {
            assert(views_of(r.exec_search_dirs@) =~= Seq::<Seq<char>>::empty());
            assert(test_views(r.tests@) =~= Seq::<TestView>::empty());
        }
        r
    }

    /// Appends a test, handing the aggregate back for chaining.
    pub fn test(self, test: Test) -> (r: Self)
        ensures
            r@.tests == self@.tests.push(test@),
            r@.exec_search_dirs == self@.exec_search_dirs,
    {
        let ghost prev = self.tests@;
        let ghost t0 = test@;
        let mut s = self;
        s.tests.push(test);
        proof {
            assert(test_views(s.tests@) =~= test_views(prev).push(t0));
        }
        s
    }

    /// Appends a directory to the shared executable-search list, in place.
    pub fn add_search_dir(&mut self, dir: String)
        ensures
            final(self)@.exec_search_dirs == old(self)@.exec_search_dirs.push(dir@),
            final(self)@.tests == old(self)@.tests,
    {
        let ghost prev = self.exec_search_dirs@;
        let ghost d0 = dir@;
        self.exec_search_dirs.push(dir);
        proof {
            assert(views_of(self.exec_search_dirs@) =~= views_of(prev).push(d0));
        }
    }

    /// Runs every owned test independently, in declaration order: hands
    /// each test the outcomes its instances reported and collects the
    /// verdicts, the i-th result belonging to the i-th test.
    pub fn run(&self, outcomes: &Vec<Vec<TestResultKind>>) -> (r: Results)
        requires
            outcomes@.len() == self@.tests.len(),
            forall|i: int|
                0 <= i < outcomes@.len() ==> (#[trigger] outcomes@[i])@.len() == run_invocations(
                    self@.tests[i].directives,
                ).len(),
        ensures
            r@.len() == self@.tests.len(),
            forall|i: int|
                0 <= i < r@.len() ==> (#[trigger] r@[i]).path == self@.tests[i].path && r@[i].kind
                    == spec_test_verdict(self@.tests[i], kind_views(outcomes@[i]@)),
    {
        let mut test_results: Vec<TestResult> = Vec::new();
        let mut i: usize = 0;
        while i < self.tests.len()
            invariant
                0 <= i <= self.tests@.len(),
                outcomes@.len() == self.tests@.len(),
                forall|j: int|
                    0 <= j < outcomes@.len() ==> (#[trigger] outcomes@[j])@.len()
                        == run_invocations(test_views(self.tests@)[j].directives).len(),
                test_results@.len() == i,
                forall|j: int|
                    0 <= j < i ==> (#[trigger] test_results@[j])@.path == test_views(
                        self.tests@,
                    )[j].path && test_results@[j]@.kind == spec_test_verdict(
                        test_views(self.tests@)[j],
                        kind_views(outcomes@[j]@),
                    ),
            decreases self.tests@.len() - i,
        {
            proof {
                assert(test_views(self.tests@)[i as int] == self.tests@[i as int]@);
            }
            let tr = self.tests[i].run(&outcomes[i]);
            test_results.push(tr);
            i = i + 1;
        }
        let r = Results { test_results };
        proof {
            assert(result_views(r.test_results@).len() == self.tests@.len());
            assert(forall|j: int|
                0 <= j < r@.len() ==> result_views(r.test_results@)[j] == r.test_results@[j]@);
        }
        r
    }
}

impl Clone for Context {
    fn clone(&self) -> (r: Self)
        ensures
            r@ == self@,
    {
        let mut exec_search_dirs: Vec<String> = Vec::new();
        let mut i: usize = 0;
        proof {
            assert(exec_search_dirs@ =~= self.exec_search_dirs@.take(0));
        }
        while i < self.exec_search_dirs.len()
            invariant
                0 <= i <= self.exec_search_dirs@.len(),
                exec_search_dirs@ == self.exec_search_dirs@.take(i as int),
            decreases self.exec_search_dirs@.len() - i,
        {
            exec_search_dirs.push(self.exec_search_dirs[i].clone());
            proof {
                assert(exec_search_dirs@ =~= self.exec_search_dirs@.take(i as int + 1));
            }
            i = i + 1;
        }
        proof {
            assert(self.exec_search_dirs@.take(self.exec_search_dirs@.len() as int)
                =~= self.exec_search_dirs@);
        }
        let mut tests: Vec<Test> = Vec::new();
        let mut j: usize = 0;
        proof {
            assert(test_views(tests@) =~= test_views(self.tests@.take(0)));
        }
        while j < self.tests.len()
            invariant
                0 <= j <= self.tests@.len(),
                test_views(tests@) == test_views(self.tests@.take(j as int)),
            decreases self.tests@.len() - j,
        {
            let ghost prev = tests@;
            let t = self.tests[j].clone();
            let ghost t0 = t@;
            tests.push(t);
            proof {
                assert(test_views(tests@) =~= test_views(prev).push(t0));
                assert(test_views(prev).push(t0) =~= test_views(self.tests@.take(j as int + 1)));
            }
            j = j + 1;
        }
        proof {
            assert(self.tests@.take(self.tests@.len() as int) =~= self.tests@);
        }
        Context { exec_search_dirs, tests }
    }
}

/// The collected per-test verdicts, in context order: read-only once built.
#[derive(Debug)]
pub struct Results {
    test_results: Vec<TestResult>,
}

impl View for Results {
    type V = Seq<TestResultView>;

    closed spec fn view(&self) -> Seq<TestResultView> {
        result_views(self.test_results@)
    }
}

impl Results {
    /// The collected results, in order.
    pub fn test_results(&self) -> (r: &Vec<TestResult>)
        ensures
            result_views(r@) == self@,
    {
        &self.test_results
    }

    /// The collected results, in order.
    pub fn iter(&self) -> (r: &Vec<TestResult>)
        ensures
            result_views(r@) == self@,
    {
        self.test_results()
    }
}

} // verus!
