//! Directive-driven test harness core.
//!
//! Test intent is written as marker lines (`RUN:`, `CHECK:`, `CHECK-NEXT:`,
//! `XFAIL:`) inside otherwise ordinary text files.  This crate parses such
//! lines into a typed directive sequence, derives the ordered list of
//! runnable instances, and folds the sequence of per-instance outcomes into
//! a single pass/fail/skip verdict per test, plus the aggregate that runs
//! many tests and collects their results in order.
//!
//! Actually spawning a tool and matching its output is the runner's job,
//! outside this crate: the verdict state machine here consumes the outcome
//! values such a runner reports, one per executed instance.

pub mod context;
pub mod laws;
pub mod matcher;
pub mod text;
pub mod tool;

pub use context::Context;
pub use context::Results;
pub use matcher::Matcher;
pub use test::Command;
pub use test::Directive;
pub use test::Error;
pub use test::Test;
pub use test::TestResult;
pub use test::TestResultKind;
pub use test::step_verdict;
pub use tool::Instance;
pub use tool::Invocation;
