//! Output patterns: what a `CHECK`/`CHECK-NEXT` payload compiles to.

use vstd::prelude::*;

verus! {

/// A matchable pattern compiled from a `CHECK`/`CHECK-NEXT` payload, kept
/// as the text it renders back to.  Two patterns count as the same exactly
/// when their textual renderings are equal.
#[derive(Debug)]
pub struct Matcher {
    text: String,
}

impl View for Matcher {
    type V = Seq<char>;

    closed spec fn view(&self) -> Seq<char> {
        self.text@
    }
}

impl Matcher {
    /// Compiles a pattern from payload text; never fails.
    pub fn parse(s: &str) -> (r: Matcher)
        ensures
            r@ == s@,
    {
        Matcher { text: String::from_str(s) }
    }

    /// The textual rendering of the pattern.
    pub fn render(&self) -> (r: &String)
        ensures
            r@ == self@,
    {
        &self.text
    }
}

impl Clone for Matcher {
    fn clone(&self) -> (r: Self)
        ensures
            r@ == self@,
    {
        Matcher { text: self.text.clone() }
    }
}

} // verus!
