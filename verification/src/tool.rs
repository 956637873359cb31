//! Tool invocations: what a `RUN` payload parses into, and the runnable
//! instance wrapping one invocation.

use vstd::prelude::*;

use crate::text::views_of;
use crate::text;

verus! {

/// What an invocation is, mathematically: an executable name and its
/// arguments.
pub struct InvocationView {
    pub executable: Seq<char>,
    pub arguments: Seq<Seq<char>>,
}

/// An external tool invocation parsed from a `RUN` payload: the first
/// whitespace-separated token names the executable, the remaining tokens
/// are its arguments.
#[derive(Debug)]
pub struct Invocation {
    pub executable: String,
    pub arguments: Vec<String>,
}

impl View for Invocation {
    type V = InvocationView;

    open spec fn view(&self) -> InvocationView {
        InvocationView { executable: self.executable@, arguments: views_of(self.arguments@) }
    }
}

/// What parsing a token sequence yields: the first token names the
/// executable; an empty sequence is rejected.
pub open spec fn spec_parse_invocation(words: Seq<Seq<char>>) -> Result<InvocationView, Seq<char>> {
    if words.len() == 0 {
        Err("expected an executable"@)
    } else {
        Ok(InvocationView { executable: words[0], arguments: words.skip(1) })
    }
}

/// Clones a vector of strings.
fn clone_strings(v: &Vec<String>) -> (r: Vec<String>)
    ensures
        r@ == v@,
{
    let mut r: Vec<String> = Vec::new();
    let mut i: usize = 0;
    proof {
        assert(v@.take(0) =~= Seq::<String>::empty());
    }
    while i < v.len()
        invariant
            0 <= i <= v@.len(),
            r@ == v@.take(i as int),
        decreases v@.len() - i,
    {
        r.push(v[i].clone());
        proof {
            assert(v@.take(i as int).push(v@[i as int]) =~= v@.take(i as int + 1));
        }
        i = i + 1;
    }
    proof {
        assert(v@.take(v@.len() as int) =~= v@);
    }
    r
}

impl Invocation {
    /// Parses the whitespace-split tokens of a `RUN` payload.
    pub fn parse(words: Vec<String>) -> (r: Result<Invocation, String>)
        ensures
            match r {
                Ok(inv) => spec_parse_invocation(views_of(words@)) == Ok::<
                    InvocationView,
                    Seq<char>,
                >(inv@),
                Err(e) => spec_parse_invocation(views_of(words@)) == Err::<
                    InvocationView,
                    Seq<char>,
                >(e@),
            },
    {
        let ghost w0 = words@;
        let mut words = words;
        if words.len() == 0 {
            Err(String::from_str("expected an executable"))
        } else {
            let executable = words.remove(0);
            let inv = Invocation { executable, arguments: words };
            proof {
                assert(views_of(inv.arguments@) =~= views_of(w0).skip(1));
            }
            Ok(inv)
        }
    }
}

impl Clone for Invocation {
    fn clone(&self) -> (r: Self)
        ensures
            r@ == self@,
    {
        Invocation { executable: self.executable.clone(), arguments: clone_strings(
            &self.arguments,
        ) }
    }
}

impl PartialEq for Invocation {
    fn eq(&self, other: &Invocation) -> (r: bool) {
        if !text::str_eq(self.executable.as_str(), other.executable.as_str()) {
            return false;
        }
        if self.arguments.len() != other.arguments.len() {
            proof {
                assert(views_of(self.arguments@).len() == self.arguments@.len());
                assert(views_of(other.arguments@).len() == other.arguments@.len());
            }
            return false;
        }
        let n = self.arguments.len();
        let mut i: usize = 0;
        while i < n
            invariant
                0 <= i <= n,
                n == self.arguments@.len(),
                n == other.arguments@.len(),
                forall|j: int| 0 <= j < i ==> views_of(self.arguments@)[j] == views_of(
                    other.arguments@,
                )[j],
        decreases n - i,
        {
            if !text::str_eq(self.arguments[i].as_str(), other.arguments[i].as_str()) {
                proof {
                    assert(views_of(self.arguments@)[i as int] == self.arguments@[i as int]@);
                    assert(views_of(other.arguments@)[i as int] == other.arguments@[i as int]@);
                }
                return false;
            }
            i = i + 1;
        }
        proof {
            assert(views_of(self.arguments@) =~= views_of(other.arguments@));
        }
        true
    }
}

impl Eq for Invocation {

}

impl vstd::std_specs::cmp::PartialEqSpecImpl for Invocation {
    open spec fn obeys_eq_spec() -> bool {
        true
    }

    open spec fn eq_spec(&self, other: &Invocation) -> bool {
        self@ == other@
    }
}

/// What an instance is, mathematically: the invocation it will run.
pub struct InstanceView {
    pub invocation: InvocationView,
}

/// A runnable unit wrapping one invocation.  Executing it — spawning the
/// tool and checking its output against the directives that follow the
/// originating `RUN` line — is the runner's job; this crate only derives
/// instances from a test and folds the outcomes such a runner reports.
#[derive(Debug)]
pub struct Instance {
    pub invocation: Invocation,
}

impl View for Instance {
    type V = InstanceView;

    open spec fn view(&self) -> InstanceView {
        InstanceView { invocation: self.invocation@ }
    }
}

impl Instance {
    /// Wraps one invocation as a runnable unit.
    pub fn new(invocation: Invocation) -> (r: Instance)
        ensures
            r@.invocation == invocation@,
    {
        Instance { invocation }
    }
}

impl Clone for Instance {
    fn clone(&self) -> (r: Self)
        ensures
            r@ == self@,
    {
        Instance { invocation: self.invocation.clone() }
    }
}

} // verus!
