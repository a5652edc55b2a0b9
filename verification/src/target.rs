//! Targets: the six ways of naming what to build or test, and the parser for
//! target strings of the form `kind` or `kind:argument`.

use crate::error::BuildError;
use vstd::prelude::*;
use vstd::string::*;

verus! {

/// A thing that we might want to build.
pub enum Target {
    /// Build the file (and all of its dependencies).
    Output(String),
    /// Build all output files that depend on the file (including
    /// transitively).
    OutputsThatDependOnFile(String),
    /// Build all outputs.
    AllOutputs,
    /// Run a test.
    Test(String),
    /// Run all tests that depend on the file (including transitively).
    TestsThatDependOnFile(String),
    /// Run all tests.
    AllTests,
}

/// `i` is the position of the first colon of `s`.
pub open spec fn colon_at(s: Seq<char>, i: int) -> bool {
    0 <= i < s.len() && s[i] == ':' && forall|j: int| 0 <= j < i ==> s[j] != ':'
}

/// The kind part of a target string: everything before the first colon, or
/// the whole string.
pub open spec fn spec_kind(s: Seq<char>) -> Seq<char> {
    if exists|i: int| colon_at(s, i) {
        s.subrange(0, choose|i: int| colon_at(s, i))
    } else {
        s
    }
}

/// The argument part of a target string: everything after the first colon,
/// or empty.
pub open spec fn spec_arg(s: Seq<char>) -> Seq<char> {
    if exists|i: int| colon_at(s, i) {
        s.subrange((choose|i: int| colon_at(s, i)) + 1, s.len() as int)
    } else {
        Seq::empty()
    }
}

/// Character-for-character string equality.
fn str_eq(a: &str, b: &str) -> (r: bool)
    ensures
        r == (a@ == b@),
{
    let na = a.unicode_len();
    let nb = b.unicode_len();
    if na != nb {
        return false;
    }
    let mut i: usize = 0;
    while i < na
        invariant
            a@.len() == na,
            b@.len() == na,
            i <= na,
            forall|j: int| 0 <= j < i ==> a@[j] == b@[j],
        decreases na - i,
    {
        if a.get_char(i) != b.get_char(i) {
            return false;
        }
        i = i + 1;
    }
    proof {
        assert(a@ =~= b@);
    }
    true
}

impl Target {
    /// Parse a target string: `kind` or `kind:argument`, split on the first
    /// colon; an absent colon is an empty argument.  Unknown kinds are
    /// rejected.
    pub fn parse(s: &str) -> (r: Result<Target, BuildError>)
        ensures
            match r {
                Ok(Target::AllOutputs) => spec_kind(s@) == "output_all"@ && spec_arg(s@)
                    =~= Seq::<char>::empty(),
                Ok(Target::AllTests) => spec_kind(s@) == "test_all"@ && spec_arg(s@)
                    =~= Seq::<char>::empty(),
                Ok(Target::Output(f)) => spec_kind(s@) == "output"@ && f@ == spec_arg(s@),
                Ok(Target::Test(t)) => spec_kind(s@) == "test"@ && t@ == spec_arg(s@),
                Ok(Target::OutputsThatDependOnFile(f)) => spec_kind(s@) == "output_dependencies"@
                    && f@ == spec_arg(s@),
                Ok(Target::TestsThatDependOnFile(f)) => spec_kind(s@) == "test_dependencies"@ && f@
                    == spec_arg(s@),
                Err(BuildError::UnknownTargetKind(t)) => t@ == s@ && !(spec_kind(s@)
                    == "output_all"@ && spec_arg(s@) =~= Seq::<char>::empty()) && !(spec_kind(s@)
                    == "test_all"@ && spec_arg(s@) =~= Seq::<char>::empty()) && spec_kind(s@)
                    != "output"@ && spec_kind(s@) != "test"@ && spec_kind(s@)
                    != "output_dependencies"@ && spec_kind(s@) != "test_dependencies"@,
                Err(_) => false,
            },
    {
        let n = s.unicode_len();
        let mut i: usize = 0;
        while i < n && s.get_char(i) != ':'
            invariant
                s@.len() == n,
                i <= n,
                forall|j: int| 0 <= j < i ==> s@[j] != ':',
            decreases n - i,
        {
            i = i + 1;
        }
        let colon: Option<usize> = if i < n {
            proof {
                assert(colon_at(s@, i as int));
            }
            Some(i)
        } else {
            None
        };
        let (kind, arg) = match colon {
            Some(c) => {
                proof {
                    assert(colon_at(s@, c as int));
                    let c2 = choose|i: int| colon_at(s@, i);
                    assert(c2 == c as int) by {
                        if c2 < c as int {
                            assert(s@[c2] != ':');
                        } else if c2 > c as int {
                            assert(s@[c as int] != ':');
                        }
                    }
                }
                (s.substring_char(0, c), s.substring_char(c + 1, n))
            }
            None => {
                proof {
                    assert(forall|i: int| !colon_at(s@, i));
                    assert(s@.subrange(0, n as int) =~= s@);
                }
                (s.substring_char(0, n), s.substring_char(n, n))
            }
        };
        proof {
            assert(kind@ == spec_kind(s@));
            assert(arg@ =~= spec_arg(s@));
        }
        if str_eq(kind, "output_all") && arg.unicode_len() == 0 {
            proof {
                assert(arg@ =~= Seq::<char>::empty());
            }
            Ok(Target::AllOutputs)
        } else if str_eq(kind, "test_all") && arg.unicode_len() == 0 {
            proof {
                assert(arg@ =~= Seq::<char>::empty());
            }
            Ok(Target::AllTests)
        } else if str_eq(kind, "output") {
            Ok(Target::Output(String::from_str(arg)))
        } else if str_eq(kind, "test") {
            Ok(Target::Test(String::from_str(arg)))
        } else if str_eq(kind, "output_dependencies") {
            Ok(Target::OutputsThatDependOnFile(String::from_str(arg)))
        } else if str_eq(kind, "test_dependencies") {
            Ok(Target::TestsThatDependOnFile(String::from_str(arg)))
        } else {
            proof {
                if spec_arg(s@) =~= Seq::<char>::empty() {
                    assert(arg@.len() == 0);
                }
            }
            Err(BuildError::UnknownTargetKind(String::from_str(s)))
        }
    }
}

} // verus!
