//! Path validation: every path in a build description must be absolute and
//! canonical (no `.` or `..` components).  Violations are fatal at graph
//! construction.

use crate::buildinfo::{BuildCommand, BuildInfo, TestCommand};
use crate::error::BuildError;
use vstd::prelude::*;
use vstd::string::*;

verus! {

/// An absolute path starts with a separator.
pub open spec fn is_absolute_path(p: Seq<char>) -> bool {
    p.len() > 0 && p[0] == '/'
}

/// The characters `p[i..j]` form one whole component of the path: they are
/// bounded by separators (or by the ends of the path) and contain none.
pub open spec fn is_component_at(p: Seq<char>, i: int, j: int) -> bool {
    &&& 0 <= i <= j <= p.len()
    &&& (i == 0 || p[i - 1] == '/')
    &&& (j == p.len() || p[j] == '/')
    &&& forall|k: int| i <= k < j ==> p[k] != '/'
}

/// The component starting at `i` is `.` or `..`.
pub open spec fn forbidden_component_at(p: Seq<char>, i: int) -> bool {
    ||| (is_component_at(p, i, i + 1) && p[i] == '.')
    ||| (is_component_at(p, i, i + 2) && p[i] == '.' && p[i + 1] == '.')
}

pub open spec fn has_forbidden_component(p: Seq<char>) -> bool {
    exists|i: int| forbidden_component_at(p, i)
}

/// A path is accepted when it is absolute and canonical.
pub open spec fn path_ok(p: Seq<char>) -> bool {
    is_absolute_path(p) && !has_forbidden_component(p)
}

pub enum PathStatus {
    Good,
    NotAbsolute,
    NotCanonical,
}

/// The raw shape of a forbidden component: one dot, or two.
spec fn bad_shape(p: Seq<char>, a: int, b: int) -> bool {
    ||| (b == a + 1 && p[a] == '.')
    ||| (b == a + 2 && p[a] == '.' && p[a + 1] == '.')
}

fn component_has_bad_shape(s: &str, start: usize, end: usize) -> (r: bool)
    requires
        start <= end <= s@.len(),
    ensures
        r == bad_shape(s@, start as int, end as int),
{
    if end - start == 1 {
        s.get_char(start) == '.'
    } else if end - start == 2 {
        s.get_char(start) == '.' && s.get_char(start + 1) == '.'
    } else {
        false
    }
}

/// Classify one path: absolute and canonical, not absolute, or absolute but
/// holding a `.` or `..` component.
pub fn check_path(s: &str) -> (r: PathStatus)
    ensures
        (r is Good) == path_ok(s@),
        (r is NotAbsolute) == !is_absolute_path(s@),
        (r is NotCanonical) == (is_absolute_path(s@) && has_forbidden_component(s@)),
{
    let n = s.unicode_len();
    if n == 0 || s.get_char(0) != '/' {
        return PathStatus::NotAbsolute;
    }
    let mut start: usize = 0;
    let mut i: usize = 0;
    while i < n
        invariant
            s@.len() == n,
            is_absolute_path(s@),
            start <= i <= n,
            start == 0 || s@[start as int - 1] == '/',
            forall|k: int| start <= k < i ==> s@[k] != '/',
            forall|a: int, b: int|
                is_component_at(s@, a, b) && b < i ==> !bad_shape(s@, a, b),
        decreases n - i,
    {
        if s.get_char(i) == '/' {
            if component_has_bad_shape(s, start, i) {
                proof {
                    assert(is_component_at(s@, start as int, i as int));
                    assert(forbidden_component_at(s@, start as int));
                }
                return PathStatus::NotCanonical;
            }
            proof {
                assert forall|a: int, b: int|
                    is_component_at(s@, a, b) && b < i + 1 implies !bad_shape(s@, a, b) by {
                    if b == i {
                        // The only component ending at this separator starts
                        // at `start`.
                        if a < start as int {
                            assert(s@[start as int - 1] == '/');
                        } else if a > start as int && bad_shape(s@, a, b) {
                            assert(s@[a - 1] == '/');
                        }
                    }
                }
            }
            start = i + 1;
        }
        i = i + 1;
    }
    // The final component runs to the end of the path.
    if component_has_bad_shape(s, start, n) {
        proof {
            assert(is_component_at(s@, start as int, n as int));
            assert(forbidden_component_at(s@, start as int));
        }
        return PathStatus::NotCanonical;
    }
    proof {
        assert forall|a: int| !forbidden_component_at(s@, a) by {
            if forbidden_component_at(s@, a) {
                let b = if is_component_at(s@, a, a + 1) && s@[a] == '.' {
                    a + 1
                } else {
                    a + 2
                };
                assert(is_component_at(s@, a, b) && bad_shape(s@, a, b));
                if b == n {
                    if a < start as int {
                        assert(s@[start as int - 1] == '/');
                    } else if a > start as int {
                        assert(s@[a - 1] == '/');
                    }
                }
            }
        }
    }
    PathStatus::Good
}

fn check_one_path(s: &String) -> (r: Result<(), BuildError>)
    ensures
        r.is_ok() <==> path_ok(s@),
        match r {
            Ok(_) => path_ok(s@),
            Err(BuildError::PathNotAbsolute(p)) => p@ == s@ && !is_absolute_path(s@),
            Err(BuildError::PathNotCanonical(p)) => p@ == s@ && is_absolute_path(s@)
                && has_forbidden_component(s@),
            Err(_) => false,
        },
{
    match check_path(s.as_str()) {
        PathStatus::Good => Ok(()),
        PathStatus::NotAbsolute => Err(BuildError::PathNotAbsolute(s.clone())),
        PathStatus::NotCanonical => Err(BuildError::PathNotCanonical(s.clone())),
    }
}

pub open spec fn build_command_paths_ok(c: BuildCommand) -> bool {
    &&& forall|k: int| 0 <= k < c.inputs.len() ==> path_ok(#[trigger] c.inputs[k]@)
    &&& forall|k: int| 0 <= k < c.outputs.len() ==> path_ok(#[trigger] c.outputs[k]@)
    &&& path_ok(c.working_dir@)
}

pub open spec fn test_command_paths_ok(c: TestCommand) -> bool {
    &&& forall|k: int| 0 <= k < c.inputs.len() ==> path_ok(#[trigger] c.inputs[k]@)
    &&& path_ok(c.working_dir@)
}

/// Every path in the description is absolute and canonical.
pub open spec fn info_paths_ok(info: BuildInfo) -> bool {
    &&& forall|b: int|
        0 <= b < info.commands.len() ==> build_command_paths_ok(#[trigger] info.commands[b])
    &&& forall|t: int|
        0 <= t < info.tests.len() ==> test_command_paths_ok(#[trigger] info.tests[t].1)
    &&& forall|d: int|
        0 <= d < info.sandboxed_dirs.len() ==> path_ok(#[trigger] info.sandboxed_dirs[d]@)
}

pub open spec fn command_mentions_path(c: BuildCommand, p: Seq<char>) -> bool {
    ||| exists|k: int| 0 <= k < c.inputs.len() && #[trigger] c.inputs[k]@ == p
    ||| exists|k: int| 0 <= k < c.outputs.len() && #[trigger] c.outputs[k]@ == p
    ||| c.working_dir@ == p
}

pub open spec fn test_mentions_path(c: TestCommand, p: Seq<char>) -> bool {
    ||| exists|k: int| 0 <= k < c.inputs.len() && #[trigger] c.inputs[k]@ == p
    ||| c.working_dir@ == p
}

/// The path occurs somewhere in the description.
pub open spec fn info_mentions_path(info: BuildInfo, p: Seq<char>) -> bool {
    ||| exists|b: int|
        0 <= b < info.commands.len() && command_mentions_path(#[trigger] info.commands[b], p)
    ||| exists|t: int|
        0 <= t < info.tests.len() && test_mentions_path(#[trigger] info.tests[t].1, p)
    ||| exists|d: int| 0 <= d < info.sandboxed_dirs.len() && #[trigger] info.sandboxed_dirs[d]@ == p
}

/// Verify that every path in the description is absolute and has no `.` or
/// `..` components.  Succeeds exactly when all paths are in order; an error
/// names an offending path of the description.
pub fn ensure_absolute_normalised_paths(info: &BuildInfo) -> (r: Result<(), BuildError>)
    ensures
        r.is_ok() <==> info_paths_ok(*info),
        match r {
            Ok(_) => info_paths_ok(*info),
            Err(BuildError::PathNotAbsolute(p)) => info_mentions_path(*info, p@)
                && !is_absolute_path(p@),
            Err(BuildError::PathNotCanonical(p)) => info_mentions_path(*info, p@)
                && is_absolute_path(p@) && has_forbidden_component(p@),
            Err(_) => false,
        },
{
    let mut b: usize = 0;
    while b < info.commands.len()
        invariant
            forall|x: int| 0 <= x < b ==> build_command_paths_ok(#[trigger] info.commands[x]),
        decreases info.commands.len() - b,
    {
        let mut k: usize = 0;
        while k < info.commands[b].inputs.len()
            invariant
                0 <= b < info.commands.len(),
                forall|x: int| 0 <= x < k ==> path_ok(#[trigger] info.commands[b as int].inputs[x]@),
            decreases info.commands[b as int].inputs.len() - k,
        {
            if let Err(e) = check_one_path(&info.commands[b].inputs[k]) {
                return Err(e);
            }
            k = k + 1;
        }
        let mut k: usize = 0;
        while k < info.commands[b].outputs.len()
            invariant
                0 <= b < info.commands.len(),
                forall|x: int| 0 <= x < k ==> path_ok(#[trigger] info.commands[b as int].outputs[x]@),
            decreases info.commands[b as int].outputs.len() - k,
        {
            if let Err(e) = check_one_path(&info.commands[b].outputs[k]) {
                return Err(e);
            }
            k = k + 1;
        }
        if let Err(e) = check_one_path(&info.commands[b].working_dir) {
            return Err(e);
        }
        b = b + 1;
    }
    let mut t: usize = 0;
    while t < info.tests.len()
        invariant
            info_paths_ok_commands(*info),
            forall|x: int| 0 <= x < t ==> test_command_paths_ok(#[trigger] info.tests[x].1),
        decreases info.tests.len() - t,
    {
        let mut k: usize = 0;
        while k < info.tests[t].1.inputs.len()
            invariant
                0 <= t < info.tests.len(),
                forall|x: int| 0 <= x < k ==> path_ok(#[trigger] info.tests[t as int].1.inputs[x]@),
            decreases info.tests[t as int].1.inputs.len() - k,
        {
            if let Err(e) = check_one_path(&info.tests[t].1.inputs[k]) {
                return Err(e);
            }
            k = k + 1;
        }
        if let Err(e) = check_one_path(&info.tests[t].1.working_dir) {
            return Err(e);
        }
        t = t + 1;
    }
    let mut d: usize = 0;
    while d < info.sandboxed_dirs.len()
        invariant
            info_paths_ok_commands(*info),
            info_paths_ok_tests(*info),
            forall|x: int| 0 <= x < d ==> path_ok(#[trigger] info.sandboxed_dirs[x]@),
        decreases info.sandboxed_dirs.len() - d,
    {
        if let Err(e) = check_one_path(&info.sandboxed_dirs[d]) {
            return Err(e);
        }
        d = d + 1;
    }
    Ok(())
}

pub open spec fn info_paths_ok_commands(info: BuildInfo) -> bool {
    forall|b: int|
        0 <= b < info.commands.len() ==> build_command_paths_ok(#[trigger] info.commands[b])
}

pub open spec fn info_paths_ok_tests(info: BuildInfo) -> bool {
    forall|t: int| 0 <= t < info.tests.len() ==> test_command_paths_ok(#[trigger] info.tests[t].1)
}

} // verus!
