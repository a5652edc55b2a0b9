//! Sandbox argv rewriting.  In sandbox mode the original command is wrapped
//! in an invocation of the external `sandbox` program with a declarative
//! allow-list; in no-sandbox mode the original argv runs directly.  Tests
//! get no `--allow-write` section: they declare no outputs.

use crate::buildinfo::{BuildCommand, TestCommand};
use crate::error::BuildError;
use vstd::prelude::*;
use vstd::string::*;

verus! {

/// The views of a list of strings.
pub open spec fn views_of(v: Seq<String>) -> Seq<Seq<char>> {
    Seq::new(v.len(), |i: int| v[i]@)
}

/// The full argv of a build command: the sandbox wrapper around the
/// original command, or the original command alone.
pub open spec fn spec_build_argv(c: BuildCommand, dirs: Seq<String>, no_sandbox: bool) -> Seq<
    Seq<char>,
> {
    if no_sandbox {
        views_of(c.command@)
    } else {
        seq!["sandbox"@, "--sandbox"@] + views_of(dirs) + seq!["--allow-read"@] + views_of(
            c.inputs@,
        ) + seq!["--allow-write"@] + views_of(c.outputs@) + seq!["--"@] + views_of(c.command@)
    }
}

/// The full argv of a test command; tests have no writable outputs.
pub open spec fn spec_test_argv(c: TestCommand, dirs: Seq<String>, no_sandbox: bool) -> Seq<
    Seq<char>,
> {
    if no_sandbox {
        views_of(c.command@)
    } else {
        seq!["sandbox"@, "--sandbox"@] + views_of(dirs) + seq!["--allow-read"@] + views_of(
            c.inputs@,
        ) + seq!["--"@] + views_of(c.command@)
    }
}

fn push_all(out: &mut Vec<String>, items: &Vec<String>)
    ensures
        final(out)@.len() == old(out)@.len() + items@.len(),
        views_of(final(out)@) =~= views_of(old(out)@) + views_of(items@),
{
    let ghost base = out@;
    let mut i: usize = 0;
    while i < items.len()
        invariant
            i <= items.len(),
            out@.len() == base.len() + i,
            views_of(out@) =~= views_of(base) + views_of(items@.subrange(0, i as int)),
        decreases items.len() - i,
    {
        let ghost prev = out@;
        out.push(items[i].clone());
        proof {
            let target = views_of(base) + views_of(items@.subrange(0, i + 1));
            assert forall|j: int| 0 <= j < views_of(out@).len() implies views_of(out@)[j]
                == target[j] by {
                assert(views_of(out@)[j] == out@[j]@);
                if j < prev.len() {
                    assert(out@[j] == prev[j]);
                    assert(prev[j]@ == views_of(prev)[j]);
                    assert(views_of(prev)[j] == (views_of(base) + views_of(
                        items@.subrange(0, i as int),
                    ))[j]);
                    if j >= base.len() {
                        assert(views_of(items@.subrange(0, i as int))[j - base.len()]
                            == items@.subrange(0, i as int)[j - base.len()]@);
                        assert(items@.subrange(0, i as int)[j - base.len()] == items@[j
                            - base.len()]);
                        assert(items@.subrange(0, i + 1)[j - base.len()] == items@[j - base.len()]);
                    }
                } else {
                    assert(out@[j] == items@[i as int]);
                    assert(items@.subrange(0, i + 1)[j - base.len()] == items@[i as int]);
                }
            }
            assert(views_of(out@) =~= target);
        }
        i = i + 1;
    }
    proof {
        assert(items@.subrange(0, items@.len() as int) =~= items@);
    }
}

/// Build the argv for a build command.  The command must have at least one
/// token; an empty command is rejected.
pub fn build_command_argv(c: &BuildCommand, sandboxed_dirs: &Vec<String>, no_sandbox: bool) -> (r:
    Result<Vec<String>, BuildError>)
    ensures
        r.is_ok() <==> c.command@.len() > 0,
        match r {
            Ok(argv) => views_of(argv@) =~= spec_build_argv(*c, sandboxed_dirs@, no_sandbox),
            Err(BuildError::EmptyCommand) => c.command@.len() == 0,
            Err(_) => false,
        },
{
    if c.command.len() == 0 {
        return Err(BuildError::EmptyCommand);
    }
    let mut argv: Vec<String> = Vec::new();
    if no_sandbox {
        push_all(&mut argv, &c.command);
        proof {
            assert(views_of(argv@) =~= views_of(c.command@));
        }
        return Ok(argv);
    }
    argv.push(String::from_str("sandbox"));
    argv.push(String::from_str("--sandbox"));
    proof {
        assert(views_of(argv@) =~= seq!["sandbox"@, "--sandbox"@]);
    }
    push_all(&mut argv, sandboxed_dirs);
    let ghost p1 = seq!["sandbox"@, "--sandbox"@] + views_of(sandboxed_dirs@);
    argv.push(String::from_str("--allow-read"));
    proof {
        assert(views_of(argv@) =~= p1 + seq!["--allow-read"@]);
    }
    push_all(&mut argv, &c.inputs);
    let ghost p2 = p1 + seq!["--allow-read"@] + views_of(c.inputs@);
    proof {
        assert(views_of(argv@) =~= p2);
    }
    argv.push(String::from_str("--allow-write"));
    proof {
        assert(views_of(argv@) =~= p2 + seq!["--allow-write"@]);
    }
    push_all(&mut argv, &c.outputs);
    let ghost p3 = p2 + seq!["--allow-write"@] + views_of(c.outputs@);
    proof {
        assert(views_of(argv@) =~= p3);
    }
    argv.push(String::from_str("--"));
    proof {
        assert(views_of(argv@) =~= p3 + seq!["--"@]);
    }
    push_all(&mut argv, &c.command);
    proof {
        assert(views_of(argv@) =~= p3 + seq!["--"@] + views_of(c.command@));
        assert(views_of(argv@) =~= spec_build_argv(*c, sandboxed_dirs@, false));
    }
    Ok(argv)
}

/// Build the argv for a test command; there is no `--allow-write` section.
pub fn test_command_argv(c: &TestCommand, sandboxed_dirs: &Vec<String>, no_sandbox: bool) -> (r:
    Result<Vec<String>, BuildError>)
    ensures
        r.is_ok() <==> c.command@.len() > 0,
        match r {
            Ok(argv) => views_of(argv@) =~= spec_test_argv(*c, sandboxed_dirs@, no_sandbox),
            Err(BuildError::EmptyCommand) => c.command@.len() == 0,
            Err(_) => false,
        },
{
    if c.command.len() == 0 {
        return Err(BuildError::EmptyCommand);
    }
    let mut argv: Vec<String> = Vec::new();
    if no_sandbox {
        push_all(&mut argv, &c.command);
        proof {
            assert(views_of(argv@) =~= views_of(c.command@));
        }
        return Ok(argv);
    }
    argv.push(String::from_str("sandbox"));
    argv.push(String::from_str("--sandbox"));
    proof {
        assert(views_of(argv@) =~= seq!["sandbox"@, "--sandbox"@]);
    }
    push_all(&mut argv, sandboxed_dirs);
    let ghost q1 = seq!["sandbox"@, "--sandbox"@] + views_of(sandboxed_dirs@);
    argv.push(String::from_str("--allow-read"));
    proof {
        assert(views_of(argv@) =~= q1 + seq!["--allow-read"@]);
    }
    push_all(&mut argv, &c.inputs);
    let ghost q2 = q1 + seq!["--allow-read"@] + views_of(c.inputs@);
    proof {
        assert(views_of(argv@) =~= q2);
    }
    argv.push(String::from_str("--"));
    proof {
        assert(views_of(argv@) =~= q2 + seq!["--"@]);
    }
    push_all(&mut argv, &c.command);
    proof {
        assert(views_of(argv@) =~= q2 + seq!["--"@] + views_of(c.command@));
        assert(views_of(argv@) =~= spec_test_argv(*c, sandboxed_dirs@, false));
    }
    Ok(argv)
}

} // verus!
