use build_exact::buildinfo::{BuildCommand, BuildInfo, TestCommand};
use build_exact::dag::BuildDag;
use build_exact::deno::{DenoInfo, DenoInfoModule};
use build_exact::error::BuildError;
use build_exact::paths::{check_path, ensure_absolute_normalised_paths, PathStatus};
use build_exact::sandbox::{build_command_argv, test_command_argv};
use build_exact::schedule::{command_verdict, execution_order, Scheduler, Verdict};
use build_exact::target::Target;
use build_exact::uptodate::rerun_necessary;

fn strs(v: &[&str]) -> Vec<String> {
    v.iter().map(|s| s.to_string()).collect()
}

fn build(cmd: &[&str], inputs: &[&str], outputs: &[&str]) -> BuildCommand {
    BuildCommand {
        command: strs(cmd),
        inputs: strs(inputs),
        outputs: strs(outputs),
        working_dir: "/".to_string(),
        env: Vec::new(),
    }
}

fn test_cmd(cmd: &[&str], inputs: &[&str]) -> TestCommand {
    TestCommand {
        command: strs(cmd),
        inputs: strs(inputs),
        working_dir: "/".to_string(),
        env: Vec::new(),
    }
}

fn info(commands: Vec<BuildCommand>, tests: Vec<(String, TestCommand)>, dirs: &[&str]) -> BuildInfo {
    BuildInfo { commands, tests, sandboxed_dirs: strs(dirs) }
}

fn selected_of(dag: &BuildDag, target: &Target) -> Vec<bool> {
    let mut to = vec![false; dag.num_nodes()];
    dag.add_target_commands(target, &mut to).unwrap();
    to
}

#[test]
fn path_validation_rejects_relative_and_noncanonical() {
    assert!(matches!(check_path("relative/path"), PathStatus::NotAbsolute));
    assert!(matches!(check_path(""), PathStatus::NotAbsolute));
    assert!(matches!(check_path("/a/../b"), PathStatus::NotCanonical));
    assert!(matches!(check_path("/a/./b"), PathStatus::NotCanonical));
    assert!(matches!(check_path("/a/b"), PathStatus::Good));
    assert!(matches!(check_path("/"), PathStatus::Good));

    let bad = info(vec![build(&["cc"], &["nope"], &["/x/o"])], vec![], &["/x"]);
    match ensure_absolute_normalised_paths(&bad) {
        Err(BuildError::PathNotAbsolute(p)) => assert_eq!(p, "nope"),
        other => panic!("expected PathNotAbsolute, got {:?}", other.is_ok()),
    }
}

#[test]
fn up_to_date_skip() {
    // One command `cp /a/in /a/out`; out newer than in: zero invocations.
    let desc = info(
        vec![build(&["cp", "/a/in", "/a/out"], &["/a/in"], &["/a/out"])],
        vec![],
        &["/a"],
    );
    let dag = BuildDag::new(&desc).unwrap();
    let sel = selected_of(&dag, &Target::parse("output:/a/out").unwrap());
    assert_eq!(sel, vec![true]);
    // mtime(out) > mtime(in): the command is skipped.
    assert!(!rerun_necessary(&vec![Some(200)], &vec![Some(100)]));
}

#[test]
fn rebuild_on_input_change() {
    // Same description; in newer than out: exactly one invocation.
    let desc = info(
        vec![build(&["cp", "/a/in", "/a/out"], &["/a/in"], &["/a/out"])],
        vec![],
        &["/a"],
    );
    let dag = BuildDag::new(&desc).unwrap();
    let sel = selected_of(&dag, &Target::parse("output:/a/out").unwrap());
    let order = execution_order(&dag, &sel);
    assert_eq!(order.len(), 1);
    assert!(rerun_necessary(&vec![Some(100)], &vec![Some(200)]));
}

#[test]
fn mtime_ties_and_missing_files() {
    // A tie counts as up to date.
    assert!(!rerun_necessary(&vec![Some(5)], &vec![Some(5)]));
    // A missing output or input forces re-execution.
    assert!(rerun_necessary(&vec![None], &vec![Some(1)]));
    assert!(rerun_necessary(&vec![Some(5)], &vec![None]));
    // A command with no declared outputs always runs.
    assert!(rerun_necessary(&vec![], &vec![]));
    // No inputs but outputs present: up to date.
    assert!(!rerun_necessary(&vec![Some(1)], &vec![]));
}

#[test]
fn cycle_rejection() {
    // A produces /x/1 from /x/2; B produces /x/2 from /x/1.
    let desc = info(
        vec![
            build(&["a"], &["/x/2"], &["/x/1"]),
            build(&["b"], &["/x/1"], &["/x/2"]),
        ],
        vec![],
        &["/x"],
    );
    match BuildDag::new(&desc) {
        Err(BuildError::CyclicGraph) => {}
        _ => panic!("expected CyclicGraph"),
    }
    assert_eq!(BuildError::CyclicGraph.message(), "Build graph is cyclic");
}

#[test]
fn duplicate_output() {
    let desc = info(
        vec![
            build(&["a"], &[], &["/x/out"]),
            build(&["b"], &[], &["/x/out"]),
        ],
        vec![],
        &["/x"],
    );
    match BuildDag::new(&desc) {
        Err(BuildError::DuplicateOutput(f)) => {
            assert_eq!(f, "/x/out");
            let msg = BuildError::DuplicateOutput(f).message();
            assert_eq!(
                msg,
                "File '/x/out' is specified as the output of more than one command."
            );
        }
        _ => panic!("expected DuplicateOutput"),
    }
}

#[test]
fn transitive_test_selection() {
    // A: /b/mid from /b/src; B: /b/final from /b/mid; test T reads /b/final.
    // Target `test_dependencies:/b/src` selects {A, B, T}.
    let desc = info(
        vec![
            build(&["a"], &["/b/src"], &["/b/mid"]),
            build(&["b"], &["/b/mid"], &["/b/final"]),
        ],
        vec![("T".to_string(), test_cmd(&["t"], &["/b/final"]))],
        &["/b"],
    );
    let dag = BuildDag::new(&desc).unwrap();
    let sel = selected_of(&dag, &Target::parse("test_dependencies:/b/src").unwrap());
    assert_eq!(sel, vec![true, true, true]);
}

#[test]
fn output_all_excludes_tests() {
    let desc = info(
        vec![
            build(&["a"], &[], &["/x/1"]),
            build(&["b"], &["/x/1"], &["/x/2"]),
        ],
        vec![("T".to_string(), test_cmd(&["t"], &["/x/2"]))],
        &["/x"],
    );
    let dag = BuildDag::new(&desc).unwrap();
    let sel = selected_of(&dag, &Target::parse("output_all").unwrap());
    // Both build commands run; the test does not.
    assert_eq!(sel, vec![true, true, false]);
    let order = execution_order(&dag, &sel);
    assert_eq!(order, vec![0, 1]);
}

#[test]
fn test_all_is_not_output_all() {
    // An output no test depends on is excluded by test_all.
    let desc = info(
        vec![
            build(&["a"], &[], &["/x/tested"]),
            build(&["b"], &[], &["/x/untested"]),
        ],
        vec![("T".to_string(), test_cmd(&["t"], &["/x/tested"]))],
        &["/x"],
    );
    let dag = BuildDag::new(&desc).unwrap();
    let sel = selected_of(&dag, &Target::parse("test_all").unwrap());
    assert_eq!(sel, vec![true, false, true]);
}

#[test]
fn execution_order_respects_dependencies() {
    // Chain 0 -> 1 -> 2 plus independent 3; producers always run first.
    let desc = info(
        vec![
            build(&["a"], &[], &["/x/1"]),
            build(&["b"], &["/x/1"], &["/x/2"]),
            build(&["c"], &["/x/2"], &["/x/3"]),
            build(&["d"], &[], &["/x/4"]),
        ],
        vec![],
        &["/x"],
    );
    let dag = BuildDag::new(&desc).unwrap();
    let sel = selected_of(&dag, &Target::parse("output_all").unwrap());
    let order = execution_order(&dag, &sel);
    assert_eq!(order.len(), 4);
    let pos = |v: usize| order.iter().position(|&x| x == v).unwrap();
    assert!(pos(0) < pos(1));
    assert!(pos(1) < pos(2));
}

#[test]
fn scheduler_hands_out_ready_nodes_only() {
    let desc = info(
        vec![
            build(&["a"], &[], &["/x/1"]),
            build(&["b"], &["/x/1"], &["/x/2"]),
        ],
        vec![],
        &["/x"],
    );
    let dag = BuildDag::new(&desc).unwrap();
    let sel = selected_of(&dag, &Target::parse("output_all").unwrap());
    let mut sched = Scheduler::new(&dag, &sel);
    let first = sched.next_ready(&dag).unwrap();
    assert_eq!(first, 0);
    sched.complete(&dag, first);
    let second = sched.next_ready(&dag).unwrap();
    assert_eq!(second, 1);
    sched.complete(&dag, second);
    assert!(sched.next_ready(&dag).is_none());
    assert!(!sched.unfinished_exists(&dag));
}

#[test]
fn test_failure_does_not_abort() {
    // A test's non-zero exit is reported but never stops the run.
    assert!(matches!(command_verdict(true, false), Verdict::Continue));
    assert!(matches!(command_verdict(true, true), Verdict::Continue));
    assert!(matches!(command_verdict(false, true), Verdict::Continue));
    // A failing build command is fatal.
    assert!(matches!(command_verdict(false, false), Verdict::Abort));
}

#[test]
fn unknown_targets_are_rejected() {
    assert!(matches!(Target::parse("output_all"), Ok(Target::AllOutputs)));
    assert!(matches!(Target::parse("test_all"), Ok(Target::AllTests)));
    match Target::parse("output:/a/b") {
        Ok(Target::Output(p)) => assert_eq!(p, "/a/b"),
        _ => panic!("expected Output"),
    }
    match Target::parse("test:name") {
        Ok(Target::Test(t)) => assert_eq!(t, "name"),
        _ => panic!("expected Test"),
    }
    assert!(matches!(
        Target::parse("output_dependencies:/a"),
        Ok(Target::OutputsThatDependOnFile(_))
    ));
    assert!(matches!(
        Target::parse("test_dependencies:/a"),
        Ok(Target::TestsThatDependOnFile(_))
    ));
    assert!(matches!(
        Target::parse("bogus"),
        Err(BuildError::UnknownTargetKind(_))
    ));
    assert!(matches!(
        Target::parse("output_all:x"),
        Err(BuildError::UnknownTargetKind(_))
    ));
}

#[test]
fn unknown_names_fail_resolution() {
    let desc = info(vec![build(&["a"], &[], &["/x/1"])], vec![], &["/x"]);
    let dag = BuildDag::new(&desc).unwrap();
    let mut to = vec![false; dag.num_nodes()];
    assert!(matches!(
        dag.add_target_commands(&Target::parse("output:/x/zzz").unwrap(), &mut to),
        Err(BuildError::NoProducer(_))
    ));
    assert!(matches!(
        dag.add_target_commands(&Target::parse("test:zzz").unwrap(), &mut to),
        Err(BuildError::UnknownTest(_))
    ));
    assert!(matches!(
        dag.add_target_commands(&Target::parse("output_dependencies:/x/zzz").unwrap(), &mut to),
        Err(BuildError::NoConsumer(_))
    ));
}

#[test]
fn output_dependencies_selects_downstream_builds() {
    // 0 produces /x/1 from source /x/0; 1 consumes /x/1; a test also
    // consumes /x/1 but is not selected by output_dependencies.
    let desc = info(
        vec![
            build(&["a"], &["/x/0"], &["/x/1"]),
            build(&["b"], &["/x/1"], &["/x/2"]),
        ],
        vec![("T".to_string(), test_cmd(&["t"], &["/x/1"]))],
        &["/x"],
    );
    let dag = BuildDag::new(&desc).unwrap();
    let sel = selected_of(&dag, &Target::parse("output_dependencies:/x/1").unwrap());
    assert_eq!(sel, vec![true, true, false]);
}

#[test]
fn sandbox_argv_wraps_command() {
    let c = build(&["cc", "-o", "/a/out"], &["/a/in"], &["/a/out"]);
    let argv = build_command_argv(&c, &strs(&["/a"]), false).unwrap();
    assert_eq!(
        argv,
        strs(&[
            "sandbox", "--sandbox", "/a", "--allow-read", "/a/in", "--allow-write", "/a/out",
            "--", "cc", "-o", "/a/out",
        ])
    );
    let plain = build_command_argv(&c, &strs(&["/a"]), true).unwrap();
    assert_eq!(plain, strs(&["cc", "-o", "/a/out"]));

    let t = test_cmd(&["check", "/a/out"], &["/a/out"]);
    let targv = test_command_argv(&t, &strs(&["/a"]), false).unwrap();
    assert_eq!(
        targv,
        strs(&["sandbox", "--sandbox", "/a", "--allow-read", "/a/out", "--", "check", "/a/out"])
    );

    let empty = build(&[], &[], &[]);
    assert!(matches!(
        build_command_argv(&empty, &strs(&[]), false),
        Err(BuildError::EmptyCommand)
    ));
}

#[test]
fn checksum_concat() {
    let mk = |sum: &str| DenoInfoModule {
        specifier: String::new(),
        dependencies: Vec::new(),
        size: 0,
        media_type: String::new(),
        local: String::new(),
        checksum: sum.to_string(),
        emit: String::new(),
    };
    let di = DenoInfo {
        root: "/r".to_string(),
        size: 0,
        modules: vec![mk("ab"), mk("cd")],
    };
    assert_eq!(build_exact::deno::concat_module_checksums(&di), "abcd");
}
