use build_bridge::binder::{Binder, Decision, NodeState};
use build_bridge::bridge::{begin, find_gap, finish, judge};
use build_bridge::config::{BuildConfiguration, Profile};
use build_bridge::driver::{DriverError, ProcessExit, RunLog};
use build_bridge::error::BridgeError;
use build_bridge::manifest::{ArtifactKind, ManifestError, PackageManifest};
use build_bridge::planner::{ConfigFault, Fingerprint, InvocationPlan, KeySpace, Toolchain};
use build_bridge::reader::parse_manifest;
use build_bridge::resolver::ResolveError;
use build_bridge::wire::record_line;

const HOST: &str = "x86_64-unknown-linux-gnu";
const CROSS: &str = "aarch64-unknown-linux-gnu";

fn greet() -> PackageManifest {
    parse_manifest(
        "/src/greet",
        "package greet\nfeature cli\nartifact shared-library greet\nartifact executable greet cli\n",
    )
    .unwrap()
}

fn toolchain() -> Toolchain {
    let mut t = Toolchain::new(HOST);
    t.add_target(CROSS);
    t
}

fn marks() -> Vec<Fingerprint> {
    vec![Fingerprint::new("/src/greet/manifest", 1), Fingerprint::new("/src/greet/src/lib.rs", 2)]
}

fn settle(
    binder: &mut Binder,
    manifest: &PackageManifest,
    config: &BuildConfiguration,
    plan: &InvocationPlan,
    marks: &Vec<Fingerprint>,
    log: RunLog,
    exit: ProcessExit,
    keep: usize,
) -> bool {
    let outcome = judge(manifest, config, plan, log, exit, keep);
    let present = match &outcome {
        Ok(found) => vec![true; found.len()],
        Err(_) => Vec::new(),
    };
    finish(binder, manifest.name.as_str(), plan, marks, outcome, &present)
}

fn log_of(lines: &[&str]) -> RunLog {
    let mut log = RunLog::new();
    for line in lines.iter() {
        record_line(&mut log, line);
    }
    log
}

#[test]
fn greet_with_cli_binds_two_fresh_nodes() {
    let manifest = greet();
    let config = BuildConfiguration::new(Profile::Debug).feature("cli");
    let mut binder = Binder::new();
    let ticket = begin(&mut binder, &manifest, &config, &toolchain(), &marks()).unwrap();
    assert_eq!(ticket.decision, Decision::Start);
    let log = log_of(&[
        "artifact\tgreet\tshared-library\tx86_64-unknown-linux-gnu\t/out/libgreet.so",
        "artifact\tgreet\texecutable\tx86_64-unknown-linux-gnu\t/out/greet",
        "finished\tok",
    ]);
    assert!(settle(&mut binder, &manifest, &config, &ticket.plan, &marks(), log, ProcessExit::Code(0), 4));
    let found = binder.artifacts_of("greet", HOST);
    assert_eq!(found.len(), 2);
    let library = binder.get_node("greet", ArtifactKind::SharedLibrary, HOST).unwrap();
    let program = binder.get_node("greet", ArtifactKind::Executable, HOST).unwrap();
    assert_eq!(library.state, NodeState::Fresh);
    assert_eq!(program.state, NodeState::Fresh);
    assert_eq!(library.artifact.path, "/out/libgreet.so");
    assert_eq!(program.artifact.path, "/out/greet");
    assert_eq!(library.deps.len(), 2);
    assert_eq!(program.key, ticket.plan.key);
}

#[test]
fn a_failed_driver_fails_the_unit_and_creates_no_node() {
    let manifest = greet();
    let config = BuildConfiguration::new(Profile::Debug).feature("cli");
    let mut binder = Binder::new();
    let ticket = begin(&mut binder, &manifest, &config, &toolchain(), &marks()).unwrap();
    let log = log_of(&["diagnostic\terror\tundefined symbol"]);
    assert!(!settle(&mut binder, &manifest, &config, &ticket.plan, &marks(), log, ProcessExit::Code(1), 4));
    assert_eq!(binder.state_of("greet", HOST), Some(NodeState::Failed));
    match binder.failure_of("greet", HOST) {
        Some(BridgeError::Driver(DriverError::Failed { exit_code, diagnostics })) => {
            assert_eq!(*exit_code, 1);
            assert_eq!(diagnostics, &vec!["undefined symbol".to_string()]);
        }
        other => panic!("unexpected: {:?}", other),
    }
    assert!(binder.get_node("greet", ArtifactKind::SharedLibrary, HOST).is_none());
    assert!(binder.get_node("greet", ArtifactKind::Executable, HOST).is_none());
    assert!(binder.artifacts_of("greet", HOST).is_empty());
    let again = begin(&mut binder, &manifest, &config, &toolchain(), &marks()).unwrap();
    assert_eq!(again.decision, Decision::Failed);
}

#[test]
fn a_build_without_cli_binds_the_library_alone() {
    let manifest = greet();
    let config = BuildConfiguration::new(Profile::Debug);
    let mut binder = Binder::new();
    let ticket = begin(&mut binder, &manifest, &config, &toolchain(), &marks()).unwrap();
    let log = log_of(&[
        "artifact\tgreet\tshared-library\tx86_64-unknown-linux-gnu\t/out/libgreet.so",
        "finished\tok",
    ]);
    assert!(settle(&mut binder, &manifest, &config, &ticket.plan, &marks(), log, ProcessExit::Code(0), 4));
    assert!(binder.get_node("greet", ArtifactKind::SharedLibrary, HOST).is_some());
    assert!(binder.get_node("greet", ArtifactKind::Executable, HOST).is_none());
    assert!(binder.failure_of("greet", HOST).is_none());
}

#[test]
fn a_report_that_does_not_resolve_fails_the_unit() {
    let manifest = greet();
    let config = BuildConfiguration::new(Profile::Debug).feature("cli");
    let mut binder = Binder::new();
    let ticket = begin(&mut binder, &manifest, &config, &toolchain(), &marks()).unwrap();
    let log = log_of(&[
        "artifact\tgreet\tshared-library\tx86_64-unknown-linux-gnu\t/out/libgreet.so",
        "finished\tok",
    ]);
    assert!(!settle(&mut binder, &manifest, &config, &ticket.plan, &marks(), log, ProcessExit::Code(0), 4));
    assert!(matches!(
        binder.failure_of("greet", HOST),
        Some(BridgeError::Artifact(ResolveError::Missing { kind: ArtifactKind::Executable, .. }))
    ));
    assert!(binder.get_node("greet", ArtifactKind::SharedLibrary, HOST).is_none());
}

#[test]
fn two_events_for_the_library_fail_the_unit_as_ambiguous() {
    let manifest = greet();
    let config = BuildConfiguration::new(Profile::Debug);
    let mut binder = Binder::new();
    let ticket = begin(&mut binder, &manifest, &config, &toolchain(), &marks()).unwrap();
    let log = log_of(&[
        "artifact\tgreet\tshared-library\tx86_64-unknown-linux-gnu\t/out/a/libgreet.so",
        "artifact\tgreet\tshared-library\tx86_64-unknown-linux-gnu\t/out/b/libgreet.so",
        "finished\tok",
    ]);
    assert!(!settle(&mut binder, &manifest, &config, &ticket.plan, &marks(), log, ProcessExit::Code(0), 4));
    let failure = binder.failure_of("greet", HOST).unwrap();
    assert_eq!(failure.name(), "ArtifactAmbiguous");
}

#[test]
fn calling_twice_with_unchanged_fingerprints_runs_the_driver_once() {
    let manifest = greet();
    let config = BuildConfiguration::new(Profile::Debug);
    let mut binder = Binder::new();
    let mut runs = 0;
    for _ in 0..2 {
        let ticket = begin(&mut binder, &manifest, &config, &toolchain(), &marks()).unwrap();
        if ticket.decision == Decision::Start {
            runs += 1;
            let log = log_of(&["artifact\tgreet\tshared-library\tx86_64-unknown-linux-gnu\t/out/libgreet.so"]);
            settle(&mut binder, &manifest, &config, &ticket.plan, &marks(), log, ProcessExit::Code(0), 4);
        } else {
            assert_eq!(ticket.decision, Decision::Reuse);
        }
    }
    assert_eq!(runs, 1);
    let changed = vec![Fingerprint::new("/src/greet/manifest", 1), Fingerprint::new("/src/greet/src/lib.rs", 3)];
    let ticket = begin(&mut binder, &manifest, &config, &toolchain(), &changed).unwrap();
    assert_eq!(ticket.decision, Decision::Start);
}

#[test]
fn two_requests_at_once_share_one_run() {
    let manifest = greet();
    let config = BuildConfiguration::new(Profile::Debug);
    let mut binder = Binder::new();
    let first = begin(&mut binder, &manifest, &config, &toolchain(), &marks()).unwrap();
    let second = begin(&mut binder, &manifest, &config, &toolchain(), &marks()).unwrap();
    assert_eq!(first.decision, Decision::Start);
    assert_eq!(second.decision, Decision::Join);
    assert_eq!(first.plan.key, second.plan.key);
    let log = log_of(&["artifact\tgreet\tshared-library\tx86_64-unknown-linux-gnu\t/out/libgreet.so"]);
    assert!(settle(&mut binder, &manifest, &config, &first.plan, &marks(), log, ProcessExit::Code(0), 4));
    let seen_by_first = binder.artifacts_of("greet", first.plan.triple.as_str());
    let seen_by_second = binder.artifacts_of("greet", second.plan.triple.as_str());
    assert_eq!(seen_by_first.len(), 1);
    assert_eq!(seen_by_second.len(), 1);
    assert_eq!(seen_by_first[0].path, seen_by_second[0].path);
}

#[test]
fn host_tool_and_cross_build_give_two_nodes() {
    let manifest = greet();
    let host = BuildConfiguration::new(Profile::Debug).target(CROSS).host_tool(true);
    let cross = BuildConfiguration::new(Profile::Debug).target(CROSS);
    let mut binder = Binder::new();
    let host_ticket = begin(&mut binder, &manifest, &host, &toolchain(), &marks()).unwrap();
    let cross_ticket = begin(&mut binder, &manifest, &cross, &toolchain(), &marks()).unwrap();
    assert_eq!(host_ticket.decision, Decision::Start);
    assert_eq!(cross_ticket.decision, Decision::Start);
    assert_eq!(host_ticket.plan.key.space, KeySpace::Host);
    assert_eq!(cross_ticket.plan.key.space, KeySpace::Target);
    assert_ne!(host_ticket.plan.key, cross_ticket.plan.key);
    let host_log = log_of(&["artifact\tgreet\tshared-library\tx86_64-unknown-linux-gnu\t/out/host/libgreet.so"]);
    let cross_log = log_of(&["artifact\tgreet\tshared-library\taarch64-unknown-linux-gnu\t/out/cross/libgreet.so"]);
    assert!(settle(&mut binder, &manifest, &host, &host_ticket.plan, &marks(), host_log, ProcessExit::Code(0), 4));
    assert!(settle(&mut binder, &manifest, &cross, &cross_ticket.plan, &marks(), cross_log, ProcessExit::Code(0), 4));
    let a = binder.get_node("greet", ArtifactKind::SharedLibrary, HOST).unwrap();
    let b = binder.get_node("greet", ArtifactKind::SharedLibrary, CROSS).unwrap();
    assert_eq!(a.artifact.path, "/out/host/libgreet.so");
    assert_eq!(b.artifact.path, "/out/cross/libgreet.so");
    assert_eq!(a.state, NodeState::Fresh);
    assert_eq!(b.state, NodeState::Fresh);
    assert_eq!(binder.len(), 2);
}

#[test]
fn a_faulty_configuration_touches_no_unit() {
    let manifest = greet();
    let config = BuildConfiguration::new(Profile::Debug).feature("gui");
    let mut binder = Binder::new();
    match begin(&mut binder, &manifest, &config, &toolchain(), &marks()) {
        Err(ConfigFault::UndeclaredFeature(name)) => assert_eq!(name, "gui"),
        other => panic!("unexpected: {:?}", other),
    }
    assert_eq!(binder.len(), 0);
}

#[test]
fn a_driver_that_cannot_start_or_times_out_fails_the_unit() {
    let manifest = greet();
    let config = BuildConfiguration::new(Profile::Debug);
    let mut binder = Binder::new();
    let ticket = begin(&mut binder, &manifest, &config, &toolchain(), &marks()).unwrap();
    assert!(!settle(&mut binder, &manifest, &config, &ticket.plan, &marks(), RunLog::new(), ProcessExit::NotStarted, 4));
    assert_eq!(binder.failure_of("greet", HOST).unwrap().name(), "DriverUnavailable");
    let changed = vec![Fingerprint::new("/src/greet/manifest", 9)];
    let ticket = begin(&mut binder, &manifest, &config, &toolchain(), &changed).unwrap();
    assert_eq!(ticket.decision, Decision::Start);
    assert!(!settle(&mut binder, &manifest, &config, &ticket.plan, &changed, RunLog::new(), ProcessExit::TimedOut, 4));
    assert_eq!(binder.failure_of("greet", HOST).unwrap().name(), "DriverTimeout");
}

#[test]
fn every_error_has_its_name() {
    let d = "/d".to_string();
    let cases: Vec<(BridgeError, &str)> = vec![
        (BridgeError::Manifest(ManifestError::NotFound { directory: d.clone() }), "ManifestNotFound"),
        (
            BridgeError::Manifest(ManifestError::Parse { directory: d.clone(), line: 1, column: 1 }),
            "ManifestParseError",
        ),
        (BridgeError::Manifest(ManifestError::Cycle { directory: d.clone() }), "WorkspaceCycle"),
        (BridgeError::Configuration(ConfigFault::UnknownProfile(d.clone())), "InvalidConfiguration"),
        (BridgeError::Configuration(ConfigFault::UnknownTarget(d.clone())), "InvalidConfiguration"),
        (BridgeError::Configuration(ConfigFault::UndeclaredFeature(d.clone())), "InvalidConfiguration"),
        (BridgeError::Driver(DriverError::Unavailable), "DriverUnavailable"),
        (
            BridgeError::Driver(DriverError::Failed { exit_code: 1, diagnostics: Vec::new() }),
            "DriverFailed",
        ),
        (BridgeError::Driver(DriverError::Timeout), "DriverTimeout"),
        (
            BridgeError::Artifact(ResolveError::Missing {
                package: d.clone(),
                kind: ArtifactKind::Executable,
                name: d.clone(),
                triple: d.clone(),
            }),
            "ArtifactMissing",
        ),
        (
            BridgeError::Artifact(ResolveError::Ambiguous {
                package: d.clone(),
                kind: ArtifactKind::Executable,
                name: d.clone(),
                triple: d.clone(),
                first: d.clone(),
                second: d.clone(),
            }),
            "ArtifactAmbiguous",
        ),
    ];
    for (error, name) in cases.iter() {
        assert_eq!(error.name(), *name);
    }
}

#[test]
fn a_file_that_is_not_on_disk_fails_the_unit() {
    let manifest = greet();
    let config = BuildConfiguration::new(Profile::Debug).feature("cli");
    let mut binder = Binder::new();
    let ticket = begin(&mut binder, &manifest, &config, &toolchain(), &marks()).unwrap();
    let log = log_of(&[
        "artifact\tgreet\tshared-library\tx86_64-unknown-linux-gnu\t/out/libgreet.so",
        "artifact\tgreet\texecutable\tx86_64-unknown-linux-gnu\t/out/greet",
    ]);
    let outcome = judge(&manifest, &config, &ticket.plan, log, ProcessExit::Code(0), 4);
    assert_eq!(outcome.as_ref().unwrap().len(), 2);
    assert!(!finish(&mut binder, "greet", &ticket.plan, &marks(), outcome, &vec![true, false]));
    assert_eq!(binder.state_of("greet", HOST), Some(NodeState::Failed));
    match binder.failure_of("greet", HOST) {
        Some(BridgeError::Artifact(ResolveError::Missing { package, kind, name, triple })) => {
            assert_eq!(package, "greet");
            assert_eq!(*kind, ArtifactKind::Executable);
            assert_eq!(name, "greet");
            assert_eq!(triple, HOST);
        }
        other => panic!("unexpected: {:?}", other),
    }
    assert!(binder.get_node("greet", ArtifactKind::SharedLibrary, HOST).is_none());
}

#[test]
fn a_file_that_was_not_looked_for_counts_as_absent() {
    let manifest = greet();
    let config = BuildConfiguration::new(Profile::Debug);
    let mut binder = Binder::new();
    let ticket = begin(&mut binder, &manifest, &config, &toolchain(), &marks()).unwrap();
    let log = log_of(&["artifact\tgreet\tshared-library\tx86_64-unknown-linux-gnu\t/out/libgreet.so"]);
    let outcome = judge(&manifest, &config, &ticket.plan, log, ProcessExit::Code(0), 4);
    assert!(!finish(&mut binder, "greet", &ticket.plan, &marks(), outcome, &Vec::new()));
    assert_eq!(binder.failure_of("greet", HOST).unwrap().name(), "ArtifactMissing");
}

#[test]
fn finish_without_a_build_in_flight_changes_nothing() {
    let manifest = greet();
    let config = BuildConfiguration::new(Profile::Debug);
    let mut binder = Binder::new();
    let ticket = begin(&mut binder, &manifest, &config, &toolchain(), &marks()).unwrap();
    let mut other = Binder::new();
    let log = log_of(&["artifact\tgreet\tshared-library\tx86_64-unknown-linux-gnu\t/out/libgreet.so"]);
    let outcome = judge(&manifest, &config, &ticket.plan, log, ProcessExit::Code(0), 4);
    assert!(!finish(&mut other, "greet", &ticket.plan, &marks(), outcome, &vec![true]));
    assert_eq!(other.len(), 0);
}

#[test]
fn find_gap_gives_the_first_absent_file() {
    assert_eq!(find_gap(&vec![true, true, true], 3), 3);
    assert_eq!(find_gap(&vec![true, false, false], 3), 1);
    assert_eq!(find_gap(&vec![false], 1), 0);
    assert_eq!(find_gap(&vec![true], 3), 1);
    assert_eq!(find_gap(&vec![true, true, false], 2), 2);
    assert_eq!(find_gap(&Vec::new(), 0), 0);
}
