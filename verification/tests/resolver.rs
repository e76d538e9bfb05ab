use build_bridge::driver::{BuildReport, DriverEvent, Severity};
use build_bridge::manifest::{ArtifactDeclaration, ArtifactKind, PackageManifest};
use build_bridge::predicate::Predicate;
use build_bridge::resolver::{copy_artifacts, next_artifact, resolve, ResolveError};

const T: &str = "x86_64-unknown-linux-gnu";

fn on(list: &[&str]) -> Vec<String> {
    list.iter().map(|s| s.to_string()).collect()
}

fn greet() -> PackageManifest {
    let mut m = PackageManifest::new("greet", "/src/greet");
    m.declare(ArtifactDeclaration::always(ArtifactKind::SharedLibrary, "greet"));
    m.declare(ArtifactDeclaration::gated(ArtifactKind::Executable, "greet-cli", Predicate::atom("cli")));
    m.declare_feature("cli");
    m
}

fn report(events: Vec<DriverEvent>) -> BuildReport {
    BuildReport { events }
}

#[test]
fn a_disabled_gate_yields_nothing_and_no_error() {
    let r = report(vec![
        DriverEvent::artifact("greet", ArtifactKind::SharedLibrary, "/out/libgreet.so", T),
        DriverEvent::finished(true),
    ]);
    let found = resolve(&r, &greet(), &on(&[]), T).unwrap();
    assert_eq!(found.len(), 1);
    assert_eq!(found[0].kind, ArtifactKind::SharedLibrary);
    assert_eq!(found[0].name, "greet");
    assert_eq!(found[0].package, "greet");
    assert_eq!(found[0].path, "/out/libgreet.so");
    assert_eq!(found[0].triple, T);
}

#[test]
fn an_enabled_gate_with_one_event_yields_one_artifact() {
    let r = report(vec![
        DriverEvent::artifact("greet", ArtifactKind::SharedLibrary, "/out/libgreet.so", T),
        DriverEvent::artifact("greet", ArtifactKind::Executable, "/out/greet", T),
        DriverEvent::finished(true),
    ]);
    let found = resolve(&r, &greet(), &on(&["cli"]), T).unwrap();
    assert_eq!(found.len(), 2);
    assert_eq!(found[1].kind, ArtifactKind::Executable);
    assert_eq!(found[1].name, "greet-cli");
    assert_eq!(found[1].path, "/out/greet");
}

#[test]
fn an_enabled_gate_without_event_is_missing() {
    let r = report(vec![
        DriverEvent::artifact("greet", ArtifactKind::SharedLibrary, "/out/libgreet.so", T),
    ]);
    match resolve(&r, &greet(), &on(&["cli"]), T) {
        Err(ResolveError::Missing { package, kind, name, triple }) => {
            assert_eq!(package, "greet");
            assert_eq!(kind, ArtifactKind::Executable);
            assert_eq!(name, "greet-cli");
            assert_eq!(triple, T);
        }
        other => panic!("unexpected: {:?}", other),
    }
}

#[test]
fn two_events_for_one_artifact_are_ambiguous() {
    let r = report(vec![
        DriverEvent::artifact("greet", ArtifactKind::SharedLibrary, "/out/a/libgreet.so", T),
        DriverEvent::diagnostic(Severity::Note, "again"),
        DriverEvent::artifact("greet", ArtifactKind::SharedLibrary, "/out/b/libgreet.so", T),
        DriverEvent::artifact("greet", ArtifactKind::SharedLibrary, "/out/c/libgreet.so", T),
    ]);
    match resolve(&r, &greet(), &on(&[]), T) {
        Err(ResolveError::Ambiguous { package, kind, name, triple, first, second }) => {
            assert_eq!(package, "greet");
            assert_eq!(kind, ArtifactKind::SharedLibrary);
            assert_eq!(name, "greet");
            assert_eq!(triple, T);
            assert_eq!(first, "/out/a/libgreet.so");
            assert_eq!(second, "/out/b/libgreet.so");
        }
        other => panic!("unexpected: {:?}", other),
    }
}

#[test]
fn events_of_other_packages_kinds_and_triples_do_not_match() {
    let r = report(vec![
        DriverEvent::artifact("other", ArtifactKind::SharedLibrary, "/out/libother.so", T),
        DriverEvent::artifact("greet", ArtifactKind::StaticLibrary, "/out/libgreet.a", T),
        DriverEvent::artifact("greet", ArtifactKind::SharedLibrary, "/out/arm/libgreet.so", "aarch64"),
        DriverEvent::artifact("greet", ArtifactKind::SharedLibrary, "/out/libgreet.so", T),
    ]);
    let found = resolve(&r, &greet(), &on(&[]), T).unwrap();
    assert_eq!(found.len(), 1);
    assert_eq!(found[0].path, "/out/libgreet.so");
    let arm = resolve(&r, &greet(), &on(&[]), "aarch64").unwrap();
    assert_eq!(arm[0].path, "/out/arm/libgreet.so");
    assert_eq!(arm[0].triple, "aarch64");
}

#[test]
fn the_first_declaration_that_fails_is_reported() {
    let r = report(vec![
        DriverEvent::artifact("greet", ArtifactKind::Executable, "/out/greet", T),
        DriverEvent::artifact("greet", ArtifactKind::Executable, "/out/greet2", T),
    ]);
    assert!(matches!(
        resolve(&r, &greet(), &on(&["cli"]), T),
        Err(ResolveError::Missing { kind: ArtifactKind::SharedLibrary, .. })
    ));
}

#[test]
fn a_manifest_without_artifacts_resolves_to_nothing() {
    let m = PackageManifest::new("empty", "/src/empty");
    let r = report(vec![DriverEvent::artifact("empty", ArtifactKind::Executable, "/out/e", T)]);
    assert!(resolve(&r, &m, &on(&[]), T).unwrap().is_empty());
    assert!(matches!(
        resolve(&report(Vec::new()), &greet(), &on(&[]), T),
        Err(ResolveError::Missing { .. })
    ));
}

#[test]
fn next_artifact_finds_matches_in_order() {
    let events = vec![
        DriverEvent::finished(true),
        DriverEvent::artifact("greet", ArtifactKind::Executable, "/out/1", T),
        DriverEvent::artifact("greet", ArtifactKind::SharedLibrary, "/out/2", T),
        DriverEvent::artifact("greet", ArtifactKind::Executable, "/out/3", T),
    ];
    assert_eq!(next_artifact(&events, 0, "greet", ArtifactKind::Executable, T), 1);
    assert_eq!(next_artifact(&events, 1, "greet", ArtifactKind::Executable, T), 1);
    assert_eq!(next_artifact(&events, 2, "greet", ArtifactKind::Executable, T), 3);
    assert_eq!(next_artifact(&events, 4, "greet", ArtifactKind::Executable, T), 4);
    assert_eq!(next_artifact(&events, 9, "greet", ArtifactKind::Executable, T), 4);
    assert_eq!(next_artifact(&events, 0, "greet", ArtifactKind::ObjectOnly, T), 4);
}

#[test]
fn resolved_artifacts_are_copied_whole() {
    let r = report(vec![
        DriverEvent::artifact("greet", ArtifactKind::SharedLibrary, "/out/libgreet.so", T),
    ]);
    let found = resolve(&r, &greet(), &on(&[]), T).unwrap();
    let copy = copy_artifacts(&found);
    assert_eq!(copy.len(), 1);
    assert_eq!(copy[0].package, found[0].package);
    assert_eq!(copy[0].kind, found[0].kind);
    assert_eq!(copy[0].name, found[0].name);
    assert_eq!(copy[0].path, found[0].path);
    assert_eq!(copy[0].triple, found[0].triple);
}

#[test]
fn two_declarations_of_one_kind_are_ambiguous() {
    let mut m = PackageManifest::new("tools", "/src/tools");
    m.declare(ArtifactDeclaration::always(ArtifactKind::Executable, "first"));
    m.declare(ArtifactDeclaration::gated(ArtifactKind::Executable, "second", Predicate::atom("extra")));
    let r = report(vec![DriverEvent::artifact("tools", ArtifactKind::Executable, "/out/tool", T)]);
    let found = resolve(&r, &m, &on(&[]), T).unwrap();
    assert_eq!(found.len(), 1);
    assert_eq!(found[0].name, "first");
    match resolve(&r, &m, &on(&["extra"]), T) {
        Err(ResolveError::Ambiguous { package, kind, name, triple, first, second }) => {
            assert_eq!(package, "tools");
            assert_eq!(kind, ArtifactKind::Executable);
            assert_eq!(name, "second");
            assert_eq!(triple, T);
            assert_eq!(first, "/out/tool");
            assert_eq!(second, "/out/tool");
        }
        other => panic!("unexpected: {:?}", other),
    }
}
