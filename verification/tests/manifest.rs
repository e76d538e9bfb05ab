use build_bridge::manifest::{ArtifactDeclaration, ArtifactKind, PackageManifest};
use build_bridge::predicate::Predicate;

#[test]
fn a_new_manifest_declares_nothing() {
    let m = PackageManifest::new("greet", "/src/greet");
    assert_eq!(m.name, "greet");
    assert_eq!(m.directory, "/src/greet");
    assert!(m.artifacts.is_empty());
    assert!(m.features.is_empty());
    assert!(m.members.is_empty());
}

#[test]
fn declarations_keep_their_order() {
    let mut m = PackageManifest::new("greet", "/src/greet");
    m.declare(ArtifactDeclaration::always(ArtifactKind::StaticLibrary, "greet"));
    m.declare(ArtifactDeclaration::gated(ArtifactKind::Executable, "tool", Predicate::atom("cli")));
    m.declare_feature("cli");
    m.declare_feature("net");
    m.add_member("/src/greet/a");
    m.add_member("/src/greet/b");
    assert_eq!(m.artifacts.len(), 2);
    assert_eq!(m.artifacts[0].kind, ArtifactKind::StaticLibrary);
    assert_eq!(m.artifacts[0].name, "greet");
    assert!(m.artifacts[0].gate.is_none());
    assert_eq!(m.artifacts[1].kind, ArtifactKind::Executable);
    assert_eq!(m.artifacts[1].name, "tool");
    assert!(m.artifacts[1].gate.is_some());
    assert_eq!(m.features, vec!["cli".to_string(), "net".to_string()]);
    assert_eq!(m.members, vec!["/src/greet/a".to_string(), "/src/greet/b".to_string()]);
}
