use build_bridge::manifest::{ArtifactKind, ManifestError};
use build_bridge::reader::{
    parse_gate, parse_kind, parse_line, parse_manifest, read_manifest, Directive,
};

fn on(list: &[&str]) -> Vec<String> {
    list.iter().map(|s| s.to_string()).collect()
}

fn parse_error(text: &str) -> (usize, usize) {
    match parse_manifest("/src/greet", text) {
        Err(ManifestError::Parse { directory, line, column }) => {
            assert_eq!(directory, "/src/greet");
            (line, column)
        }
        other => panic!("unexpected: {:?}", other),
    }
}

const GREET: &str = "# the greeter\npackage greet\n\nfeature cli\nfeature net\nartifact shared-library greet\nartifact executable greet-cli cli\nmember /src/greet/helper\n";

#[test]
fn a_manifest_is_read_line_by_line() {
    let m = parse_manifest("/src/greet", GREET).unwrap();
    assert_eq!(m.name, "greet");
    assert_eq!(m.directory, "/src/greet");
    assert_eq!(m.features, on(&["cli", "net"]));
    assert_eq!(m.members, on(&["/src/greet/helper"]));
    assert_eq!(m.artifacts.len(), 2);
    assert_eq!(m.artifacts[0].kind, ArtifactKind::SharedLibrary);
    assert_eq!(m.artifacts[0].name, "greet");
    assert!(m.artifacts[0].gate.is_none());
    assert_eq!(m.artifacts[1].kind, ArtifactKind::Executable);
    assert_eq!(m.artifacts[1].name, "greet-cli");
    let gate = m.artifacts[1].gate.as_ref().unwrap();
    assert!(gate.eval(&on(&["cli"])));
    assert!(!gate.eval(&on(&["net"])));
}

#[test]
fn a_manifest_needs_no_final_newline() {
    let m = parse_manifest("/d", "package solo").unwrap();
    assert_eq!(m.name, "solo");
    assert!(m.artifacts.is_empty());
    assert!(m.features.is_empty());
    assert!(m.members.is_empty());
}

#[test]
fn every_kind_has_its_word() {
    assert_eq!(parse_kind("static-library"), Some(ArtifactKind::StaticLibrary));
    assert_eq!(parse_kind("shared-library"), Some(ArtifactKind::SharedLibrary));
    assert_eq!(parse_kind("executable"), Some(ArtifactKind::Executable));
    assert_eq!(parse_kind("object-only"), Some(ArtifactKind::ObjectOnly));
    assert_eq!(parse_kind("library"), None);
    assert_eq!(parse_kind(""), None);
    assert_eq!(parse_kind("Executable"), None);
}

#[test]
fn gates_are_read_in_prefix_form() {
    let text = "package p\nartifact executable tool all one any two not three\n";
    let m = parse_manifest("/d", text).unwrap();
    let gate = m.artifacts[0].gate.as_ref().unwrap();
    assert!(gate.eval(&on(&["one", "two"])));
    assert!(gate.eval(&on(&["one"])));
    assert!(gate.eval(&on(&["one", "two", "three"])));
    assert!(!gate.eval(&on(&["one", "three"])));
    assert!(!gate.eval(&on(&["two"])));
}

#[test]
fn parse_gate_says_where_the_condition_ends() {
    let fields = on(&["artifact", "executable", "tool", "not", "a", "b"]);
    match parse_gate(&fields, 3) {
        Ok((gate, next)) => {
            assert_eq!(next, 5);
            assert!(gate.eval(&on(&[])));
            assert!(!gate.eval(&on(&["a"])));
        }
        Err(k) => panic!("unexpected: {}", k),
    }
    assert_eq!(parse_gate(&on(&["all", "a"]), 0).err(), Some(2));
    assert_eq!(parse_gate(&on(&["not"]), 0).err(), Some(1));
    assert_eq!(parse_gate(&on(&["any", "", "b"]), 0).err(), Some(1));
    assert_eq!(parse_gate(&on(&["a"]), 1).err(), Some(1));
    assert_eq!(parse_gate(&on(&["a"]), 7).err(), Some(1));
}

#[test]
fn a_line_is_a_directive() {
    let line = "feature cli";
    assert!(matches!(parse_line(line), Directive::Feature(n) if n == "cli"));
    let line = "member /a/b";
    assert!(matches!(parse_line(line), Directive::Member(n) if n == "/a/b"));
    let line = "package p";
    assert!(matches!(parse_line(line), Directive::Package(n) if n == "p"));
    let line = "";
    assert!(matches!(parse_line(line), Directive::Blank));
    let line = "# artifact executable x";
    assert!(matches!(parse_line(line), Directive::Blank));
    let line = "artifact object-only o";
    assert!(matches!(
        parse_line(line),
        Directive::Artifact(a) if a.kind == ArtifactKind::ObjectOnly && a.name == "o" && a.gate.is_none()
    ));
    let line = "library x";
    assert!(matches!(parse_line(line), Directive::Bad(0)));
    let line = " package p";
    assert!(matches!(parse_line(line), Directive::Bad(0)));
}

#[test]
fn an_unknown_directive_is_an_error_at_column_one() {
    assert_eq!(parse_error("package p\nlibrary x\n"), (2, 1));
}

#[test]
fn a_missing_name_is_an_error_where_it_would_stand() {
    assert_eq!(parse_error("package"), (1, 9));
    assert_eq!(parse_error("package "), (1, 9));
    assert_eq!(parse_error("package p\nfeature"), (2, 9));
    assert_eq!(parse_error("package p\n\n\nmember "), (4, 8));
}

#[test]
fn an_extra_field_is_an_error_at_its_column() {
    assert_eq!(parse_error("package greet extra"), (1, 15));
    assert_eq!(parse_error("package p\nfeature a b"), (2, 11));
    assert_eq!(parse_error("package p\nfeature  a"), (2, 9));
}

#[test]
fn an_unknown_kind_is_an_error_at_its_column() {
    assert_eq!(parse_error("package p\nartifact library x"), (2, 10));
    assert_eq!(parse_error("package p\nartifact"), (2, 10));
}

#[test]
fn a_missing_artifact_name_is_an_error() {
    assert_eq!(parse_error("package p\nartifact executable"), (2, 21));
    assert_eq!(parse_error("package p\nartifact executable "), (2, 21));
}

#[test]
fn a_malformed_gate_is_an_error_at_its_column() {
    assert_eq!(parse_error("package p\nartifact executable x a b"), (2, 25));
    assert_eq!(parse_error("package p\nartifact executable x all a"), (2, 29));
    assert_eq!(parse_error("package p\nartifact executable x not"), (2, 27));
    assert_eq!(parse_error("package p\nartifact executable x "), (2, 23));
    assert_eq!(parse_error("package p\nartifact executable x any  b"), (2, 27));
}

#[test]
fn a_second_package_line_is_an_error() {
    assert_eq!(parse_error("package a\nfeature f\npackage b\n"), (3, 1));
}

#[test]
fn a_manifest_without_package_line_is_an_error_past_its_end() {
    assert_eq!(parse_error(""), (2, 1));
    assert_eq!(parse_error("feature a\nfeature b"), (3, 1));
    assert_eq!(parse_error("# nothing\n"), (3, 1));
}

#[test]
fn the_first_error_is_reported() {
    assert_eq!(parse_error("package p\nfeature\nlibrary x\npackage q"), (2, 9));
}

#[test]
fn a_directory_without_manifest_is_not_found() {
    match read_manifest("/src/nothing", None) {
        Err(ManifestError::NotFound { directory }) => assert_eq!(directory, "/src/nothing"),
        other => panic!("unexpected: {:?}", other),
    }
    assert_eq!(read_manifest("/src/greet", Some(GREET)).unwrap().name, "greet");
    assert!(matches!(
        read_manifest("/src/greet", Some("nonsense")),
        Err(ManifestError::Parse { line: 1, column: 1, .. })
    ));
}

#[test]
fn names_may_hold_any_characters_but_spaces() {
    let m = parse_manifest("/d", "package grüße\nfeature 日本語\nmember /src/é\n").unwrap();
    assert_eq!(m.name, "grüße");
    assert_eq!(m.features, on(&["日本語"]));
    assert_eq!(m.members, on(&["/src/é"]));
    assert_eq!(parse_error("package grüße x"), (1, 15));
}

#[test]
fn a_manifest_written_in_order_is_read_back() {
    let lines = [
        "package greet",
        "feature cli",
        "feature net",
        "member /src/greet/a",
        "member /src/greet/b",
        "artifact static-library greet",
        "artifact executable tool all cli not net",
        "artifact object-only blob any cli net",
    ];
    let m = parse_manifest("/src/greet", &lines.join("\n")).unwrap();
    assert_eq!(m.name, "greet");
    assert_eq!(m.directory, "/src/greet");
    assert_eq!(m.features, on(&["cli", "net"]));
    assert_eq!(m.members, on(&["/src/greet/a", "/src/greet/b"]));
    assert_eq!(m.artifacts.len(), 3);
    assert_eq!(m.artifacts[0].kind, ArtifactKind::StaticLibrary);
    assert!(m.artifacts[0].gate.is_none());
    assert_eq!(m.artifacts[1].kind, ArtifactKind::Executable);
    assert_eq!(m.artifacts[1].name, "tool");
    assert_eq!(
        format!("{:?}", m.artifacts[1].gate),
        "Some(And(Atom(\"cli\"), Not(Atom(\"net\"))))"
    );
    assert_eq!(m.artifacts[2].kind, ArtifactKind::ObjectOnly);
    assert_eq!(format!("{:?}", m.artifacts[2].gate), "Some(Or(Atom(\"cli\"), Atom(\"net\")))");
}
