use build_bridge::driver::{DriverEvent, RunLog, Severity};
use build_bridge::manifest::ArtifactKind;
use build_bridge::wire::{parse_severity, read_event, record_line};

#[test]
fn an_artifact_line_is_an_artifact_event() {
    match read_event("artifact\tgreet\tshared-library\tx86_64-unknown-linux-gnu\t/out/libgreet.so") {
        Some(DriverEvent::CompilerArtifact { package, kind, path, triple }) => {
            assert_eq!(package, "greet");
            assert_eq!(kind, ArtifactKind::SharedLibrary);
            assert_eq!(path, "/out/libgreet.so");
            assert_eq!(triple, "x86_64-unknown-linux-gnu");
        }
        other => panic!("unexpected: {:?}", other),
    }
}

#[test]
fn the_last_field_runs_to_the_end_of_the_line() {
    match read_event("artifact\tgreet\texecutable\tt\t/out/with\ttab/greet") {
        Some(DriverEvent::CompilerArtifact { path, .. }) => assert_eq!(path, "/out/with\ttab/greet"),
        other => panic!("unexpected: {:?}", other),
    }
    match read_event("diagnostic\terror\texpected `;`\tfound `}`\t") {
        Some(DriverEvent::Diagnostic { severity, message }) => {
            assert_eq!(severity, Severity::Error);
            assert_eq!(message, "expected `;`\tfound `}`\t");
        }
        other => panic!("unexpected: {:?}", other),
    }
    match read_event("script\trustc-link-lib\t") {
        Some(DriverEvent::BuildScriptOutput { key, value }) => {
            assert_eq!(key, "rustc-link-lib");
            assert_eq!(value, "");
        }
        other => panic!("unexpected: {:?}", other),
    }
}

#[test]
fn a_script_line_is_a_script_event() {
    match read_event("script\trustc-link-search\tnative=/out dir") {
        Some(DriverEvent::BuildScriptOutput { key, value }) => {
            assert_eq!(key, "rustc-link-search");
            assert_eq!(value, "native=/out dir");
        }
        other => panic!("unexpected: {:?}", other),
    }
}

#[test]
fn a_diagnostic_line_is_a_diagnostic_event() {
    match read_event("diagnostic\twarning\tunused variable: `naïve`") {
        Some(DriverEvent::Diagnostic { severity, message }) => {
            assert_eq!(severity, Severity::Warning);
            assert_eq!(message, "unused variable: `naïve`");
        }
        other => panic!("unexpected: {:?}", other),
    }
    assert!(matches!(
        read_event("diagnostic\tnote\tx"),
        Some(DriverEvent::Diagnostic { severity: Severity::Note, .. })
    ));
}

#[test]
fn a_finished_line_closes_the_build() {
    assert!(matches!(read_event("finished\tok"), Some(DriverEvent::BuildFinished { success: true })));
    assert!(matches!(
        read_event("finished\tfailed"),
        Some(DriverEvent::BuildFinished { success: false })
    ));
}

#[test]
fn a_line_of_another_shape_is_no_event() {
    for line in [
        "",
        "artifact",
        "artifact\tgreet\tshared-library\tt",
        "artifact\tgreet\tlibrary\tt\t/out/x",
        "script\tkey",
        "diagnostic\tfatal\tx",
        "diagnostic\terror",
        "finished",
        "finished\tyes",
        "finished\tok\t",
        "Finished\tok",
        "   Compiling greet v0.1.0",
        "artifact greet executable t /out/greet",
    ]
    .iter()
    {
        assert!(read_event(line).is_none(), "line {:?}", line);
    }
}

#[test]
fn severities_have_their_words() {
    assert_eq!(parse_severity("note"), Some(Severity::Note));
    assert_eq!(parse_severity("warning"), Some(Severity::Warning));
    assert_eq!(parse_severity("error"), Some(Severity::Error));
    assert_eq!(parse_severity("Error"), None);
    assert_eq!(parse_severity(""), None);
}

#[test]
fn a_log_takes_the_events_among_the_lines() {
    let mut log = RunLog::new();
    assert!(!record_line(&mut log, "   Compiling greet v0.1.0"));
    assert!(record_line(&mut log, "artifact\tgreet\texecutable\tt\t/out/greet"));
    assert!(!record_line(&mut log, ""));
    assert!(record_line(&mut log, "finished\tok"));
    assert_eq!(log.len(), 2);
    assert!(matches!(log.events[0], DriverEvent::CompilerArtifact { .. }));
    assert!(matches!(log.events[1], DriverEvent::BuildFinished { success: true }));
}

#[test]
fn an_event_written_with_tabs_is_read_back() {
    let line = ["artifact", "greet", "object-only", "aarch64-unknown-linux-gnu", "/out/greet.o"].join("\t");
    match read_event(&line) {
        Some(DriverEvent::CompilerArtifact { package, kind, path, triple }) => {
            assert_eq!(package, "greet");
            assert_eq!(kind, ArtifactKind::ObjectOnly);
            assert_eq!(path, "/out/greet.o");
            assert_eq!(triple, "aarch64-unknown-linux-gnu");
        }
        other => panic!("unexpected: {:?}", other),
    }
    let line = ["diagnostic", "error", ""].join("\t");
    assert!(matches!(
        read_event(&line),
        Some(DriverEvent::Diagnostic { severity: Severity::Error, message }) if message.is_empty()
    ));
}
