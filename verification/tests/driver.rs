use build_bridge::driver::{
    collect_diagnostics, conclude, keep_last, DriverError, DriverEvent, ProcessExit, RunLog,
    Severity,
};
use build_bridge::manifest::ArtifactKind;

fn names(list: &[&str]) -> Vec<String> {
    list.iter().map(|s| s.to_string()).collect()
}

fn sample_log() -> RunLog {
    let mut log = RunLog::new();
    log.record(DriverEvent::diagnostic(Severity::Warning, "unused variable"));
    log.record(DriverEvent::artifact("greet", ArtifactKind::SharedLibrary, "/out/libgreet.so", "t"));
    log.record(DriverEvent::script_output("rerun-if-changed", "src/lib.c"));
    log.record(DriverEvent::diagnostic(Severity::Error, "mismatched types"));
    log.record(DriverEvent::diagnostic(Severity::Error, "undefined symbol"));
    log.record(DriverEvent::finished(false));
    log
}

#[test]
fn a_log_records_events_in_order() {
    let log = sample_log();
    assert_eq!(log.len(), 6);
    assert!(matches!(log.events[0], DriverEvent::Diagnostic { severity: Severity::Warning, .. }));
    assert!(matches!(log.events[1], DriverEvent::CompilerArtifact { .. }));
    assert!(matches!(log.events[5], DriverEvent::BuildFinished { success: false }));
    assert_eq!(RunLog::new().len(), 0);
}

#[test]
fn exit_code_zero_gives_the_report() {
    let report = conclude(sample_log(), ProcessExit::Code(0), 2).unwrap();
    assert_eq!(report.events.len(), 6);
    match &report.events[1] {
        DriverEvent::CompilerArtifact { package, kind, path, triple } => {
            assert_eq!(package, "greet");
            assert_eq!(*kind, ArtifactKind::SharedLibrary);
            assert_eq!(path, "/out/libgreet.so");
            assert_eq!(triple, "t");
        }
        other => panic!("unexpected: {:?}", other),
    }
}

#[test]
fn a_failed_driver_carries_code_and_diagnostic() {
    let mut log = RunLog::new();
    log.record(DriverEvent::diagnostic(Severity::Error, "undefined symbol"));
    match conclude(log, ProcessExit::Code(1), 8) {
        Err(DriverError::Failed { exit_code, diagnostics }) => {
            assert_eq!(exit_code, 1);
            assert_eq!(diagnostics, names(&["undefined symbol"]));
        }
        other => panic!("unexpected: {:?}", other),
    }
}

#[test]
fn a_failed_driver_keeps_the_last_diagnostics() {
    match conclude(sample_log(), ProcessExit::Code(101), 2) {
        Err(DriverError::Failed { exit_code, diagnostics }) => {
            assert_eq!(exit_code, 101);
            assert_eq!(diagnostics, names(&["mismatched types", "undefined symbol"]));
        }
        other => panic!("unexpected: {:?}", other),
    }
    match conclude(sample_log(), ProcessExit::Code(-1), 0) {
        Err(DriverError::Failed { exit_code, diagnostics }) => {
            assert_eq!(exit_code, -1);
            assert!(diagnostics.is_empty());
        }
        other => panic!("unexpected: {:?}", other),
    }
    match conclude(sample_log(), ProcessExit::Code(2), 10) {
        Err(DriverError::Failed { diagnostics, .. }) => {
            assert_eq!(
                diagnostics,
                names(&["unused variable", "mismatched types", "undefined symbol"])
            );
        }
        other => panic!("unexpected: {:?}", other),
    }
}

#[test]
fn a_driver_that_did_not_start_is_unavailable() {
    assert!(matches!(
        conclude(RunLog::new(), ProcessExit::NotStarted, 3),
        Err(DriverError::Unavailable)
    ));
}

#[test]
fn a_driver_past_its_deadline_timed_out() {
    assert!(matches!(conclude(sample_log(), ProcessExit::TimedOut, 3), Err(DriverError::Timeout)));
}

#[test]
fn diagnostics_are_collected_in_order() {
    let log = sample_log();
    assert_eq!(
        collect_diagnostics(&log.events),
        names(&["unused variable", "mismatched types", "undefined symbol"])
    );
    assert!(collect_diagnostics(&Vec::new()).is_empty());
}

#[test]
fn keep_last_takes_the_tail() {
    let list = names(&["a", "b", "c", "d"]);
    assert_eq!(keep_last(&list, 0), names(&[]));
    assert_eq!(keep_last(&list, 1), names(&["d"]));
    assert_eq!(keep_last(&list, 3), names(&["b", "c", "d"]));
    assert_eq!(keep_last(&list, 4), list);
    assert_eq!(keep_last(&list, 9), list);
    assert_eq!(keep_last(&Vec::new(), 2), names(&[]));
}
