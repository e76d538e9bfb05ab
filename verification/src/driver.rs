//! What a driver run reports, and how a run is concluded.
//!
//! Starting the driver and reading its output is the caller's part. The caller
//! records each event as it arrives and, when the process has ended, hands the
//! log and the way it ended to [`conclude`].

use vstd::prelude::*;
use vstd::string::*;
use crate::manifest::ArtifactKind;
use crate::text::texts;

verus! {

/// How grave a diagnostic is.
#[derive(Clone, Copy, Debug, PartialEq, Eq, Structural)]
pub enum Severity {
    Note,
    Warning,
    Error,
}

/// One event of the driver's machine-readable output.
#[derive(Debug)]
pub enum DriverEvent {
    /// The driver produced an artifact.
    CompilerArtifact { package: String, kind: ArtifactKind, path: String, triple: String },
    /// A build script printed a key and a value.
    BuildScriptOutput { key: String, value: String },
    /// The compiler said something.
    Diagnostic { severity: Severity, message: String },
    /// The build is over.
    BuildFinished { success: bool },
}

/// The mathematical form of a [`DriverEvent`].
pub enum EventView {
    CompilerArtifact { package: Seq<char>, kind: ArtifactKind, path: Seq<char>, triple: Seq<char> },
    BuildScriptOutput { key: Seq<char>, value: Seq<char> },
    Diagnostic { severity: Severity, message: Seq<char> },
    BuildFinished { success: bool },
}

impl View for DriverEvent {
    type V = EventView;

    open spec fn view(&self) -> EventView {
        match self {
            DriverEvent::CompilerArtifact { package, kind, path, triple } => {
                EventView::CompilerArtifact {
                    package: package@,
                    kind: *kind,
                    path: path@,
                    triple: triple@,
                }
            },
            DriverEvent::BuildScriptOutput { key, value } => EventView::BuildScriptOutput {
                key: key@,
                value: value@,
            },
            DriverEvent::Diagnostic { severity, message } => EventView::Diagnostic {
                severity: *severity,
                message: message@,
            },
            DriverEvent::BuildFinished { success } => EventView::BuildFinished {
                success: *success,
            },
        }
    }
}

impl DriverEvent {
    /// An artifact event.
    pub fn artifact(package: &str, kind: ArtifactKind, path: &str, triple: &str) -> (r:
        DriverEvent)
        ensures
            r@ == (EventView::CompilerArtifact {
                package: package@,
                kind,
                path: path@,
                triple: triple@,
            }),
    {
        DriverEvent::CompilerArtifact {
            package: String::from_str(package),
            kind,
            path: String::from_str(path),
            triple: String::from_str(triple),
        }
    }

    /// A build-script event.
    pub fn script_output(key: &str, value: &str) -> (r: DriverEvent)
        ensures
            r@ == (EventView::BuildScriptOutput { key: key@, value: value@ }),
    {
        DriverEvent::BuildScriptOutput {
            key: String::from_str(key),
            value: String::from_str(value),
        }
    }

    /// A diagnostic event.
    pub fn diagnostic(severity: Severity, message: &str) -> (r: DriverEvent)
        ensures
            r@ == (EventView::Diagnostic { severity, message: message@ }),
    {
        DriverEvent::Diagnostic { severity, message: String::from_str(message) }
    }

    /// The event that closes a build.
    pub fn finished(success: bool) -> (r: DriverEvent)
        ensures
            r@ == (EventView::BuildFinished { success }),
    {
        DriverEvent::BuildFinished { success }
    }
}

/// The forms of a list of events.
pub open spec fn events(v: Seq<DriverEvent>) -> Seq<EventView> {
    v.map_values(|e: DriverEvent| e@)
}

/// The events of one finished, successful driver run, in the order they came.
#[derive(Debug)]
pub struct BuildReport {
    pub events: Vec<DriverEvent>,
}

impl View for BuildReport {
    type V = Seq<EventView>;

    open spec fn view(&self) -> Seq<EventView> {
        events(self.events@)
    }
}

/// The events of a driver run that is still going on.
#[derive(Debug)]
pub struct RunLog {
    pub events: Vec<DriverEvent>,
}

impl View for RunLog {
    type V = Seq<EventView>;

    open spec fn view(&self) -> Seq<EventView> {
        events(self.events@)
    }
}

/// How the driver process ended.
#[derive(Clone, Copy, Debug, PartialEq, Eq, Structural)]
pub enum ProcessExit {
    /// The process ran and left this exit code.
    Code(i32),
    /// The process could not be started.
    NotStarted,
    /// The process was ended because its deadline passed.
    TimedOut,
}

/// Why a driver run gave no report.
#[derive(Debug)]
pub enum DriverError {
    /// The driver could not be started.
    Unavailable,
    /// The driver left a non-zero exit code.
    Failed {
        exit_code: i32,
        /// The last diagnostics of the run, oldest first.
        diagnostics: Vec<String>,
    },
    /// The driver did not end before its deadline.
    Timeout,
}

/// The mathematical form of a [`DriverError`].
pub enum DriverErrorView {
    Unavailable,
    Failed { exit_code: i32, diagnostics: Seq<Seq<char>> },
    Timeout,
}

impl View for DriverError {
    type V = DriverErrorView;

    open spec fn view(&self) -> DriverErrorView {
        match self {
            DriverError::Unavailable => DriverErrorView::Unavailable,
            DriverError::Failed { exit_code, diagnostics } => DriverErrorView::Failed {
                exit_code: *exit_code,
                diagnostics: texts(diagnostics@),
            },
            DriverError::Timeout => DriverErrorView::Timeout,
        }
    }
}

/// The messages of the diagnostics among `evs`, in order.
pub open spec fn diagnostic_messages(evs: Seq<EventView>) -> Seq<Seq<char>>
    decreases evs.len(),
{
    if evs.len() == 0 {
        Seq::empty()
    } else {
        match evs.last() {
            EventView::Diagnostic { message, .. } => diagnostic_messages(evs.drop_last()).push(
                message,
            ),
            _ => diagnostic_messages(evs.drop_last()),
        }
    }
}

/// The last `n` items of `s`, or all of `s` if it has fewer.
pub open spec fn last_items(s: Seq<Seq<char>>, n: nat) -> Seq<Seq<char>> {
    if n >= s.len() {
        s
    } else {
        s.subrange(s.len() - n, s.len() as int)
    }
}

/// What a run amounts to: its events if the process left exit code 0; else
/// the failure, which for a non-zero exit code carries the code and the last
/// `keep` diagnostics.
pub open spec fn conclusion(evs: Seq<EventView>, exit: ProcessExit, keep: nat) -> Result<
    Seq<EventView>,
    DriverErrorView,
> {
    match exit {
        ProcessExit::Code(code) => if code == 0 {
            Ok(evs)
        } else {
            Err(
                DriverErrorView::Failed {
                    exit_code: code,
                    diagnostics: last_items(diagnostic_messages(evs), keep),
                },
            )
        },
        ProcessExit::NotStarted => Err(DriverErrorView::Unavailable),
        ProcessExit::TimedOut => Err(DriverErrorView::Timeout),
    }
}

/// The form of what [`conclude`] returns.
pub open spec fn conclude_outcome(r: Result<BuildReport, DriverError>) -> Result<
    Seq<EventView>,
    DriverErrorView,
> {
    match r {
        Ok(report) => Ok(report@),
        Err(e) => Err(e@),
    }
}

impl RunLog {
    /// The log of a run that has reported nothing yet.
    pub fn new() -> (r: RunLog)
        ensures
            r@ == Seq::<EventView>::empty(),
    {
        let r = RunLog { events: Vec::new() };
        assert(events(r.events@) =~= Seq::empty());
        r
    }

    /// Records the next event of the run.
    pub fn record(&mut self, event: DriverEvent)
        ensures
            final(self)@ == old(self)@.push(event@),
    {
        self.events.push(event);
        assert(events(self.events@) =~= events(old(self).events@).push(event@));
    }

    /// How many events the run has reported so far.
    pub fn len(&self) -> (r: usize)
        ensures
            r == self@.len(),
    {
        self.events.len()
    }
}

/// The messages of the diagnostics in a list of events.
pub fn collect_diagnostics(evs: &Vec<DriverEvent>) -> (r: Vec<String>)
    ensures
        texts(r@) == diagnostic_messages(events(evs@)),
{
    let mut out: Vec<String> = Vec::new();
    let ghost all = events(evs@);
    let mut i: usize = 0;
    assert(texts(out@) =~= Seq::empty());
    assert(all.take(0) =~= Seq::empty());
    while i < evs.len()
        invariant
            i <= evs.len(),
            all == events(evs@),
            texts(out@) == diagnostic_messages(all.take(i as int)),
        decreases evs.len() - i,
    {
        assert(all.take(i + 1).drop_last() =~= all.take(i as int));
        assert(all.take(i + 1).last() == evs[i as int]@);
        match &evs[i] {
            DriverEvent::Diagnostic { severity: _, message } => {
                let ghost before = texts(out@);
                out.push(message.clone());
                assert(texts(out@) =~= before.push(message@));
            },
            _ => {},
        }
        i += 1;
    }
    assert(all.take(i as int) =~= all);
    out
}

/// The last `n` names of a list, or all of them if it has fewer.
pub fn keep_last(list: &Vec<String>, n: usize) -> (r: Vec<String>)
    ensures
        texts(r@) == last_items(texts(list@), n as nat),
{
    let start: usize = if n >= list.len() {
        0
    } else {
        list.len() - n
    };
    let mut out: Vec<String> = Vec::new();
    let mut i: usize = start;
    while i < list.len()
        invariant
            start <= i <= list.len(),
            out.len() == i - start,
            forall|j: int| 0 <= j < out.len() ==> out[j]@ == list[start + j]@,
        decreases list.len() - i,
    {
        out.push(list[i].clone());
        i += 1;
    }
    assert(texts(out@) =~= last_items(texts(list@), n as nat));
    out
}

/// Concludes a run: the report if the driver left exit code 0, else the
/// failure. A failed run is never started again from here.
pub fn conclude(log: RunLog, exit: ProcessExit, keep: usize) -> (r: Result<
    BuildReport,
    DriverError,
>)
    ensures
        conclude_outcome(r) == conclusion(log@, exit, keep as nat),
{
    match exit {
        ProcessExit::Code(code) => {
            if code == 0 {
                Ok(BuildReport { events: log.events })
            } else {
                let all = collect_diagnostics(&log.events);
                Err(DriverError::Failed { exit_code: code, diagnostics: keep_last(&all, keep) })
            }
        },
        ProcessExit::NotStarted => Err(DriverError::Unavailable),
        ProcessExit::TimedOut => Err(DriverError::Timeout),
    }
}

/// A run gives a report exactly when the driver left exit code 0, and the
/// report then holds every recorded event.
pub proof fn lemma_report_iff_exit_zero(evs: Seq<EventView>, exit: ProcessExit, keep: nat)
    ensures
        conclusion(evs, exit, keep) is Ok <==> exit == ProcessExit::Code(0),
        conclusion(evs, exit, keep) is Ok ==> conclusion(evs, exit, keep) == Ok::<
            Seq<EventView>,
            DriverErrorView,
        >(evs),
{
}

/// A failure never carries more diagnostics than asked for.
pub proof fn lemma_kept_is_bounded(s: Seq<Seq<char>>, n: nat)
    ensures
        last_items(s, n).len() <= n,
        last_items(s, n).len() <= s.len(),
        forall|j: int|
            0 <= j < last_items(s, n).len() ==> last_items(s, n)[j] == s[s.len() - last_items(
                s,
                n,
            ).len() + j],
{
}

} // verus!
