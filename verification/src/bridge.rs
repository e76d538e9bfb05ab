//! The stages put together: what to do before the driver runs, and what to
//! make of its run.
//!
//! The caller runs the driver in between, and nothing here does: [`begin`]
//! says whether a run is due and with which plan; [`judge`] takes the log of
//! the run and the way it ended; the caller then looks for the files on
//! disk, and [`finish`] reports the outcome to the binder.

use vstd::prelude::*;
use vstd::string::*;
use crate::binder::{
    after_bind, after_fail, after_request, decide, in_flight, Binder, Decision, UnitView,
};
use crate::config::{BuildConfiguration, ConfigView};
use crate::driver::{conclude, conclusion, EventView, ProcessExit, RunLog};
use crate::error::{BridgeError, BridgeErrorView};
use crate::manifest::{ManifestView, PackageManifest};
use crate::planner::{
    copy_fingerprints, fingerprints, plan, plan_of, ConfigFault, FaultView, Fingerprint,
    FingerprintView, InvocationPlan, PlanView, Toolchain, ToolchainView,
};
use crate::resolver::{
    artifacts, resolution, resolve, ArtifactView, ResolveError, ResolveErrorView, ResolvedArtifact,
};

verus! {

/// What is to be done about a build request.
#[derive(Debug)]
pub struct Ticket {
    /// What the binder answered.
    pub decision: Decision,
    /// The plan of the build, to be run if the answer is to start.
    pub plan: InvocationPlan,
}

/// The form of what [`begin`] returns.
pub open spec fn begin_outcome(r: Result<Ticket, ConfigFault>) -> Result<
    (Decision, PlanView),
    FaultView,
> {
    match r {
        Ok(t) => Ok((t.decision, t.plan@)),
        Err(e) => Err(e@),
    }
}

/// What a request amounts to: the fault of its configuration, or the plan
/// and the answer of the binder for the package, the triple and the key of
/// that plan.
pub open spec fn begun(
    units: Seq<UnitView>,
    m: ManifestView,
    c: ConfigView,
    t: ToolchainView,
    marks: Seq<FingerprintView>,
) -> Result<(Decision, PlanView), FaultView> {
    match plan_of(m, c, t, marks) {
        Err(fault) => Err(fault),
        Ok(p) => Ok((decide(units, m.name, p.triple, p.key), p)),
    }
}

/// The units after a request: unchanged if the configuration is at fault.
pub open spec fn units_begun(
    units: Seq<UnitView>,
    m: ManifestView,
    c: ConfigView,
    t: ToolchainView,
    marks: Seq<FingerprintView>,
) -> Seq<UnitView> {
    match plan_of(m, c, t, marks) {
        Err(_) => units,
        Ok(p) => after_request(units, m.name, p.triple, p.key),
    }
}

/// Plans a build and asks the binder whether it is due.
pub fn begin(
    binder: &mut Binder,
    manifest: &PackageManifest,
    config: &BuildConfiguration,
    toolchain: &Toolchain,
    marks: &Vec<Fingerprint>,
) -> (r: Result<Ticket, ConfigFault>)
    ensures
        begin_outcome(r) == begun(
            old(binder)@,
            manifest@,
            config@,
            toolchain@,
            fingerprints(marks@),
        ),
        final(binder)@ == units_begun(
            old(binder)@,
            manifest@,
            config@,
            toolchain@,
            fingerprints(marks@),
        ),
{
    match plan(manifest, config, toolchain, marks) {
        Err(fault) => Err(fault),
        Ok(p) => {
            let decision = binder.request(manifest.name.as_str(), p.triple.as_str(), p.key);
            Ok(Ticket { decision, plan: p })
        },
    }
}

/// What a run amounts to for the package of `m`: the artifacts it resolves
/// to, or the error of the driver or of the resolution.
pub open spec fn settled(
    m: ManifestView,
    enabled: Seq<Seq<char>>,
    triple: Seq<char>,
    evs: Seq<EventView>,
    exit: ProcessExit,
    keep: nat,
) -> Result<Seq<ArtifactView>, BridgeErrorView> {
    match conclusion(evs, exit, keep) {
        Err(e) => Err(BridgeErrorView::Driver(e)),
        Ok(report) => match resolution(report, m.name, m.artifacts, enabled, triple) {
            Err(e) => Err(BridgeErrorView::Artifact(e)),
            Ok(built) => Ok(built),
        },
    }
}

/// The form of what [`judge`] returns and [`finish`] takes.
pub open spec fn verdict(r: Result<Vec<ResolvedArtifact>, BridgeError>) -> Result<
    Seq<ArtifactView>,
    BridgeErrorView,
> {
    match r {
        Ok(built) => Ok(artifacts(built@)),
        Err(e) => Err(e@),
    }
}

/// Judges a driver run: concludes it and resolves its report.
pub fn judge(
    manifest: &PackageManifest,
    config: &BuildConfiguration,
    plan: &InvocationPlan,
    log: RunLog,
    exit: ProcessExit,
    keep: usize,
) -> (r: Result<Vec<ResolvedArtifact>, BridgeError>)
    ensures
        verdict(r) == settled(manifest@, config@.features, plan@.triple, log@, exit, keep as nat),
{
    match conclude(log, exit, keep) {
        Err(e) => Err(BridgeError::Driver(e)),
        Ok(report) => match resolve(&report, manifest, config.features(), plan.triple.as_str()) {
            Err(e) => Err(BridgeError::Artifact(e)),
            Ok(found) => Ok(found),
        },
    }
}

/// The position of the first of `n` files, at or after `from`, that is not
/// known to be on disk, or `n` if every one is. A file that `present` does
/// not speak of is not known to be there.
pub open spec fn first_gap(present: Seq<bool>, from: int, n: int) -> int
    decreases n - from,
{
    if from >= n {
        n
    } else if from < 0 || from >= present.len() || !present[from] {
        from
    } else {
        first_gap(present, from + 1, n)
    }
}

/// What a judged run amounts to once the files have been looked for: the
/// artifacts if the run resolved and every file is on disk; the error of the
/// run; or, for the first file that is not there, a missing artifact.
pub open spec fn checked(
    outcome: Result<Seq<ArtifactView>, BridgeErrorView>,
    present: Seq<bool>,
) -> Result<Seq<ArtifactView>, BridgeErrorView> {
    match outcome {
        Err(e) => Err(e),
        Ok(built) => {
            let gap = first_gap(present, 0, built.len() as int);
            if 0 <= gap < built.len() {
                Err(
                    BridgeErrorView::Artifact(
                        ResolveErrorView::Missing {
                            package: built[gap].package,
                            kind: built[gap].kind,
                            name: built[gap].name,
                            triple: built[gap].triple,
                        },
                    ),
                )
            } else {
                Ok(built)
            }
        },
    }
}

/// The units after a run is finished: bound if it resolved and every file is
/// on disk, failed if not. There is nothing in between: a run that yields
/// some artifacts and not others has failed.
pub open spec fn units_finished(
    units: Seq<UnitView>,
    package: Seq<char>,
    p: PlanView,
    marks: Seq<FingerprintView>,
    outcome: Result<Seq<ArtifactView>, BridgeErrorView>,
    present: Seq<bool>,
) -> Seq<UnitView> {
    match checked(outcome, present) {
        Ok(built) => after_bind(units, package, p.triple, p.key, built, marks),
        Err(e) => after_fail(units, package, p.triple, p.key, e),
    }
}

/// The position of the first of `n` files that is not known to be on disk,
/// or `n` if every one is.
pub fn find_gap(present: &Vec<bool>, n: usize) -> (r: usize)
    ensures
        r == first_gap(present@, 0, n as int),
        r <= n,
{
    let mut i: usize = 0;
    while i < n
        invariant
            i <= n,
            first_gap(present@, 0, n as int) == first_gap(present@, i as int, n as int),
        decreases n - i,
    {
        if i >= present.len() || !present[i] {
            return i;
        }
        i += 1;
    }
    n
}

/// Finishes a judged run: reports it to the binder as bound, if it resolved
/// and `present` says of every artifact, in order, that its file is on disk,
/// and as failed otherwise. Returns whether it was bound; if the unit was
/// not building for the key of the plan, the binder is left as it was.
pub fn finish(
    binder: &mut Binder,
    package: &str,
    plan: &InvocationPlan,
    marks: &Vec<Fingerprint>,
    outcome: Result<Vec<ResolvedArtifact>, BridgeError>,
    present: &Vec<bool>,
) -> (bound: bool)
    ensures
        bound == (checked(verdict(outcome), present@) is Ok && in_flight(
            old(binder)@,
            package@,
            plan@.triple,
            plan@.key,
        )),
        final(binder)@ == units_finished(
            old(binder)@,
            package@,
            plan@,
            fingerprints(marks@),
            verdict(outcome),
            present@,
        ),
{
    let triple = plan.triple.as_str();
    match outcome {
        Err(e) => {
            binder.fail(package, triple, plan.key, e);
            false
        },
        Ok(found) => {
            let gap = find_gap(present, found.len());
            if gap < found.len() {
                assert(artifacts(found@)[gap as int] == found[gap as int]@);
                let lost = &found[gap];
                let e = ResolveError::Missing {
                    package: lost.package.clone(),
                    kind: lost.kind,
                    name: lost.name.clone(),
                    triple: lost.triple.clone(),
                };
                binder.fail(package, triple, plan.key, BridgeError::Artifact(e));
                false
            } else {
                binder.bind(package, triple, plan.key, found, copy_fingerprints(marks))
            }
        },
    }
}

/// A run whose driver failed, or whose report does not resolve, or one of
/// whose files is not on disk, leaves the unit failed and without any node.
pub proof fn lemma_no_partial_success(
    units: Seq<UnitView>,
    package: Seq<char>,
    p: PlanView,
    marks: Seq<FingerprintView>,
    outcome: Result<Seq<ArtifactView>, BridgeErrorView>,
    present: Seq<bool>,
    kind: crate::manifest::ArtifactKind,
)
    requires
        in_flight(units, package, p.triple, p.key),
        checked(outcome, present) is Err,
    ensures
        crate::binder::node_of(
            units_finished(units, package, p, marks, outcome, present),
            package,
            kind,
            p.triple,
        ) is None,
        crate::binder::unit_of(
            units_finished(units, package, p, marks, outcome, present),
            package,
            p.triple,
        ) matches Some(u) && u.state == crate::binder::NodeState::Failed && u.failure == Some(
            checked(outcome, present)->Err_0,
        ),
{
    crate::binder::lemma_failure_is_terminal(
        units,
        package,
        p.triple,
        p.key,
        checked(outcome, present)->Err_0,
        kind,
    );
}

} // verus!
