//! From a build report to the artifacts a manifest declares.
//!
//! Every declared artifact whose condition holds must be matched by exactly
//! one artifact event of its package, kind and triple. No event is a missing
//! artifact, two or more are an ambiguity; neither is settled by picking one.

use vstd::prelude::*;
use vstd::string::*;
use crate::driver::{events, BuildReport, DriverEvent, EventView};
use crate::manifest::{declarations, ArtifactKind, DeclarationView, PackageManifest};
use crate::predicate::{gate_open, gate_passes};
use crate::text::{same_text, texts};

verus! {

/// A declared artifact bound to the file the driver produced for it.
#[derive(Debug)]
pub struct ResolvedArtifact {
    pub package: String,
    pub kind: ArtifactKind,
    /// The logical name from the declaration.
    pub name: String,
    /// The absolute path of the produced file.
    pub path: String,
    /// The triple the file was built for.
    pub triple: String,
}

/// The mathematical form of a [`ResolvedArtifact`].
pub struct ArtifactView {
    pub package: Seq<char>,
    pub kind: ArtifactKind,
    pub name: Seq<char>,
    pub path: Seq<char>,
    pub triple: Seq<char>,
}

impl View for ResolvedArtifact {
    type V = ArtifactView;

    open spec fn view(&self) -> ArtifactView {
        ArtifactView {
            package: self.package@,
            kind: self.kind,
            name: self.name@,
            path: self.path@,
            triple: self.triple@,
        }
    }
}

impl ResolvedArtifact {
    /// A copy of the artifact.
    pub fn duplicate(&self) -> (r: ResolvedArtifact)
        ensures
            r@ == self@,
    {
        ResolvedArtifact {
            package: self.package.clone(),
            kind: self.kind,
            name: self.name.clone(),
            path: self.path.clone(),
            triple: self.triple.clone(),
        }
    }
}

/// The forms of a list of resolved artifacts.
pub open spec fn artifacts(v: Seq<ResolvedArtifact>) -> Seq<ArtifactView> {
    v.map_values(|a: ResolvedArtifact| a@)
}

/// A copy of a list of resolved artifacts.
pub fn copy_artifacts(list: &Vec<ResolvedArtifact>) -> (r: Vec<ResolvedArtifact>)
    ensures
        artifacts(r@) == artifacts(list@),
{
    let mut out: Vec<ResolvedArtifact> = Vec::new();
    let mut i: usize = 0;
    while i < list.len()
        invariant
            i <= list.len(),
            out.len() == i,
            forall|j: int| 0 <= j < i ==> out[j]@ == list[j]@,
        decreases list.len() - i,
    {
        out.push(list[i].duplicate());
        i += 1;
    }
    assert(artifacts(out@) =~= artifacts(list@));
    out
}

/// Why a report does not resolve.
#[derive(Debug)]
pub enum ResolveError {
    /// No event reports the declared artifact.
    Missing { package: String, kind: ArtifactKind, name: String, triple: String },
    /// More than one event reports the declared artifact; `first` and
    /// `second` are the paths of the first two. Or one event reports it, but
    /// a declaration before it of the same kind is bound to that event
    /// already; `first` and `second` are then both the path of that event.
    Ambiguous {
        package: String,
        kind: ArtifactKind,
        name: String,
        triple: String,
        first: String,
        second: String,
    },
}

/// The mathematical form of a [`ResolveError`].
pub enum ResolveErrorView {
    Missing { package: Seq<char>, kind: ArtifactKind, name: Seq<char>, triple: Seq<char> },
    Ambiguous {
        package: Seq<char>,
        kind: ArtifactKind,
        name: Seq<char>,
        triple: Seq<char>,
        first: Seq<char>,
        second: Seq<char>,
    },
}

impl View for ResolveError {
    type V = ResolveErrorView;

    open spec fn view(&self) -> ResolveErrorView {
        match self {
            ResolveError::Missing { package, kind, name, triple } => ResolveErrorView::Missing {
                package: package@,
                kind: *kind,
                name: name@,
                triple: triple@,
            },
            ResolveError::Ambiguous { package, kind, name, triple, first, second } => {
                ResolveErrorView::Ambiguous {
                    package: package@,
                    kind: *kind,
                    name: name@,
                    triple: triple@,
                    first: first@,
                    second: second@,
                }
            },
        }
    }
}

/// Whether `e` reports an artifact of the given package, kind and triple.
pub open spec fn is_match(e: EventView, package: Seq<char>, kind: ArtifactKind, triple: Seq<char>) -> bool {
    match e {
        EventView::CompilerArtifact { package: p, kind: k, path: _, triple: t } => p == package
            && k == kind && t == triple,
        _ => false,
    }
}

/// The path an artifact event reports; empty for any other event.
pub open spec fn event_path(e: EventView) -> Seq<char> {
    match e {
        EventView::CompilerArtifact { package: _, kind: _, path, triple: _ } => path,
        _ => Seq::empty(),
    }
}

/// The position of the first matching event at or after `from`, or the
/// number of events if there is none.
pub open spec fn next_match(
    evs: Seq<EventView>,
    from: int,
    package: Seq<char>,
    kind: ArtifactKind,
    triple: Seq<char>,
) -> int
    decreases evs.len() - from,
{
    if from >= evs.len() {
        evs.len() as int
    } else if from >= 0 && is_match(evs[from], package, kind, triple) {
        from
    } else {
        next_match(evs, from + 1, package, kind, triple)
    }
}

/// What the events hold for one declared artifact.
pub enum Lookup {
    /// No event matches.
    Missing,
    /// Exactly the event at this position matches.
    Unique(int),
    /// The events at these two positions are the first two that match.
    Ambiguous(int, int),
}

/// Looks up the events that match a package, kind and triple.
pub open spec fn lookup(
    evs: Seq<EventView>,
    package: Seq<char>,
    kind: ArtifactKind,
    triple: Seq<char>,
) -> Lookup {
    let i = next_match(evs, 0, package, kind, triple);
    if i >= evs.len() {
        Lookup::Missing
    } else {
        let j = next_match(evs, i + 1, package, kind, triple);
        if j >= evs.len() {
            Lookup::Unique(i)
        } else {
            Lookup::Ambiguous(i, j)
        }
    }
}

/// Whether a list of artifacts holds one of this kind.
pub open spec fn holds_kind(list: Seq<ArtifactView>, kind: ArtifactKind) -> bool {
    exists|k: int| 0 <= k < list.len() && (#[trigger] list[k]).kind == kind
}

/// The resolution of the declarations `decls` of `package`, in their order:
/// a declaration whose condition does not hold is passed over; one with a
/// unique matching event is bound to the path of that event; the first one
/// with no match or with several ends the resolution with that error. Two
/// declarations of one kind cannot both be bound, as they would be bound to
/// the same event: the second is ambiguous.
pub open spec fn resolution(
    evs: Seq<EventView>,
    package: Seq<char>,
    decls: Seq<DeclarationView>,
    enabled: Seq<Seq<char>>,
    triple: Seq<char>,
) -> Result<Seq<ArtifactView>, ResolveErrorView>
    decreases decls.len(),
{
    if decls.len() == 0 {
        Ok(Seq::empty())
    } else {
        let d = decls.last();
        match resolution(evs, package, decls.drop_last(), enabled, triple) {
            Err(e) => Err(e),
            Ok(done) => if !gate_open(d.gate, enabled) {
                Ok(done)
            } else {
                match lookup(evs, package, d.kind, triple) {
                    Lookup::Missing => Err(
                        ResolveErrorView::Missing { package, kind: d.kind, name: d.name, triple },
                    ),
                    Lookup::Unique(i) => if holds_kind(done, d.kind) {
                        Err(
                            ResolveErrorView::Ambiguous {
                                package,
                                kind: d.kind,
                                name: d.name,
                                triple,
                                first: event_path(evs[i]),
                                second: event_path(evs[i]),
                            },
                        )
                    } else {
                        Ok(
                            done.push(
                                ArtifactView {
                                    package,
                                    kind: d.kind,
                                    name: d.name,
                                    path: event_path(evs[i]),
                                    triple,
                                },
                            ),
                        )
                    },
                    Lookup::Ambiguous(i, j) => Err(
                        ResolveErrorView::Ambiguous {
                            package,
                            kind: d.kind,
                            name: d.name,
                            triple,
                            first: event_path(evs[i]),
                            second: event_path(evs[j]),
                        },
                    ),
                }
            },
        }
    }
}

/// The form of what [`resolve`] returns.
pub open spec fn resolve_outcome(r: Result<Vec<ResolvedArtifact>, ResolveError>) -> Result<
    Seq<ArtifactView>,
    ResolveErrorView,
> {
    match r {
        Ok(v) => Ok(artifacts(v@)),
        Err(e) => Err(e@),
    }
}

/// Where the next match stands: no event between `from` and it matches, and
/// it matches itself unless it is past the last event.
pub proof fn lemma_next_match(
    evs: Seq<EventView>,
    from: int,
    package: Seq<char>,
    kind: ArtifactKind,
    triple: Seq<char>,
)
    requires
        0 <= from,
    ensures
        from <= next_match(evs, from, package, kind, triple) || from > evs.len(),
        next_match(evs, from, package, kind, triple) <= evs.len(),
        next_match(evs, from, package, kind, triple) < evs.len() ==> is_match(
            evs[next_match(evs, from, package, kind, triple)],
            package,
            kind,
            triple,
        ),
        forall|k: int|
            from <= k < next_match(evs, from, package, kind, triple) ==> !is_match(
                #[trigger] evs[k],
                package,
                kind,
                triple,
            ),
    decreases evs.len() - from,
{
    if from < evs.len() && !is_match(evs[from], package, kind, triple) {
        lemma_next_match(evs, from + 1, package, kind, triple);
    }
}

/// What a lookup says in terms of the events: missing means that no event
/// matches, unique that exactly one does, ambiguous that two different ones
/// do.
pub proof fn lemma_lookup(
    evs: Seq<EventView>,
    package: Seq<char>,
    kind: ArtifactKind,
    triple: Seq<char>,
)
    ensures
        match lookup(evs, package, kind, triple) {
            Lookup::Missing => forall|k: int|
                0 <= k < evs.len() ==> !is_match(#[trigger] evs[k], package, kind, triple),
            Lookup::Unique(i) => 0 <= i < evs.len() && is_match(evs[i], package, kind, triple)
                && forall|k: int|
                0 <= k < evs.len() && k != i ==> !is_match(
                    #[trigger] evs[k],
                    package,
                    kind,
                    triple,
                ),
            Lookup::Ambiguous(i, j) => 0 <= i < j < evs.len() && is_match(
                evs[i],
                package,
                kind,
                triple,
            ) && is_match(evs[j], package, kind, triple),
        },
{
    lemma_next_match(evs, 0, package, kind, triple);
    let i = next_match(evs, 0, package, kind, triple);
    if i < evs.len() {
        lemma_next_match(evs, i + 1, package, kind, triple);
    }
}

/// Two different matching events make the lookup ambiguous.
pub proof fn lemma_two_matches(
    evs: Seq<EventView>,
    package: Seq<char>,
    kind: ArtifactKind,
    triple: Seq<char>,
    a: int,
    b: int,
)
    requires
        0 <= a < b < evs.len(),
        is_match(evs[a], package, kind, triple),
        is_match(evs[b], package, kind, triple),
    ensures
        lookup(evs, package, kind, triple) is Ambiguous,
{
    lemma_next_match(evs, 0, package, kind, triple);
    let i = next_match(evs, 0, package, kind, triple);
    assert(i <= a);
    lemma_next_match(evs, i + 1, package, kind, triple);
}

/// An error found among the first declarations stays the result, whatever is
/// declared after them.
pub proof fn lemma_error_stays(
    evs: Seq<EventView>,
    package: Seq<char>,
    decls: Seq<DeclarationView>,
    enabled: Seq<Seq<char>>,
    triple: Seq<char>,
    k: int,
)
    requires
        0 <= k <= decls.len(),
        resolution(evs, package, decls.take(k), enabled, triple) is Err,
    ensures
        resolution(evs, package, decls, enabled, triple) == resolution(
            evs,
            package,
            decls.take(k),
            enabled,
            triple,
        ),
    decreases decls.len(),
{
    if k == decls.len() {
        assert(decls.take(k) =~= decls);
    } else {
        assert(decls.drop_last().take(k) =~= decls.take(k));
        lemma_error_stays(evs, package, decls.drop_last(), enabled, triple, k);
    }
}

/// A declaration whose condition does not hold yields no artifact and no
/// error: the resolution is that of the other declarations.
pub proof fn lemma_closed_gate_is_skipped(
    evs: Seq<EventView>,
    package: Seq<char>,
    decls: Seq<DeclarationView>,
    d: DeclarationView,
    enabled: Seq<Seq<char>>,
    triple: Seq<char>,
)
    requires
        !gate_open(d.gate, enabled),
    ensures
        resolution(evs, package, decls.push(d), enabled, triple) == resolution(
            evs,
            package,
            decls,
            enabled,
            triple,
        ),
{
    assert(decls.push(d).drop_last() =~= decls);
}

/// A declaration whose condition holds, which exactly one event matches and
/// whose kind no declaration before it has, yields exactly one artifact,
/// bound to the path of that event.
pub proof fn lemma_open_gate_binds_once(
    evs: Seq<EventView>,
    package: Seq<char>,
    decls: Seq<DeclarationView>,
    d: DeclarationView,
    enabled: Seq<Seq<char>>,
    triple: Seq<char>,
    at: int,
)
    requires
        gate_open(d.gate, enabled),
        0 <= at < evs.len(),
        is_match(evs[at], package, d.kind, triple),
        forall|k: int|
            0 <= k < evs.len() && k != at ==> !is_match(#[trigger] evs[k], package, d.kind, triple),
        resolution(evs, package, decls, enabled, triple) is Ok,
        !holds_kind(resolution(evs, package, decls, enabled, triple)->Ok_0, d.kind),
    ensures
        resolution(evs, package, decls.push(d), enabled, triple) == Ok::<
            Seq<ArtifactView>,
            ResolveErrorView,
        >(
            resolution(evs, package, decls, enabled, triple)->Ok_0.push(
                ArtifactView {
                    package,
                    kind: d.kind,
                    name: d.name,
                    path: event_path(evs[at]),
                    triple,
                },
            ),
        ),
{
    assert(decls.push(d).drop_last() =~= decls);
    lemma_lookup(evs, package, d.kind, triple);
    match lookup(evs, package, d.kind, triple) {
        Lookup::Missing => {
            assert(!is_match(evs[at], package, d.kind, triple));
        },
        Lookup::Unique(i) => {
            assert(i == at);
        },
        Lookup::Ambiguous(i, j) => {
            assert(i == at);
            assert(j == at);
        },
    }
}

/// A declaration whose condition holds and which two different events match
/// ends the resolution as ambiguous, unless a declaration before it has ended
/// it already.
pub proof fn lemma_two_events_are_ambiguous(
    evs: Seq<EventView>,
    package: Seq<char>,
    decls: Seq<DeclarationView>,
    enabled: Seq<Seq<char>>,
    triple: Seq<char>,
    at: int,
    a: int,
    b: int,
)
    requires
        0 <= at < decls.len(),
        gate_open(decls[at].gate, enabled),
        0 <= a < b < evs.len(),
        is_match(evs[a], package, decls[at].kind, triple),
        is_match(evs[b], package, decls[at].kind, triple),
        resolution(evs, package, decls.take(at), enabled, triple) is Ok,
    ensures
        resolution(evs, package, decls, enabled, triple) matches Err(
            ResolveErrorView::Ambiguous { package: p, kind, name, triple: t, .. },
        ) && p == package && kind == decls[at].kind && name == decls[at].name && t == triple,
{
    let upto = decls.take(at + 1);
    assert(upto.drop_last() =~= decls.take(at));
    assert(upto.last() == decls[at]);
    lemma_two_matches(evs, package, decls[at].kind, triple, a, b);
    lemma_error_stays(evs, package, decls, enabled, triple, at + 1);
}

/// How many of the declarations have a condition that holds.
pub open spec fn open_count(decls: Seq<DeclarationView>, enabled: Seq<Seq<char>>) -> nat
    decreases decls.len(),
{
    if decls.len() == 0 {
        0
    } else if gate_open(decls.last().gate, enabled) {
        open_count(decls.drop_last(), enabled) + 1
    } else {
        open_count(decls.drop_last(), enabled)
    }
}

/// A resolution that succeeds binds one artifact for each declaration whose
/// condition holds, each of the asked package and triple and each to the
/// path of a matching event that is the only one of its kind.
pub proof fn lemma_resolution_complete(
    evs: Seq<EventView>,
    package: Seq<char>,
    decls: Seq<DeclarationView>,
    enabled: Seq<Seq<char>>,
    triple: Seq<char>,
)
    requires
        resolution(evs, package, decls, enabled, triple) is Ok,
    ensures
        resolution(evs, package, decls, enabled, triple)->Ok_0.len() == open_count(decls, enabled),
        forall|k: int|
            0 <= k < decls.len() && gate_open(#[trigger] decls[k].gate, enabled) ==> lookup(
                evs,
                package,
                decls[k].kind,
                triple,
            ) is Unique,
        forall|n: int|
            #![trigger resolution(evs, package, decls, enabled, triple)->Ok_0[n]]
            0 <= n < resolution(evs, package, decls, enabled, triple)->Ok_0.len() ==> {
                let a = resolution(evs, package, decls, enabled, triple)->Ok_0[n];
                &&& a.package == package
                &&& a.triple == triple
                &&& lookup(evs, package, a.kind, triple) matches Lookup::Unique(i)
                &&& a.path == event_path(evs[i])
            },
    decreases decls.len(),
{
    if decls.len() > 0 {
        let rest = decls.drop_last();
        lemma_resolution_complete(evs, package, rest, enabled, triple);
        let done = resolution(evs, package, rest, enabled, triple)->Ok_0;
        let all = resolution(evs, package, decls, enabled, triple)->Ok_0;
        assert forall|k: int|
            0 <= k < decls.len() && gate_open(#[trigger] decls[k].gate, enabled) implies lookup(
            evs,
            package,
            decls[k].kind,
            triple,
        ) is Unique by {
            if k < rest.len() {
                assert(rest[k] == decls[k]);
            }
        }
        assert forall|n: int| 0 <= n < all.len() implies {
            let a = #[trigger] all[n];
            &&& a.package == package
            &&& a.triple == triple
            &&& lookup(evs, package, a.kind, triple) matches Lookup::Unique(i)
            &&& a.path == event_path(evs[i])
        } by {
            if n < done.len() {
                assert(all[n] == done[n]);
            }
        }
    }
}

/// A resolution that succeeds binds at most one artifact of each kind: for
/// a package, a kind and a triple there is one resolved artifact.
pub proof fn lemma_one_artifact_per_kind(
    evs: Seq<EventView>,
    package: Seq<char>,
    decls: Seq<DeclarationView>,
    enabled: Seq<Seq<char>>,
    triple: Seq<char>,
)
    requires
        resolution(evs, package, decls, enabled, triple) is Ok,
    ensures
        forall|i: int, j: int|
            #![trigger resolution(evs, package, decls, enabled, triple)->Ok_0[i], resolution(evs, package, decls, enabled, triple)->Ok_0[j]]
            0 <= i < j < resolution(evs, package, decls, enabled, triple)->Ok_0.len()
                ==> resolution(evs, package, decls, enabled, triple)->Ok_0[i].kind != resolution(
                evs,
                package,
                decls,
                enabled,
                triple,
            )->Ok_0[j].kind,
    decreases decls.len(),
{
    if decls.len() > 0 {
        let rest = decls.drop_last();
        lemma_one_artifact_per_kind(evs, package, rest, enabled, triple);
        let done = resolution(evs, package, rest, enabled, triple)->Ok_0;
        let all = resolution(evs, package, decls, enabled, triple)->Ok_0;
        assert forall|i: int, j: int| 0 <= i < j < all.len() implies #[trigger] all[i].kind
            != #[trigger] all[j].kind by {
            if j < done.len() {
                assert(all[i] == done[i] && all[j] == done[j]);
            } else {
                assert(all[i] == done[i]);
                assert(!holds_kind(done, decls.last().kind));
            }
        }
    }
}

fn has_kind(list: &Vec<ResolvedArtifact>, kind: ArtifactKind) -> (r: bool)
    ensures
        r == holds_kind(artifacts(list@), kind),
{
    let mut i: usize = 0;
    while i < list.len()
        invariant
            i <= list.len(),
            forall|k: int| 0 <= k < i ==> list[k].kind != kind,
        decreases list.len() - i,
    {
        if list[i].kind == kind {
            assert(artifacts(list@)[i as int].kind == kind);
            return true;
        }
        i += 1;
    }
    assert forall|k: int| 0 <= k < artifacts(list@).len() implies (#[trigger] artifacts(
        list@,
    )[k]).kind != kind by {
        assert(artifacts(list@)[k] == list[k]@);
    }
    false
}

fn is_artifact_for(e: &DriverEvent, package: &str, kind: ArtifactKind, triple: &str) -> (r: bool)
    ensures
        r == is_match(e@, package@, kind, triple@),
{
    match e {
        DriverEvent::CompilerArtifact { package: p, kind: k, path: _, triple: t } => {
            *k == kind && same_text(p.as_str(), package) && same_text(t.as_str(), triple)
        },
        _ => false,
    }
}

fn path_of(e: &DriverEvent) -> (r: String)
    ensures
        r@ == event_path(e@),
{
    match e {
        DriverEvent::CompilerArtifact { package: _, kind: _, path, triple: _ } => path.clone(),
        _ => String::new(),
    }
}

/// The position of the first event at or after `from` that reports an
/// artifact of the given package, kind and triple, or the number of events
/// if none does.
pub fn next_artifact(
    evs: &Vec<DriverEvent>,
    from: usize,
    package: &str,
    kind: ArtifactKind,
    triple: &str,
) -> (r: usize)
    ensures
        r == next_match(events(evs@), from as int, package@, kind, triple@),
        r <= evs.len(),
{
    let ghost all = events(evs@);
    let mut i: usize = from;
    while i < evs.len()
        invariant
            all == events(evs@),
            from <= i,
            next_match(all, from as int, package@, kind, triple@) == next_match(
                all,
                i as int,
                package@,
                kind,
                triple@,
            ),
        decreases evs.len() - i,
    {
        assert(all[i as int] == evs[i as int]@);
        if is_artifact_for(&evs[i], package, kind, triple) {
            return i;
        }
        i += 1;
    }
    evs.len()
}

/// Resolves the artifacts that `manifest` declares against a build report,
/// for the enabled features and the triple of the build.
pub fn resolve(
    report: &BuildReport,
    manifest: &PackageManifest,
    enabled: &Vec<String>,
    triple: &str,
) -> (r: Result<Vec<ResolvedArtifact>, ResolveError>)
    ensures
        resolve_outcome(r) == resolution(
            report@,
            manifest@.name,
            manifest@.artifacts,
            texts(enabled@),
            triple@,
        ),
{
    let evs = &report.events;
    let decls = &manifest.artifacts;
    let ghost all = events(evs@);
    let ghost views = declarations(decls@);
    let ghost on = texts(enabled@);
    let mut out: Vec<ResolvedArtifact> = Vec::new();
    let mut i: usize = 0;
    assert(artifacts(out@) =~= Seq::empty());
    assert(views.take(0) =~= Seq::empty());
    while i < decls.len()
        invariant
            i <= decls.len(),
            all == events(evs@),
            all == report@,
            views == declarations(decls@),
            views == manifest@.artifacts,
            on == texts(enabled@),
            resolution(all, manifest@.name, views.take(i as int), on, triple@) == Ok::<
                Seq<ArtifactView>,
                ResolveErrorView,
            >(artifacts(out@)),
        decreases decls.len() - i,
    {
        let d = &decls[i];
        proof {
            assert(views.take(i + 1).drop_last() =~= views.take(i as int));
            assert(views.take(i + 1).last() == d@);
        }
        if gate_passes(&d.gate, enabled) {
            let first = next_artifact(evs, 0, manifest.name.as_str(), d.kind, triple);
            if first >= evs.len() {
                proof {
                    lemma_error_stays(all, manifest@.name, views, on, triple@, i + 1);
                }
                return Err(
                    ResolveError::Missing {
                        package: manifest.name.clone(),
                        kind: d.kind,
                        name: d.name.clone(),
                        triple: String::from_str(triple),
                    },
                );
            }
            let second = next_artifact(evs, first + 1, manifest.name.as_str(), d.kind, triple);
            if second < evs.len() {
                proof {
                    lemma_error_stays(all, manifest@.name, views, on, triple@, i + 1);
                    assert(all[first as int] == evs[first as int]@);
                    assert(all[second as int] == evs[second as int]@);
                }
                return Err(
                    ResolveError::Ambiguous {
                        package: manifest.name.clone(),
                        kind: d.kind,
                        name: d.name.clone(),
                        triple: String::from_str(triple),
                        first: path_of(&evs[first]),
                        second: path_of(&evs[second]),
                    },
                );
            }
            if has_kind(&out, d.kind) {
                proof {
                    lemma_error_stays(all, manifest@.name, views, on, triple@, i + 1);
                    assert(all[first as int] == evs[first as int]@);
                }
                return Err(
                    ResolveError::Ambiguous {
                        package: manifest.name.clone(),
                        kind: d.kind,
                        name: d.name.clone(),
                        triple: String::from_str(triple),
                        first: path_of(&evs[first]),
                        second: path_of(&evs[first]),
                    },
                );
            }
            let ghost before = artifacts(out@);
            let bound = ResolvedArtifact {
                package: manifest.name.clone(),
                kind: d.kind,
                name: d.name.clone(),
                path: path_of(&evs[first]),
                triple: String::from_str(triple),
            };
            proof {
                assert(all[first as int] == evs[first as int]@);
            }
            out.push(bound);
            assert(artifacts(out@) =~= before.push(bound@));
        }
        i += 1;
    }
    assert(views.take(i as int) =~= views);
    Ok(out)
}

} // verus!
