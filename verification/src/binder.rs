//! The nodes that the host build graph sees, and when a build is due.
//!
//! The binder keeps one build unit for each package and triple. A unit is
//! stale, building, fresh or failed, and holds the artifacts of its last
//! successful build. Before the driver runs, the caller asks with
//! [`Binder::request`]; only the answer [`Decision::Start`] makes it run the
//! driver, and it then reports back with [`Binder::bind`], [`Binder::fail`]
//! or [`Binder::cancel`].

use vstd::prelude::*;
use vstd::string::*;
use crate::error::{error_of, BridgeError, BridgeErrorView};
use crate::manifest::ArtifactKind;
use crate::planner::{copy_fingerprints, fingerprints, CacheKey, Fingerprint, FingerprintView};
use crate::resolver::{artifacts, copy_artifacts, ArtifactView, ResolvedArtifact};
use crate::text::same_text;

verus! {

/// The state of a build unit and of its nodes.
#[derive(Clone, Copy, Debug, PartialEq, Eq, Structural)]
pub enum NodeState {
    /// A build is due and none is going on.
    Stale,
    /// The driver is running for this unit.
    Building,
    /// The artifacts are those of the inputs asked for last.
    Fresh,
    /// The last build failed; nothing changes until the inputs do.
    Failed,
}

/// What a caller that asks for a build has to do.
#[derive(Clone, Copy, Debug, PartialEq, Eq, Structural)]
pub enum Decision {
    /// Run the driver, then report the outcome.
    Start,
    /// A run for the same inputs is going on: wait for it and share its
    /// outcome.
    Join,
    /// The unit is fresh for these inputs: use its nodes.
    Reuse,
    /// The last build for these inputs failed: report its error.
    Failed,
    /// A run for other inputs is going on in the same output directory: ask
    /// again when it is over.
    Busy,
}

/// One build unit: a package built for a triple.
#[derive(Debug)]
pub struct Unit {
    package: String,
    triple: String,
    key: CacheKey,
    state: NodeState,
    artifacts: Vec<ResolvedArtifact>,
    deps: Vec<Fingerprint>,
    failure: Option<BridgeError>,
}

/// The mathematical form of a [`Unit`].
pub struct UnitView {
    pub package: Seq<char>,
    pub triple: Seq<char>,
    /// The key of the inputs asked for last.
    pub key: CacheKey,
    pub state: NodeState,
    /// The artifacts of the last successful build.
    pub artifacts: Seq<ArtifactView>,
    /// The fingerprints that build depended on.
    pub deps: Seq<FingerprintView>,
    /// The error of the last build, if it failed.
    pub failure: Option<BridgeErrorView>,
}

impl View for Unit {
    type V = UnitView;

    closed spec fn view(&self) -> UnitView {
        UnitView {
            package: self.package@,
            triple: self.triple@,
            key: self.key,
            state: self.state,
            artifacts: artifacts(self.artifacts@),
            deps: fingerprints(self.deps@),
            failure: error_of(self.failure),
        }
    }
}

/// A node of the host build graph: one artifact with what it depends on.
#[derive(Debug)]
pub struct GraphNode {
    pub artifact: ResolvedArtifact,
    /// The fingerprints of the manifest and the sources the artifact was
    /// built from.
    pub deps: Vec<Fingerprint>,
    /// The key of the inputs asked for last.
    pub key: CacheKey,
    pub state: NodeState,
}

/// The mathematical form of a [`GraphNode`].
pub struct NodeView {
    pub artifact: ArtifactView,
    pub deps: Seq<FingerprintView>,
    pub key: CacheKey,
    pub state: NodeState,
}

impl View for GraphNode {
    type V = NodeView;

    open spec fn view(&self) -> NodeView {
        NodeView {
            artifact: self.artifact@,
            deps: fingerprints(self.deps@),
            key: self.key,
            state: self.state,
        }
    }
}

/// The form of an optional node.
pub open spec fn node_view(n: Option<GraphNode>) -> Option<NodeView> {
    match n {
        Some(inner) => Some(inner@),
        None => None,
    }
}

/// Whether a unit is the one for this package and triple.
pub open spec fn is_unit(u: UnitView, package: Seq<char>, triple: Seq<char>) -> bool {
    u.package == package && u.triple == triple
}

/// The position of the first unit at or after `from` for this package and
/// triple, or the number of units if there is none.
pub open spec fn position_from(
    units: Seq<UnitView>,
    from: int,
    package: Seq<char>,
    triple: Seq<char>,
) -> int
    decreases units.len() - from,
{
    if from >= units.len() {
        units.len() as int
    } else if from >= 0 && is_unit(units[from], package, triple) {
        from
    } else {
        position_from(units, from + 1, package, triple)
    }
}

/// The position of the unit for this package and triple, or the number of
/// units if there is none.
pub open spec fn position(units: Seq<UnitView>, package: Seq<char>, triple: Seq<char>) -> int {
    position_from(units, 0, package, triple)
}

/// The unit for this package and triple, if there is one.
pub open spec fn unit_of(units: Seq<UnitView>, package: Seq<char>, triple: Seq<char>) -> Option<
    UnitView,
> {
    let i = position(units, package, triple);
    if 0 <= i < units.len() {
        Some(units[i])
    } else {
        None
    }
}

/// The position of the first artifact of this kind at or after `from`, or
/// the number of artifacts if there is none.
pub open spec fn kind_from(list: Seq<ArtifactView>, from: int, kind: ArtifactKind) -> int
    decreases list.len() - from,
{
    if from >= list.len() {
        list.len() as int
    } else if from >= 0 && list[from].kind == kind {
        from
    } else {
        kind_from(list, from + 1, kind)
    }
}

/// The node for this package, kind and triple, if there is one: the first
/// artifact of that kind in the unit of the package and triple, in the state
/// of that unit.
pub open spec fn node_of(
    units: Seq<UnitView>,
    package: Seq<char>,
    kind: ArtifactKind,
    triple: Seq<char>,
) -> Option<NodeView> {
    match unit_of(units, package, triple) {
        None => None,
        Some(u) => {
            let i = kind_from(u.artifacts, 0, kind);
            if 0 <= i < u.artifacts.len() {
                Some(NodeView { artifact: u.artifacts[i], deps: u.deps, key: u.key, state: u.state })
            } else {
                None
            }
        },
    }
}

/// What a request for a build of `package` for `triple` with the inputs
/// `key` is answered.
pub open spec fn decide(
    units: Seq<UnitView>,
    package: Seq<char>,
    triple: Seq<char>,
    key: CacheKey,
) -> Decision {
    match unit_of(units, package, triple) {
        None => Decision::Start,
        Some(u) => if u.state == NodeState::Building {
            if u.key == key {
                Decision::Join
            } else {
                Decision::Busy
            }
        } else if u.key != key {
            Decision::Start
        } else {
            match u.state {
                NodeState::Fresh => Decision::Reuse,
                NodeState::Failed => Decision::Failed,
                _ => Decision::Start,
            }
        },
    }
}

/// The units with the one at `i` replaced, or with `u` added if `i` is past
/// the last.
pub open spec fn put(units: Seq<UnitView>, i: int, u: UnitView) -> Seq<UnitView> {
    if 0 <= i < units.len() {
        units.update(i, u)
    } else {
        units.push(u)
    }
}

/// The units after a request. Only the answer `Start` changes anything: the
/// unit takes the new key and is building; it keeps the artifacts of its last
/// successful build until the outcome is reported.
pub open spec fn after_request(
    units: Seq<UnitView>,
    package: Seq<char>,
    triple: Seq<char>,
    key: CacheKey,
) -> Seq<UnitView> {
    if decide(units, package, triple, key) == Decision::Start {
        let started = match unit_of(units, package, triple) {
            Some(u) => UnitView { key, state: NodeState::Building, failure: None, ..u },
            None => UnitView {
                package,
                triple,
                key,
                state: NodeState::Building,
                artifacts: Seq::empty(),
                deps: Seq::empty(),
                failure: None,
            },
        };
        put(units, position(units, package, triple), started)
    } else {
        units
    }
}

/// Whether the unit for this package and triple is building for `key`.
pub open spec fn in_flight(
    units: Seq<UnitView>,
    package: Seq<char>,
    triple: Seq<char>,
    key: CacheKey,
) -> bool {
    match unit_of(units, package, triple) {
        Some(u) => u.state == NodeState::Building && u.key == key,
        None => false,
    }
}

/// The units after a successful build is reported. Unless the unit is
/// building for `key`, nothing changes.
pub open spec fn after_bind(
    units: Seq<UnitView>,
    package: Seq<char>,
    triple: Seq<char>,
    key: CacheKey,
    built: Seq<ArtifactView>,
    deps: Seq<FingerprintView>,
) -> Seq<UnitView> {
    if in_flight(units, package, triple, key) {
        let i = position(units, package, triple);
        units.update(
            i,
            UnitView { state: NodeState::Fresh, artifacts: built, deps, failure: None, ..units[i] },
        )
    } else {
        units
    }
}

/// The units after a failed build is reported: the unit is failed, carries
/// the error and holds no artifact. Unless the unit is building for `key`,
/// nothing changes.
pub open spec fn after_fail(
    units: Seq<UnitView>,
    package: Seq<char>,
    triple: Seq<char>,
    key: CacheKey,
    error: BridgeErrorView,
) -> Seq<UnitView> {
    if in_flight(units, package, triple, key) {
        let i = position(units, package, triple);
        units.update(
            i,
            UnitView {
                state: NodeState::Failed,
                artifacts: Seq::empty(),
                deps: Seq::empty(),
                failure: Some(error),
                ..units[i]
            },
        )
    } else {
        units
    }
}

/// The units after a build is cancelled: the unit is stale again. Unless the
/// unit is building for `key`, nothing changes.
pub open spec fn after_cancel(
    units: Seq<UnitView>,
    package: Seq<char>,
    triple: Seq<char>,
    key: CacheKey,
) -> Seq<UnitView> {
    if in_flight(units, package, triple, key) {
        let i = position(units, package, triple);
        units.update(i, UnitView { state: NodeState::Stale, ..units[i] })
    } else {
        units
    }
}

/// The units after the host graph has removed the nodes of a package and
/// triple: the unit is gone. A unit that is building stays, as its run still
/// owns the output directory.
pub open spec fn after_remove(units: Seq<UnitView>, package: Seq<char>, triple: Seq<char>) -> Seq<
    UnitView,
> {
    match unit_of(units, package, triple) {
        Some(u) if u.state != NodeState::Building => units.remove(
            position(units, package, triple),
        ),
        _ => units,
    }
}

/// No two units are for the same package and triple.
pub open spec fn distinct(units: Seq<UnitView>) -> bool {
    forall|i: int, j: int|
        0 <= i < j < units.len() ==> !is_unit(
            #[trigger] units[j],
            (#[trigger] units[i]).package,
            units[i].triple,
        )
}

/// The forms of a list of units.
pub open spec fn unit_views(v: Seq<Unit>) -> Seq<UnitView> {
    v.map_values(|u: Unit| u@)
}

/// The registry of build units.
#[derive(Debug)]
pub struct Binder {
    units: Vec<Unit>,
}

impl View for Binder {
    type V = Seq<UnitView>;

    closed spec fn view(&self) -> Seq<UnitView> {
        unit_views(self.units@)
    }
}

/// Every step keeps the units distinct.
pub proof fn lemma_steps_keep_distinct(
    units: Seq<UnitView>,
    package: Seq<char>,
    triple: Seq<char>,
    key: CacheKey,
    built: Seq<ArtifactView>,
    deps: Seq<FingerprintView>,
    error: BridgeErrorView,
)
    requires
        distinct(units),
    ensures
        distinct(after_request(units, package, triple, key)),
        distinct(after_bind(units, package, triple, key, built, deps)),
        distinct(after_fail(units, package, triple, key, error)),
        distinct(after_cancel(units, package, triple, key)),
        distinct(after_remove(units, package, triple)),
{
    let i = position(units, package, triple);
    lemma_position(units, 0, package, triple);
    let a = after_request(units, package, triple, key);
    assert forall|x: int, y: int| 0 <= x < y < a.len() implies !is_unit(
        #[trigger] a[y],
        (#[trigger] a[x]).package,
        a[x].triple,
    ) by {
        if a.len() > units.len() {
            if y < units.len() {
                assert(a[x] == units[x] && a[y] == units[y]);
            } else {
                assert(a[x] == units[x]);
                assert(!is_unit(units[x], package, triple));
            }
        } else if a != units {
            assert(a[x].package == units[x].package && a[x].triple == units[x].triple);
            assert(a[y].package == units[y].package && a[y].triple == units[y].triple);
            assert(!is_unit(units[y], units[x].package, units[x].triple));
        }
    }
    let b = after_bind(units, package, triple, key, built, deps);
    assert forall|x: int, y: int| 0 <= x < y < b.len() implies !is_unit(
        #[trigger] b[y],
        (#[trigger] b[x]).package,
        b[x].triple,
    ) by {
        assert(b[x].package == units[x].package && b[x].triple == units[x].triple);
        assert(b[y].package == units[y].package && b[y].triple == units[y].triple);
        assert(!is_unit(units[y], units[x].package, units[x].triple));
    }
    let f = after_fail(units, package, triple, key, error);
    assert forall|x: int, y: int| 0 <= x < y < f.len() implies !is_unit(
        #[trigger] f[y],
        (#[trigger] f[x]).package,
        f[x].triple,
    ) by {
        assert(f[x].package == units[x].package && f[x].triple == units[x].triple);
        assert(f[y].package == units[y].package && f[y].triple == units[y].triple);
        assert(!is_unit(units[y], units[x].package, units[x].triple));
    }
    let c = after_cancel(units, package, triple, key);
    assert forall|x: int, y: int| 0 <= x < y < c.len() implies !is_unit(
        #[trigger] c[y],
        (#[trigger] c[x]).package,
        c[x].triple,
    ) by {
        assert(c[x].package == units[x].package && c[x].triple == units[x].triple);
        assert(c[y].package == units[y].package && c[y].triple == units[y].triple);
        assert(!is_unit(units[y], units[x].package, units[x].triple));
    }
    let r = after_remove(units, package, triple);
    assert forall|x: int, y: int| 0 <= x < y < r.len() implies !is_unit(
        #[trigger] r[y],
        (#[trigger] r[x]).package,
        r[x].triple,
    ) by {
        if r != units {
            let x0 = if x < i {
                x
            } else {
                x + 1
            };
            let y0 = if y < i {
                y
            } else {
                y + 1
            };
            assert(r[x] == units[x0] && r[y] == units[y0]);
            assert(!is_unit(units[y0], units[x0].package, units[x0].triple));
        } else {
            assert(!is_unit(units[y], units[x].package, units[x].triple));
        }
    }
}

/// Once the nodes of a package and triple are removed, nothing is left of
/// them: there is no unit and no node, and the next request starts a build.
/// The units of every other package and triple stay as they were.
pub proof fn lemma_removed_is_gone(
    units: Seq<UnitView>,
    package: Seq<char>,
    triple: Seq<char>,
    key: CacheKey,
    kind: ArtifactKind,
    other_package: Seq<char>,
    other_triple: Seq<char>,
)
    requires
        distinct(units),
        unit_of(units, package, triple) matches Some(u) && u.state != NodeState::Building,
    ensures
        unit_of(after_remove(units, package, triple), package, triple) is None,
        node_of(after_remove(units, package, triple), package, kind, triple) is None,
        decide(after_remove(units, package, triple), package, triple, key) == Decision::Start,
        !(other_package == package && other_triple == triple) ==> unit_of(
            after_remove(units, package, triple),
            other_package,
            other_triple,
        ) == unit_of(units, other_package, other_triple),
{
    let i = position(units, package, triple);
    lemma_position(units, 0, package, triple);
    let r = after_remove(units, package, triple);
    assert forall|k: int| 0 <= k < r.len() implies !is_unit(#[trigger] r[k], package, triple) by {
        if k < i {
            assert(r[k] == units[k]);
        } else {
            assert(r[k] == units[k + 1]);
            assert(!is_unit(units[k + 1], units[i].package, units[i].triple));
        }
    }
    lemma_position_is(r, 0, package, triple, r.len() as int);
    if !(other_package == package && other_triple == triple) {
        let j = position(units, other_package, other_triple);
        lemma_position(units, 0, other_package, other_triple);
        let j0 = if j < i {
            j
        } else {
            j - 1
        };
        assert forall|k: int| 0 <= k < j0 implies !is_unit(
            #[trigger] r[k],
            other_package,
            other_triple,
        ) by {
            if k < i {
                assert(r[k] == units[k]);
            } else {
                assert(r[k] == units[k + 1]);
            }
        }
        if j < units.len() {
            assert(j != i);
            assert(r[j0] == units[j]);
        }
        lemma_position_is(r, 0, other_package, other_triple, j0);
    }
}

/// Where the unit of a package and triple stands: no unit in front of it is
/// for them, and it is for them unless it is past the last unit.
pub proof fn lemma_position(units: Seq<UnitView>, from: int, package: Seq<char>, triple: Seq<char>)
    requires
        0 <= from,
    ensures
        from <= position_from(units, from, package, triple) || from > units.len(),
        position_from(units, from, package, triple) <= units.len(),
        position_from(units, from, package, triple) < units.len() ==> is_unit(
            units[position_from(units, from, package, triple)],
            package,
            triple,
        ),
        forall|k: int|
            from <= k < position_from(units, from, package, triple) ==> !is_unit(
                #[trigger] units[k],
                package,
                triple,
            ),
    decreases units.len() - from,
{
    if from < units.len() && !is_unit(units[from], package, triple) {
        lemma_position(units, from + 1, package, triple);
    }
}

/// The position of a package and triple is the first place at or after
/// `from` that holds a unit for them.
pub proof fn lemma_position_is(
    units: Seq<UnitView>,
    from: int,
    package: Seq<char>,
    triple: Seq<char>,
    at: int,
)
    requires
        0 <= from <= at <= units.len(),
        forall|k: int| from <= k < at ==> !is_unit(#[trigger] units[k], package, triple),
        at < units.len() ==> is_unit(units[at], package, triple),
    ensures
        position_from(units, from, package, triple) == at,
    decreases units.len() - from,
{
    if from < at {
        assert(!is_unit(units[from], package, triple));
        lemma_position_is(units, from + 1, package, triple, at);
    }
}

/// Putting a unit for a package and triple at their position leaves every
/// other package and triple with the unit it had, and gives them the unit
/// put.
pub proof fn lemma_put(
    units: Seq<UnitView>,
    package: Seq<char>,
    triple: Seq<char>,
    u: UnitView,
    other_package: Seq<char>,
    other_triple: Seq<char>,
)
    requires
        is_unit(u, package, triple),
    ensures
        unit_of(put(units, position(units, package, triple), u), package, triple) == Some(u),
        position(put(units, position(units, package, triple), u), package, triple) == position(
            units,
            package,
            triple,
        ),
        !(other_package == package && other_triple == triple) ==> unit_of(
            put(units, position(units, package, triple), u),
            other_package,
            other_triple,
        ) == unit_of(units, other_package, other_triple),
{
    let i = position(units, package, triple);
    let after = put(units, i, u);
    lemma_position(units, 0, package, triple);
    assert forall|k: int| 0 <= k < i implies !is_unit(#[trigger] after[k], package, triple) by {
        assert(after[k] == units[k]);
    }
    lemma_position_is(after, 0, package, triple, i);
    if !(other_package == package && other_triple == triple) {
        let j = position(units, other_package, other_triple);
        lemma_position(units, 0, other_package, other_triple);
        assert forall|k: int| 0 <= k < j implies !is_unit(
            #[trigger] after[k],
            other_package,
            other_triple,
        ) by {
            if k != i {
                assert(after[k] == units[k]);
            }
        }
        if j < units.len() {
            assert(j != i);
            assert(after[j] == units[j]);
            lemma_position_is(after, 0, other_package, other_triple, j);
        } else {
            assert forall|k: int| 0 <= k < after.len() implies !is_unit(
                #[trigger] after[k],
                other_package,
                other_triple,
            ) by {
                if k != i {
                    assert(after[k] == units[k]);
                }
            }
            lemma_position_is(after, 0, other_package, other_triple, after.len() as int);
        }
    }
}

/// What each step does to the unit it is about, and that it leaves every
/// other unit as it was.
pub proof fn lemma_steps(
    units: Seq<UnitView>,
    package: Seq<char>,
    triple: Seq<char>,
    key: CacheKey,
    built: Seq<ArtifactView>,
    deps: Seq<FingerprintView>,
    error: BridgeErrorView,
    other_package: Seq<char>,
    other_triple: Seq<char>,
)
    ensures
        decide(units, package, triple, key) == Decision::Start ==> in_flight(
            after_request(units, package, triple, key),
            package,
            triple,
            key,
        ),
        in_flight(units, package, triple, key) ==> {
            &&& unit_of(after_bind(units, package, triple, key, built, deps), package, triple)
                == Some(
                UnitView {
                    state: NodeState::Fresh,
                    artifacts: built,
                    deps,
                    failure: None,
                    ..unit_of(units, package, triple)->Some_0
                },
            )
            &&& unit_of(after_fail(units, package, triple, key, error), package, triple) == Some(
                UnitView {
                    state: NodeState::Failed,
                    artifacts: Seq::empty(),
                    deps: Seq::empty(),
                    failure: Some(error),
                    ..unit_of(units, package, triple)->Some_0
                },
            )
            &&& unit_of(after_cancel(units, package, triple, key), package, triple) == Some(
                UnitView { state: NodeState::Stale, ..unit_of(units, package, triple)->Some_0 },
            )
        },
        !(other_package == package && other_triple == triple) ==> {
            &&& unit_of(after_request(units, package, triple, key), other_package, other_triple)
                == unit_of(units, other_package, other_triple)
            &&& unit_of(
                after_bind(units, package, triple, key, built, deps),
                other_package,
                other_triple,
            ) == unit_of(units, other_package, other_triple)
            &&& unit_of(
                after_fail(units, package, triple, key, error),
                other_package,
                other_triple,
            ) == unit_of(units, other_package, other_triple)
            &&& unit_of(after_cancel(units, package, triple, key), other_package, other_triple)
                == unit_of(units, other_package, other_triple)
        },
{
    let i = position(units, package, triple);
    lemma_position(units, 0, package, triple);
    if decide(units, package, triple, key) == Decision::Start {
        let started = match unit_of(units, package, triple) {
            Some(u) => UnitView { key, state: NodeState::Building, failure: None, ..u },
            None => UnitView {
                package,
                triple,
                key,
                state: NodeState::Building,
                artifacts: Seq::empty(),
                deps: Seq::empty(),
                failure: None,
            },
        };
        lemma_put(units, package, triple, started, other_package, other_triple);
    }
    if in_flight(units, package, triple, key) {
        let u = units[i];
        lemma_put(
            units,
            package,
            triple,
            UnitView { state: NodeState::Fresh, artifacts: built, deps, failure: None, ..u },
            other_package,
            other_triple,
        );
        lemma_put(
            units,
            package,
            triple,
            UnitView {
                state: NodeState::Failed,
                artifacts: Seq::empty(),
                deps: Seq::empty(),
                failure: Some(error),
                ..u
            },
            other_package,
            other_triple,
        );
        lemma_put(
            units,
            package,
            triple,
            UnitView { state: NodeState::Stale, ..u },
            other_package,
            other_triple,
        );
    }
}

/// A request that is answered `Start` is answered `Join` for as long as the
/// build is going on, and asking again changes nothing: of any number of
/// requests for the same inputs, one starts the driver.
pub proof fn lemma_single_flight(
    units: Seq<UnitView>,
    package: Seq<char>,
    triple: Seq<char>,
    key: CacheKey,
)
    requires
        decide(units, package, triple, key) == Decision::Start,
    ensures
        decide(after_request(units, package, triple, key), package, triple, key)
            == Decision::Join,
        after_request(after_request(units, package, triple, key), package, triple, key)
            == after_request(units, package, triple, key),
{
    let e = BridgeErrorView::Driver(crate::driver::DriverErrorView::Timeout);
    lemma_steps(units, package, triple, key, Seq::empty(), Seq::empty(), e, package, triple);
}

/// Callers that asked for the same inputs while one build was going on see
/// the one outcome of that build: once it is bound, the unit is fresh and
/// holds exactly the artifacts that were bound, whoever looks.
pub proof fn lemma_joiners_share_outcome(
    units: Seq<UnitView>,
    package: Seq<char>,
    triple: Seq<char>,
    key: CacheKey,
    built: Seq<ArtifactView>,
    deps: Seq<FingerprintView>,
)
    requires
        decide(units, package, triple, key) == Decision::Start,
    ensures
        ({
            let started = after_request(units, package, triple, key);
            let joined = after_request(started, package, triple, key);
            let bound = after_bind(joined, package, triple, key, built, deps);
            &&& decide(started, package, triple, key) == Decision::Join
            &&& joined == started
            &&& unit_of(bound, package, triple) matches Some(u) && u.state == NodeState::Fresh
                && u.artifacts == built && u.deps == deps && u.key == key
        }),
{
    let e = BridgeErrorView::Driver(crate::driver::DriverErrorView::Timeout);
    let started = after_request(units, package, triple, key);
    lemma_steps(units, package, triple, key, built, deps, e, package, triple);
    lemma_steps(started, package, triple, key, built, deps, e, package, triple);
}

/// Once a build has been bound, a request for the same inputs is answered
/// `Reuse` and changes nothing, and binding the same outcome again changes
/// nothing: unchanged inputs start the driver once.
pub proof fn lemma_rebuild_suppressed(
    units: Seq<UnitView>,
    package: Seq<char>,
    triple: Seq<char>,
    key: CacheKey,
    built: Seq<ArtifactView>,
    deps: Seq<FingerprintView>,
)
    requires
        decide(units, package, triple, key) == Decision::Start,
    ensures
        ({
            let building = after_request(units, package, triple, key);
            let bound = after_bind(building, package, triple, key, built, deps);
            &&& decide(bound, package, triple, key) == Decision::Reuse
            &&& after_request(bound, package, triple, key) == bound
            &&& after_bind(bound, package, triple, key, built, deps) == bound
        }),
{
    let e = BridgeErrorView::Driver(crate::driver::DriverErrorView::Timeout);
    let building = after_request(units, package, triple, key);
    lemma_steps(units, package, triple, key, built, deps, e, package, triple);
    lemma_steps(building, package, triple, key, built, deps, e, package, triple);
}

/// A request with other inputs than those a unit was built or has failed
/// for starts a build again.
pub proof fn lemma_changed_inputs_rebuild(
    units: Seq<UnitView>,
    package: Seq<char>,
    triple: Seq<char>,
    key: CacheKey,
)
    requires
        unit_of(units, package, triple) matches Some(u) && u.key != key && u.state
            != NodeState::Building,
    ensures
        decide(units, package, triple, key) == Decision::Start,
{
}

/// A failed build leaves the unit failed with its error and without any
/// node, and a request for the same inputs is answered `Failed` until the
/// inputs change.
pub proof fn lemma_failure_is_terminal(
    units: Seq<UnitView>,
    package: Seq<char>,
    triple: Seq<char>,
    key: CacheKey,
    error: BridgeErrorView,
    kind: ArtifactKind,
)
    requires
        in_flight(units, package, triple, key),
    ensures
        ({
            let failed = after_fail(units, package, triple, key, error);
            &&& unit_of(failed, package, triple) matches Some(u) && u.state == NodeState::Failed
                && u.failure == Some(error)
            &&& node_of(failed, package, kind, triple) is None
            &&& decide(failed, package, triple, key) == Decision::Failed
            &&& after_request(failed, package, triple, key) == failed
        }),
{
    lemma_steps(units, package, triple, key, Seq::empty(), Seq::empty(), error, package, triple);
}

/// No step on the unit of one package and triple touches the nodes of
/// another: a build for the host and a build for another triple of the same
/// package stand side by side.
pub proof fn lemma_units_are_separate(
    units: Seq<UnitView>,
    package: Seq<char>,
    triple: Seq<char>,
    key: CacheKey,
    built: Seq<ArtifactView>,
    deps: Seq<FingerprintView>,
    error: BridgeErrorView,
    other_package: Seq<char>,
    other_triple: Seq<char>,
    kind: ArtifactKind,
)
    requires
        !(other_package == package && other_triple == triple),
    ensures
        node_of(after_request(units, package, triple, key), other_package, kind, other_triple)
            == node_of(units, other_package, kind, other_triple),
        node_of(
            after_bind(units, package, triple, key, built, deps),
            other_package,
            kind,
            other_triple,
        ) == node_of(units, other_package, kind, other_triple),
        node_of(after_fail(units, package, triple, key, error), other_package, kind, other_triple)
            == node_of(units, other_package, kind, other_triple),
        node_of(after_cancel(units, package, triple, key), other_package, kind, other_triple)
            == node_of(units, other_package, kind, other_triple),
{
    lemma_steps(units, package, triple, key, built, deps, error, other_package, other_triple);
}

/// After a build is bound, the node of an artifact kind is the first
/// artifact of that kind among those bound, fresh, with the fingerprints
/// given.
pub proof fn lemma_bound_node(
    units: Seq<UnitView>,
    package: Seq<char>,
    triple: Seq<char>,
    key: CacheKey,
    built: Seq<ArtifactView>,
    deps: Seq<FingerprintView>,
    at: int,
)
    requires
        in_flight(units, package, triple, key),
        0 <= at < built.len(),
        forall|k: int| 0 <= k < at ==> (#[trigger] built[k]).kind != built[at].kind,
    ensures
        node_of(after_bind(units, package, triple, key, built, deps), package, built[at].kind, triple)
            == Some(NodeView { artifact: built[at], deps, key, state: NodeState::Fresh }),
{
    let e = BridgeErrorView::Driver(crate::driver::DriverErrorView::Timeout);
    lemma_steps(units, package, triple, key, built, deps, e, package, triple);
    lemma_kind_is(built, 0, built[at].kind, at);
}

proof fn lemma_kind_is(list: Seq<ArtifactView>, from: int, kind: ArtifactKind, at: int)
    requires
        0 <= from <= at <= list.len(),
        forall|k: int| from <= k < at ==> (#[trigger] list[k]).kind != kind,
        at < list.len() ==> list[at].kind == kind,
    ensures
        kind_from(list, from, kind) == at,
    decreases list.len() - from,
{
    if from < at {
        assert(list[from].kind != kind);
        lemma_kind_is(list, from + 1, kind, at);
    }
}

/// What can happen to a build unit.
#[derive(Clone, Copy, Debug, PartialEq, Eq, Structural)]
pub enum NodeEvent {
    /// A fingerprint or the configuration changed.
    InputsChanged,
    /// The driver was started.
    Started,
    /// The driver succeeded and the artifacts were resolved.
    Succeeded,
    /// The driver or the resolution failed.
    Failed,
    /// The host graph cancelled the build.
    Cancelled,
}

/// The state machine of a build unit. An event that does not apply in a
/// state leaves the state as it is.
pub open spec fn next_state(s: NodeState, e: NodeEvent) -> NodeState {
    match (s, e) {
        (NodeState::Fresh, NodeEvent::InputsChanged) => NodeState::Stale,
        (NodeState::Failed, NodeEvent::InputsChanged) => NodeState::Stale,
        (NodeState::Stale, NodeEvent::Started) => NodeState::Building,
        (NodeState::Building, NodeEvent::Succeeded) => NodeState::Fresh,
        (NodeState::Building, NodeEvent::Failed) => NodeState::Failed,
        (NodeState::Building, NodeEvent::Cancelled) => NodeState::Stale,
        _ => s,
    }
}

impl NodeState {
    /// The state that follows this one on `event`.
    pub fn on(self, event: NodeEvent) -> (r: NodeState)
        ensures
            r == next_state(self, event),
    {
        match (self, event) {
            (NodeState::Fresh, NodeEvent::InputsChanged) => NodeState::Stale,
            (NodeState::Failed, NodeEvent::InputsChanged) => NodeState::Stale,
            (NodeState::Stale, NodeEvent::Started) => NodeState::Building,
            (NodeState::Building, NodeEvent::Succeeded) => NodeState::Fresh,
            (NodeState::Building, NodeEvent::Failed) => NodeState::Failed,
            (NodeState::Building, NodeEvent::Cancelled) => NodeState::Stale,
            _ => self,
        }
    }
}

/// Every step of the binder moves its unit along the state machine: a
/// request that starts a build sees the inputs change, if they did, and then
/// the start; the three reports are the three ways out of building.
pub proof fn lemma_steps_follow_machine(
    units: Seq<UnitView>,
    package: Seq<char>,
    triple: Seq<char>,
    key: CacheKey,
    built: Seq<ArtifactView>,
    deps: Seq<FingerprintView>,
    error: BridgeErrorView,
)
    ensures
        (decide(units, package, triple, key) == Decision::Start && unit_of(
            units,
            package,
            triple,
        ) is Some) ==> unit_of(
            after_request(units, package, triple, key),
            package,
            triple,
        )->Some_0.state == next_state(
            if unit_of(units, package, triple)->Some_0.key != key {
                next_state(unit_of(units, package, triple)->Some_0.state, NodeEvent::InputsChanged)
            } else {
                unit_of(units, package, triple)->Some_0.state
            },
            NodeEvent::Started,
        ),
        (decide(units, package, triple, key) == Decision::Start && unit_of(
            units,
            package,
            triple,
        ) is None) ==> unit_of(
            after_request(units, package, triple, key),
            package,
            triple,
        )->Some_0.state == next_state(NodeState::Stale, NodeEvent::Started),
        in_flight(units, package, triple, key) ==> {
            let s = unit_of(units, package, triple)->Some_0.state;
            &&& unit_of(
                after_bind(units, package, triple, key, built, deps),
                package,
                triple,
            )->Some_0.state == next_state(s, NodeEvent::Succeeded)
            &&& unit_of(
                after_fail(units, package, triple, key, error),
                package,
                triple,
            )->Some_0.state == next_state(s, NodeEvent::Failed)
            &&& unit_of(after_cancel(units, package, triple, key), package, triple)->Some_0.state
                == next_state(s, NodeEvent::Cancelled)
        },
{
    lemma_steps(units, package, triple, key, built, deps, error, package, triple);
}

impl Binder {
    #[verifier::type_invariant]
    spec fn well_formed(self) -> bool {
        distinct(self@)
    }

    /// A registry without units.
    pub fn new() -> (r: Binder)
        ensures
            r@ == Seq::<UnitView>::empty(),
    {
        let r = Binder { units: Vec::new() };
        assert(unit_views(r.units@) =~= Seq::empty());
        r
    }

    /// How many units the registry holds.
    pub fn len(&self) -> (r: usize)
        ensures
            r == self@.len(),
    {
        self.units.len()
    }

    fn find(&self, package: &str, triple: &str) -> (r: usize)
        ensures
            r == position(self@, package@, triple@),
            r <= self.units.len(),
            r < self.units.len() ==> is_unit(self.units[r as int]@, package@, triple@),
    {
        let ghost all = unit_views(self.units@);
        let mut i: usize = 0;
        while i < self.units.len()
            invariant
                all == unit_views(self.units@),
                position(all, package@, triple@) == position_from(
                    all,
                    i as int,
                    package@,
                    triple@,
                ),
            decreases self.units.len() - i,
        {
            assert(all[i as int] == self.units[i as int]@);
            if same_text(self.units[i].package.as_str(), package) && same_text(
                self.units[i].triple.as_str(),
                triple,
            ) {
                return i;
            }
            i += 1;
        }
        self.units.len()
    }

    /// Asks for a build of `package` for `triple` with the inputs `key`.
    pub fn request(&mut self, package: &str, triple: &str, key: CacheKey) -> (r: Decision)
        ensures
            r == decide(old(self)@, package@, triple@, key),
            final(self)@ == after_request(old(self)@, package@, triple@, key),
            distinct(final(self)@),
    {
        proof {
            use_type_invariant(&*self);
            lemma_steps_keep_distinct(
                self@,
                package@,
                triple@,
                key,
                Seq::empty(),
                Seq::empty(),
                BridgeErrorView::Driver(crate::driver::DriverErrorView::Timeout),
            );
        }
        let at = self.find(package, triple);
        let ghost before = unit_views(self.units@);
        if at < self.units.len() {
            assert(before[at as int] == self.units[at as int]@);
            let state = self.units[at].state;
            let same = self.units[at].key == key;
            if state == NodeState::Building {
                return if same {
                    Decision::Join
                } else {
                    Decision::Busy
                };
            }
            if same && state == NodeState::Fresh {
                return Decision::Reuse;
            }
            if same && state == NodeState::Failed {
                return Decision::Failed;
            }
        }
        let mut units: Vec<Unit> = Vec::new();
        assert(unit_views(units@) =~= Seq::empty());
        std::mem::swap(&mut self.units, &mut units);
        if at >= units.len() {
            let unit = Unit {
                package: String::from_str(package),
                triple: String::from_str(triple),
                key,
                state: NodeState::Building,
                artifacts: Vec::new(),
                deps: Vec::new(),
                failure: None,
            };
            assert(artifacts(unit.artifacts@) =~= Seq::empty());
            assert(fingerprints(unit.deps@) =~= Seq::empty());
            units.push(unit);
            assert(unit_views(units@) =~= before.push(unit@));
        } else {
            let Unit { package: p, triple: t, key: _, state: _, artifacts: a, deps: d, failure: _ } =
                units.remove(at);
            let unit = Unit {
                package: p,
                triple: t,
                key,
                state: NodeState::Building,
                artifacts: a,
                deps: d,
                failure: None,
            };
            units.insert(at, unit);
            assert(unit_views(units@) =~= before.update(at as int, unit@));
        }
        std::mem::swap(&mut self.units, &mut units);
        Decision::Start
    }

    fn building(&self, package: &str, triple: &str, key: CacheKey) -> (r: Option<usize>)
        ensures
            r is Some == in_flight(self@, package@, triple@, key),
            r matches Some(at) ==> at == position(self@, package@, triple@) && at
                < self.units.len(),
    {
        let at = self.find(package, triple);
        if at >= self.units.len() {
            return None;
        }
        assert(unit_views(self.units@)[at as int] == self.units[at as int]@);
        if self.units[at].state == NodeState::Building && self.units[at].key == key {
            Some(at)
        } else {
            None
        }
    }

    /// Reports a successful build: the unit becomes fresh and holds the
    /// artifacts and the fingerprints given. Returns whether the unit was
    /// building for `key`; if it was not, nothing changes.
    pub fn bind(
        &mut self,
        package: &str,
        triple: &str,
        key: CacheKey,
        built: Vec<ResolvedArtifact>,
        deps: Vec<Fingerprint>,
    ) -> (accepted: bool)
        ensures
            accepted == in_flight(old(self)@, package@, triple@, key),
            final(self)@ == after_bind(
                old(self)@,
                package@,
                triple@,
                key,
                artifacts(built@),
                fingerprints(deps@),
            ),
            distinct(final(self)@),
    {
        proof {
            use_type_invariant(&*self);
            lemma_steps_keep_distinct(
                self@,
                package@,
                triple@,
                key,
                artifacts(built@),
                fingerprints(deps@),
                BridgeErrorView::Driver(crate::driver::DriverErrorView::Timeout),
            );
        }
        let at = match self.building(package, triple, key) {
            Some(at) => at,
            None => {
                return false;
            },
        };
        let ghost before = unit_views(self.units@);
        let mut units: Vec<Unit> = Vec::new();
        assert(unit_views(units@) =~= Seq::empty());
        std::mem::swap(&mut self.units, &mut units);
        assert(before[at as int] == units[at as int]@);
        let Unit { package: p, triple: t, key: k, state: _, artifacts: _, deps: _, failure: _ } =
            units.remove(at);
        let unit = Unit {
            package: p,
            triple: t,
            key: k,
            state: NodeState::Fresh,
            artifacts: built,
            deps,
            failure: None,
        };
        units.insert(at, unit);
        assert(unit_views(units@) =~= before.update(at as int, unit@));
        std::mem::swap(&mut self.units, &mut units);
        true
    }

    /// Reports a failed build: the unit becomes failed, carries the error
    /// and holds no artifact. Returns whether the unit was building for
    /// `key`; if it was not, nothing changes.
    pub fn fail(&mut self, package: &str, triple: &str, key: CacheKey, error: BridgeError) -> (accepted:
        bool)
        ensures
            accepted == in_flight(old(self)@, package@, triple@, key),
            final(self)@ == after_fail(old(self)@, package@, triple@, key, error@),
            distinct(final(self)@),
    {
        proof {
            use_type_invariant(&*self);
            lemma_steps_keep_distinct(
                self@,
                package@,
                triple@,
                key,
                Seq::empty(),
                Seq::empty(),
                error@,
            );
        }
        let at = match self.building(package, triple, key) {
            Some(at) => at,
            None => {
                return false;
            },
        };
        let ghost before = unit_views(self.units@);
        let mut units: Vec<Unit> = Vec::new();
        assert(unit_views(units@) =~= Seq::empty());
        std::mem::swap(&mut self.units, &mut units);
        assert(before[at as int] == units[at as int]@);
        let Unit { package: p, triple: t, key: k, state: _, artifacts: _, deps: _, failure: _ } =
            units.remove(at);
        let unit = Unit {
            package: p,
            triple: t,
            key: k,
            state: NodeState::Failed,
            artifacts: Vec::new(),
            deps: Vec::new(),
            failure: Some(error),
        };
        assert(artifacts(unit.artifacts@) =~= Seq::empty());
        assert(fingerprints(unit.deps@) =~= Seq::empty());
        units.insert(at, unit);
        assert(unit_views(units@) =~= before.update(at as int, unit@));
        std::mem::swap(&mut self.units, &mut units);
        true
    }

    /// Reports a cancelled build: the unit is stale again. Returns whether
    /// the unit was building for `key`; if it was not, nothing changes.
    pub fn cancel(&mut self, package: &str, triple: &str, key: CacheKey) -> (accepted: bool)
        ensures
            accepted == in_flight(old(self)@, package@, triple@, key),
            final(self)@ == after_cancel(old(self)@, package@, triple@, key),
            distinct(final(self)@),
    {
        proof {
            use_type_invariant(&*self);
            lemma_steps_keep_distinct(
                self@,
                package@,
                triple@,
                key,
                Seq::empty(),
                Seq::empty(),
                BridgeErrorView::Driver(crate::driver::DriverErrorView::Timeout),
            );
        }
        let at = match self.building(package, triple, key) {
            Some(at) => at,
            None => {
                return false;
            },
        };
        let ghost before = unit_views(self.units@);
        let mut units: Vec<Unit> = Vec::new();
        assert(unit_views(units@) =~= Seq::empty());
        std::mem::swap(&mut self.units, &mut units);
        assert(before[at as int] == units[at as int]@);
        let Unit { package: p, triple: t, key: k, state: _, artifacts: a, deps: d, failure: f } =
            units.remove(at);
        let unit = Unit {
            package: p,
            triple: t,
            key: k,
            state: NodeState::Stale,
            artifacts: a,
            deps: d,
            failure: f,
        };
        units.insert(at, unit);
        assert(unit_views(units@) =~= before.update(at as int, unit@));
        std::mem::swap(&mut self.units, &mut units);
        true
    }

    /// Removes the unit of `package` and `triple` with its nodes, as the
    /// host graph has removed them. Returns whether a unit was removed; one
    /// that is building is not.
    pub fn remove(&mut self, package: &str, triple: &str) -> (removed: bool)
        ensures
            removed == (unit_of(old(self)@, package@, triple@) matches Some(u) && u.state
                != NodeState::Building),
            final(self)@ == after_remove(old(self)@, package@, triple@),
            distinct(final(self)@),
    {
        proof {
            use_type_invariant(&*self);
            lemma_steps_keep_distinct(
                self@,
                package@,
                triple@,
                CacheKey { space: crate::planner::KeySpace::Target, digest: 0 },
                Seq::empty(),
                Seq::empty(),
                BridgeErrorView::Driver(crate::driver::DriverErrorView::Timeout),
            );
        }
        let at = self.find(package, triple);
        let ghost before = unit_views(self.units@);
        if at >= self.units.len() {
            return false;
        }
        assert(before[at as int] == self.units[at as int]@);
        if self.units[at].state == NodeState::Building {
            return false;
        }
        let mut units: Vec<Unit> = Vec::new();
        assert(unit_views(units@) =~= Seq::empty());
        std::mem::swap(&mut self.units, &mut units);
        units.remove(at);
        assert(unit_views(units@) =~= before.remove(at as int));
        std::mem::swap(&mut self.units, &mut units);
        true
    }

    /// The state of the unit of `package` and `triple`, if there is one.
    pub fn state_of(&self, package: &str, triple: &str) -> (r: Option<NodeState>)
        ensures
            r == match unit_of(self@, package@, triple@) {
                Some(u) => Some(u.state),
                None => None,
            },
    {
        let at = self.find(package, triple);
        if at >= self.units.len() {
            None
        } else {
            Some(self.units[at].state)
        }
    }

    /// The error of the unit of `package` and `triple`, if its last build
    /// failed.
    pub fn failure_of(&self, package: &str, triple: &str) -> (r: Option<&BridgeError>)
        ensures
            match r {
                Some(e) => unit_of(self@, package@, triple@) matches Some(u) && u.failure == Some(
                    e@,
                ),
                None => unit_of(self@, package@, triple@) matches Some(u) ==> u.failure is None,
            },
    {
        let at = self.find(package, triple);
        if at >= self.units.len() {
            None
        } else {
            match &self.units[at].failure {
                Some(e) => Some(e),
                None => None,
            }
        }
    }

    /// Copies of the artifacts of the unit of `package` and `triple`; none
    /// if there is no such unit.
    pub fn artifacts_of(&self, package: &str, triple: &str) -> (r: Vec<ResolvedArtifact>)
        ensures
            artifacts(r@) == match unit_of(self@, package@, triple@) {
                Some(u) => u.artifacts,
                None => Seq::empty(),
            },
    {
        let at = self.find(package, triple);
        if at >= self.units.len() {
            let r: Vec<ResolvedArtifact> = Vec::new();
            assert(artifacts(r@) =~= Seq::empty());
            r
        } else {
            copy_artifacts(&self.units[at].artifacts)
        }
    }

    /// The node of the artifact of `kind` that `package` has for `triple`,
    /// if there is one.
    pub fn get_node(&self, package: &str, kind: ArtifactKind, triple: &str) -> (r: Option<
        GraphNode,
    >)
        ensures
            node_view(r) == node_of(self@, package@, kind, triple@),
    {
        let at = self.find(package, triple);
        if at >= self.units.len() {
            return None;
        }
        let unit = &self.units[at];
        let ghost list = artifacts(unit.artifacts@);
        let mut i: usize = 0;
        assert(unit_views(self.units@)[at as int] == unit@);
        while i < unit.artifacts.len()
            invariant
                list == artifacts(unit.artifacts@),
                unit_of(self@, package@, triple@) == Some(unit@),
                kind_from(list, 0, kind) == kind_from(list, i as int, kind),
            decreases unit.artifacts.len() - i,
        {
            assert(list[i as int] == unit.artifacts[i as int]@);
            if unit.artifacts[i].kind == kind {
                return Some(
                    GraphNode {
                        artifact: unit.artifacts[i].duplicate(),
                        deps: copy_fingerprints(&unit.deps),
                        key: unit.key,
                        state: unit.state,
                    },
                );
            }
            i += 1;
        }
        None
    }
}

} // verus!
