//! From a manifest and a configuration to the exact driver invocation.
//!
//! A plan is a function of the manifest, the configuration, the toolchain and
//! the source fingerprints, and of nothing else: the same inputs give the same
//! argument vector and the same cache key.

use vstd::prelude::*;
use vstd::string::*;
use crate::config::{BuildConfiguration, ConfigView, Profile, ProfileView};
use crate::digest::{
    absorb_text, absorb_texts, digest_text, digest_texts, digest_word, mix, DIGEST_SEED,
};
use crate::manifest::{ManifestView, PackageManifest};
use crate::text::{copy_texts, has_text, lemma_ascending_unique, same_members, same_text, texts};

verus! {

/// What is known of the machine the driver runs on.
#[derive(Debug)]
pub struct Toolchain {
    /// The triple of the host.
    pub host: String,
    /// The other triples the driver can build for.
    pub targets: Vec<String>,
    /// The names of the custom profiles that are defined.
    pub profiles: Vec<String>,
}

/// The mathematical form of a [`Toolchain`].
pub struct ToolchainView {
    pub host: Seq<char>,
    pub targets: Seq<Seq<char>>,
    pub profiles: Seq<Seq<char>>,
}

impl View for Toolchain {
    type V = ToolchainView;

    open spec fn view(&self) -> ToolchainView {
        ToolchainView {
            host: self.host@,
            targets: texts(self.targets@),
            profiles: texts(self.profiles@),
        }
    }
}

impl Toolchain {
    /// A toolchain that builds for its host only and knows no custom profile.
    pub fn new(host: &str) -> (r: Toolchain)
        ensures
            r@ == (ToolchainView { host: host@, targets: Seq::empty(), profiles: Seq::empty() }),
    {
        let r = Toolchain { host: String::from_str(host), targets: Vec::new(), profiles: Vec::new() };
        assert(texts(r.targets@) =~= Seq::empty());
        assert(texts(r.profiles@) =~= Seq::empty());
        r
    }

    /// Adds a triple the driver can build for.
    pub fn add_target(&mut self, triple: &str)
        ensures
            final(self)@ == (ToolchainView {
                targets: old(self)@.targets.push(triple@),
                ..old(self)@
            }),
    {
        self.targets.push(String::from_str(triple));
        assert(texts(self.targets@) =~= texts(old(self).targets@).push(triple@));
    }

    /// Adds the name of a defined custom profile.
    pub fn add_profile(&mut self, name: &str)
        ensures
            final(self)@ == (ToolchainView {
                profiles: old(self)@.profiles.push(name@),
                ..old(self)@
            }),
    {
        self.profiles.push(String::from_str(name));
        assert(texts(self.profiles@) =~= texts(old(self).profiles@).push(name@));
    }
}

/// The digest of one input file, by which a change to it is seen.
#[derive(Debug)]
pub struct Fingerprint {
    /// The absolute path of the file.
    pub path: String,
    /// A digest of its content or of its modification time.
    pub stamp: u64,
}

/// The mathematical form of a [`Fingerprint`].
pub struct FingerprintView {
    pub path: Seq<char>,
    pub stamp: u64,
}

impl View for Fingerprint {
    type V = FingerprintView;

    open spec fn view(&self) -> FingerprintView {
        FingerprintView { path: self.path@, stamp: self.stamp }
    }
}

impl Fingerprint {
    /// The fingerprint of the file at `path`.
    pub fn new(path: &str, stamp: u64) -> (r: Fingerprint)
        ensures
            r@ == (FingerprintView { path: path@, stamp }),
    {
        Fingerprint { path: String::from_str(path), stamp }
    }

    /// A copy of the fingerprint.
    pub fn duplicate(&self) -> (r: Fingerprint)
        ensures
            r@ == self@,
    {
        Fingerprint { path: self.path.clone(), stamp: self.stamp }
    }
}

/// The forms of a list of fingerprints.
pub open spec fn fingerprints(v: Seq<Fingerprint>) -> Seq<FingerprintView> {
    v.map_values(|f: Fingerprint| f@)
}

/// A copy of a list of fingerprints.
pub fn copy_fingerprints(list: &Vec<Fingerprint>) -> (r: Vec<Fingerprint>)
    ensures
        fingerprints(r@) == fingerprints(list@),
{
    let mut out: Vec<Fingerprint> = Vec::new();
    let mut i: usize = 0;
    while i < list.len()
        invariant
            i <= list.len(),
            out.len() == i,
            forall|j: int| 0 <= j < i ==> out[j]@ == list[j]@,
        decreases list.len() - i,
    {
        out.push(list[i].duplicate());
        i += 1;
    }
    assert(fingerprints(out@) =~= fingerprints(list@));
    out
}

/// The two kinds of build that must never share a cache entry.
#[derive(Clone, Copy, Debug, PartialEq, Eq, Structural)]
pub enum KeySpace {
    /// A build of a tool that runs on the host.
    Host,
    /// A build for the requested target.
    Target,
}

/// What identifies a build request: the kind of build, and a digest of all
/// that goes into it.
#[derive(Clone, Copy, Debug, PartialEq, Eq, Structural)]
pub struct CacheKey {
    pub space: KeySpace,
    pub digest: u64,
}

/// Why a configuration cannot be planned.
#[derive(Debug)]
pub enum ConfigFault {
    /// The configuration enables a feature the manifest does not declare.
    UndeclaredFeature(String),
    /// The toolchain cannot build for the requested triple.
    UnknownTarget(String),
    /// No custom profile of this name is defined.
    UnknownProfile(String),
}

/// The mathematical form of a [`ConfigFault`].
pub enum FaultView {
    UndeclaredFeature(Seq<char>),
    UnknownTarget(Seq<char>),
    UnknownProfile(Seq<char>),
}

impl View for ConfigFault {
    type V = FaultView;

    open spec fn view(&self) -> FaultView {
        match self {
            ConfigFault::UndeclaredFeature(name) => FaultView::UndeclaredFeature(name@),
            ConfigFault::UnknownTarget(name) => FaultView::UnknownTarget(name@),
            ConfigFault::UnknownProfile(name) => FaultView::UnknownProfile(name@),
        }
    }
}

/// The driver invocation for one build request.
#[derive(Debug)]
pub struct InvocationPlan {
    /// The arguments handed to the driver, in order.
    pub args: Vec<String>,
    /// The names of the environment variables to set.
    pub env_names: Vec<String>,
    /// The value of each variable, in the order of the names.
    pub env_values: Vec<String>,
    /// The absolute directory the driver runs in.
    pub workdir: String,
    /// The triple the artifacts are built for.
    pub triple: String,
    /// The key under which the result is cached.
    pub key: CacheKey,
}

/// The mathematical form of an [`InvocationPlan`].
pub struct PlanView {
    pub args: Seq<Seq<char>>,
    pub env_names: Seq<Seq<char>>,
    pub env_values: Seq<Seq<char>>,
    pub workdir: Seq<char>,
    pub triple: Seq<char>,
    pub key: CacheKey,
}

impl View for InvocationPlan {
    type V = PlanView;

    open spec fn view(&self) -> PlanView {
        PlanView {
            args: texts(self.args@),
            env_names: texts(self.env_names@),
            env_values: texts(self.env_values@),
            workdir: self.workdir@,
            triple: self.triple@,
            key: self.key,
        }
    }
}

/// The first name of `items` that `pool` does not hold.
pub open spec fn first_missing(items: Seq<Seq<char>>, pool: Seq<Seq<char>>) -> Option<Seq<char>>
    decreases items.len(),
{
    if items.len() == 0 {
        None
    } else if !pool.contains(items[0]) {
        Some(items[0])
    } else {
        first_missing(items.drop_first(), pool)
    }
}

/// Whether the toolchain can build for `triple`.
pub open spec fn resolvable(t: ToolchainView, triple: Seq<char>) -> bool {
    triple == t.host || t.targets.contains(triple)
}

/// What is wrong with a configuration, if anything: the first enabled feature
/// that is not declared, else a target that cannot be built for, else a
/// custom profile that is not defined.
pub open spec fn fault_of(m: ManifestView, c: ConfigView, t: ToolchainView) -> Option<FaultView> {
    match first_missing(c.features, m.features) {
        Some(name) => Some(FaultView::UndeclaredFeature(name)),
        None => match c.target {
            Some(triple) if !resolvable(t, triple) => Some(FaultView::UnknownTarget(triple)),
            _ => match c.profile {
                ProfileView::Custom(name) if !t.profiles.contains(name) => Some(
                    FaultView::UnknownProfile(name),
                ),
                _ => None,
            },
        },
    }
}

/// The triple a configuration builds for: the host for a host tool or when
/// no target is asked for, else the target.
pub open spec fn effective_triple(c: ConfigView, t: ToolchainView) -> Seq<char> {
    match c.target {
        Some(triple) if !c.host_tool => triple,
        _ => t.host,
    }
}

/// The name by which the driver knows a profile.
pub open spec fn profile_name(p: ProfileView) -> Seq<char> {
    match p {
        ProfileView::Debug => "dev"@,
        ProfileView::Release => "release"@,
        ProfileView::Custom(name) => name,
    }
}

/// A number that tells the three kinds of profile apart in the digest.
pub open spec fn profile_tag(p: ProfileView) -> u64 {
    match p {
        ProfileView::Debug => 0,
        ProfileView::Release => 1,
        ProfileView::Custom(_) => 2,
    }
}

/// The arguments that enable the features, one pair for each, in order.
pub open spec fn feature_args(features: Seq<Seq<char>>) -> Seq<Seq<char>>
    decreases features.len(),
{
    if features.len() == 0 {
        Seq::empty()
    } else {
        feature_args(features.drop_last()).push("--features"@).push(features.last())
    }
}

/// The argument vector: the fixed head, then the features, then the extra
/// flags as they were given.
pub open spec fn plan_args(m: ManifestView, c: ConfigView, triple: Seq<char>) -> Seq<Seq<char>> {
    seq![
        "build"@,
        "--package"@,
        m.name,
        "--profile"@,
        profile_name(c.profile),
        "--target"@,
        triple,
        "--message-format"@,
        "json"@,
    ] + feature_args(c.features) + c.flags
}

/// The digest after every fingerprint of `marks`, in order.
pub open spec fn absorb_marks_each(h: u64, marks: Seq<FingerprintView>) -> u64
    decreases marks.len(),
{
    if marks.len() == 0 {
        h
    } else {
        mix(
            absorb_text(absorb_marks_each(h, marks.drop_last()), marks.last().path),
            marks.last().stamp,
        )
    }
}

/// The digest after a list of fingerprints: its length, then each of them.
pub open spec fn absorb_marks(h: u64, marks: Seq<FingerprintView>) -> u64 {
    absorb_marks_each(mix(h, marks.len() as u64), marks)
}

/// The digest of all that goes into a build.
pub open spec fn plan_digest(
    m: ManifestView,
    c: ConfigView,
    triple: Seq<char>,
    marks: Seq<FingerprintView>,
) -> u64 {
    let h = absorb_text(DIGEST_SEED, m.name);
    let h = absorb_text(h, m.directory);
    let h = absorb_text(mix(h, profile_tag(c.profile)), profile_name(c.profile));
    let h = absorb_text(h, triple);
    let h = absorb_texts(h, c.features);
    let h = absorb_texts(h, c.flags);
    let h = absorb_texts(h, c.env_names);
    let h = absorb_texts(h, c.env_values);
    absorb_marks(h, marks)
}

/// The key space of a configuration.
pub open spec fn key_space(c: ConfigView) -> KeySpace {
    if c.host_tool {
        KeySpace::Host
    } else {
        KeySpace::Target
    }
}

/// The cache key of a build.
pub open spec fn plan_key(
    m: ManifestView,
    c: ConfigView,
    t: ToolchainView,
    marks: Seq<FingerprintView>,
) -> CacheKey {
    CacheKey { space: key_space(c), digest: plan_digest(m, c, effective_triple(c, t), marks) }
}

/// The plan for a build, or what is wrong with its configuration.
pub open spec fn plan_of(
    m: ManifestView,
    c: ConfigView,
    t: ToolchainView,
    marks: Seq<FingerprintView>,
) -> Result<PlanView, FaultView> {
    match fault_of(m, c, t) {
        Some(fault) => Err(fault),
        None => Ok(
            PlanView {
                args: plan_args(m, c, effective_triple(c, t)),
                env_names: c.env_names,
                env_values: c.env_values,
                workdir: m.directory,
                triple: effective_triple(c, t),
                key: plan_key(m, c, t, marks),
            },
        ),
    }
}

/// The form of what [`plan`] returns.
pub open spec fn plan_outcome(r: Result<InvocationPlan, ConfigFault>) -> Result<
    PlanView,
    FaultView,
> {
    match r {
        Ok(p) => Ok(p@),
        Err(e) => Err(e@),
    }
}

/// Looks for what is wrong with a configuration.
pub fn check(manifest: &PackageManifest, config: &BuildConfiguration, toolchain: &Toolchain) -> (r:
    Option<ConfigFault>)
    ensures
        match r {
            Some(fault) => fault_of(manifest@, config@, toolchain@) == Some(fault@),
            None => fault_of(manifest@, config@, toolchain@) is None,
        },
{
    let features = config.features();
    let ghost all = texts(features@);
    let ghost pool = texts(manifest.features@);
    let mut i: usize = 0;
    assert(all.skip(0) =~= all);
    while i < features.len()
        invariant
            i <= features.len(),
            all == texts(features@),
            all == config@.features,
            pool == manifest@.features,
            first_missing(all, pool) == first_missing(all.skip(i as int), pool),
        decreases features.len() - i,
    {
        assert(all.skip(i as int)[0] == features[i as int]@);
        assert(all.skip(i as int).drop_first() =~= all.skip(i + 1));
        if !has_text(&manifest.features, features[i].as_str()) {
            return Some(ConfigFault::UndeclaredFeature(features[i].clone()));
        }
        i += 1;
    }
    assert(all.skip(i as int).len() == 0);
    match config.target_triple() {
        Some(triple) => {
            if !same_text(triple.as_str(), toolchain.host.as_str()) && !has_text(
                &toolchain.targets,
                triple.as_str(),
            ) {
                return Some(ConfigFault::UnknownTarget(triple.clone()));
            }
        },
        None => {},
    }
    match config.profile() {
        Profile::Custom(name) => {
            if !has_text(&toolchain.profiles, name.as_str()) {
                return Some(ConfigFault::UnknownProfile(name.clone()));
            }
        },
        _ => {},
    }
    None
}

/// The triple a configuration builds for.
pub fn triple_for(config: &BuildConfiguration, toolchain: &Toolchain) -> (r: String)
    ensures
        r@ == effective_triple(config@, toolchain@),
{
    if config.is_host_tool() {
        return toolchain.host.clone();
    }
    match config.target_triple() {
        Some(triple) => triple.clone(),
        None => toolchain.host.clone(),
    }
}

fn profile_text(profile: &Profile) -> (r: String)
    ensures
        r@ == profile_name(profile@),
{
    match profile {
        Profile::Debug => String::from_str("dev"),
        Profile::Release => String::from_str("release"),
        Profile::Custom(name) => name.clone(),
    }
}

fn profile_number(profile: &Profile) -> (r: u64)
    ensures
        r == profile_tag(profile@),
{
    match profile {
        Profile::Debug => 0,
        Profile::Release => 1,
        Profile::Custom(_) => 2,
    }
}

fn arguments(manifest: &PackageManifest, config: &BuildConfiguration, triple: &String) -> (r: Vec<
    String,
>)
    ensures
        texts(r@) == plan_args(manifest@, config@, triple@),
{
    let mut args: Vec<String> = Vec::new();
    args.push(String::from_str("build"));
    args.push(String::from_str("--package"));
    args.push(manifest.name.clone());
    args.push(String::from_str("--profile"));
    args.push(profile_text(config.profile()));
    args.push(String::from_str("--target"));
    args.push(triple.clone());
    args.push(String::from_str("--message-format"));
    args.push(String::from_str("json"));
    let ghost head = texts(args@);
    assert(head =~= seq![
        "build"@,
        "--package"@,
        manifest@.name,
        "--profile"@,
        profile_name(config@.profile),
        "--target"@,
        triple@,
        "--message-format"@,
        "json"@,
    ]);
    let features = config.features();
    let ghost all = texts(features@);
    let mut i: usize = 0;
    assert(all.take(0) =~= Seq::empty());
    while i < features.len()
        invariant
            i <= features.len(),
            all == texts(features@),
            texts(args@) == head + feature_args(all.take(i as int)),
        decreases features.len() - i,
    {
        let ghost before = texts(args@);
        args.push(String::from_str("--features"));
        args.push(features[i].clone());
        proof {
            assert(all.take(i + 1).drop_last() =~= all.take(i as int));
            assert(all.take(i + 1).last() == features[i as int]@);
            assert(texts(args@) =~= before.push("--features"@).push(features[i as int]@));
            assert(texts(args@) =~= head + feature_args(all.take(i + 1)));
        }
        i += 1;
    }
    assert(all.take(i as int) =~= all);
    let flags = config.flags();
    let ghost extra = texts(flags@);
    let ghost front = texts(args@);
    let mut j: usize = 0;
    while j < flags.len()
        invariant
            j <= flags.len(),
            extra == texts(flags@),
            texts(args@) == front + extra.take(j as int),
        decreases flags.len() - j,
    {
        let ghost before = texts(args@);
        args.push(flags[j].clone());
        proof {
            assert(texts(args@) =~= before.push(flags[j as int]@));
            assert(extra.take(j + 1) =~= extra.take(j as int).push(flags[j as int]@));
        }
        j += 1;
    }
    assert(extra.take(j as int) =~= extra);
    args
}

fn digest_marks(h: u64, marks: &Vec<Fingerprint>) -> (r: u64)
    ensures
        r == absorb_marks(h, fingerprints(marks@)),
{
    let mut acc: u64 = digest_word(h, marks.len() as u64);
    let ghost all = fingerprints(marks@);
    let mut i: usize = 0;
    while i < marks.len()
        invariant
            i <= marks.len(),
            all == fingerprints(marks@),
            acc == absorb_marks_each(mix(h, marks.len() as u64), all.take(i as int)),
        decreases marks.len() - i,
    {
        assert(all.take(i + 1).drop_last() =~= all.take(i as int));
        assert(all.take(i + 1).last() == marks[i as int]@);
        acc = digest_text(acc, marks[i].path.as_str());
        acc = digest_word(acc, marks[i].stamp);
        i += 1;
    }
    assert(all.take(i as int) =~= all);
    acc
}

/// The cache key of a build.
pub fn key_for(
    manifest: &PackageManifest,
    config: &BuildConfiguration,
    toolchain: &Toolchain,
    marks: &Vec<Fingerprint>,
) -> (r: CacheKey)
    ensures
        r == plan_key(manifest@, config@, toolchain@, fingerprints(marks@)),
{
    let triple = triple_for(config, toolchain);
    let h = digest_text(DIGEST_SEED, manifest.name.as_str());
    let h = digest_text(h, manifest.directory.as_str());
    let h = digest_word(h, profile_number(config.profile()));
    let h = digest_text(h, profile_text(config.profile()).as_str());
    let h = digest_text(h, triple.as_str());
    let h = digest_texts(h, config.features());
    let h = digest_texts(h, config.flags());
    let h = digest_texts(h, config.env_names());
    let h = digest_texts(h, config.env_values());
    let h = digest_marks(h, marks);
    let space = if config.is_host_tool() {
        KeySpace::Host
    } else {
        KeySpace::Target
    };
    CacheKey { space, digest: h }
}

/// Plans the driver invocation for one build request, or says what is wrong
/// with the configuration.
pub fn plan(
    manifest: &PackageManifest,
    config: &BuildConfiguration,
    toolchain: &Toolchain,
    marks: &Vec<Fingerprint>,
) -> (r: Result<InvocationPlan, ConfigFault>)
    ensures
        plan_outcome(r) == plan_of(manifest@, config@, toolchain@, fingerprints(marks@)),
{
    match check(manifest, config, toolchain) {
        Some(fault) => {
            return Err(fault);
        },
        None => {},
    }
    let triple = triple_for(config, toolchain);
    let args = arguments(manifest, config, &triple);
    let key = key_for(manifest, config, toolchain, marks);
    Ok(
        InvocationPlan {
            args,
            env_names: copy_texts(config.env_names()),
            env_values: copy_texts(config.env_values()),
            workdir: manifest.directory.clone(),
            triple,
            key,
        },
    )
}

/// A configuration that enables only declared features, asks for the host or
/// a known target and for a defined profile can always be planned.
pub proof fn lemma_plan_succeeds(
    m: ManifestView,
    c: ConfigView,
    t: ToolchainView,
    marks: Seq<FingerprintView>,
)
    requires
        forall|i: int| 0 <= i < c.features.len() ==> m.features.contains(#[trigger] c.features[i]),
        c.target matches Some(triple) ==> resolvable(t, triple),
        c.profile matches ProfileView::Custom(name) ==> t.profiles.contains(name),
    ensures
        plan_of(m, c, t, marks) is Ok,
{
    lemma_none_missing(c.features, m.features);
}

proof fn lemma_none_missing(items: Seq<Seq<char>>, pool: Seq<Seq<char>>)
    requires
        forall|i: int| 0 <= i < items.len() ==> pool.contains(#[trigger] items[i]),
    ensures
        first_missing(items, pool) is None,
    decreases items.len(),
{
    if items.len() > 0 {
        let rest = items.drop_first();
        assert forall|i: int| 0 <= i < rest.len() implies pool.contains(#[trigger] rest[i]) by {
            assert(rest[i] == items[i + 1]);
        }
        lemma_none_missing(rest, pool);
    }
}

/// A feature reported as undeclared is enabled by the configuration and is
/// not among the declared features.
pub proof fn lemma_missing_is_undeclared(items: Seq<Seq<char>>, pool: Seq<Seq<char>>)
    ensures
        match first_missing(items, pool) {
            Some(name) => items.contains(name) && !pool.contains(name),
            None => forall|i: int| 0 <= i < items.len() ==> pool.contains(#[trigger] items[i]),
        },
    decreases items.len(),
{
    if items.len() > 0 {
        if !pool.contains(items[0]) {
            assert(items.contains(items[0]));
        } else {
            let rest = items.drop_first();
            lemma_missing_is_undeclared(rest, pool);
            match first_missing(rest, pool) {
                Some(name) => {
                    let k = choose|k: int| 0 <= k < rest.len() && rest[k] == name;
                    assert(items[k + 1] == name);
                },
                None => {
                    assert forall|i: int| 0 <= i < items.len() implies pool.contains(
                        #[trigger] items[i],
                    ) by {
                        if i > 0 {
                            assert(rest[i - 1] == items[i]);
                        }
                    }
                },
            }
        }
    }
}

/// Planning the same request twice gives the same plan: two canonical
/// configurations that enable the same features, in whatever order they were
/// enabled, and agree on everything else have the same argument vector and
/// the same cache key.
pub proof fn lemma_plan_deterministic(
    m: ManifestView,
    c: ConfigView,
    d: ConfigView,
    t: ToolchainView,
    marks: Seq<FingerprintView>,
)
    requires
        c.canonical(),
        d.canonical(),
        same_members(c.features, d.features),
        d == (ConfigView { features: d.features, ..c }),
    ensures
        plan_of(m, c, t, marks) == plan_of(m, d, t, marks),
{
    lemma_ascending_unique(c.features, d.features);
}

/// A host-tool build and a target build never share a cache key, whatever
/// else they have in common.
pub proof fn lemma_host_and_target_keys_differ(
    m: ManifestView,
    host: ConfigView,
    cross: ConfigView,
    t: ToolchainView,
    host_marks: Seq<FingerprintView>,
    cross_marks: Seq<FingerprintView>,
)
    requires
        host.host_tool,
        !cross.host_tool,
    ensures
        plan_key(m, host, t, host_marks) != plan_key(m, cross, t, cross_marks),
        plan_key(m, host, t, host_marks).space == KeySpace::Host,
        plan_key(m, cross, t, cross_marks).space == KeySpace::Target,
{
}

} // verus!
