//! A requested build: profile, target, features, flags and environment.
//!
//! A configuration keeps its features and its environment names in ascending
//! order, so that two configurations asked for the same things are the same
//! value, however they were put together.

use vstd::prelude::*;
use vstd::string::*;
use crate::text::{
    ascending, copy_texts, insert_text, inserted, lemma_inserted, lemma_rank_bound,
    lemma_rank_of_member, rank,
    same_text, same_texts, slot_of, texts,
};

verus! {

/// The build profile.
#[derive(Debug)]
pub enum Profile {
    Debug,
    Release,
    /// A profile defined under the given name.
    Custom(String),
}

/// The mathematical form of a [`Profile`].
pub enum ProfileView {
    Debug,
    Release,
    Custom(Seq<char>),
}

impl View for Profile {
    type V = ProfileView;

    open spec fn view(&self) -> ProfileView {
        match self {
            Profile::Debug => ProfileView::Debug,
            Profile::Release => ProfileView::Release,
            Profile::Custom(name) => ProfileView::Custom(name@),
        }
    }
}

impl Profile {
    /// A custom profile of the given name.
    pub fn custom(name: &str) -> (r: Profile)
        ensures
            r@ == ProfileView::Custom(name@),
    {
        Profile::Custom(String::from_str(name))
    }

    /// Whether two profiles are the same.
    pub fn same_as(&self, other: &Profile) -> (r: bool)
        ensures
            r == (self@ == other@),
    {
        match self {
            Profile::Debug => match other {
                Profile::Debug => true,
                _ => false,
            },
            Profile::Release => match other {
                Profile::Release => true,
                _ => false,
            },
            Profile::Custom(a) => match other {
                Profile::Custom(b) => same_text(a.as_str(), b.as_str()),
                _ => false,
            },
        }
    }

    /// A copy of the profile.
    pub fn duplicate(&self) -> (r: Profile)
        ensures
            r@ == self@,
    {
        match self {
            Profile::Debug => Profile::Debug,
            Profile::Release => Profile::Release,
            Profile::Custom(name) => Profile::Custom(name.clone()),
        }
    }
}

/// The mathematical form of a [`BuildConfiguration`].
pub struct ConfigView {
    pub profile: ProfileView,
    /// The requested target triple; absent means the host.
    pub target: Option<Seq<char>>,
    /// The enabled features, ascending.
    pub features: Seq<Seq<char>>,
    /// The extra flags, in the order they were given.
    pub flags: Seq<Seq<char>>,
    /// The names of the extra environment variables, ascending.
    pub env_names: Seq<Seq<char>>,
    /// The value of each environment variable, in the order of the names.
    pub env_values: Seq<Seq<char>>,
    /// Whether to build for the host even when a target is set.
    pub host_tool: bool,
}

impl ConfigView {
    /// What holds of every configuration: features and environment names are
    /// ascending, and every name has its value.
    pub open spec fn canonical(self) -> bool {
        &&& ascending(self.features)
        &&& ascending(self.env_names)
        &&& self.env_names.len() == self.env_values.len()
    }

    /// The configuration that a fresh request for `profile` starts from.
    pub open spec fn initial(profile: ProfileView) -> ConfigView {
        ConfigView {
            profile,
            target: None,
            features: Seq::empty(),
            flags: Seq::empty(),
            env_names: Seq::empty(),
            env_values: Seq::empty(),
            host_tool: false,
        }
    }

    /// This configuration with one more feature enabled.
    pub open spec fn with_feature(self, name: Seq<char>) -> ConfigView {
        ConfigView { features: inserted(self.features, name), ..self }
    }

    /// This configuration with one more flag at the end.
    pub open spec fn with_flag(self, flag: Seq<char>) -> ConfigView {
        ConfigView { flags: self.flags.push(flag), ..self }
    }

    /// This configuration with the environment variable `name` set to
    /// `value`, replacing what it was set to before.
    pub open spec fn with_env(self, name: Seq<char>, value: Seq<char>) -> ConfigView {
        let at = rank(self.env_names, name) as int;
        if self.env_names.contains(name) {
            ConfigView { env_values: self.env_values.update(at, value), ..self }
        } else {
            ConfigView {
                env_names: self.env_names.insert(at, name),
                env_values: self.env_values.insert(at, value),
                ..self
            }
        }
    }

    /// This configuration with the given target triple.
    pub open spec fn with_target(self, triple: Seq<char>) -> ConfigView {
        ConfigView { target: Some(triple), ..self }
    }

    /// This configuration with the host-tool flag set as given.
    pub open spec fn with_host_tool(self, on: bool) -> ConfigView {
        ConfigView { host_tool: on, ..self }
    }

    /// What the environment variable `name` is set to, if it is set.
    pub open spec fn env_value(self, name: Seq<char>) -> Option<Seq<char>> {
        if self.env_names.contains(name) {
            Some(self.env_values[rank(self.env_names, name) as int])
        } else {
            None
        }
    }
}

/// A requested build.
#[derive(Debug)]
pub struct BuildConfiguration {
    profile: Profile,
    target: Option<String>,
    features: Vec<String>,
    flags: Vec<String>,
    env_names: Vec<String>,
    env_values: Vec<String>,
    host_tool: bool,
}

impl View for BuildConfiguration {
    type V = ConfigView;

    closed spec fn view(&self) -> ConfigView {
        ConfigView {
            profile: self.profile@,
            target: match self.target {
                Some(t) => Some(t@),
                None => None,
            },
            features: texts(self.features@),
            flags: texts(self.flags@),
            env_names: texts(self.env_names@),
            env_values: texts(self.env_values@),
            host_tool: self.host_tool,
        }
    }
}

impl BuildConfiguration {
    #[verifier::type_invariant]
    spec fn well_formed(self) -> bool {
        self@.canonical()
    }

    /// A request for `profile` on the host, with nothing else asked for.
    pub fn new(profile: Profile) -> (r: BuildConfiguration)
        ensures
            r@ == ConfigView::initial(profile@),
    {
        let r = BuildConfiguration {
            profile,
            target: None,
            features: Vec::new(),
            flags: Vec::new(),
            env_names: Vec::new(),
            env_values: Vec::new(),
            host_tool: false,
        };
        assert(texts(r.features@) =~= Seq::empty());
        assert(texts(r.flags@) =~= Seq::empty());
        assert(texts(r.env_names@) =~= Seq::empty());
        assert(texts(r.env_values@) =~= Seq::empty());
        r
    }

    /// Enables one more feature.
    pub fn feature(self, name: &str) -> (r: BuildConfiguration)
        ensures
            r@ == self@.with_feature(name@),
    {
        proof {
            use_type_invariant(&self);
        }
        let BuildConfiguration { profile, target, mut features, flags, env_names, env_values, host_tool } =
            self;
        insert_text(&mut features, String::from_str(name));
        BuildConfiguration { profile, target, features, flags, env_names, env_values, host_tool }
    }

    /// Adds one more flag after those given so far.
    pub fn flag(self, flag: &str) -> (r: BuildConfiguration)
        ensures
            r@ == self@.with_flag(flag@),
    {
        proof {
            use_type_invariant(&self);
        }
        let BuildConfiguration { profile, target, features, mut flags, env_names, env_values, host_tool } =
            self;
        let ghost before = texts(flags@);
        flags.push(String::from_str(flag));
        assert(texts(flags@) =~= before.push(flag@));
        BuildConfiguration { profile, target, features, flags, env_names, env_values, host_tool }
    }

    /// Sets an environment variable; the value is taken as it is.
    pub fn env(self, name: &str, value: &str) -> (r: BuildConfiguration)
        ensures
            r@ == self@.with_env(name@, value@),
    {
        proof {
            use_type_invariant(&self);
        }
        let BuildConfiguration { profile, target, features, flags, mut env_names, mut env_values, host_tool } =
            self;
        let ghost names = texts(env_names@);
        let ghost values = texts(env_values@);
        let (at, found) = slot_of(&env_names, name);
        if found {
            env_values.set(at, String::from_str(value));
            assert(texts(env_values@) =~= values.update(at as int, value@));
        } else {
            proof {
                lemma_inserted(names, name@);
            }
            env_names.insert(at, String::from_str(name));
            env_values.insert(at, String::from_str(value));
            assert(texts(env_names@) =~= names.insert(at as int, name@));
            assert(texts(env_values@) =~= values.insert(at as int, value@));
        }
        BuildConfiguration { profile, target, features, flags, env_names, env_values, host_tool }
    }

    /// Asks for the given target triple.
    pub fn target(self, triple: &str) -> (r: BuildConfiguration)
        ensures
            r@ == self@.with_target(triple@),
    {
        proof {
            use_type_invariant(&self);
        }
        let BuildConfiguration { profile, target: _, features, flags, env_names, env_values, host_tool } =
            self;
        BuildConfiguration {
            profile,
            target: Some(String::from_str(triple)),
            features,
            flags,
            env_names,
            env_values,
            host_tool,
        }
    }

    /// Asks for a build for the host, whatever the target is.
    pub fn host_tool(self, on: bool) -> (r: BuildConfiguration)
        ensures
            r@ == self@.with_host_tool(on),
    {
        proof {
            use_type_invariant(&self);
        }
        let BuildConfiguration { profile, target, features, flags, env_names, env_values, host_tool: _ } =
            self;
        BuildConfiguration { profile, target, features, flags, env_names, env_values, host_tool: on }
    }

    /// The profile asked for.
    pub fn profile(&self) -> (r: &Profile)
        ensures
            r@ == self@.profile,
    {
        &self.profile
    }

    /// The target triple asked for, if any.
    pub fn target_triple(&self) -> (r: Option<&String>)
        ensures
            match r {
                Some(t) => self@.target == Some(t@),
                None => self@.target is None,
            },
    {
        match &self.target {
            Some(t) => Some(t),
            None => None,
        }
    }

    /// The enabled features, ascending.
    pub fn features(&self) -> (r: &Vec<String>)
        ensures
            texts(r@) == self@.features,
            self@.canonical(),
    {
        proof {
            use_type_invariant(self);
        }
        &self.features
    }

    /// The extra flags, in the order they were given.
    pub fn flags(&self) -> (r: &Vec<String>)
        ensures
            texts(r@) == self@.flags,
    {
        &self.flags
    }

    /// The names of the environment variables, ascending.
    pub fn env_names(&self) -> (r: &Vec<String>)
        ensures
            texts(r@) == self@.env_names,
            self@.canonical(),
    {
        proof {
            use_type_invariant(self);
        }
        &self.env_names
    }

    /// The values of the environment variables, in the order of the names.
    pub fn env_values(&self) -> (r: &Vec<String>)
        ensures
            texts(r@) == self@.env_values,
            self@.canonical(),
    {
        proof {
            use_type_invariant(self);
        }
        &self.env_values
    }

    /// Whether the build is for the host whatever the target is.
    pub fn is_host_tool(&self) -> (r: bool)
        ensures
            r == self@.host_tool,
    {
        self.host_tool
    }

    /// Whether two configurations ask for the same build. A node built for
    /// one is stale for the other exactly when this is false.
    pub fn same_as(&self, other: &BuildConfiguration) -> (r: bool)
        ensures
            r == (self@ == other@),
    {
        let same_target = match &self.target {
            Some(a) => match &other.target {
                Some(b) => same_text(a.as_str(), b.as_str()),
                None => false,
            },
            None => match &other.target {
                Some(_) => false,
                None => true,
            },
        };
        self.profile.same_as(&other.profile) && same_target && same_texts(
            &self.features,
            &other.features,
        ) && same_texts(&self.flags, &other.flags) && same_texts(&self.env_names, &other.env_names)
            && same_texts(&self.env_values, &other.env_values) && self.host_tool
            == other.host_tool
    }

    /// A copy of the configuration.
    pub fn duplicate(&self) -> (r: BuildConfiguration)
        ensures
            r@ == self@,
    {
        proof {
            use_type_invariant(self);
        }
        BuildConfiguration {
            profile: self.profile.duplicate(),
            target: match &self.target {
                Some(t) => Some(t.clone()),
                None => None,
            },
            features: copy_texts(&self.features),
            flags: copy_texts(&self.flags),
            env_names: copy_texts(&self.env_names),
            env_values: copy_texts(&self.env_values),
            host_tool: self.host_tool,
        }
    }
}

/// Every step that builds a configuration keeps it canonical.
pub proof fn lemma_steps_keep_canonical(c: ConfigView, name: Seq<char>, value: Seq<char>, on: bool)
    requires
        c.canonical(),
    ensures
        ConfigView::initial(c.profile).canonical(),
        c.with_feature(name).canonical(),
        c.with_flag(name).canonical(),
        c.with_env(name, value).canonical(),
        c.with_target(name).canonical(),
        c.with_host_tool(on).canonical(),
{
    lemma_inserted(c.features, name);
    lemma_inserted(c.env_names, name);
    lemma_rank_bound(c.env_names, name);
    if c.env_names.contains(name) {
        lemma_rank_of_member(c.env_names, name);
    }
}

/// Enabling two features gives the same configuration in either order.
pub proof fn lemma_feature_order(c: ConfigView, a: Seq<char>, b: Seq<char>)
    requires
        c.canonical(),
    ensures
        c.with_feature(a).with_feature(b) == c.with_feature(b).with_feature(a),
{
    crate::text::lemma_inserted_commutes(c.features, a, b);
}

/// Enabling a feature twice is enabling it once.
pub proof fn lemma_feature_repeat(c: ConfigView, a: Seq<char>)
    requires
        c.canonical(),
    ensures
        c.with_feature(a).with_feature(a) == c.with_feature(a),
{
    crate::text::lemma_inserted_idempotent(c.features, a);
}

/// Two canonical configurations that enable the same features and agree on
/// everything else are the same configuration.
pub proof fn lemma_same_features_same_config(c: ConfigView, d: ConfigView)
    requires
        c.canonical(),
        d.canonical(),
        crate::text::same_members(c.features, d.features),
        d == (ConfigView { features: d.features, ..c }),
    ensures
        c == d,
{
    crate::text::lemma_ascending_unique(c.features, d.features);
}

} // verus!
