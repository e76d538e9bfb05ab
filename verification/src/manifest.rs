//! What a foreign package declares: its name, its artifacts, its features and
//! the members of its workspace.

use vstd::prelude::*;
use vstd::string::*;
use crate::predicate::{gate_of, Gate, Predicate};
use crate::text::texts;

verus! {

/// The kind of output an artifact is.
#[derive(Clone, Copy, Debug, PartialEq, Eq, Structural)]
pub enum ArtifactKind {
    StaticLibrary,
    SharedLibrary,
    Executable,
    ObjectOnly,
}

/// One artifact that a package declares.
#[derive(Debug)]
pub struct ArtifactDeclaration {
    pub kind: ArtifactKind,
    /// The logical name of the artifact.
    pub name: String,
    /// The condition under which the artifact is built; absent means always.
    pub gate: Option<Predicate>,
}

/// The mathematical form of an [`ArtifactDeclaration`].
pub struct DeclarationView {
    pub kind: ArtifactKind,
    pub name: Seq<char>,
    pub gate: Option<Gate>,
}

impl View for ArtifactDeclaration {
    type V = DeclarationView;

    open spec fn view(&self) -> DeclarationView {
        DeclarationView { kind: self.kind, name: self.name@, gate: gate_of(self.gate) }
    }
}

impl ArtifactDeclaration {
    /// An artifact that is always built.
    pub fn always(kind: ArtifactKind, name: &str) -> (r: ArtifactDeclaration)
        ensures
            r@ == (DeclarationView { kind, name: name@, gate: None }),
    {
        ArtifactDeclaration { kind, name: String::from_str(name), gate: None }
    }

    /// An artifact that is built only when `gate` holds.
    pub fn gated(kind: ArtifactKind, name: &str, gate: Predicate) -> (r: ArtifactDeclaration)
        ensures
            r@ == (DeclarationView { kind, name: name@, gate: Some(gate@) }),
    {
        ArtifactDeclaration { kind, name: String::from_str(name), gate: Some(gate) }
    }
}

/// The forms of a list of declarations.
pub open spec fn declarations(v: Seq<ArtifactDeclaration>) -> Seq<DeclarationView> {
    v.map_values(|d: ArtifactDeclaration| d@)
}

/// A parsed package manifest.
#[derive(Debug)]
pub struct PackageManifest {
    /// The package name, unique within its workspace.
    pub name: String,
    /// The absolute directory the manifest was read from.
    pub directory: String,
    /// The declared artifacts, in the order of the manifest.
    pub artifacts: Vec<ArtifactDeclaration>,
    /// The declared feature names.
    pub features: Vec<String>,
    /// The directories of the workspace members, if this manifest roots one.
    pub members: Vec<String>,
}

/// The mathematical form of a [`PackageManifest`].
pub struct ManifestView {
    pub name: Seq<char>,
    pub directory: Seq<char>,
    pub artifacts: Seq<DeclarationView>,
    pub features: Seq<Seq<char>>,
    pub members: Seq<Seq<char>>,
}

impl View for PackageManifest {
    type V = ManifestView;

    open spec fn view(&self) -> ManifestView {
        ManifestView {
            name: self.name@,
            directory: self.directory@,
            artifacts: declarations(self.artifacts@),
            features: texts(self.features@),
            members: texts(self.members@),
        }
    }
}

impl PackageManifest {
    /// A manifest with a name and a directory, and nothing declared yet.
    pub fn new(name: &str, directory: &str) -> (r: PackageManifest)
        ensures
            r@ == (ManifestView {
                name: name@,
                directory: directory@,
                artifacts: Seq::empty(),
                features: Seq::empty(),
                members: Seq::empty(),
            }),
    {
        let r = PackageManifest {
            name: String::from_str(name),
            directory: String::from_str(directory),
            artifacts: Vec::new(),
            features: Vec::new(),
            members: Vec::new(),
        };
        assert(declarations(r.artifacts@) =~= Seq::empty());
        assert(texts(r.features@) =~= Seq::empty());
        assert(texts(r.members@) =~= Seq::empty());
        r
    }

    /// Declares one more artifact, after those declared so far.
    pub fn declare(&mut self, artifact: ArtifactDeclaration)
        ensures
            final(self)@ == (ManifestView {
                artifacts: old(self)@.artifacts.push(artifact@),
                ..old(self)@
            }),
    {
        self.artifacts.push(artifact);
        assert(declarations(self.artifacts@) =~= declarations(old(self).artifacts@).push(
            artifact@,
        ));
    }

    /// Declares one more feature.
    pub fn declare_feature(&mut self, name: &str)
        ensures
            final(self)@ == (ManifestView {
                features: old(self)@.features.push(name@),
                ..old(self)@
            }),
    {
        self.features.push(String::from_str(name));
        assert(texts(self.features@) =~= texts(old(self).features@).push(name@));
    }

    /// Names one more workspace member by its directory.
    pub fn add_member(&mut self, directory: &str)
        ensures
            final(self)@ == (ManifestView {
                members: old(self)@.members.push(directory@),
                ..old(self)@
            }),
    {
        self.members.push(String::from_str(directory));
        assert(texts(self.members@) =~= texts(old(self).members@).push(directory@));
    }
}

/// Why a manifest could not be read.
#[derive(Debug)]
pub enum ManifestError {
    /// The directory holds no manifest.
    NotFound { directory: String },
    /// The manifest is malformed at this line and column, both counted from 1.
    Parse { directory: String, line: usize, column: usize },
    /// The workspace member at this directory is a member of itself, directly
    /// or through other members.
    Cycle { directory: String },
}

/// The mathematical form of a [`ManifestError`].
pub enum ManifestErrorView {
    NotFound { directory: Seq<char> },
    Parse { directory: Seq<char>, line: usize, column: usize },
    Cycle { directory: Seq<char> },
}

impl View for ManifestError {
    type V = ManifestErrorView;

    open spec fn view(&self) -> ManifestErrorView {
        match self {
            ManifestError::NotFound { directory } => ManifestErrorView::NotFound {
                directory: directory@,
            },
            ManifestError::Parse { directory, line, column } => ManifestErrorView::Parse {
                directory: directory@,
                line: *line,
                column: *column,
            },
            ManifestError::Cycle { directory } => ManifestErrorView::Cycle {
                directory: directory@,
            },
        }
    }
}

} // verus!
