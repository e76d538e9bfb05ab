//! Reading a manifest from its text.
//!
//! A manifest is a text of lines. An empty line and a line that starts with
//! `#` say nothing. Every other line is a directive, its fields set apart by
//! single spaces:
//!
//! ```text
//! package NAME
//! feature NAME
//! member DIRECTORY
//! artifact KIND NAME [GATE]
//! ```
//!
//! `KIND` is one of `static-library`, `shared-library`, `executable` and
//! `object-only`. `GATE` is a condition in prefix form: a feature name, or
//! `not GATE`, `all GATE GATE`, `any GATE GATE`. There is exactly one
//! `package` line.

use vstd::prelude::*;
use vstd::string::*;
use crate::manifest::{
    declarations, ArtifactDeclaration, ArtifactKind, DeclarationView, ManifestError,
    ManifestErrorView, ManifestView, PackageManifest,
};
use crate::predicate::{Gate, Predicate};
use crate::scan::{
    clip, column_of, field_column, joined, lemma_pieces, lemma_pieces_of_joined, pieces, split,
};
use crate::text::{same_text, texts};

verus! {

/// The kind that a word names, if it names one.
pub open spec fn kind_named(word: Seq<char>) -> Option<ArtifactKind> {
    if word == "static-library"@ {
        Some(ArtifactKind::StaticLibrary)
    } else if word == "shared-library"@ {
        Some(ArtifactKind::SharedLibrary)
    } else if word == "executable"@ {
        Some(ArtifactKind::Executable)
    } else if word == "object-only"@ {
        Some(ArtifactKind::ObjectOnly)
    } else {
        None
    }
}

/// The condition that starts at the field `from`, with the field after its
/// last; or the field at which no condition can be read. A condition that
/// the line ends in the middle of fails at the field past the last.
pub open spec fn gate_at(fields: Seq<Seq<char>>, from: int) -> Result<(Gate, int), int>
    decreases fields.len() - from,
{
    if from < 0 || from >= fields.len() {
        Err(fields.len() as int)
    } else if fields[from].len() == 0 {
        Err(from)
    } else if fields[from] == "not"@ {
        match gate_at(fields, from + 1) {
            Ok((inner, next)) => Ok((Gate::Not(Box::new(inner)), next)),
            Err(k) => Err(k),
        }
    } else if fields[from] == "all"@ || fields[from] == "any"@ {
        match gate_at(fields, from + 1) {
            Err(k) => Err(k),
            Ok((left, mid)) => if mid <= from || mid > fields.len() {
                Err(from)
            } else {
                match gate_at(fields, mid) {
                    Err(k) => Err(k),
                    Ok((right, next)) => if fields[from] == "all"@ {
                        Ok((Gate::And(Box::new(left), Box::new(right)), next))
                    } else {
                        Ok((Gate::Or(Box::new(left), Box::new(right)), next))
                    },
                }
            },
        }
    } else {
        Ok((Gate::Atom(fields[from]), from + 1))
    }
}

/// A condition that is read ends after the field it starts at, and within
/// the line; one that fails does so at or after the field it starts at.
pub proof fn lemma_gate_at(fields: Seq<Seq<char>>, from: int)
    requires
        0 <= from,
    ensures
        match gate_at(fields, from) {
            Ok((_, next)) => from < next <= fields.len(),
            Err(k) => from <= k <= fields.len() || from > fields.len(),
        },
    decreases fields.len() - from,
{
    if from < fields.len() && fields[from].len() != 0 {
        if fields[from] == "not"@ {
            lemma_gate_at(fields, from + 1);
        } else if fields[from] == "all"@ || fields[from] == "any"@ {
            lemma_gate_at(fields, from + 1);
            match gate_at(fields, from + 1) {
                Ok((_, mid)) => {
                    lemma_gate_at(fields, mid);
                },
                Err(_) => {},
            }
        }
    }
}

/// What one line of a manifest says.
pub enum LineView {
    /// Nothing: the line is empty or a comment.
    Blank,
    Package(Seq<char>),
    Feature(Seq<char>),
    Member(Seq<char>),
    Artifact(DeclarationView),
    /// The line is malformed at the field of this number, counted from 0.
    Bad(int),
}

/// What a line with a directive and one name says.
pub open spec fn named_field(fields: Seq<Seq<char>>) -> Result<Seq<char>, int> {
    if fields.len() < 2 || fields[1].len() == 0 {
        Err(1)
    } else if fields.len() > 2 {
        Err(2)
    } else {
        Ok(fields[1])
    }
}

/// What an `artifact` line says.
pub open spec fn artifact_line(fields: Seq<Seq<char>>) -> LineView {
    if fields.len() < 2 {
        LineView::Bad(1)
    } else {
        match kind_named(fields[1]) {
            None => LineView::Bad(1),
            Some(kind) => if fields.len() < 3 || fields[2].len() == 0 {
                LineView::Bad(2)
            } else if fields.len() == 3 {
                LineView::Artifact(DeclarationView { kind, name: fields[2], gate: None })
            } else {
                match gate_at(fields, 3) {
                    Err(k) => LineView::Bad(k),
                    Ok((gate, next)) => if next < fields.len() {
                        LineView::Bad(next)
                    } else {
                        LineView::Artifact(
                            DeclarationView { kind, name: fields[2], gate: Some(gate) },
                        )
                    },
                }
            },
        }
    }
}

/// What a line says.
pub open spec fn read_line(line: Seq<char>) -> LineView {
    let fields = pieces(line, ' ');
    if line.len() == 0 || line[0] == '#' {
        LineView::Blank
    } else if fields[0] == "package"@ {
        match named_field(fields) {
            Ok(name) => LineView::Package(name),
            Err(k) => LineView::Bad(k),
        }
    } else if fields[0] == "feature"@ {
        match named_field(fields) {
            Ok(name) => LineView::Feature(name),
            Err(k) => LineView::Bad(k),
        }
    } else if fields[0] == "member"@ {
        match named_field(fields) {
            Ok(name) => LineView::Member(name),
            Err(k) => LineView::Bad(k),
        }
    } else if fields[0] == "artifact"@ {
        artifact_line(fields)
    } else {
        LineView::Bad(0)
    }
}

/// What the lines read so far have declared.
pub struct DraftView {
    pub name: Option<Seq<char>>,
    pub artifacts: Seq<DeclarationView>,
    pub features: Seq<Seq<char>>,
    pub members: Seq<Seq<char>>,
}

/// What the first `upto` lines declare, or the line and column, both
/// counted from 1, of the first thing wrong: a malformed field, or a second
/// `package` line.
pub open spec fn read_lines(lines: Seq<Seq<char>>, upto: int) -> Result<DraftView, (int, int)>
    decreases upto,
{
    if upto <= 0 {
        Ok(
            DraftView {
                name: None,
                artifacts: Seq::empty(),
                features: Seq::empty(),
                members: Seq::empty(),
            },
        )
    } else {
        match read_lines(lines, upto - 1) {
            Err(e) => Err(e),
            Ok(d) => match read_line(lines[upto - 1]) {
                LineView::Blank => Ok(d),
                LineView::Package(name) => if d.name is Some {
                    Err((upto, 1))
                } else {
                    Ok(DraftView { name: Some(name), ..d })
                },
                LineView::Feature(name) => Ok(DraftView { features: d.features.push(name), ..d }),
                LineView::Member(name) => Ok(DraftView { members: d.members.push(name), ..d }),
                LineView::Artifact(a) => Ok(DraftView { artifacts: d.artifacts.push(a), ..d }),
                LineView::Bad(k) => Err((upto, column_of(pieces(lines[upto - 1], ' '), k))),
            },
        }
    }
}

/// The manifest that a text holds, or where the text is malformed. A text
/// without a `package` line is malformed past its last line.
pub open spec fn manifest_of(directory: Seq<char>, text: Seq<char>) -> Result<
    ManifestView,
    ManifestErrorView,
> {
    let lines = pieces(text, '\n');
    match read_lines(lines, lines.len() as int) {
        Err((line, column)) => Err(
            ManifestErrorView::Parse { directory, line: clip(line), column: clip(column) },
        ),
        Ok(d) => match d.name {
            None => Err(
                ManifestErrorView::Parse { directory, line: clip(lines.len() as int + 1), column: 1 },
            ),
            Some(name) => Ok(
                ManifestView {
                    name,
                    directory,
                    artifacts: d.artifacts,
                    features: d.features,
                    members: d.members,
                },
            ),
        },
    }
}

/// What is found in a directory: the manifest that its text holds, or, for a
/// directory without a manifest, that none was found.
pub open spec fn entry_of(directory: Seq<char>, text: Option<Seq<char>>) -> Result<
    ManifestView,
    ManifestErrorView,
> {
    match text {
        Some(t) => manifest_of(directory, t),
        None => Err(ManifestErrorView::NotFound { directory }),
    }
}

/// The form of what the readers return.
pub open spec fn read_outcome(r: Result<PackageManifest, ManifestError>) -> Result<
    ManifestView,
    ManifestErrorView,
> {
    match r {
        Ok(m) => Ok(m@),
        Err(e) => Err(e@),
    }
}

/// What one line says, as a value.
#[derive(Debug)]
pub enum Directive {
    Blank,
    Package(String),
    Feature(String),
    Member(String),
    Artifact(ArtifactDeclaration),
    /// The line is malformed at the field of this number, counted from 0.
    Bad(usize),
}

impl View for Directive {
    type V = LineView;

    open spec fn view(&self) -> LineView {
        match self {
            Directive::Blank => LineView::Blank,
            Directive::Package(name) => LineView::Package(name@),
            Directive::Feature(name) => LineView::Feature(name@),
            Directive::Member(name) => LineView::Member(name@),
            Directive::Artifact(a) => LineView::Artifact(a@),
            Directive::Bad(k) => LineView::Bad(*k as int),
        }
    }
}

/// The kind that a word names, if it names one.
pub fn parse_kind(word: &str) -> (r: Option<ArtifactKind>)
    ensures
        r == kind_named(word@),
{
    if same_text(word, "static-library") {
        Some(ArtifactKind::StaticLibrary)
    } else if same_text(word, "shared-library") {
        Some(ArtifactKind::SharedLibrary)
    } else if same_text(word, "executable") {
        Some(ArtifactKind::Executable)
    } else if same_text(word, "object-only") {
        Some(ArtifactKind::ObjectOnly)
    } else {
        None
    }
}

/// The form of what [`parse_gate`] returns.
pub open spec fn gate_outcome(r: Result<(Predicate, usize), usize>) -> Result<(Gate, int), int> {
    match r {
        Ok((p, next)) => Ok((p@, next as int)),
        Err(k) => Err(k as int),
    }
}

/// Reads the condition that starts at the field `from`.
pub fn parse_gate(fields: &Vec<String>, from: usize) -> (r: Result<(Predicate, usize), usize>)
    ensures
        gate_outcome(r) == gate_at(texts(fields@), from as int),
        r matches Ok((_, next)) ==> from < next <= fields.len(),
    decreases fields.len() - from,
{
    let ghost all = texts(fields@);
    proof {
        lemma_gate_at(all, from as int);
    }
    if from >= fields.len() {
        return Err(fields.len());
    }
    assert(all[from as int] == fields[from as int]@);
    let word = fields[from].as_str();
    if word.unicode_len() == 0 {
        return Err(from);
    }
    if same_text(word, "not") {
        return match parse_gate(fields, from + 1) {
            Ok((inner, next)) => Ok((Predicate::Not(Box::new(inner)), next)),
            Err(k) => Err(k),
        };
    }
    let conj = same_text(word, "all");
    if conj || same_text(word, "any") {
        return match parse_gate(fields, from + 1) {
            Err(k) => Err(k),
            Ok((left, mid)) => match parse_gate(fields, mid) {
                Err(k) => Err(k),
                Ok((right, next)) => if conj {
                    Ok((Predicate::And(Box::new(left), Box::new(right)), next))
                } else {
                    Ok((Predicate::Or(Box::new(left), Box::new(right)), next))
                },
            },
        };
    }
    Ok((Predicate::Atom(fields[from].clone()), from + 1))
}

fn parse_named(fields: &Vec<String>) -> (r: Result<String, usize>)
    ensures
        match r {
            Ok(name) => named_field(texts(fields@)) == Ok::<Seq<char>, int>(name@),
            Err(k) => named_field(texts(fields@)) == Err::<Seq<char>, int>(k as int),
        },
{
    if fields.len() < 2 {
        return Err(1);
    }
    assert(texts(fields@)[1] == fields[1]@);
    if fields[1].as_str().unicode_len() == 0 {
        Err(1)
    } else if fields.len() > 2 {
        Err(2)
    } else {
        Ok(fields[1].clone())
    }
}

fn parse_artifact(fields: &Vec<String>) -> (r: Directive)
    ensures
        r@ == artifact_line(texts(fields@)),
{
    if fields.len() < 2 {
        return Directive::Bad(1);
    }
    assert(texts(fields@)[1] == fields[1]@);
    let kind = match parse_kind(fields[1].as_str()) {
        Some(kind) => kind,
        None => {
            return Directive::Bad(1);
        },
    };
    if fields.len() < 3 {
        return Directive::Bad(2);
    }
    assert(texts(fields@)[2] == fields[2]@);
    if fields[2].as_str().unicode_len() == 0 {
        return Directive::Bad(2);
    }
    if fields.len() == 3 {
        return Directive::Artifact(
            ArtifactDeclaration { kind, name: fields[2].clone(), gate: None },
        );
    }
    match parse_gate(fields, 3) {
        Err(k) => Directive::Bad(k),
        Ok((gate, next)) => if next < fields.len() {
            Directive::Bad(next)
        } else {
            Directive::Artifact(
                ArtifactDeclaration { kind, name: fields[2].clone(), gate: Some(gate) },
            )
        },
    }
}

/// Reads one line of a manifest.
pub fn parse_line(line: &str) -> (r: Directive)
    ensures
        r@ == read_line(line@),
{
    let fields = split(line, ' ');
    let fields = &fields;
    proof {
        lemma_pieces(line@, ' ');
    }
    if line.unicode_len() == 0 {
        return Directive::Blank;
    }
    if line.get_char(0) == '#' {
        return Directive::Blank;
    }
    assert(texts(fields@)[0] == fields[0]@);
    let word = fields[0].as_str();
    if same_text(word, "package") {
        match parse_named(fields) {
            Ok(name) => Directive::Package(name),
            Err(k) => Directive::Bad(k),
        }
    } else if same_text(word, "feature") {
        match parse_named(fields) {
            Ok(name) => Directive::Feature(name),
            Err(k) => Directive::Bad(k),
        }
    } else if same_text(word, "member") {
        match parse_named(fields) {
            Ok(name) => Directive::Member(name),
            Err(k) => Directive::Bad(k),
        }
    } else if same_text(word, "artifact") {
        parse_artifact(fields)
    } else {
        Directive::Bad(0)
    }
}

/// Reads a manifest from the text found in `directory`.
pub fn parse_manifest(directory: &str, text: &str) -> (r: Result<PackageManifest, ManifestError>)
    ensures
        read_outcome(r) == manifest_of(directory@, text@),
{
    let lines = split(text, '\n');
    let ghost all = texts(lines@);
    let mut name: Option<String> = None;
    let mut artifacts: Vec<ArtifactDeclaration> = Vec::new();
    let mut features: Vec<String> = Vec::new();
    let mut members: Vec<String> = Vec::new();
    let mut i: usize = 0;
    assert(declarations(artifacts@) =~= Seq::empty());
    assert(texts(features@) =~= Seq::empty());
    assert(texts(members@) =~= Seq::empty());
    while i < lines.len()
        invariant
            i <= lines.len(),
            all == texts(lines@),
            all == pieces(text@, '\n'),
            read_lines(all, i as int) == Ok::<DraftView, (int, int)>(
                DraftView {
                    name: match name {
                        Some(n) => Some(n@),
                        None => None,
                    },
                    artifacts: declarations(artifacts@),
                    features: texts(features@),
                    members: texts(members@),
                },
            ),
        decreases lines.len() - i,
    {
        assert(all[i as int] == lines[i as int]@);
        let line = lines[i].as_str();
        let number = i.saturating_add(1);
        assert(number == clip(i + 1));
        match parse_line(line) {
            Directive::Blank => {},
            Directive::Package(n) => {
                if name.is_some() {
                    proof {
                        lemma_error_stays(all, i + 1, all.len() as int);
                    }
                    return Err(
                        ManifestError::Parse {
                            directory: String::from_str(directory),
                            line: number,
                            column: 1,
                        },
                    );
                }
                name = Some(n);
            },
            Directive::Feature(n) => {
                let ghost before = texts(features@);
                features.push(n);
                assert(texts(features@) =~= before.push(n@));
            },
            Directive::Member(n) => {
                let ghost before = texts(members@);
                members.push(n);
                assert(texts(members@) =~= before.push(n@));
            },
            Directive::Artifact(a) => {
                let ghost before = declarations(artifacts@);
                artifacts.push(a);
                assert(declarations(artifacts@) =~= before.push(a@));
            },
            Directive::Bad(k) => {
                let fields = split(line, ' ');
                proof {
                    lemma_error_stays(all, i + 1, all.len() as int);
                    lemma_bad_field(line@);
                }
                return Err(
                    ManifestError::Parse {
                        directory: String::from_str(directory),
                        line: number,
                        column: field_column(&fields, k),
                    },
                );
            },
        }
        i += 1;
    }
    match name {
        None => Err(
            ManifestError::Parse {
                directory: String::from_str(directory),
                line: lines.len().saturating_add(1),
                column: 1,
            },
        ),
        Some(n) => Ok(
            PackageManifest { name: n, directory: String::from_str(directory), artifacts, features, members },
        ),
    }
}

/// Reads what was found in `directory`: the text of its manifest, or
/// nothing.
pub fn read_manifest(directory: &str, text: Option<&str>) -> (r: Result<
    PackageManifest,
    ManifestError,
>)
    ensures
        read_outcome(r) == entry_of(
            directory@,
            match text {
                Some(t) => Some(t@),
                None => None,
            },
        ),
{
    match text {
        Some(t) => parse_manifest(directory, t),
        None => Err(ManifestError::NotFound { directory: String::from_str(directory) }),
    }
}

/// The first thing wrong stays the result, whatever lines follow.
pub proof fn lemma_error_stays(lines: Seq<Seq<char>>, at: int, upto: int)
    requires
        0 <= at <= upto,
        read_lines(lines, at) is Err,
    ensures
        read_lines(lines, upto) == read_lines(lines, at),
    decreases upto - at,
{
    if at < upto {
        lemma_error_stays(lines, at, upto - 1);
    }
}

/// A malformed field is a field of the line, or the one that would follow
/// its last.
pub proof fn lemma_bad_field(line: Seq<char>)
    ensures
        read_line(line) matches LineView::Bad(k) ==> 0 <= k <= pieces(line, ' ').len(),
{
    let fields = pieces(line, ' ');
    lemma_pieces(line, ' ');
    if fields.len() > 3 {
        lemma_gate_at(fields, 3);
    }
}

/// A manifest that is read has the directory it was read from, and an error
/// names that directory.
pub proof fn lemma_directory_kept(directory: Seq<char>, text: Option<Seq<char>>)
    ensures
        match entry_of(directory, text) {
            Ok(m) => m.directory == directory,
            Err(ManifestErrorView::NotFound { directory: d }) => d == directory && text is None,
            Err(ManifestErrorView::Parse { directory: d, line, column }) => d == directory
                && text is Some && line >= 1 && column >= 1,
            Err(ManifestErrorView::Cycle { .. }) => false,
        },
{
    if let Some(t) = text {
        let lines = pieces(t, '\n');
        lemma_pieces(t, '\n');
        lemma_error_place(lines, lines.len() as int);
    }
}

proof fn lemma_error_place(lines: Seq<Seq<char>>, upto: int)
    requires
        upto <= lines.len(),
    ensures
        read_lines(lines, upto) matches Err((line, column)) ==> 1 <= line <= upto && column >= 1,
    decreases upto,
{
    if upto > 0 {
        lemma_error_place(lines, upto - 1);
        lemma_bad_field(lines[upto - 1]);
        if let LineView::Bad(k) = read_line(lines[upto - 1]) {
            lemma_column_positive(pieces(lines[upto - 1], ' '), k);
        }
    }
}

proof fn lemma_column_positive(fields: Seq<Seq<char>>, k: int)
    ensures
        column_of(fields, k) >= 1,
    decreases k,
{
    if k > 0 {
        lemma_column_positive(fields, k - 1);
    }
}

/// A word that can stand for a feature in a condition: not empty, and none of
/// the three words that build conditions.
pub open spec fn is_feature_word(word: Seq<char>) -> bool {
    word.len() > 0 && word != "not"@ && word != "all"@ && word != "any"@
}

/// A condition all of whose features can be written: each is a name, and
/// none is a word that builds conditions.
pub open spec fn writable(g: Gate) -> bool
    decreases g,
{
    match g {
        Gate::Atom(name) => is_name(name) && is_feature_word(name),
        Gate::Not(inner) => writable(*inner),
        Gate::And(left, right) => writable(*left) && writable(*right),
        Gate::Or(left, right) => writable(*left) && writable(*right),
    }
}

/// The fields that a condition is written as, in prefix form.
pub open spec fn gate_fields(g: Gate) -> Seq<Seq<char>>
    decreases g,
{
    match g {
        Gate::Atom(name) => seq![name],
        Gate::Not(inner) => seq!["not"@] + gate_fields(*inner),
        Gate::And(left, right) => seq!["all"@] + gate_fields(*left) + gate_fields(*right),
        Gate::Or(left, right) => seq!["any"@] + gate_fields(*left) + gate_fields(*right),
    }
}

/// The three words that build conditions differ, and none is empty.
proof fn lemma_gate_words()
    ensures
        "not"@.len() == 3,
        "all"@.len() == 3,
        "any"@.len() == 3,
        "not"@ != "all"@,
        "not"@ != "any"@,
        "all"@ != "any"@,
{
    reveal_strlit("not");
    reveal_strlit("all");
    reveal_strlit("any");
    assert("not"@[0] == 'n');
    assert("all"@[0] == 'a');
    assert("all"@[1] == 'l');
    assert("any"@[0] == 'a');
    assert("any"@[1] == 'n');
}

/// A condition is read back as it was written: wherever its fields stand in
/// a line, the condition read there is the one written, and it ends where
/// its fields end.
pub proof fn lemma_gate_read_back(g: Gate, fields: Seq<Seq<char>>, from: int)
    requires
        writable(g),
        0 <= from,
        from + gate_fields(g).len() <= fields.len(),
        fields.subrange(from, from + gate_fields(g).len()) == gate_fields(g),
    ensures
        gate_at(fields, from) == Ok::<(Gate, int), int>((g, from + gate_fields(g).len())),
    decreases g,
{
    lemma_gate_words();
    let own = gate_fields(g);
    assert(own.len() >= 1);
    assert(fields[from] == fields.subrange(from, from + own.len())[0]);
    match g {
        Gate::Atom(name) => {},
        Gate::Not(inner) => {
            let sub = gate_fields(*inner);
            assert(own.len() == 1 + sub.len());
            assert(fields.subrange(from + 1, from + 1 + sub.len()) =~= sub) by {
                assert forall|k: int| 0 <= k < sub.len() implies fields[from + 1 + k] == sub[k] by {
                    assert(fields.subrange(from, from + own.len())[1 + k] == own[1 + k]);
                }
            }
            lemma_gate_read_back(*inner, fields, from + 1);
        },
        Gate::And(left, right) => {
            lemma_pair_fields(gate_fields(*left), gate_fields(*right), own, fields, from);
            lemma_gate_read_back(*left, fields, from + 1);
            lemma_gate_read_back(*right, fields, from + 1 + gate_fields(*left).len());
        },
        Gate::Or(left, right) => {
            lemma_pair_fields(gate_fields(*left), gate_fields(*right), own, fields, from);
            lemma_gate_read_back(*left, fields, from + 1);
            lemma_gate_read_back(*right, fields, from + 1 + gate_fields(*left).len());
        },
    }
}

proof fn lemma_pair_fields(
    first: Seq<Seq<char>>,
    second: Seq<Seq<char>>,
    own: Seq<Seq<char>>,
    fields: Seq<Seq<char>>,
    from: int,
)
    requires
        0 <= from,
        own.len() == 1 + first.len() + second.len(),
        forall|k: int| 0 <= k < first.len() ==> own[1 + k] == first[k],
        forall|k: int| 0 <= k < second.len() ==> own[1 + first.len() + k] == second[k],
        from + own.len() <= fields.len(),
        fields.subrange(from, from + own.len()) == own,
    ensures
        fields.subrange(from + 1, from + 1 + first.len()) == first,
        fields.subrange(from + 1 + first.len(), from + 1 + first.len() + second.len()) == second,
{
    assert(fields.subrange(from + 1, from + 1 + first.len()) =~= first) by {
        assert forall|k: int| 0 <= k < first.len() implies fields[from + 1 + k] == first[k] by {
            assert(fields.subrange(from, from + own.len())[1 + k] == own[1 + k]);
        }
    }
    let mid = from + 1 + first.len();
    assert(fields.subrange(mid, mid + second.len()) =~= second) by {
        assert forall|k: int| 0 <= k < second.len() implies fields[mid + k] == second[k] by {
            assert(fields.subrange(from, from + own.len())[1 + first.len() + k] == own[1
                + first.len() + k]);
        }
    }
}

/// A name that can be written in a manifest: not empty, without a space and
/// without a line break, and not starting a comment.
pub open spec fn is_name(word: Seq<char>) -> bool {
    word.len() > 0 && !word.contains(' ') && !word.contains('\n') && word[0] != '#'
}

/// The word for a kind.
pub open spec fn kind_word(kind: ArtifactKind) -> Seq<char> {
    match kind {
        ArtifactKind::StaticLibrary => "static-library"@,
        ArtifactKind::SharedLibrary => "shared-library"@,
        ArtifactKind::Executable => "executable"@,
        ArtifactKind::ObjectOnly => "object-only"@,
    }
}

/// The words of the format are names, and no two of those that stand in
/// the same place are the same.
proof fn lemma_words()
    ensures
        is_name("package"@),
        is_name("feature"@),
        is_name("member"@),
        is_name("artifact"@),
        is_name("static-library"@),
        is_name("shared-library"@),
        is_name("executable"@),
        is_name("object-only"@),
        is_name("not"@),
        is_name("all"@),
        is_name("any"@),
        "package"@ != "feature"@,
        "package"@ != "member"@,
        "package"@ != "artifact"@,
        "feature"@ != "member"@,
        "feature"@ != "artifact"@,
        "member"@ != "artifact"@,
        "static-library"@ != "shared-library"@,
        "static-library"@ != "executable"@,
        "static-library"@ != "object-only"@,
        "shared-library"@ != "executable"@,
        "shared-library"@ != "object-only"@,
        "executable"@ != "object-only"@,
{
    reveal_strlit("package");
    reveal_strlit("feature");
    reveal_strlit("member");
    reveal_strlit("artifact");
    reveal_strlit("static-library");
    reveal_strlit("shared-library");
    reveal_strlit("executable");
    reveal_strlit("object-only");
    reveal_strlit("not");
    reveal_strlit("all");
    reveal_strlit("any");
    assert("package"@[0] == 'p');
    assert("feature"@[0] == 'f');
    assert("static-library"@[1] == 't');
    assert("shared-library"@[1] == 'h');
}

/// The fields that a line is written as.
pub open spec fn line_fields(l: LineView) -> Seq<Seq<char>> {
    match l {
        LineView::Package(name) => seq!["package"@, name],
        LineView::Feature(name) => seq!["feature"@, name],
        LineView::Member(name) => seq!["member"@, name],
        LineView::Artifact(a) => seq!["artifact"@, kind_word(a.kind), a.name] + match a.gate {
            Some(g) => gate_fields(g),
            None => Seq::empty(),
        },
        _ => seq![Seq::empty()],
    }
}

/// The text that a line is written as.
pub open spec fn written_line(l: LineView) -> Seq<char> {
    joined(line_fields(l), ' ')
}

/// What can be written as a line: a directive whose names can be written,
/// or nothing.
pub open spec fn can_write_line(l: LineView) -> bool {
    match l {
        LineView::Blank => true,
        LineView::Package(name) => is_name(name),
        LineView::Feature(name) => is_name(name),
        LineView::Member(name) => is_name(name),
        LineView::Artifact(a) => is_name(a.name) && match a.gate {
            Some(g) => writable(g),
            None => true,
        },
        LineView::Bad(_) => false,
    }
}

proof fn lemma_gate_fields_are_names(g: Gate)
    requires
        writable(g),
    ensures
        gate_fields(g).len() >= 1,
        forall|k: int| 0 <= k < gate_fields(g).len() ==> is_name(#[trigger] gate_fields(g)[k]),
    decreases g,
{
    lemma_words();
    match g {
        Gate::Atom(name) => {},
        Gate::Not(inner) => {
            lemma_gate_fields_are_names(*inner);
            assert forall|k: int| 0 <= k < gate_fields(g).len() implies is_name(
                #[trigger] gate_fields(g)[k],
            ) by {
                if k > 0 {
                    assert(gate_fields(g)[k] == gate_fields(*inner)[k - 1]);
                }
            }
        },
        Gate::And(left, right) => {
            lemma_gate_fields_are_names(*left);
            lemma_gate_fields_are_names(*right);
            let first = gate_fields(*left);
            assert forall|k: int| 0 <= k < gate_fields(g).len() implies is_name(
                #[trigger] gate_fields(g)[k],
            ) by {
                if 0 < k <= first.len() {
                    assert(gate_fields(g)[k] == first[k - 1]);
                } else if k > first.len() {
                    assert(gate_fields(g)[k] == gate_fields(*right)[k - 1 - first.len()]);
                }
            }
        },
        Gate::Or(left, right) => {
            lemma_gate_fields_are_names(*left);
            lemma_gate_fields_are_names(*right);
            let first = gate_fields(*left);
            assert forall|k: int| 0 <= k < gate_fields(g).len() implies is_name(
                #[trigger] gate_fields(g)[k],
            ) by {
                if 0 < k <= first.len() {
                    assert(gate_fields(g)[k] == first[k - 1]);
                } else if k > first.len() {
                    assert(gate_fields(g)[k] == gate_fields(*right)[k - 1 - first.len()]);
                }
            }
        },
    }
}

/// A text joined from names holds a character only if a name holds it or it
/// is the one that joins them.
proof fn lemma_joined_lacks(parts: Seq<Seq<char>>, d: char, c: char)
    requires
        c != d,
        forall|k: int| 0 <= k < parts.len() ==> !(#[trigger] parts[k]).contains(c),
    ensures
        !joined(parts, d).contains(c),
    decreases parts.len(),
{
    let s = joined(parts, d);
    if parts.len() == 1 {
        assert(!parts[0].contains(c));
    } else if parts.len() > 1 {
        let rest = parts.drop_first();
        assert forall|k: int| 0 <= k < rest.len() implies !(#[trigger] rest[k]).contains(c) by {
            assert(rest[k] == parts[k + 1]);
        }
        lemma_joined_lacks(rest, d, c);
        let head = parts[0];
        let tail = joined(rest, d);
        assert(!head.contains(c));
        assert forall|j: int| 0 <= j < s.len() implies s[j] != c by {
            if j < head.len() {
                assert(s[j] == head[j]);
            } else if j > head.len() {
                assert(s[j] == tail[j - head.len() - 1]);
            }
        }
    }
}

/// A line is read back as it was written, and what is written for it is
/// one line.
pub proof fn lemma_line_read_back(l: LineView)
    requires
        can_write_line(l),
    ensures
        read_line(written_line(l)) == l,
        !written_line(l).contains('\n'),
{
    lemma_words();
    let fields = line_fields(l);
    let line = written_line(l);
    if l is Blank {
        assert(line =~= Seq::empty());
    } else {
        if let LineView::Artifact(a) = l {
            if let Some(g) = a.gate {
                lemma_gate_fields_are_names(g);
                let own = gate_fields(g);
                assert forall|k: int| 0 <= k < fields.len() implies is_name(#[trigger] fields[k]) by {
                    if k >= 3 {
                        assert(fields[k] == own[k - 3]);
                    }
                }
                assert(fields.subrange(3, 3 + own.len() as int) =~= own);
                lemma_gate_read_back(g, fields, 3);
            }
        }
        assert forall|k: int| 0 <= k < fields.len() implies !(#[trigger] fields[k]).contains(
            ' ',
        ) && !fields[k].contains('\n') by {
            assert(is_name(fields[k]));
        }
        lemma_pieces_of_joined(fields, ' ');
        lemma_joined_lacks(fields, ' ', '\n');
        assert(fields.len() >= 2);
        assert(line[0] == fields[0][0]);
    }
}

/// The lines that a manifest is written as: its name, then its features,
/// its members and its artifacts, each in their order.
pub open spec fn written_lines(m: ManifestView) -> Seq<Seq<char>> {
    seq![written_line(LineView::Package(m.name))] + m.features.map_values(
        |name: Seq<char>| written_line(LineView::Feature(name)),
    ) + m.members.map_values(|name: Seq<char>| written_line(LineView::Member(name)))
        + m.artifacts.map_values(|a: DeclarationView| written_line(LineView::Artifact(a)))
}

/// The text that a manifest is written as.
pub open spec fn written(m: ManifestView) -> Seq<char> {
    joined(written_lines(m), '\n')
}

/// A manifest all of whose names and conditions can be written.
pub open spec fn can_write(m: ManifestView) -> bool {
    &&& is_name(m.name)
    &&& forall|k: int| 0 <= k < m.features.len() ==> is_name(#[trigger] m.features[k])
    &&& forall|k: int| 0 <= k < m.members.len() ==> is_name(#[trigger] m.members[k])
    &&& forall|k: int|
        0 <= k < m.artifacts.len() ==> can_write_line(LineView::Artifact(#[trigger] m.artifacts[k]))
}

/// What the line `k` of a written manifest says.
pub open spec fn line_said(m: ManifestView, k: int) -> LineView {
    if k <= 0 {
        LineView::Package(m.name)
    } else if k <= m.features.len() {
        LineView::Feature(m.features[k - 1])
    } else if k <= m.features.len() + m.members.len() {
        LineView::Member(m.members[k - 1 - m.features.len()])
    } else {
        LineView::Artifact(m.artifacts[k - 1 - m.features.len() - m.members.len()])
    }
}

/// A number kept between 0 and `most`.
pub open spec fn within(n: int, most: int) -> int {
    if n <= 0 {
        0
    } else if n >= most {
        most
    } else {
        n
    }
}

/// What the first `upto` lines of a written manifest declare.
pub open spec fn draft_at(m: ManifestView, upto: int) -> DraftView {
    let f = m.features.len() as int;
    let g = m.members.len() as int;
    DraftView {
        name: if upto >= 1 {
            Some(m.name)
        } else {
            None
        },
        features: m.features.take(within(upto - 1, f)),
        members: m.members.take(within(upto - 1 - f, g)),
        artifacts: m.artifacts.take(within(upto - 1 - f - g, m.artifacts.len() as int)),
    }
}

proof fn lemma_written_lines(m: ManifestView)
    requires
        can_write(m),
    ensures
        written_lines(m).len() == 1 + m.features.len() + m.members.len() + m.artifacts.len(),
        forall|k: int|
            0 <= k < written_lines(m).len() ==> #[trigger] written_lines(m)[k] == written_line(
                line_said(m, k),
            ) && can_write_line(line_said(m, k)),
{
    let lines = written_lines(m);
    assert forall|k: int| 0 <= k < lines.len() implies #[trigger] lines[k] == written_line(
        line_said(m, k),
    ) && can_write_line(line_said(m, k)) by {
        let f = m.features.len() as int;
        let g = m.members.len() as int;
        if k == 0 {
        } else if k <= f {
            assert(is_name(m.features[k - 1]));
        } else if k <= f + g {
            assert(is_name(m.members[k - 1 - f]));
        } else {
            assert(can_write_line(LineView::Artifact(m.artifacts[k - 1 - f - g])));
        }
    }
}

proof fn lemma_read_written(m: ManifestView, upto: int)
    requires
        can_write(m),
        0 <= upto <= written_lines(m).len(),
    ensures
        read_lines(written_lines(m), upto) == Ok::<DraftView, (int, int)>(draft_at(m, upto)),
    decreases upto,
{
    if upto > 0 {
        lemma_read_written(m, upto - 1);
        lemma_written_lines(m);
        let k = upto - 1;
        let lines = written_lines(m);
        lemma_line_read_back(line_said(m, k));
        assert(lines[k] == written_line(line_said(m, k)));
        assert(read_line(lines[upto - 1]) == line_said(m, k));
        let f = m.features.len() as int;
        let g = m.members.len() as int;
        let before = draft_at(m, upto - 1);
        let after = draft_at(m, upto);
        assert(read_lines(lines, upto - 1) == Ok::<DraftView, (int, int)>(before));
        if k == 0 {
            assert(after.features =~= before.features);
            assert(after.members =~= before.members);
            assert(after.artifacts =~= before.artifacts);
            assert(after == DraftView { name: Some(m.name), ..before });
        } else if k <= f {
            assert(after.features =~= before.features.push(m.features[k - 1]));
            assert(after == DraftView { features: before.features.push(m.features[k - 1]), ..before });
        } else if k <= f + g {
            assert(after.members =~= before.members.push(m.members[k - 1 - f]));
            assert(after == DraftView { members: before.members.push(m.members[k - 1 - f]), ..before });
        } else {
            assert(after.artifacts =~= before.artifacts.push(m.artifacts[k - 1 - f - g]));
            assert(after == DraftView {
                artifacts: before.artifacts.push(m.artifacts[k - 1 - f - g]),
                ..before
            });
        }
    } else {
        let none = draft_at(m, 0);
        assert(none.features =~= Seq::empty());
        assert(none.members =~= Seq::empty());
        assert(none.artifacts =~= Seq::empty());
    }
}

/// A manifest is read back as it was written: the text written for a
/// manifest whose names and conditions can be written holds that manifest.
pub proof fn lemma_manifest_read_back(m: ManifestView)
    requires
        can_write(m),
    ensures
        manifest_of(m.directory, written(m)) == Ok::<ManifestView, ManifestErrorView>(m),
{
    let lines = written_lines(m);
    lemma_written_lines(m);
    assert forall|k: int| 0 <= k < lines.len() implies !(#[trigger] lines[k]).contains('\n') by {
        lemma_line_read_back(line_said(m, k));
    }
    lemma_pieces_of_joined(lines, '\n');
    lemma_read_written(m, lines.len() as int);
    let d = draft_at(m, lines.len() as int);
    assert(d.features =~= m.features);
    assert(d.members =~= m.members);
    assert(d.artifacts =~= m.artifacts);
}

} // verus!
