//! From a root manifest to the manifests of all its workspace members.
//!
//! Reading files is the caller's part. The caller hands over what it has
//! loaded so far, one entry for each directory it has looked into, and is told
//! either which directory to load next, or the members in the order they were
//! reached, or the first failure on the way.

use vstd::prelude::*;
use vstd::string::*;
use crate::manifest::{ManifestError, ManifestErrorView, ManifestView, PackageManifest};
use crate::text::{copy_texts, has_text, same_text, texts};

verus! {

/// What the caller found in one directory: a manifest, or why there is none.
pub type Entry = Result<PackageManifest, ManifestError>;

/// The mathematical form of an [`Entry`].
pub type EntryView = Result<ManifestView, ManifestErrorView>;

/// The form of an entry.
pub open spec fn entry_view(e: Entry) -> EntryView {
    match e {
        Ok(m) => Ok(m@),
        Err(x) => Err(x@),
    }
}

/// The forms of a list of entries.
pub open spec fn entries(v: Seq<Entry>) -> Seq<EntryView> {
    v.map_values(|e: Entry| entry_view(e))
}

/// The directory an error is about.
pub open spec fn error_directory(e: ManifestErrorView) -> Seq<char> {
    match e {
        ManifestErrorView::NotFound { directory } => directory,
        ManifestErrorView::Parse { directory, .. } => directory,
        ManifestErrorView::Cycle { directory } => directory,
    }
}

/// The directory an entry is about.
pub open spec fn entry_directory(e: EntryView) -> Seq<char> {
    match e {
        Ok(m) => m.directory,
        Err(x) => error_directory(x),
    }
}

/// The position of the first entry at or after `from` for `directory`, or
/// the number of entries if there is none.
pub open spec fn entry_from(loaded: Seq<EntryView>, from: int, directory: Seq<char>) -> int
    decreases loaded.len() - from,
{
    if from >= loaded.len() {
        loaded.len() as int
    } else if from >= 0 && entry_directory(loaded[from]) == directory {
        from
    } else {
        entry_from(loaded, from + 1, directory)
    }
}

/// Why a walk stops before it is complete.
pub enum HaltView {
    /// The entry for this directory has not been loaded yet.
    Need(Seq<char>),
    /// The walk failed.
    Failed(ManifestErrorView),
}

/// The walk from one directory. `path` holds the directories on the way
/// from the root, `reached` the positions of the manifests reached so far;
/// `depth` is how many more manifests the way may pass through.
///
/// A directory that is on the way to itself is a cycle. One that is not
/// loaded is asked for. One that was reached before by another way is passed
/// over. Otherwise its entry decides: an error ends the walk, a manifest is
/// added and its members are walked in order. A way longer than `depth`
/// allows is a cycle too: started with the number of entries, it would have
/// to pass a directory twice.
pub open spec fn walk(
    loaded: Seq<EntryView>,
    directory: Seq<char>,
    path: Seq<Seq<char>>,
    reached: Seq<int>,
    depth: nat,
) -> Result<Seq<int>, HaltView>
    decreases depth, 0int,
{
    let at = entry_from(loaded, 0, directory);
    if path.contains(directory) {
        Err(HaltView::Failed(ManifestErrorView::Cycle { directory }))
    } else if at >= loaded.len() {
        Err(HaltView::Need(directory))
    } else if reached.contains(at) {
        Ok(reached)
    } else {
        match loaded[at] {
            Err(e) => Err(HaltView::Failed(e)),
            Ok(m) => if depth == 0 {
                Err(HaltView::Failed(ManifestErrorView::Cycle { directory }))
            } else {
                walk_members(
                    loaded,
                    m.members,
                    0,
                    path.push(directory),
                    reached.push(at),
                    (depth - 1) as nat,
                )
            },
        }
    }
}

/// The walk from each of `members` in turn, starting with the one at `from`.
pub open spec fn walk_members(
    loaded: Seq<EntryView>,
    members: Seq<Seq<char>>,
    from: int,
    path: Seq<Seq<char>>,
    reached: Seq<int>,
    depth: nat,
) -> Result<Seq<int>, HaltView>
    decreases depth, 1 + members.len() - from,
{
    if from < 0 || from >= members.len() {
        Ok(reached)
    } else {
        match walk(loaded, members[from], path, reached, depth) {
            Err(h) => Err(h),
            Ok(more) => walk_members(loaded, members, from + 1, path, more, depth),
        }
    }
}

/// How far a resolution has come.
#[derive(Debug)]
pub enum Resolution {
    /// Every member is loaded: the positions of their entries, the root
    /// first, each member before its own members.
    Complete(Vec<usize>),
    /// The entry for this directory is needed next.
    Need(String),
    /// The workspace cannot be resolved.
    Failed(ManifestError),
}

/// The mathematical form of a [`Resolution`].
pub enum ResolutionView {
    Complete(Seq<int>),
    Need(Seq<char>),
    Failed(ManifestErrorView),
}

impl View for Resolution {
    type V = ResolutionView;

    open spec fn view(&self) -> ResolutionView {
        match self {
            Resolution::Complete(v) => ResolutionView::Complete(v@.map_values(|i: usize| i as int)),
            Resolution::Need(directory) => ResolutionView::Need(directory@),
            Resolution::Failed(e) => ResolutionView::Failed(e@),
        }
    }
}

/// The resolution of the workspace rooted at `root`, given what is loaded.
pub open spec fn resolution_of(loaded: Seq<EntryView>, root: Seq<char>) -> ResolutionView {
    match walk(loaded, root, Seq::empty(), Seq::empty(), loaded.len()) {
        Ok(reached) => ResolutionView::Complete(reached),
        Err(HaltView::Need(directory)) => ResolutionView::Need(directory),
        Err(HaltView::Failed(e)) => ResolutionView::Failed(e),
    }
}

/// Why a walk stops before it is complete.
#[derive(Debug)]
pub enum Halt {
    /// The entry for this directory has not been loaded yet.
    Need(String),
    /// The walk failed.
    Failed(ManifestError),
}

impl View for Halt {
    type V = HaltView;

    open spec fn view(&self) -> HaltView {
        match self {
            Halt::Need(directory) => HaltView::Need(directory@),
            Halt::Failed(e) => HaltView::Failed(e@),
        }
    }
}

spec fn positions(v: Seq<usize>) -> Seq<int> {
    v.map_values(|i: usize| i as int)
}

spec fn walk_result(r: Result<Vec<usize>, Halt>) -> Result<Seq<int>, HaltView> {
    match r {
        Ok(v) => Ok(positions(v@)),
        Err(h) => Err(h@),
    }
}

/// A copy of an error.
pub fn copy_error(e: &ManifestError) -> (r: ManifestError)
    ensures
        r@ == e@,
{
    match e {
        ManifestError::NotFound { directory } => ManifestError::NotFound {
            directory: directory.clone(),
        },
        ManifestError::Parse { directory, line, column } => ManifestError::Parse {
            directory: directory.clone(),
            line: *line,
            column: *column,
        },
        ManifestError::Cycle { directory } => ManifestError::Cycle { directory: directory.clone() },
    }
}

fn directory_of(e: &Entry) -> (r: &String)
    ensures
        r@ == entry_directory(entry_view(*e)),
{
    match e {
        Ok(m) => &m.directory,
        Err(ManifestError::NotFound { directory }) => directory,
        Err(ManifestError::Parse { directory, .. }) => directory,
        Err(ManifestError::Cycle { directory }) => directory,
    }
}

/// The position of the first entry for `directory`, or the number of entries
/// if there is none.
pub fn find_entry(loaded: &Vec<Entry>, directory: &str) -> (r: usize)
    ensures
        r == entry_from(entries(loaded@), 0, directory@),
        r <= loaded.len(),
{
    let ghost all = entries(loaded@);
    let mut i: usize = 0;
    while i < loaded.len()
        invariant
            all == entries(loaded@),
            entry_from(all, 0, directory@) == entry_from(all, i as int, directory@),
        decreases loaded.len() - i,
    {
        assert(all[i as int] == entry_view(loaded[i as int]));
        if same_text(directory_of(&loaded[i]).as_str(), directory) {
            return i;
        }
        i += 1;
    }
    loaded.len()
}

fn holds(list: &Vec<usize>, at: usize) -> (r: bool)
    ensures
        r == positions(list@).contains(at as int),
{
    let mut i: usize = 0;
    while i < list.len()
        invariant
            i <= list.len(),
            forall|j: int| 0 <= j < i ==> list[j] != at,
        decreases list.len() - i,
    {
        if list[i] == at {
            assert(positions(list@)[i as int] == at as int);
            return true;
        }
        i += 1;
    }
    assert forall|j: int| 0 <= j < positions(list@).len() implies positions(list@)[j]
        != at as int by {
        assert(positions(list@)[j] == list[j] as int);
    }
    false
}

fn visit(
    loaded: &Vec<Entry>,
    directory: &str,
    path: &Vec<String>,
    reached: Vec<usize>,
    depth: usize,
) -> (r: Result<Vec<usize>, Halt>)
    ensures
        walk_result(r) == walk(
            entries(loaded@),
            directory@,
            texts(path@),
            positions(reached@),
            depth as nat,
        ),
    decreases depth, 0int,
{
    if has_text(path, directory) {
        return Err(Halt::Failed(ManifestError::Cycle { directory: String::from_str(directory) }));
    }
    let at = find_entry(loaded, directory);
    if at >= loaded.len() {
        return Err(Halt::Need(String::from_str(directory)));
    }
    if holds(&reached, at) {
        return Ok(reached);
    }
    assert(entries(loaded@)[at as int] == entry_view(loaded[at as int]));
    match &loaded[at] {
        Err(e) => Err(Halt::Failed(copy_error(e))),
        Ok(m) => {
            if depth == 0 {
                return Err(
                    Halt::Failed(ManifestError::Cycle { directory: String::from_str(directory) }),
                );
            }
            let mut inner = copy_texts(path);
            inner.push(String::from_str(directory));
            assert(texts(inner@) =~= texts(path@).push(directory@));
            let mut more = reached;
            let ghost had = positions(more@);
            more.push(at);
            assert(positions(more@) =~= had.push(at as int));
            visit_members(loaded, &m.members, 0, &inner, more, depth - 1)
        },
    }
}

fn visit_members(
    loaded: &Vec<Entry>,
    members: &Vec<String>,
    from: usize,
    path: &Vec<String>,
    reached: Vec<usize>,
    depth: usize,
) -> (r: Result<Vec<usize>, Halt>)
    ensures
        walk_result(r) == walk_members(
            entries(loaded@),
            texts(members@),
            from as int,
            texts(path@),
            positions(reached@),
            depth as nat,
        ),
    decreases depth, 1 + members.len() - from,
{
    if from >= members.len() {
        return Ok(reached);
    }
    assert(texts(members@)[from as int] == members[from as int]@);
    match visit(loaded, members[from].as_str(), path, reached, depth) {
        Err(h) => Err(h),
        Ok(more) => visit_members(loaded, members, from + 1, path, more, depth),
    }
}

/// Resolves the workspace rooted at `root` as far as the loaded entries
/// allow.
pub fn resolve_workspace(root: &str, loaded: &Vec<Entry>) -> (r: Resolution)
    ensures
        r@ == resolution_of(entries(loaded@), root@),
{
    let path: Vec<String> = Vec::new();
    let reached: Vec<usize> = Vec::new();
    assert(texts(path@) =~= Seq::empty());
    assert(positions(reached@) =~= Seq::empty());
    match visit(loaded, root, &path, reached, loaded.len()) {
        Ok(v) => Resolution::Complete(v),
        Err(Halt::Need(directory)) => Resolution::Need(directory),
        Err(Halt::Failed(e)) => Resolution::Failed(e),
    }
}

/// Where the entry of a directory stands: no entry in front of it is for
/// that directory, and it is for it unless it is past the last entry.
pub proof fn lemma_entry_from(loaded: Seq<EntryView>, from: int, directory: Seq<char>)
    requires
        0 <= from,
    ensures
        from <= entry_from(loaded, from, directory) || from > loaded.len(),
        entry_from(loaded, from, directory) <= loaded.len(),
        entry_from(loaded, from, directory) < loaded.len() ==> entry_directory(
            loaded[entry_from(loaded, from, directory)],
        ) == directory,
    decreases loaded.len() - from,
{
    if from < loaded.len() && entry_directory(loaded[from]) != directory {
        lemma_entry_from(loaded, from + 1, directory);
    }
}

/// A list of different numbers below `n` has at most `n` numbers.
proof fn lemma_different_below(f: Seq<int>, n: int)
    requires
        0 <= n,
        forall|k: int| 0 <= k < f.len() ==> 0 <= #[trigger] f[k] < n,
        forall|j: int, k: int| 0 <= j < k < f.len() ==> f[j] != f[k],
    ensures
        f.len() <= n,
    decreases n,
{
    if f.len() > 0 {
        assert(0 <= f[0] < n);
        if exists|k: int| 0 <= k < f.len() && f[k] == n - 1 {
            let k = choose|k: int| 0 <= k < f.len() && f[k] == n - 1;
            let g = f.remove(k);
            assert forall|i: int| 0 <= i < g.len() implies 0 <= #[trigger] g[i] < n - 1 by {
                if i < k {
                    assert(g[i] == f[i]);
                } else {
                    assert(g[i] == f[i + 1]);
                }
            }
            assert forall|i: int, j: int| 0 <= i < j < g.len() implies g[i] != g[j] by {
                let a = if i < k {
                    i
                } else {
                    i + 1
                };
                let b = if j < k {
                    j
                } else {
                    j + 1
                };
                assert(g[i] == f[a] && g[j] == f[b]);
            }
            lemma_different_below(g, n - 1);
        } else {
            lemma_different_below(f, n - 1);
        }
    }
}

/// The directories on a way: each is loaded, and none comes twice.
pub open spec fn is_way(loaded: Seq<EntryView>, path: Seq<Seq<char>>) -> bool {
    &&& forall|k: int|
        0 <= k < path.len() ==> entry_from(loaded, 0, #[trigger] path[k]) < loaded.len()
    &&& forall|j: int, k: int| 0 <= j < k < path.len() ==> path[j] != path[k]
}

/// A way is no longer than the number of entries.
pub proof fn lemma_way_is_bounded(loaded: Seq<EntryView>, path: Seq<Seq<char>>)
    requires
        is_way(loaded, path),
    ensures
        path.len() <= loaded.len(),
{
    let f = Seq::new(path.len(), |k: int| entry_from(loaded, 0, path[k]));
    assert forall|k: int| 0 <= k < f.len() implies 0 <= #[trigger] f[k] < loaded.len() by {
        lemma_entry_from(loaded, 0, path[k]);
    }
    assert forall|j: int, k: int| 0 <= j < k < f.len() implies f[j] != f[k] by {
        lemma_entry_from(loaded, 0, path[j]);
        lemma_entry_from(loaded, 0, path[k]);
    }
    lemma_different_below(f, loaded.len() as int);
}

/// The bound on the depth of a walk is never what ends it: with any two
/// depths that leave room for as many manifests as are not yet on the way,
/// the walk is the same. A cycle that a resolution reports is therefore a
/// directory that is on the way to itself.
pub proof fn lemma_depth_suffices(
    loaded: Seq<EntryView>,
    directory: Seq<char>,
    path: Seq<Seq<char>>,
    reached: Seq<int>,
    depth: nat,
    other: nat,
)
    requires
        is_way(loaded, path),
        depth + path.len() >= loaded.len(),
        other + path.len() >= loaded.len(),
    ensures
        walk(loaded, directory, path, reached, depth) == walk(
            loaded,
            directory,
            path,
            reached,
            other,
        ),
    decreases depth, 0int,
{
    let at = entry_from(loaded, 0, directory);
    lemma_entry_from(loaded, 0, directory);
    if !path.contains(directory) && at < loaded.len() && !reached.contains(at) {
        if let Ok(m) = loaded[at] {
            let longer = path.push(directory);
            assert(is_way(loaded, longer)) by {
                assert forall|k: int| 0 <= k < longer.len() implies entry_from(
                    loaded,
                    0,
                    #[trigger] longer[k],
                ) < loaded.len() by {
                    if k < path.len() {
                        assert(longer[k] == path[k]);
                    }
                }
                assert forall|j: int, k: int| 0 <= j < k < longer.len() implies longer[j]
                    != longer[k] by {
                    if k < path.len() {
                        assert(longer[j] == path[j] && longer[k] == path[k]);
                    } else {
                        assert(longer[j] == path[j]);
                        assert(path.contains(path[j]));
                    }
                }
            }
            lemma_way_is_bounded(loaded, longer);
            lemma_members_depth_suffices(
                loaded,
                m.members,
                0,
                longer,
                reached.push(at),
                (depth - 1) as nat,
                (other - 1) as nat,
            );
        }
    }
}

/// The same for the walk from each of the members in turn.
pub proof fn lemma_members_depth_suffices(
    loaded: Seq<EntryView>,
    members: Seq<Seq<char>>,
    from: int,
    path: Seq<Seq<char>>,
    reached: Seq<int>,
    depth: nat,
    other: nat,
)
    requires
        is_way(loaded, path),
        depth + path.len() >= loaded.len(),
        other + path.len() >= loaded.len(),
    ensures
        walk_members(loaded, members, from, path, reached, depth) == walk_members(
            loaded,
            members,
            from,
            path,
            reached,
            other,
        ),
    decreases depth, 1 + members.len() - from,
{
    if 0 <= from < members.len() {
        lemma_depth_suffices(loaded, members[from], path, reached, depth, other);
        match walk(loaded, members[from], path, reached, depth) {
            Err(_) => {},
            Ok(more) => {
                lemma_members_depth_suffices(loaded, members, from + 1, path, more, depth, other);
            },
        }
    }
}

/// The resolution of a workspace is the same with any bound on the depth
/// that is at least the number of entries.
pub proof fn lemma_resolution_is_unbounded(loaded: Seq<EntryView>, root: Seq<char>, depth: nat)
    requires
        depth >= loaded.len(),
    ensures
        walk(loaded, root, Seq::empty(), Seq::empty(), depth) == walk(
            loaded,
            root,
            Seq::empty(),
            Seq::empty(),
            loaded.len(),
        ),
{
    lemma_depth_suffices(loaded, root, Seq::empty(), Seq::empty(), depth, loaded.len());
}

} // verus!
