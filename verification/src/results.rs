//! What a search returns, and the options that shape it.

use crate::paths;
use crate::text;
use vstd::prelude::*;

verus! {

/// Whether a match is a file or a directory.
#[derive(Debug, Clone, Copy, PartialEq, Eq, Structural)]
pub enum MatchType {
    File,
    Directory,
}

/// A single match result returned from the search.
///
/// * `score` - Relevance score returned by the matcher.
/// * `path` - Path of the matched entry (file or directory), relative to the
///   search directory.
/// * `match_type` - Whether this match is a file or directory.
/// * `root` - The search directory that the entry was found under.
/// * `indices` - The character indices that matched the query, unique and in
///   ascending order. They are only filled where
///   [`FileSearchOptions::compute_indices`] asks for them.
#[derive(Debug, PartialEq, Eq)]
pub struct FileMatch {
    pub score: u32,
    pub path: String,
    pub match_type: MatchType,
    pub root: String,
    pub indices: Option<Vec<u32>>,
}

/// What a [`FileMatch`] holds.
pub struct FileMatchView {
    pub score: u32,
    pub path: Seq<char>,
    pub match_type: MatchType,
    pub root: Seq<char>,
    pub indices: Option<Seq<u32>>,
}

impl View for FileMatch {
    type V = FileMatchView;

    open spec fn view(&self) -> FileMatchView {
        FileMatchView {
            score: self.score,
            path: self.path@,
            match_type: self.match_type,
            root: self.root@,
            indices: match self.indices {
                Some(indices) => Some(indices@),
                None => None,
            },
        }
    }
}

impl Clone for FileMatch {
    fn clone(&self) -> (copy: Self)
        ensures
            copy@ == self@,
    {
        let indices: Option<Vec<u32>> = match &self.indices {
            Some(indices) => Some(copy_indices(indices)),
            None => None,
        };
        FileMatch {
            score: self.score,
            path: self.path.clone(),
            match_type: self.match_type,
            root: self.root.clone(),
            indices,
        }
    }
}

impl FileMatch {
    /// The matched entry's path with its search directory in front.
    pub fn full_path(&self) -> (path: String)
        ensures
            path@ == paths::joined(self@.root, self@.path),
    {
        paths::join(&self.root, &self.path)
    }
}

fn copy_indices(indices: &Vec<u32>) -> (copy: Vec<u32>)
    ensures
        copy@ == indices@,
{
    let mut copy: Vec<u32> = Vec::new();
    for i in 0..indices.len()
        invariant
            copy@ == indices@.take(i as int),
    {
        copy.push(indices[i]);
    }
    copy
}

/// What a sequence of matches holds.
pub open spec fn match_views(matches: Seq<FileMatch>) -> Seq<FileMatchView> {
    Seq::new(matches.len(), |i: int| matches[i]@)
}

/// A copy of every match, in order.
pub(crate) fn copy_matches(matches: &Vec<FileMatch>) -> (copy: Vec<FileMatch>)
    ensures
        match_views(copy@) == match_views(matches@),
{
    let mut copy: Vec<FileMatch> = Vec::new();
    for i in 0..matches.len()
        invariant
            copy@.len() == i,
            forall|j: int| 0 <= j < i ==> (#[trigger] copy@[j])@ == matches@[j]@,
    {
        copy.push(matches[i].clone());
    }
    assert(match_views(copy@) =~= match_views(matches@));
    copy
}

/// Returns the final path component for a matched path, falling back to the
/// full path.
pub fn file_name_from_path(path: &str) -> (name: String)
    ensures
        name@ == match paths::file_name(path@) {
            Some(last) => last,
            None => path@,
        },
        path@.len() > 0 ==> name@.len() > 0,
        name@ != path@ ==> !name@.contains('/'),
{
    proof {
        let all = paths::components(path@);
        if paths::file_name(path@) is Some {
            paths::law_components_are_names(path@, all.len() - 1);
        }
    }
    match paths::file_name_of(path) {
        Some(name) => name,
        None => text::copy_of(path),
    }
}

/// The final result of a one-shot search.
#[derive(Debug)]
pub struct FileSearchResults {
    pub matches: Vec<FileMatch>,
    pub total_match_count: usize,
}

/// The state of a search at one moment.
#[derive(Debug, PartialEq, Eq)]
pub struct FileSearchSnapshot {
    pub query: String,
    pub matches: Vec<FileMatch>,
    pub total_match_count: usize,
    pub scanned_file_count: usize,
    pub walk_complete: bool,
}

/// What a [`FileSearchSnapshot`] holds.
pub struct FileSearchSnapshotView {
    pub query: Seq<char>,
    pub matches: Seq<FileMatchView>,
    pub total_match_count: usize,
    pub scanned_file_count: usize,
    pub walk_complete: bool,
}

impl View for FileSearchSnapshot {
    type V = FileSearchSnapshotView;

    open spec fn view(&self) -> FileSearchSnapshotView {
        FileSearchSnapshotView {
            query: self.query@,
            matches: match_views(self.matches@),
            total_match_count: self.total_match_count,
            scanned_file_count: self.scanned_file_count,
            walk_complete: self.walk_complete,
        }
    }
}

impl Clone for FileSearchSnapshot {
    fn clone(&self) -> (copy: Self)
        ensures
            copy@ == self@,
    {
        FileSearchSnapshot {
            query: self.query.clone(),
            matches: copy_matches(&self.matches),
            total_match_count: self.total_match_count,
            scanned_file_count: self.scanned_file_count,
            walk_complete: self.walk_complete,
        }
    }
}

/// The snapshot before anything was searched.
pub open spec fn empty_snapshot() -> FileSearchSnapshotView {
    FileSearchSnapshotView {
        query: Seq::empty(),
        matches: Seq::empty(),
        total_match_count: 0,
        scanned_file_count: 0,
        walk_complete: false,
    }
}

impl Default for FileSearchSnapshot {
    fn default() -> (snapshot: Self)
        ensures
            snapshot@ == empty_snapshot(),
            snapshot.query@.len() == 0,
            snapshot.matches@.len() == 0,
            snapshot.total_match_count == 0,
            snapshot.scanned_file_count == 0,
            !snapshot.walk_complete,
    {
        let snapshot = FileSearchSnapshot {
            query: String::new(),
            matches: Vec::new(),
            total_match_count: 0,
            scanned_file_count: 0,
            walk_complete: false,
        };
        assert(match_views(snapshot.matches@) =~= Seq::empty());
        snapshot
    }
}

/// A count that is at least one.
#[derive(Debug, Clone, Copy, PartialEq, Eq)]
pub struct PositiveCount {
    value: usize,
}

impl PositiveCount {
    #[verifier::type_invariant]
    spec fn is_positive(self) -> bool {
        self.value > 0
    }

    /// The count as a number.
    pub closed spec fn count(self) -> usize {
        self.value
    }

    /// The count `value`, unless it is zero.
    pub fn new(value: usize) -> (count: Option<Self>)
        ensures
            match count {
                Some(count) => value > 0 && count.count() == value,
                None => value == 0,
            },
    {
        if value == 0 {
            None
        } else {
            Some(PositiveCount { value })
        }
    }

    /// The count as a number.
    pub fn get(self) -> (value: usize)
        ensures
            value == self.count(),
            value > 0,
    {
        proof {
            use_type_invariant(self);
        }
        self.value
    }
}

/// How a search is carried out.
#[derive(Debug, Clone)]
pub struct FileSearchOptions {
    /// How many matches a snapshot holds at most.
    pub limit: PositiveCount,
    /// Globs whose matches are left out of the walk.
    pub exclude: Vec<String>,
    /// How many threads walk and match.
    pub threads: PositiveCount,
    /// Whether the matched character indices are worked out.
    pub compute_indices: bool,
    /// Toggle ignore-file processing in the walker.
    ///
    /// When enabled, `.gitignore` files are honored only when the traversed
    /// path is inside a git repository. When disabled, the walker turns off
    /// `.gitignore`, git-global/exclude rules, `.ignore`, and parent-directory
    /// ignore scanning.
    pub respect_gitignore: bool,
}

impl Default for FileSearchOptions {
    fn default() -> (options: Self)
        ensures
            options.limit.count() == 20,
            options.exclude@ == Seq::<String>::empty(),
            options.threads.count() == 2,
            !options.compute_indices,
            options.respect_gitignore,
    {
        FileSearchOptions {
            limit: PositiveCount { value: 20 },
            exclude: Vec::new(),
            threads: PositiveCount { value: 2 },
            compute_indices: false,
            respect_gitignore: true,
        }
    }
}

/// What a snapshot holds is seen as it is: the query, every match in its place,
/// and the counts.
pub proof fn law_snapshot_is_seen_whole(snapshot: FileSearchSnapshot, place: int)
    ensures
        snapshot@.query == snapshot.query@,
        snapshot@.matches.len() == snapshot.matches@.len(),
        0 <= place < snapshot.matches@.len() ==> {
            let found = snapshot.matches@[place];
            let seen = snapshot@.matches[place];
            &&& seen.score == found.score
            &&& seen.path == found.path@
            &&& seen.match_type == found.match_type
            &&& seen.root == found.root@
            &&& seen.indices is Some <==> found.indices is Some
            &&& found.indices matches Some(indices) ==> seen.indices == Some(indices@)
        },
        snapshot@.total_match_count == snapshot.total_match_count,
        snapshot@.scanned_file_count == snapshot.scanned_file_count,
        snapshot@.walk_complete == snapshot.walk_complete,
{
}

} // verus!
