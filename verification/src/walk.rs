//! What the walk over the search directories finds, and what of it is searched.

use crate::classify;
use crate::classify::{SearchItem, SearchItemView};
use crate::engine;
use crate::engine::{copy_of_injector, inject, AddedEntry, Injected};
use crate::paths;
use crate::results::MatchType;
use crate::roots;
use crate::roots::get_file_path;
use crate::text;
use ignore::overrides::Override;
use nucleo::{Injector, Nucleo};
use vstd::prelude::*;

verus! {

/// How the walk treats what it comes across.
///
/// Ignore files are scoped to git repositories: git never reads `.gitignore`
/// files from directories above the root of the repository, and without that
/// scope a broad one far above would silently hide every file. Where ignore
/// files are not respected, all of their kinds are switched off.
#[derive(Debug, Clone, Copy, PartialEq, Eq, Structural)]
pub struct WalkSettings {
    pub threads: usize,
    /// Whether hidden entries are skipped.
    pub hidden: bool,
    /// Whether the contents of linked directories are searched.
    pub follow_links: bool,
    /// Whether git's ignore files count only inside a git repository.
    pub require_git: bool,
    pub git_ignore: bool,
    pub git_global: bool,
    pub git_exclude: bool,
    pub ignore: bool,
    pub parents: bool,
}

/// The settings for a walk with this many threads.
pub fn walk_settings(threads: usize, respect_gitignore: bool) -> (settings: WalkSettings)
    ensures
        settings == (WalkSettings {
            threads,
            hidden: false,
            follow_links: true,
            require_git: true,
            git_ignore: respect_gitignore,
            git_global: respect_gitignore,
            git_exclude: respect_gitignore,
            ignore: respect_gitignore,
            parents: respect_gitignore,
        }),
{
    WalkSettings {
        threads,
        hidden: false,
        follow_links: true,
        require_git: true,
        git_ignore: respect_gitignore,
        git_global: respect_gitignore,
        git_exclude: respect_gitignore,
        ignore: respect_gitignore,
        parents: respect_gitignore,
    }
}

/// One thing that the walk came across.
#[derive(Debug)]
pub enum WalkEntry {
    /// It could not be read.
    Failed,
    /// Its path is not text.
    Unnamed,
    /// A file, a directory or a link. What it is may be unknown.
    Found { full_path: String, is_symlink: bool, is_directory: Option<bool> },
}

/// Whether the walk goes on.
#[derive(Debug, Clone, Copy, PartialEq, Eq, Structural)]
pub enum WalkState {
    Continue,
    Quit,
}

/// After how many entries a walking thread looks whether it is to stop.
pub const CHECK_INTERVAL: usize = 1024;

/// What the walk can say of an entry's type. Of a link it says nothing: its own
/// type is that of the link, while a match shows that of the target.
pub open spec fn walk_time_type(is_symlink: bool, is_directory: Option<bool>) -> Option<MatchType> {
    if is_symlink {
        None
    } else {
        match is_directory {
            Some(true) => Some(MatchType::Directory),
            Some(false) => Some(MatchType::File),
            None => None,
        }
    }
}

/// The number that stands for what the walk can say of an entry's type.
pub open spec fn walk_time_code(is_symlink: bool, is_directory: Option<bool>) -> u8 {
    match walk_time_type(is_symlink, is_directory) {
        Some(match_type) => classify::encoded(match_type),
        None => classify::UNKNOWN_MATCH_TYPE,
    }
}

/// The number of an entry: that of the visitor that found it, and how many it
/// had found before.
pub open spec fn entry_number(visitor: nat, found: nat) -> nat {
    visitor * 0x1_0000_0000 + found
}

/// No two entries have the same number.
pub proof fn law_entry_numbers_are_distinct(
    visitor: nat,
    found: nat,
    other_visitor: nat,
    other_found: nat,
)
    requires
        found < 0x1_0000_0000,
        other_found < 0x1_0000_0000,
        entry_number(visitor, found) == entry_number(other_visitor, other_found),
    ensures
        visitor == other_visitor,
        found == other_found,
{
}

/// What one walking thread needs: its number, the search directories, the
/// matcher to add entries to, how many entries it has found, and how many since
/// it last looked whether it is to stop.
pub struct WalkVisitor {
    number: u32,
    search_directories: Vec<String>,
    injector: Injector<Injected>,
    found: u32,
    seen: usize,
}

/// What a [`WalkVisitor`] goes by.
pub struct VisitorView {
    /// The number of the visitor, which no other visitor of the walk has.
    pub number: nat,
    pub search_directories: Seq<Seq<char>>,
    /// What was added to the matcher.
    pub added: Seq<AddedEntry>,
    /// How many entries were found.
    pub found: nat,
    pub seen: int,
}

impl VisitorView {
    /// The number of the entry that is found next.
    pub open spec fn next_number(self) -> nat {
        entry_number(self.number, self.found)
    }

    /// What has been added after a path was found: the entry behind the others,
    /// unless it lies outside every search directory.
    pub open spec fn added_after(
        self,
        full_path: Seq<char>,
        is_symlink: bool,
        is_directory: Option<bool>,
    ) -> Seq<AddedEntry> {
        if roots::is_under_some_root(full_path, self.search_directories) {
            let root = self.search_directories[roots::best_root(
                full_path,
                self.search_directories,
            )];
            self.added.push(
                AddedEntry {
                    id: self.next_number() as u64,
                    full_path,
                    walk_type: walk_time_code(is_symlink, is_directory),
                    cacheable: !is_symlink,
                    relative_path: paths::stripped(full_path, root)->0,
                },
            )
        } else {
            self.added
        }
    }

    /// How many entries have been seen after one more, as far as that matters.
    pub open spec fn counted(self) -> int {
        if self.seen < CHECK_INTERVAL {
            self.seen + 1
        } else {
            self.seen
        }
    }
}

impl View for WalkVisitor {
    type V = VisitorView;

    closed spec fn view(&self) -> VisitorView {
        VisitorView {
            number: self.number as nat,
            search_directories: text::texts(self.search_directories@),
            added: engine::added_through(self.injector),
            found: self.found as nat,
            seen: self.seen as int,
        }
    }
}

impl WalkVisitor {
    /// The handle that entries are added through.
    pub closed spec fn handle(self) -> Injector<Injected> {
        self.injector
    }

    /// The entry to be searched for a found path, and the text that it is
    /// matched by: the path relative to the search directory that it belongs
    /// to. Entries outside every search directory are not searched.
    pub fn offer(
        &self,
        id: u64,
        full_path: &str,
        is_symlink: bool,
        is_directory: Option<bool>,
    ) -> (offered: Option<(Injected, String)>)
        ensures
            match offered {
                Some(((number, path, code, cacheable), relative_path)) => {
                    let index = roots::best_root(full_path@, self@.search_directories);
                    &&& roots::is_best_root(full_path@, self@.search_directories, index)
                    &&& paths::stripped(full_path@, self@.search_directories[index]) == Some(
                        relative_path@,
                    )
                    &&& number == id
                    &&& path@ == full_path@
                    &&& code == walk_time_code(is_symlink, is_directory)
                    &&& cacheable == !is_symlink
                },
                None => !roots::is_under_some_root(full_path@, self@.search_directories),
            },
    {
        let found = get_file_path(full_path, &self.search_directories);
        match found {
            Some((index, relative_path)) => {
                proof {
                    roots::law_best_root_is_unique(
                        full_path@,
                        self@.search_directories,
                        index as int,
                        index as int,
                    );
                }
                let match_type: Option<MatchType> = if is_symlink {
                    None
                } else {
                    match is_directory {
                        Some(true) => Some(MatchType::Directory),
                        Some(false) => Some(MatchType::File),
                        None => None,
                    }
                };
                let item = SearchItem::new(text::copy_of(full_path), match_type, !is_symlink);
                let entry: Injected = (
                    id,
                    item.full_path,
                    item.cached_match_type,
                    item.cacheable_match_type,
                );
                Some((entry, relative_path))
            },
            None => None,
        }
    }

    /// How many entries were found.
    pub fn found_count(&self) -> (count: u32)
        ensures
            count == self@.found,
    {
        self.found
    }

    /// Takes in what the walk came across, under a number that no other entry
    /// has, and says whether the walk goes on.
    pub fn visit<S: Fn() -> bool>(
        &mut self,
        entry: WalkEntry,
        stop_requested: &S,
    ) -> (state: WalkState)
        requires
            stop_requested.requires(()),
            entry matches WalkEntry::Found { full_path, .. } ==> full_path@.len() <= u32::MAX
                && old(self)@.found < u32::MAX,
        ensures
            final(self)@.number == old(self)@.number,
            final(self)@.search_directories == old(self)@.search_directories,
            forall|matcher: Nucleo<Injected>| #[trigger]
                engine::feeds(old(self).handle(), matcher) ==> engine::feeds(
                    final(self).handle(),
                    matcher,
                ),
            match entry {
                WalkEntry::Found { full_path, is_symlink, is_directory } => {
                    let counted = old(self)@.counted();
                    &&& final(self)@.found == old(self)@.found + 1
                    &&& final(self)@.added == old(self)@.added_after(
                        full_path@,
                        is_symlink,
                        is_directory,
                    )
                    &&& if counted < CHECK_INTERVAL {
                        state == WalkState::Continue && final(self)@.seen == counted
                    } else {
                        ||| stop_requested.ensures((), true) && state == WalkState::Quit
                            && final(self)@.seen == counted
                        ||| stop_requested.ensures((), false) && state == WalkState::Continue
                            && final(self)@.seen == 0
                    }
                },
                _ => state == WalkState::Continue && final(self)@ == old(self)@,
            },
    {
        match entry {
            WalkEntry::Found { full_path, is_symlink, is_directory } => {
                let id: u64 = self.number as u64 * 0x1_0000_0000 + self.found as u64;
                match self.offer(id, &full_path, is_symlink, is_directory) {
                    Some((entry, relative_path)) => {
                        proof {
                            paths::lemma_stripped_is_no_longer(
                                full_path@,
                                self@.search_directories[roots::best_root(
                                    full_path@,
                                    self@.search_directories,
                                )],
                            );
                        }
                        inject(&mut self.injector, entry, &relative_path);
                    },
                    None => {},
                }
                self.found = self.found + 1;
                if self.seen < CHECK_INTERVAL {
                    self.seen = self.seen + 1;
                }
                if self.seen >= CHECK_INTERVAL {
                    let stop: bool = stop_requested();
                    if stop {
                        return WalkState::Quit;
                    }
                    self.seen = 0;
                }
                WalkState::Continue
            },
            WalkEntry::Failed => WalkState::Continue,
            WalkEntry::Unnamed => WalkState::Continue,
        }
    }
}

/// A walk that is still to be made.
pub struct Walk {
    pub search_directories: Vec<String>,
    pub settings: WalkSettings,
    /// What leaves entries out, where anything does.
    pub overrides: Option<Override>,
    /// Where entries are added to the matcher.
    pub injector: Injector<Injected>,
    /// How many visitors there are.
    pub visitors: u32,
}

impl Walk {
    /// A visitor for one walking thread, with a number of its own.
    pub fn visitor(&mut self) -> (visitor: WalkVisitor)
        requires
            old(self).visitors < u32::MAX,
        ensures
            *final(self) == (Walk { visitors: final(self).visitors, ..*old(self) }),
            final(self).visitors == old(self).visitors + 1,
            visitor@ == (VisitorView {
                number: old(self).visitors as nat,
                search_directories: text::texts(old(self).search_directories@),
                added: Seq::empty(),
                found: 0,
                seen: 0,
            }),
            forall|matcher: Nucleo<Injected>| #[trigger]
                engine::feeds(old(self).injector, matcher) ==> engine::feeds(
                    visitor.handle(),
                    matcher,
                ),
    {
        let number: u32 = self.visitors;
        self.visitors = number + 1;
        WalkVisitor {
            number,
            search_directories: text::copy_texts(&self.search_directories),
            injector: copy_of_injector(&self.injector),
            found: 0,
            seen: 0,
        }
    }
}

/// Whether a walk over these directories finds the entry as it is: it lies under
/// one of them, and is matched by its path relative to that one.
pub open spec fn is_walked(entry: AddedEntry, search_directories: Seq<Seq<char>>) -> bool {
    &&& roots::is_under_some_root(entry.full_path, search_directories)
    &&& paths::stripped(
        entry.full_path,
        search_directories[roots::best_root(entry.full_path, search_directories)],
    ) == Some(entry.relative_path)
}

/// Whatever a visitor finds, it adds nothing but what a walk over its search
/// directories finds.
pub proof fn law_visitors_add_what_is_walked(
    visitor: VisitorView,
    full_path: Seq<char>,
    is_symlink: bool,
    is_directory: Option<bool>,
    entry: AddedEntry,
)
    requires
        forall|earlier: AddedEntry| #[trigger]
            visitor.added.contains(earlier) ==> is_walked(earlier, visitor.search_directories),
        visitor.added_after(full_path, is_symlink, is_directory).contains(entry),
    ensures
        is_walked(entry, visitor.search_directories),
{
    let after = visitor.added_after(full_path, is_symlink, is_directory);
    let at = choose|at: int| 0 <= at < after.len() && after[at] == entry;
    if at < visitor.added.len() {
        assert(visitor.added.contains(entry));
    } else {
        roots::law_some_root_is_best(full_path, visitor.search_directories);
    }
}

/// What is searched for a found entry is what a match of it shows: joined to
/// its search directory, the text that it is matched by names the entry.
pub proof fn law_offered_text_names_the_entry(
    full_path: Seq<char>,
    search_directories: Seq<Seq<char>>,
)
    requires
        roots::is_under_some_root(full_path, search_directories),
    ensures
        ({
            let root = search_directories[roots::best_root(full_path, search_directories)];
            paths::components(paths::joined(root, paths::stripped(full_path, root)->0))
                == paths::components(full_path)
        }),
{
    roots::law_some_root_is_best(full_path, search_directories);
    paths::law_strip_then_join(
        full_path,
        search_directories[roots::best_root(full_path, search_directories)],
    );
}

/// The type of a link is never kept and never taken from the walk.
pub proof fn law_link_type_is_left_open(is_directory: Option<bool>, full_path: Seq<char>, told: MatchType)
    ensures
        walk_time_type(true, is_directory) is None,
        SearchItemView::found(full_path, walk_time_type(true, is_directory), false).classified(
            told,
        ).usable_type() is None,
{
}

/// Every found path that lies under some search directory is added, behind what
/// was added before, under its own number and by its path relative to the search
/// directory that it belongs to. A path that lies under none adds nothing.
pub proof fn law_everything_under_a_root_is_added(
    visitor: VisitorView,
    full_path: Seq<char>,
    is_symlink: bool,
    is_directory: Option<bool>,
    root: int,
)
    requires
        0 <= root < visitor.search_directories.len(),
        paths::components(visitor.search_directories[root]).is_prefix_of(
            paths::components(full_path),
        ),
    ensures
        ({
            let after = visitor.added_after(full_path, is_symlink, is_directory);
            let entry = after[visitor.added.len() as int];
            &&& after.len() == visitor.added.len() + 1
            &&& after.take(visitor.added.len() as int) == visitor.added
            &&& entry.full_path == full_path
            &&& entry.cacheable == !is_symlink
            &&& exists|best: int| #[trigger]
                roots::is_best_root(full_path, visitor.search_directories, best)
                    && paths::stripped(full_path, visitor.search_directories[best]) == Some(
                    entry.relative_path,
                )
        }),
{
    let directories = visitor.search_directories;
    let after = visitor.added_after(full_path, is_symlink, is_directory);
    assert(roots::is_under_some_root(full_path, directories)) by {
        assert(paths::lies_under(full_path, directories[root]));
    }
    roots::law_some_root_is_best(full_path, directories);
    assert(after.take(visitor.added.len() as int) =~= visitor.added);
    let best = roots::best_root(full_path, directories);
    assert(roots::is_best_root(full_path, directories, best));
}

/// A path that lies under no search directory adds nothing.
pub proof fn law_nothing_outside_is_added(
    visitor: VisitorView,
    full_path: Seq<char>,
    is_symlink: bool,
    is_directory: Option<bool>,
)
    requires
        forall|root: int|
            0 <= root < visitor.search_directories.len() ==> !paths::components(
                #[trigger] visitor.search_directories[root],
            ).is_prefix_of(paths::components(full_path)),
    ensures
        visitor.added_after(full_path, is_symlink, is_directory) == visitor.added,
{
}

/// The number of an added entry tells which visitor found it, and as which of
/// its finds.
pub proof fn law_number_tells_the_find(
    visitor: VisitorView,
    full_path: Seq<char>,
    is_symlink: bool,
    is_directory: Option<bool>,
)
    requires
        visitor.number <= u32::MAX,
        visitor.found <= u32::MAX,
        visitor.added_after(full_path, is_symlink, is_directory).len() > visitor.added.len(),
    ensures
        ({
            let id = visitor.added_after(full_path, is_symlink, is_directory).last().id;
            &&& id as nat / 0x1_0000_0000 == visitor.number
            &&& id as nat % 0x1_0000_0000 == visitor.found
        }),
{
    let number = visitor.number;
    let found = visitor.found;
    assert(number * 0x1_0000_0000 + found <= u64::MAX);
}

/// What the walk says of an entry is taken down as it says it, unless the entry
/// is a link: then nothing is taken down.
pub proof fn law_walk_time_type_is_taken_down(is_symlink: bool, is_directory: Option<bool>)
    ensures
        classify::decoded(walk_time_code(is_symlink, is_directory)) == walk_time_type(
            is_symlink,
            is_directory,
        ),
        walk_time_type(is_symlink, is_directory) is None <==> is_symlink || is_directory is None,
        !is_symlink ==> (walk_time_type(is_symlink, is_directory) == Some(MatchType::Directory)
            <==> is_directory == Some(true)),
        !is_symlink ==> (walk_time_type(is_symlink, is_directory) == Some(MatchType::File)
            <==> is_directory == Some(false)),
{
}

/// A visitor counts entries one by one, and looks whether it is to stop at every
/// thousand and twenty-fourth: not before and not later.
pub proof fn law_stop_is_looked_for_at_intervals(visitor: VisitorView, other: VisitorView)
    requires
        0 <= visitor.seen < 1024,
        other.seen == visitor.counted(),
    ensures
        other.seen == visitor.seen + 1,
        other.seen < CHECK_INTERVAL <==> visitor.seen < 1023,
        visitor.counted() >= CHECK_INTERVAL ==> other.counted() == other.seen,
{
}

} // verus!
