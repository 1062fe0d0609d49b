//! What a working copy keeps, and the decisions about its files.
use vstd::prelude::*;
use vstd::string::*;
use vstd::utf8::*;
use vstd::view::View as _;

use crate::collections::{keys_of, lists, ordered, TextMap, TextSet, Value};
use crate::encoding::{decimal, decimal_text};
use crate::error::{about, outcome, plain, verdict, Error, ErrorV, Problem};
use crate::graphs::state_id;
use crate::index::Projection;
use crate::objects::{snapshot_check, valid_name, validate_name, FileEntry, FileEntryV, Snapshot, MAX_METADATA_BYTES};
use crate::selection::{includes, normal, normalize, selects};
use crate::text::{blank, copy_texts, is_blank, join, join_texts, same_text, same_texts, texts};
use crate::transactions::{SavedView, SavedViewV, View};
use crate::views::{applied, conflicts_of, file_at, recorded, ViewV};

verus! {

// State

/// What a working copy keeps beside its objects.
#[derive(Debug)]
pub struct WorkspaceState {
    pub version: u32,
    pub project: String,
    pub remote: Option<String>,
    pub tracked_files: TextSet,
    pub base_snapshot: String,
    pub transactions: TextSet,
    pub outbox: TextSet,
    pub cursors: Vec<i64>,
    pub layout: Option<String>,
    pub paths: Vec<String>,
}

/// The mathematical value of a `WorkspaceState`.
#[verifier::ext_equal]
pub struct WorkspaceStateV {
    pub version: u32,
    pub project: Seq<char>,
    pub remote: Option<Seq<char>>,
    pub tracked_files: Set<Seq<char>>,
    pub base_snapshot: Seq<char>,
    pub transactions: Set<Seq<char>>,
    pub outbox: Set<Seq<char>>,
    pub cursors: Seq<i64>,
    pub layout: Option<Seq<char>>,
    pub paths: Seq<Seq<char>>,
}

impl vstd::view::View for WorkspaceState {
    type V = WorkspaceStateV;

    open spec fn view(&self) -> WorkspaceStateV {
        WorkspaceStateV {
            version: self.version,
            project: self.project@,
            remote: self.remote.deep_view(),
            tracked_files: self.tracked_files@,
            base_snapshot: self.base_snapshot@,
            transactions: self.transactions@,
            outbox: self.outbox@,
            cursors: self.cursors@,
            layout: self.layout.deep_view(),
            paths: texts(self.paths@),
        }
    }
}

/// The view that is saved of a snapshot. Only a partial one names its paths.
pub open spec fn view_saved(paths: Seq<Seq<char>>, snapshot: Seq<char>, roots: Set<Seq<char>>) -> SavedViewV {
    SavedViewV {
        format: if paths.len() == 0 {
            1
        } else {
            2
        },
        snapshot,
        roots,
        paths,
    }
}

/// The version of the state of a working copy. Older programs refuse it, since
/// they do not know every kind of file and path.
pub const WORKSPACE_VERSION: u32 = 3;

/// What is wrong with a stored state.
pub open spec fn state_check(state: WorkspaceStateV) -> Result<(), ErrorV> {
    if state.version > WORKSPACE_VERSION {
        Err(about(Problem::UnsupportedWorkspace, decimal(state.version as nat)))
    } else {
        match normal(state.paths) {
            Err(error) => Err(error),
            Ok(paths) => if paths != state.paths {
                Err(plain(Problem::InvalidCheckout))
            } else if state.paths.len() > 0 && state.version < 2 {
                Err(plain(Problem::PartialCheckout))
            } else {
                Ok(())
            },
        }
    }
}

impl WorkspaceState {
    /// A new working copy whose baseline is the given snapshot.
    pub fn new(project: &str, remote: Option<String>, tracked_files: TextSet, base_snapshot: String) -> (state: Self)
        ensures
            state@ == (WorkspaceStateV {
                version: WORKSPACE_VERSION,
                project: project@,
                remote: remote.deep_view(),
                tracked_files: tracked_files@,
                base_snapshot: base_snapshot@,
                transactions: Set::empty(),
                outbox: Set::empty(),
                cursors: Seq::empty(),
                layout: None,
                paths: Seq::empty(),
            }),
    {
        let state = WorkspaceState {
            version: WORKSPACE_VERSION,
            project: project.to_owned(),
            remote,
            tracked_files,
            base_snapshot,
            transactions: TextSet::new(),
            outbox: TextSet::new(),
            cursors: Vec::new(),
            layout: None,
            paths: Vec::new(),
        };
        assert(texts(state.paths@) =~= Seq::<Seq<char>>::empty());
        assert(state.cursors@ =~= Seq::<i64>::empty());
        state
    }

    /// Check a stored state before it is used.
    pub fn validate(&self) -> (result: Result<(), Error>)
        ensures
            verdict(result) == state_check(self@),
    {
        if self.version > WORKSPACE_VERSION {
            return Err(Error::about(Problem::UnsupportedWorkspace, decimal_text(self.version as u64)));
        }
        let paths = normalize(copy_texts(self.paths.as_slice()))?;
        if !same_texts(paths.as_slice(), self.paths.as_slice()) {
            return Err(Error::plain(Problem::InvalidCheckout));
        }
        if self.paths.len() > 0 && self.version < 2 {
            return Err(Error::plain(Problem::PartialCheckout));
        }
        Ok(())
    }

    /// A transaction was committed: it is known and waits to be sent, and the
    /// snapshot is the new baseline.
    pub fn record_commit(&mut self, id: &str, snapshot: String, tracked_files: TextSet)
        ensures
            final(self)@ == (WorkspaceStateV {
                transactions: old(self)@.transactions.insert(id@),
                outbox: old(self)@.outbox.insert(id@),
                base_snapshot: snapshot@,
                tracked_files: tracked_files@,
                ..old(self)@
            }),
            final(self)@.transactions.contains(id@) && final(self)@.outbox.contains(id@),
            forall|other: Seq<char>| #[trigger] old(self)@.outbox.contains(other) ==> final(self)@.outbox.contains(other),
    {
        self.transactions.insert(id.to_owned());
        self.outbox.insert(id.to_owned());
        self.base_snapshot = snapshot;
        self.tracked_files = tracked_files;
    }

    /// Bring a state of an older program up to date. The oldest ones knew no
    /// transactions, so their baseline has no files. Says whether anything
    /// changed.
    pub fn upgrade(&mut self, empty_snapshot: String) -> (changed: bool)
        requires
            old(self).version <= WORKSPACE_VERSION,
        ensures
            changed == (old(self)@.version < WORKSPACE_VERSION),
            final(self)@ == (WorkspaceStateV {
                version: WORKSPACE_VERSION,
                base_snapshot: if old(self)@.version == 0 {
                    empty_snapshot@
                } else {
                    old(self)@.base_snapshot
                },
                ..old(self)@
            }),
    {
        let changed = self.version < WORKSPACE_VERSION;
        if self.version == 0 {
            self.base_snapshot = empty_snapshot;
        }
        self.version = WORKSPACE_VERSION;
        changed
    }

    /// The remote has a transaction.
    pub fn acknowledge(&mut self, transaction: &str)
        ensures
            final(self)@ == (WorkspaceStateV { outbox: old(self)@.outbox.remove(transaction@), ..old(self)@ }),
            !final(self)@.outbox.contains(transaction@),
            forall|other: Seq<char>|
                other != transaction@ && #[trigger] old(self)@.outbox.contains(other) ==> final(self)@.outbox.contains(
                    other,
                ),
            final(self)@.transactions == old(self)@.transactions,
    {
        self.outbox.remove(transaction);
    }

    /// Turn to a remote and a project there. Where either is new, everything
    /// has to be sent, and read from the beginning.
    pub fn set_remote(&mut self, url: String, project: String) -> (result: Result<bool, Error>)
        ensures
            match result {
                Err(error) => {
                    &&& !valid_name(project@)
                    &&& error@ == plain(Problem::InvalidName)
                    &&& final(self)@ == old(self)@
                },
                Ok(changed) => {
                    &&& valid_name(project@)
                    &&& changed == (old(self)@.remote != Some(url@) || old(self)@.project != project@)
                    &&& final(self)@ == (if changed {
                        WorkspaceStateV {
                            remote: Some(url@),
                            project: project@,
                            outbox: old(self)@.transactions,
                            cursors: Seq::empty(),
                            layout: None,
                            ..old(self)@
                        }
                    } else {
                        WorkspaceStateV { remote: Some(url@), project: project@, ..old(self)@ }
                    })
                    &&& final(self)@.remote == Some(url@) && final(self)@.project == project@
                    &&& changed ==> forall|id: Seq<char>| #[trigger]
                        old(self)@.transactions.contains(id) ==> final(self)@.outbox.contains(id)
                },
            },
    {
        validate_name(project.as_str())?;
        let same_remote = match &self.remote {
            Some(current) => same_text(current.as_str(), url.as_str()),
            None => false,
        };
        let changed = !same_remote || !same_text(project.as_str(), self.project.as_str());
        self.project = project;
        self.remote = Some(url);
        if changed {
            self.outbox = self.transactions.clone();
            self.cursors = Vec::new();
            self.layout = None;
            assert(self.cursors@ =~= Seq::<i64>::empty());
        }
        Ok(changed)
    }

    /// Where to begin reading the journals of a remote: where the last read
    /// ended, unless its layout is another.
    pub fn start_cursors(&self, layout: &str) -> (cursors: Vec<i64>)
        ensures
            cursors@ == (if self@.layout == Some(layout@) {
                self@.cursors
            } else {
                Seq::empty()
            }),
    {
        let same = match &self.layout {
            Some(current) => same_text(current.as_str(), layout),
            None => false,
        };
        let mut cursors: Vec<i64> = Vec::new();
        if same {
            let mut i: usize = 0;
            while i < self.cursors.len()
                invariant
                    i <= self.cursors@.len(),
                    cursors@ == self.cursors@.take(i as int),
                decreases self.cursors@.len() - i,
            {
                cursors.push(self.cursors[i]);
                i += 1;
                assert(cursors@ =~= self.cursors@.take(i as int));
            }
            assert(cursors@ =~= self.cursors@);
        }
        cursors
    }

    /// Note the layout of a remote. Journals are read from the beginning where
    /// it is another.
    pub fn set_layout(&mut self, layout: String)
        ensures
            final(self)@ == (WorkspaceStateV {
                layout: Some(layout@),
                cursors: if old(self)@.layout == Some(layout@) {
                    old(self)@.cursors
                } else {
                    Seq::empty()
                },
                ..old(self)@
            }),
    {
        self.cursors = self.start_cursors(layout.as_str());
        self.layout = Some(layout);
    }

    /// Note how far the journals of a remote were read, and what was seen in
    /// them: the remote has that.
    pub fn record_sync(&mut self, seen: &TextSet, cursors: Vec<i64>, layout: String)
        ensures
            final(self)@ == (WorkspaceStateV {
                outbox: old(self)@.outbox.difference(seen@),
                cursors: cursors@,
                layout: Some(layout@),
                ..old(self)@
            }),
            forall|id: Seq<char>| #[trigger]
                final(self)@.outbox.contains(id) <==> old(self)@.outbox.contains(id) && !seen@.contains(id),
            final(self)@.transactions == old(self)@.transactions,
    {
        self.outbox = self.outbox.difference(seen);
        self.cursors = cursors;
        self.layout = Some(layout);
    }

    /// Take over transactions, and the files that the working copy now holds.
    pub fn record_pull(&mut self, received: &TextSet, base_snapshot: String, tracked_files: TextSet)
        ensures
            final(self)@ == (WorkspaceStateV {
                transactions: old(self)@.transactions.union(received@),
                base_snapshot: base_snapshot@,
                tracked_files: tracked_files@,
                ..old(self)@
            }),
            forall|id: Seq<char>| #[trigger]
                final(self)@.transactions.contains(id) <==> old(self)@.transactions.contains(id) || received@.contains(id),
            final(self)@.outbox == old(self)@.outbox,
    {
        self.transactions.extend(received);
        self.base_snapshot = base_snapshot;
        self.tracked_files = tracked_files;
    }

    /// A saved view was restored. What was committed and what waits to be sent
    /// stay as they are.
    pub fn record_restore(&mut self, target: &Snapshot)
        ensures
            final(self)@ == (WorkspaceStateV { tracked_files: target@.dom(), ..old(self)@ }),
    {
        self.tracked_files = target.files.keys();
    }

    /// The view that is saved of a snapshot of the selected paths.
    pub fn saved_view(&self, snapshot: String, roots: TextSet) -> (view: SavedView)
        ensures
            view@ == view_saved(self@.paths, snapshot@, roots@),
    {
        let format: u32 = if self.paths.len() == 0 {
            1
        } else {
            2
        };
        SavedView { format, snapshot, roots, paths: copy_texts(self.paths.as_slice()) }
    }

    /// Restrict a new working copy to some paths.
    pub fn select(&mut self, paths: Vec<String>)
        ensures
            final(self)@ == (WorkspaceStateV {
                paths: texts(paths@),
                version: if paths@.len() > 0 {
                    WORKSPACE_VERSION
                } else {
                    old(self)@.version
                },
                ..old(self)@
            }),
    {
        if paths.len() > 0 {
            self.version = WORKSPACE_VERSION;
        }
        self.paths = paths;
    }

    /// Widen a working copy to more paths. The journals are read anew, for what
    /// was left out of them before.
    pub fn expand(&mut self, paths: Vec<String>)
        ensures
            final(self)@ == (WorkspaceStateV {
                paths: texts(paths@),
                cursors: Seq::empty(),
                version: if paths@.len() > 0 {
                    WORKSPACE_VERSION
                } else {
                    old(self)@.version
                },
                ..old(self)@
            }),
    {
        self.select(paths);
        self.cursors = Vec::new();
    }
}

// Records for people

/// A saved version.
#[derive(Debug)]
pub struct Checkpoint {
    pub id: i64,
    pub view: String,
    pub snapshot: String,
    pub message: Option<String>,
    pub created_at: i64,
    pub transaction: Option<String>,
}

/// How a working copy stands.
#[derive(Debug)]
pub struct Status {
    pub project: String,
    pub remote: Option<String>,
    pub view: String,
    pub pending_commits: usize,
    pub changed: Vec<String>,
    pub conflicts: TextSet,
    pub version: Option<String>,
    pub paths: Vec<String>,
}

/// How a file changed.
#[derive(Debug)]
pub struct FileChange {
    pub path: String,
    pub kind: &'static str,
}

/// How a file changed, line by line.
#[derive(Debug)]
pub struct FileDiff {
    pub file: FileChange,
    pub diff: String,
}

/// A saved version and what changed in it.
#[derive(Debug)]
pub struct HistoryEntry {
    pub version: Checkpoint,
    pub files: Vec<FileChange>,
}

// Differences

/// The files in which two snapshots differ.
pub open spec fn changed_between(
    before: Map<Seq<char>, FileEntryV>,
    after: Map<Seq<char>, FileEntryV>,
) -> Set<Seq<char>> {
    Set::new(|path: Seq<char>| file_at(before, path) != file_at(after, path))
}

/// How a file changed.
pub open spec fn change_kind(
    before: Map<Seq<char>, FileEntryV>,
    after: Map<Seq<char>, FileEntryV>,
    path: Seq<char>,
) -> Seq<char> {
    if !before.contains_key(path) {
        "added"@
    } else if !after.contains_key(path) {
        "deleted"@
    } else {
        "modified"@
    }
}

/// The changes of a list, as pairs of path and kind.
pub open spec fn changes_in(list: Seq<FileChange>) -> Seq<(Seq<char>, Seq<char>)> {
    Seq::new(list.len(), |i: int| (list[i].path@, list[i].kind@))
}

/// What changed between two snapshots, in the order of the paths.
pub open spec fn changes_between(
    before: Map<Seq<char>, FileEntryV>,
    after: Map<Seq<char>, FileEntryV>,
) -> Seq<(Seq<char>, Seq<char>)> {
    ordered(changed_between(before, after)).map_values(
        |path: Seq<char>| (path, change_kind(before, after, path)),
    )
}

pub(crate) fn same_entry(a: Option<&FileEntry>, b: Option<&FileEntry>) -> (result: bool)
    ensures
        result == (a.deep_view() == b.deep_view()),
{
    match (a, b) {
        (Some(x), Some(y)) => x.same(y),
        (None, None) => true,
        _ => false,
    }
}

/// The files in which two snapshots differ.
pub fn changed_paths(before: &Snapshot, after: &Snapshot) -> (paths: TextSet)
    ensures
        paths@ == changed_between(before@, after@),
{
    let mut all = before.files.keys();
    all.extend(&after.files.keys());
    let mut paths = TextSet::new();
    let n = all.len();
    let ghost list = ordered(all@);
    let ghost goal = changed_between(before@, after@);
    let mut i: usize = 0;
    assert(paths@ =~= goal.intersect(list.take(0).to_set()));
    while i < n
        invariant
            i <= n,
            n == all@.len(),
            n == list.len(),
            list == ordered(all@),
            lists(list, all@),
            goal == changed_between(before@, after@),
            paths@ == goal.intersect(list.take(i as int).to_set()),
        decreases n - i,
    {
        let path = all.at(i);
        let old_entry = before.files.get(path.as_str());
        let new_entry = after.files.get(path.as_str());
        proof {
            assert(old_entry.deep_view() == file_at(before@, path@));
            assert(new_entry.deep_view() == file_at(after@, path@));
            assert(list.take(i + 1) =~= list.take(i as int).push(path@));
            assert forall|k: Seq<char>| list.take(i + 1).to_set().contains(k) <==> list.take(
                i as int,
            ).to_set().contains(k) || k == path@ by {
                crate::collections::lemma_push_contains(list.take(i as int), path@, k);
            }
        }
        if !same_entry(old_entry, new_entry) {
            paths.insert(path.clone());
        }
        assert(paths@ =~= goal.intersect(list.take(i + 1).to_set()));
        i += 1;
    }
    proof {
        assert(list.take(n as int) =~= list);
        assert(goal.intersect(list.to_set()) =~= goal) by {
            assert forall|k: Seq<char>| goal.contains(k) implies list.to_set().contains(k) by {
                assert(all@.contains(k));
            }
        }
    }
    paths
}

/// What changed between two snapshots, in the order of the paths.
pub fn file_changes(before: &Snapshot, after: &Snapshot) -> (changes: Vec<FileChange>)
    ensures
        changes_in(changes@) == changes_between(before@, after@),
{
    let paths = changed_paths(before, after);
    let mut changes: Vec<FileChange> = Vec::new();
    let n = paths.len();
    let ghost goal = changes_between(before@, after@);
    let mut i: usize = 0;
    assert(changes_in(changes@) =~= goal.take(0));
    while i < n
        invariant
            i <= n,
            n == paths@.len(),
            paths@ == changed_between(before@, after@),
            n == ordered(paths@).len(),
            goal == changes_between(before@, after@),
            changes_in(changes@) == goal.take(i as int),
        decreases n - i,
    {
        let ghost so_far = changes_in(changes@);
        let path = paths.at(i);
        let kind = if !before.files.contains_key(path.as_str()) {
            "added"
        } else if !after.files.contains_key(path.as_str()) {
            "deleted"
        } else {
            "modified"
        };
        changes.push(FileChange { path: path.clone(), kind });
        proof {
            assert(goal[i as int] == (path@, change_kind(before@, after@, path@)));
            assert(changes_in(changes@) =~= so_far.push(goal[i as int]));
            assert(goal.take(i + 1) =~= goal.take(i as int).push(goal[i as int]));
        }
        i += 1;
    }
    assert(goal.take(n as int) =~= goal);
    changes
}

/// The words for a version that was saved without any.
pub open spec fn default_summary(changes: Seq<(Seq<char>, Seq<char>)>) -> Seq<char> {
    if changes.len() == 1 {
        changes[0].1 + " "@ + changes[0].0
    } else {
        "Update "@ + decimal(changes.len()) + " files"@
    }
}

/// The words for a version.
pub open spec fn summary_of(message: Option<Seq<char>>, changes: Seq<(Seq<char>, Seq<char>)>) -> Result<
    Seq<char>,
    ErrorV,
> {
    let text = match message {
        Some(text) => text,
        None => default_summary(changes),
    };
    if blank(text) {
        Err(plain(Problem::EmptySummary))
    } else {
        Ok(text)
    }
}

/// The words for a version: those given, or what changed.
pub fn summary(message: Option<&str>, changes: &[FileChange]) -> (result: Result<String, Error>)
    ensures
        outcome(result) == summary_of(
            match message {
                Some(text) => Some(text@),
                None => None,
            },
            changes_in(changes@),
        ),
{
    assert(changes@.len() == changes.len());
    let text = match message {
        Some(text) => text.to_owned(),
        None => {
            if changes.len() == 1 {
                let mut text = changes[0].kind.to_owned();
                text.append(" ");
                text.append(changes[0].path.as_str());
                text
            } else {
                let mut text = "Update ".to_owned();
                text.append(decimal_text(changes.len() as u64).as_str());
                text.append(" files");
                text
            }
        },
    };
    if is_blank(text.as_str()) {
        return Err(Error::plain(Problem::EmptySummary));
    }
    Ok(text)
}

/// A commit must fit the limit for metadata.
pub fn check_metadata(length: usize) -> (result: Result<(), Error>)
    ensures
        verdict(result) == (if length <= MAX_METADATA_BYTES {
            Ok::<(), ErrorV>(())
        } else {
            Err(plain(Problem::MetadataTooLarge))
        }),
{
    if length <= MAX_METADATA_BYTES {
        Ok(())
    } else {
        Err(Error::plain(Problem::MetadataTooLarge))
    }
}

// Merging snapshots

/// What to do about files that both sides edited.
#[derive(Debug, Clone, Copy, PartialEq, Eq, Structural)]
pub enum Resolution {
    Stop,
    Local,
    Remote,
}

impl Default for Resolution {
    fn default() -> (resolution: Resolution)
        ensures
            resolution is Stop,
    {
        Resolution::Stop
    }
}

/// Both sides changed a value, and differently.
pub open spec fn both_edited(
    before: Option<FileEntryV>,
    ours: Option<FileEntryV>,
    theirs: Option<FileEntryV>,
) -> bool {
    ours != before && theirs != before && ours != theirs
}

/// The value of a file after a merge.
pub open spec fn merged_value(
    before: Option<FileEntryV>,
    ours: Option<FileEntryV>,
    theirs: Option<FileEntryV>,
    resolution: Resolution,
) -> Option<FileEntryV> {
    if ours == before {
        theirs
    } else if theirs == before || ours == theirs {
        ours
    } else if resolution is Remote {
        theirs
    } else {
        ours
    }
}

/// The files that both sides edited.
pub open spec fn edited_by_both(
    base: Map<Seq<char>, FileEntryV>,
    local: Map<Seq<char>, FileEntryV>,
    remote: Map<Seq<char>, FileEntryV>,
) -> Set<Seq<char>> {
    Set::new(|path: Seq<char>| both_edited(file_at(base, path), file_at(local, path), file_at(remote, path)))
}

/// The files after a merge.
pub open spec fn merged_files(
    base: Map<Seq<char>, FileEntryV>,
    local: Map<Seq<char>, FileEntryV>,
    remote: Map<Seq<char>, FileEntryV>,
    resolution: Resolution,
) -> Map<Seq<char>, FileEntryV> {
    Map::new(
        |path: Seq<char>|
            merged_value(file_at(base, path), file_at(local, path), file_at(remote, path), resolution) is Some,
        |path: Seq<char>|
            merged_value(file_at(base, path), file_at(local, path), file_at(remote, path), resolution)->0,
    )
}

/// The result of merging two descendants of a snapshot.
pub open spec fn snapshots_merged(
    base: Map<Seq<char>, FileEntryV>,
    local: Map<Seq<char>, FileEntryV>,
    remote: Map<Seq<char>, FileEntryV>,
    resolution: Resolution,
) -> Result<Map<Seq<char>, FileEntryV>, ErrorV> {
    let conflicts = edited_by_both(base, local, remote);
    if resolution is Stop && conflicts != Set::<Seq<char>>::empty() {
        Err(about(Problem::BothEdited, join(ordered(conflicts), ", "@)))
    } else {
        match snapshot_check(merged_files(base, local, remote, resolution)) {
            Err(error) => Err(error),
            Ok(()) => Ok(merged_files(base, local, remote, resolution)),
        }
    }
}

/// Merge two descendants of a snapshot, file by file.
pub fn merge_snapshots(base: &Snapshot, local: &Snapshot, remote: &Snapshot, resolution: Resolution) -> (result: Result<
    Snapshot,
    Error,
>)
    ensures
        outcome(result) == snapshots_merged(base@, local@, remote@, resolution),
{
    let mut all = base.files.keys();
    all.extend(&local.files.keys());
    all.extend(&remote.files.keys());
    let mut files: TextMap<FileEntry> = TextMap::new();
    let mut conflicts = TextSet::new();
    let n = all.len();
    let ghost list = ordered(all@);
    let ghost both = edited_by_both(base@, local@, remote@);
    let ghost goal = merged_files(base@, local@, remote@, resolution);
    let mut i: usize = 0;
    proof {
        assert(conflicts@ =~= both.intersect(list.take(0).to_set()));
        assert(files@ =~= goal.restrict(list.take(0).to_set()));
    }
    while i < n
        invariant
            i <= n,
            n == all@.len(),
            n == list.len(),
            list == ordered(all@),
            lists(list, all@),
            both == edited_by_both(base@, local@, remote@),
            goal == merged_files(base@, local@, remote@, resolution),
            conflicts@ == both.intersect(list.take(i as int).to_set()),
            files@ == goal.restrict(list.take(i as int).to_set()),
        decreases n - i,
    {
        let path = all.at(i);
        let before = base.files.get(path.as_str());
        let ours = local.files.get(path.as_str());
        let theirs = remote.files.get(path.as_str());
        proof {
            assert(before.deep_view() == file_at(base@, path@));
            assert(ours.deep_view() == file_at(local@, path@));
            assert(theirs.deep_view() == file_at(remote@, path@));
            assert(list.take(i + 1) =~= list.take(i as int).push(path@));
            assert forall|k: Seq<char>| list.take(i + 1).to_set().contains(k) <==> list.take(
                i as int,
            ).to_set().contains(k) || k == path@ by {
                crate::collections::lemma_push_contains(list.take(i as int), path@, k);
            }
        }
        let selected: Option<&FileEntry> = if same_entry(ours, before) {
            theirs
        } else if same_entry(theirs, before) || same_entry(ours, theirs) {
            ours
        } else {
            conflicts.insert(path.clone());
            match resolution {
                Resolution::Remote => theirs,
                _ => ours,
            }
        };
        let ghost so_far = files@;
        assert(selected.deep_view() == merged_value(
            file_at(base@, path@),
            file_at(local@, path@),
            file_at(remote@, path@),
            resolution,
        ));
        if let Some(entry) = selected {
            files.insert(path.clone(), entry.clone());
        }
        proof {
            assert(conflicts@ =~= both.intersect(list.take(i + 1).to_set()));
            let next = goal.restrict(list.take(i + 1).to_set());
            assert forall|k: Seq<char>| files@.contains_key(k) <==> next.contains_key(k) by {
                assert(so_far.contains_key(k) <==> goal.contains_key(k) && list.take(i as int).to_set().contains(k));
            }
            assert forall|k: Seq<char>| files@.contains_key(k) implies files@[k] == next[k] by {
                if so_far.contains_key(k) && k != path@ {
                    assert(so_far[k] == goal.restrict(list.take(i as int).to_set())[k]);
                }
            }
            assert(files@ =~= next);
        }
        i += 1;
    }
    proof {
        assert(list.take(n as int) =~= list);
        assert forall|k: Seq<char>| !all@.contains(k) implies file_at(base@, k) is None && file_at(local@, k) is None
            && file_at(remote@, k) is None by {}
        assert(both.intersect(list.to_set()) =~= both) by {
            assert forall|k: Seq<char>| both.contains(k) implies list.to_set().contains(k) by {
                assert(all@.contains(k));
            }
        }
        assert(goal.restrict(list.to_set()) =~= goal) by {
            assert forall|k: Seq<char>| goal.contains_key(k) implies list.to_set().contains(k) by {
                assert(all@.contains(k));
            }
        }
    }
    let stopped = match resolution {
        Resolution::Stop => !conflicts.is_empty(),
        _ => false,
    };
    if stopped {
        let names = conflicts.to_vec();
        return Err(Error::about(Problem::BothEdited, join_texts(names.as_slice(), ", ")));
    }
    let snapshot = Snapshot { files };
    snapshot.validate()?;
    Ok(snapshot)
}

/// A file that only one side changed keeps that change in a merge, and a file
/// that both changed alike keeps it too.
pub proof fn one_sided_edits_survive(
    base: Map<Seq<char>, FileEntryV>,
    local: Map<Seq<char>, FileEntryV>,
    remote: Map<Seq<char>, FileEntryV>,
    resolution: Resolution,
    path: Seq<char>,
)
    requires
        snapshots_merged(base, local, remote, resolution) is Ok,
        !both_edited(file_at(base, path), file_at(local, path), file_at(remote, path)),
    ensures
        ({
            let result = snapshots_merged(base, local, remote, resolution)->Ok_0;
            &&& file_at(local, path) != file_at(base, path) ==> file_at(result, path) == file_at(local, path)
            &&& file_at(remote, path) != file_at(base, path) ==> file_at(result, path) == file_at(remote, path)
            &&& file_at(local, path) == file_at(base, path) && file_at(remote, path) == file_at(base, path) ==> file_at(
                result,
                path,
            ) == file_at(base, path)
        }),
{
}

/// A file that both sides changed differently takes the side that was chosen;
/// without a choice there is no merge.
pub proof fn contested_files_follow_the_choice(
    base: Map<Seq<char>, FileEntryV>,
    local: Map<Seq<char>, FileEntryV>,
    remote: Map<Seq<char>, FileEntryV>,
    resolution: Resolution,
    path: Seq<char>,
)
    requires
        snapshots_merged(base, local, remote, resolution) is Ok,
        both_edited(file_at(base, path), file_at(local, path), file_at(remote, path)),
    ensures
        !(resolution is Stop),
        resolution is Local ==> file_at(snapshots_merged(base, local, remote, resolution)->Ok_0, path) == file_at(
            local,
            path,
        ),
        resolution is Remote ==> file_at(snapshots_merged(base, local, remote, resolution)->Ok_0, path) == file_at(
            remote,
            path,
        ),
{
    assert(edited_by_both(base, local, remote).contains(path));
}

/// Merging with an unchanged side gives the other side.
pub proof fn unchanged_sides_merge_to_the_other(
    base: Map<Seq<char>, FileEntryV>,
    other: Map<Seq<char>, FileEntryV>,
    resolution: Resolution,
)
    requires
        snapshot_check(other) is Ok,
    ensures
        snapshots_merged(base, base, other, resolution) == Ok::<Map<Seq<char>, FileEntryV>, ErrorV>(other),
        snapshots_merged(base, other, base, resolution) == Ok::<Map<Seq<char>, FileEntryV>, ErrorV>(other),
{
    assert(edited_by_both(base, base, other) =~= Set::<Seq<char>>::empty());
    assert(edited_by_both(base, other, base) =~= Set::<Seq<char>>::empty());
    assert(merged_files(base, base, other, resolution) =~= other);
    assert(merged_files(base, other, base, resolution) =~= other);
}

// Selections

/// The part of a map that a selection holds.
pub open spec fn part_of<T>(files: Map<Seq<char>, T>, selection: Seq<Seq<char>>) -> Map<Seq<char>, T> {
    Map::new(
        |path: Seq<char>| files.contains_key(path) && selects(selection, path),
        |path: Seq<char>| files[path],
    )
}

fn select_files<T: Value>(files: &TextMap<T>, selection: &[String]) -> (part: TextMap<T>)
    ensures
        part@ == part_of(files@, texts(selection@)),
{
    let mut part: TextMap<T> = TextMap::new();
    let n = files.len();
    let ghost keys = keys_of(files@);
    let ghost goal = part_of(files@, texts(selection@));
    let mut i: usize = 0;
    assert(part@ =~= goal.restrict(keys.take(0).to_set()));
    while i < n
        invariant
            i <= n,
            n == files@.dom().len(),
            n == keys.len(),
            keys == keys_of(files@),
            lists(keys, files@.dom()),
            goal == part_of(files@, texts(selection@)),
            part@ == goal.restrict(keys.take(i as int).to_set()),
        decreases n - i,
    {
        let path = files.key_at(i);
        proof {
            assert(keys.take(i + 1) =~= keys.take(i as int).push(path@));
            assert forall|k: Seq<char>| keys.take(i + 1).to_set().contains(k) <==> keys.take(
                i as int,
            ).to_set().contains(k) || k == path@ by {
                crate::collections::lemma_push_contains(keys.take(i as int), path@, k);
            }
        }
        let ghost so_far = part@;
        if includes(selection, path.as_str()) {
            part.insert(path.clone(), files.value_at(i).copied());
        }
        proof {
            let next = goal.restrict(keys.take(i + 1).to_set());
            assert forall|k: Seq<char>| part@.contains_key(k) <==> next.contains_key(k) by {
                assert(so_far.contains_key(k) <==> goal.contains_key(k) && keys.take(i as int).to_set().contains(k));
            }
            assert forall|k: Seq<char>| part@.contains_key(k) implies part@[k] == next[k] by {
                if so_far.contains_key(k) && k != path@ {
                    assert(so_far[k] == goal.restrict(keys.take(i as int).to_set())[k]);
                }
            }
            assert(part@ =~= next);
        }
        i += 1;
    }
    proof {
        assert(keys.take(n as int) =~= keys);
        assert(goal.restrict(keys.to_set()) =~= goal) by {
            assert forall|k: Seq<char>| goal.contains_key(k) implies keys.to_set().contains(k) by {
                assert(files@.dom().contains(k));
            }
        }
    }
    part
}

pub(crate) fn select_texts(names: &TextSet, selection: &[String]) -> (part: TextSet)
    ensures
        part@ == names@.filter(|path: Seq<char>| selects(texts(selection@), path)),
{
    let mut part = TextSet::new();
    let n = names.len();
    let ghost list = ordered(names@);
    let ghost goal = names@.filter(|path: Seq<char>| selects(texts(selection@), path));
    let mut i: usize = 0;
    assert(part@ =~= goal.intersect(list.take(0).to_set()));
    while i < n
        invariant
            i <= n,
            n == names@.len(),
            n == list.len(),
            list == ordered(names@),
            lists(list, names@),
            goal == names@.filter(|path: Seq<char>| selects(texts(selection@), path)),
            part@ == goal.intersect(list.take(i as int).to_set()),
        decreases n - i,
    {
        let path = names.at(i);
        proof {
            assert(list.take(i + 1) =~= list.take(i as int).push(path@));
            assert forall|k: Seq<char>| list.take(i + 1).to_set().contains(k) <==> list.take(
                i as int,
            ).to_set().contains(k) || k == path@ by {
                crate::collections::lemma_push_contains(list.take(i as int), path@, k);
            }
        }
        if includes(selection, path.as_str()) {
            part.insert(path.clone());
        }
        assert(part@ =~= goal.intersect(list.take(i + 1).to_set()));
        i += 1;
    }
    proof {
        assert(list.take(n as int) =~= list);
        assert(goal.intersect(list.to_set()) =~= goal) by {
            assert forall|k: Seq<char>| goal.contains(k) implies list.to_set().contains(k) by {
                assert(names@.contains(k));
            }
        }
    }
    part
}

/// The part of a view that a selection holds.
pub fn selected_view(view: &View, selection: &[String]) -> (part: View)
    ensures
        part@ == part_of(view@, texts(selection@)),
{
    View { files: select_files(&view.files, selection) }
}

/// The part of a snapshot that a selection holds.
pub fn selected_snapshot(snapshot: &Snapshot, selection: &[String]) -> (part: Snapshot)
    ensures
        part@ == part_of(snapshot@, texts(selection@)),
{
    Snapshot { files: select_files(&snapshot.files, selection) }
}

/// The conflicts that a selection holds.
pub open spec fn selected_conflicts(view: ViewV, selection: Seq<Seq<char>>) -> Set<Seq<char>> {
    conflicts_of(view).filter(|path: Seq<char>| selects(selection, path))
}

/// Selected files that collide only with files outside the selection.
pub open spec fn outside_collisions(view: ViewV, selection: Seq<Seq<char>>) -> Set<Seq<char>> {
    selected_conflicts(view, selection).difference(conflicts_of(part_of(view, selection)))
}

/// The part of a view that can be checked out.
pub open spec fn checkout(view: ViewV, selection: Seq<Seq<char>>) -> Result<ViewV, ErrorV> {
    if outside_collisions(view, selection) != Set::<Seq<char>>::empty() {
        Err(about(Problem::OutsideCollision, join(ordered(outside_collisions(view, selection)), ", "@)))
    } else {
        Ok(part_of(view, selection))
    }
}

/// The part of a view that can be checked out. What is selected must not
/// collide with what is not.
pub fn checkout_view(view: &View, selection: &[String]) -> (result: Result<View, Error>)
    ensures
        outcome(result) == checkout(view@, texts(selection@)),
{
    let part = selected_view(view, selection);
    let inside = part.conflicts();
    let all = select_texts(&view.conflicts(), selection);
    let outside = all.difference(&inside);
    if !outside.is_empty() {
        let names = outside.to_vec();
        return Err(Error::about(Problem::OutsideCollision, join_texts(names.as_slice(), ", ")));
    }
    Ok(part)
}

/// A commit in a working copy of some paths edits these only, and when it is
/// applied to the whole project every other file stays as it is.
pub proof fn partial_commits_stay_in_the_selection(
    view: ViewV,
    selection: Seq<Seq<char>>,
    files: Map<Seq<char>, FileEntryV>,
    message: Seq<char>,
    nonce: Seq<char>,
    id: Seq<char>,
    path: Seq<char>,
)
    requires
        recorded(part_of(view, selection), part_of(files, selection), message, nonce) is Ok,
        !selects(selection, path),
    ensures
        ({
            let edits = recorded(part_of(view, selection), part_of(files, selection), message, nonce)->Ok_0.edits;
            let after = applied(view, id, edits);
            &&& !edits.contains_key(path)
            &&& after.contains_key(path) == view.contains_key(path)
            &&& view.contains_key(path) ==> after[path] == view[path]
        }),
{
}

/// How a working copy stands, given its current files and its baseline.
pub fn status(
    state: &WorkspaceState,
    current: &Snapshot,
    baseline: &Snapshot,
    projection: &Projection,
    version: Option<String>,
) -> (status: Status)
    ensures
        status.project@ == state@.project,
        status.remote.deep_view() == state@.remote,
        status.view@ == state_id(projection.roots@),
        status.pending_commits == state@.outbox.len(),
        texts(status.changed@) == ordered(changed_between(current@, baseline@)),
        status.conflicts@ == selected_conflicts(projection.view@, state@.paths),
        status.version == version,
        texts(status.paths@) == state@.paths,
{
    let changed = changed_paths(current, baseline).to_vec();
    let conflicts = select_texts(&projection.view.conflicts(), state.paths.as_slice());
    let view = crate::graphs::roots_id(&projection.roots);
    Status {
        project: state.project.clone(),
        remote: state.remote.copied(),
        view,
        pending_commits: state.outbox.len(),
        changed,
        conflicts,
        version,
        paths: copy_texts(state.paths.as_slice()),
    }
}

} // verus!
