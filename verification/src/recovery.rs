//! Saved states of a working copy, and going back to them.
use vstd::prelude::*;
use vstd::string::*;

use crate::checkout::outdated;
use crate::collections::with_entry;
use crate::error::{about, ErrorV, Problem};
use crate::history::{restorable_check, selection_check};
use crate::objects::{snapshot_id, FileEntryV};
use crate::storage::object_label;
use crate::transactions::{saved_id, SavedViewV};
use crate::workspace::{part_of, view_saved, WorkspaceStateV};

verus! {

/// A working copy: its files, what it keeps beside them, the saved snapshots
/// and views by their identities, and the transactions that its base consists
/// of.
#[verifier::ext_equal]
pub struct CopyV {
    pub files: Map<Seq<char>, FileEntryV>,
    pub state: WorkspaceStateV,
    pub snapshots: Map<Seq<char>, Map<Seq<char>, FileEntryV>>,
    pub views: Map<Seq<char>, SavedViewV>,
    pub roots: Set<Seq<char>>,
}

/// The view that is saved of a working copy as it stands.
pub open spec fn current_view(copy: CopyV) -> SavedViewV {
    view_saved(copy.state.paths, snapshot_id(copy.files), copy.roots)
}

/// The identity of that view.
pub open spec fn current_id(copy: CopyV) -> Seq<char> {
    let view = current_view(copy);
    saved_id(view.format, view.snapshot, view.roots, view.paths)
}

/// A working copy after its files were saved. What is saved already stays.
pub open spec fn captured(copy: CopyV) -> CopyV {
    CopyV {
        snapshots: with_entry(copy.snapshots, snapshot_id(copy.files), copy.files),
        views: with_entry(copy.views, current_id(copy), current_view(copy)),
        ..copy
    }
}

/// The files after those of a target were written over the current ones.
pub open spec fn rewritten(
    current: Map<Seq<char>, FileEntryV>,
    target: Map<Seq<char>, FileEntryV>,
) -> Map<Seq<char>, FileEntryV> {
    current.remove_keys(current.dom().difference(target.dom())).union_prefer_right(
        target.restrict(outdated(current, target)),
    )
}

/// A working copy after it was put back to a snapshot: its files are saved
/// before and after.
pub open spec fn put_back(copy: CopyV, target: Map<Seq<char>, FileEntryV>) -> CopyV {
    captured(
        CopyV {
            files: rewritten(copy.files, part_of(target, copy.state.paths)),
            state: WorkspaceStateV { tracked_files: target.dom(), ..copy.state },
            ..captured(copy)
        },
    )
}

/// Restoring what a reference leads to, an object of the given kind: the view
/// under which the earlier files were saved, and the working copy afterwards.
/// Where restoring is refused, the working copy stays as it was.
pub open spec fn restored(copy: CopyV, reference: Seq<char>, kind: Seq<char>, id: Seq<char>) -> (
    Result<Seq<char>, ErrorV>,
    CopyV,
) {
    match restorable_check(reference, kind) {
        Err(error) => (Err(error), copy),
        Ok(()) => if !copy.views.contains_key(id) {
            (Err(about(Problem::MissingObject, object_label("saved-view"@, id))), copy)
        } else {
            let view = copy.views[id];
            match selection_check(view, copy.state.paths) {
                Err(error) => (Err(error), copy),
                Ok(()) => if !copy.snapshots.contains_key(view.snapshot) {
                    (Err(about(Problem::MissingObject, object_label("snapshot"@, view.snapshot))), copy)
                } else {
                    (Ok(current_id(copy)), put_back(copy, copy.snapshots[view.snapshot]))
                },
            }
        },
    }
}

/// The saved snapshots and views are what their identities stand for, so far
/// as the files and the view of the working copy go.
pub open spec fn saved_soundly(copy: CopyV) -> bool {
    &&& copy.snapshots.contains_key(snapshot_id(copy.files)) ==> copy.snapshots[snapshot_id(copy.files)] == copy.files
    &&& copy.views.contains_key(current_id(copy)) ==> copy.views[current_id(copy)] == current_view(copy)
}

/// What cannot be restored changes nothing; above all, a reference to edits
/// rather than to a saved view is refused.
pub proof fn refused_restores_change_nothing(copy: CopyV, reference: Seq<char>, kind: Seq<char>, id: Seq<char>)
    ensures
        restored(copy, reference, kind, id).0 is Err ==> restored(copy, reference, kind, id).1 == copy,
        kind != "saved-view"@ ==> restored(copy, reference, kind, id).0 is Err,
{
}

/// Restoring a view puts the selected files of its snapshot in place of the
/// current ones, and touches neither what was committed nor what waits to be
/// sent. The view that it hands back leads to the earlier files: restoring
/// that brings every one of them back as it was.
pub proof fn restoring_can_be_undone(copy: CopyV, reference: Seq<char>, id: Seq<char>)
    requires
        restored(copy, reference, "saved-view"@, id).0 is Ok,
        part_of(copy.files, copy.state.paths) == copy.files,
        saved_soundly(copy),
    ensures
        ({
            let backup = restored(copy, reference, "saved-view"@, id).0->Ok_0;
            let after = restored(copy, reference, "saved-view"@, id).1;
            let again = restored(after, backup, "saved-view"@, backup);
            &&& after.files == part_of(copy.snapshots[copy.views[id].snapshot], copy.state.paths)
            &&& after.state.transactions == copy.state.transactions
            &&& after.state.outbox == copy.state.outbox
            &&& after.state.base_snapshot == copy.state.base_snapshot
            &&& after.roots == copy.roots
            &&& again.0 is Ok
            &&& again.1.files == copy.files
            &&& again.1.state.transactions == copy.state.transactions
            &&& again.1.state.outbox == copy.state.outbox
        }),
{
    let target = copy.snapshots[copy.views[id].snapshot];
    let part = part_of(target, copy.state.paths);
    crate::checkout::updates_reach_the_target(copy.files, part);
    let backup = current_id(copy);
    let after = restored(copy, reference, "saved-view"@, id).1;
    let kept = captured(copy);
    assert(kept.views[backup] == current_view(copy));
    assert(kept.snapshots[snapshot_id(copy.files)] == copy.files);
    assert(after.views[backup] == current_view(copy));
    assert(after.snapshots[snapshot_id(copy.files)] == copy.files);
    crate::checkout::updates_reach_the_target(after.files, copy.files);
}

} // verus!
