//! What differs between two sets of files, and what comes of merging them.
use vstd::prelude::*;

use crate::checkout::{directories_of, outdated};
use crate::collections::{increasing, lemma_ordered, ordered};
use crate::encoding::decimal;
use crate::error::ErrorV;
use crate::objects::{snapshot_check, FileEntryV};
use crate::paths::{ancestors_hold_the_path, below};
use crate::selection::selects;
use crate::text::{before, blank, white_space};
use crate::views::{conflicted, conflicts_of, file_at, live_at, ViewV};
use crate::workspace::{
    changed_between, changes_between, checkout, edited_by_both, merged_files, outside_collisions,
    part_of, selected_conflicts, snapshots_merged, summary_of, Resolution,
};

verus! {

/// Both have a file the same, or both lack it.
pub open spec fn same_at(a: Map<Seq<char>, FileEntryV>, b: Map<Seq<char>, FileEntryV>, path: Seq<char>) -> bool {
    &&& a.contains_key(path) == b.contains_key(path)
    &&& a.contains_key(path) ==> a[path] == b[path]
}

// Differences

/// A file has changed if one side lacks it or has it otherwise. The order of
/// the sides does not matter, and nothing has changed only between equal ones.
pub proof fn changes_are_what_differs(
    a: Map<Seq<char>, FileEntryV>,
    b: Map<Seq<char>, FileEntryV>,
    path: Seq<char>,
)
    ensures
        changed_between(a, b).contains(path) <==> !same_at(a, b, path),
        changed_between(a, b) == changed_between(b, a),
        changed_between(a, b) == Set::<Seq<char>>::empty() <==> a == b,
{
    assert(changed_between(a, b) =~= changed_between(b, a));
    if changed_between(a, b) == Set::<Seq<char>>::empty() {
        assert forall|p: Seq<char>| same_at(a, b, p) by {
            assert(!changed_between(a, b).contains(p));
        }
        assert forall|p: Seq<char>| a.contains_key(p) == #[trigger] b.contains_key(p) by {
            assert(same_at(a, b, p));
        }
        assert forall|p: Seq<char>| a.contains_key(p) implies #[trigger] a[p] == b[p] by {
            assert(same_at(a, b, p));
        }
        assert(a =~= b);
    }
    if a == b {
        assert(changed_between(a, b) =~= Set::<Seq<char>>::empty());
    }
}

/// The list of changes holds every file that differs, once and in the order of
/// paths, and tells what came, what went and what is different.
pub proof fn changes_are_listed_by_what_happened(
    a: Map<Seq<char>, FileEntryV>,
    b: Map<Seq<char>, FileEntryV>,
    path: Seq<char>,
)
    requires
        a.dom().finite(),
        b.dom().finite(),
    ensures
        ({
            let list = changes_between(a, b);
            &&& forall|i: int, j: int| 0 <= i < j < list.len() ==> before((#[trigger] list[i]).0, (#[trigger] list[j]).0)
            &&& !a.contains_key(path) && b.contains_key(path) <==> list.contains((path, "added"@))
            &&& a.contains_key(path) && !b.contains_key(path) <==> list.contains((path, "deleted"@))
            &&& a.contains_key(path) && b.contains_key(path) && a[path] != b[path] <==> list.contains(
                (path, "modified"@),
            )
            &&& forall|i: int| 0 <= i < list.len() ==> (#[trigger] list[i]).1 == "added"@ || list[i].1 == "deleted"@
                || list[i].1 == "modified"@
        }),
{
    let set = changed_between(a, b);
    assert(set.subset_of(a.dom().union(b.dom())));
    vstd::set_lib::lemma_set_subset_finite(a.dom().union(b.dom()), set);
    lemma_ordered(set);
    let keys = ordered(set);
    let list = changes_between(a, b);
    assert(increasing(keys));
    reveal_strlit("added");
    reveal_strlit("deleted");
    reveal_strlit("modified");
    assert("added"@.len() == 5 && "deleted"@.len() == 7 && "modified"@.len() == 8);
    assert forall|kind: Seq<char>| #[trigger] list.contains((path, kind)) <==> set.contains(path) && kind
        == crate::workspace::change_kind(a, b, path) by {
        if list.contains((path, kind)) {
            let i = choose|i: int| 0 <= i < list.len() && list[i] == (path, kind);
            assert(keys[i] == path);
            assert(keys.contains(path));
        }
        if set.contains(path) && kind == crate::workspace::change_kind(a, b, path) {
            assert(keys.contains(path));
            let i = choose|i: int| 0 <= i < keys.len() && keys[i] == path;
            assert(list[i] == (path, kind));
        }
    }
}

proof fn lemma_says_something(text: Seq<char>)
    requires
        text.len() > 0,
        'A' <= text[0] <= 'z',
    ensures
        !blank(text),
{
    assert(!white_space(text[0]));
}

/// A message that says something is kept as it is, and a blank one is refused.
/// Without a message, a single change is named, and any other number of them
/// is counted.
pub proof fn messages_describe_the_changes(
    message: Seq<char>,
    a: Map<Seq<char>, FileEntryV>,
    b: Map<Seq<char>, FileEntryV>,
    path: Seq<char>,
    kind: Seq<char>,
)
    requires
        a.dom().finite(),
        b.dom().finite(),
    ensures
        ({
            let list = changes_between(a, b);
            &&& summary_of(Some(message), list) is Ok <==> exists|i: int|
                0 <= i < message.len() && !white_space(#[trigger] message[i])
            &&& summary_of(Some(message), list) is Ok ==> summary_of(Some(message), list)->Ok_0 == message
            &&& list.len() == 1 && list.contains((path, kind)) ==> summary_of(None, list) == Ok::<Seq<char>, ErrorV>(
                kind + seq![' '] + path,
            )
            &&& list.len() != 1 ==> summary_of(None, list) == Ok::<Seq<char>, ErrorV>(
                "Update "@ + decimal(list.len()) + " files"@,
            )
        }),
{
    let list = changes_between(a, b);
    reveal_strlit(" ");
    reveal_strlit("Update ");
    assert(" "@ =~= seq![' ']);
    lemma_says_something("Update "@ + decimal(list.len()) + " files"@);
    if list.len() == 1 && list.contains((path, kind)) {
        changes_are_listed_by_what_happened(a, b, path);
        reveal_strlit("added");
        reveal_strlit("deleted");
        reveal_strlit("modified");
        lemma_says_something(kind + seq![' '] + path);
    }
}

// Merging

/// What a merge of two sides is to give: what one side did to a file that the
/// other left alone, what both did alike, and the chosen side where they
/// differ.
pub open spec fn joins(
    base: Map<Seq<char>, FileEntryV>,
    ours: Map<Seq<char>, FileEntryV>,
    theirs: Map<Seq<char>, FileEntryV>,
    remote: bool,
    files: Map<Seq<char>, FileEntryV>,
) -> bool {
    forall|path: Seq<char>| #[trigger]
        files.contains_key(path) || base.contains_key(path) || ours.contains_key(path) || theirs.contains_key(path) ==> {
            &&& same_at(ours, base, path) ==> same_at(files, theirs, path)
            &&& same_at(theirs, base, path) ==> same_at(files, ours, path)
            &&& same_at(ours, theirs, path) ==> same_at(files, ours, path)
            &&& !same_at(ours, base, path) && !same_at(theirs, base, path) ==> same_at(
                files,
                if remote {
                    theirs
                } else {
                    ours
                },
                path,
            )
        }
}

/// A merge gives what joins the two sides, if that is valid. Without a choice
/// it does so exactly if no file was edited differently on both sides.
pub proof fn merges_join_both_sides(
    base: Map<Seq<char>, FileEntryV>,
    ours: Map<Seq<char>, FileEntryV>,
    theirs: Map<Seq<char>, FileEntryV>,
    remote: bool,
    files: Map<Seq<char>, FileEntryV>,
)
    requires
        joins(base, ours, theirs, remote, files),
        snapshot_check(files) is Ok,
    ensures
        snapshots_merged(
            base,
            ours,
            theirs,
            if remote {
                Resolution::Remote
            } else {
                Resolution::Local
            },
        ) == Ok::<Map<Seq<char>, FileEntryV>, ErrorV>(files),
        (forall|path: Seq<char>|
            #![trigger same_at(ours, theirs, path)]
            same_at(ours, base, path) || same_at(theirs, base, path) || same_at(ours, theirs, path)) ==> snapshots_merged(
            base,
            ours,
            theirs,
            Resolution::Stop,
        ) == Ok::<Map<Seq<char>, FileEntryV>, ErrorV>(files),
{
    let resolution = if remote {
        Resolution::Remote
    } else {
        Resolution::Local
    };
    assert forall|path: Seq<char>| file_at(merged_files(base, ours, theirs, resolution), path) == #[trigger] file_at(
        files,
        path,
    ) by {
        if !files.contains_key(path) && !base.contains_key(path) && !ours.contains_key(path) && !theirs.contains_key(
            path,
        ) {
            assert(!merged_files(base, ours, theirs, resolution).contains_key(path));
        } else {
            assert(files.contains_key(path) || base.contains_key(path) || ours.contains_key(path)
                || theirs.contains_key(path));
        }
    }
    lemma_same_files(merged_files(base, ours, theirs, resolution), files);
    if forall|path: Seq<char>|
        #![trigger same_at(ours, theirs, path)]
        same_at(ours, base, path) || same_at(theirs, base, path) || same_at(ours, theirs, path) {
        assert forall|path: Seq<char>| !edited_by_both(base, ours, theirs).contains(path) by {
            assert(same_at(ours, base, path) || same_at(theirs, base, path) || same_at(ours, theirs, path));
        }
        assert(edited_by_both(base, ours, theirs) =~= Set::<Seq<char>>::empty());
        assert forall|path: Seq<char>| file_at(merged_files(base, ours, theirs, Resolution::Stop), path)
            == #[trigger] file_at(files, path) by {
            assert(same_at(ours, base, path) || same_at(theirs, base, path) || same_at(ours, theirs, path));
            assert(file_at(merged_files(base, ours, theirs, resolution), path) == file_at(files, path));
        }
        lemma_same_files(merged_files(base, ours, theirs, Resolution::Stop), files);
    }
}

proof fn lemma_same_files(a: Map<Seq<char>, FileEntryV>, b: Map<Seq<char>, FileEntryV>)
    requires
        forall|path: Seq<char>| file_at(a, path) == #[trigger] file_at(b, path),
    ensures
        a == b,
{
    assert forall|path: Seq<char>| a.contains_key(path) == #[trigger] b.contains_key(path) by {
        assert(file_at(a, path) == file_at(b, path));
    }
    assert forall|path: Seq<char>| a.contains_key(path) implies #[trigger] a[path] == b[path] by {
        assert(file_at(a, path) == file_at(b, path));
    }
    assert(a =~= b);
}

/// Without a choice, a file that both sides edited differently stops a merge.
pub proof fn double_edits_stop_a_merge(
    base: Map<Seq<char>, FileEntryV>,
    ours: Map<Seq<char>, FileEntryV>,
    theirs: Map<Seq<char>, FileEntryV>,
    path: Seq<char>,
)
    requires
        !same_at(ours, base, path),
        !same_at(theirs, base, path),
        !same_at(ours, theirs, path),
    ensures
        snapshots_merged(base, ours, theirs, Resolution::Stop) is Err,
{
    assert(edited_by_both(base, ours, theirs).contains(path));
}

/// Choosing the remote side is choosing the local one with the sides swapped.
pub proof fn choices_mirror_each_other(
    base: Map<Seq<char>, FileEntryV>,
    ours: Map<Seq<char>, FileEntryV>,
    theirs: Map<Seq<char>, FileEntryV>,
)
    ensures
        snapshots_merged(base, ours, theirs, Resolution::Remote) == snapshots_merged(
            base,
            theirs,
            ours,
            Resolution::Local,
        ),
{
    assert forall|path: Seq<char>| file_at(merged_files(base, ours, theirs, Resolution::Remote), path)
        == #[trigger] file_at(merged_files(base, theirs, ours, Resolution::Local), path) by {}
    lemma_same_files(
        merged_files(base, ours, theirs, Resolution::Remote),
        merged_files(base, theirs, ours, Resolution::Local),
    );
}

// Parts of a project

/// A part of the files is those that the selection holds, as they are.
pub proof fn parts_hold_what_is_selected<T>(files: Map<Seq<char>, T>, selection: Seq<Seq<char>>, path: Seq<char>)
    ensures
        part_of(files, selection).contains_key(path) <==> files.contains_key(path) && selects(selection, path),
        part_of(files, selection).contains_key(path) ==> part_of(files, selection)[path] == files[path],
        selection.len() == 0 ==> part_of(files, selection) == files,
{
    if selection.len() == 0 {
        assert(part_of(files, selection) =~= files);
    }
}

/// The conflicts of a part of a project are those of its files that the
/// selection holds, whatever they collide with.
pub proof fn conflicts_are_told_for_what_is_selected(view: ViewV, selection: Seq<Seq<char>>, path: Seq<char>)
    ensures
        selected_conflicts(view, selection).contains(path) <==> conflicts_of(view).contains(path) && selects(
            selection,
            path,
        ),
{
}

/// A part of a project can be checked out if and only if none of its files
/// collides with one that is left out, unless the part has a conflict in that
/// file already. What is checked out is that part of every file's versions.
pub proof fn checkouts_do_not_collide_with_the_rest(view: ViewV, selection: Seq<Seq<char>>)
    ensures
        checkout(view, selection) is Ok <==> !exists|path: Seq<char>, other: Seq<char>|
            #![trigger live_at(view, path), live_at(view, other)]
            {
                &&& live_at(view, path) && selects(selection, path)
                &&& live_at(view, other) && !selects(selection, other)
                &&& below(path, other) || below(other, path)
                &&& !conflicts_of(part_of(view, selection)).contains(path)
            },
        checkout(view, selection) is Ok ==> checkout(view, selection)->Ok_0 == part_of(view, selection),
{
    let part = part_of(view, selection);
    let outside = outside_collisions(view, selection);
    if outside != Set::<Seq<char>>::empty() {
        assert(exists|path: Seq<char>| outside.contains(path)) by {
            if forall|path: Seq<char>| !outside.contains(path) {
                assert(outside =~= Set::<Seq<char>>::empty());
            }
        }
        let path = choose|path: Seq<char>| outside.contains(path);
        assert(conflicted(view, path) && selects(selection, path) && !conflicted(part, path));
        assert(part[path] == view[path]);
        let other = choose|other: Seq<char>| #[trigger]
            live_at(view, other) && (below(path, other) || below(other, path));
        if selects(selection, other) {
            assert(part[other] == view[other]);
            assert(live_at(part, other));
            assert(live_at(part, path));
        }
        assert(live_at(view, path) && live_at(view, other));
    }
    if exists|path: Seq<char>, other: Seq<char>|
        #![trigger live_at(view, path), live_at(view, other)]
        {
            &&& live_at(view, path) && selects(selection, path)
            &&& live_at(view, other) && !selects(selection, other)
            &&& below(path, other) || below(other, path)
            &&& !conflicts_of(part).contains(path)
        } {
        let (path, other) = choose|path: Seq<char>, other: Seq<char>|
            #![trigger live_at(view, path), live_at(view, other)]
            {
                &&& live_at(view, path) && selects(selection, path)
                &&& live_at(view, other) && !selects(selection, other)
                &&& below(path, other) || below(other, path)
                &&& !conflicts_of(part).contains(path)
            };
        assert(outside.contains(path));
    }
}

// Writing files

/// The directories to make are those that some file lies below.
pub proof fn directories_hold_the_files(files: Map<Seq<char>, FileEntryV>, directory: Seq<char>)
    ensures
        directories_of(files).contains(directory) <==> exists|path: Seq<char>| #[trigger]
            files.contains_key(path) && below(path, directory),
{
    assert forall|path: Seq<char>| #[trigger] files.contains_key(path) implies (crate::paths::ancestors(path).contains(
        directory,
    ) <==> below(path, directory)) by {
        ancestors_hold_the_path(path, directory);
    }
}

/// A file is written exactly if the target has it and it is not there as it
/// should be.
pub proof fn only_outdated_files_are_written(
    current: Map<Seq<char>, FileEntryV>,
    target: Map<Seq<char>, FileEntryV>,
    path: Seq<char>,
)
    ensures
        outdated(current, target).contains(path) <==> target.contains_key(path) && !same_at(current, target, path),
        outdated(target, target) == Set::<Seq<char>>::empty(),
{
    assert(outdated(target, target) =~= Set::<Seq<char>>::empty());
}

/// Whatever comes of a merge is valid, and joins the two sides.
pub proof fn what_comes_of_a_merge_is_valid(
    base: Map<Seq<char>, FileEntryV>,
    ours: Map<Seq<char>, FileEntryV>,
    theirs: Map<Seq<char>, FileEntryV>,
    resolution: Resolution,
)
    requires
        snapshots_merged(base, ours, theirs, resolution) is Ok,
    ensures
        snapshot_check(snapshots_merged(base, ours, theirs, resolution)->Ok_0) is Ok,
        joins(base, ours, theirs, resolution is Remote, snapshots_merged(base, ours, theirs, resolution)->Ok_0),
{
    let files = merged_files(base, ours, theirs, resolution);
    if resolution is Stop {
        assert forall|path: Seq<char>| !edited_by_both(base, ours, theirs).contains(path) by {
            assert(edited_by_both(base, ours, theirs) == Set::<Seq<char>>::empty());
        }
    }
    assert forall|path: Seq<char>| #[trigger]
        files.contains_key(path) || base.contains_key(path) || ours.contains_key(path) || theirs.contains_key(
            path,
        ) implies {
        &&& same_at(ours, base, path) ==> same_at(files, theirs, path)
        &&& same_at(theirs, base, path) ==> same_at(files, ours, path)
        &&& same_at(ours, theirs, path) ==> same_at(files, ours, path)
        &&& !same_at(ours, base, path) && !same_at(theirs, base, path) ==> same_at(
            files,
            if resolution is Remote {
                theirs
            } else {
                ours
            },
            path,
        )
    } by {
        assert(file_at(files, path) == crate::workspace::merged_value(
            file_at(base, path),
            file_at(ours, path),
            file_at(theirs, path),
            resolution,
        ));
    }
}

} // verus!
