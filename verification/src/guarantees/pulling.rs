//! What a working copy takes over from a remote.
use vstd::prelude::*;

use crate::collections::{keys_of, lemma_ordered, ordered};
use crate::error::lemma_first_problem;
use crate::objects::{snapshot_check, FileEntryV};
use crate::sync::{agreed, arrival_check, arrivals, snapshot_selected, taken, taken_files};
use crate::views::{conflicted, conflicts_of, current, disputed, settled, ViewV};
use crate::workspace::Resolution;

verus! {

/// `files` has a file as `value`, or lacks it where there is none.
pub open spec fn has(files: Map<Seq<char>, FileEntryV>, path: Seq<char>, value: Option<FileEntryV>) -> bool {
    match value {
        Some(entry) => files.contains_key(path) && files[path] == entry,
        None => !files.contains_key(path),
    }
}

/// Every file of a view has versions, and not without end.
pub open spec fn versioned(view: ViewV) -> bool {
    &&& view.dom().finite()
    &&& forall|path: Seq<char>| #[trigger]
        view.contains_key(path) ==> view[path].dom().finite() && exists|id: Seq<char>| #[trigger]
            view[path].contains_key(id)
}

proof fn lemma_current(view: ViewV, path: Seq<char>, id: Seq<char>)
    requires
        versioned(view),
        view.contains_key(path),
        view[path].contains_key(id),
        !conflicted(view, path),
    ensures
        current(view[path]) == view[path][id],
{
    let heads = view[path];
    let keys = keys_of(heads);
    lemma_ordered(heads.dom());
    assert(heads.dom().contains(id));
    assert(keys.contains(id));
    assert(keys.contains(keys[0]));
    assert(heads.dom().contains(keys[0]));
    assert(heads.contains_key(keys[0]));
    assert(!disputed(heads));
}

proof fn lemma_first_arrival(view: ViewV, previous: Set<Seq<char>>, path: Seq<char>)
    requires
        versioned(view),
        view.contains_key(path),
        arrivals(view[path], previous) != Set::<Seq<char>>::empty(),
    ensures
        arrivals(view[path], previous).contains(ordered(arrivals(view[path], previous))[0]),
{
    let fresh = arrivals(view[path], previous);
    vstd::set_lib::lemma_set_subset_finite(view[path].dom(), fresh);
    lemma_ordered(fresh);
    let keys = ordered(fresh);
    if keys.len() == 0 {
        assert forall|id: Seq<char>| !fresh.contains(id) by {
            assert(!keys.contains(id));
        }
        assert(fresh =~= Set::<Seq<char>>::empty());
    }
    assert(keys.contains(keys[0]));
}

proof fn lemma_arrivals_agree(view: ViewV, previous: Set<Seq<char>>, local: Map<Seq<char>, FileEntryV>, path: Seq<char>)
    requires
        versioned(view),
        conflicts_of(view).contains(path),
        snapshot_selected(view, previous, local, Resolution::Remote) is Ok,
    ensures
        agreed(view[path], previous),
{
    let check = |p: Seq<char>| arrival_check(view, previous, Resolution::Remote, p);
    let keys = keys_of(view);
    lemma_ordered(view.dom());
    lemma_first_problem(keys, check);
    assert(view.dom().contains(path));
    assert(keys.contains(path));
    let i = choose|i: int| 0 <= i < keys.len() && keys[i] == path;
    assert(check(keys[i]) is Ok);
}

/// Keeping the remote gives, for a file in conflict, each version that
/// arrived, a deletion included.
pub proof fn keeping_the_remote_takes_what_arrived(
    view: ViewV,
    previous: Set<Seq<char>>,
    local: Map<Seq<char>, FileEntryV>,
    path: Seq<char>,
    id: Seq<char>,
)
    requires
        versioned(view),
        snapshot_selected(view, previous, local, Resolution::Remote) is Ok,
        conflicts_of(view).contains(path),
        view[path].contains_key(id),
        !previous.contains(id),
    ensures
        has(snapshot_selected(view, previous, local, Resolution::Remote)->Ok_0, path, view[path][id]),
{
    lemma_arrivals_agree(view, previous, local, path);
    let fresh = arrivals(view[path], previous);
    assert(fresh.contains(id));
    lemma_first_arrival(view, previous, path);
    assert(view[path][ordered(fresh)[0]] == view[path][id]);
    assert(taken(view, previous, local, Resolution::Remote, path) == view[path][id]);
}

/// Keeping the remote drops a file in conflict of which nothing arrived.
pub proof fn keeping_the_remote_drops_what_did_not_arrive(
    view: ViewV,
    previous: Set<Seq<char>>,
    local: Map<Seq<char>, FileEntryV>,
    path: Seq<char>,
)
    requires
        snapshot_selected(view, previous, local, Resolution::Remote) is Ok,
        conflicts_of(view).contains(path),
        forall|id: Seq<char>| #[trigger] view[path].contains_key(id) ==> previous.contains(id),
    ensures
        !snapshot_selected(view, previous, local, Resolution::Remote)->Ok_0.contains_key(path),
{
    assert(arrivals(view[path], previous) =~= Set::<Seq<char>>::empty());
}

/// Keeping the remote does not depend on the files of the working copy, and
/// keeping them does not depend on what had been there before.
pub proof fn one_side_decides(
    view: ViewV,
    previous: Set<Seq<char>>,
    earlier: Set<Seq<char>>,
    local: Map<Seq<char>, FileEntryV>,
    other: Map<Seq<char>, FileEntryV>,
)
    requires
        versioned(view),
    ensures
        snapshot_selected(view, previous, local, Resolution::Remote) == snapshot_selected(
            view,
            previous,
            other,
            Resolution::Remote,
        ),
        snapshot_selected(view, previous, local, Resolution::Local) == snapshot_selected(
            view,
            earlier,
            local,
            Resolution::Local,
        ),
{
    assert(taken_files(view, previous, local, Resolution::Remote) =~= taken_files(
        view,
        previous,
        other,
        Resolution::Remote,
    ));
    assert(taken_files(view, previous, local, Resolution::Local) =~= taken_files(
        view,
        earlier,
        local,
        Resolution::Local,
    ));
    let keys = keys_of(view);
    lemma_first_problem(keys, |p: Seq<char>| arrival_check(view, previous, Resolution::Local, p));
    lemma_first_problem(keys, |p: Seq<char>| arrival_check(view, earlier, Resolution::Local, p));
}

/// Keeping the local files gives, for a file in conflict, what the working
/// copy has, and lacks it where the working copy does.
pub proof fn keeping_the_local_takes_what_is_there(
    view: ViewV,
    previous: Set<Seq<char>>,
    local: Map<Seq<char>, FileEntryV>,
    path: Seq<char>,
)
    requires
        snapshot_selected(view, previous, local, Resolution::Local) is Ok,
        conflicts_of(view).contains(path),
    ensures
        ({
            let files = snapshot_selected(view, previous, local, Resolution::Local)->Ok_0;
            &&& files.contains_key(path) <==> local.contains_key(path)
            &&& files.contains_key(path) ==> files[path] == local[path]
        }),
{
}

/// A file without conflict is taken over as every version of it is, whatever
/// is chosen for the others. Nothing is taken over that the view lacks.
pub proof fn settled_files_are_taken_over(
    view: ViewV,
    previous: Set<Seq<char>>,
    local: Map<Seq<char>, FileEntryV>,
    resolution: Resolution,
    path: Seq<char>,
)
    requires
        versioned(view),
        snapshot_selected(view, previous, local, resolution) is Ok,
    ensures
        ({
            let files = snapshot_selected(view, previous, local, resolution)->Ok_0;
            &&& files.contains_key(path) ==> view.contains_key(path)
            &&& forall|id: Seq<char>|
                view.contains_key(path) && !conflicts_of(view).contains(path) && #[trigger] view[path].contains_key(id)
                    ==> has(files, path, view[path][id])
        }),
{
    assert forall|id: Seq<char>|
        view.contains_key(path) && !conflicts_of(view).contains(path) && #[trigger] view[path].contains_key(
            id,
        ) implies has(snapshot_selected(view, previous, local, resolution)->Ok_0, path, view[path][id]) by {
        lemma_current(view, path, id);
        if conflicts_of(view) == Set::<Seq<char>>::empty() {
            assert(snapshot_selected(view, previous, local, resolution)->Ok_0 == settled(view));
        }
    }
}

/// Without a choice, a conflict stops the pull. Without a conflict, there is
/// nothing to choose.
pub proof fn conflicts_ask_for_a_choice(
    view: ViewV,
    previous: Set<Seq<char>>,
    earlier: Set<Seq<char>>,
    local: Map<Seq<char>, FileEntryV>,
    other: Map<Seq<char>, FileEntryV>,
    resolution: Resolution,
)
    ensures
        (exists|path: Seq<char>| #[trigger] conflicts_of(view).contains(path)) ==> snapshot_selected(
            view,
            previous,
            local,
            Resolution::Stop,
        ) is Err,
        (forall|path: Seq<char>| !#[trigger] conflicts_of(view).contains(path)) ==> snapshot_selected(
            view,
            previous,
            local,
            resolution,
        ) == snapshot_selected(view, earlier, other, Resolution::Stop),
{
    if forall|path: Seq<char>| !#[trigger] conflicts_of(view).contains(path) {
        assert(conflicts_of(view) =~= Set::<Seq<char>>::empty());
    }
}

/// What a working copy is to take over under a choice: the local files or
/// what arrived where there is a conflict, and what all versions have in common
/// where there is none.
pub open spec fn fits(
    view: ViewV,
    previous: Set<Seq<char>>,
    local: Map<Seq<char>, FileEntryV>,
    remote: bool,
    files: Map<Seq<char>, FileEntryV>,
) -> bool {
    &&& forall|path: Seq<char>| #[trigger] files.contains_key(path) ==> view.contains_key(path)
    &&& forall|path: Seq<char>, id: Seq<char>|
        view.contains_key(path) && !conflicts_of(view).contains(path) && #[trigger] view[path].contains_key(id) ==> has(
            files,
            path,
            view[path][id],
        )
    &&& forall|path: Seq<char>| #[trigger]
        conflicts_of(view).contains(path) ==> if remote {
            &&& forall|id: Seq<char>| #[trigger]
                view[path].contains_key(id) && !previous.contains(id) ==> has(files, path, view[path][id])
            &&& (forall|id: Seq<char>| #[trigger] view[path].contains_key(id) ==> previous.contains(id))
                ==> !files.contains_key(path)
        } else {
            &&& files.contains_key(path) <==> local.contains_key(path)
            &&& files.contains_key(path) ==> files[path] == local[path]
        }
}

/// Files that fit a choice, and are valid together, are what is taken over:
/// the choice succeeds.
pub proof fn choices_that_fit_succeed(
    view: ViewV,
    previous: Set<Seq<char>>,
    local: Map<Seq<char>, FileEntryV>,
    remote: bool,
    files: Map<Seq<char>, FileEntryV>,
)
    requires
        versioned(view),
        fits(view, previous, local, remote, files),
        snapshot_check(files) is Ok,
    ensures
        snapshot_selected(
            view,
            previous,
            local,
            if remote {
                Resolution::Remote
            } else {
                Resolution::Local
            },
        ) == Ok::<Map<Seq<char>, FileEntryV>, crate::error::ErrorV>(files),
{
    let resolution = if remote {
        Resolution::Remote
    } else {
        Resolution::Local
    };
    assert forall|path: Seq<char>| view.contains_key(path) implies has(
        files,
        path,
        #[trigger] taken(view, previous, local, resolution, path),
    ) && arrival_check(view, previous, resolution, path) is Ok by {
        let id = choose|id: Seq<char>| #[trigger] view[path].contains_key(id);
        if !conflicts_of(view).contains(path) {
            lemma_current(view, path, id);
        } else if remote {
            let fresh = arrivals(view[path], previous);
            assert(agreed(view[path], previous));
            if fresh == Set::<Seq<char>>::empty() {
                assert forall|a: Seq<char>| #[trigger] view[path].contains_key(a) implies previous.contains(a) by {
                    assert(!fresh.contains(a));
                }
            } else {
                lemma_first_arrival(view, previous, path);
                assert(view[path].contains_key(ordered(fresh)[0]));
            }
        }
    }
    assert(taken_files(view, previous, local, resolution) =~= files);
    let keys = keys_of(view);
    let check = |p: Seq<char>| arrival_check(view, previous, resolution, p);
    lemma_ordered(view.dom());
    lemma_first_problem(keys, check);
    assert forall|i: int| 0 <= i < keys.len() implies check(#[trigger] keys[i]) is Ok by {
        assert(keys.contains(keys[i]));
        assert(view.dom().contains(keys[i]));
        assert(has(files, keys[i], taken(view, previous, local, resolution, keys[i])));
    }
    if conflicts_of(view) == Set::<Seq<char>>::empty() {
        assert forall|path: Seq<char>| view.contains_key(path) implies #[trigger] current(view[path]) == taken(
            view,
            previous,
            local,
            resolution,
            path,
        ) by {
            assert(!conflicts_of(view).contains(path));
        }
        assert(settled(view) =~= files);
    }
}

/// Whatever is taken over is valid.
pub proof fn what_is_taken_over_is_valid(
    view: ViewV,
    previous: Set<Seq<char>>,
    local: Map<Seq<char>, FileEntryV>,
    resolution: Resolution,
)
    requires
        snapshot_selected(view, previous, local, resolution) is Ok,
    ensures
        snapshot_check(snapshot_selected(view, previous, local, resolution)->Ok_0) is Ok,
{
}

} // verus!
