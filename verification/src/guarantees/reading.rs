//! What is found in a working copy, and what is shown of history.
use vstd::prelude::*;

use crate::checkout::visited;
use crate::collections::{increasing, keys_of, lemma_ordered, ordered};
use crate::graphs::GraphV;
use crate::history::{compared_with, shown_edit, shown_edits, ShownV};
use crate::paths::below;
use crate::selection::{covers, selects, touches};
use crate::text::before;
use crate::transactions::EditV;

verus! {

// Selections

/// A path lies below a directory if it goes on after the directory's path and
/// a slash.
pub proof fn files_below_go_on_after_a_slash(path: Seq<char>, directory: Seq<char>)
    ensures
        below(path, directory) <==> exists|rest: Seq<char>| path == #[trigger] (directory + seq!['/'] + rest),
{
    if below(path, directory) {
        let rest = path.skip(directory.len() as int + 1);
        assert(path =~= directory + seq!['/'] + rest);
    }
    if exists|rest: Seq<char>| path == #[trigger] (directory + seq!['/'] + rest) {
        let rest = choose|rest: Seq<char>| path == #[trigger] (directory + seq!['/'] + rest);
        assert(path.take(directory.len() as int) =~= directory);
    }
}

/// A selection holds a path if it is empty, lists it, or lists a directory
/// that it lies below.
pub proof fn selections_hold_what_they_list(selection: Seq<Seq<char>>, path: Seq<char>)
    ensures
        selects(selection, path) <==> selection.len() == 0 || exists|i: int|
            0 <= i < selection.len() && (#[trigger] selection[i] == path || below(path, selection[i])),
{
}

/// Every file that a selection holds is reached: the file is looked at, and
/// every directory above it is entered, however deep they are. Only what is
/// named like a metadata directory is left out.
pub proof fn selected_files_are_reached(
    selection: Seq<Seq<char>>,
    path: Seq<char>,
    directory: Seq<char>,
    name: Option<Seq<char>>,
    depth: int,
)
    requires
        selection.len() == 0 || exists|i: int|
            0 <= i < selection.len() && (#[trigger] selection[i] == path || below(path, selection[i])),
        name != Some(".kelp"@),
        name != Some(".git"@),
    ensures
        visited(name, depth, Some(path), false, selection),
        visited(name, depth, Some(path), true, selection),
        below(path, directory) ==> visited(name, depth, Some(directory), true, selection),
{
    if selection.len() > 0 {
        let i = choose|i: int|
            0 <= i < selection.len() && (#[trigger] selection[i] == path || below(path, selection[i]));
        assert(covers(selection[i], path));
        let listed = selection[i];
        if !below(path, directory) {
        } else if listed == path {
            assert(covers(directory, listed));
        } else if listed.len() < directory.len() {
            assert(directory.take(listed.len() as int) =~= path.take(directory.len() as int).take(listed.len() as int));
            assert(path.take(directory.len() as int).take(listed.len() as int) =~= path.take(listed.len() as int));
            assert(path.take(directory.len() as int)[listed.len() as int] == path[listed.len() as int]);
            assert(below(directory, listed));
            assert(covers(selection[i], directory));
            assert(selects(selection, directory));
        } else if listed.len() > directory.len() {
            assert(listed.take(directory.len() as int) =~= path.take(listed.len() as int).take(directory.len() as int));
            assert(path.take(listed.len() as int).take(directory.len() as int) =~= path.take(directory.len() as int));
            assert(path.take(listed.len() as int)[directory.len() as int] == path[directory.len() as int]);
            assert(below(listed, directory));
            assert(covers(directory, selection[i]));
        } else {
            assert(listed =~= directory);
            assert(covers(directory, selection[i]));
        }
        assert(below(path, directory) ==> touches(selection, directory));
        assert(touches(selection, path));
    }
}

/// With an empty selection everything is reached, at any depth, even where its
/// path is not text. So is the root itself. A file at the top is reached if it
/// is listed.
pub proof fn everything_is_reached_without_a_selection(
    selection: Seq<Seq<char>>,
    name: Option<Seq<char>>,
    depth: int,
    path: Option<Seq<char>>,
    directory: bool,
)
    requires
        name != Some(".kelp"@),
        name != Some(".git"@),
    ensures
        selection.len() == 0 ==> visited(name, depth, path, directory, selection),
        visited(name, 0, path, directory, selection),
        path is Some && selection.contains(path->0) ==> visited(name, depth, path, directory, selection),
{
    if path is Some && selection.contains(path->0) {
        let i = choose|i: int| 0 <= i < selection.len() && selection[i] == path->0;
        assert(covers(selection[i], path->0));
    }
}

/// Metadata is never looked at. Below the root, nothing is looked at but what
/// the selection holds and the directories on the way there.
pub proof fn nothing_else_is_reached(
    selection: Seq<Seq<char>>,
    name: Option<Seq<char>>,
    depth: int,
    path: Option<Seq<char>>,
    directory: bool,
)
    requires
        visited(name, depth, path, directory, selection),
    ensures
        name != Some(".kelp"@),
        name != Some(".git"@),
        depth != 0 && selection.len() > 0 ==> path is Some && exists|i: int|
            0 <= i < selection.len() && {
                ||| #[trigger] selection[i] == path->0
                ||| below(path->0, selection[i])
                ||| directory && below(selection[i], path->0)
            },
{
    if depth != 0 && selection.len() > 0 {
        let path = path->0;
        if selects(selection, path) {
            let i = choose|i: int| 0 <= i < selection.len() && covers(#[trigger] selection[i], path);
            assert(selection[i] == path || below(path, selection[i]));
        } else {
            let i = choose|i: int| 0 <= i < selection.len() && covers(path, #[trigger] selection[i]);
            assert(selection[i] == path || below(selection[i], path));
        }
    }
}

// Showing a commit

/// The file that something shown is about.
pub open spec fn subject(shown: ShownV) -> Seq<char> {
    match shown {
        ShownV::Excluded { path } => path,
        ShownV::Compared { path, .. } => path,
    }
}

/// What is shown of one file.
pub open spec fn shown_of(list: Seq<ShownV>, path: Seq<char>) -> Seq<ShownV> {
    list.filter(|shown: ShownV| subject(shown) == path)
}

proof fn lemma_all_kept(list: Seq<ShownV>, path: Seq<char>)
    requires
        forall|i: int| 0 <= i < list.len() ==> subject(#[trigger] list[i]) == path,
    ensures
        shown_of(list, path) == list,
    decreases list.len(),
{
    reveal(Seq::filter);
    if list.len() > 0 {
        lemma_all_kept(list.drop_last(), path);
        assert(list =~= list.drop_last().push(list.last()));
    }
}

proof fn lemma_none_kept(list: Seq<ShownV>, path: Seq<char>)
    requires
        forall|i: int| 0 <= i < list.len() ==> subject(#[trigger] list[i]) != path,
    ensures
        shown_of(list, path) == Seq::<ShownV>::empty(),
    decreases list.len(),
{
    reveal(Seq::filter);
    if list.len() > 0 {
        lemma_none_kept(list.drop_last(), path);
    }
}

proof fn lemma_shown_of_edit(
    parents: GraphV,
    selection: Seq<Seq<char>>,
    key: Seq<char>,
    edit: EditV,
    path: Seq<char>,
)
    ensures
        shown_of(shown_edit(parents, selection, key, edit), path) == if key == path {
            shown_edit(parents, selection, key, edit)
        } else {
            Seq::<ShownV>::empty()
        },
{
    if key == path {
        lemma_all_kept(shown_edit(parents, selection, key, edit), path);
    } else {
        lemma_none_kept(shown_edit(parents, selection, key, edit), path);
    }
}

proof fn lemma_first_keys(keys: Seq<Seq<char>>, n: int, path: Seq<char>)
    requires
        increasing(keys),
        0 < n <= keys.len(),
    ensures
        keys.take(n).contains(path) <==> keys.take(n - 1).contains(path) || keys[n - 1] == path,
        keys[n - 1] == path ==> !keys.take(n - 1).contains(path),
{
    let whole = keys.take(n);
    let head = keys.take(n - 1);
    assert(whole[n - 1] == keys[n - 1]);
    if whole.contains(path) && keys[n - 1] != path {
        let i = choose|i: int| 0 <= i < whole.len() && whole[i] == path;
        assert(head[i] == path);
    }
    if head.contains(path) {
        let i = choose|i: int| 0 <= i < head.len() && head[i] == path;
        assert(whole[i] == path);
        assert(before(keys[i], keys[n - 1]));
        crate::text::lemma_before_irreflexive(path);
    }
}

proof fn lemma_shown_of_edits(
    parents: GraphV,
    selection: Seq<Seq<char>>,
    edits: Map<Seq<char>, EditV>,
    n: int,
    path: Seq<char>,
)
    requires
        edits.dom().finite(),
        0 <= n <= keys_of(edits).len(),
    ensures
        shown_of(shown_edits(parents, selection, edits, n), path) == if keys_of(edits).take(n).contains(path) {
            shown_edit(parents, selection, path, edits[path])
        } else {
            Seq::<ShownV>::empty()
        },
    decreases n,
{
    let keys = keys_of(edits);
    lemma_ordered(edits.dom());
    if n == 0 {
        reveal(Seq::filter);
    } else {
        let last = keys[n - 1];
        let before_it = shown_edits(parents, selection, edits, n - 1);
        let tail = shown_edit(parents, selection, last, edits[last]);
        lemma_shown_of_edits(parents, selection, edits, n - 1, path);
        lemma_shown_of_edit(parents, selection, last, edits[last], path);
        lemma_first_keys(keys, n, path);
        Seq::filter_distributes_over_add(before_it, tail, |shown: ShownV| subject(shown) == path);
        assert(shown_of(before_it + tail, path) == shown_of(before_it, path) + shown_of(tail, path));
        assert(Seq::<ShownV>::empty() + tail =~= tail);
        assert(shown_of(before_it, path) + Seq::<ShownV>::empty() =~= shown_of(before_it, path));
    }
}

/// Of a commit, every file that it edits is shown. A file outside the selection
/// is shown once, as left out. A file that is new is shown once, as it came,
/// with nothing before it. Any other file is shown once for each version
/// that it replaced, with what that version gave it before, and with what
/// the commit gave it after. The version is named where there are several.
/// Nothing else is shown.
pub proof fn commits_show_every_edit(
    parents: GraphV,
    selection: Seq<Seq<char>>,
    edits: Map<Seq<char>, EditV>,
    path: Seq<char>,
)
    requires
        edits.dom().finite(),
        edits.contains_key(path) ==> edits[path].parents.finite(),
    ensures
        ({
            let list = shown_of(shown_edits(parents, selection, edits, edits.dom().len() as int), path);
            let edit = edits[path];
            &&& !edits.contains_key(path) ==> list.len() == 0
            &&& edits.contains_key(path) && !selects(selection, path) ==> list.len() == 1 && list[0] == (
            ShownV::Excluded { path })
            &&& edits.contains_key(path) && selects(selection, path) && edit.parents.len() == 0 ==> list.len() == 1
                && list[0] == (ShownV::Compared { path, before: None, after: edit.value, against: None })
            &&& edits.contains_key(path) && selects(selection, path) && edit.parents.len() > 0 ==> {
                &&& list.len() == edit.parents.len()
                &&& forall|id: Seq<char>| #[trigger]
                    edit.parents.contains(id) ==> list.contains(
                        ShownV::Compared {
                            path,
                            before: if parents.contains_key(id) && parents[id].edits.contains_key(path) {
                                parents[id].edits[path].value
                            } else {
                                None
                            },
                            after: edit.value,
                            against: if edit.parents.len() == 1 {
                                None
                            } else {
                                Some(id)
                            },
                        },
                    )
            }
        }),
{
    let keys = keys_of(edits);
    lemma_ordered(edits.dom());
    let n = keys.len() as int;
    assert(n == edits.dom().len());
    lemma_shown_of_edits(parents, selection, edits, n, path);
    assert(keys.take(n) =~= keys);
    assert(keys.contains(path) <==> edits.dom().contains(path));
    if edits.contains_key(path) && selects(selection, path) {
        let edit = edits[path];
        let list = shown_edit(parents, selection, path, edit);
        let ids = ordered(edit.parents);
        lemma_ordered(edit.parents);
        if edit.parents.len() == 0 {
            assert(edit.parents =~= Set::<Seq<char>>::empty());
        } else {
            assert(edit.parents != Set::<Seq<char>>::empty());
            assert forall|id: Seq<char>| #[trigger] edit.parents.contains(id) implies list.contains(
                compared_with(parents, path, edit, id),
            ) by {
                assert(ids.contains(id));
                let i = choose|i: int| 0 <= i < ids.len() && ids[i] == id;
                assert(list[i] == compared_with(parents, path, edit, id));
            }
        }
    }
}

proof fn lemma_shown_in_order(
    parents: GraphV,
    selection: Seq<Seq<char>>,
    edits: Map<Seq<char>, EditV>,
    n: int,
)
    requires
        edits.dom().finite(),
        0 <= n <= keys_of(edits).len(),
    ensures
        ({
            let list = shown_edits(parents, selection, edits, n);
            &&& forall|i: int|
                0 <= i < list.len() ==> exists|k: int| 0 <= k < n && #[trigger] keys_of(edits)[k] == subject(#[trigger] list[i])
            &&& forall|i: int, j: int|
                0 <= i < j < list.len() ==> subject(#[trigger] list[i]) == subject(#[trigger] list[j]) || before(
                    subject(list[i]),
                    subject(list[j]),
                )
        }),
    decreases n,
{
    let keys = keys_of(edits);
    lemma_ordered(edits.dom());
    if n > 0 {
        let last = keys[n - 1];
        let earlier = shown_edits(parents, selection, edits, n - 1);
        let tail = shown_edit(parents, selection, last, edits[last]);
        let list = shown_edits(parents, selection, edits, n);
        lemma_shown_in_order(parents, selection, edits, n - 1);
        assert(list == earlier + tail);
        assert forall|i: int| 0 <= i < list.len() implies (i < earlier.len() ==> #[trigger] list[i] == earlier[i]) && (i
            >= earlier.len() ==> subject(list[i]) == last) by {
            if i >= earlier.len() {
                assert(list[i] == tail[i - earlier.len()]);
            }
        }
        assert forall|i: int| 0 <= i < list.len() implies exists|k: int|
            0 <= k < n && #[trigger] keys[k] == subject(#[trigger] list[i]) by {
            if i < earlier.len() {
                let k = choose|k: int| 0 <= k < n - 1 && #[trigger] keys[k] == subject(earlier[i]);
                assert(keys[k] == subject(list[i]));
            } else {
                assert(keys[n - 1] == subject(list[i]));
            }
        }
        assert forall|i: int, j: int| 0 <= i < j < list.len() implies subject(#[trigger] list[i]) == subject(
            #[trigger] list[j],
        ) || before(subject(list[i]), subject(list[j])) by {
            if i < earlier.len() && j >= earlier.len() {
                let k = choose|k: int| 0 <= k < n - 1 && #[trigger] keys[k] == subject(earlier[i]);
                assert(before(keys[k], keys[n - 1]));
            }
        }
    }
}

/// What is shown of a commit is in the order of the files' paths.
pub proof fn commits_are_shown_in_order(
    parents: GraphV,
    selection: Seq<Seq<char>>,
    edits: Map<Seq<char>, EditV>,
    i: int,
    j: int,
)
    requires
        edits.dom().finite(),
        0 <= i < j < shown_edits(parents, selection, edits, edits.dom().len() as int).len(),
    ensures
        ({
            let list = shown_edits(parents, selection, edits, edits.dom().len() as int);
            subject(list[i]) == subject(list[j]) || before(subject(list[i]), subject(list[j]))
        }),
{
    lemma_ordered(edits.dom());
    lemma_shown_in_order(parents, selection, edits, edits.dom().len() as int);
}

} // verus!
