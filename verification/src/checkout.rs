//! Reading the files of a working copy and writing a snapshot into it: which
//! files are looked at, in what batches, and what has to be done.
use vstd::prelude::*;
use vstd::string::*;
use vstd::view::View as _;

use crate::collections::{keys_of, lists, TextSet, Value};
use crate::objects::{FileEntryV, Snapshot};
use crate::paths::{ancestors, parents_of};
use crate::selection::{includes, intersects, selects, touches};
use crate::text::{same_text, texts};
use crate::views::file_at;

verus! {

// Reading

/// How many files are read at once.
pub const BATCH_FILES: usize = 16;

/// How many bytes are read at once: 32 MiB
pub const BATCH_BYTES: u64 = 33_554_432;

/// Whether a directory entry is looked at. Metadata directories never are;
/// otherwise directories are entered where something in them is selected.
pub open spec fn visited(
    name: Option<Seq<char>>,
    depth: int,
    path: Option<Seq<char>>,
    directory: bool,
    selection: Seq<Seq<char>>,
) -> bool {
    if name == Some(".kelp"@) || name == Some(".git"@) {
        false
    } else if depth == 0 || selection.len() == 0 {
        true
    } else {
        match path {
            None => false,
            Some(path) => if directory {
                touches(selection, path)
            } else {
                selects(selection, path)
            },
        }
    }
}

/// Whether to look at a directory entry. The name and the path are missing
/// where they are not text.
pub fn visits(name: Option<&str>, depth: usize, path: Option<&str>, directory: bool, selection: &[String]) -> (result:
    bool)
    ensures
        result == visited(
            match name {
                Some(text) => Some(text@),
                None => None,
            },
            depth as int,
            match path {
                Some(text) => Some(text@),
                None => None,
            },
            directory,
            texts(selection@),
        ),
{
    if let Some(text) = name {
        if same_text(text, ".kelp") || same_text(text, ".git") {
            return false;
        }
    }
    if depth == 0 || selection.len() == 0 {
        return true;
    }
    match path {
        None => false,
        Some(path) => {
            if directory {
                intersects(selection, path)
            } else {
                includes(selection, path)
            }
        },
    }
}

/// The files to look at: those found, and those that were there before, as far
/// as they are selected.
pub fn scan_paths(
    found: &TextSet,
    tracked_files: &TextSet,
    baseline: &Snapshot,
    last: &Snapshot,
    selection: &[String],
) -> (paths: TextSet)
    ensures
        paths@ == found@.union(tracked_files@).union(baseline@.dom()).union(last@.dom()).filter(
            |path: Seq<char>| selects(texts(selection@), path),
        ),
{
    let mut all = found.clone();
    all.extend(tracked_files);
    all.extend(&baseline.files.keys());
    all.extend(&last.files.keys());
    crate::workspace::select_texts(&all, selection)
}

/// The end of the batch that has reached `end` with `total` bytes.
pub open spec fn batch_from(sizes: Seq<u64>, offset: int, end: int, total: int) -> int
    decreases sizes.len() - end,
{
    if end >= sizes.len() || end - offset >= BATCH_FILES {
        end
    } else if end > offset && total + sizes[end] > BATCH_BYTES {
        end
    } else {
        batch_from(sizes, offset, end + 1, total + sizes[end])
    }
}

/// The end of the batch that begins at `offset`: up to sixteen files, and no
/// more bytes than the limit unless the first file alone exceeds it.
pub fn batch_end(sizes: &[u64], offset: usize) -> (end: usize)
    requires
        offset <= sizes@.len(),
    ensures
        end == batch_from(sizes@, offset as int, offset as int, 0),
        offset <= end <= sizes@.len(),
        end <= offset + BATCH_FILES,
        offset < sizes@.len() ==> offset < end,
{
    let mut end: usize = offset;
    let mut total: u64 = 0;
    let mut over = false;
    let ghost mut sum: int = 0;
    assert(sizes@.len() == sizes.len());
    while end < sizes.len() && end - offset < BATCH_FILES
        invariant
            offset <= end <= sizes@.len(),
            end <= offset + BATCH_FILES,
            sizes@.len() == sizes.len(),
            batch_from(sizes@, offset as int, offset as int, 0) == batch_from(sizes@, offset as int, end as int, sum),
            !over ==> total == sum && sum <= BATCH_BYTES,
            over ==> sum > BATCH_BYTES,
        decreases sizes@.len() - end,
    {
        let bytes: u64 = sizes[end];
        if end > offset && (over || bytes > BATCH_BYTES - total) {
            return end;
        }
        if over || bytes > BATCH_BYTES - total {
            over = true;
        } else {
            total = total + bytes;
        }
        proof {
            sum = sum + bytes;
        }
        end += 1;
    }
    end
}

// Writing

/// The files that a target lacks.
pub fn removals(current: &Snapshot, target: &Snapshot) -> (paths: TextSet)
    ensures
        paths@ == current@.dom().difference(target@.dom()),
{
    current.files.keys().difference(&target.files.keys())
}

/// The files of a target that are not there yet as they should be.
pub open spec fn outdated(
    current: Map<Seq<char>, FileEntryV>,
    target: Map<Seq<char>, FileEntryV>,
) -> Set<Seq<char>> {
    Set::new(|path: Seq<char>| target.contains_key(path) && file_at(current, path) != Some(target[path]))
}

/// The files of a target that have to be written.
pub fn writes(current: &Snapshot, target: &Snapshot) -> (paths: TextSet)
    ensures
        paths@ == outdated(current@, target@),
{
    let mut paths = TextSet::new();
    let n = target.files.len();
    let ghost keys = keys_of(target@);
    let ghost goal = outdated(current@, target@);
    let mut i: usize = 0;
    assert(paths@ =~= goal.intersect(keys.take(0).to_set()));
    while i < n
        invariant
            i <= n,
            n == target@.dom().len(),
            n == keys.len(),
            keys == keys_of(target@),
            lists(keys, target@.dom()),
            goal == outdated(current@, target@),
            paths@ == goal.intersect(keys.take(i as int).to_set()),
        decreases n - i,
    {
        let path = target.files.key_at(i);
        let entry = target.files.value_at(i);
        proof {
            assert(keys.take(i + 1) =~= keys.take(i as int).push(path@));
            assert forall|k: Seq<char>| keys.take(i + 1).to_set().contains(k) <==> keys.take(
                i as int,
            ).to_set().contains(k) || k == path@ by {
                crate::collections::lemma_push_contains(keys.take(i as int), path@, k);
            }
        }
        let there = match current.files.get(path.as_str()) {
            Some(old_entry) => old_entry.same(entry),
            None => false,
        };
        if !there {
            paths.insert(path.clone());
        }
        assert(paths@ =~= goal.intersect(keys.take(i + 1).to_set()));
        i += 1;
    }
    proof {
        assert(keys.take(n as int) =~= keys);
        assert(goal.intersect(keys.to_set()) =~= goal) by {
            assert forall|k: Seq<char>| goal.contains(k) implies keys.to_set().contains(k) by {
                assert(target@.dom().contains(k));
            }
        }
    }
    paths
}

/// Removing and writing what has to be removed and written leads to the target.
pub proof fn updates_reach_the_target(current: Map<Seq<char>, FileEntryV>, target: Map<Seq<char>, FileEntryV>)
    ensures
        current.remove_keys(current.dom().difference(target.dom())).union_prefer_right(
            target.restrict(outdated(current, target)),
        ) == target,
{
    assert(current.remove_keys(current.dom().difference(target.dom())).union_prefer_right(
        target.restrict(outdated(current, target)),
    ) =~= target);
}

/// The directories above the files of a snapshot.
pub open spec fn directories_of(files: Map<Seq<char>, FileEntryV>) -> Set<Seq<char>> {
    Set::new(
        |directory: Seq<char>|
            exists|path: Seq<char>| #[trigger] files.contains_key(path) && ancestors(path).contains(directory),
    )
}

/// The directories that a snapshot needs. In their order every directory comes
/// after the one that holds it.
pub fn directories(snapshot: &Snapshot) -> (result: TextSet)
    ensures
        result@ == directories_of(snapshot@),
{
    let mut result = TextSet::new();
    let n = snapshot.files.len();
    let ghost keys = keys_of(snapshot@);
    let mut i: usize = 0;
    while i < n
        invariant
            i <= n,
            n == snapshot@.dom().len(),
            n == keys.len(),
            keys == keys_of(snapshot@),
            lists(keys, snapshot@.dom()),
            forall|d: Seq<char>| #[trigger]
                result@.contains(d) <==> exists|j: int| 0 <= j < i && ancestors(#[trigger] keys[j]).contains(d),
        decreases n - i,
    {
        let ghost so_far = result@;
        let parents = parents_of(snapshot.files.key_at(i).as_str());
        let ghost list = ancestors(keys[i as int]);
        let mut k: usize = 0;
        while k < parents.len()
            invariant
                k <= parents@.len(),
                texts(parents@) == list,
                forall|d: Seq<char>| #[trigger]
                    result@.contains(d) <==> so_far.contains(d) || list.take(k as int).contains(d),
            decreases parents@.len() - k,
        {
            let ghost before_insert = result@;
            assert(list[k as int] == parents@[k as int]@);
            result.insert(parents[k].clone());
            proof {
                assert(list.take(k + 1) =~= list.take(k as int).push(list[k as int]));
                assert forall|d: Seq<char>| #[trigger]
                    result@.contains(d) <==> so_far.contains(d) || list.take(k + 1).contains(d) by {
                    crate::collections::lemma_push_contains(list.take(k as int), list[k as int], d);
                    assert(before_insert.contains(d) <==> so_far.contains(d) || list.take(k as int).contains(d));
                }
            }
            k += 1;
        }
        proof {
            assert(list.take(list.len() as int) =~= list);
            assert forall|d: Seq<char>| #[trigger]
                result@.contains(d) <==> exists|j: int| 0 <= j < i + 1 && ancestors(#[trigger] keys[j]).contains(d) by {
                if so_far.contains(d) {
                    let j = choose|j: int| 0 <= j < i && ancestors(#[trigger] keys[j]).contains(d);
                    assert(0 <= j < i + 1);
                }
                if list.contains(d) {
                    assert(ancestors(keys[i as int]).contains(d));
                }
                if exists|j: int| 0 <= j < i + 1 && ancestors(#[trigger] keys[j]).contains(d) {
                    let j = choose|j: int| 0 <= j < i + 1 && ancestors(#[trigger] keys[j]).contains(d);
                    if j < i {
                        assert(so_far.contains(d));
                    }
                }
            }
        }
        i += 1;
    }
    proof {
        assert forall|d: Seq<char>| result@.contains(d) <==> directories_of(snapshot@).contains(d) by {
            if result@.contains(d) {
                let j = choose|j: int| 0 <= j < n && ancestors(#[trigger] keys[j]).contains(d);
                assert(keys.contains(keys[j]));
                assert(snapshot@.dom().contains(keys[j]));
                assert(snapshot@.contains_key(keys[j]));
            }
            if directories_of(snapshot@).contains(d) {
                let path = choose|path: Seq<char>| #[trigger]
                    snapshot@.contains_key(path) && ancestors(path).contains(d);
                assert(snapshot@.dom().contains(path));
                let j = choose|j: int| 0 <= j < keys.len() && keys[j] == path;
                assert(ancestors(keys[j]).contains(d));
            }
        }
        assert(result@ =~= directories_of(snapshot@));
    }
    result
}

} // verus!
