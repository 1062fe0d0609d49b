//! What a set of transactions makes of each file: its current versions, of
//! which several may be concurrent.
use vstd::prelude::*;
use vstd::string::*;
use vstd::view::View as _;

use crate::collections::{keys_of, lists, ordered, TextMap, TextSet, Value};
use crate::error::{about, outcome, Error, ErrorV, Problem};
use crate::objects::{snapshot_check, FileEntry, FileEntryV, Snapshot};
use crate::paths::{ancestors, below, parents_of};
use crate::text::{join, texts};
use crate::transactions::{transaction_check, Edit, EditV, Transaction, TransactionV};

verus! {

/// The versions of a file that no later one replaced, by the transaction that
/// wrote them. `None` is a deletion.
pub type FileHeads = TextMap<Option<FileEntry>>;

/// The mathematical value of `FileHeads`.
pub type HeadsV = Map<Seq<char>, Option<FileEntryV>>;

/// The mathematical value of a `View`.
pub type ViewV = Map<Seq<char>, Map<Seq<char>, Option<FileEntryV>>>;

/// The current versions of every file that was ever written.
#[derive(Debug)]
pub struct View {
    pub files: TextMap<FileHeads>,
}

impl vstd::view::View for View {
    type V = ViewV;

    open spec fn view(&self) -> ViewV {
        self.files@
    }
}

impl DeepView for View {
    type V = ViewV;

    open spec fn deep_view(&self) -> ViewV {
        self.files@
    }
}

impl Clone for View {
    fn clone(&self) -> (result: Self)
        ensures
            result@ == self@,
    {
        View { files: self.files.copied() }
    }
}

impl PartialEq for View {
    fn eq(&self, other: &View) -> (result: bool) {
        self.files.same(&other.files)
    }
}

impl vstd::std_specs::cmp::PartialEqSpecImpl for View {
    open spec fn obeys_eq_spec() -> bool {
        true
    }

    open spec fn eq_spec(&self, other: &View) -> bool {
        self@ == other@
    }
}

impl Default for View {
    fn default() -> (view: View)
        ensures
            view@ == Map::<Seq<char>, HeadsV>::empty(),
    {
        View { files: TextMap::new() }
    }
}

// Applying transactions

/// The versions of a file; none where it was never written.
pub open spec fn heads_of(view: ViewV, path: Seq<char>) -> HeadsV {
    if view.contains_key(path) {
        view[path]
    } else {
        Map::empty()
    }
}

/// The versions of a file after an edit: its parents give way to it.
pub open spec fn edited(heads: HeadsV, id: Seq<char>, edit: EditV) -> HeadsV {
    heads.remove_keys(edit.parents).insert(id, edit.value)
}

/// A view after the edits of one more transaction.
pub open spec fn applied(view: ViewV, id: Seq<char>, edits: Map<Seq<char>, EditV>) -> ViewV {
    Map::new(
        |path: Seq<char>| view.contains_key(path) || edits.contains_key(path),
        |path: Seq<char>|
            if edits.contains_key(path) {
                edited(heads_of(view, path), id, edits[path])
            } else {
                view[path]
            },
    )
}

pub(crate) fn drop_heads(heads: &mut FileHeads, ids: &TextSet)
    ensures
        final(heads)@ == old(heads)@.remove_keys(ids@),
{
    let n = ids.len();
    let mut i: usize = 0;
    let ghost list = ordered(ids@);
    while i < n
        invariant
            i <= n,
            n == ids@.len(),
            n == list.len(),
            list == ordered(ids@),
            lists(list, ids@),
            forall|k: Seq<char>|
                #[trigger] heads@.contains_key(k) <==> old(heads)@.contains_key(k) && !list.take(i as int).contains(
                    k,
                ),
            forall|k: Seq<char>| #[trigger] heads@.contains_key(k) ==> heads@[k] == old(heads)@[k],
        decreases n - i,
    {
        let ghost so_far = heads@;
        heads.remove(ids.at(i).as_str());
        proof {
            assert(list.take(i + 1) =~= list.take(i as int).push(list[i as int]));
            assert forall|k: Seq<char>|
                #[trigger] heads@.contains_key(k) <==> old(heads)@.contains_key(k) && !list.take(
                    i + 1,
                ).contains(k) by {
                crate::collections::lemma_push_contains(list.take(i as int), list[i as int], k);
                assert(so_far.contains_key(k) <==> old(heads)@.contains_key(k) && !list.take(i as int).contains(k));
            }
            assert forall|k: Seq<char>| #[trigger] heads@.contains_key(k) implies heads@[k] == old(heads)@[k] by {
                assert(so_far.contains_key(k));
            }
        }
        i += 1;
    }
    proof {
        assert(list.take(n as int) =~= list);
        assert forall|k: Seq<char>| heads@.contains_key(k) <==> old(heads)@.remove_keys(ids@).contains_key(k) by {
            assert(ids@.contains(k) <==> list.contains(k));
        }
        assert(heads@ =~= old(heads)@.remove_keys(ids@));
    }
}

impl View {
    /// Take up a transaction whose dependencies were validated and applied. A
    /// replaced version stays absent even when a concurrent sibling of its
    /// successor arrives later.
    pub fn apply(&mut self, id: &str, transaction: &Transaction)
        ensures
            final(self)@ == applied(old(self)@, id@, transaction@.edits),
    {
        let n = transaction.edits.len();
        let mut i: usize = 0;
        let ghost edits = transaction.edits@;
        let ghost keys = keys_of(edits);
        let ghost start = self@;
        while i < n
            invariant
                i <= n,
                n == edits.dom().len(),
                n == keys.len(),
                edits == transaction.edits@,
                keys == keys_of(edits),
                lists(keys, edits.dom()),
                forall|path: Seq<char>|
                    #[trigger] self@.contains_key(path) <==> start.contains_key(path) || keys.take(
                        i as int,
                    ).contains(path),
                forall|path: Seq<char>| #[trigger]
                    self@.contains_key(path) ==> self@[path] == (if keys.take(i as int).contains(path) {
                        edited(heads_of(start, path), id@, edits[path])
                    } else {
                        start[path]
                    }),
            decreases n - i,
        {
            let ghost so_far = self@;
            let path = transaction.edits.key_at(i);
            let edit = transaction.edits.value_at(i);
            let mut heads = match self.files.remove(path.as_str()) {
                Some(heads) => heads,
                None => TextMap::new(),
            };
            proof {
                assert(!keys.take(i as int).contains(path@)) by {
                    if keys.take(i as int).contains(path@) {
                        let j = choose|j: int| 0 <= j < i && keys.take(i as int)[j] == path@;
                        assert(keys[j] == path@);
                        crate::text::lemma_before_irreflexive(path@);
                        assert(crate::text::before(keys[j], keys[i as int]));
                    }
                }
                assert(so_far.contains_key(path@) <==> start.contains_key(path@));
                assert(heads@ =~= heads_of(start, path@));
            }
            drop_heads(&mut heads, &edit.parents);
            heads.insert(id.to_owned(), edit.value.copied());
            assert(heads@ == edited(heads_of(start, path@), id@, edits[path@]));
            self.files.insert(path.clone(), heads);
            proof {
                assert(keys.take(i + 1) =~= keys.take(i as int).push(path@));
                assert forall|k: Seq<char>|
                    #[trigger] self@.contains_key(k) <==> start.contains_key(k) || keys.take(i + 1).contains(k) by {
                    crate::collections::lemma_push_contains(keys.take(i as int), path@, k);
                    assert(so_far.contains_key(k) <==> start.contains_key(k) || keys.take(i as int).contains(k));
                }
                assert forall|k: Seq<char>| #[trigger]
                    self@.contains_key(k) implies self@[k] == (if keys.take(i + 1).contains(k) {
                    edited(heads_of(start, k), id@, edits[k])
                } else {
                    start[k]
                }) by {
                    crate::collections::lemma_push_contains(keys.take(i as int), path@, k);
                    if k != path@ {
                        assert(so_far.contains_key(k));
                    }
                }
            }
            i += 1;
        }
        proof {
            assert(keys.take(n as int) =~= keys);
            assert forall|k: Seq<char>| keys.contains(k) <==> edits.contains_key(k) by {
                assert(edits.dom().contains(k) <==> keys.contains(k));
            }
            assert(self@ =~= applied(start, id@, edits));
        }
    }
}

// Conflicts

/// Some version of the file has content.
pub open spec fn live(heads: HeadsV) -> bool {
    exists|id: Seq<char>| #[trigger] heads.contains_key(id) && heads[id] is Some
}

/// Two versions of the file differ.
pub open spec fn disputed(heads: HeadsV) -> bool {
    exists|a: Seq<char>, b: Seq<char>|
        #![trigger heads.contains_key(a), heads.contains_key(b)]
        heads.contains_key(a) && heads.contains_key(b) && heads[a] != heads[b]
}

/// The view holds a file at `path` that has content.
pub open spec fn live_at(view: ViewV, path: Seq<char>) -> bool {
    view.contains_key(path) && live(view[path])
}

/// The file has differing versions, or it has content and stands above or
/// below another file that has content.
pub open spec fn conflicted(view: ViewV, path: Seq<char>) -> bool {
    &&& view.contains_key(path)
    &&& {
        ||| disputed(view[path])
        ||| live_at(view, path) && exists|other: Seq<char>| #[trigger]
            live_at(view, other) && (below(path, other) || below(other, path))
    }
}

/// The files that need a decision.
pub open spec fn conflicts_of(view: ViewV) -> Set<Seq<char>> {
    Set::new(|path: Seq<char>| conflicted(view, path))
}

/// What a file with content and the files above it contribute.
spec fn collisions(view: ViewV, path: Seq<char>) -> Set<Seq<char>> {
    Set::new(
        |p: Seq<char>|
            exists|other: Seq<char>| #[trigger]
                live_at(view, other) && below(path, other) && (p == other || p == path),
    )
}

/// What one file contributes to the conflicts.
spec fn found_at(view: ViewV, path: Seq<char>, p: Seq<char>) -> bool {
    ||| p == path && disputed(view[path])
    ||| live(view[path]) && collisions(view, path).contains(p)
}

fn is_live(heads: &FileHeads) -> (result: bool)
    ensures
        result == live(heads@),
{
    let n = heads.len();
    let mut i: usize = 0;
    let ghost keys = keys_of(heads@);
    while i < n
        invariant
            i <= n,
            n == heads@.dom().len(),
            n == keys.len(),
            keys == keys_of(heads@),
            lists(keys, heads@.dom()),
            forall|j: int| 0 <= j < i ==> heads@[#[trigger] keys[j]] is None,
        decreases n - i,
    {
        let value = heads.value_at(i);
        if value.is_some() {
            assert(heads@.contains_key(keys[i as int]) && heads@[keys[i as int]] is Some);
            return true;
        }
        i += 1;
    }
    proof {
        if live(heads@) {
            let id = choose|id: Seq<char>| #[trigger] heads@.contains_key(id) && heads@[id] is Some;
            assert(heads@.dom().contains(id));
            let j = choose|j: int| 0 <= j < keys.len() && keys[j] == id;
            assert(heads@[keys[j]] is None);
        }
    }
    false
}

fn is_disputed(heads: &FileHeads) -> (result: bool)
    ensures
        result == disputed(heads@),
{
    let n = heads.len();
    if n == 0 {
        assert(heads@.dom() =~= Set::<Seq<char>>::empty());
        return false;
    }
    let ghost keys = keys_of(heads@);
    let first = heads.value_at(0);
    let mut i: usize = 0;
    while i < n
        invariant
            i <= n,
            n > 0,
            n == heads@.dom().len(),
            n == keys.len(),
            keys == keys_of(heads@),
            lists(keys, heads@.dom()),
            first.deep_view() == heads@[keys[0]],
            forall|j: int| 0 <= j < i ==> heads@[#[trigger] keys[j]] == heads@[keys[0]],
        decreases n - i,
    {
        let value = heads.value_at(i);
        if !value.same(first) {
            proof {
                assert(keys.contains(keys[0]));
                assert(heads@.dom().contains(keys[0]));
                assert(heads@.contains_key(keys[0]) && heads@.contains_key(keys[i as int]));
            }
            return true;
        }
        i += 1;
    }
    proof {
        if disputed(heads@) {
            let (a, b) = choose|a: Seq<char>, b: Seq<char>|
                #![trigger heads@.contains_key(a), heads@.contains_key(b)]
                heads@.contains_key(a) && heads@.contains_key(b) && heads@[a] != heads@[b];
            assert(heads@.dom().contains(a) && heads@.dom().contains(b));
            let x = choose|j: int| 0 <= j < keys.len() && keys[j] == a;
            let y = choose|j: int| 0 <= j < keys.len() && keys[j] == b;
            assert(heads@[keys[x]] == heads@[keys[y]]);
        }
    }
    false
}

impl View {
    fn note_collisions(&self, path: &str, conflicts: &mut TextSet)
        ensures
            final(conflicts)@ == old(conflicts)@.union(collisions(self@, path@)),
    {
        let parents = parents_of(path);
        let ghost list = ancestors(path@);
        let ghost start = conflicts@;
        let mut i: usize = 0;
        while i < parents.len()
            invariant
                i <= parents@.len(),
                texts(parents@) == list,
                forall|p: Seq<char>| #[trigger]
                    conflicts@.contains(p) <==> start.contains(p) || exists|j: int|
                        0 <= j < i && live_at(self@, #[trigger] list[j]) && (p == list[j] || p == path@),
            decreases parents@.len() - i,
        {
            let ghost so_far = conflicts@;
            let parent = &parents[i];
            assert(parent@ == list[i as int]);
            let collides = match self.files.get(parent.as_str()) {
                Some(heads) => is_live(heads),
                None => false,
            };
            if collides {
                conflicts.insert(parent.clone());
                conflicts.insert(path.to_owned());
            }
            proof {
                assert forall|p: Seq<char>| #[trigger]
                    conflicts@.contains(p) <==> start.contains(p) || exists|j: int|
                        0 <= j < i + 1 && live_at(self@, #[trigger] list[j]) && (p == list[j] || p == path@) by {
                    if conflicts@.contains(p) {
                        if so_far.contains(p) {
                            if !start.contains(p) {
                                let j = choose|j: int|
                                    0 <= j < i && live_at(self@, #[trigger] list[j]) && (p == list[j] || p == path@);
                                assert(0 <= j < i + 1);
                            }
                        } else {
                            assert(live_at(self@, list[i as int]));
                        }
                    }
                    if exists|j: int|
                        0 <= j < i + 1 && live_at(self@, #[trigger] list[j]) && (p == list[j] || p == path@) {
                        let j = choose|j: int|
                            0 <= j < i + 1 && live_at(self@, #[trigger] list[j]) && (p == list[j] || p == path@);
                        if j < i {
                            assert(so_far.contains(p));
                        }
                    }
                }
            }
            i += 1;
        }
        proof {
            assert forall|p: Seq<char>| conflicts@.contains(p) <==> start.union(collisions(self@, path@)).contains(p) by {
                if conflicts@.contains(p) && !start.contains(p) {
                    let j = choose|j: int|
                        0 <= j < list.len() && live_at(self@, #[trigger] list[j]) && (p == list[j] || p == path@);
                    assert(list.contains(list[j]));
                    crate::paths::ancestors_hold_the_path(path@, list[j]);
                    assert(live_at(self@, list[j]));
                }
                if collisions(self@, path@).contains(p) {
                    let other = choose|other: Seq<char>| #[trigger]
                        live_at(self@, other) && below(path@, other) && (p == other || p == path@);
                    crate::paths::ancestors_hold_the_path(path@, other);
                    let j = choose|j: int| 0 <= j < list.len() && list[j] == other;
                    assert(live_at(self@, list[j]));
                }
            }
            assert(conflicts@ =~= start.union(collisions(self@, path@)));
        }
    }

    /// The files that need a decision.
    pub fn conflicts(&self) -> (result: TextSet)
        ensures
            result@ == conflicts_of(self@),
    {
        let mut result = TextSet::new();
        let n = self.files.len();
        let mut i: usize = 0;
        let ghost keys = keys_of(self@);
        while i < n
            invariant
                i <= n,
                n == self@.dom().len(),
                n == keys.len(),
                keys == keys_of(self@),
                lists(keys, self@.dom()),
                forall|p: Seq<char>| #[trigger]
                    result@.contains(p) <==> exists|j: int| 0 <= j < i && found_at(self@, #[trigger] keys[j], p),
            decreases n - i,
        {
            let ghost so_far = result@;
            let path = self.files.key_at(i);
            let heads = self.files.value_at(i);
            if is_disputed(heads) {
                result.insert(path.clone());
            }
            if is_live(heads) {
                self.note_collisions(path.as_str(), &mut result);
            }
            proof {
                assert forall|p: Seq<char>| #[trigger]
                    result@.contains(p) <==> exists|j: int| 0 <= j < i + 1 && found_at(self@, #[trigger] keys[j], p) by {
                    assert(result@.contains(p) <==> so_far.contains(p) || found_at(self@, keys[i as int], p));
                    if so_far.contains(p) {
                        let j = choose|j: int| 0 <= j < i && found_at(self@, #[trigger] keys[j], p);
                        assert(0 <= j < i + 1);
                    }
                    if exists|j: int| 0 <= j < i + 1 && found_at(self@, #[trigger] keys[j], p) {
                        let j = choose|j: int| 0 <= j < i + 1 && found_at(self@, #[trigger] keys[j], p);
                        if j < i {
                            assert(so_far.contains(p));
                        }
                    }
                }
            }
            i += 1;
        }
        proof {
            assert forall|p: Seq<char>| result@.contains(p) <==> conflicts_of(self@).contains(p) by {
                if result@.contains(p) {
                    let j = choose|j: int| 0 <= j < n && found_at(self@, #[trigger] keys[j], p);
                    assert(keys.contains(keys[j]));
                    assert(self@.dom().contains(keys[j]));
                    if !(p == keys[j] && disputed(self@[keys[j]])) {
                        let other = choose|other: Seq<char>| #[trigger]
                            live_at(self@, other) && below(keys[j], other) && (p == other || p == keys[j]);
                        assert(live_at(self@, keys[j]));
                    }
                }
                if conflicted(self@, p) {
                    assert(self@.dom().contains(p));
                    let at = choose|j: int| 0 <= j < keys.len() && keys[j] == p;
                    if disputed(self@[p]) {
                        assert(found_at(self@, keys[at], p));
                    } else {
                        let other = choose|other: Seq<char>| #[trigger]
                            live_at(self@, other) && (below(p, other) || below(other, p));
                        if below(p, other) {
                            assert(collisions(self@, p).contains(p));
                            assert(found_at(self@, keys[at], p));
                        } else {
                            assert(self@.dom().contains(other));
                            let from = choose|j: int| 0 <= j < keys.len() && keys[j] == other;
                            assert(live_at(self@, p));
                            assert(collisions(self@, other).contains(p));
                            assert(found_at(self@, keys[from], p));
                        }
                    }
                }
            }
            assert(result@ =~= conflicts_of(self@));
        }
        result
    }
}

// Snapshots

/// The value of the first version of a file.
pub open spec fn current(heads: HeadsV) -> Option<FileEntryV> {
    if heads.dom() == Set::<Seq<char>>::empty() {
        None
    } else {
        heads[keys_of(heads)[0]]
    }
}

/// The files that have content, by their first versions.
pub open spec fn settled(view: ViewV) -> Map<Seq<char>, FileEntryV> {
    Map::new(
        |path: Seq<char>| view.contains_key(path) && current(view[path]) is Some,
        |path: Seq<char>| current(view[path])->0,
    )
}

/// The snapshot that a view amounts to, where nothing needs a decision.
pub open spec fn view_snapshot(view: ViewV) -> Result<Map<Seq<char>, FileEntryV>, ErrorV> {
    if conflicts_of(view) != Set::<Seq<char>>::empty() {
        Err(about(Problem::ConflictingFiles, join(ordered(conflicts_of(view)), ", "@)))
    } else {
        match snapshot_check(settled(view)) {
            Err(error) => Err(error),
            Ok(()) => Ok(settled(view)),
        }
    }
}

pub(crate) fn current_of(heads: &FileHeads) -> (result: Option<&FileEntry>)
    ensures
        match result {
            Some(entry) => current(heads@) == Some(entry@),
            None => current(heads@) is None,
        },
{
    if heads.is_empty() {
        return None;
    }
    let n = heads.len();
    assert(n > 0) by {
        if n == 0 {
            assert(heads@.dom() =~= Set::<Seq<char>>::empty());
        }
    }
    match heads.value_at(0) {
        Some(entry) => Some(entry),
        None => None,
    }
}

impl View {
    /// The files as they are, where nothing needs a decision.
    pub fn snapshot(&self) -> (result: Result<Snapshot, Error>)
        ensures
            outcome(result) == view_snapshot(self@),
    {
        let conflicts = self.conflicts();
        if !conflicts.is_empty() {
            let names = conflicts.to_vec();
            return Err(
                Error::about(Problem::ConflictingFiles, crate::text::join_texts(names.as_slice(), ", ")),
            );
        }
        let mut files: TextMap<FileEntry> = TextMap::new();
        let n = self.files.len();
        let mut i: usize = 0;
        let ghost keys = keys_of(self@);
        while i < n
            invariant
                i <= n,
                n == self@.dom().len(),
                n == keys.len(),
                keys == keys_of(self@),
                lists(keys, self@.dom()),
                forall|p: Seq<char>| #[trigger]
                    files@.contains_key(p) <==> keys.take(i as int).contains(p) && current(self@[p]) is Some,
                forall|p: Seq<char>| #[trigger] files@.contains_key(p) ==> files@[p] == current(self@[p])->0,
            decreases n - i,
        {
            let ghost so_far = files@;
            let path = self.files.key_at(i);
            if let Some(entry) = current_of(self.files.value_at(i)) {
                files.insert(path.clone(), entry.clone());
            }
            proof {
                assert(keys.take(i + 1) =~= keys.take(i as int).push(path@));
                assert forall|p: Seq<char>| #[trigger]
                    files@.contains_key(p) <==> keys.take(i + 1).contains(p) && current(self@[p]) is Some by {
                    crate::collections::lemma_push_contains(keys.take(i as int), path@, p);
                    assert(so_far.contains_key(p) <==> keys.take(i as int).contains(p) && current(self@[p]) is Some);
                }
                assert forall|p: Seq<char>| #[trigger] files@.contains_key(p) implies files@[p] == current(
                    self@[p],
                )->0 by {
                    if p != path@ {
                        assert(so_far.contains_key(p));
                    } else if so_far.contains_key(p) {
                        assert(so_far[p] == current(self@[p])->0);
                    }
                }
            }
            i += 1;
        }
        proof {
            assert(keys.take(n as int) =~= keys);
            assert forall|p: Seq<char>| keys.contains(p) <==> self@.contains_key(p) by {
                assert(self@.dom().contains(p) <==> keys.contains(p));
            }
            assert(files@ =~= settled(self@));
        }
        let snapshot = Snapshot { files };
        snapshot.validate()?;
        Ok(snapshot)
    }
}

// Recording

/// The entry of a file in a snapshot.
pub open spec fn file_at(files: Map<Seq<char>, FileEntryV>, path: Seq<char>) -> Option<FileEntryV> {
    if files.contains_key(path) {
        Some(files[path])
    } else {
        None
    }
}

/// A snapshot has something new to say about a file.
pub open spec fn changed(view: ViewV, files: Map<Seq<char>, FileEntryV>, path: Seq<char>) -> bool {
    &&& view.contains_key(path) || files.contains_key(path)
    &&& current(heads_of(view, path)) != file_at(files, path) || conflicted(view, path)
}

/// The edits that lead from a view to a snapshot: one for each file that
/// changed or needs a decision, based on every version that the view holds.
pub open spec fn edits_between(view: ViewV, files: Map<Seq<char>, FileEntryV>) -> Map<Seq<char>, EditV> {
    Map::new(
        |path: Seq<char>| changed(view, files, path),
        |path: Seq<char>| EditV { parents: heads_of(view, path).dom(), value: file_at(files, path) },
    )
}

/// An edit to something other than a regular file.
pub open spec fn extended(edit: EditV) -> bool {
    edit.value is Some && !edit.value->0.kind.regular()
}

/// The transaction format that a set of edits needs.
pub open spec fn needed_format(edits: Map<Seq<char>, EditV>) -> u32 {
    if exists|path: Seq<char>| #[trigger] edits.contains_key(path) && extended(edits[path]) {
        2
    } else {
        1
    }
}

/// The transaction that leads from a view to a snapshot.
pub open spec fn recording(
    view: ViewV,
    files: Map<Seq<char>, FileEntryV>,
    message: Seq<char>,
    nonce: Seq<char>,
) -> TransactionV {
    TransactionV {
        format: needed_format(edits_between(view, files)),
        nonce,
        message,
        edits: edits_between(view, files),
        provenance: None,
    }
}

/// The result of recording a snapshot.
pub open spec fn recorded(
    view: ViewV,
    files: Map<Seq<char>, FileEntryV>,
    message: Seq<char>,
    nonce: Seq<char>,
) -> Result<TransactionV, ErrorV> {
    match snapshot_check(files) {
        Err(error) => Err(error),
        Ok(()) => match transaction_check(recording(view, files, message, nonce)) {
            Err(error) => Err(error),
            Ok(()) => Ok(recording(view, files, message, nonce)),
        },
    }
}

impl View {
    fn edit_for(&self, files: &TextMap<FileEntry>, disputed: bool, path: &str) -> (result: Option<Edit>)
        requires
            disputed == conflicted(self@, path@),
            self@.contains_key(path@) || files@.contains_key(path@),
        ensures
            match result {
                Some(edit) => changed(self@, files@, path@) && edit@ == (EditV {
                    parents: heads_of(self@, path@).dom(),
                    value: file_at(files@, path@),
                }),
                None => !changed(self@, files@, path@),
            },
    {
        let heads = self.files.get(path);
        let old_value: Option<&FileEntry> = match heads {
            Some(heads) => current_of(heads),
            None => None,
        };
        proof {
            if heads is None {
                assert(heads_of(self@, path@).dom() =~= Set::<Seq<char>>::empty());
            }
        }
        let value = files.get(path);
        let same = match (old_value, value) {
            (Some(a), Some(b)) => a.same(b),
            (None, None) => true,
            _ => false,
        };
        if same && !disputed {
            return None;
        }
        let parents = match heads {
            Some(heads) => heads.keys(),
            None => TextSet::new(),
        };
        let value: Option<FileEntry> = match value {
            Some(entry) => Some(entry.clone()),
            None => None,
        };
        Some(Edit { parents, value })
    }

    fn edits_to(&self, files: &TextMap<FileEntry>) -> (result: (TextMap<Edit>, u32))
        ensures
            result.0@ == edits_between(self@, files@),
            result.1 == needed_format(edits_between(self@, files@)),
    {
        let conflicts = self.conflicts();
        let mut paths = self.files.keys();
        paths.extend(&files.keys());
        let mut edits: TextMap<Edit> = TextMap::new();
        let mut format: u32 = 1;
        let n = paths.len();
        let mut i: usize = 0;
        let ghost keys = ordered(paths@);
        let ghost goal = edits_between(self@, files@);
        assert(edits@ =~= goal.restrict(keys.take(0).to_set()));
        while i < n
            invariant
                i <= n,
                n == paths@.len(),
                n == keys.len(),
                keys == ordered(paths@),
                lists(keys, paths@),
                paths@ == self@.dom().union(files@.dom()),
                conflicts@ == conflicts_of(self@),
                goal == edits_between(self@, files@),
                edits@ == goal.restrict(keys.take(i as int).to_set()),
                format == 1 || format == 2,
                format == 2 <==> exists|path: Seq<char>| #[trigger] edits@.contains_key(path) && extended(edits@[path]),
            decreases n - i,
        {
            let ghost so_far = edits@;
            let path = paths.at(i);
            let disputed = conflicts.contains(path.as_str());
            proof {
                assert(keys.take(i + 1) =~= keys.take(i as int).push(path@));
                assert forall|k: Seq<char>| keys.take(i + 1).to_set().contains(k) <==> keys.take(
                    i as int,
                ).to_set().contains(k) || k == path@ by {
                    crate::collections::lemma_push_contains(keys.take(i as int), path@, k);
                }
                assert(!keys.take(i as int).contains(path@)) by {
                    if keys.take(i as int).contains(path@) {
                        let j = choose|j: int| 0 <= j < i && keys.take(i as int)[j] == path@;
                        assert(keys[j] == path@);
                        crate::text::lemma_before_irreflexive(path@);
                        assert(crate::text::before(keys[j], keys[i as int]));
                    }
                }
                assert(!so_far.contains_key(path@));
            }
            match self.edit_for(files, disputed, path.as_str()) {
                Some(edit) => {
                    let special = match &edit.value {
                        Some(entry) => !entry.kind.is_regular(),
                        None => false,
                    };
                    let ghost value = edit@;
                    edits.insert(path.clone(), edit);
                    proof {
                        assert(special == extended(value));
                        assert(edits@ == so_far.insert(path@, value));
                        if special {
                            assert(edits@.contains_key(path@) && extended(edits@[path@]));
                        } else if format == 2 {
                            let p = choose|p: Seq<char>| #[trigger] so_far.contains_key(p) && extended(so_far[p]);
                            assert(edits@.contains_key(p) && extended(edits@[p]));
                        } else {
                            assert forall|p: Seq<char>| #[trigger] edits@.contains_key(p) implies !extended(
                                edits@[p],
                            ) by {
                                if p != path@ {
                                    assert(so_far.contains_key(p));
                                }
                            }
                        }
                    }
                    if special {
                        format = 2;
                    }
                },
                None => {},
            }
            assert(edits@ =~= goal.restrict(keys.take(i + 1).to_set()));
            i += 1;
        }
        proof {
            assert(keys.take(n as int) =~= keys);
            assert forall|p: Seq<char>| goal.contains_key(p) implies keys.to_set().contains(p) by {
                assert(paths@.contains(p));
            }
            assert(edits@ =~= goal);
        }
        (edits, format)
    }

    /// Describe the way from this view to a snapshot as a transaction.
    pub fn record(&self, snapshot: &Snapshot, message: String, nonce: String) -> (result: Result<
        Transaction,
        Error,
    >)
        ensures
            outcome(result) == recorded(self@, snapshot@, message@, nonce@),
    {
        snapshot.validate()?;
        let (edits, format) = self.edits_to(&snapshot.files);
        let transaction = Transaction { format, nonce, message, edits, provenance: None };
        assert(transaction@ == recording(self@, snapshot@, message@, nonce@));
        transaction.validate()?;
        Ok(transaction)
    }
}

} // verus!
