//! Combining concurrent versions of a file: which version they have in common,
//! and what can be merged line by line.
use vstd::prelude::*;
use vstd::string::*;
use vstd::utf8::*;
use vstd::view::View as _;

use crate::collections::{keys_of, lists, ordered, TextMap, TextSet, Value};
use crate::error::{outcome, Error};
use crate::graphs::{wrote, GraphV};
use crate::objects::{EntryKind, FileEntry, FileEntryV, Snapshot, MAX_BLOB_BYTES};
use crate::text::{chars_of, texts, utf8_text};
use crate::transactions::{FileHeads, Graph};
use crate::views::{file_at, View, ViewV};
use crate::workspace::{merge_snapshots, merged_value, snapshots_merged, Resolution};

verus! {

// Text

/// What `diffy::merge` makes of two descendants of a text; `None` where their
/// changes conflict.
pub uninterp spec fn diffy_merged(base: Seq<char>, ours: Seq<char>, theirs: Seq<char>) -> Option<Seq<char>>;

/// Wraps `diffy::merge`, whose result is named here: the merged text, or none
/// where the changes conflict. How lines are matched is not described further.
#[verifier::external_body]
pub(crate) fn merge_lines(base: &str, ours: &str, theirs: &str) -> (result: Option<String>)
    ensures
        match result {
            Some(text) => diffy_merged(base@, ours@, theirs@) == Some(text@),
            None => diffy_merged(base@, ours@, theirs@) is None,
        },
{
    diffy::merge(base, ours, theirs).ok()
}

/// An entry whose content may be merged as text.
pub open spec fn small_and_regular(entry: FileEntryV) -> bool {
    entry.kind == EntryKind::Regular && entry.size <= MAX_BLOB_BYTES
}

/// Both sides have content, and all contents may be merged as text.
pub open spec fn mergeable(
    base: Option<FileEntryV>,
    ours: Option<FileEntryV>,
    theirs: Option<FileEntryV>,
) -> bool {
    &&& ours matches Some(a) && small_and_regular(a)
    &&& theirs matches Some(b) && small_and_regular(b)
    &&& base matches Some(c) ==> small_and_regular(c)
}

fn is_small_and_regular(entry: &FileEntry) -> (result: bool)
    ensures
        result == small_and_regular(entry@),
{
    entry.kind == EntryKind::Regular && entry.size <= MAX_BLOB_BYTES as u64
}

/// Whether it is worth reading the contents in order to merge them.
pub fn is_mergeable(base: Option<&FileEntry>, ours: Option<&FileEntry>, theirs: Option<&FileEntry>) -> (result: bool)
    ensures
        result == mergeable(base.deep_view(), ours.deep_view(), theirs.deep_view()),
{
    match (ours, theirs) {
        (Some(a), Some(b)) => {
            let fits = match base {
                Some(c) => is_small_and_regular(c),
                None => true,
            };
            fits && is_small_and_regular(a) && is_small_and_regular(b)
        },
        _ => false,
    }
}

/// The text that bytes stand for, unless they look binary.
pub open spec fn plain_text(bytes: Seq<u8>) -> Option<Seq<char>> {
    if valid_utf8(bytes) && !decode_utf8(bytes).contains('\0') {
        Some(decode_utf8(bytes))
    } else {
        None
    }
}

/// Read bytes as text, unless they look binary.
pub fn as_text(bytes: Vec<u8>) -> (result: Option<String>)
    ensures
        match result {
            Some(text) => plain_text(bytes@) == Some(text@),
            None => plain_text(bytes@) is None,
        },
{
    let text = match utf8_text(bytes) {
        Some(text) => text,
        None => {
            return None;
        },
    };
    let chars = chars_of(text.as_str());
    let mut i: usize = 0;
    while i < chars.len()
        invariant
            i <= chars@.len(),
            chars@ == text@,
            valid_utf8(bytes@),
            text@ == decode_utf8(bytes@),
            forall|j: int| 0 <= j < i ==> chars@[j] != '\0',
        decreases chars@.len() - i,
    {
        if chars[i] == '\0' {
            assert(text@.contains('\0'));
            return None;
        }
        i += 1;
    }
    Some(text)
}

/// The merge of three contents, where all of them are text and the changes do
/// not conflict.
pub open spec fn merged_contents(base: Seq<u8>, ours: Seq<u8>, theirs: Seq<u8>) -> Option<Seq<char>> {
    match (plain_text(base), plain_text(ours), plain_text(theirs)) {
        (Some(a), Some(b), Some(c)) => diffy_merged(a, b, c),
        _ => None,
    }
}

/// Merge three contents line by line. Where there is no common version, the
/// base is empty.
pub fn merge_contents(base: Vec<u8>, ours: Vec<u8>, theirs: Vec<u8>) -> (result: Option<String>)
    ensures
        match result {
            Some(text) => merged_contents(base@, ours@, theirs@) == Some(text@),
            None => merged_contents(base@, ours@, theirs@) is None,
        },
{
    match (as_text(base), as_text(ours), as_text(theirs)) {
        (Some(before), Some(local), Some(remote)) => merge_lines(
            before.as_str(),
            local.as_str(),
            remote.as_str(),
        ),
        _ => None,
    }
}

/// Who changed the executable mode decides it; ours where nobody knows.
pub open spec fn merged_mode(base: Option<FileEntryV>, ours: FileEntryV, theirs: FileEntryV) -> bool {
    if base matches Some(entry) && entry.executable == ours.executable {
        theirs.executable
    } else {
        ours.executable
    }
}

/// The executable mode of a merged file.
pub fn merge_mode(base: Option<&FileEntry>, ours: &FileEntry, theirs: &FileEntry) -> (executable: bool)
    ensures
        executable == merged_mode(base.deep_view(), ours@, theirs@),
{
    match base {
        Some(entry) => {
            if entry.executable == ours.executable {
                theirs.executable
            } else {
                ours.executable
            }
        },
        None => ours.executable,
    }
}

// Ancestry

/// The versions of a file that a transaction replaced.
pub open spec fn parents_at(graph: GraphV, path: Seq<char>, id: Seq<char>) -> Set<Seq<char>> {
    if wrote(graph, id, path) {
        graph[id].edits[path].parents
    } else {
        Set::empty()
    }
}

/// Each version of the chain replaced the next one.
pub open spec fn is_chain(graph: GraphV, path: Seq<char>, chain: Seq<Seq<char>>) -> bool {
    &&& chain.len() > 0
    &&& forall|k: int|
        0 <= k < chain.len() - 1 ==> parents_at(graph, path, #[trigger] chain[k]).contains(chain[k + 1])
}

/// A version goes back to another.
pub open spec fn goes_back(graph: GraphV, path: Seq<char>, from: Seq<char>, to: Seq<char>) -> bool {
    exists|chain: Seq<Seq<char>>| #[trigger]
        is_chain(graph, path, chain) && chain[0] == from && chain.last() == to
}

/// A version and everything that it goes back to.
pub open spec fn ancestry(graph: GraphV, path: Seq<char>, id: Seq<char>) -> Set<Seq<char>> {
    Set::new(|x: Seq<char>| goes_back(graph, path, id, x))
}

proof fn lemma_self(graph: GraphV, path: Seq<char>, id: Seq<char>)
    ensures
        goes_back(graph, path, id, id),
{
    assert(is_chain(graph, path, seq![id]) && seq![id][0] == id && seq![id].last() == id);
}

proof fn lemma_further(graph: GraphV, path: Seq<char>, id: Seq<char>, x: Seq<char>, y: Seq<char>)
    requires
        goes_back(graph, path, id, x),
        parents_at(graph, path, x).contains(y),
    ensures
        goes_back(graph, path, id, y),
{
    let chain = choose|chain: Seq<Seq<char>>| #[trigger]
        is_chain(graph, path, chain) && chain[0] == id && chain.last() == x;
    let longer = chain.push(y);
    assert forall|k: int| 0 <= k < longer.len() - 1 implies parents_at(graph, path, #[trigger] longer[k]).contains(
        longer[k + 1],
    ) by {
        assert(longer[k] == chain[k]);
        if k < chain.len() - 1 {
            assert(longer[k + 1] == chain[k + 1]);
        }
    }
    assert(is_chain(graph, path, longer) && longer[0] == id && longer.last() == y);
}

/// A set that holds a version and is closed under going back holds the
/// ancestry.
proof fn lemma_closed(graph: GraphV, path: Seq<char>, id: Seq<char>, set: Set<Seq<char>>, x: Seq<char>)
    requires
        set.contains(id),
        forall|a: Seq<char>, b: Seq<char>|
            set.contains(a) && #[trigger] parents_at(graph, path, a).contains(b) ==> set.contains(b),
        goes_back(graph, path, id, x),
    ensures
        set.contains(x),
{
    let chain = choose|chain: Seq<Seq<char>>| #[trigger]
        is_chain(graph, path, chain) && chain[0] == id && chain.last() == x;
    lemma_chain_inside(graph, path, chain, set, chain.len() - 1);
}

proof fn lemma_chain_inside(graph: GraphV, path: Seq<char>, chain: Seq<Seq<char>>, set: Set<Seq<char>>, k: int)
    requires
        is_chain(graph, path, chain),
        0 <= k < chain.len(),
        set.contains(chain[0]),
        forall|a: Seq<char>, b: Seq<char>|
            set.contains(a) && #[trigger] parents_at(graph, path, a).contains(b) ==> set.contains(b),
    ensures
        set.contains(chain[k]),
    decreases k,
{
    if k > 0 {
        lemma_chain_inside(graph, path, chain, set, k - 1);
        assert(parents_at(graph, path, chain[k - 1]).contains(chain[k - 1 + 1]));
    }
}

/// A version and everything that it goes back to.
pub fn ancestors(graph: &Graph, path: &str, id: &str) -> (seen: TextSet)
    ensures
        seen@ == ancestry(graph.transactions@, path@, id@),
{
    let ghost all = graph.transactions@;
    let size = graph.transactions.len();
    let mut seen = TextSet::new();
    let mut todo: Vec<String> = Vec::new();
    todo.push(id.to_owned());
    proof {
        lemma_self(all, path@, id@);
        assert(texts(todo@) =~= seq![id@]);
        assert(texts(todo@)[0] == id@);
    }
    while todo.len() > 0
        invariant
            all == graph.transactions@,
            all.dom().finite(),
            seen@.contains(id@) || texts(todo@).contains(id@),
            forall|x: Seq<char>| #[trigger] seen@.contains(x) ==> goes_back(all, path@, id@, x),
            forall|k: int| 0 <= k < todo@.len() ==> goes_back(all, path@, id@, (#[trigger] todo@[k])@),
            forall|a: Seq<char>, b: Seq<char>|
                seen@.contains(a) && #[trigger] parents_at(all, path@, a).contains(b) ==> seen@.contains(b)
                    || texts(todo@).contains(b),
        decreases all.dom().difference(seen@).len(), todo@.len(),
    {
        let ghost stacked = todo@;
        let ghost seen_before = seen@;
        let next = todo.pop().unwrap();
        proof {
            assert(texts(stacked) =~= texts(todo@).push(next@));
            assert(goes_back(all, path@, id@, stacked[stacked.len() - 1]@));
            assert forall|x: Seq<char>| texts(stacked).contains(x) <==> texts(todo@).contains(x) || x == next@ by {
                crate::collections::lemma_push_contains(texts(todo@), next@, x);
            }
        }
        let fresh = seen.insert(next.clone());
        proof {
            if all.dom().contains(next@) && fresh {
                assert(all.dom().difference(seen@) =~= all.dom().difference(seen_before).remove(next@));
            } else {
                assert(all.dom().difference(seen@) =~= all.dom().difference(seen_before));
            }
        }
        if fresh {
            if let Some(transaction) = graph.transactions.get(next.as_str()) {
                if let Some(edit) = transaction.edits.get(path) {
                    let mut more = edit.parents.to_vec();
                    let ghost added = texts(more@);
                    let ghost base = todo@;
                    let ghost extra = more@;
                    let n = edit.parents.len();
                    todo.append(&mut more);
                    proof {
                        assert(parents_at(all, path@, next@) == edit.parents@);
                        assert(texts(todo@) =~= texts(base) + added);
                        assert forall|k: int| 0 <= k < todo@.len() implies goes_back(
                            all,
                            path@,
                            id@,
                            (#[trigger] todo@[k])@,
                        ) by {
                            if k < base.len() {
                                assert(todo@[k] == stacked[k]);
                            } else {
                                let b = added[k - base.len()];
                                assert(todo@[k]@ == b);
                                assert(added.contains(b));
                                assert(edit.parents@.contains(b));
                                lemma_further(all, path@, id@, next@, b);
                            }
                        }
                        assert forall|x: Seq<char>| texts(base).contains(x) || added.contains(x) implies #[trigger] texts(
                            todo@,
                        ).contains(x) by {
                            if texts(base).contains(x) {
                                let k = choose|k: int| 0 <= k < base.len() && texts(base)[k] == x;
                                assert(texts(todo@)[k] == x);
                            } else {
                                let k = choose|k: int| 0 <= k < added.len() && added[k] == x;
                                assert(texts(todo@)[base.len() + k] == x);
                            }
                        }
                        assert forall|a: Seq<char>, b: Seq<char>|
                            seen@.contains(a) && #[trigger] parents_at(all, path@, a).contains(b) implies seen@.contains(b)
                            || texts(todo@).contains(b) by {
                            if a == next@ {
                                assert(edit.parents@.contains(b));
                                assert(added.contains(b));
                            } else {
                                assert(seen_before.contains(a));
                                assert(seen_before.contains(b) || texts(stacked).contains(b));
                                if texts(stacked).contains(b) {
                                    assert(texts(base).contains(b) || b == next@);
                                }
                            }
                        }
                        if texts(stacked).contains(id@) && id@ != next@ {
                            assert(texts(base).contains(id@));
                        }
                    }
                }
            }
        }
    }
    proof {
        assert(texts(todo@).len() == 0);
        assert forall|x: Seq<char>| seen@.contains(x) <==> ancestry(all, path@, id@).contains(x) by {
            if ancestry(all, path@, id@).contains(x) {
                assert forall|a: Seq<char>, b: Seq<char>|
                    seen@.contains(a) && #[trigger] parents_at(all, path@, a).contains(b) implies seen@.contains(b) by {}
                lemma_closed(all, path@, id@, seen@, x);
            }
        }
        assert(seen@ =~= ancestry(all, path@, id@));
    }
    seen
}

// Common versions

/// The versions that all of the given ones go back to.
pub open spec fn common_ancestry(graph: GraphV, path: Seq<char>, ids: Set<Seq<char>>) -> Set<Seq<char>> {
    Set::new(
        |x: Seq<char>|
            ids != Set::<Seq<char>>::empty() && forall|id: Seq<char>| #[trigger]
                ids.contains(id) ==> goes_back(graph, path, id, x),
    )
}

/// The common versions that no other common version goes back to.
pub open spec fn nearest_common(graph: GraphV, path: Seq<char>, ids: Set<Seq<char>>) -> Set<Seq<char>> {
    Set::new(
        |x: Seq<char>|
            common_ancestry(graph, path, ids).contains(x) && forall|y: Seq<char>| #[trigger]
                common_ancestry(graph, path, ids).contains(y) && y != x ==> !goes_back(graph, path, y, x),
    )
}

fn common_of(graph: &Graph, path: &str, heads: &FileHeads) -> (common: TextSet)
    ensures
        common@ == common_ancestry(graph.transactions@, path@, heads@.dom()),
{
    let ghost all = graph.transactions@;
    let n = heads.len();
    let ghost keys = keys_of(heads@);
    if n == 0 {
        let none = TextSet::new();
        assert(heads@.dom() =~= Set::<Seq<char>>::empty());
        assert(none@ =~= common_ancestry(all, path@, heads@.dom()));
        return none;
    }
    let mut common = ancestors(graph, path, heads.key_at(0).as_str());
    let mut i: usize = 1;
    while i < n
        invariant
            1 <= i <= n,
            n == heads@.dom().len(),
            n == keys.len(),
            keys == keys_of(heads@),
            lists(keys, heads@.dom()),
            all == graph.transactions@,
            forall|x: Seq<char>| #[trigger]
                common@.contains(x) <==> forall|j: int| 0 <= j < i ==> goes_back(all, path@, #[trigger] keys[j], x),
        decreases n - i,
    {
        let ghost so_far = common@;
        let other = ancestors(graph, path, heads.key_at(i).as_str());
        let outside = common.difference(&other);
        common = common.difference(&outside);
        proof {
            assert forall|x: Seq<char>| #[trigger]
                common@.contains(x) <==> forall|j: int| 0 <= j < i + 1 ==> goes_back(all, path@, #[trigger] keys[j], x) by {
                assert(common@.contains(x) <==> so_far.contains(x) && goes_back(all, path@, keys[i as int], x));
                if so_far.contains(x) && goes_back(all, path@, keys[i as int], x) {
                    assert forall|j: int| 0 <= j < i + 1 implies goes_back(all, path@, #[trigger] keys[j], x) by {
                        if j < i {
                        }
                    }
                }
                if forall|j: int| 0 <= j < i + 1 ==> goes_back(all, path@, #[trigger] keys[j], x) {
                    assert(goes_back(all, path@, keys[i as int], x));
                    assert forall|j: int| 0 <= j < i implies goes_back(all, path@, #[trigger] keys[j], x) by {}
                }
            }
        }
        i += 1;
    }
    proof {
        let ids = heads@.dom();
        assert(keys.contains(keys[0]));
        assert(ids.contains(keys[0]));
        assert forall|x: Seq<char>| common@.contains(x) <==> common_ancestry(all, path@, ids).contains(x) by {
            if common@.contains(x) {
                assert forall|id: Seq<char>| #[trigger] ids.contains(id) implies goes_back(all, path@, id, x) by {
                    let j = choose|j: int| 0 <= j < keys.len() && keys[j] == id;
                    assert(goes_back(all, path@, keys[j], x));
                }
            }
            if common_ancestry(all, path@, ids).contains(x) {
                assert forall|j: int| 0 <= j < n implies goes_back(all, path@, #[trigger] keys[j], x) by {
                    assert(keys.contains(keys[j]));
                    assert(ids.contains(keys[j]));
                }
            }
        }
        assert(common@ =~= common_ancestry(all, path@, ids));
    }
    common
}

fn nearest_of(graph: &Graph, path: &str, common: &TextSet) -> (nearest: TextSet)
    ensures
        forall|x: Seq<char>| #[trigger]
            nearest@.contains(x) <==> common@.contains(x) && forall|y: Seq<char>| #[trigger]
                common@.contains(y) && y != x ==> !goes_back(graph.transactions@, path@, y, x),
{
    let ghost all = graph.transactions@;
    let n = common.len();
    let ghost list = ordered(common@);
    let mut nearest = common.clone();
    let mut i: usize = 0;
    while i < n
        invariant
            i <= n,
            n == common@.len(),
            n == list.len(),
            list == ordered(common@),
            lists(list, common@),
            all == graph.transactions@,
            forall|x: Seq<char>| #[trigger]
                nearest@.contains(x) <==> common@.contains(x) && forall|j: int|
                    0 <= j < i && list[j] != x ==> !goes_back(all, path@, #[trigger] list[j], x),
        decreases n - i,
    {
        let ghost so_far = nearest@;
        let id = common.at(i);
        let mut older = ancestors(graph, path, id.as_str());
        older.remove(id.as_str());
        nearest = nearest.difference(&older);
        proof {
            assert forall|x: Seq<char>| #[trigger]
                nearest@.contains(x) <==> common@.contains(x) && forall|j: int|
                    0 <= j < i + 1 && list[j] != x ==> !goes_back(all, path@, #[trigger] list[j], x) by {
                assert(nearest@.contains(x) <==> so_far.contains(x) && !(goes_back(all, path@, list[i as int], x)
                    && x != list[i as int]));
                if nearest@.contains(x) {
                    assert forall|j: int| 0 <= j < i + 1 && list[j] != x implies !goes_back(
                        all,
                        path@,
                        #[trigger] list[j],
                        x,
                    ) by {
                        if j < i {
                            assert(so_far.contains(x));
                        }
                    }
                }
                if common@.contains(x) && forall|j: int|
                    0 <= j < i + 1 && list[j] != x ==> !goes_back(all, path@, #[trigger] list[j], x) {
                    assert forall|j: int| 0 <= j < i && list[j] != x implies !goes_back(
                        all,
                        path@,
                        #[trigger] list[j],
                        x,
                    ) by {}
                    assert(so_far.contains(x));
                    if list[i as int] != x {
                        assert(!goes_back(all, path@, list[i as int], x));
                    }
                }
            }
        }
        i += 1;
    }
    proof {
        assert forall|x: Seq<char>| #[trigger]
            nearest@.contains(x) <==> common@.contains(x) && forall|y: Seq<char>| #[trigger]
                common@.contains(y) && y != x ==> !goes_back(all, path@, y, x) by {
            if nearest@.contains(x) {
                assert forall|y: Seq<char>| #[trigger] common@.contains(y) && y != x implies !goes_back(
                    all,
                    path@,
                    y,
                    x,
                ) by {
                    let j = choose|j: int| 0 <= j < list.len() && list[j] == y;
                    assert(!goes_back(all, path@, list[j], x));
                }
            }
            if common@.contains(x) && forall|y: Seq<char>| #[trigger]
                common@.contains(y) && y != x ==> !goes_back(all, path@, y, x) {
                assert forall|j: int| 0 <= j < n && list[j] != x implies !goes_back(all, path@, #[trigger] list[j], x) by {
                    assert(list.contains(list[j]));
                    assert(common@.contains(list[j]));
                }
            }
        }
    }
    nearest
}

/// What the versions of a file are to be merged against. Several nearest
/// common versions would need a virtual one; they are not guessed between.
pub enum Base {
    /// There are several nearest common versions.
    Ambiguous,
    /// The value of the nearest common version, where there is one.
    Value(Option<FileEntry>),
}

/// The value that a transaction gave a file.
pub open spec fn value_at(graph: GraphV, path: Seq<char>, id: Seq<char>) -> Option<FileEntryV> {
    if wrote(graph, id, path) {
        graph[id].edits[path].value
    } else {
        None
    }
}

/// Find what the versions of a file are to be merged against.
pub fn merge_base(graph: &Graph, path: &str, heads: &FileHeads) -> (base: Base)
    ensures
        ({
            let nearest = nearest_common(graph.transactions@, path@, heads@.dom());
            match base {
                Base::Ambiguous => nearest.len() > 1,
                Base::Value(value) => {
                    &&& nearest.len() <= 1
                    &&& nearest.len() == 0 ==> value is None
                    &&& forall|id: Seq<char>| #[trigger]
                        nearest.contains(id) ==> value.deep_view() == value_at(graph.transactions@, path@, id)
                },
            }
        }),
{
    let common = common_of(graph, path, heads);
    let nearest = nearest_of(graph, path, &common);
    let ghost all = graph.transactions@;
    assert(nearest@ =~= nearest_common(all, path@, heads@.dom()));
    let n = nearest.len();
    if n > 1 {
        return Base::Ambiguous;
    }
    if n == 0 {
        assert(nearest@ =~= Set::<Seq<char>>::empty());
        return Base::Value(None);
    }
    let id = nearest.at(0);
    proof {
        let list = ordered(nearest@);
        assert forall|x: Seq<char>| #[trigger] nearest@.contains(x) implies x == id@ by {
            assert(list.contains(x));
            let k = choose|k: int| 0 <= k < list.len() && list[k] == x;
            assert(k == 0);
        }
    }
    match graph.transactions.get(id.as_str()) {
        Some(transaction) => match transaction.edits.get(path) {
            Some(edit) => Base::Value(edit.value.copied()),
            None => Base::Value(None),
        },
        None => Base::Value(None),
    }
}

// Merging the versions of a file one after the other

/// What a merge of versions needs next.
pub enum Step {
    /// Nothing: this is the result, where there is one.
    Done(Option<FileEntry>),
    /// The contents of two versions have to be merged.
    Merge { ours: Option<FileEntry>, theirs: Option<FileEntry> },
}

/// The versions that are still to be merged into the first one.
pub struct HeadMerge {
    merged: Option<FileEntry>,
    rest: Vec<Option<FileEntry>>,
}

impl HeadMerge {
    /// What the versions so far amount to.
    pub closed spec fn so_far(self) -> Option<FileEntryV> {
        self.merged.deep_view()
    }

    /// The versions that are still to come, the next last.
    pub closed spec fn waiting(self) -> Seq<Option<FileEntryV>> {
        self.rest.deep_view()
    }

    pub fn new(heads: &FileHeads) -> (merge: Self)
        ensures
            merge.so_far() == crate::views::current(heads@),
            heads@.dom() == Set::<Seq<char>>::empty() ==> merge.waiting().len() == 0,
            heads@.dom() != Set::<Seq<char>>::empty() ==> merge.waiting() == keys_of(heads@).drop_first().map_values(
                |id: Seq<char>| heads@[id],
            ).reverse(),
    {
        let n = heads.len();
        let ghost keys = keys_of(heads@);
        if n == 0 {
            let merge = HeadMerge { merged: None, rest: Vec::new() };
            assert(heads@.dom() =~= Set::<Seq<char>>::empty());
            assert(merge.rest.deep_view() =~= Seq::<Option<FileEntryV>>::empty());
            return merge;
        }
        proof {
            assert(keys.contains(keys[0]));
            assert(heads@.dom().contains(keys[0]));
        }
        let ghost goal = keys.drop_first().map_values(|id: Seq<char>| heads@[id]).reverse();
        let mut rest: Vec<Option<FileEntry>> = Vec::new();
        let mut i: usize = n;
        assert(rest.deep_view() =~= goal.take(0));
        while i > 1
            invariant
                1 <= i <= n,
                n == heads@.dom().len(),
                n == keys.len(),
                keys == keys_of(heads@),
                goal == keys.drop_first().map_values(|id: Seq<char>| heads@[id]).reverse(),
                rest.deep_view() == goal.take(n - i),
            decreases i,
        {
            let ghost so_far = rest.deep_view();
            i -= 1;
            let value = heads.value_at(i).copied();
            let ghost v = value.deep_view();
            rest.push(value);
            proof {
                assert(rest.deep_view() =~= so_far.push(v));
                assert(goal[n - i - 1] == heads@[keys[i as int]]);
                assert(goal.take(n - i) =~= goal.take(n - i - 1).push(goal[n - i - 1]));
            }
        }
        assert(goal.take(n - 1) =~= goal);
        HeadMerge { merged: heads.value_at(0).copied(), rest }
    }

    /// The next step. Versions that agree with the result so far need no work.
    pub fn next(&mut self) -> (step: Step)
        ensures
            final(self).so_far() == old(self).so_far(),
            match step {
                Step::Done(result) => {
                    &&& result.deep_view() == old(self).so_far()
                    &&& final(self).waiting().len() == 0
                    &&& forall|k: int|
                        0 <= k < old(self).waiting().len() ==> #[trigger] old(self).waiting()[k] == old(self).so_far()
                },
                Step::Merge { ours, theirs } => {
                    &&& ours.deep_view() == old(self).so_far()
                    &&& theirs.deep_view() != old(self).so_far()
                    &&& final(self).waiting().len() < old(self).waiting().len()
                    &&& final(self).waiting() == old(self).waiting().take(final(self).waiting().len() as int)
                    &&& theirs.deep_view() == old(self).waiting()[final(self).waiting().len() as int]
                    &&& forall|k: int|
                        final(self).waiting().len() < k < old(self).waiting().len() ==> #[trigger] old(
                            self,
                        ).waiting()[k] == old(self).so_far()
                },
            },
        decreases old(self).waiting().len(),
    {
        let ghost start = self.rest.deep_view();
        assert(start.take(start.len() as int) =~= start);
        while self.rest.len() > 0
            invariant
                self.merged.deep_view() == old(self).so_far(),
                start == old(self).waiting(),
                self.rest@.len() <= start.len(),
                self.rest.deep_view() == start.take(self.rest@.len() as int),
                forall|k: int|
                    self.rest@.len() <= k < start.len() ==> #[trigger] start[k] == old(self).so_far(),
            decreases self.rest@.len(),
        {
            let ghost before_pop = self.rest@;
            let value = self.rest.pop().unwrap();
            proof {
                let n = self.rest@.len() as int;
                assert(value.deep_view() == start[n]) by {
                    assert(before_pop[n] == value);
                    assert(start.take(n + 1)[n] == start[n]);
                }
                assert(self.rest.deep_view() =~= start.take(n));
            }
            if !self.merged.same(&value) {
                return Step::Merge { ours: self.merged.copied(), theirs: value };
            }
        }
        Step::Done(self.merged.copied())
    }

    /// Go on with the merge of two versions.
    pub fn accept(&mut self, merged: FileEntry)
        ensures
            final(self).so_far() == Some(merged@),
            final(self).waiting() == old(self).waiting(),
    {
        self.merged = Some(merged);
    }
}

// Working copies

/// A file that both sides changed, and differently.
pub open spec fn contested(
    base: Map<Seq<char>, FileEntryV>,
    local: Map<Seq<char>, FileEntryV>,
    incoming: Map<Seq<char>, FileEntryV>,
    path: Seq<char>,
) -> bool {
    &&& local.contains_key(path)
    &&& file_at(local, path) != file_at(base, path)
    &&& file_at(incoming, path) != file_at(base, path)
    &&& file_at(local, path) != file_at(incoming, path)
}

fn differs(a: Option<&FileEntry>, b: Option<&FileEntry>) -> (result: bool)
    ensures
        result == (a.deep_view() != b.deep_view()),
{
    match (a, b) {
        (Some(x), Some(y)) => !x.same(y),
        (None, None) => false,
        _ => true,
    }
}

/// The files that both sides changed, and differently.
pub fn contested_files(base: &Snapshot, local: &Snapshot, incoming: &Snapshot) -> (paths: TextSet)
    ensures
        paths@ == Set::new(|path: Seq<char>| contested(base@, local@, incoming@, path)),
{
    let ghost goal = Set::new(|path: Seq<char>| contested(base@, local@, incoming@, path));
    let mut paths = TextSet::new();
    let n = local.files.len();
    let ghost keys = keys_of(local@);
    let mut i: usize = 0;
    assert(paths@ =~= goal.intersect(keys.take(0).to_set()));
    while i < n
        invariant
            i <= n,
            n == local@.dom().len(),
            n == keys.len(),
            keys == keys_of(local@),
            lists(keys, local@.dom()),
            goal == Set::new(|path: Seq<char>| contested(base@, local@, incoming@, path)),
            paths@ == goal.intersect(keys.take(i as int).to_set()),
        decreases n - i,
    {
        let path = local.files.key_at(i);
        let ours = local.files.get(path.as_str());
        let before = base.files.get(path.as_str());
        let theirs = incoming.files.get(path.as_str());
        proof {
            assert(ours.deep_view() == file_at(local@, path@));
            assert(before.deep_view() == file_at(base@, path@));
            assert(theirs.deep_view() == file_at(incoming@, path@));
            assert(keys.take(i + 1) =~= keys.take(i as int).push(path@));
            assert forall|k: Seq<char>| keys.take(i + 1).to_set().contains(k) <==> keys.take(
                i as int,
            ).to_set().contains(k) || k == path@ by {
                crate::collections::lemma_push_contains(keys.take(i as int), path@, k);
            }
        }
        if differs(ours, before) && differs(theirs, before) && differs(ours, theirs) {
            paths.insert(path.clone());
        }
        assert(paths@ =~= goal.intersect(keys.take(i + 1).to_set()));
        i += 1;
    }
    proof {
        assert(keys.take(n as int) =~= keys);
        assert(goal.intersect(keys.to_set()) =~= goal) by {
            assert forall|k: Seq<char>| goal.contains(k) implies keys.to_set().contains(k) by {
                assert(local@.dom().contains(k));
            }
        }
    }
    paths
}

/// Merge a working copy with what arrived, where the contents of some files
/// were merged: each of these stands on both sides.
pub fn merge_working(
    base: &Snapshot,
    local: &Snapshot,
    incoming: &Snapshot,
    merged: &TextMap<FileEntry>,
    resolution: Resolution,
) -> (result: Result<Snapshot, Error>)
    ensures
        outcome(result) == snapshots_merged(
            base@,
            local@.union_prefer_right(merged@),
            incoming@.union_prefer_right(merged@),
            resolution,
        ),
{
    let ours = overlay(local, merged);
    let theirs = overlay(incoming, merged);
    merge_snapshots(base, &ours, &theirs, resolution)
}

fn overlay(snapshot: &Snapshot, files: &TextMap<FileEntry>) -> (result: Snapshot)
    ensures
        result@ == snapshot@.union_prefer_right(files@),
{
    let mut result = snapshot.clone();
    let n = files.len();
    let ghost keys = keys_of(files@);
    let mut i: usize = 0;
    assert(result@ =~= snapshot@.union_prefer_right(files@.restrict(keys.take(0).to_set())));
    while i < n
        invariant
            i <= n,
            n == files@.dom().len(),
            n == keys.len(),
            keys == keys_of(files@),
            lists(keys, files@.dom()),
            result@ == snapshot@.union_prefer_right(files@.restrict(keys.take(i as int).to_set())),
        decreases n - i,
    {
        let path = files.key_at(i);
        let entry = files.value_at(i);
        result.files.insert(path.clone(), entry.clone());
        proof {
            assert(keys.take(i + 1) =~= keys.take(i as int).push(path@));
            assert forall|k: Seq<char>| keys.take(i + 1).to_set().contains(k) <==> keys.take(
                i as int,
            ).to_set().contains(k) || k == path@ by {
                crate::collections::lemma_push_contains(keys.take(i as int), path@, k);
            }
            let part = files@.restrict(keys.take(i as int).to_set());
            let more = files@.restrict(keys.take(i + 1).to_set());
            assert(files@.dom().contains(path@));
            assert(more =~= part.insert(path@, entry@)) by {
                assert forall|k: Seq<char>| more.contains_key(k) <==> part.insert(path@, entry@).contains_key(k) by {
                    assert(keys.take(i + 1).to_set().contains(k) <==> keys.take(i as int).to_set().contains(k) || k
                        == path@);
                }
                assert forall|k: Seq<char>| more.contains_key(k) implies more[k] == part.insert(path@, entry@)[k] by {
                    if k == path@ {
                        assert(files@[k] == entry@);
                    } else {
                        assert(part.contains_key(k));
                    }
                }
            }
            assert(snapshot@.union_prefer_right(part.insert(path@, entry@)) =~= snapshot@.union_prefer_right(
                part,
            ).insert(path@, entry@));
        }
        i += 1;
    }
    proof {
        assert(keys.take(n as int) =~= keys);
        assert(files@.restrict(keys.to_set()) =~= files@) by {
            assert forall|k: Seq<char>| files@.contains_key(k) implies keys.to_set().contains(k) by {
                assert(files@.dom().contains(k));
            }
        }
    }
    result
}

/// Where the contents of a file were merged, the working copy gets the result,
/// whatever is done about the files that could not be; every other file comes
/// out as without it.
pub proof fn merged_contents_are_taken_over(
    base: Map<Seq<char>, FileEntryV>,
    local: Map<Seq<char>, FileEntryV>,
    incoming: Map<Seq<char>, FileEntryV>,
    merged: Map<Seq<char>, FileEntryV>,
    resolution: Resolution,
    path: Seq<char>,
)
    requires
        snapshots_merged(
            base,
            local.union_prefer_right(merged),
            incoming.union_prefer_right(merged),
            resolution,
        ) is Ok,
    ensures
        ({
            let result = snapshots_merged(
                base,
                local.union_prefer_right(merged),
                incoming.union_prefer_right(merged),
                resolution,
            )->Ok_0;
            file_at(result, path) == (if merged.contains_key(path) {
                Some(merged[path])
            } else {
                merged_value(file_at(base, path), file_at(local, path), file_at(incoming, path), resolution)
            })
        }),
{
}

// Settled versions

/// A view in which a merged version stands in place of those of a file.
pub open spec fn settled_at(view: ViewV, path: Seq<char>, merged: FileEntryV) -> ViewV {
    if view.contains_key(path) && view[path].dom().len() > 0 {
        view.insert(path, map![keys_of(view[path])[0] => Some(merged)])
    } else {
        view
    }
}

/// Let a merged version stand in place of the versions of a file, to check it
/// out. What the versions are is for a later commit to resolve.
pub fn settle(view: &mut View, path: &str, merged: FileEntry)
    ensures
        final(view)@ == settled_at(old(view)@, path@, merged@),
{
    let ghost start = view@;
    let first: String = match view.files.get(path) {
        Some(heads) => {
            if heads.len() == 0 {
                return ;
            }
            heads.key_at(0).clone()
        },
        None => {
            return ;
        },
    };
    let mut one: FileHeads = FileHeads::new();
    let ghost id = first@;
    one.insert(first, Some(merged));
    assert(one@ =~= map![id => Some(merged@)]);
    view.files.insert(path.to_owned(), one);
    assert(view@ =~= settled_at(start, path@, merged@));
}

/// A settled file has one version, the merged one, and no other file changes.
pub proof fn settling_concerns_one_file(view: ViewV, path: Seq<char>, merged: FileEntryV, other: Seq<char>)
    requires
        view.contains_key(path),
        view[path].dom().len() > 0,
    ensures
        settled_at(view, path, merged)[path].dom() == set![keys_of(view[path])[0]],
        settled_at(view, path, merged)[path][keys_of(view[path])[0]] == Some(merged),
        other != path ==> settled_at(view, path, merged).contains_key(other) == view.contains_key(other)
            && settled_at(view, path, merged)[other] == view[other],
{
    assert(settled_at(view, path, merged)[path].dom() =~= set![keys_of(view[path])[0]]);
}

} // verus!
