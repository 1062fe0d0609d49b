//! Reading what Git says of a repository, and recording its commits as
//! transactions.
use vstd::prelude::*;
use vstd::string::*;
use vstd::utf8::*;
use vstd::view::View as _;

use crate::collections::{keys_of, TextMap, TextSet};
use crate::encoding::{parse_decimal, read_decimal};
use crate::error::{about, lemma_first_problem, outcome, plain, Error, ErrorV, Problem};
use crate::history::{strip, stripped};
use crate::json::Json;
use crate::laws::recording_settles_the_view;
use crate::objects::{entry_check, EntryKind, FileEntry, FileEntryV, Snapshot, MAX_METADATA_BYTES};
use crate::paths::{from_bytes, lists_of, path_check, read_path, split, split_bytes, split_chars};
use crate::text::{
    chars_of, is_white_space, push_bytes, same_text, texts, trim_end, utf8_text, white_space, without_tail,
};
use crate::transactions::{edit_check, transaction_check, Transaction, TransactionV};
use crate::views::{applied, recorded, view_snapshot, View, ViewV};

verus! {

// Words

/// The words of a text: its longest runs without white space.
pub open spec fn words(text: Seq<char>) -> Seq<Seq<char>>
    decreases text.len(),
{
    if text.len() == 0 {
        Seq::empty()
    } else {
        let before = words(text.drop_last());
        if white_space(text.last()) {
            before
        } else if text.len() > 1 && !white_space(text[text.len() - 2]) {
            before.update(before.len() - 1, before.last().push(text.last()))
        } else {
            before.push(seq![text.last()])
        }
    }
}

fn words_of(chars: &[char]) -> (result: Vec<String>)
    ensures
        texts(result@) == words(chars@),
{
    let mut done: Vec<String> = Vec::new();
    let mut current = String::new();
    let mut inside = false;
    let mut i: usize = 0;
    assert(texts(done@) =~= Seq::<Seq<char>>::empty());
    assert(chars@.take(0).len() == 0);
    while i < chars.len()
        invariant
            i <= chars@.len(),
            inside == (i > 0 && !white_space(chars@[i - 1])),
            words(chars@.take(i as int)) == (if inside {
                texts(done@).push(current@)
            } else {
                texts(done@)
            }),
            !inside ==> current@.len() == 0,
        decreases chars@.len() - i,
    {
        let ghost so_far = texts(done@);
        let ghost prefix = chars@.take(i + 1);
        let c = chars[i];
        proof {
            assert(prefix.drop_last() =~= chars@.take(i as int));
            assert(prefix.last() == c);
            if i > 0 {
                assert(prefix[prefix.len() - 2] == chars@[i - 1]);
            }
        }
        if is_white_space(c) {
            if inside {
                let mut word = String::new();
                std::mem::swap(&mut word, &mut current);
                let ghost text = word@;
                done.push(word);
                assert(texts(done@) =~= so_far.push(text));
            }
            inside = false;
        } else {
            let ghost before = current@;
            current.push(c);
            proof {
                if inside {
                    assert(words(prefix) =~= so_far.push(before.push(c)));
                } else {
                    assert(before.push(c) =~= seq![c]);
                }
            }
            inside = true;
        }
        i += 1;
    }
    assert(chars@.take(i as int) =~= chars@);
    if inside {
        let ghost so_far = texts(done@);
        let ghost text = current@;
        done.push(current);
        assert(texts(done@) =~= so_far.push(text));
    }
    done
}

// History

/// A commit and its parents.
#[derive(Debug)]
pub struct CommitRecord {
    pub commit: String,
    pub parents: Vec<String>,
}

/// The words of a record, the commit first.
pub open spec fn record_words(record: CommitRecord) -> Seq<Seq<char>> {
    seq![record.commit@] + texts(record.parents@)
}

/// The lines of a text, without an empty one at its end.
pub open spec fn lines(text: Seq<char>) -> Seq<Seq<char>> {
    let all = split(text, '\n');
    if all.last().len() == 0 {
        all.drop_last()
    } else {
        all
    }
}

/// Every commit is on a line, followed by its parents.
pub open spec fn history_records(text: Seq<char>) -> Seq<Seq<Seq<char>>> {
    lines(text).map_values(|line: Seq<char>| words(line))
}

/// Read the commits of a repository and their parents, a line each.
pub fn parse_history(text: &str) -> (result: Result<Vec<CommitRecord>, Error>)
    ensures
        match result {
            Ok(records) => records@.map_values(|record: CommitRecord| record_words(record)) == history_records(text@),
            Err(error) => {
                &&& error@ == plain(Problem::EmptyCommitRecord)
                &&& exists|i: int|
                    0 <= i < history_records(text@).len() && (#[trigger] history_records(text@)[i]).len() == 0
            },
        },
{
    let list = split_chars(chars_of(text).as_slice(), '\n');
    let ghost all = split(text@, '\n');
    assert(list@[list@.len() - 1]@ == all.last());
    let n: usize = if list[list.len() - 1].len() == 0 {
        list.len() - 1
    } else {
        list.len()
    };
    let ghost goal = history_records(text@);
    let mut records: Vec<CommitRecord> = Vec::new();
    let mut i: usize = 0;
    while i < n
        invariant
            i <= n <= list@.len(),
            n == lines(text@).len(),
            lists_of(list@) == split(text@, '\n'),
            goal == history_records(text@),
            records@.len() == i,
            forall|j: int| 0 <= j < i ==> record_words(#[trigger] records@[j]) == goal[j],
        decreases n - i,
    {
        let mut line = words_of(list[i].as_slice());
        proof {
            assert(lists_of(list@)[i as int] == list@[i as int]@);
            assert(lines(text@)[i as int] == list@[i as int]@);
            assert(goal[i as int] == texts(line@));
        }
        if line.len() == 0 {
            return Err(Error::plain(Problem::EmptyCommitRecord));
        }
        let ghost all_words = line@;
        let commit = line.remove(0);
        let record = CommitRecord { commit, parents: line };
        assert(record_words(record) =~= texts(all_words));
        records.push(record);
        i += 1;
    }
    assert(records@.map_values(|record: CommitRecord| record_words(record)) =~= goal);
    Ok(records)
}

/// The roots that the parents of a commit have together.
pub open spec fn roots_together(roots: Map<Seq<char>, Set<Seq<char>>>, parents: Seq<Seq<char>>) -> Set<Seq<char>> {
    Set::new(|id: Seq<char>| exists|i: int| 0 <= i < parents.len() && #[trigger] roots[parents[i]].contains(id))
}

/// Where the recording of a commit begins: at what its parents led to
/// together. Side branches stay independent until a merge joins them.
pub fn join_parents(roots: &TextMap<TextSet>, parents: &[String]) -> (result: TextSet)
    requires
        forall|i: int| 0 <= i < parents@.len() ==> roots@.contains_key((#[trigger] parents@[i])@),
    ensures
        result@ == roots_together(roots@, texts(parents@)),
{
    let ghost all = texts(parents@);
    let mut result = TextSet::new();
    let mut i: usize = 0;
    assert(result@ =~= roots_together(roots@, all.take(0)));
    while i < parents.len()
        invariant
            i <= parents@.len(),
            all == texts(parents@),
            forall|j: int| 0 <= j < parents@.len() ==> roots@.contains_key((#[trigger] parents@[j])@),
            result@ == roots_together(roots@, all.take(i as int)),
        decreases parents@.len() - i,
    {
        let ghost before = result@;
        let ghost parent = parents@[i as int]@;
        if let Some(set) = roots.get(parents[i].as_str()) {
            result.extend(set);
        }
        proof {
            let old_list = all.take(i as int);
            let new_list = all.take(i + 1);
            assert(new_list =~= old_list.push(parent));
            assert forall|id: Seq<char>| result@.contains(id) <==> roots_together(roots@, new_list).contains(id) by {
                if roots_together(roots@, new_list).contains(id) {
                    let j = choose|j: int| 0 <= j < new_list.len() && #[trigger] roots@[new_list[j]].contains(id);
                    if j < i {
                        assert(roots@[old_list[j]].contains(id));
                    }
                }
                if before.contains(id) {
                    let j = choose|j: int| 0 <= j < old_list.len() && #[trigger] roots@[old_list[j]].contains(id);
                    assert(roots@[new_list[j]].contains(id));
                }
                if roots@[parent].contains(id) {
                    assert(roots@[new_list[i as int]].contains(id));
                }
            }
            assert(result@ =~= roots_together(roots@, new_list));
        }
        i += 1;
    }
    assert(all.take(parents@.len() as int) =~= all);
    result
}

// Trees

/// A file of a commit, as Git lists it.
#[derive(Debug)]
pub struct TreeEntry {
    pub mode: String,
    pub id: String,
    pub size: u64,
    pub path: String,
}

/// The mathematical value of a `TreeEntry`.
#[verifier::ext_equal]
pub struct TreeEntryV {
    pub mode: Seq<char>,
    pub id: Seq<char>,
    pub size: u64,
    pub path: Seq<char>,
}

impl vstd::view::View for TreeEntry {
    type V = TreeEntryV;

    open spec fn view(&self) -> TreeEntryV {
        TreeEntryV { mode: self.mode@, id: self.id@, size: self.size, path: self.path@ }
    }
}

impl DeepView for TreeEntry {
    type V = TreeEntryV;

    open spec fn deep_view(&self) -> TreeEntryV {
        self@
    }
}

/// Where the first tabulator stands, or the end.
pub open spec fn first_tab(entry: Seq<u8>) -> int
    decreases entry.len(),
{
    if entry.len() == 0 || entry[0] == 9 {
        0
    } else {
        1 + first_tab(entry.drop_first())
    }
}

/// A line of a listing: mode, type, identity and size, and after a tabulator
/// the path.
pub open spec fn tree_entry(entry: Seq<u8>) -> Result<TreeEntryV, ErrorV> {
    let tab = first_tab(entry);
    if tab >= entry.len() || !valid_utf8(entry.take(tab)) {
        Err(plain(Problem::InvalidTreeEntry))
    } else {
        let header = words(decode_utf8(entry.take(tab)));
        if header.len() != 4 || header[1] != "blob"@ {
            Err(plain(Problem::Submodule))
        } else {
            match read_path(entry.skip(tab + 1)) {
                Err(error) => Err(error),
                Ok(path) => match path_check(path) {
                    Err(error) => Err(error),
                    Ok(()) => match read_decimal(header[3]) {
                        None => Err(plain(Problem::InvalidTreeSize)),
                        Some(size) => Ok(TreeEntryV { mode: header[0], id: header[2], size, path }),
                    },
                },
            }
        }
    }
}

fn locate_tab(entry: &[u8]) -> (at: usize)
    ensures
        at == first_tab(entry@),
        at <= entry@.len(),
{
    let mut at: usize = 0;
    assert(entry@.skip(0) =~= entry@);
    while at < entry.len() && entry[at] != 9
        invariant
            at <= entry@.len(),
            first_tab(entry@) == at + first_tab(entry@.skip(at as int)),
        decreases entry@.len() - at,
    {
        assert(entry@.skip(at as int)[0] == entry@[at as int]);
        assert(entry@.skip(at as int).drop_first() =~= entry@.skip(at + 1));
        at += 1;
    }
    at
}

fn parse_tree_entry(entry: &[u8]) -> (result: Result<TreeEntry, Error>)
    ensures
        outcome(result) == tree_entry(entry@),
{
    assert(entry@.len() == entry.len());
    let tab: usize = locate_tab(entry);
    if tab >= entry.len() {
        return Err(Error::plain(Problem::InvalidTreeEntry));
    }
    let mut head: Vec<u8> = Vec::new();
    push_bytes(&mut head, vstd::slice::slice_subrange(entry, 0, tab));
    assert(head@ =~= entry@.take(tab as int));
    let text = match utf8_text(head) {
        Some(text) => text,
        None => {
            return Err(Error::plain(Problem::InvalidTreeEntry));
        },
    };
    let header = words_of(chars_of(text.as_str()).as_slice());
    let ghost found = words(text@);
    assert(found.len() == header@.len());
    if header.len() != 4 || !same_text(header[1].as_str(), "blob") {
        return Err(Error::plain(Problem::Submodule));
    }
    let rest = vstd::slice::slice_subrange(entry, tab + 1, entry.len());
    assert(rest@ =~= entry@.skip(tab + 1));
    let path = from_bytes(rest)?;
    crate::paths::validate(path.as_str())?;
    match parse_decimal(header[3].as_str()) {
        None => Err(Error::plain(Problem::InvalidTreeSize)),
        Some(size) => Ok(TreeEntry { mode: header[0].clone(), id: header[2].clone(), size, path }),
    }
}

/// The files of some lines of a listing, or the first problem with them.
pub open spec fn tree_entries(lines: Seq<Seq<u8>>) -> Result<Seq<TreeEntryV>, ErrorV>
    decreases lines.len(),
{
    if lines.len() == 0 {
        Ok(Seq::empty())
    } else {
        match tree_entries(lines.drop_last()) {
            Err(error) => Err(error),
            Ok(before) => if lines.last().len() == 0 {
                Ok(before)
            } else {
                match tree_entry(lines.last()) {
                    Err(error) => Err(error),
                    Ok(entry) => Ok(before.push(entry)),
                }
            },
        }
    }
}

proof fn lemma_tree_entries_fail(lines: Seq<Seq<u8>>, n: int)
    requires
        0 <= n <= lines.len(),
        tree_entries(lines.take(n)) is Err,
    ensures
        tree_entries(lines) == tree_entries(lines.take(n)),
    decreases lines.len(),
{
    if n == lines.len() {
        assert(lines.take(n) =~= lines);
    } else {
        assert(lines.drop_last().take(n) =~= lines.take(n));
        lemma_tree_entries_fail(lines.drop_last(), n);
    }
}

/// Read the listing of a commit, whose lines end in a zero byte.
pub fn parse_tree(listing: &[u8]) -> (result: Result<Vec<TreeEntry>, Error>)
    ensures
        outcome(result) == tree_entries(split(listing@, 0u8)),
{
    let list = split_bytes(listing, 0);
    let ghost all = split(listing@, 0u8);
    let mut entries: Vec<TreeEntry> = Vec::new();
    let mut i: usize = 0;
    assert(all.take(0).len() == 0);
    assert(entries.deep_view() =~= Seq::<TreeEntryV>::empty());
    while i < list.len()
        invariant
            i <= list@.len(),
            lists_of(list@) == all,
            all == split(listing@, 0u8),
            tree_entries(all.take(i as int)) == Ok::<Seq<TreeEntryV>, ErrorV>(entries.deep_view()),
        decreases list@.len() - i,
    {
        let ghost before = entries.deep_view();
        proof {
            assert(all.take(i + 1).drop_last() =~= all.take(i as int));
            assert(all.take(i + 1).last() == list@[i as int]@);
        }
        if list[i].len() > 0 {
            match parse_tree_entry(list[i].as_slice()) {
                Ok(entry) => {
                    entries.push(entry);
                    assert(entries.deep_view() =~= before.push(entry@));
                },
                Err(error) => {
                    proof {
                        lemma_tree_entries_fail(all, i + 1);
                    }
                    return Err(error);
                },
            }
        }
        i += 1;
    }
    assert(all.take(list@.len() as int) =~= all);
    Ok(entries)
}

/// Whether a file of a given mode is executable.
pub fn is_executable(mode: &str) -> (result: bool)
    ensures
        result == (mode@ == "100755"@),
{
    same_text(mode, "100755")
}

/// A file of a given mode, by the content that was stored for it.
pub fn entry_of_mode(entry: FileEntry, mode: &str) -> (result: FileEntry)
    ensures
        result@ == (FileEntryV {
            kind: if mode@ == "120000"@ {
                EntryKind::Symlink
            } else {
                entry.kind
            },
            ..entry@
        }),
{
    let mut result = entry;
    if same_text(mode, "120000") {
        result.kind = EntryKind::Symlink;
    }
    result
}

// Recording

/// A commit as a transaction: it leads from what its parents led to, to the
/// files of the commit, and keeps the commit as Git stores it.
pub open spec fn imported(
    view: ViewV,
    files: Map<Seq<char>, FileEntryV>,
    message: Seq<char>,
    commit: Seq<char>,
    origin: FileEntryV,
) -> Result<TransactionV, ErrorV> {
    match recorded(view, files, without_tail(message), commit) {
        Err(error) => Err(error),
        Ok(transaction) => {
            let kept = TransactionV { format: 2, provenance: Some(origin), ..transaction };
            if encode_utf8(Transaction::json_of(kept)).len() > MAX_METADATA_BYTES {
                Err(about(Problem::CommitTooLarge, commit))
            } else {
                Ok(kept)
            }
        },
    }
}

/// Record a commit as a transaction.
pub fn import_commit(view: &View, snapshot: &Snapshot, message: &str, commit: &str, origin: FileEntry) -> (result: Result<
    Transaction,
    Error,
>)
    ensures
        outcome(result) == imported(view@, snapshot@, message@, commit@, origin@),
{
    let mut transaction = view.record(snapshot, trim_end(message), commit.to_owned())?;
    transaction.format = 2;
    transaction.provenance = Some(origin);
    let text = transaction.to_json();
    if text.as_str().as_bytes().len() > MAX_METADATA_BYTES {
        return Err(Error::about(Problem::CommitTooLarge, commit.to_owned()));
    }
    Ok(transaction)
}

/// A commit that is recorded is a valid transaction.
pub proof fn imported_commits_are_valid(
    view: ViewV,
    files: Map<Seq<char>, FileEntryV>,
    message: Seq<char>,
    commit: Seq<char>,
    origin: FileEntryV,
)
    requires
        imported(view, files, message, commit, origin) is Ok,
        entry_check(origin) is Ok,
    ensures
        transaction_check(imported(view, files, message, commit, origin)->Ok_0) is Ok,
{
    let plain_one = recorded(view, files, without_tail(message), commit)->Ok_0;
    let kept = imported(view, files, message, commit, origin)->Ok_0;
    let keys = keys_of(kept.edits);
    let first = |path: Seq<char>| edit_check(plain_one.format, path, plain_one.edits[path]);
    let second = |path: Seq<char>| edit_check(kept.format, path, kept.edits[path]);
    lemma_first_problem(keys, first);
    lemma_first_problem(keys, second);
    assert forall|i: int| 0 <= i < keys.len() implies second(#[trigger] keys[i]) is Ok by {
        assert(first(keys[i]) is Ok);
    }
}

/// Whatever a merge brings together, once its commit is recorded the files are
/// those of the commit and nothing needs a decision.
pub proof fn imported_commits_give_their_files(
    view: ViewV,
    files: Map<Seq<char>, FileEntryV>,
    message: Seq<char>,
    commit: Seq<char>,
    origin: FileEntryV,
    id: Seq<char>,
)
    requires
        files.dom().finite(),
        forall|path: Seq<char>| #[trigger] view.contains_key(path) ==> view[path].dom().finite(),
        imported(view, files, message, commit, origin) is Ok,
    ensures
        view_snapshot(applied(view, id, imported(view, files, message, commit, origin)->Ok_0.edits)) == Ok::<
            Map<Seq<char>, FileEntryV>,
            ErrorV,
        >(files),
{
    recording_settles_the_view(view, files, without_tail(message), commit, id);
}

/// The name of a tag without the place where Git keeps tags.
pub open spec fn tag_of(reference: Seq<char>) -> Seq<char>
    decreases reference.len(),
{
    match stripped(reference, "refs/tags/"@) {
        Some(rest) => if rest.len() < reference.len() {
            tag_of(rest)
        } else {
            reference
        },
        None => reference,
    }
}

/// The name of a tag.
pub fn tag_name(reference: &str) -> (name: String)
    ensures
        name@ == tag_of(reference@),
{
    let mut name = reference.to_owned();
    proof {
        reveal_strlit("refs/tags/");
    }
    loop
        invariant
            tag_of(name@) == tag_of(reference@),
            "refs/tags/"@.len() > 0,
        decreases name@.len(),
    {
        match strip(name.as_str(), "refs/tags/") {
            Some(rest) => {
                name = rest;
            },
            None => {
                return name;
            },
        }
    }
}

} // verus!
