//! Atomic, file-scoped changes. The state of a project is a set of
//! transactions that is closed under dependencies, not a chain of commits of
//! the whole project. Concurrent values are retained explicitly.
use vstd::prelude::*;
use vstd::string::*;
use vstd::utf8::*;
use vstd::view::View as _;

use crate::collections::{keys_of, lists, ordered, TextMap, TextSet, Value};
use crate::encoding::{decimal, read_be64, unbe64, unhex, unhex_chars};
use crate::error::{about, first_problem, lemma_first_problem_step, outcome, plain, verdict, Error, ErrorV, Problem};
use crate::json::{json_list, list_to_json, quoted, Json};
use crate::objects::{
    entry_check, hash_check, object_hash, object_id, valid_hash, valid_name, validate_hash, validate_name,
    validate_path, FileEntry, FileEntryV, MAX_BLOB_BYTES, MAX_MESSAGE_BYTES,
};
use crate::paths::path_check;
use crate::text::{blank, chars_of, is_blank, texts};

pub use crate::graphs::Graph;
pub use crate::views::{FileHeads, View};

verus! {

pub const PROTOCOL: &'static str = "kelp/1";

// Edits and transactions

/// A new value for one file. The parents are only the preceding versions of
/// this file, deletions among them.
#[derive(Debug)]
pub struct Edit {
    pub parents: TextSet,
    pub value: Option<FileEntry>,
}

/// The mathematical value of a `Edit`.
#[verifier::ext_equal]
pub struct EditV {
    pub parents: Set<Seq<char>>,
    pub value: Option<FileEntryV>,
}

impl vstd::view::View for Edit {
    type V = EditV;

    open spec fn view(&self) -> EditV {
        EditV {
            parents: self.parents@,
            value: self.value.deep_view(),
        }
    }
}

impl DeepView for Edit {
    type V = EditV;

    open spec fn deep_view(&self) -> EditV {
        self@
    }
}

impl Value for Edit {
    fn copied(&self) -> (result: Self) {
        Edit {
            parents: self.parents.copied(),
            value: self.value.copied(),
        }
    }

    fn same(&self, other: &Self) -> (result: bool) {
        self.parents.same(&other.parents)
            && self.value.same(&other.value)
    }
}

impl Clone for Edit {
    fn clone(&self) -> (result: Self)
        ensures
            result@ == self@,
    {
        self.copied()
    }
}

impl PartialEq for Edit {
    fn eq(&self, other: &Edit) -> (result: bool) {
        self.same(other)
    }
}

impl vstd::std_specs::cmp::PartialEqSpecImpl for Edit {
    open spec fn obeys_eq_spec() -> bool {
        true
    }

    open spec fn eq_spec(&self, other: &Edit) -> bool {
        self@ == other@
    }
}

impl Json for Edit {
    open spec fn json_of(value: EditV) -> Seq<char> {
        "{\"parents\":"@ + TextSet::json_of(value.parents) + ",\"value\":"@ + Option::<FileEntry>::json_of(
            value.value,
        ) + "}"@
    }

    fn to_json(&self) -> (text: String) {
        let mut text = "{\"parents\":".to_owned();
        text.append(self.parents.to_json().as_str());
        text.append(",\"value\":");
        text.append(self.value.to_json().as_str());
        text.append("}");
        text
    }
}

/// Edits that belong together, with the words that describe them.
#[derive(Debug)]
pub struct Transaction {
    pub format: u32,
    pub nonce: String,
    pub message: String,
    pub edits: TextMap<Edit>,
    pub provenance: Option<FileEntry>,
}

/// The mathematical value of a `Transaction`.
#[verifier::ext_equal]
pub struct TransactionV {
    pub format: u32,
    pub nonce: Seq<char>,
    pub message: Seq<char>,
    pub edits: Map<Seq<char>, EditV>,
    pub provenance: Option<FileEntryV>,
}

impl vstd::view::View for Transaction {
    type V = TransactionV;

    open spec fn view(&self) -> TransactionV {
        TransactionV {
            format: self.format,
            nonce: self.nonce@,
            message: self.message@,
            edits: self.edits@,
            provenance: self.provenance.deep_view(),
        }
    }
}

impl DeepView for Transaction {
    type V = TransactionV;

    open spec fn deep_view(&self) -> TransactionV {
        self@
    }
}

impl Value for Transaction {
    fn copied(&self) -> (result: Self) {
        Transaction {
            format: self.format,
            nonce: self.nonce.clone(),
            message: self.message.clone(),
            edits: self.edits.copied(),
            provenance: self.provenance.copied(),
        }
    }

    fn same(&self, other: &Self) -> (result: bool) {
        self.format == other.format
            && self.nonce.same(&other.nonce)
            && self.message.same(&other.message)
            && self.edits.same(&other.edits)
            && self.provenance.same(&other.provenance)
    }
}

impl Clone for Transaction {
    fn clone(&self) -> (result: Self)
        ensures
            result@ == self@,
    {
        self.copied()
    }
}

impl PartialEq for Transaction {
    fn eq(&self, other: &Transaction) -> (result: bool) {
        self.same(other)
    }
}

impl vstd::std_specs::cmp::PartialEqSpecImpl for Transaction {
    open spec fn obeys_eq_spec() -> bool {
        true
    }

    open spec fn eq_spec(&self, other: &Transaction) -> bool {
        self@ == other@
    }
}

impl Json for Transaction {
    open spec fn json_of(value: TransactionV) -> Seq<char> {
        "{\"format\":"@ + decimal(value.format as nat) + ",\"nonce\":"@ + quoted(value.nonce)
            + ",\"message\":"@ + quoted(value.message) + ",\"edits\":"@ + TextMap::<Edit>::json_of(value.edits)
            + (match value.provenance {
            Some(entry) => ",\"provenance\":"@ + FileEntry::json_of(entry),
            None => Seq::empty(),
        }) + "}"@
    }

    fn to_json(&self) -> (text: String) {
        let mut text = "{\"format\":".to_owned();
        let format: u64 = self.format as u64;
        text.append(format.to_json().as_str());
        text.append(",\"nonce\":");
        text.append(self.nonce.to_json().as_str());
        text.append(",\"message\":");
        text.append(self.message.to_json().as_str());
        text.append(",\"edits\":");
        text.append(self.edits.to_json().as_str());
        let ghost so_far = text@;
        match &self.provenance {
            Some(entry) => {
                text.append(",\"provenance\":");
                text.append(entry.to_json().as_str());
                assert(text@ =~= so_far + (",\"provenance\":"@ + FileEntry::json_of(entry@)));
            },
            None => {
                assert(so_far + Seq::<char>::empty() =~= so_far);
            },
        }
        text.append("}");
        text
    }
}

/// The identity of a transaction.
pub open spec fn transaction_id(transaction: TransactionV) -> Seq<char> {
    object_hash("transaction"@, encode_utf8(Transaction::json_of(transaction)))
}

/// What is wrong with the new value of a file. The first format knows only
/// regular files.
pub open spec fn value_check(format: u32, path: Seq<char>, entry: FileEntryV) -> Result<(), ErrorV> {
    if format == 2 {
        entry_check(entry)
    } else if !valid_hash(entry.blob) {
        Err(about(Problem::InvalidObjectId, entry.blob))
    } else if !entry.kind.regular() {
        Err(plain(Problem::UnsupportedTransaction))
    } else if entry.size > MAX_BLOB_BYTES {
        Err(about(Problem::FileTooLarge, path))
    } else {
        Ok(())
    }
}

/// What is wrong with one edit.
pub open spec fn edit_check(format: u32, path: Seq<char>, edit: EditV) -> Result<(), ErrorV> {
    match path_check(path) {
        Err(error) => Err(error),
        Ok(()) => match first_problem(ordered(edit.parents), |id: Seq<char>| hash_check(id)) {
            Err(error) => Err(error),
            Ok(()) => match edit.value {
                Some(entry) => value_check(format, path, entry),
                None => Ok(()),
            },
        },
    }
}

/// What is wrong with the parts of a transaction other than its edits.
pub open spec fn header_check(transaction: TransactionV) -> Result<(), ErrorV> {
    if transaction.format != 1 && transaction.format != 2 {
        Err(plain(Problem::UnsupportedTransaction))
    } else if !valid_name(transaction.nonce) {
        Err(plain(Problem::InvalidName))
    } else if blank(transaction.message) || encode_utf8(transaction.message).len() > MAX_MESSAGE_BYTES {
        Err(plain(Problem::UndescribedCommit))
    } else {
        match transaction.provenance {
            Some(entry) => if transaction.format == 1 {
                Err(plain(Problem::UnsupportedTransaction))
            } else {
                entry_check(entry)
            },
            None => Ok(()),
        }
    }
}

/// What is wrong with a transaction taken by itself.
pub open spec fn transaction_check(transaction: TransactionV) -> Result<(), ErrorV> {
    match header_check(transaction) {
        Err(error) => Err(error),
        Ok(()) => first_problem(
            keys_of(transaction.edits),
            |path: Seq<char>| edit_check(transaction.format, path, transaction.edits[path]),
        ),
    }
}

/// The transactions that a transaction builds on.
pub open spec fn dependencies_of(transaction: TransactionV) -> Set<Seq<char>> {
    Set::new(
        |id: Seq<char>|
            exists|path: Seq<char>| #[trigger]
                transaction.edits.contains_key(path) && transaction.edits[path].parents.contains(id),
    )
}

/// A dependency must be there, under its own identity.
pub open spec fn presence_check(known: Map<Seq<char>, TransactionV>, id: Seq<char>) -> Result<(), ErrorV> {
    if !known.contains_key(id) {
        Err(about(Problem::MissingDependency, id))
    } else if transaction_id(known[id]) != id {
        Err(plain(Problem::DependencyMismatch))
    } else {
        Ok(())
    }
}

/// A dependency must have written the file that is based on it.
pub open spec fn write_check(
    known: Map<Seq<char>, TransactionV>,
    path: Seq<char>,
    id: Seq<char>,
) -> Result<(), ErrorV> {
    if !known.contains_key(id) {
        Err(about(Problem::MissingDependency, id))
    } else if !known[id].edits.contains_key(path) {
        Err(about(Problem::UnwrittenDependency, id + " did not write "@ + path))
    } else {
        Ok(())
    }
}

/// What is wrong with a transaction in view of the ones it builds on.
pub open spec fn parents_check(
    transaction: TransactionV,
    known: Map<Seq<char>, TransactionV>,
) -> Result<(), ErrorV> {
    match transaction_check(transaction) {
        Err(error) => Err(error),
        Ok(()) => match first_problem(
            ordered(dependencies_of(transaction)),
            |id: Seq<char>| presence_check(known, id),
        ) {
            Err(error) => Err(error),
            Ok(()) => first_problem(
                keys_of(transaction.edits),
                |path: Seq<char>|
                    first_problem(
                        ordered(transaction.edits[path].parents),
                        |id: Seq<char>| write_check(known, path, id),
                    ),
            ),
        },
    }
}

fn check_hashes(ids: &TextSet) -> (result: Result<(), Error>)
    ensures
        verdict(result) == first_problem(ordered(ids@), |id: Seq<char>| hash_check(id)),
{
    let n = ids.len();
    let mut i: usize = 0;
    let ghost list = ordered(ids@);
    let ghost check = |id: Seq<char>| hash_check(id);
    assert(list.skip(0) =~= list);
    while i < n
        invariant
            i <= n,
            n == ids@.len(),
            n == list.len(),
            list == ordered(ids@),
            check == (|id: Seq<char>| hash_check(id)),
            first_problem(list, check) == first_problem(list.skip(i as int), check),
        decreases n - i,
    {
        proof {
            lemma_first_problem_step(list, check, i as int);
        }
        validate_hash(ids.at(i).as_str())?;
        i += 1;
    }
    assert(list.skip(n as int).len() == 0);
    Ok(())
}

fn check_value(format: u32, path: &String, entry: &FileEntry) -> (result: Result<(), Error>)
    ensures
        verdict(result) == value_check(format, path@, entry@),
{
    if format == 2 {
        return entry.validate();
    }
    validate_hash(entry.blob.as_str())?;
    if !entry.kind.is_regular() {
        return Err(Error::plain(Problem::UnsupportedTransaction));
    }
    if entry.size > MAX_BLOB_BYTES as u64 {
        return Err(Error::about(Problem::FileTooLarge, path.clone()));
    }
    Ok(())
}

impl Transaction {
    pub fn id(&self) -> (result: Result<String, Error>)
        ensures
            outcome(result) == Ok::<Seq<char>, ErrorV>(transaction_id(self@)),
    {
        let text = self.to_json();
        Ok(object_id("transaction", text.as_str().as_bytes()))
    }

    fn validate_header(&self) -> (result: Result<(), Error>)
        ensures
            verdict(result) == header_check(self@),
    {
        if self.format != 1 && self.format != 2 {
            return Err(Error::plain(Problem::UnsupportedTransaction));
        }
        validate_name(self.nonce.as_str())?;
        if is_blank(self.message.as_str()) || self.message.as_str().as_bytes().len() > MAX_MESSAGE_BYTES {
            return Err(Error::plain(Problem::UndescribedCommit));
        }
        match &self.provenance {
            Some(entry) => {
                if self.format == 1 {
                    return Err(Error::plain(Problem::UnsupportedTransaction));
                }
                entry.validate()
            },
            None => Ok(()),
        }
    }

    pub fn validate(&self) -> (result: Result<(), Error>)
        ensures
            verdict(result) == transaction_check(self@),
    {
        self.validate_header()?;
        let n = self.edits.len();
        let mut i: usize = 0;
        let ghost keys = keys_of(self.edits@);
        let ghost check = |path: Seq<char>| edit_check(self.format, path, self.edits@[path]);
        assert(keys.skip(0) =~= keys);
        while i < n
            invariant
                i <= n,
                n == self.edits@.dom().len(),
                n == keys.len(),
                keys == keys_of(self.edits@),
                check == (|path: Seq<char>| edit_check(self.format, path, self.edits@[path])),
                transaction_check(self@) == first_problem(keys.skip(i as int), check),
            decreases n - i,
        {
            let path = self.edits.key_at(i);
            let edit = self.edits.value_at(i);
            proof {
                lemma_first_problem_step(keys, check, i as int);
            }
            validate_path(path.as_str())?;
            check_hashes(&edit.parents)?;
            if let Some(entry) = &edit.value {
                check_value(self.format, path, entry)?;
            }
            i += 1;
        }
        assert(keys.skip(n as int).len() == 0);
        Ok(())
    }

    pub fn dependencies(&self) -> (result: TextSet)
        ensures
            result@ == dependencies_of(self@),
    {
        let mut result = TextSet::new();
        let n = self.edits.len();
        let mut i: usize = 0;
        let ghost keys = keys_of(self.edits@);
        while i < n
            invariant
                i <= n,
                n == self.edits@.dom().len(),
                n == keys.len(),
                keys == keys_of(self.edits@),
                lists(keys, self.edits@.dom()),
                forall|id: Seq<char>|
                    #[trigger] result@.contains(id) <==> exists|j: int|
                        0 <= j < i && (#[trigger] self.edits@[keys[j]]).parents.contains(id),
            decreases n - i,
        {
            let ghost so_far = result@;
            let edit = self.edits.value_at(i);
            result.extend(&edit.parents);
            proof {
                assert forall|id: Seq<char>|
                    #[trigger] result@.contains(id) <==> exists|j: int|
                        0 <= j < i + 1 && (#[trigger] self.edits@[keys[j]]).parents.contains(id) by {
                    if result@.contains(id) {
                        if so_far.contains(id) {
                            let j = choose|j: int|
                                0 <= j < i && (#[trigger] self.edits@[keys[j]]).parents.contains(id);
                            assert(0 <= j < i + 1);
                        } else {
                            assert(self.edits@[keys[i as int]].parents.contains(id));
                        }
                    }
                    if exists|j: int| 0 <= j < i + 1 && (#[trigger] self.edits@[keys[j]]).parents.contains(id) {
                        let j = choose|j: int|
                            0 <= j < i + 1 && (#[trigger] self.edits@[keys[j]]).parents.contains(id);
                        if j < i {
                            assert(so_far.contains(id));
                        }
                    }
                }
            }
            i += 1;
        }
        proof {
            assert forall|id: Seq<char>| result@.contains(id) <==> dependencies_of(self@).contains(id) by {
                if result@.contains(id) {
                    let j = choose|j: int| 0 <= j < n && (#[trigger] self.edits@[keys[j]]).parents.contains(id);
                    assert(keys.contains(keys[j]));
                    assert(self.edits@.dom().contains(keys[j]));
                    assert(self@.edits.contains_key(keys[j]));
                }
                if dependencies_of(self@).contains(id) {
                    let path = choose|path: Seq<char>| #[trigger]
                        self@.edits.contains_key(path) && self@.edits[path].parents.contains(id);
                    assert(self.edits@.dom().contains(path));
                    let j = choose|j: int| 0 <= j < keys.len() && keys[j] == path;
                    assert(self.edits@[keys[j]].parents.contains(id));
                }
            }
            assert(result@ =~= dependencies_of(self@));
        }
        result
    }

    fn validate_presence(&self, parents: &TextMap<Transaction>) -> (result: Result<(), Error>)
        ensures
            verdict(result) == first_problem(
                ordered(dependencies_of(self@)),
                |id: Seq<char>| presence_check(parents@, id),
            ),
    {
        let ids = self.dependencies();
        let n = ids.len();
        let mut i: usize = 0;
        let ghost list = ordered(ids@);
        let ghost check = |id: Seq<char>| presence_check(parents@, id);
        assert(list.skip(0) =~= list);
        while i < n
            invariant
                i <= n,
                n == ids@.len(),
                n == list.len(),
                list == ordered(ids@),
                ids@ == dependencies_of(self@),
                check == (|id: Seq<char>| presence_check(parents@, id)),
                first_problem(list, check) == first_problem(list.skip(i as int), check),
            decreases n - i,
        {
            proof {
                lemma_first_problem_step(list, check, i as int);
            }
            let id = ids.at(i);
            match parents.get(id.as_str()) {
                None => {
                    return Err(Error::about(Problem::MissingDependency, id.clone()));
                },
                Some(parent) => {
                    let actual = parent.id()?;
                    if actual != *id {
                        return Err(Error::plain(Problem::DependencyMismatch));
                    }
                },
            }
            i += 1;
        }
        assert(list.skip(n as int).len() == 0);
        Ok(())
    }

    /// Check the transaction against the ones that it builds on.
    pub fn validate_parents(&self, parents: &TextMap<Transaction>) -> (result: Result<(), Error>)
        ensures
            verdict(result) == parents_check(self@, parents@),
    {
        self.validate()?;
        self.validate_presence(parents)?;
        let n = self.edits.len();
        let mut i: usize = 0;
        let ghost keys = keys_of(self.edits@);
        let ghost check = |path: Seq<char>|
            first_problem(
                ordered(self.edits@[path].parents),
                |id: Seq<char>| write_check(parents@, path, id),
            );
        assert(keys.skip(0) =~= keys);
        assert(parents_check(self@, parents@) == first_problem(keys, check));
        while i < n
            invariant
                i <= n,
                n == self.edits@.dom().len(),
                n == keys.len(),
                keys == keys_of(self.edits@),
                check == (|path: Seq<char>|
                    first_problem(
                        ordered(self.edits@[path].parents),
                        |id: Seq<char>| write_check(parents@, path, id),
                    )),
                parents_check(self@, parents@) == first_problem(keys.skip(i as int), check),
            decreases n - i,
        {
            proof {
                lemma_first_problem_step(keys, check, i as int);
            }
            check_writes(self.edits.key_at(i), &self.edits.value_at(i).parents, parents)?;
            i += 1;
        }
        assert(keys.skip(n as int).len() == 0);
        Ok(())
    }
}

fn check_writes(path: &String, ids: &TextSet, parents: &TextMap<Transaction>) -> (result: Result<(), Error>)
    ensures
        verdict(result) == first_problem(
            ordered(ids@),
            |id: Seq<char>| write_check(parents@, path@, id),
        ),
{
    let n = ids.len();
    let mut i: usize = 0;
    let ghost list = ordered(ids@);
    let ghost check = |id: Seq<char>| write_check(parents@, path@, id);
    assert(list.skip(0) =~= list);
    while i < n
        invariant
            i <= n,
            n == ids@.len(),
            n == list.len(),
            list == ordered(ids@),
            check == (|id: Seq<char>| write_check(parents@, path@, id)),
            first_problem(list, check) == first_problem(list.skip(i as int), check),
        decreases n - i,
    {
        proof {
            lemma_first_problem_step(list, check, i as int);
        }
        let id = ids.at(i);
        match parents.get(id.as_str()) {
            None => {
                return Err(Error::about(Problem::MissingDependency, id.clone()));
            },
            Some(parent) => {
                if !parent.edits.contains_key(path.as_str()) {
                    let mut subject = id.clone();
                    subject.append(" did not write ");
                    subject.append(path.as_str());
                    return Err(Error::about(Problem::UnwrittenDependency, subject));
                }
            },
        }
        i += 1;
    }
    assert(list.skip(n as int).len() == 0);
    Ok(())
}

// Saved views

/// An exact, restorable local state with its causal context. A recovery
/// snapshot can hold draft bytes without inventing new transactions. Only a
/// partial state names the paths that it covers.
#[derive(Debug)]
pub struct SavedView {
    pub format: u32,
    pub snapshot: String,
    pub roots: TextSet,
    pub paths: Vec<String>,
}

/// The mathematical value of a `SavedView`.
#[verifier::ext_equal]
pub struct SavedViewV {
    pub format: u32,
    pub snapshot: Seq<char>,
    pub roots: Set<Seq<char>>,
    pub paths: Seq<Seq<char>>,
}

impl vstd::view::View for SavedView {
    type V = SavedViewV;

    open spec fn view(&self) -> SavedViewV {
        SavedViewV {
            format: self.format,
            snapshot: self.snapshot@,
            roots: self.roots@,
            paths: texts(self.paths@),
        }
    }
}

/// The canonical JSON of a saved view.
pub open spec fn saved_json(
    format: u32,
    snapshot: Seq<char>,
    roots: Set<Seq<char>>,
    paths: Seq<Seq<char>>,
) -> Seq<char> {
    "{\"format\":"@ + decimal(format as nat) + ",\"snapshot\":"@ + quoted(snapshot) + ",\"roots\":"@
        + TextSet::json_of(roots) + (if paths.len() == 0 {
        Seq::empty()
    } else {
        ",\"paths\":"@ + json_list(paths)
    }) + "}"@
}

/// The identity of a saved view.
pub open spec fn saved_id(
    format: u32,
    snapshot: Seq<char>,
    roots: Set<Seq<char>>,
    paths: Seq<Seq<char>>,
) -> Seq<char> {
    object_hash("saved-view"@, encode_utf8(saved_json(format, snapshot, roots, paths)))
}

impl SavedView {
    /// The canonical JSON of the saved view.
    pub fn to_json(&self) -> (text: String)
        ensures
            text@ == saved_json(self.format, self.snapshot@, self.roots@, texts(self.paths@)),
    {
        let mut text = "{\"format\":".to_owned();
        let format: u64 = self.format as u64;
        text.append(format.to_json().as_str());
        text.append(",\"snapshot\":");
        text.append(self.snapshot.to_json().as_str());
        text.append(",\"roots\":");
        text.append(self.roots.to_json().as_str());
        let ghost so_far = text@;
        if self.paths.len() > 0 {
            text.append(",\"paths\":");
            text.append(list_to_json(self.paths.as_slice()).as_str());
            assert(text@ =~= so_far + (",\"paths\":"@ + json_list(texts(self.paths@))));
        } else {
            assert(so_far + Seq::<char>::empty() =~= so_far);
        }
        text.append("}");
        text
    }

    pub fn id(&self) -> (result: Result<String, Error>)
        ensures
            outcome(result) == Ok::<Seq<char>, ErrorV>(
                saved_id(self.format, self.snapshot@, self.roots@, texts(self.paths@)),
            ),
    {
        let text = self.to_json();
        Ok(object_id("saved-view", text.as_str().as_bytes()))
    }
}

// Exchange

/// What a server says of a project.
#[derive(Debug, Clone)]
pub struct Project {
    pub project: String,
    pub protocol: String,
    pub layout: String,
    pub storage_nodes: usize,
    pub replicas: usize,
}

/// How far a client has read each journal, and the paths that it is about.
#[derive(Debug, Clone)]
pub struct SyncRequest {
    pub cursors: Vec<i64>,
    pub paths: Vec<String>,
}

impl Default for SyncRequest {
    fn default() -> (request: SyncRequest)
        ensures
            request.cursors@ == Seq::<i64>::empty(),
            request.paths@ == Seq::<String>::empty(),
    {
        SyncRequest { cursors: Vec::new(), paths: Vec::new() }
    }
}

/// Transactions that a client may not have, and where to go on.
#[derive(Debug)]
pub struct SyncPage {
    pub transactions: TextSet,
    pub cursors: Vec<i64>,
    pub more: bool,
}

/// One page of one journal.
#[derive(Debug, Clone)]
pub struct JournalPage {
    pub transactions: Vec<String>,
    pub cursor: i64,
    pub more: bool,
}

/// What a server answers to a pushed transaction.
#[derive(Debug, Clone)]
pub struct Receipt {
    pub transaction: String,
}

/// Where an object belongs among `nodes` storage nodes.
pub open spec fn placement(project: Seq<char>, kind: Seq<char>, id: Seq<char>, nodes: int) -> int {
    let key = object_hash("placement"@, encode_utf8(project + "\0"@ + kind + "\0"@ + id));
    unbe64(unhex(key.take(16))) % nodes
}

/// A fixed topology maps content and its journal receipt to the same owner.
pub fn partition(project: &str, kind: &str, id: &str, nodes: usize) -> (node: usize)
    requires
        nodes > 0,
    ensures
        node == placement(project@, kind@, id@, nodes as int),
        node < nodes,
{
    let mut text = project.to_owned();
    text.append("\0");
    text.append(kind);
    text.append("\0");
    text.append(id);
    let key = object_id("placement", text.as_str().as_bytes());
    let chars = chars_of(key.as_str());
    assert(valid_hash(key@));
    let head = vstd::slice::slice_subrange(chars.as_slice(), 0, 16);
    assert(head@ =~= key@.take(16));
    let bytes = unhex_chars(head);
    assert(bytes@.len() == 8);
    let number: u64 = read_be64(bytes.as_slice(), 0);
    assert(bytes@.subrange(0, 8) =~= bytes@);
    (number % nodes as u64) as usize
}

} // verus!
