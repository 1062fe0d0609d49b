//! A server and the storage nodes behind it: how requests are checked and
//! answered, where objects belong, and how journals are read.
use vstd::prelude::*;
use vstd::string::*;
use vstd::utf8::*;

use crate::collections::{keys_of, ordered, TextMap, TextSet, Value};
use crate::error::{about, first_problem, lemma_first_problem_step, outcome, plain, verdict, Error, ErrorV, Problem};
use crate::history::{strip, stripped};
use crate::objects::{
    object_hash, object_id, valid_hash, valid_name, validate_hash, validate_name, ApiError, EntryKind, FileEntry, FileEntryV,
    MAX_BLOB_BYTES, MAX_METADATA_BYTES,
};
use crate::remote::{
    bare_address, http_address, is_bare, is_http, parse_url, trim_slashes, url_parts, UrlParts, UrlPartsV,
    RECORD_BYTES,
};
use crate::selection::trimmed;
use crate::text::{blank, is_blank, join, join_texts, same_text, texts};
use crate::transactions::{
    dependencies_of, partition, placement, EditV, JournalPage, Project, SyncPage, Transaction, TransactionV, PROTOCOL,
};
use crate::transfer::{keys_in, Info, Key, KeyV, Object, MAX_PACK_BYTES};

verus! {

// Answers

/// Why a request fails.
#[derive(Debug, Clone, Copy, PartialEq, Eq, Structural)]
pub enum Refusal {
    Invalid,
    Missing,
    Conflict,
    Unavailable,
    Internal,
}

impl Refusal {
    /// The status of the answer.
    pub open spec fn status_of(self) -> u16 {
        match self {
            Refusal::Invalid => 400,
            Refusal::Missing => 404,
            Refusal::Conflict => 409,
            Refusal::Unavailable => 503,
            Refusal::Internal => 500,
        }
    }

    /// The word for the failure.
    pub open spec fn code_of(self) -> Seq<char> {
        match self {
            Refusal::Invalid => "INVALID_REQUEST"@,
            Refusal::Missing => "NOT_FOUND"@,
            Refusal::Conflict => "CONFLICT"@,
            Refusal::Unavailable => "UNAVAILABLE"@,
            Refusal::Internal => "INTERNAL_ERROR"@,
        }
    }

    /// The status of the answer.
    pub fn status(self) -> (status: u16)
        ensures
            status == self.status_of(),
    {
        match self {
            Refusal::Invalid => 400,
            Refusal::Missing => 404,
            Refusal::Conflict => 409,
            Refusal::Unavailable => 503,
            Refusal::Internal => 500,
        }
    }

    /// The body of the answer. What goes wrong within the server is not told.
    pub fn answer(self, message: String) -> (error: ApiError)
        ensures
            error.code@ == self.code_of(),
            error.message@ == (if self.status_of() >= 500 {
                "internal storage error"@
            } else {
                message@
            }),
    {
        let code = match self {
            Refusal::Invalid => "INVALID_REQUEST",
            Refusal::Missing => "NOT_FOUND",
            Refusal::Conflict => "CONFLICT",
            Refusal::Unavailable => "UNAVAILABLE",
            Refusal::Internal => "INTERNAL_ERROR",
        };
        let message = if self.status() >= 500 {
            "internal storage error".to_owned()
        } else {
            message
        };
        ApiError { code: code.to_owned(), message }
    }
}

/// How a problem is answered: what is absent, what stands against a request,
/// and otherwise a request that is wrong.
pub open spec fn refusal_of(problem: Problem) -> Refusal {
    match problem {
        Problem::NoSuchProject | Problem::MissingChange | Problem::MissingObject => Refusal::Missing,
        Problem::RequestReused | Problem::PredecessorRequired => Refusal::Conflict,
        Problem::TooFewCopies | Problem::TooManyFailures | Problem::Draining => Refusal::Unavailable,
        _ => Refusal::Invalid,
    }
}

/// How a problem with a request is answered.
pub fn refusal(problem: Problem) -> (result: Refusal)
    ensures
        result == refusal_of(problem),
{
    match problem {
        Problem::NoSuchProject | Problem::MissingChange | Problem::MissingObject => Refusal::Missing,
        Problem::RequestReused | Problem::PredecessorRequired => Refusal::Conflict,
        Problem::TooFewCopies | Problem::TooManyFailures | Problem::Draining => Refusal::Unavailable,
        _ => Refusal::Invalid,
    }
}

/// The answer to a request without the access token.
pub fn unauthorized() -> (error: ApiError)
    ensures
        error.code@ == "UNAUTHORIZED"@,
        error.message@ == "a valid bearer token is required"@,
{
    ApiError { code: "UNAUTHORIZED".to_owned(), message: "a valid bearer token is required".to_owned() }
}

// Access

/// A request is let in by exactly the bearer token.
pub open spec fn lets_in(header: Option<Seq<char>>, token: Seq<char>) -> bool {
    header is Some && stripped(header->0, "Bearer "@) == Some(token)
}

/// Whether the authorization header of a request carries the access token.
pub fn is_authorized(header: Option<&str>, token: &str) -> (result: bool)
    ensures
        result == lets_in(header.deep_view(), token@),
{
    match header {
        None => false,
        Some(value) => match strip(value, "Bearer ") {
            Some(given) => same_text(given.as_str(), token),
            None => false,
        },
    }
}

/// A server needs an access token that is not blank.
pub fn check_token(token: &str) -> (result: Result<(), Error>)
    ensures
        verdict(result) == (if blank(token@) {
            Err::<(), ErrorV>(plain(Problem::EmptyAccessToken))
        } else {
            Ok(())
        }),
{
    if is_blank(token) {
        Err(Error::plain(Problem::EmptyAccessToken))
    } else {
        Ok(())
    }
}

// Requests

/// What is wrong with a request for an object.
pub open spec fn object_check(project: Seq<char>, kind: Seq<char>, id: Seq<char>) -> Result<(), ErrorV> {
    if !valid_name(project) {
        Err(plain(Problem::InvalidName))
    } else if !valid_hash(id) {
        Err(about(Problem::InvalidObjectId, id))
    } else if kind != "blob"@ && kind != "transaction"@ {
        Err(plain(Problem::UnsupportedObjectKind))
    } else {
        Ok(())
    }
}

/// Check a request for an object.
pub fn validate_object(project: &str, kind: &str, id: &str) -> (result: Result<(), Error>)
    ensures
        verdict(result) == object_check(project@, kind@, id@),
{
    validate_name(project)?;
    validate_hash(id)?;
    if !same_text(kind, "blob") && !same_text(kind, "transaction") {
        return Err(Error::plain(Problem::UnsupportedObjectKind));
    }
    Ok(())
}

/// What is wrong with a file object that is uploaded by itself.
pub open spec fn file_upload_check(project: Seq<char>, kind: Seq<char>, id: Seq<char>, bytes: Seq<u8>) -> Result<
    (),
    ErrorV,
> {
    match object_check(project, kind, id) {
        Err(error) => Err(error),
        Ok(()) => if kind != "blob"@ || object_hash("blob"@, bytes) != id {
            Err(plain(Problem::UnverifiedUpload))
        } else if bytes.len() > MAX_BLOB_BYTES {
            Err(plain(Problem::FileObjectTooLarge))
        } else {
            Ok(())
        },
    }
}

/// Check a file object that is uploaded by itself. Transactions are not
/// uploaded this way.
pub fn check_file_upload(project: &str, kind: &str, id: &str, bytes: &[u8]) -> (result: Result<(), Error>)
    ensures
        verdict(result) == file_upload_check(project@, kind@, id@, bytes@),
{
    validate_object(project, kind, id)?;
    if !same_text(kind, "blob") || !same_text(object_id("blob", bytes).as_str(), id) {
        return Err(Error::plain(Problem::UnverifiedUpload));
    }
    if bytes.len() > MAX_BLOB_BYTES {
        return Err(Error::plain(Problem::FileObjectTooLarge));
    }
    Ok(())
}

/// A transaction arrives as metadata, whose length is limited.
pub fn check_transaction_length(length: usize) -> (result: Result<(), Error>)
    ensures
        verdict(result) == (if length <= MAX_METADATA_BYTES {
            Ok::<(), ErrorV>(())
        } else {
            Err(plain(Problem::TransactionTooLarge))
        }),
{
    if length <= MAX_METADATA_BYTES {
        Ok(())
    } else {
        Err(Error::plain(Problem::TransactionTooLarge))
    }
}

/// The bytes that objects take in a batch, if all of them are there.
pub open spec fn batch_bytes(infos: Seq<Info>) -> int
    decreases infos.len(),
{
    if infos.len() == 0 {
        4
    } else {
        batch_bytes(infos.drop_last()) + infos.last().size->0 + RECORD_BYTES
    }
}

/// The first object that is not there, or else whether a batch can hold all.
pub open spec fn download_check(infos: Seq<Info>, i: int) -> Result<(), ErrorV>
    decreases infos.len() - i,
{
    if i < 0 || i >= infos.len() {
        if batch_bytes(infos) > MAX_PACK_BYTES {
            Err(plain(Problem::RequestTooLarge))
        } else {
            Ok(())
        }
    } else if infos[i].size is None {
        Err(about(Problem::MissingObject, infos[i].object@.id))
    } else {
        download_check(infos, i + 1)
    }
}

/// Check that the objects of a request are there, and fit in one batch.
pub fn check_download(infos: &[Info]) -> (result: Result<(), Error>)
    ensures
        verdict(result) == download_check(infos@, 0),
{
    let mut total: u64 = 4;
    let mut fits = true;
    let mut i: usize = 0;
    assert(infos@.take(0).len() == 0);
    while i < infos.len()
        invariant
            i <= infos@.len(),
            total <= MAX_PACK_BYTES,
            fits == (batch_bytes(infos@.take(i as int)) <= MAX_PACK_BYTES),
            fits ==> total == batch_bytes(infos@.take(i as int)),
            download_check(infos@, 0) == download_check(infos@, i as int),
        decreases infos@.len() - i,
    {
        let size: u64 = match infos[i].size {
            Some(size) => size,
            None => {
                return Err(Error::about(Problem::MissingObject, infos[i].object.id.clone()));
            },
        };
        proof {
            assert(infos@.take(i + 1).drop_last() =~= infos@.take(i as int));
            assert(infos@.take(i + 1).last() == infos@[i as int]);
        }
        if fits {
            if size > MAX_PACK_BYTES as u64 || total + size + RECORD_BYTES as u64 > MAX_PACK_BYTES as u64 {
                fits = false;
            } else {
                total = total + size + RECORD_BYTES as u64;
            }
        }
        i += 1;
    }
    assert(infos@.take(infos@.len() as int) =~= infos@);
    if fits {
        Ok(())
    } else {
        Err(Error::plain(Problem::RequestTooLarge))
    }
}

/// Every object is file content.
pub open spec fn all_files(objects: Seq<Object>) -> bool {
    forall|i: int| 0 <= i < objects.len() ==> (#[trigger] objects[i])@.key.kind == "blob"@
}

/// A batch that is uploaded holds file content only; transactions are pushed.
pub fn check_upload_batch(objects: &[Object]) -> (result: Result<(), Error>)
    ensures
        verdict(result) == (if all_files(objects@) {
            Ok::<(), ErrorV>(())
        } else {
            Err(plain(Problem::NotFileObjects))
        }),
{
    let mut i: usize = 0;
    while i < objects.len()
        invariant
            i <= objects@.len(),
            forall|j: int| 0 <= j < i ==> (#[trigger] objects@[j])@.key.kind == "blob"@,
        decreases objects@.len() - i,
    {
        if !same_text(objects[i].key.kind.as_str(), "blob") {
            assert(objects@[i as int]@.key.kind != "blob"@);
            return Err(Error::plain(Problem::NotFileObjects));
        }
        i += 1;
    }
    Ok(())
}

// Pushed transactions

/// The keys of transactions.
pub open spec fn transaction_keys(ids: Seq<Seq<char>>) -> Seq<KeyV> {
    ids.map_values(|id: Seq<char>| KeyV { kind: "transaction"@, id })
}

/// The keys of what a transaction builds on, in order.
pub fn parent_keys(transaction: &Transaction) -> (keys: Vec<Key>)
    ensures
        keys_in(keys@) == transaction_keys(ordered(dependencies_of(transaction@))),
{
    let parents = transaction.dependencies();
    let n = parents.len();
    let ghost all = ordered(parents@);
    let mut keys: Vec<Key> = Vec::new();
    let mut i: usize = 0;
    while i < n
        invariant
            i <= n,
            n == parents@.len(),
            n == all.len(),
            all == ordered(parents@),
            keys@.len() == i,
            forall|j: int| 0 <= j < i ==> (#[trigger] keys@[j])@ == transaction_keys(all)[j],
        decreases n - i,
    {
        keys.push(Key { kind: "transaction".to_owned(), id: parents.at(i).clone() });
        i += 1;
    }
    assert(keys_in(keys@) =~= transaction_keys(all));
    keys
}

/// The content of a file is there in the length that its entry says. Of a file
/// in chunks, the root of its tree is there.
pub open spec fn content_there(entry: FileEntryV, sizes: Map<Seq<char>, Option<u64>>) -> bool {
    &&& sizes.contains_key(entry.blob)
    &&& match sizes[entry.blob] {
        Some(size) => entry.kind is Chunked || size == entry.size,
        None => false,
    }
}

/// Whether the content of an edit is there.
pub open spec fn size_check(edits: Map<Seq<char>, EditV>, sizes: Map<Seq<char>, Option<u64>>, path: Seq<char>) -> Result<
    (),
    ErrorV,
> {
    match edits[path].value {
        Some(entry) => if content_there(entry, sizes) {
            Ok(())
        } else {
            Err(about(Problem::FileSizeMismatch, path))
        },
        None => Ok(()),
    }
}

/// Whether the content of a transaction is there: that of its files, and of
/// where it came from.
pub open spec fn content_check(transaction: TransactionV, sizes: Map<Seq<char>, Option<u64>>) -> Result<(), ErrorV> {
    match first_problem(keys_of(transaction.edits), |path: Seq<char>| size_check(transaction.edits, sizes, path)) {
        Err(error) => Err(error),
        Ok(()) => match transaction.provenance {
            Some(entry) => if content_there(entry, sizes) {
                Ok(())
            } else {
                Err(about(Problem::FileSizeMismatch, "provenance"@))
            },
            None => Ok(()),
        },
    }
}

fn has_content(entry: &FileEntry, sizes: &TextMap<Option<u64>>) -> (there: bool)
    ensures
        there == content_there(entry@, sizes@),
{
    match sizes.get(entry.blob.as_str()) {
        Some(Some(size)) => match entry.kind {
            EntryKind::Chunked => true,
            _ => *size == entry.size,
        },
        _ => false,
    }
}

/// Check that the content of a transaction is there, by the sizes of the
/// objects that were found.
pub fn check_sizes(transaction: &Transaction, sizes: &TextMap<Option<u64>>) -> (result: Result<(), Error>)
    ensures
        verdict(result) == content_check(transaction@, sizes@),
{
    let n = transaction.edits.len();
    let ghost keys = keys_of(transaction@.edits);
    let ghost check = |path: Seq<char>| size_check(transaction@.edits, sizes@, path);
    let mut i: usize = 0;
    assert(keys.skip(0) =~= keys);
    while i < n
        invariant
            i <= n,
            n == transaction.edits@.dom().len(),
            n == keys.len(),
            keys == keys_of(transaction.edits@),
            check == (|path: Seq<char>| size_check(transaction@.edits, sizes@, path)),
            first_problem(keys, check) == first_problem(keys.skip(i as int), check),
        decreases n - i,
    {
        proof {
            lemma_first_problem_step(keys, check, i as int);
        }
        let path = transaction.edits.key_at(i);
        if let Some(entry) = &transaction.edits.value_at(i).value {
            if !has_content(entry, sizes) {
                return Err(Error::about(Problem::FileSizeMismatch, path.clone()));
            }
        }
        i += 1;
    }
    assert(keys.skip(n as int).len() == 0);
    if let Some(entry) = &transaction.provenance {
        if !has_content(entry, sizes) {
            return Err(Error::about(Problem::FileSizeMismatch, "provenance".to_owned()));
        }
    }
    Ok(())
}

// Storage nodes

/// The address of a storage node.
pub open spec fn node_url(parts: Option<UrlPartsV>) -> Result<Seq<char>, ErrorV> {
    match parts {
        None => Err(plain(Problem::InvalidStorageUrl)),
        Some(parts) => if http_address(parts) && bare_address(parts) {
            Ok(trimmed(parts.text))
        } else {
            Err(plain(Problem::InvalidStorageUrl))
        },
    }
}

/// Check the address of a storage node that was read, and bring it into its
/// normal form.
pub fn check_node_url(parts: Option<UrlParts>) -> (result: Result<String, Error>)
    ensures
        outcome(result) == node_url(parts.deep_view()),
{
    match parts {
        None => Err(Error::plain(Problem::InvalidStorageUrl)),
        Some(parts) => {
            if is_http(&parts) && is_bare(&parts) {
                Ok(trim_slashes(parts.text.as_str()))
            } else {
                Err(Error::plain(Problem::InvalidStorageUrl))
            }
        },
    }
}

/// The addresses of storage nodes, or the first that is wrong.
pub open spec fn node_urls(nodes: Seq<Seq<char>>) -> Result<Seq<Seq<char>>, ErrorV>
    decreases nodes.len(),
{
    if nodes.len() == 0 {
        Ok(Seq::empty())
    } else {
        match node_urls(nodes.drop_last()) {
            Err(error) => Err(error),
            Ok(before) => match node_url(url_parts(nodes.last())) {
                Err(error) => Err(error),
                Ok(url) => Ok(before.push(url)),
            },
        }
    }
}

/// The nodes of a cluster by their addresses: in order, and no two alike.
pub open spec fn arranged(urls: Seq<Seq<char>>) -> Result<Seq<Seq<char>>, ErrorV> {
    if urls.no_duplicates() {
        Ok(ordered(urls.to_set()))
    } else {
        Err(plain(Problem::RepeatedStorageNode))
    }
}

/// Arrange the nodes of a cluster by their addresses. Every server of a cluster
/// arrives at the same order.
pub fn arrange_nodes(urls: Vec<String>) -> (result: Result<Vec<String>, Error>)
    ensures
        match result {
            Ok(nodes) => arranged(texts(urls@)) == Ok::<Seq<Seq<char>>, ErrorV>(texts(nodes@)),
            Err(error) => arranged(texts(urls@)) == Err::<Seq<Seq<char>>, ErrorV>(error@),
        },
{
    let ghost all = texts(urls@);
    let mut set = TextSet::new();
    let mut i: usize = 0;
    assert(set@ =~= all.take(0).to_set());
    while i < urls.len()
        invariant
            i <= urls@.len(),
            all == texts(urls@),
            set@ == all.take(i as int).to_set(),
            all.take(i as int).no_duplicates(),
        decreases urls@.len() - i,
    {
        let ghost before = set@;
        let fresh = set.insert(urls[i].clone());
        proof {
            let url = all[i as int];
            assert(url == urls@[i as int]@);
            assert(all.take(i + 1) =~= all.take(i as int).push(url));
            if !fresh {
                assert(before.contains(url));
                let j = choose|j: int| 0 <= j < i && all.take(i as int)[j] == url;
                assert(all[j] == all[i as int]);
                assert(!all.no_duplicates());
            } else {
                assert forall|k: Seq<char>| set@.contains(k) <==> all.take(i + 1).to_set().contains(k) by {
                    crate::collections::lemma_push_contains(all.take(i as int), url, k);
                }
                assert(set@ =~= all.take(i + 1).to_set());
                assert(all.take(i + 1).no_duplicates()) by {
                    assert forall|a: int, b: int|
                        0 <= a < i + 1 && 0 <= b < i + 1 && a != b implies #[trigger] all.take(
                        i + 1,
                    )[a] != #[trigger] all.take(i + 1)[b] by {
                        if a < i && b < i {
                            assert(all.take(i as int)[a] != all.take(i as int)[b]);
                        } else if a < i {
                            assert(all.take(i as int)[a] == all[a]);
                            assert(before.contains(all[a]));
                        } else {
                            assert(all.take(i as int)[b] == all[b]);
                            assert(before.contains(all[b]));
                        }
                    }
                }
            }
        }
        if !fresh {
            return Err(Error::plain(Problem::RepeatedStorageNode));
        }
        i += 1;
    }
    assert(all.take(urls@.len() as int) =~= all);
    Ok(set.to_vec())
}

/// The nodes that a server is given.
pub open spec fn cluster_nodes(nodes: Seq<Seq<char>>, token: Seq<char>) -> Result<Seq<Seq<char>>, ErrorV> {
    if nodes.len() == 0 || token.len() == 0 {
        Err(plain(Problem::StorageNodesRequired))
    } else {
        match node_urls(nodes) {
            Err(error) => Err(error),
            Ok(urls) => arranged(urls),
        }
    }
}

/// The nodes of a cluster, by the addresses and the token that a server is
/// given.
pub fn storage_nodes(nodes: Vec<String>, token: &str) -> (result: Result<Vec<String>, Error>)
    ensures
        match result {
            Ok(list) => cluster_nodes(texts(nodes@), token@) == Ok::<Seq<Seq<char>>, ErrorV>(texts(list@)),
            Err(error) => cluster_nodes(texts(nodes@), token@) == Err::<Seq<Seq<char>>, ErrorV>(error@),
        },
{
    if nodes.len() == 0 || token.is_empty() {
        return Err(Error::plain(Problem::StorageNodesRequired));
    }
    let ghost all = texts(nodes@);
    let mut urls: Vec<String> = Vec::new();
    let mut i: usize = 0;
    assert(all.take(0).len() == 0);
    assert(texts(urls@) =~= Seq::<Seq<char>>::empty());
    while i < nodes.len()
        invariant
            i <= nodes@.len(),
            nodes@.len() > 0,
            token@.len() > 0,
            all == texts(nodes@),
            node_urls(all.take(i as int)) == Ok::<Seq<Seq<char>>, ErrorV>(texts(urls@)),
        decreases nodes@.len() - i,
    {
        let ghost before = texts(urls@);
        proof {
            assert(all.take(i + 1).drop_last() =~= all.take(i as int));
            assert(all.take(i + 1).last() == nodes@[i as int]@);
        }
        match check_node_url(parse_url(nodes[i].as_str())) {
            Ok(url) => {
                urls.push(url);
                assert(texts(urls@) =~= before.push(urls@.last()@));
            },
            Err(error) => {
                proof {
                    lemma_node_urls_fail(all, i + 1);
                }
                return Err(error);
            },
        }
        i += 1;
    }
    assert(all.take(nodes@.len() as int) =~= all);
    arrange_nodes(urls)
}

proof fn lemma_node_urls_fail(nodes: Seq<Seq<char>>, n: int)
    requires
        0 <= n <= nodes.len(),
        node_urls(nodes.take(n)) is Err,
    ensures
        node_urls(nodes) == node_urls(nodes.take(n)),
    decreases nodes.len(),
{
    if n == nodes.len() {
        assert(nodes.take(n) =~= nodes);
    } else {
        assert(nodes.drop_last().take(n) =~= nodes.take(n));
        lemma_node_urls_fail(nodes.drop_last(), n);
    }
}

/// What tells one arrangement of nodes from another.
pub fn layout_id(nodes: &[String]) -> (id: String)
    ensures
        id@ == object_hash("layout"@, encode_utf8(join(texts(nodes@), "\0"@))),
{
    let text = join_texts(nodes, "\0");
    object_id("layout", text.as_str().as_bytes())
}

/// What a server says of a project.
pub fn project_info(project: String, layout: String, nodes: usize, replicas: usize) -> (info: Project)
    ensures
        info.project@ == project@,
        info.protocol@ == "kelp/1"@,
        info.layout@ == layout@,
        info.storage_nodes == nodes,
        info.replicas == replicas,
{
    Project { project, protocol: PROTOCOL.to_owned(), layout, storage_nodes: nodes, replicas }
}

/// The nodes in the order in which to ask for an object: its owner, and then
/// the others. An object stays where it was when nodes are added.
pub open spec fn asked(owner: int, nodes: nat) -> Seq<int> {
    Seq::new(
        nodes,
        |i: int|
            if i == 0 {
                owner
            } else if i <= owner {
                i - 1
            } else {
                i
            },
    )
}

/// The nodes in the order in which to ask for an object.
pub fn lookup_order(project: &str, kind: &str, id: &str, nodes: usize) -> (order: Vec<usize>)
    requires
        nodes > 0,
    ensures
        order@.map_values(|node: usize| node as int) == asked(
            placement(project@, kind@, id@, nodes as int),
            nodes as nat,
        ),
{
    let owner: usize = partition(project, kind, id, nodes);
    let ghost goal = asked(owner as int, nodes as nat);
    let mut order: Vec<usize> = Vec::new();
    order.push(owner);
    let mut i: usize = 1;
    while i < nodes
        invariant
            1 <= i <= nodes,
            owner < nodes,
            goal == asked(owner as int, nodes as nat),
            order@.len() == i,
            forall|j: int| 0 <= j < i ==> (#[trigger] order@[j]) as int == goal[j],
        decreases nodes - i,
    {
        order.push(if i <= owner { i - 1 } else { i });
        i += 1;
    }
    assert(order@.map_values(|node: usize| node as int) =~= goal);
    order
}

/// Every node is asked, and none twice.
pub proof fn every_node_is_asked(owner: int, nodes: nat)
    requires
        0 <= owner < nodes,
    ensures
        asked(owner, nodes).no_duplicates(),
        forall|node: int| 0 <= node < nodes ==> #[trigger] asked(owner, nodes).contains(node),
        asked(owner, nodes)[0] == owner,
{
    assert forall|node: int| 0 <= node < nodes implies #[trigger] asked(owner, nodes).contains(node) by {
        let at = if node == owner {
            0
        } else if node < owner {
            node + 1
        } else {
            node
        };
        assert(asked(owner, nodes)[at] == node);
    }
}

/// The nodes that lack a project which others have.
pub open spec fn lacking_nodes(found: Seq<bool>) -> Seq<int>
    decreases found.len(),
{
    if found.len() == 0 {
        Seq::empty()
    } else if found.last() {
        lacking_nodes(found.drop_last())
    } else {
        lacking_nodes(found.drop_last()).push(found.len() - 1)
    }
}

/// A project exists where any node has it; gives the nodes that lack it, where
/// it has yet to be made.
pub fn nodes_to_repair(project: &str, found: &[bool]) -> (result: Result<Vec<usize>, Error>)
    ensures
        match result {
            Ok(nodes) => found@.contains(true) && nodes@.map_values(|node: usize| node as int) == lacking_nodes(found@),
            Err(error) => !found@.contains(true) && error@ == about(Problem::NoSuchProject, project@),
        },
{
    let mut any = false;
    let mut nodes: Vec<usize> = Vec::new();
    let mut i: usize = 0;
    assert(found@.take(0).len() == 0);
    assert(nodes@.map_values(|node: usize| node as int) =~= Seq::<int>::empty());
    while i < found.len()
        invariant
            i <= found@.len(),
            any == exists|j: int| 0 <= j < i && #[trigger] found@[j],
            nodes@.map_values(|node: usize| node as int) == lacking_nodes(found@.take(i as int)),
        decreases found@.len() - i,
    {
        let ghost before = nodes@.map_values(|node: usize| node as int);
        proof {
            assert(found@.take(i + 1).drop_last() =~= found@.take(i as int));
            assert(found@.take(i + 1).last() == found@[i as int]);
        }
        if found[i] {
            any = true;
            assert(found@[i as int]);
        } else {
            nodes.push(i);
            assert(nodes@.map_values(|node: usize| node as int) =~= before.push(i as int));
        }
        i += 1;
    }
    assert(found@.take(found@.len() as int) =~= found@);
    if any {
        proof {
            let j = choose|j: int| 0 <= j < found@.len() && #[trigger] found@[j];
            assert(found@[j] == true);
        }
        Ok(nodes)
    } else {
        proof {
            if found@.contains(true) {
                let j = choose|j: int| 0 <= j < found@.len() && found@[j] == true;
                assert(found@[j]);
            }
        }
        Err(Error::about(Problem::NoSuchProject, project.to_owned()))
    }
}

// Inventories

/// The size that was last reported of an object.
pub open spec fn reported(found: Seq<Info>, key: KeyV) -> Option<u64>
    decreases found.len(),
{
    if found.len() == 0 {
        None
    } else if found.last().object@ == key && found.last().size is Some {
        found.last().size
    } else {
        reported(found.drop_last(), key)
    }
}

/// How many of the reports say that an object is there.
pub open spec fn copies_of(found: Seq<Info>, key: KeyV) -> int
    decreases found.len(),
{
    if found.len() == 0 {
        0
    } else {
        copies_of(found.drop_last(), key) + (if found.last().object@ == key && found.last().size is Some {
            1int
        } else {
            0
        })
    }
}

/// What the reports of the nodes come to for one object.
pub open spec fn merged_info(found: Seq<Info>, key: KeyV, info: Info) -> bool {
    &&& info.object@ == key
    &&& info.size == reported(found, key)
    &&& info.copies == copies_of(found, key)
}

/// What the nodes of a cluster together say of some objects.
pub fn merge_infos(keys: Vec<Key>, found: &[Info]) -> (infos: Vec<Info>)
    ensures
        infos@.len() == keys@.len(),
        forall|i: int| 0 <= i < infos@.len() ==> merged_info(found@, keys@[i]@, #[trigger] infos@[i]),
{
    let mut infos: Vec<Info> = Vec::new();
    let mut i: usize = 0;
    while i < keys.len()
        invariant
            i <= keys@.len(),
            infos@.len() == i,
            forall|j: int| 0 <= j < i ==> merged_info(found@, keys@[j]@, #[trigger] infos@[j]),
        decreases keys@.len() - i,
    {
        let size: Option<u64> = last_reported(found, &keys[i]);
        let copies: usize = count_copies(found, &keys[i]);
        infos.push(Info { object: keys[i].clone(), size, copies });
        i += 1;
    }
    infos
}

fn count_copies(found: &[Info], key: &Key) -> (copies: usize)
    ensures
        copies == copies_of(found@, key@),
{
    let mut copies: usize = 0;
    let mut i: usize = 0;
    assert(found@.take(0).len() == 0);
    while i < found.len()
        invariant
            copies <= i <= found@.len(),
            copies == copies_of(found@.take(i as int), key@),
        decreases found@.len() - i,
    {
        assert(found@.take(i + 1).drop_last() =~= found@.take(i as int));
        assert(found@.take(i + 1).last() == found@[i as int]);
        if found[i].size.is_some() && found[i].object.same(key) {
            copies += 1;
        }
        i += 1;
    }
    assert(found@.take(found@.len() as int) =~= found@);
    copies
}

fn last_reported(found: &[Info], key: &Key) -> (size: Option<u64>)
    ensures
        size == reported(found@, key@),
{
    let mut i: usize = found.len();
    assert(found@.take(i as int) =~= found@);
    while i > 0
        invariant
            i <= found@.len(),
            reported(found@.take(i as int), key@) == reported(found@, key@),
        decreases i,
    {
        let ghost rest = found@.take(i as int);
        assert(rest.last() == found@[i - 1]);
        assert(rest.drop_last() =~= found@.take(i - 1));
        i -= 1;
        if found[i].size.is_some() && found[i].object.same(key) {
            return found[i].size;
        }
    }
    None
}

/// The objects that belong on a node, in order.
pub open spec fn owned(project: Seq<char>, objects: Seq<Object>, nodes: int, node: int) -> Seq<Object>
    decreases objects.len(),
{
    if objects.len() == 0 {
        Seq::empty()
    } else {
        let before = owned(project, objects.drop_last(), nodes, node);
        if placement(project, "blob"@, objects.last()@.key.id, nodes) == node {
            before.push(objects.last())
        } else {
            before
        }
    }
}

/// Take the file objects that belong on a node out of a batch.
pub fn owned_by(project: &str, objects: &[Object], nodes: usize, node: usize) -> (part: Vec<Object>)
    requires
        nodes > 0,
    ensures
        part.deep_view() == owned(project@, objects@, nodes as int, node as int).map_values(|object: Object| object@),
{
    let mut part: Vec<Object> = Vec::new();
    let mut i: usize = 0;
    assert(objects@.take(0).len() == 0);
    assert(part.deep_view() =~= owned(project@, objects@.take(0), nodes as int, node as int).map_values(
        |object: Object| object@,
    ));
    while i < objects.len()
        invariant
            i <= objects@.len(),
            nodes > 0,
            part.deep_view() == owned(project@, objects@.take(i as int), nodes as int, node as int).map_values(
                |object: Object| object@,
            ),
        decreases objects@.len() - i,
    {
        let ghost before = part.deep_view();
        let ghost chosen = owned(project@, objects@.take(i as int), nodes as int, node as int);
        proof {
            assert(objects@.take(i + 1).drop_last() =~= objects@.take(i as int));
            assert(objects@.take(i + 1).last() == objects@[i as int]);
        }
        if partition(project, "blob", objects[i].key.id.as_str(), nodes) == node {
            part.push(objects[i].clone());
            proof {
                assert(part.deep_view() =~= before.push(objects@[i as int]@));
                assert(chosen.push(objects@[i as int]).map_values(|object: Object| object@) =~= chosen.map_values(
                    |object: Object| object@,
                ).push(objects@[i as int]@));
            }
        }
        i += 1;
    }
    assert(objects@.take(objects@.len() as int) =~= objects@);
    part
}

/// Every file object of a batch goes to a node: the one that it belongs on.
pub proof fn every_object_has_an_owner(project: Seq<char>, objects: Seq<Object>, nodes: int, i: int)
    requires
        nodes > 0,
        0 <= i < objects.len(),
    ensures
        ({
            let owner = placement(project, "blob"@, objects[i]@.key.id, nodes);
            &&& 0 <= owner < nodes
            &&& owned(project, objects, nodes, owner).contains(objects[i])
        }),
    decreases objects.len(),
{
    let owner = placement(project, "blob"@, objects[i]@.key.id, nodes);
    let before = owned(project, objects.drop_last(), nodes, owner);
    if i == objects.len() - 1 {
        assert(before.push(objects.last())[before.len() as int] == objects[i]);
    } else {
        every_object_has_an_owner(project, objects.drop_last(), nodes, i);
        let k = choose|k: int| 0 <= k < before.len() && before[k] == objects[i];
        if placement(project, "blob"@, objects.last()@.key.id, nodes) == owner {
            assert(before.push(objects.last())[k] == objects[i]);
        }
    }
}

// Journals

/// The most entries of a journal that a page holds.
pub const PAGE_ENTRIES: usize = 256;

/// Entries are read from after a place, which is not negative.
pub fn check_cursor(after: i64) -> (result: Result<(), Error>)
    ensures
        verdict(result) == (if after < 0 {
            Err::<(), ErrorV>(plain(Problem::NegativeCursor))
        } else {
            Ok(())
        }),
{
    if after < 0 {
        Err(Error::plain(Problem::NegativeCursor))
    } else {
        Ok(())
    }
}

/// How many of the rows that were read go on a page.
pub open spec fn page_length(rows: int) -> int {
    if rows > PAGE_ENTRIES {
        rows - 1
    } else {
        rows
    }
}

/// A page of a journal, from the rows that follow a place. One row more than a
/// page holds is read, to know whether there are more.
pub fn journal_page(rows: Vec<(i64, String)>, after: i64) -> (page: JournalPage)
    ensures
        texts(page.transactions@) == Seq::new(
            page_length(rows@.len() as int) as nat,
            |i: int| rows@[i].1@,
        ),
        page.cursor == (if page_length(rows@.len() as int) == 0 {
            after
        } else {
            rows@[page_length(rows@.len() as int) - 1].0
        }),
        page.more == (rows@.len() > PAGE_ENTRIES),
{
    let more = rows.len() > PAGE_ENTRIES;
    let n: usize = if more {
        rows.len() - 1
    } else {
        rows.len()
    };
    let mut transactions: Vec<String> = Vec::new();
    let mut cursor: i64 = after;
    let mut i: usize = 0;
    while i < n
        invariant
            i <= n <= rows@.len(),
            transactions@.len() == i,
            forall|j: int| 0 <= j < i ==> (#[trigger] transactions@[j])@ == rows@[j].1@,
            cursor == (if i == 0 {
                after
            } else {
                rows@[i - 1].0
            }),
        decreases n - i,
    {
        transactions.push(rows[i].1.clone());
        cursor = rows[i].0;
        i += 1;
    }
    assert(texts(transactions@) =~= Seq::new(n as nat, |i: int| rows@[i].1@));
    JournalPage { transactions, cursor, more }
}

/// Where a client reads on in the journals.
pub open spec fn positions(cursors: Seq<i64>, nodes: nat) -> Result<Seq<i64>, ErrorV> {
    if cursors.len() == 0 {
        Ok(Seq::new(nodes, |i: int| 0i64))
    } else if cursors.len() != nodes || exists|i: int| 0 <= i < cursors.len() && #[trigger] cursors[i] < 0 {
        Err(plain(Problem::CursorMismatch))
    } else {
        Ok(cursors)
    }
}

/// Begin a page of the journals where a client reads on. A client that has
/// read nothing begins at the start.
pub fn begin_page(cursors: Vec<i64>, nodes: usize) -> (result: Result<SyncPage, Error>)
    ensures
        match result {
            Ok(page) => {
                &&& positions(cursors@, nodes as nat) == Ok::<Seq<i64>, ErrorV>(page.cursors@)
                &&& page.transactions@ == Set::<Seq<char>>::empty()
                &&& !page.more
            },
            Err(error) => positions(cursors@, nodes as nat) == Err::<Seq<i64>, ErrorV>(error@),
        },
{
    if cursors.len() == 0 {
        let mut start: Vec<i64> = Vec::new();
        while start.len() < nodes
            invariant
                start@.len() <= nodes,
                forall|i: int| 0 <= i < start@.len() ==> #[trigger] start@[i] == 0,
            decreases nodes - start@.len(),
        {
            start.push(0);
        }
        assert(start@ =~= Seq::new(nodes as nat, |i: int| 0i64));
        return Ok(SyncPage { transactions: TextSet::new(), cursors: start, more: false });
    }
    if cursors.len() != nodes {
        return Err(Error::plain(Problem::CursorMismatch));
    }
    let mut i: usize = 0;
    while i < cursors.len()
        invariant
            i <= cursors@.len(),
            cursors@.len() == nodes,
            cursors@.len() > 0,
            forall|j: int| 0 <= j < i ==> #[trigger] cursors@[j] >= 0,
        decreases cursors@.len() - i,
    {
        if cursors[i] < 0 {
            assert(cursors@[i as int] < 0);
            return Err(Error::plain(Problem::CursorMismatch));
        }
        i += 1;
    }
    Ok(SyncPage { transactions: TextSet::new(), cursors, more: false })
}

impl SyncPage {
    /// Take in a page of the journal of one node.
    pub fn take_page(&mut self, node: usize, page: JournalPage)
        requires
            node < old(self).cursors@.len(),
        ensures
            final(self).transactions@ == old(self).transactions@.union(texts(page.transactions@).to_set()),
            final(self).cursors@ == old(self).cursors@.update(node as int, page.cursor),
            final(self).more == (old(self).more || page.more),
    {
        let ghost start = self.transactions@;
        let ghost all = texts(page.transactions@);
        let mut i: usize = 0;
        assert(self.transactions@ =~= start.union(all.take(0).to_set()));
        while i < page.transactions.len()
            invariant
                i <= page.transactions@.len(),
                all == texts(page.transactions@),
                self.transactions@ == start.union(all.take(i as int).to_set()),
                self.cursors@ == old(self).cursors@,
                self.more == old(self).more,
            decreases page.transactions@.len() - i,
        {
            let ghost before = self.transactions@;
            self.transactions.insert(page.transactions[i].clone());
            proof {
                let id = all[i as int];
                assert(all.take(i + 1) =~= all.take(i as int).push(id));
                assert forall|k: Seq<char>| self.transactions@.contains(k) <==> start.union(
                    all.take(i + 1).to_set(),
                ).contains(k) by {
                    crate::collections::lemma_push_contains(all.take(i as int), id, k);
                    assert(before.contains(k) <==> start.union(all.take(i as int).to_set()).contains(k));
                }
                assert(self.transactions@ =~= start.union(all.take(i + 1).to_set()));
            }
            i += 1;
        }
        assert(all.take(page.transactions@.len() as int) =~= all);
        self.cursors.set(node, page.cursor);
        if page.more {
            self.more = true;
        }
    }
}

// Maintenance

/// What the redistribution of objects came to.
#[derive(Debug)]
pub struct Report {
    pub objects: usize,
    pub nodes: Vec<String>,
    pub replicas: usize,
    pub evacuated: Option<String>,
}

/// Which nodes keep objects, and from which they are copied.
#[derive(Debug)]
pub struct Relocation {
    pub nodes: Vec<String>,
    pub sources: Vec<String>,
}

/// The nodes other than a retiring one, in order.
pub open spec fn remaining(nodes: Seq<Seq<char>>, retiring: Seq<char>) -> Seq<Seq<char>> {
    nodes.filter(|node: Seq<char>| node != retiring)
}

/// The addresses of nodes without slashes at their ends.
pub open spec fn trimmed_nodes(nodes: Seq<Seq<char>>) -> Seq<Seq<char>> {
    nodes.map_values(|node: Seq<char>| trimmed(node))
}

/// Plan to restore the placement of all objects, or to empty a node that is to
/// retire.
pub fn plan_relocation(nodes: Vec<String>, retiring: Option<&str>) -> (result: Result<Relocation, Error>)
    ensures
        match result {
            Ok(plan) => match retiring {
                None => {
                    &&& texts(plan.nodes@) == trimmed_nodes(texts(nodes@))
                    &&& texts(plan.sources@) == trimmed_nodes(texts(nodes@))
                },
                Some(node) => {
                    &&& trimmed_nodes(texts(nodes@)).contains(trimmed(node@))
                    &&& texts(plan.nodes@) == remaining(trimmed_nodes(texts(nodes@)), trimmed(node@))
                    &&& texts(plan.sources@) == seq![trimmed(node@)]
                },
            },
            Err(error) => {
                &&& retiring is Some
                &&& !trimmed_nodes(texts(nodes@)).contains(trimmed(retiring->0@))
                &&& error@ == plain(Problem::RetiringNode)
            },
        },
{
    let ghost all = trimmed_nodes(texts(nodes@));
    match retiring {
        None => {
            let kept = trim_all(nodes.as_slice());
            let sources = trim_all(nodes.as_slice());
            Ok(Relocation { nodes: kept, sources })
        },
        Some(node) => {
            let source = trim_slashes(node);
            let mut kept: Vec<String> = Vec::new();
            let mut found = false;
            let mut i: usize = 0;
            let ghost keep = |n: Seq<char>| n != source@;
            proof {
                reveal(Seq::filter);
                assert(all.take(0).len() == 0);
                assert(texts(kept@) =~= Seq::<Seq<char>>::empty());
            }
            while i < nodes.len()
                invariant
                    i <= nodes@.len(),
                    all == trimmed_nodes(texts(nodes@)),
                    keep == (|n: Seq<char>| n != source@),
                    texts(kept@) == all.take(i as int).filter(keep),
                    found == all.take(i as int).contains(source@),
                decreases nodes@.len() - i,
            {
                let ghost before = texts(kept@);
                let url = trim_slashes(nodes[i].as_str());
                proof {
                    assert(all[i as int] == url@);
                    assert(all.take(i + 1) =~= all.take(i as int).push(url@));
                    all.take(i as int).lemma_filter_push(url@, keep);
                    crate::collections::lemma_push_contains(all.take(i as int), url@, source@);
                }
                if same_text(url.as_str(), source.as_str()) {
                    found = true;
                } else {
                    kept.push(url);
                    assert(texts(kept@) =~= before.push(url@));
                }
                i += 1;
            }
            proof {
                assert(all.take(nodes@.len() as int) =~= all);
                assert(all.filter(keep) == remaining(all, source@));
            }
            if !found {
                return Err(Error::plain(Problem::RetiringNode));
            }
            let mut sources: Vec<String> = Vec::new();
            sources.push(source);
            assert(texts(sources@) =~= seq![trimmed(node@)]);
            Ok(Relocation { nodes: kept, sources })
        },
    }
}

fn trim_all(nodes: &[String]) -> (list: Vec<String>)
    ensures
        texts(list@) == trimmed_nodes(texts(nodes@)),
{
    let mut list: Vec<String> = Vec::new();
    let mut i: usize = 0;
    while i < nodes.len()
        invariant
            i <= nodes@.len(),
            list@.len() == i,
            forall|j: int| 0 <= j < i ==> (#[trigger] list@[j])@ == trimmed(nodes@[j]@),
        decreases nodes@.len() - i,
    {
        list.push(trim_slashes(nodes[i].as_str()));
        i += 1;
    }
    assert(texts(list@) =~= trimmed_nodes(texts(nodes@)));
    list
}

} // verus!
