//! Changes as sequences of published revisions: what a server accepts, and
//! which revisions are current.
use vstd::prelude::*;
use vstd::string::*;
use vstd::utf8::*;

use crate::collections::{keys_of, lists, ordered, with_entry, TextMap, TextSet};
use crate::error::{about, outcome, plain, verdict, Error, ErrorV, Problem};
use crate::json::{quoted, quoted_texts_are_told_apart, Json};
use crate::objects::{
    name_check, object_hash, object_id, revision_check, revision_id, snapshot_json, valid_hash, validate_hash, validate_name,
    ChangeInfo, Publication, PublicationReceipt, Revision, RevisionV, Snapshot, MAX_METADATA_BYTES,
};
use crate::storage::{missing, object_label};
use crate::text::{copy_texts, same_bytes, same_text, texts};

verus! {

// Objects

/// What is wrong with an object that is uploaded.
pub open spec fn upload_check(kind: Seq<char>, id: Seq<char>, bytes: Seq<u8>) -> Result<(), ErrorV> {
    if !valid_hash(id) {
        Err(about(Problem::InvalidObjectId, id))
    } else if kind != "blob"@ && kind != "snapshot"@ {
        Err(plain(Problem::UnsupportedUpload))
    } else if object_hash(kind, bytes) != id {
        Err(plain(Problem::ObjectIdMismatch))
    } else if kind == "snapshot"@ && bytes.len() > MAX_METADATA_BYTES {
        Err(plain(Problem::SnapshotTooLarge))
    } else {
        Ok(())
    }
}

/// Check an object that is uploaded: its kind, and that it is what its
/// identity says.
pub fn check_upload(kind: &str, id: &str, bytes: &[u8]) -> (result: Result<(), Error>)
    ensures
        verdict(result) == upload_check(kind@, id@, bytes@),
{
    validate_hash(id)?;
    if !same_text(kind, "blob") && !same_text(kind, "snapshot") {
        return Err(Error::plain(Problem::UnsupportedUpload));
    }
    if !same_text(object_id(kind, bytes).as_str(), id) {
        return Err(Error::plain(Problem::ObjectIdMismatch));
    }
    if same_text(kind, "snapshot") && bytes.len() > MAX_METADATA_BYTES {
        return Err(Error::plain(Problem::SnapshotTooLarge));
    }
    Ok(())
}

/// A snapshot has to be written in its canonical form: the one that its
/// identity is taken from.
pub fn check_canonical(snapshot: &Snapshot, bytes: &[u8]) -> (result: Result<(), Error>)
    ensures
        verdict(result) == (if encode_utf8(snapshot_json(snapshot@)) == bytes@ {
            Ok::<(), ErrorV>(())
        } else {
            Err(plain(Problem::NoncanonicalSnapshot))
        }),
{
    let text = snapshot.to_json();
    if same_bytes(text.as_str().as_bytes(), bytes) {
        Ok(())
    } else {
        Err(Error::plain(Problem::NoncanonicalSnapshot))
    }
}

/// What is wrong with a request for an object.
pub open spec fn object_request_check(kind: Seq<char>, id: Seq<char>) -> Result<(), ErrorV> {
    if !valid_hash(id) {
        Err(about(Problem::InvalidObjectId, id))
    } else if kind != "blob"@ && kind != "snapshot"@ && kind != "revision"@ {
        Err(plain(Problem::UnknownObjectKind))
    } else {
        Ok(())
    }
}

/// Check a request for an object.
pub fn check_object_request(kind: &str, id: &str) -> (result: Result<(), Error>)
    ensures
        verdict(result) == object_request_check(kind@, id@),
{
    validate_hash(id)?;
    if !same_text(kind, "blob") && !same_text(kind, "snapshot") && !same_text(kind, "revision") {
        return Err(Error::plain(Problem::UnknownObjectKind));
    }
    Ok(())
}

// Publications

/// A publication as text.
pub open spec fn publication_json(request_id: Seq<char>, revision: RevisionV) -> Seq<char> {
    "{\"request_id\":"@ + quoted(request_id) + ",\"revision\":"@ + Revision::json_of(revision) + "}"@
}

/// What tells one publication from another under the same request.
pub open spec fn digest_of(request_id: Seq<char>, revision: RevisionV) -> Seq<char> {
    object_hash("publication"@, encode_utf8(publication_json(request_id, revision)))
}

/// What is wrong with a publication to a change of a project.
pub open spec fn publication_check(
    request_id: Seq<char>,
    revision: RevisionV,
    project: Seq<char>,
    change: Seq<char>,
) -> Result<(), ErrorV> {
    match name_check(request_id) {
        Err(error) => Err(error),
        Ok(()) => match revision_check(revision) {
            Err(error) => Err(error),
            Ok(()) => if revision.project != project || revision.change != change {
                Err(plain(Problem::ForeignRevision))
            } else {
                Ok(())
            },
        },
    }
}

impl Publication {
    /// What tells this publication from another under the same request.
    pub fn digest(&self) -> (digest: String)
        ensures
            digest@ == digest_of(self.request_id@, self.revision@),
    {
        let mut text = "{\"request_id\":".to_owned();
        text.append(self.request_id.to_json().as_str());
        text.append(",\"revision\":");
        text.append(self.revision.to_json().as_str());
        text.append("}");
        object_id("publication", text.as_str().as_bytes())
    }

    /// Check the publication against the change that it is sent to.
    pub fn validate(&self, project: &str, change: &str) -> (result: Result<(), Error>)
        ensures
            verdict(result) == publication_check(self.request_id@, self.revision@, project@, change@),
    {
        validate_name(self.request_id.as_str())?;
        self.revision.validate()?;
        if !same_text(self.revision.project.as_str(), project) || !same_text(self.revision.change.as_str(), change) {
            return Err(Error::plain(Problem::ForeignRevision));
        }
        Ok(())
    }
}

/// A publication arrives as metadata, whose length is limited.
pub fn check_publication_length(length: usize) -> (result: Result<(), Error>)
    ensures
        verdict(result) == (if length <= MAX_METADATA_BYTES {
            Ok::<(), ErrorV>(())
        } else {
            Err(plain(Problem::PublicationTooLarge))
        }),
{
    if length <= MAX_METADATA_BYTES {
        Ok(())
    } else {
        Err(Error::plain(Problem::PublicationTooLarge))
    }
}

/// Whether a publication was recorded before under its request.
pub open spec fn replayed(recorded: Option<Seq<char>>, digest: Seq<char>) -> Result<bool, ErrorV> {
    match recorded {
        None => Ok(false),
        Some(earlier) => if earlier == digest {
            Ok(true)
        } else {
            Err(plain(Problem::RequestReused))
        },
    }
}

/// Whether a publication repeats the one that was recorded under its request.
/// A request serves one publication only.
pub fn is_replay(recorded: Option<&str>, digest: &str) -> (result: Result<bool, Error>)
    ensures
        result matches Ok(again) ==> replayed(recorded.deep_view(), digest@) == Ok::<bool, ErrorV>(again),
        result matches Err(error) ==> replayed(recorded.deep_view(), digest@) == Err::<bool, ErrorV>(error@),
{
    match recorded {
        None => Ok(false),
        Some(earlier) => {
            if same_text(earlier, digest) {
                Ok(true)
            } else {
                Err(Error::plain(Problem::RequestReused))
            }
        },
    }
}

/// Whether a revision may follow what a change holds.
pub open spec fn succession_check(
    revision: RevisionV,
    parent: Option<RevisionV>,
    begun: bool,
    known: bool,
) -> Result<(), ErrorV> {
    match parent {
        Some(parent) => if parent.change != revision.change || parent.project != revision.project
            || parent.base_snapshot != revision.base_snapshot {
            Err(plain(Problem::ForeignPredecessor))
        } else {
            Ok(())
        },
        None => if begun && !known {
            Err(plain(Problem::PredecessorRequired))
        } else {
            Ok(())
        },
    }
}

impl Revision {
    /// Check that the revision may follow what its change holds: its
    /// predecessor, if it names one, belongs to the same change and base, and
    /// a change that has begun is not begun again. `begun` says whether the
    /// change holds revisions, `known` whether it holds this one.
    pub fn validate_succession(&self, parent: Option<&Revision>, begun: bool, known: bool) -> (result: Result<
        (),
        Error,
    >)
        requires
            parent is Some <==> self@.predecessor is Some,
        ensures
            verdict(result) == succession_check(self@, parent.deep_view(), begun, known),
    {
        match parent {
            Some(parent) => {
                if !same_text(parent.change.as_str(), self.change.as_str()) || !same_text(
                    parent.project.as_str(),
                    self.project.as_str(),
                ) || !same_text(parent.base_snapshot.as_str(), self.base_snapshot.as_str()) {
                    return Err(Error::plain(Problem::ForeignPredecessor));
                }
            },
            None => {
                if begun && !known {
                    return Err(Error::plain(Problem::PredecessorRequired));
                }
            },
        }
        Ok(())
    }
}

// Current revisions

/// The current revisions of a change after a publication. Only a revision that
/// is new becomes current, and then its predecessor is so no longer.
pub open spec fn heads_after(
    heads: Set<Seq<char>>,
    fresh: bool,
    predecessor: Option<Seq<char>>,
    id: Seq<char>,
) -> Set<Seq<char>> {
    if !fresh {
        heads
    } else {
        match predecessor {
            Some(parent) => heads.remove(parent).insert(id),
            None => heads.insert(id),
        }
    }
}

/// The current revisions of a change after a publication.
pub fn next_heads(heads: TextSet, fresh: bool, predecessor: Option<&str>, id: &str) -> (result: TextSet)
    ensures
        result@ == heads_after(heads@, fresh, predecessor.deep_view(), id@),
{
    let mut result = heads;
    if fresh {
        if let Some(parent) = predecessor {
            result.remove(parent);
        }
        result.insert(id.to_owned());
    }
    result
}

/// Publishing a revision again does not make it current again.
pub proof fn replays_keep_the_heads(heads: Set<Seq<char>>, predecessor: Option<Seq<char>>, id: Seq<char>)
    ensures
        heads_after(heads, false, predecessor, id) == heads,
{
}

/// Revisions that were published on the same predecessor are all current; the
/// predecessor is not.
pub proof fn divergence_is_retained(heads: Set<Seq<char>>, parent: Seq<char>, first: Seq<char>, second: Seq<char>)
    requires
        first != parent,
        second != parent,
    ensures
        ({
            let after = heads_after(heads_after(heads, true, Some(parent), first), true, Some(parent), second);
            &&& after.contains(first)
            &&& after.contains(second)
            &&& !after.contains(parent)
            &&& forall|other: Seq<char>| #[trigger]
                heads.contains(other) && other != parent ==> after.contains(other)
        }),
{
}

/// The answer to a publication.
pub fn receipt(publication: &Publication, revision: String, heads: &TextSet) -> (receipt: PublicationReceipt)
    ensures
        receipt.request_id@ == publication.request_id@,
        receipt.change@ == publication.revision@.change,
        receipt.revision@ == revision@,
        texts(receipt.heads@) == ordered(heads@),
{
    PublicationReceipt {
        request_id: publication.request_id.clone(),
        change: publication.revision.change.clone(),
        revision,
        heads: heads.to_vec(),
    }
}

// What a project has recorded

/// The mathematical value of a `PublicationReceipt`.
#[verifier::ext_equal]
pub struct ReceiptV {
    pub request_id: Seq<char>,
    pub change: Seq<char>,
    pub revision: Seq<char>,
    pub heads: Seq<Seq<char>>,
}

impl View for PublicationReceipt {
    type V = ReceiptV;

    open spec fn view(&self) -> ReceiptV {
        ReceiptV {
            request_id: self.request_id@,
            change: self.change@,
            revision: self.revision@,
            heads: texts(self.heads@),
        }
    }
}

impl DeepView for PublicationReceipt {
    type V = ReceiptV;

    open spec fn deep_view(&self) -> ReceiptV {
        self@
    }
}

fn copy_receipt(receipt: &PublicationReceipt) -> (copy: PublicationReceipt)
    ensures
        copy@ == receipt@,
{
    PublicationReceipt {
        request_id: receipt.request_id.clone(),
        change: receipt.change.clone(),
        revision: receipt.revision.clone(),
        heads: copy_texts(receipt.heads.as_slice()),
    }
}

/// A publication that was accepted under a request, and its answer.
#[derive(Debug)]
pub struct Recorded {
    pub digest: String,
    pub receipt: PublicationReceipt,
}

/// The mathematical value of a `Recorded`.
#[verifier::ext_equal]
pub struct RecordedV {
    pub digest: Seq<char>,
    pub receipt: ReceiptV,
}

impl View for Recorded {
    type V = RecordedV;

    open spec fn view(&self) -> RecordedV {
        RecordedV { digest: self.digest@, receipt: self.receipt@ }
    }
}

impl DeepView for Recorded {
    type V = RecordedV;

    open spec fn deep_view(&self) -> RecordedV {
        self@
    }
}

/// What a project holds of its changes: the answers by their requests, the
/// stored revisions by their identities, the change that each listed revision
/// belongs to, and the current revisions by their changes.
#[derive(Debug)]
pub struct Ledger {
    pub requests: TextMap<Recorded>,
    pub revisions: TextMap<Revision>,
    pub listed: TextMap<String>,
    pub heads: TextMap<TextSet>,
}

/// The mathematical value of a `Ledger`.
#[verifier::ext_equal]
pub struct LedgerV {
    pub requests: Map<Seq<char>, RecordedV>,
    pub revisions: Map<Seq<char>, RevisionV>,
    pub listed: Map<Seq<char>, Seq<char>>,
    pub heads: Map<Seq<char>, Set<Seq<char>>>,
}

impl View for Ledger {
    type V = LedgerV;

    open spec fn view(&self) -> LedgerV {
        LedgerV {
            requests: self.requests@,
            revisions: self.revisions@,
            listed: self.listed@,
            heads: self.heads@,
        }
    }
}

/// The answer that was recorded for a publication.
pub open spec fn recorded_answer(
    requests: Map<Seq<char>, RecordedV>,
    request_id: Seq<char>,
    revision: RevisionV,
) -> Result<Option<ReceiptV>, ErrorV> {
    let earlier = if requests.contains_key(request_id) {
        Some(requests[request_id].digest)
    } else {
        None
    };
    match replayed(earlier, digest_of(request_id, revision)) {
        Err(error) => Err(error),
        Ok(again) => Ok(
            if again {
                Some(requests[request_id].receipt)
            } else {
                None
            },
        ),
    }
}

/// The revision that a revision names as its predecessor.
pub open spec fn parent_of(revisions: Map<Seq<char>, RevisionV>, revision: RevisionV) -> Result<
    Option<RevisionV>,
    ErrorV,
> {
    match revision.predecessor {
        None => Ok(None),
        Some(id) => if revisions.contains_key(id) {
            Ok(Some(revisions[id]))
        } else {
            Err(about(Problem::MissingObject, object_label("revision"@, id)))
        },
    }
}

/// A change has begun: a revision of it is listed.
pub open spec fn has_begun(listed: Map<Seq<char>, Seq<char>>, change: Seq<char>) -> bool {
    exists|id: Seq<char>| #[trigger] listed.contains_key(id) && listed[id] == change
}

/// The current revisions of a change.
pub open spec fn heads_of(heads: Map<Seq<char>, Set<Seq<char>>>, change: Seq<char>) -> Set<Seq<char>> {
    if heads.contains_key(change) {
        heads[change]
    } else {
        Set::empty()
    }
}

/// The current revisions of a change after a revision of it was accepted.
pub open spec fn accepted_heads(ledger: LedgerV, revision: RevisionV) -> Set<Seq<char>> {
    let id = revision_id(revision);
    heads_after(heads_of(ledger.heads, revision.change), !ledger.listed.contains_key(id), revision.predecessor, id)
}

/// The answer to a publication that is accepted.
pub open spec fn accepted_receipt(ledger: LedgerV, request_id: Seq<char>, revision: RevisionV) -> ReceiptV {
    ReceiptV {
        request_id,
        change: revision.change,
        revision: revision_id(revision),
        heads: ordered(accepted_heads(ledger, revision)),
    }
}

/// What a publication that is accepted leaves behind.
pub open spec fn accepted(ledger: LedgerV, request_id: Seq<char>, revision: RevisionV) -> LedgerV {
    let id = revision_id(revision);
    LedgerV {
        requests: ledger.requests.insert(
            request_id,
            RecordedV {
                digest: digest_of(request_id, revision),
                receipt: accepted_receipt(ledger, request_id, revision),
            },
        ),
        revisions: with_entry(ledger.revisions, id, revision),
        listed: with_entry(ledger.listed, id, revision.change),
        heads: ledger.heads.insert(revision.change, accepted_heads(ledger, revision)),
    }
}

/// The answer to a publication, and what it leaves behind. A publication that
/// is refused leaves everything as it was.
pub open spec fn published(ledger: LedgerV, request_id: Seq<char>, revision: RevisionV) -> (
    Result<ReceiptV, ErrorV>,
    LedgerV,
) {
    match recorded_answer(ledger.requests, request_id, revision) {
        Err(error) => (Err(error), ledger),
        Ok(Some(receipt)) => (Ok(receipt), ledger),
        Ok(None) => match parent_of(ledger.revisions, revision) {
            Err(error) => (Err(error), ledger),
            Ok(parent) => match succession_check(
                revision,
                parent,
                has_begun(ledger.listed, revision.change),
                ledger.revisions.contains_key(revision_id(revision)),
            ) {
                Err(error) => (Err(error), ledger),
                Ok(()) => (
                    Ok(accepted_receipt(ledger, request_id, revision)),
                    accepted(ledger, request_id, revision),
                ),
            },
        },
    }
}

impl Ledger {
    /// The ledger of a project without changes.
    pub fn new() -> (ledger: Self)
        ensures
            ledger@ == (LedgerV {
                requests: Map::empty(),
                revisions: Map::empty(),
                listed: Map::empty(),
                heads: Map::empty(),
            }),
    {
        Ledger {
            requests: TextMap::new(),
            revisions: TextMap::new(),
            listed: TextMap::new(),
            heads: TextMap::new(),
        }
    }

    /// The answer that was recorded for a publication. A request serves one
    /// publication only.
    pub fn recorded(&self, publication: &Publication) -> (result: Result<Option<PublicationReceipt>, Error>)
        ensures
            outcome(result) == recorded_answer(self@.requests, publication.request_id@, publication.revision@),
    {
        let digest = publication.digest();
        match self.requests.get(publication.request_id.as_str()) {
            None => Ok(None),
            Some(earlier) => {
                if is_replay(Some(earlier.digest.as_str()), digest.as_str())? {
                    Ok(Some(copy_receipt(&earlier.receipt)))
                } else {
                    Ok(None)
                }
            },
        }
    }

    fn has_begun(&self, change: &str) -> (result: bool)
        ensures
            result == has_begun(self@.listed, change@),
    {
        let n = self.listed.len();
        let ghost keys = keys_of(self.listed@);
        let mut i: usize = 0;
        while i < n
            invariant
                i <= n,
                n == self.listed@.dom().len(),
                n == keys.len(),
                keys == keys_of(self.listed@),
                lists(keys, self.listed@.dom()),
                forall|j: int| 0 <= j < i ==> self.listed@[#[trigger] keys[j]] != change@,
            decreases n - i,
        {
            let found = self.listed.value_at(i);
            if same_text(found.as_str(), change) {
                assert(self.listed@.dom().contains(keys[i as int]));
                assert(self@.listed.contains_key(keys[i as int]));
                return true;
            }
            i += 1;
        }
        proof {
            if has_begun(self@.listed, change@) {
                let id = choose|id: Seq<char>| #[trigger] self@.listed.contains_key(id) && self@.listed[id] == change@;
                assert(self.listed@.dom().contains(id));
                assert(keys.contains(id));
                let j = choose|j: int| 0 <= j < keys.len() && keys[j] == id;
                assert(self.listed@[keys[j]] != change@);
            }
        }
        false
    }

    /// Take in a publication whose content was found complete. Where it was
    /// accepted before, the answer is the recorded one.
    pub fn publish(&mut self, publication: &Publication) -> (result: Result<PublicationReceipt, Error>)
        ensures
            outcome(result) == published(old(self)@, publication.request_id@, publication.revision@).0,
            final(self)@ == published(old(self)@, publication.request_id@, publication.revision@).1,
    {
        let ghost start = self@;
        let ghost revision = publication.revision@;
        if let Some(receipt) = self.recorded(publication)? {
            return Ok(receipt);
        }
        let id = publication.revision.id()?;
        assert(id@ == revision_id(revision));
        let known = self.revisions.contains_key(id.as_str());
        let begun = self.has_begun(publication.revision.change.as_str());
        match &publication.revision.predecessor {
            None => {
                publication.revision.validate_succession(None, begun, known)?;
            },
            Some(parent) => {
                match self.revisions.get(parent.as_str()) {
                    None => {
                        return Err(missing("revision", parent.as_str()));
                    },
                    Some(found) => {
                        publication.revision.validate_succession(Some(found), begun, known)?;
                    },
                }
            },
        }
        let change = publication.revision.change.as_str();
        let fresh = !self.listed.contains_key(id.as_str());
        let heads = match self.heads.get(change) {
            Some(heads) => heads.clone(),
            None => TextSet::new(),
        };
        let heads = match &publication.revision.predecessor {
            Some(parent) => next_heads(heads, fresh, Some(parent.as_str()), id.as_str()),
            None => next_heads(heads, fresh, None, id.as_str()),
        };
        assert(heads@ == accepted_heads(start, revision));
        if !known {
            self.revisions.insert(id.clone(), publication.revision.clone());
        }
        if fresh {
            self.listed.insert(id.clone(), publication.revision.change.clone());
        }
        let answer = receipt(publication, id, &heads);
        assert(answer@ =~= accepted_receipt(start, publication.request_id@, revision));
        self.heads.insert(publication.revision.change.clone(), heads);
        let record = Recorded { digest: publication.digest(), receipt: copy_receipt(&answer) };
        self.requests.insert(publication.request_id.clone(), record);
        assert(self@ =~= accepted(start, publication.request_id@, revision));
        Ok(answer)
    }
}

/// What a project holds after a series of publications, accepted or not.
pub open spec fn ledger_after(ledger: LedgerV, publications: Seq<(Seq<char>, RevisionV)>) -> LedgerV
    decreases publications.len(),
{
    if publications.len() == 0 {
        ledger
    } else {
        ledger_after(published(ledger, publications[0].0, publications[0].1).1, publications.skip(1))
    }
}

proof fn lemma_requests_stay(ledger: LedgerV, publications: Seq<(Seq<char>, RevisionV)>, request_id: Seq<char>)
    requires
        ledger.requests.contains_key(request_id),
    ensures
        ledger_after(ledger, publications).requests.contains_key(request_id),
        ledger_after(ledger, publications).requests[request_id] == ledger.requests[request_id],
    decreases publications.len(),
{
    if publications.len() > 0 {
        let next = published(ledger, publications[0].0, publications[0].1).1;
        assert(next.requests.contains_key(request_id) && next.requests[request_id] == ledger.requests[request_id]);
        lemma_requests_stay(next, publications.skip(1), request_id);
    }
}

proof fn lemma_after_head(head: Seq<char>, x: Seq<char>, y: Seq<char>)
    requires
        head + x == head + y,
    ensures
        x == y,
{
    assert(x =~= (head + x).skip(head.len() as int));
    assert(y =~= (head + y).skip(head.len() as int));
}

proof fn lemma_predecessors_apart(a: Option<Seq<char>>, b: Option<Seq<char>>, x: Seq<char>, y: Seq<char>)
    requires
        Option::<String>::json_of(a) + x == Option::<String>::json_of(b) + y,
    ensures
        a == b,
        x == y,
{
    reveal_strlit("null");
    match (a, b) {
        (Some(p), Some(q)) => {
            quoted_texts_are_told_apart(p, q, x, y);
        },
        (None, None) => {
            lemma_after_head("null"@, x, y);
        },
        (Some(p), None) => {
            assert((quoted(p) + x)[0] == '"');
            assert(("null"@ + y)[0] == 'n');
        },
        (None, Some(q)) => {
            assert((quoted(q) + y)[0] == '"');
            assert(("null"@ + x)[0] == 'n');
        },
    }
}

/// Two more pieces of a text belong to what follows it.
proof fn lemma_regrouped(text: Seq<char>, label: Seq<char>, value: Seq<char>, rest: Seq<char>)
    ensures
        ((text + label) + value) + rest == text + (label + (value + rest)),
{
    assert(((text + label) + value) + rest =~= text + (label + (value + rest)));
}

/// A field with a label and a text is known by how it is written.
proof fn lemma_fields_apart(label: Seq<char>, a: Seq<char>, b: Seq<char>, x: Seq<char>, y: Seq<char>)
    requires
        label + (quoted(a) + x) == label + (quoted(b) + y),
    ensures
        a == b,
        x == y,
{
    lemma_after_head(label, quoted(a) + x, quoted(b) + y);
    quoted_texts_are_told_apart(a, b, x, y);
}

/// What follows the parts of a revision in JSON, from the last to the first.
spec fn after_result(revision: RevisionV) -> Seq<char> {
    ",\"message\":"@ + (quoted(revision.message) + "}"@)
}

spec fn after_base(revision: RevisionV) -> Seq<char> {
    ",\"result_snapshot\":"@ + (quoted(revision.result_snapshot) + after_result(revision))
}

spec fn after_predecessor(revision: RevisionV) -> Seq<char> {
    ",\"base_snapshot\":"@ + (quoted(revision.base_snapshot) + after_base(revision))
}

spec fn after_change(revision: RevisionV) -> Seq<char> {
    ",\"predecessor\":"@ + (Option::<String>::json_of(revision.predecessor) + after_predecessor(revision))
}

spec fn after_project(revision: RevisionV) -> Seq<char> {
    ",\"change\":"@ + (quoted(revision.change) + after_change(revision))
}

proof fn lemma_revision_parts(revision: RevisionV)
    ensures
        Revision::json_of(revision) == "{\"project\":"@ + (quoted(revision.project) + after_project(revision)),
{
    let start = "{\"project\":"@ + quoted(revision.project);
    let change = start + ",\"change\":"@ + quoted(revision.change);
    let predecessor = change + ",\"predecessor\":"@ + Option::<String>::json_of(revision.predecessor);
    let base = predecessor + ",\"base_snapshot\":"@ + quoted(revision.base_snapshot);
    let result = base + ",\"result_snapshot\":"@ + quoted(revision.result_snapshot);
    lemma_regrouped(result, ",\"message\":"@, quoted(revision.message), "}"@);
    lemma_regrouped(base, ",\"result_snapshot\":"@, quoted(revision.result_snapshot), after_result(revision));
    lemma_regrouped(predecessor, ",\"base_snapshot\":"@, quoted(revision.base_snapshot), after_base(revision));
    lemma_regrouped(
        change,
        ",\"predecessor\":"@,
        Option::<String>::json_of(revision.predecessor),
        after_predecessor(revision),
    );
    lemma_regrouped(start, ",\"change\":"@, quoted(revision.change), after_change(revision));
    assert(start + after_project(revision) =~= "{\"project\":"@ + (quoted(revision.project) + after_project(revision)));
}

/// Revisions that differ are written differently.
proof fn lemma_revisions_apart(a: RevisionV, b: RevisionV)
    requires
        Revision::json_of(a) == Revision::json_of(b),
    ensures
        a == b,
{
    lemma_revision_parts(a);
    lemma_revision_parts(b);
    lemma_fields_apart("{\"project\":"@, a.project, b.project, after_project(a), after_project(b));
    lemma_fields_apart(",\"change\":"@, a.change, b.change, after_change(a), after_change(b));
    lemma_after_head(
        ",\"predecessor\":"@,
        Option::<String>::json_of(a.predecessor) + after_predecessor(a),
        Option::<String>::json_of(b.predecessor) + after_predecessor(b),
    );
    lemma_predecessors_apart(a.predecessor, b.predecessor, after_predecessor(a), after_predecessor(b));
    lemma_fields_apart(",\"base_snapshot\":"@, a.base_snapshot, b.base_snapshot, after_base(a), after_base(b));
    lemma_fields_apart(
        ",\"result_snapshot\":"@,
        a.result_snapshot,
        b.result_snapshot,
        after_result(a),
        after_result(b),
    );
    lemma_fields_apart(",\"message\":"@, a.message, b.message, "}"@, "}"@);
}

/// The bytes that the digest of a publication is taken from.
pub open spec fn publication_bytes(request_id: Seq<char>, revision: RevisionV) -> Seq<u8> {
    encode_utf8(publication_json(request_id, revision))
}

/// Publications that differ are different bytes, so that their digests are the
/// same only where the hash has the same value for different bytes.
pub proof fn publications_are_told_apart(request_id: Seq<char>, a: RevisionV, b: RevisionV)
    requires
        a != b,
    ensures
        publication_bytes(request_id, a) != publication_bytes(request_id, b),
{
    if publication_bytes(request_id, a) == publication_bytes(request_id, b) {
        encode_utf8_decode_utf8(publication_json(request_id, a));
        encode_utf8_decode_utf8(publication_json(request_id, b));
        let head = "{\"request_id\":"@ + quoted(request_id) + ",\"revision\":"@;
        let x = Revision::json_of(a);
        let y = Revision::json_of(b);
        assert(publication_json(request_id, a) =~= head + (x + "}"@));
        assert(publication_json(request_id, b) =~= head + (y + "}"@));
        lemma_after_head(head, x + "}"@, y + "}"@);
        assert((x + "}"@).len() == (y + "}"@).len());
        assert(x =~= (x + "}"@).take(x.len() as int));
        assert(y =~= (y + "}"@).take(y.len() as int));
        lemma_revisions_apart(a, b);
    }
}

/// The hash has the same value for different bytes of an object.
pub open spec fn is_collision(kind: Seq<char>, a: Seq<u8>, b: Seq<u8>) -> bool {
    a != b && object_hash(kind, a) == object_hash(kind, b)
}

/// A publication can be sent again at any time. Whatever was published since,
/// and whichever revisions are current by then, the answer is the one that was
/// given first, and nothing changes: neither the current revisions nor
/// anything else that is recorded. Under the same request every other
/// publication is refused, unless its digest is the same by a collision of the
/// hash, and again nothing changes.
pub proof fn publications_are_replayed(
    ledger: LedgerV,
    request_id: Seq<char>,
    revision: RevisionV,
    later: Seq<(Seq<char>, RevisionV)>,
    other: RevisionV,
)
    requires
        published(ledger, request_id, revision).0 is Ok,
    ensures
        ({
            let now = ledger_after(published(ledger, request_id, revision).1, later);
            &&& published(now, request_id, revision) == (published(ledger, request_id, revision).0, now)
            &&& digest_of(request_id, other) != digest_of(request_id, revision) ==> published(now, request_id, other)
                == (Err::<ReceiptV, ErrorV>(plain(Problem::RequestReused)), now)
            &&& other != revision ==> published(now, request_id, other) == (
                Err::<ReceiptV, ErrorV>(plain(Problem::RequestReused)),
                now,
            ) || is_collision(
                "publication"@,
                publication_bytes(request_id, other),
                publication_bytes(request_id, revision),
            )
        }),
{
    if other != revision {
        publications_are_told_apart(request_id, other, revision);
    }
    lemma_requests_stay(published(ledger, request_id, revision).1, later, request_id);
}

/// A publication that is refused leaves everything as it was.
pub proof fn refusals_change_nothing(ledger: LedgerV, request_id: Seq<char>, revision: RevisionV)
    ensures
        published(ledger, request_id, revision).0 is Err ==> published(ledger, request_id, revision).1 == ledger,
{
}

// Answers

/// What is known of a change by its current revisions. A change without any
/// does not exist.
pub fn change_info(change: &str, heads: Vec<String>) -> (result: Result<ChangeInfo, Error>)
    ensures
        match result {
            Ok(info) => heads@.len() > 0 && info.change@ == change@ && texts(info.heads@) == texts(heads@),
            Err(error) => heads@.len() == 0 && error@ == about(Problem::MissingChange, change@),
        },
{
    if heads.len() == 0 {
        return Err(Error::about(Problem::MissingChange, change.to_owned()));
    }
    Ok(ChangeInfo { change: change.to_owned(), heads })
}

} // verus!
