//! What a remote accepts.
use vstd::prelude::*;
use vstd::utf8::*;

use crate::collections::{keys_of, lemma_ordered, lemma_push_contains, lists, ordered};
use crate::error::{lemma_first_problem, ErrorV, Problem};
use crate::objects::{object_hash, revision_check, revision_id, valid_hash, valid_name, EntryKind, RevisionV};
use crate::publication::{
    accepted_heads, digest_of, has_begun, heads_after, object_request_check, publication_check, published,
    recorded_answer, replayed, succession_check, upload_check, LedgerV, ReceiptV, RecordedV,
};
use crate::remote::offered_size;
use crate::replication::{after_answer, asked_next, SpreadV};
use crate::server::{
    content_check, copies_of, file_upload_check, lacking_nodes, lets_in, object_check, owned, page_length, positions,
    refusal_of, remaining, reported, size_check, transaction_keys, Refusal,
};
use crate::text::{blank, white_space};
use crate::transactions::{dependencies_of, placement, TransactionV};
use crate::transfer::{Info, KeyV, Object};

verus! {

/// The sizes say that an object is there.
pub open spec fn held(sizes: Map<Seq<char>, Option<u64>>, id: Seq<char>) -> bool {
    sizes.contains_key(id) && sizes[id] is Some
}

/// The content of a transaction is there if and only if the object of every
/// file that it writes is, and that of the place it came from, each in the
/// length of its entry unless it is a tree of chunks. What it deletes asks for
/// nothing.
pub proof fn written_content_is_there(transaction: TransactionV, sizes: Map<Seq<char>, Option<u64>>)
    requires
        transaction.edits.dom().finite(),
    ensures
        content_check(transaction, sizes) is Ok <==> {
            &&& forall|path: Seq<char>|
                #![trigger transaction.edits[path]]
                transaction.edits.contains_key(path) && transaction.edits[path].value is Some ==> {
                    let entry = transaction.edits[path].value->0;
                    held(sizes, entry.blob) && (entry.kind == EntryKind::Chunked || sizes[entry.blob]->0 == entry.size)
                }
            &&& transaction.provenance is Some ==> {
                let entry = transaction.provenance->0;
                held(sizes, entry.blob) && (entry.kind == EntryKind::Chunked || sizes[entry.blob]->0 == entry.size)
            }
        },
{
    let keys = keys_of(transaction.edits);
    let check = |path: Seq<char>| size_check(transaction.edits, sizes, path);
    lemma_ordered(transaction.edits.dom());
    lemma_first_problem(keys, check);
    assert forall|path: Seq<char>| transaction.edits.contains_key(path) implies exists|i: int|
        0 <= i < keys.len() && #[trigger] keys[i] == path by {
        assert(transaction.edits.dom().contains(path));
        assert(keys.contains(path));
    }
    assert forall|i: int| 0 <= i < keys.len() implies transaction.edits.contains_key(#[trigger] keys[i]) by {
        assert(keys.contains(keys[i]));
        assert(transaction.edits.dom().contains(keys[i]));
    }
    if crate::error::first_problem(keys, check) is Ok {
        assert forall|path: Seq<char>|
            #![trigger transaction.edits[path]]
            transaction.edits.contains_key(path) && transaction.edits[path].value is Some implies {
            let entry = transaction.edits[path].value->0;
            held(sizes, entry.blob) && (entry.kind == EntryKind::Chunked || sizes[entry.blob]->0 == entry.size)
        } by {
            let i = choose|i: int| 0 <= i < keys.len() && #[trigger] keys[i] == path;
            assert(check(keys[i]) is Ok);
        }
    } else {
        let i = choose|i: int| 0 <= i < keys.len() && check(#[trigger] keys[i]) is Err;
        let entry = transaction.edits[keys[i]].value->0;
        assert(transaction.edits[keys[i]].value is Some);
    }
}

/// A transaction that only deletes files, and came from nowhere, is accepted
/// whatever objects are there.
pub proof fn deletions_need_no_content(transaction: TransactionV, sizes: Map<Seq<char>, Option<u64>>)
    requires
        transaction.edits.dom().finite(),
        transaction.provenance is None,
        forall|path: Seq<char>| #[trigger]
            transaction.edits.contains_key(path) ==> transaction.edits[path].value is None,
    ensures
        content_check(transaction, sizes) is Ok,
{
    written_content_is_there(transaction, sizes);
}

// Uploads

/// A request is let in if and only if its header is the word for a bearer and
/// the token.
pub proof fn only_the_token_lets_in(header: Option<Seq<char>>, token: Seq<char>)
    ensures
        lets_in(header, token) <==> header == Some("Bearer "@ + token),
{
    let head = "Bearer "@;
    if header is Some {
        let text = header->0;
        if text.len() >= head.len() && text.take(head.len() as int) == head && text.skip(head.len() as int) == token {
            assert(text =~= head + token);
        }
        if text == head + token {
            assert(text.take(head.len() as int) =~= head);
            assert(text.skip(head.len() as int) =~= token);
        }
    }
}

/// An object can be asked for if and only if its project has a name, its
/// identity is a hash, and it is a blob or a transaction. It can be uploaded
/// if and only if it is a blob besides, of at most 16 MiB, under the hash of
/// its content.
pub proof fn uploads_are_verified(project: Seq<char>, kind: Seq<char>, id: Seq<char>, bytes: Seq<u8>)
    ensures
        object_check(project, kind, id) is Ok <==> valid_name(project) && valid_hash(id) && (kind == "blob"@ || kind
            == "transaction"@),
        file_upload_check(project, kind, id, bytes) is Ok <==> valid_name(project) && valid_hash(id) && kind == "blob"@
            && object_hash("blob"@, bytes) == id && bytes.len() <= 16_777_216,
{
}

/// A blob or a snapshot is taken for a publication if and only if its identity
/// is the hash of its content, and a snapshot has at most 2 MiB. A revision can
/// be asked for as well, and nothing else.
pub proof fn published_objects_are_verified(kind: Seq<char>, id: Seq<char>, bytes: Seq<u8>)
    ensures
        upload_check(kind, id, bytes) is Ok <==> {
            &&& valid_hash(id)
            &&& kind == "blob"@ || kind == "snapshot"@ && bytes.len() <= 2_097_152
            &&& object_hash(kind, bytes) == id
        },
        object_request_check(kind, id) is Ok <==> valid_hash(id) && (kind == "blob"@ || kind == "snapshot"@ || kind
            == "revision"@),
{
    reveal_strlit("blob");
    reveal_strlit("snapshot");
    assert("blob"@.len() != "snapshot"@.len());
}

/// An offer is taken if and only if the object is there and not longer than
/// its kind may be.
pub proof fn offers_are_taken_within_the_limit(kind: Seq<char>, size: Option<u64>)
    ensures
        offered_size(kind, size) is Ok <==> size is Some && size->0 <= (if kind == "blob"@ {
            16_777_216u64
        } else {
            2_097_152u64
        }),
        offered_size(kind, size) is Ok ==> offered_size(kind, size)->Ok_0 == size->0,
{
}

/// What is asked about the parents of a transaction is whether each is there,
/// once.
pub proof fn every_parent_is_asked_about(transaction: TransactionV, id: Seq<char>)
    requires
        dependencies_of(transaction).finite(),
    ensures
        ({
            let keys = transaction_keys(ordered(dependencies_of(transaction)));
            &&& dependencies_of(transaction).contains(id) <==> keys.contains(KeyV { kind: "transaction"@, id })
            &&& keys.len() == dependencies_of(transaction).len()
            &&& forall|i: int| 0 <= i < keys.len() ==> (#[trigger] keys[i]).kind == "transaction"@
        }),
{
    let ids = ordered(dependencies_of(transaction));
    let keys = transaction_keys(ids);
    lemma_ordered(dependencies_of(transaction));
    let key = KeyV { kind: "transaction"@, id };
    if keys.contains(key) {
        let i = choose|i: int| 0 <= i < keys.len() && keys[i] == key;
        assert(ids[i] == id);
        assert(ids.contains(id));
    }
    if dependencies_of(transaction).contains(id) {
        assert(ids.contains(id));
        let i = choose|i: int| 0 <= i < ids.len() && ids[i] == id;
        assert(keys[i] == key);
    }
}

/// A problem is answered by what it says of the request: what is not there is
/// missing, what is taken is a conflict, what cannot be stored now is
/// unavailable, and anything else is invalid. None is blamed on the server
/// itself.
pub proof fn refusals_say_what_is_wrong(problem: Problem)
    ensures
        ({
            let refusal = refusal_of(problem);
            let status = refusal.status_of();
            &&& status == 404 <==> problem is NoSuchProject || problem is MissingChange || problem is MissingObject
            &&& status == 409 <==> problem is RequestReused || problem is PredecessorRequired
            &&& status == 503 <==> problem is TooFewCopies || problem is TooManyFailures || problem is Draining
            &&& status == 400 || status == 404 || status == 409 || status == 503
            &&& status == 404 ==> refusal.code_of() == "NOT_FOUND"@
            &&& status == 409 ==> refusal.code_of() == "CONFLICT"@
            &&& status == 503 ==> refusal.code_of() == "UNAVAILABLE"@
            &&& status == 400 ==> refusal.code_of() == "INVALID_REQUEST"@
        }),
        Refusal::Internal.status_of() == 500,
        Refusal::Internal.code_of() == "INTERNAL_ERROR"@,
{
}

// Publications

/// A revision is accepted if and only if its project and its change have
/// names, its snapshots and its predecessor are hashes, and its message says
/// something in at most 16384 bytes.
pub proof fn revisions_are_accepted_by_their_parts(revision: RevisionV)
    ensures
        revision_check(revision) is Ok <==> {
            &&& valid_name(revision.project) && valid_name(revision.change)
            &&& valid_hash(revision.base_snapshot) && valid_hash(revision.result_snapshot)
            &&& revision.predecessor is Some ==> valid_hash(revision.predecessor->0)
            &&& exists|i: int| 0 <= i < revision.message.len() && !white_space(#[trigger] revision.message[i])
            &&& encode_utf8(revision.message).len() <= 16384
        },
{
    assert(!blank(revision.message) <==> exists|i: int|
        0 <= i < revision.message.len() && !white_space(#[trigger] revision.message[i]));
}

/// A publication is accepted where it is sent if and only if its request has a
/// name, its revision is accepted, and that revision belongs to the project and
/// the change.
pub proof fn publications_belong_where_they_are_sent(
    request_id: Seq<char>,
    revision: RevisionV,
    project: Seq<char>,
    change: Seq<char>,
)
    ensures
        publication_check(request_id, revision, project, change) is Ok <==> valid_name(request_id) && revision_check(
            revision,
        ) is Ok && revision.project == project && revision.change == change,
{
}

/// A revision follows another if and only if both belong to one project and
/// one change and start from one base. One that follows none begins a change,
/// or is one that is known already.
pub proof fn revisions_follow_their_own_kind(
    revision: RevisionV,
    parent: Option<RevisionV>,
    begun: bool,
    known: bool,
)
    ensures
        parent is Some ==> (succession_check(revision, parent, begun, known) is Ok <==> parent->0.project
            == revision.project && parent->0.change == revision.change && parent->0.base_snapshot
            == revision.base_snapshot),
        parent is None ==> (succession_check(revision, parent, begun, known) is Ok <==> !begun || known),
{
}

/// A new revision becomes a head in place of the one that it follows. All
/// other heads stay.
pub proof fn new_revisions_become_heads(
    heads: Set<Seq<char>>,
    predecessor: Option<Seq<char>>,
    id: Seq<char>,
    other: Seq<char>,
)
    ensures
        heads_after(heads, true, predecessor, id).contains(id),
        other != id ==> (heads_after(heads, true, predecessor, id).contains(other) <==> heads.contains(other)
            && predecessor != Some(other)),
        heads_after(heads, false, predecessor, id) == heads,
{
}

/// A publication that was not made before is taken if and only if the revision
/// that it follows is there and it may follow it, or, where it follows none,
/// if its change has no revision yet or has this one.
pub proof fn publications_are_taken_in_succession(ledger: LedgerV, request_id: Seq<char>, revision: RevisionV)
    requires
        !ledger.requests.contains_key(request_id),
    ensures
        published(ledger, request_id, revision).0 is Ok <==> match revision.predecessor {
            Some(id) => {
                &&& ledger.revisions.contains_key(id)
                &&& ledger.revisions[id].project == revision.project
                &&& ledger.revisions[id].change == revision.change
                &&& ledger.revisions[id].base_snapshot == revision.base_snapshot
            },
            None => {
                ||| ledger.revisions.contains_key(revision_id(revision))
                ||| forall|id: Seq<char>| #[trigger] ledger.listed.contains_key(id) ==> ledger.listed[id] != revision.change
            },
        },
{
    assert(has_begun(ledger.listed, revision.change) <==> !forall|id: Seq<char>| #[trigger]
        ledger.listed.contains_key(id) ==> ledger.listed[id] != revision.change);
}

/// A publication that is taken for the first time keeps its revision and lists
/// it under its change, and keeps what was there before. The receipt names the
/// request, the change, the revision and the heads of the change, in order. A
/// revision that was not listed is among the heads; other changes keep theirs.
pub proof fn publications_are_kept(
    ledger: LedgerV,
    request_id: Seq<char>,
    revision: RevisionV,
    other: Seq<char>,
)
    requires
        !ledger.requests.contains_key(request_id),
        published(ledger, request_id, revision).0 is Ok,
        forall|change: Seq<char>| #[trigger] ledger.heads.contains_key(change) ==> ledger.heads[change].finite(),
    ensures
        ({
            let receipt = published(ledger, request_id, revision).0->Ok_0;
            let after = published(ledger, request_id, revision).1;
            let id = revision_id(revision);
            &&& receipt.request_id == request_id && receipt.change == revision.change && receipt.revision == id
            &&& after.heads.contains_key(revision.change)
            &&& lists(receipt.heads, after.heads[revision.change])
            &&& after.revisions.contains_key(id) && after.listed.contains_key(id)
            &&& !ledger.revisions.contains_key(id) ==> after.revisions[id] == revision
            &&& !ledger.listed.contains_key(id) ==> after.listed[id] == revision.change
                && after.heads[revision.change].contains(id)
            &&& ledger.listed.contains_key(id) && ledger.heads.contains_key(revision.change)
                ==> after.heads[revision.change] == ledger.heads[revision.change]
            &&& ledger.revisions.contains_key(other) ==> after.revisions.contains_key(other) && after.revisions[other]
                == ledger.revisions[other]
            &&& ledger.listed.contains_key(other) ==> after.listed.contains_key(other) && after.listed[other]
                == ledger.listed[other]
            &&& ledger.requests.contains_key(other) ==> after.requests.contains_key(other) && after.requests[other]
                == ledger.requests[other]
            &&& after.requests.contains_key(request_id) && after.requests[request_id].receipt == receipt
            &&& other != revision.change && ledger.heads.contains_key(other) ==> after.heads.contains_key(other)
                && after.heads[other] == ledger.heads[other]
        }),
{
    lemma_ordered(accepted_heads(ledger, revision));
}

/// A request that was answered before gets the same answer if it is the same,
/// and is refused if it is another. One that was not has no answer yet.
pub proof fn answers_are_remembered(
    requests: Map<Seq<char>, RecordedV>,
    request_id: Seq<char>,
    revision: RevisionV,
    recorded: Option<Seq<char>>,
    digest: Seq<char>,
)
    ensures
        !requests.contains_key(request_id) ==> recorded_answer(requests, request_id, revision) == Ok::<
            Option<ReceiptV>,
            ErrorV,
        >(None),
        requests.contains_key(request_id) && requests[request_id].digest == digest_of(request_id, revision)
            ==> recorded_answer(requests, request_id, revision) == Ok::<Option<ReceiptV>, ErrorV>(
            Some(requests[request_id].receipt),
        ),
        requests.contains_key(request_id) && requests[request_id].digest != digest_of(request_id, revision)
            ==> recorded_answer(requests, request_id, revision) is Err,
        replayed(recorded, digest) is Ok <==> recorded is None || recorded == Some(digest),
        replayed(recorded, digest) is Ok ==> (replayed(recorded, digest)->Ok_0 <==> recorded is Some),
{
}

// Storage nodes

/// While copies are missing, the next node in order is asked for one. Each
/// answer counts once, and nobody is asked when there are enough.
pub proof fn copies_are_asked_for_while_they_are_missing(state: SpreadV, stored: bool)
    ensures
        asked_next(state) is Some <==> state.copies < state.replicas && state.rest.len() > 0,
        asked_next(state) is Some ==> asked_next(state)->0 == state.rest[0],
        asked_next(state) is Some ==> after_answer(state, stored).rest == state.rest.skip(1) && after_answer(
            state,
            stored,
        ).copies == state.copies + (if stored {
            1int
        } else {
            0
        }) && after_answer(state, stored).replicas == state.replicas,
        asked_next(state) is None ==> after_answer(state, stored) == state,
{
}

proof fn lemma_lacking_nodes(found: Seq<bool>, node: int)
    ensures
        lacking_nodes(found).contains(node) <==> 0 <= node < found.len() && !found[node],
        forall|i: int, j: int|
            0 <= i < j < lacking_nodes(found).len() ==> #[trigger] lacking_nodes(found)[i] < #[trigger] lacking_nodes(
                found,
            )[j],
        forall|i: int| 0 <= i < lacking_nodes(found).len() ==> 0 <= #[trigger] lacking_nodes(found)[i] < found.len(),
    decreases found.len(),
{
    if found.len() > 0 {
        let head = found.drop_last();
        let before = lacking_nodes(head);
        let all = lacking_nodes(found);
        lemma_lacking_nodes(head, node);
        if !found.last() {
            assert(all == before.push(found.len() - 1));
            assert(all[all.len() - 1] == found.len() - 1);
            if before.contains(node) {
                let i = choose|i: int| 0 <= i < before.len() && before[i] == node;
                assert(all[i] == node);
            }
            if all.contains(node) {
                let i = choose|i: int| 0 <= i < all.len() && all[i] == node;
                if i < before.len() {
                    assert(before[i] == node);
                }
            }
        }
    }
}

/// A project is repaired at every node that lacks it, each once and in order.
pub proof fn every_node_without_it_is_repaired(found: Seq<bool>, node: int)
    ensures
        lacking_nodes(found).contains(node) <==> 0 <= node < found.len() && !found[node],
        forall|i: int, j: int|
            0 <= i < j < lacking_nodes(found).len() ==> #[trigger] lacking_nodes(found)[i] < #[trigger] lacking_nodes(
                found,
            )[j],
{
    lemma_lacking_nodes(found, node);
}

/// The answers of the nodes say of an object that it is there if one of them
/// does, in a length that one of them gives, with as many copies as there are
/// such answers.
pub proof fn copies_are_counted(found: Seq<Info>, key: KeyV)
    ensures
        copies_of(found, key) == found.filter(|info: Info| info.object@ == key && info.size is Some).len(),
        reported(found, key) is Some <==> exists|i: int|
            0 <= i < found.len() && (#[trigger] found[i]).object@ == key && found[i].size is Some,
        reported(found, key) is Some ==> exists|i: int|
            0 <= i < found.len() && (#[trigger] found[i]).object@ == key && found[i].size == reported(found, key),
    decreases found.len(),
{
    reveal(Seq::filter);
    if found.len() > 0 {
        let head = found.drop_last();
        copies_are_counted(head, key);
        assert(found[found.len() - 1] == found.last());
        assert forall|i: int| 0 <= i < head.len() implies #[trigger] head[i] == found[i] by {}
        if reported(head, key) is Some {
            let i = choose|i: int|
                0 <= i < head.len() && (#[trigger] head[i]).object@ == key && head[i].size == reported(head, key);
            assert(found[i] == head[i]);
        }
        if exists|i: int| 0 <= i < found.len() && (#[trigger] found[i]).object@ == key && found[i].size is Some {
            let i = choose|i: int| 0 <= i < found.len() && (#[trigger] found[i]).object@ == key && found[i].size is Some;
            if i < head.len() {
                assert(head[i].object@ == key);
            }
        }
    }
}

/// A node gets the objects that are placed on it, in their order, and no
/// others.
pub proof fn nodes_get_what_is_placed_there(project: Seq<char>, objects: Seq<Object>, nodes: int, node: int)
    ensures
        owned(project, objects, nodes, node) == objects.filter(
            |object: Object| placement(project, "blob"@, object@.key.id, nodes) == node,
        ),
    decreases objects.len(),
{
    reveal(Seq::filter);
    if objects.len() > 0 {
        nodes_get_what_is_placed_there(project, objects.drop_last(), nodes, node);
    }
}

/// The nodes after a relocation are those that stay, in their order.
pub proof fn retired_nodes_are_left_out(nodes: Seq<Seq<char>>, retiring: Seq<char>, node: Seq<char>)
    ensures
        remaining(nodes, retiring).contains(node) <==> nodes.contains(node) && node != retiring,
    decreases nodes.len(),
{
    reveal(Seq::filter);
    if nodes.len() > 0 {
        let head = nodes.drop_last();
        let earlier = remaining(head, retiring);
        let last = nodes.last();
        retired_nodes_are_left_out(head, retiring, node);
        assert(nodes =~= head.push(last));
        lemma_push_contains(head, last, node);
        lemma_push_contains(earlier, last, node);
    }
}

/// Reading a journal starts at the beginning of every node's, or where each was
/// left. It is refused if and only if there is not one place for each node, or
/// one is negative.
pub proof fn journals_are_read_on(cursors: Seq<i64>, nodes: nat, i: int)
    ensures
        positions(cursors, nodes) is Ok <==> cursors.len() == 0 || cursors.len() == nodes && forall|j: int|
            0 <= j < cursors.len() ==> #[trigger] cursors[j] >= 0,
        positions(cursors, nodes) is Ok ==> positions(cursors, nodes)->Ok_0.len() == nodes,
        positions(cursors, nodes) is Ok && cursors.len() == 0 && 0 <= i < nodes ==> positions(cursors, nodes)->Ok_0[i]
            == 0,
        positions(cursors, nodes) is Ok && cursors.len() > 0 ==> positions(cursors, nodes)->Ok_0 == cursors,
{
}

/// A page of the journal has all rows that were read, or the first 256 where
/// one more was read to see that there is more.
pub proof fn pages_have_at_most_256_entries(rows: int)
    requires
        0 <= rows <= 257,
    ensures
        page_length(rows) == (if rows == 257 {
            256
        } else {
            rows
        }),
{
}

} // verus!
