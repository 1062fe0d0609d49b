//! What is accepted as history, and what a commit writes.
use vstd::prelude::*;
use vstd::utf8::*;

use crate::collections::{keys_of, lemma_ordered, ordered};
use crate::error::lemma_first_problem;
use crate::objects::{
    accepted_snapshots_are_valid, entry_check, snapshot_check, valid_hash, valid_name, EntryKind, FileEntryV,
};
use crate::paths::{accepted_paths_are_valid, below, path_check};
use crate::text::{blank, white_space};
use crate::transactions::{edit_check, header_check, transaction_check, EditV, TransactionV};
use crate::views::{
    conflicted, conflicts_of, disputed, edits_between, extended, file_at, heads_of, live, live_at, recorded, recording,
    ViewV,
};

verus! {

// Entries and transactions

/// An identity is accepted if it is 64 digits of hexadecimal in lower case.
pub proof fn hashes_are_hexadecimal(id: Seq<char>)
    ensures
        valid_hash(id) <==> id.len() == 64 && forall|i: int|
            0 <= i < id.len() ==> '0' <= #[trigger] id[i] <= '9' || 'a' <= id[i] <= 'f',
{
    if id.len() == 64 && forall|i: int| 0 <= i < id.len() ==> '0' <= #[trigger] id[i] <= '9' || 'a' <= id[i] <= 'f' {
        assert forall|i: int| 0 <= i < id.len() implies crate::text::lower_hex(#[trigger] id[i]) by {}
    }
    if valid_hash(id) {
        assert forall|i: int| 0 <= i < id.len() implies '0' <= #[trigger] id[i] <= '9' || 'a' <= id[i] <= 'f' by {
            assert(crate::text::lower_hex(id[i]));
        }
    }
}

/// A name is accepted if it is 1 to 128 letters, digits, hyphens and
/// underscores.
pub proof fn names_are_plain(name: Seq<char>)
    ensures
        valid_name(name) <==> 1 <= name.len() <= 128 && forall|i: int|
            0 <= i < name.len() ==> '0' <= #[trigger] name[i] <= '9' || 'a' <= name[i] <= 'z' || 'A' <= name[i] <= 'Z'
                || name[i] == '-' || name[i] == '_',
{
    if valid_name(name) {
        assert forall|i: int| 0 <= i < name.len() implies '0' <= #[trigger] name[i] <= '9' || 'a' <= name[i] <= 'z'
            || 'A' <= name[i] <= 'Z' || name[i] == '-' || name[i] == '_' by {
            assert(crate::text::name_char(name[i]));
        }
    }
    if 1 <= name.len() <= 128 && forall|i: int|
        0 <= i < name.len() ==> '0' <= #[trigger] name[i] <= '9' || 'a' <= name[i] <= 'z' || 'A' <= name[i] <= 'Z'
            || name[i] == '-' || name[i] == '_' {
        assert forall|i: int| 0 <= i < name.len() implies crate::text::name_char(#[trigger] name[i]) by {}
    }
}

/// An entry is accepted by its hash, its size and its kind: only a tree of
/// chunks is longer than 16 MiB, and a symbolic link is not executable. Any
/// other file may be.
pub proof fn entries_are_accepted_by_their_parts(entry: FileEntryV)
    ensures
        entry_check(entry) is Ok <==> {
            &&& valid_hash(entry.blob)
            &&& entry.kind == EntryKind::Chunked || entry.size <= 16_777_216
            &&& entry.executable ==> entry.kind == EntryKind::Regular || entry.kind == EntryKind::Chunked
        },
{
}

/// The new value of a file is one that the format of its transaction knows.
pub open spec fn writable(format: u32, entry: FileEntryV) -> bool {
    entry_check(entry) is Ok && (format == 1 ==> entry.kind == EntryKind::Regular)
}

proof fn lemma_edit_accepted(format: u32, path: Seq<char>, edit: EditV)
    requires
        format == 1 || format == 2,
        edit.parents.finite(),
    ensures
        edit_check(format, path, edit) is Ok <==> {
            &&& path_check(path) is Ok
            &&& forall|id: Seq<char>| #[trigger] edit.parents.contains(id) ==> valid_hash(id)
            &&& edit.value matches Some(entry) ==> writable(format, entry)
        },
{
    let list = ordered(edit.parents);
    let check = |id: Seq<char>| crate::objects::hash_check(id);
    lemma_ordered(edit.parents);
    lemma_first_problem(list, check);
    if forall|id: Seq<char>| #[trigger] edit.parents.contains(id) ==> valid_hash(id) {
        assert forall|i: int| 0 <= i < list.len() implies check(#[trigger] list[i]) is Ok by {
            assert(list.contains(list[i]));
            assert(edit.parents.contains(list[i]));
        }
    }
    if crate::error::first_problem(list, check) is Ok {
        assert forall|id: Seq<char>| #[trigger] edit.parents.contains(id) implies valid_hash(id) by {
            assert(list.contains(id));
            let i = choose|i: int| 0 <= i < list.len() && list[i] == id;
            assert(check(list[i]) is Ok);
        }
    }
}

/// A transaction is accepted if and only if its format is known, its nonce is
/// a name, its message says something in at most 16384 bytes, the place that
/// it came from is a valid entry of the second format, every path is valid,
/// every parent is a hash, and every new value is a valid entry, regular
/// unless the format is the second. Nothing else decides: not whether a file
/// is executable, nor whether it is written or deleted.
pub proof fn transactions_are_accepted_by_their_parts(transaction: TransactionV)
    requires
        transaction.edits.dom().finite(),
        forall|path: Seq<char>| #[trigger]
            transaction.edits.contains_key(path) ==> transaction.edits[path].parents.finite(),
    ensures
        transaction_check(transaction) is Ok <==> {
            &&& transaction.format == 1 || transaction.format == 2
            &&& valid_name(transaction.nonce)
            &&& exists|i: int| 0 <= i < transaction.message.len() && !white_space(#[trigger] transaction.message[i])
            &&& encode_utf8(transaction.message).len() <= 16384
            &&& transaction.provenance matches Some(entry) ==> transaction.format == 2 && entry_check(entry) is Ok
            &&& forall|path: Seq<char>| #[trigger]
                transaction.edits.contains_key(path) ==> {
                    &&& path_check(path) is Ok
                    &&& forall|id: Seq<char>| #[trigger] transaction.edits[path].parents.contains(id) ==> valid_hash(id)
                    &&& transaction.edits[path].value matches Some(entry) ==> {
                        &&& entry_check(entry) is Ok
                        &&& transaction.format == 1 ==> entry.kind == EntryKind::Regular
                    }
                }
        },
{
    let keys = keys_of(transaction.edits);
    let check = |path: Seq<char>| edit_check(transaction.format, path, transaction.edits[path]);
    lemma_ordered(transaction.edits.dom());
    lemma_first_problem(keys, check);
    assert(!blank(transaction.message) <==> exists|i: int|
        0 <= i < transaction.message.len() && !white_space(#[trigger] transaction.message[i]));
    if header_check(transaction) is Ok {
        assert forall|path: Seq<char>| #[trigger] transaction.edits.contains_key(path) implies (check(path) is Ok <==> {
            &&& path_check(path) is Ok
            &&& forall|id: Seq<char>| #[trigger] transaction.edits[path].parents.contains(id) ==> valid_hash(id)
            &&& transaction.edits[path].value matches Some(entry) ==> writable(transaction.format, entry)
        }) by {
            lemma_edit_accepted(transaction.format, path, transaction.edits[path]);
        }
        if transaction_check(transaction) is Ok {
            assert forall|path: Seq<char>| #[trigger] transaction.edits.contains_key(path) implies check(path) is Ok by {
                assert(transaction.edits.dom().contains(path));
                let i = choose|i: int| 0 <= i < keys.len() && keys[i] == path;
                assert(check(keys[i]) is Ok);
            }
        } else {
            let i = choose|i: int| 0 <= i < keys.len() && check(#[trigger] keys[i]) is Err;
            assert(keys.contains(keys[i]));
            assert(transaction.edits.dom().contains(keys[i]));
            assert(transaction.edits.contains_key(keys[i]));
        }
    }
}

// Committing

/// Any valid files can be committed on any view, with a valid nonce and a
/// message that says something in at most 16384 bytes.
pub proof fn valid_files_can_be_committed(
    view: ViewV,
    files: Map<Seq<char>, FileEntryV>,
    message: Seq<char>,
    nonce: Seq<char>,
)
    requires
        files.dom().finite(),
        view.dom().finite(),
        snapshot_check(files) is Ok,
        valid_name(nonce),
        exists|i: int| 0 <= i < message.len() && !white_space(#[trigger] message[i]),
        encode_utf8(message).len() <= 16384,
        forall|path: Seq<char>| #[trigger] view.contains_key(path) ==> path_check(path) is Ok && view[path].dom().finite(),
        forall|path: Seq<char>, id: Seq<char>|
            view.contains_key(path) && #[trigger] view[path].contains_key(id) ==> valid_hash(id),
    ensures
        recorded(view, files, message, nonce) is Ok,
        ({
            let transaction = recorded(view, files, message, nonce)->Ok_0;
            &&& transaction.message == message
            &&& transaction.nonce == nonce
            &&& transaction.provenance is None
            &&& transaction.format == 1 || transaction.format == 2
            &&& transaction.format == 2 <==> exists|path: Seq<char>| #[trigger]
                transaction.edits.contains_key(path) && files.contains_key(path) && files[path].kind
                    != EntryKind::Regular
        }),
{
    let transaction = recording(view, files, message, nonce);
    let edits = edits_between(view, files);
    accepted_snapshots_are_valid(files);
    assert(edits.dom().subset_of(view.dom().union(files.dom())));
    vstd::set_lib::lemma_set_subset_finite(view.dom().union(files.dom()), edits.dom());
    assert forall|path: Seq<char>| #[trigger] edits.contains_key(path) implies edits[path].parents.finite() && path_check(
        path,
    ) is Ok && (edits[path].value matches Some(entry) ==> writable(transaction.format, entry)) && forall|id: Seq<char>|
     #[trigger] edits[path].parents.contains(id) ==> valid_hash(id) by {
        accepted_paths_are_valid(path);
        assert forall|id: Seq<char>| #[trigger] edits[path].parents.contains(id) implies valid_hash(id) by {
            assert(view[path].contains_key(id));
        }
        if transaction.format == 1 && edits[path].value is Some {
            assert(!extended(edits[path]));
        }
    }
    transactions_are_accepted_by_their_parts(transaction);
    if transaction.format == 2 {
        let path = choose|path: Seq<char>| #[trigger] edits.contains_key(path) && extended(edits[path]);
        assert(transaction.edits.contains_key(path) && files.contains_key(path));
    }
    if exists|path: Seq<char>| #[trigger]
        transaction.edits.contains_key(path) && files.contains_key(path) && files[path].kind != EntryKind::Regular {
        let path = choose|path: Seq<char>| #[trigger]
            transaction.edits.contains_key(path) && files.contains_key(path) && files[path].kind != EntryKind::Regular;
        assert(edits.contains_key(path) && extended(edits[path]));
    }
}

/// What a commit leaves out is in the view already: every version there has
/// the file as it is, or lacks it as the files do. What it writes is the file
/// as it is, or its deletion, in place of every version in the view.
pub proof fn commits_write_what_differs(
    view: ViewV,
    files: Map<Seq<char>, FileEntryV>,
    message: Seq<char>,
    nonce: Seq<char>,
    path: Seq<char>,
)
    requires
        recorded(view, files, message, nonce) is Ok,
        view.contains_key(path) ==> view[path].dom().finite(),
    ensures
        ({
            let edits = recorded(view, files, message, nonce)->Ok_0.edits;
            &&& edits.contains_key(path) ==> {
                &&& files.contains_key(path) ==> edits[path].value == Some(files[path])
                &&& !files.contains_key(path) ==> edits[path].value is None && view.contains_key(path)
                &&& forall|id: Seq<char>| #[trigger]
                    edits[path].parents.contains(id) <==> view.contains_key(path) && view[path].contains_key(id)
            }
            &&& !edits.contains_key(path) ==> {
                &&& files.contains_key(path) ==> view.contains_key(path) && exists|id: Seq<char>| #[trigger]
                    view[path].contains_key(id)
                &&& forall|id: Seq<char>|
                    view.contains_key(path) && #[trigger] view[path].contains_key(id) ==> view[path][id] == (
                    if files.contains_key(path) {
                        Some(files[path])
                    } else {
                        None
                    })
            }
        }),
{
    let edits = edits_between(view, files);
    if !edits.contains_key(path) && view.contains_key(path) {
        let heads = view[path];
        let keys = keys_of(heads);
        lemma_ordered(heads.dom());
        assert(!disputed(heads));
        assert forall|id: Seq<char>| #[trigger] heads.contains_key(id) implies heads[id] == file_at(files, path) by {
            assert(heads.dom().contains(id));
            assert(keys.contains(id));
            assert(keys.contains(keys[0]));
            assert(heads.dom().contains(keys[0]));
            assert(heads.contains_key(keys[0]) && heads.contains_key(id));
        }
        if files.contains_key(path) {
            assert(heads.dom() != Set::<Seq<char>>::empty());
            assert(exists|id: Seq<char>| #[trigger] heads.contains_key(id)) by {
                if forall|id: Seq<char>| !#[trigger] heads.contains_key(id) {
                    assert(heads.dom() =~= Set::<Seq<char>>::empty());
                }
            }
        }
    }
    if !edits.contains_key(path) && !view.contains_key(path) && files.contains_key(path) {
        assert(heads_of(view, path).dom() =~= Set::<Seq<char>>::empty());
    }
}

/// A file that every version in the view has as it is, with nothing above or
/// below it that has content, is not written again.
pub proof fn settled_files_are_not_committed(
    view: ViewV,
    files: Map<Seq<char>, FileEntryV>,
    path: Seq<char>,
    id: Seq<char>,
)
    requires
        view.contains_key(path),
        view[path].dom().finite(),
        view[path].contains_key(id),
        forall|a: Seq<char>| #[trigger]
            view[path].contains_key(a) ==> view[path][a] == (if files.contains_key(path) {
                Some(files[path])
            } else {
                None
            }),
        forall|other: Seq<char>, a: Seq<char>|
            view.contains_key(other) && #[trigger] view[other].contains_key(a) && view[other][a] is Some ==> !below(
                path,
                other,
            ) && !below(other, path),
    ensures
        !edits_between(view, files).contains_key(path),
{
    let heads = view[path];
    let keys = keys_of(heads);
    lemma_ordered(heads.dom());
    assert(heads.dom().contains(id));
    assert(keys.contains(id));
    assert(keys.contains(keys[0]));
    assert(heads.dom().contains(keys[0]));
    assert(heads.contains_key(keys[0]));
    assert(!conflicted(view, path)) by {
        if conflicted(view, path) && !disputed(heads) {
            let other = choose|other: Seq<char>| #[trigger]
                live_at(view, other) && (below(path, other) || below(other, path));
            let a = choose|a: Seq<char>| #[trigger] view[other].contains_key(a) && view[other][a] is Some;
            assert(view[other].contains_key(a));
        }
    }
}

// Conflicts

/// A file needs a decision if and only if two of its versions differ, or it
/// has content while a file above or below it has content too.
pub proof fn conflicts_are_differences_and_collisions(view: ViewV, path: Seq<char>)
    ensures
        conflicts_of(view).contains(path) <==> view.contains_key(path) && {
            ||| exists|a: Seq<char>, b: Seq<char>|
                #![trigger view[path].contains_key(a), view[path].contains_key(b)]
                view[path].contains_key(a) && view[path].contains_key(b) && view[path][a] != view[path][b]
            ||| exists|a: Seq<char>, other: Seq<char>, b: Seq<char>|
                #![trigger view[path].contains_key(a), view[other].contains_key(b)]
                view[path].contains_key(a) && view[path][a] is Some && view.contains_key(other)
                    && view[other].contains_key(b) && view[other][b] is Some && (below(path, other) || below(
                    other,
                    path,
                ))
        },
{
    if view.contains_key(path) {
        if conflicted(view, path) && !disputed(view[path]) {
            let other = choose|other: Seq<char>| #[trigger]
                live_at(view, other) && (below(path, other) || below(other, path));
            let a = choose|a: Seq<char>| #[trigger] view[path].contains_key(a) && view[path][a] is Some;
            let b = choose|b: Seq<char>| #[trigger] view[other].contains_key(b) && view[other][b] is Some;
            assert(view[path].contains_key(a) && view[other].contains_key(b));
        }
        if exists|a: Seq<char>, other: Seq<char>, b: Seq<char>|
            #![trigger view[path].contains_key(a), view[other].contains_key(b)]
            view[path].contains_key(a) && view[path][a] is Some && view.contains_key(other) && view[other].contains_key(
                b,
            ) && view[other][b] is Some && (below(path, other) || below(other, path)) {
            let (a, other, b) = choose|a: Seq<char>, other: Seq<char>, b: Seq<char>|
                #![trigger view[path].contains_key(a), view[other].contains_key(b)]
                view[path].contains_key(a) && view[path][a] is Some && view.contains_key(other)
                    && view[other].contains_key(b) && view[other][b] is Some && (below(path, other) || below(
                    other,
                    path,
                ));
            assert(live(view[path]));
            assert(live_at(view, other));
        }
    }
}

/// Whatever is committed is a valid transaction of valid files.
pub proof fn what_is_committed_is_valid(
    view: ViewV,
    files: Map<Seq<char>, FileEntryV>,
    message: Seq<char>,
    nonce: Seq<char>,
)
    requires
        recorded(view, files, message, nonce) is Ok,
    ensures
        snapshot_check(files) is Ok,
        transaction_check(recorded(view, files, message, nonce)->Ok_0) is Ok,
{
}

} // verus!
