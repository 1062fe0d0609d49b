//! What saved versions, releases and caches stand for.
use vstd::prelude::*;

use crate::collections::{lemma_ordered, ordered};
use crate::encoding::{all_digits, decimal, decimal_round_trip, decimal_value};
use crate::error::ErrorV;
use crate::graphs::{graph_check, graph_view, roots_of, GraphV};
use crate::history::{
    contents_difference, difference_of, hash_prefix, line_ends, reference_of, shortened, stripped, tells_apart,
    SHORT_HASH,
};
use crate::index::{fingerprint_of, fingerprint_parts, unchanged, CachedFileV, Metadata};
use crate::merge::plain_text;
use crate::objects::snapshot_id;
use crate::paths::{join_then_split, rejoin};
use crate::pins::{named_view, pin_check, pinned_view, views_named, Pin, PinV};
use crate::recovery::{current_id, current_view, restored, CopyV};
use crate::text::{join, lower_hex, white_space};
use crate::transactions::saved_id;
use crate::views::view_snapshot;
use crate::workspace::view_saved;

verus! {

// References to versions

/// A reference is accepted if and only if, without a word for its kind before
/// it, it is 4 to 64 digits of hexadecimal in lower case. It asks for saved
/// views or commits only, where it says so, and for both where it does not.
pub proof fn references_are_beginnings_of_hashes(digits: Seq<char>)
    ensures
        ({
            let accepted = 4 <= digits.len() <= 64 && forall|i: int|
                0 <= i < digits.len() ==> '0' <= #[trigger] digits[i] <= '9' || 'a' <= digits[i] <= 'f';
            let view = reference_of("view:"@ + digits);
            let commit = reference_of("commit:"@ + digits);
            &&& view is Ok <==> accepted
            &&& commit is Ok <==> accepted
            &&& accepted ==> reference_of(digits) is Ok
            &&& view is Ok ==> view->Ok_0.kind == Some("saved-view"@) && view->Ok_0.prefix == digits
            &&& commit is Ok ==> commit->Ok_0.kind == Some("transaction"@) && commit->Ok_0.prefix == digits
            &&& accepted ==> reference_of(digits)->Ok_0.kind is None && reference_of(digits)->Ok_0.prefix == digits
            &&& !accepted && stripped(digits, "view:"@) is None && stripped(digits, "commit:"@) is None ==> reference_of(
                digits,
            ) is Err
        }),
{
    reveal_strlit("view:");
    reveal_strlit("commit:");
    let a = "view:"@ + digits;
    let b = "commit:"@ + digits;
    assert(a.take(5) =~= "view:"@);
    assert(a.skip(5) =~= digits);
    assert(b.take(7) =~= "commit:"@);
    assert(b.skip(7) =~= digits);
    assert(stripped(b, "view:"@) is None) by {
        if stripped(b, "view:"@) is Some {
            assert(b.take(5)[0] == 'c');
            assert("view:"@[0] == 'v');
        }
    }
    assert(hash_prefix(digits) <==> 4 <= digits.len() <= 64 && forall|i: int|
        0 <= i < digits.len() ==> '0' <= #[trigger] digits[i] <= '9' || 'a' <= digits[i] <= 'f') by {
        if hash_prefix(digits) {
            assert forall|i: int| 0 <= i < digits.len() implies '0' <= #[trigger] digits[i] <= '9' || 'a' <= digits[i]
                <= 'f' by {
                assert(lower_hex(digits[i]));
            }
        }
    }
    if hash_prefix(digits) {
        assert(lower_hex(digits[0]));
        assert(stripped(digits, "view:"@) is None) by {
            if stripped(digits, "view:"@) is Some {
                assert(digits.take(5)[0] == digits[0]);
                assert("view:"@[0] == 'v');
            }
        }
        assert(stripped(digits, "commit:"@) is None) by {
            if stripped(digits, "commit:"@) is Some {
                assert(digits.take(7)[1] == digits[1]);
                assert("commit:"@[1] == 'o');
                assert(lower_hex(digits[1]));
            }
        }
    }
}

/// A short hash is as short as it can be: no shorter beginning of at least the
/// same length to start with tells the hash from the others.
pub proof fn short_hashes_are_as_short_as_can_be(hash: Seq<char>, others: Seq<Seq<char>>, length: int, shorter: int)
    requires
        0 <= length <= shorter < shortened(hash, others, length).len(),
    ensures
        exists|i: int|
            0 <= i < others.len() && (#[trigger] others[i]).len() >= shorter && others[i].take(shorter) == hash.take(
                shorter,
            ),
    decreases hash.len() - length,
{
    if length < hash.len() {
        if tells_apart(hash, others, length) {
        } else if length == shorter {
            let i = choose|i: int|
                0 <= i < others.len() && stripped(#[trigger] others[i], hash.take(length)) is Some;
            assert(hash.take(length).len() == length);
            assert(others[i].take(shorter) == hash.take(shorter));
        } else {
            short_hashes_are_as_short_as_can_be(hash, others, length + 1, shorter);
        }
    } else {
        assert(shortened(hash, others, length) == hash);
    }
}

/// A hash is shown by its first 12 digits where they tell it from the others,
/// and by more where they do not.
pub proof fn hashes_are_shown_by_twelve_digits(hash: Seq<char>, others: Seq<Seq<char>>)
    requires
        hash.len() >= 12,
    ensures
        shortened(hash, others, SHORT_HASH as int).len() >= 12,
        shortened(hash, others, SHORT_HASH as int).len() == 12 <==> hash.len() == 12 || forall|i: int|
            0 <= i < others.len() ==> (#[trigger] others[i]).len() < 12 || others[i].take(12) != hash.take(12),
{
    lemma_shortened_length(hash, others, 12);
    if hash.len() > 12 {
        assert(tells_apart(hash, others, 12) <==> forall|i: int|
            0 <= i < others.len() ==> (#[trigger] others[i]).len() < 12 || others[i].take(12) != hash.take(12)) by {
            assert(hash.take(12).len() == 12);
            if tells_apart(hash, others, 12) {
                assert forall|i: int| 0 <= i < others.len() implies (#[trigger] others[i]).len() < 12 || others[i].take(
                    12,
                ) != hash.take(12) by {
                    assert(stripped(others[i], hash.take(12)) is None);
                }
            }
        }
        if !tells_apart(hash, others, 12) {
            lemma_shortened_length(hash, others, 13);
        }
    }
}

proof fn lemma_shortened_length(hash: Seq<char>, others: Seq<Seq<char>>, length: int)
    requires
        0 <= length,
    ensures
        length <= hash.len() ==> shortened(hash, others, length).len() >= length,
        shortened(hash, others, length).len() <= hash.len(),
    decreases hash.len() - length,
{
    if length < hash.len() && !tells_apart(hash, others, length) {
        lemma_shortened_length(hash, others, length + 1);
    }
}

// Showing differences

/// The ends of lines in a text are its line feeds and carriage returns.
pub proof fn line_ends_are_counted(text: Seq<char>)
    ensures
        line_ends(text) == text.filter(|c: char| c == '\n' || c == '\r').len(),
    decreases text.len(),
{
    reveal(Seq::filter);
    if text.len() > 0 {
        line_ends_are_counted(text.drop_last());
    }
}

/// What is shown of a difference ends with what changed in the mode, and only
/// where it changed. The mode has no part in what is shown of the contents.
pub proof fn changed_modes_are_shown(
    path: Seq<char>,
    before: Seq<u8>,
    after: Seq<u8>,
    runs: bool,
    will_run: bool,
)
    ensures
        ({
            let shown = difference_of(path, before, after, runs, will_run);
            let contents = contents_difference(path, before, after);
            &&& shown is Ok <==> contents is Ok
            &&& shown is Ok && runs == will_run ==> shown->Ok_0 == contents->Ok_0
            &&& shown is Ok && runs && !will_run ==> shown->Ok_0 == contents->Ok_0 + ("Executable: "@ + "true"@ + " → "@
                + "false"@ + "\n"@)
            &&& shown is Ok && !runs && will_run ==> shown->Ok_0 == contents->Ok_0 + ("Executable: "@ + "false"@ + " → "@
                + "true"@ + "\n"@)
        }),
{
    if contents_difference(path, before, after) is Ok {
        let text = contents_difference(path, before, after)->Ok_0;
        assert(text + Seq::<char>::empty() =~= text);
    }
}

/// Contents that are text on both sides are compared by lines, unless there
/// are too many. Others are shown by their lengths, and never refused.
pub proof fn only_texts_are_compared(path: Seq<char>, before: Seq<u8>, after: Seq<u8>)
    ensures
        plain_text(before) is Some && plain_text(after) is Some ==> (contents_difference(path, before, after) is Ok
            <==> line_ends(plain_text(before)->0) + line_ends(plain_text(after)->0) + 2 <= 0xffff_ffff),
        plain_text(before) is Some && plain_text(after) is Some && contents_difference(path, before, after) is Ok
            ==> contents_difference(path, before, after)->Ok_0 == crate::history::unified_text(
            plain_text(before)->0,
            plain_text(after)->0,
            "before/"@ + path,
            "after/"@ + path,
        ),
        plain_text(before) is None || plain_text(after) is None ==> contents_difference(path, before, after) == Ok::<
            Seq<char>,
            ErrorV,
        >("Binary contents: "@ + decimal(before.len()) + " → "@ + decimal(after.len()) + " bytes\n"@),
{
}

/// Contents are text if they are UTF-8 without a zero.
pub proof fn texts_have_no_zeros(bytes: Seq<u8>)
    ensures
        plain_text(bytes) is Some <==> vstd::utf8::valid_utf8(bytes) && !vstd::utf8::decode_utf8(bytes).contains('\0'),
        plain_text(bytes) is Some ==> vstd::utf8::encode_utf8(plain_text(bytes)->0) == bytes,
{
    if vstd::utf8::valid_utf8(bytes) {
        vstd::utf8::decode_utf8_encode_utf8(bytes);
    }
}

// Saved views

/// What is saved of a working copy names its files, the roots of its history
/// and its selection. Saved views without a selection have the first format,
/// others the second.
pub proof fn saved_views_name_the_working_copy(paths: Seq<Seq<char>>, snapshot: Seq<char>, roots: Set<Seq<char>>)
    ensures
        ({
            let view = view_saved(paths, snapshot, roots);
            &&& view.snapshot == snapshot && view.roots == roots && view.paths == paths
            &&& paths.len() == 0 ==> view.format == 1
            &&& paths.len() > 0 ==> view.format == 2
        }),
{
}

/// Restoring succeeds if and only if a saved view is asked for that is there,
/// in a known format, of the selection of the working copy, with its snapshot.
/// The answer is the saved view of the working copy as it was, which is there
/// afterwards, as is everything that had been saved.
pub proof fn saved_views_can_be_restored(
    copy: CopyV,
    reference: Seq<char>,
    kind: Seq<char>,
    id: Seq<char>,
    other: Seq<char>,
)
    ensures
        ({
            let result = restored(copy, reference, kind, id).0;
            let after = restored(copy, reference, kind, id).1;
            &&& result is Ok <==> {
                &&& kind == "saved-view"@
                &&& copy.views.contains_key(id)
                &&& copy.views[id].format == 1 || copy.views[id].format == 2
                &&& copy.views[id].paths == copy.state.paths
                &&& copy.snapshots.contains_key(copy.views[id].snapshot)
            }
            &&& result is Ok ==> after.views.contains_key(result->Ok_0) && result->Ok_0 == current_id(copy)
            &&& result is Ok && !copy.views.contains_key(current_id(copy)) ==> after.views[result->Ok_0] == current_view(
                copy,
            )
            &&& copy.views.contains_key(other) ==> after.views.contains_key(other) && after.views[other]
                == copy.views[other]
            &&& copy.snapshots.contains_key(other) ==> after.snapshots.contains_key(other) && after.snapshots[other]
                == copy.snapshots[other]
            &&& result is Ok ==> after.state.tracked_files == copy.snapshots[copy.views[id].snapshot].dom()
            &&& result is Ok ==> after.state.paths == copy.state.paths && after.state.cursors == copy.state.cursors
                && after.state.remote == copy.state.remote && after.state.project == copy.state.project
        }),
{
}

// Releases

/// A release is accepted if and only if it has the known format and a name, and
/// its history is valid, without conflict, and has its roots and its files.
pub proof fn releases_name_committed_files(pin: PinV, graph: GraphV)
    ensures
        pin_check(pin, graph) is Ok <==> {
            &&& pin.format == 1
            &&& exists|i: int| 0 <= i < pin.name.len() && !white_space(#[trigger] pin.name[i])
            &&& graph_check(graph) is Ok
            &&& view_snapshot(graph_view(graph)) is Ok
            &&& snapshot_id(view_snapshot(graph_view(graph))->Ok_0) == pin.snapshot
            &&& roots_of(graph) == pin.roots
        },
{
    assert(!crate::text::blank(pin.name) <==> exists|i: int|
        0 <= i < pin.name.len() && !white_space(#[trigger] pin.name[i]));
}

/// A release is found under the saved view of its files and its roots.
pub proof fn releases_are_saved_views(pin: PinV)
    ensures
        pinned_view(pin) == saved_id(1, pin.snapshot, pin.roots, Seq::empty()),
{
}

proof fn lemma_views_named_finite(pins: Seq<Pin>, name: Seq<char>)
    ensures
        views_named(pins, name).finite(),
{
    let all = pins.map_values(|pin: Pin| pinned_view(pin@)).to_set();
    vstd::seq_lib::seq_to_set_is_finite(pins.map_values(|pin: Pin| pinned_view(pin@)));
    assert(views_named(pins, name).subset_of(all)) by {
        assert forall|view: Seq<char>| views_named(pins, name).contains(view) implies all.contains(view) by {
            let i = choose|i: int|
                0 <= i < pins.len() && (#[trigger] pins[i])@.name == name && pinned_view(pins[i]@) == view;
            assert(pins.map_values(|pin: Pin| pinned_view(pin@))[i] == view);
        }
    }
    vstd::set_lib::lemma_set_subset_finite(all, views_named(pins, name));
}

/// A name stands for a view if a release of that name has it and none has
/// another. It stands for nothing if no release has it, and two releases of one
/// name with different views make it ambiguous.
pub proof fn names_stand_for_one_view(pins: Seq<Pin>, name: Seq<char>, i: int, j: int)
    requires
        0 <= i < pins.len(),
        0 <= j < pins.len(),
    ensures
        named_view(pins, name) == Ok::<Option<Seq<char>>, ErrorV>(None) <==> forall|k: int|
            0 <= k < pins.len() ==> (#[trigger] pins[k])@.name != name,
        pins[i]@.name == name && named_view(pins, name) is Ok ==> named_view(pins, name)->Ok_0 == Some(
            pinned_view(pins[i]@),
        ),
        pins[i]@.name == name && pins[j]@.name == name && pinned_view(pins[i]@) != pinned_view(pins[j]@) ==> named_view(
            pins,
            name,
        ) is Err,
        pins[i]@.name == name && (forall|k: int|
            0 <= k < pins.len() && (#[trigger] pins[k])@.name == name ==> pinned_view(pins[k]@) == pinned_view(pins[i]@))
            ==> named_view(pins, name) is Ok,
{
    let views = views_named(pins, name);
    let list = ordered(views);
    lemma_views_named_finite(pins, name);
    lemma_ordered(views);
    assert forall|k: int| 0 <= k < pins.len() && (#[trigger] pins[k])@.name == name implies list.contains(
        pinned_view(pins[k]@),
    ) by {
        assert(views.contains(pinned_view(pins[k]@)));
    }
    if list.len() > 0 {
        assert(list.contains(list[0]));
        assert(views.contains(list[0]));
    }
    if list.len() > 1 {
        assert(list.contains(list[1]));
        assert(views.contains(list[1]));
        assert(crate::text::before(list[0], list[1]));
        crate::text::lemma_before_irreflexive(list[0]);
    }
}

// Files that did not change

proof fn lemma_join_colons(list: Seq<Seq<char>>)
    ensures
        join(list, seq![':']) == rejoin(list, ':'),
    decreases list.len(),
{
    if list.len() > 1 {
        lemma_join_colons(list.drop_last());
        assert(rejoin(list.drop_last(), ':').push(':') =~= rejoin(list.drop_last(), ':') + seq![':']);
    }
}

proof fn lemma_numbers_told_apart(a: Seq<nat>, b: Seq<nat>)
    requires
        a.len() == b.len(),
        a.len() > 0,
        join(a.map_values(|n: nat| decimal(n)), seq![':']) == join(b.map_values(|n: nat| decimal(n)), seq![':']),
    ensures
        a == b,
{
    let x = a.map_values(|n: nat| decimal(n));
    let y = b.map_values(|n: nat| decimal(n));
    assert forall|n: nat, j: int| 0 <= j < decimal(n).len() implies #[trigger] decimal(n)[j] != ':' by {
        decimal_round_trip(n);
        assert(all_digits(decimal(n)));
        assert(crate::text::digit(decimal(n)[j]));
    }
    lemma_join_colons(x);
    lemma_join_colons(y);
    join_then_split(x, ':');
    join_then_split(y, ':');
    assert(x == y);
    assert forall|i: int| 0 <= i < a.len() implies a[i] == b[i] by {
        decimal_round_trip(a[i]);
        decimal_round_trip(b[i]);
        assert(x[i] == y[i]);
        assert(decimal_value(decimal(a[i])) == decimal_value(decimal(b[i])));
    }
    assert(a =~= b);
}

/// The numbers in a fingerprint.
spec fn fingerprint_numbers(metadata: Metadata) -> Seq<nat> {
    seq![
        metadata.device as nat,
        metadata.inode as nat,
        metadata.size as nat,
        metadata.mode as nat,
        (metadata.modified * 1_000_000_000 + metadata.modified_nanoseconds) as nat,
        (metadata.changed * 1_000_000_000 + metadata.changed_nanoseconds) as nat,
    ]
}

/// Two files have one fingerprint only if they are the same in every respect
/// that counts: device, number, size, mode, and the times of the last change of
/// their content and of their metadata. A fingerprint comes with the later of
/// the two times. There is none where a time lies before the epoch.
pub proof fn fingerprints_tell_files_apart(a: Metadata, b: Metadata)
    requires
        fingerprint_of(a) is Some,
        fingerprint_of(b) is Some,
        (fingerprint_of(a)->0).0 == (fingerprint_of(b)->0).0,
    ensures
        a.device == b.device,
        a.inode == b.inode,
        a.size == b.size,
        a.mode == b.mode,
        a.modified * 1_000_000_000 + a.modified_nanoseconds == b.modified * 1_000_000_000 + b.modified_nanoseconds,
        a.changed * 1_000_000_000 + a.changed_nanoseconds == b.changed * 1_000_000_000 + b.changed_nanoseconds,
{
    let x = fingerprint_numbers(a);
    let y = fingerprint_numbers(b);
    reveal_strlit(":");
    assert(":"@ =~= seq![':']);
    assert(fingerprint_parts(a) =~= x.map_values(|n: nat| decimal(n)));
    assert(fingerprint_parts(b) =~= y.map_values(|n: nat| decimal(n)));
    lemma_numbers_told_apart(x, y);
    assert(x[0] == y[0] && x[1] == y[1] && x[2] == y[2] && x[3] == y[3] && x[4] == y[4] && x[5] == y[5]);
}

/// A fingerprint comes with the later of the times of the last change of the
/// content and of the metadata. There is none where a time lies before the
/// epoch.
pub proof fn fingerprints_come_with_the_last_change(metadata: Metadata)
    ensures
        fingerprint_of(metadata) is Some <==> metadata.modified >= 0 && metadata.modified_nanoseconds >= 0
            && metadata.changed >= 0 && metadata.changed_nanoseconds >= 0,
        fingerprint_of(metadata) is Some ==> {
            let last = (fingerprint_of(metadata)->0).1;
            let modified = metadata.modified * 1_000_000_000 + metadata.modified_nanoseconds;
            let changed = metadata.changed * 1_000_000_000 + metadata.changed_nanoseconds;
            last >= modified && last >= changed && (last == modified || last == changed)
        },
{
}

/// A file counts as unchanged if and only if its fingerprint is the one that is
/// remembered and it was last changed before that was taken. A change at that
/// very time, which could have come after, does not go unseen.
pub proof fn files_changed_since_are_read_again(cached: CachedFileV, fingerprint: Seq<char>, changed_at: int)
    ensures
        unchanged(cached, fingerprint, changed_at) ==> fingerprint == cached.fingerprint,
        changed_at >= cached.captured_at ==> !unchanged(cached, fingerprint, changed_at),
        fingerprint == cached.fingerprint && changed_at < cached.captured_at ==> unchanged(
            cached,
            fingerprint,
            changed_at,
        ),
{
}

} // verus!
