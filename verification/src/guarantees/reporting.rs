//! What is told of a working copy, of problems, and of where things are.
use vstd::prelude::*;
use vstd::utf8::*;

use crate::collections::{keys_of, lemma_ordered};
use crate::commands::{change_lines, diff_words, status_words, uncommitted_lines, version_words};
use crate::delta::{decoded, decoded_from};
use crate::encoding::decimal;
use crate::error::{first_problem, ErrorV};
use crate::guarantees::pulling::{has, versioned};
use crate::merge::{contested, merged_contents, plain_text};
use crate::objects::{snapshot_check, FileEntryV};
use crate::paths::{same_ignoring_case, shown};
use crate::portable::device;
use crate::remote::{http_address, location_parts, path_fits, prefix_of, UrlPartsV};
use crate::replication::ring;
use crate::selection::normal;
use crate::server::asked;
use crate::views::{conflicts_of, current, disputed, settled, view_snapshot, ViewV};
use crate::workspace::{state_check, FileChange, FileDiff, WorkspaceStateV};

verus! {

// Texts

/// A text has another in it.
#[verifier::opaque]
pub open spec fn mentions(text: Seq<char>, part: Seq<char>) -> bool {
    exists|head: Seq<char>, tail: Seq<char>| text == #[trigger] (head + part + tail)
}

proof fn lemma_mentions(head: Seq<char>, part: Seq<char>, tail: Seq<char>)
    ensures
        mentions(head + part + tail, part),
{
    reveal(mentions);
}

proof fn lemma_whole(text: Seq<char>)
    ensures
        mentions(text, text),
{
    let none = Seq::<char>::empty();
    lemma_mentions(none, text, none);
    assert(none + text + none =~= text);
}

proof fn lemma_at_the_end(head: Seq<char>, part: Seq<char>)
    ensures
        mentions(head + part, part),
{
    let none = Seq::<char>::empty();
    lemma_mentions(head, part, none);
    assert(head + part + none =~= head + part);
}

proof fn lemma_carried(text: Seq<char>, tail: Seq<char>, part: Seq<char>)
    requires
        mentions(text, part),
    ensures
        mentions(text + tail, part),
{
    let none = Seq::<char>::empty();
    lemma_mentions_more(text, part, none, tail);
    assert(none + text + tail =~= text + tail);
}

proof fn lemma_led(head: Seq<char>, text: Seq<char>, part: Seq<char>)
    requires
        mentions(text, part),
    ensures
        mentions(head + text, part),
{
    let none = Seq::<char>::empty();
    lemma_mentions_more(text, part, head, none);
    assert(head + text + none =~= head + text);
}

proof fn lemma_mentions_more(text: Seq<char>, part: Seq<char>, head: Seq<char>, tail: Seq<char>)
    requires
        mentions(text, part),
    ensures
        mentions(head + text + tail, part),
{
    reveal(mentions);
    let (a, b) = choose|a: Seq<char>, b: Seq<char>| text == #[trigger] (a + part + b);
    assert(head + text + tail =~= (head + a) + part + (b + tail));
}

proof fn lemma_uncommitted(paths: Seq<Seq<char>>, i: int)
    requires
        0 <= i < paths.len(),
    ensures
        mentions(uncommitted_lines(paths), "  uncommitted  "@ + shown(paths[i]) + "\n"@),
    decreases paths.len(),
{
    let line = "  uncommitted  "@ + shown(paths[i]) + "\n"@;
    let earlier = uncommitted_lines(paths.drop_last());
    if i == paths.len() - 1 {
        lemma_at_the_end(earlier, line);
        assert(uncommitted_lines(paths) =~= earlier + line);
    } else {
        lemma_uncommitted(paths.drop_last(), i);
        let last = "  uncommitted  "@ + shown(paths.last()) + "\n"@;
        lemma_mentions_more(earlier, line, Seq::empty(), last);
        assert(uncommitted_lines(paths) =~= Seq::<char>::empty() + earlier + last);
    }
}

/// The status names the project, where its remote is, every file with edits
/// that are not committed, how many commits wait to be pushed, and every file
/// to decide about.
pub proof fn the_status_tells_what_is_to_be_done(
    project: Seq<char>,
    remote: Option<Seq<char>>,
    paths: Seq<Seq<char>>,
    version: Option<Seq<char>>,
    pending: nat,
    changed: Seq<Seq<char>>,
    conflicts: Seq<Seq<char>>,
    i: int,
)
    ensures
        ({
            let text = status_words(project, remote, paths, version, pending, changed, conflicts);
            &&& mentions(text, "Project: "@ + project + "\nRemote: "@)
            &&& remote is Some ==> mentions(text, "\nRemote: "@ + remote->0 + "\n"@)
            &&& remote is None ==> mentions(text, "\nRemote: "@ + "local only"@ + "\n"@)
            &&& 0 <= i < changed.len() ==> mentions(text, "  uncommitted  "@ + shown(changed[i]) + "\n"@)
            &&& changed.len() == 0 ==> mentions(text, "No uncommitted edits.\n"@)
            &&& pending > 0 ==> mentions(text, decimal(pending) + " committed version(s) ready to push.\n"@)
            &&& version is Some ==> mentions(text, "Last saved view: "@ + version->0 + "\n"@)
            &&& version is None ==> mentions(text, "No saved versions yet.\n"@)
            &&& conflicts.len() > 0 ==> mentions(
                text,
                "Commit a resolution for: "@ + crate::text::join(conflicts, ", "@) + "\n"@,
            )
            &&& paths.len() > 0 ==> mentions(text, "Selected paths: "@ + crate::text::join(paths, ", "@) + "\n"@)
        }),
{
    let none = Seq::<char>::empty();
    let a = "Project: "@ + project + "\nRemote: "@;
    let b = match remote {
        Some(remote) => remote,
        None => "local only"@,
    };
    let c = if paths.len() > 0 {
        "Selected paths: "@ + crate::text::join(paths, ", "@) + "\n"@
    } else {
        none
    };
    let d = match version {
        Some(version) => "Last saved view: "@ + version + "\n"@,
        None => "No saved versions yet.\n"@,
    };
    let e = if pending != 0 {
        decimal(pending) + " committed version(s) ready to push.\n"@
    } else {
        none
    };
    let f = uncommitted_lines(changed);
    let g = if changed.len() == 0 {
        "No uncommitted edits.\n"@
    } else {
        none
    };
    let h = if conflicts.len() > 0 {
        "Commit a resolution for: "@ + crate::text::join(conflicts, ", "@) + "\n"@
    } else {
        none
    };
    let nl = "\n"@;
    let row = "  uncommitted  "@ + shown(changed[i]) + "\n"@;
    let place = "\nRemote: "@ + b + "\n"@;
    let t1 = a + b;
    let t2 = t1 + nl;
    let t3 = t2 + c;
    let t4 = t3 + d;
    let t5 = t4 + e;
    let t6 = t5 + f;
    let t7 = t6 + g;
    let t8 = t7 + h;
    assert(status_words(project, remote, paths, version, pending, changed, conflicts) == t8);
    lemma_whole(a);
    lemma_carried(a, b, a);
    lemma_carried(t1, nl, a);
    lemma_remote_part(project, b);
    assert(t2 == "Project: "@ + project + "\nRemote: "@ + b + "\n"@);
    lemma_at_the_end(t2, c);
    lemma_carried(t2, c, a);
    lemma_carried(t2, c, place);
    lemma_at_the_end(t3, d);
    lemma_carried(t3, d, a);
    lemma_carried(t3, d, place);
    lemma_carried(t3, d, c);
    lemma_at_the_end(t4, e);
    lemma_carried(t4, e, a);
    lemma_carried(t4, e, place);
    lemma_carried(t4, e, c);
    lemma_carried(t4, e, d);
    lemma_at_the_end(t5, f);
    lemma_carried(t5, f, a);
    lemma_carried(t5, f, place);
    lemma_carried(t5, f, c);
    lemma_carried(t5, f, d);
    lemma_carried(t5, f, e);
    if 0 <= i < changed.len() {
        lemma_uncommitted(changed, i);
        lemma_led(t5, f, row);
        lemma_carried(t6, g, row);
        lemma_carried(t7, h, row);
    }
    lemma_at_the_end(t6, g);
    lemma_carried(t6, g, a);
    lemma_carried(t6, g, place);
    lemma_carried(t6, g, c);
    lemma_carried(t6, g, d);
    lemma_carried(t6, g, e);
    lemma_at_the_end(t7, h);
    lemma_carried(t7, h, a);
    lemma_carried(t7, h, place);
    lemma_carried(t7, h, c);
    lemma_carried(t7, h, d);
    lemma_carried(t7, h, e);
    lemma_carried(t7, h, g);
}

proof fn lemma_remote_part(project: Seq<char>, remote: Seq<char>)
    ensures
        mentions("Project: "@ + project + "\nRemote: "@ + remote + "\n"@, "\nRemote: "@ + remote + "\n"@),
{
    let head = "Project: "@ + project;
    let part = "\nRemote: "@ + remote + "\n"@;
    lemma_at_the_end(head, part);
    assert(head + "\nRemote: "@ + remote + "\n"@ =~= head + part);
}

proof fn lemma_change_lines(files: Seq<FileChange>, i: int)
    requires
        0 <= i < files.len(),
    ensures
        mentions(change_lines(files), "   "@ + files[i].kind@ + " "@ + shown(files[i].path@) + "\n"@),
    decreases files.len(),
{
    let line = "   "@ + files[i].kind@ + " "@ + shown(files[i].path@) + "\n"@;
    let earlier = change_lines(files.drop_last());
    let last = "   "@ + files.last().kind@ + " "@ + shown(files.last().path@) + "\n"@;
    if i == files.len() - 1 {
        lemma_at_the_end(earlier, line);
        assert(change_lines(files) =~= earlier + line);
    } else {
        lemma_change_lines(files.drop_last(), i);
        lemma_mentions_more(earlier, line, Seq::empty(), last);
        assert(change_lines(files) =~= Seq::<char>::empty() + earlier + last);
    }
}

/// A version is told with its hash, its message, and what happened to its
/// first five files. Where there are more, it says how many more.
pub proof fn versions_are_told_by_their_changes(
    hash: Seq<char>,
    message: Seq<char>,
    files: Seq<FileChange>,
    i: int,
)
    requires
        0 <= i < files.len(),
    ensures
        ({
            let text = version_words(hash, Some(message), files);
            let line = "   "@ + files[i].kind@ + " "@ + shown(files[i].path@) + "\n"@;
            &&& text.take(hash.len() as int) == hash
            &&& mentions(text, message)
            &&& i < 5 || files.len() <= 5 ==> mentions(text, line)
            &&& files.len() > 5 ==> mentions(
                text,
                "   + "@ + decimal((files.len() - 5) as nat) + " more; kelp show "@ + hash + "\n"@,
            )
        }),
{
    let text = version_words(hash, Some(message), files);
    let head = hash + "  "@ + message + "\n"@;
    let line = "   "@ + files[i].kind@ + " "@ + shown(files[i].path@) + "\n"@;
    let none = Seq::<char>::empty();
    if files.len() > 5 {
        let first = files.take(5);
        let tail = "   + "@ + decimal((files.len() - 5) as nat) + " more; kelp show "@ + hash + "\n"@;
        assert(text =~= head + change_lines(first) + tail);
        assert(text =~= (head + change_lines(first)) + tail + none);
        lemma_mentions(head + change_lines(first), tail, none);
        if i < 5 {
            lemma_change_lines(first, i);
            lemma_mentions_more(change_lines(first), line, head, tail);
        }
        assert(text =~= (hash + "  "@) + message + ("\n"@ + change_lines(first) + tail));
        lemma_mentions(hash + "  "@, message, "\n"@ + change_lines(first) + tail);
    } else {
        lemma_change_lines(files, i);
        assert(text =~= head + change_lines(files) + none);
        lemma_mentions_more(change_lines(files), line, head, none);
        assert(text =~= (hash + "  "@) + message + ("\n"@ + change_lines(files)));
        lemma_mentions(hash + "  "@, message, "\n"@ + change_lines(files));
    }
    assert(text.take(hash.len() as int) =~= hash);
}

/// A difference is told with what happened to the file, and which it is, before
/// its lines.
pub proof fn differences_are_told_with_their_file(file: FileDiff)
    ensures
        mentions(diff_words(file), file.file.kind@ + " "@ + shown(file.file.path@) + "\n"@),
        mentions(diff_words(file), file.diff@),
{
    let head = file.file.kind@ + " "@ + shown(file.file.path@) + "\n"@;
    let none = Seq::<char>::empty();
    assert(diff_words(file) =~= none + head + file.diff@);
    lemma_mentions(none, head, file.diff@);
    assert(diff_words(file) =~= head + file.diff@ + none);
    lemma_mentions(head, file.diff@, none);
}

// Problems

/// Of several problems, the first is told.
pub proof fn the_first_problem_is_told(
    keys: Seq<Seq<char>>,
    check: spec_fn(Seq<char>) -> Result<(), ErrorV>,
    i: int,
)
    requires
        0 <= i < keys.len(),
        check(keys[i]) is Err,
        forall|j: int| 0 <= j < i ==> check(#[trigger] keys[j]) is Ok,
    ensures
        first_problem(keys, check) == check(keys[i]),
    decreases i,
{
    if i > 0 {
        assert(check(keys[0]) is Ok);
        let rest = keys.drop_first();
        assert(rest[i - 1] == keys[i]);
        assert forall|j: int| 0 <= j < i - 1 implies check(#[trigger] rest[j]) is Ok by {
            assert(check(keys[j + 1]) is Ok);
        }
        the_first_problem_is_told(rest, check, i - 1);
    }
}

// Working copies

/// A stored working copy is used if and only if its version is known, its
/// selection is in normal form, and, where it has one, its version knows
/// selections.
pub proof fn known_working_copies_are_used(state: WorkspaceStateV)
    ensures
        state_check(state) is Ok <==> {
            &&& state.version <= 3
            &&& normal(state.paths) == Ok::<Seq<Seq<char>>, ErrorV>(state.paths)
            &&& state.paths.len() > 0 ==> state.version >= 2
        },
{
}

/// The files of a view are known if and only if it has no conflict and they
/// are valid together. Each is as every version of it is.
pub proof fn views_without_conflict_have_files(
    view: ViewV,
    files: Map<Seq<char>, FileEntryV>,
    path: Seq<char>,
    id: Seq<char>,
)
    requires
        versioned(view),
    ensures
        conflicts_of(view).contains(path) ==> view_snapshot(view) is Err,
        (forall|p: Seq<char>| !#[trigger] conflicts_of(view).contains(p)) && (forall|p: Seq<char>| #[trigger]
            files.contains_key(p) ==> view.contains_key(p)) && (forall|p: Seq<char>, a: Seq<char>|
            view.contains_key(p) && #[trigger] view[p].contains_key(a) ==> has(files, p, view[p][a])) && snapshot_check(
            files,
        ) is Ok ==> view_snapshot(view) == Ok::<Map<Seq<char>, FileEntryV>, ErrorV>(files),
        view_snapshot(view) is Ok && view_snapshot(view)->Ok_0.contains_key(path) ==> view.contains_key(path),
        view_snapshot(view) is Ok && view.contains_key(path) && view[path].contains_key(id) ==> has(
            view_snapshot(view)->Ok_0,
            path,
            view[path][id],
        ),
{
    assert forall|p: Seq<char>, a: Seq<char>|
        view.contains_key(p) && #[trigger] view[p].contains_key(a) && !disputed(view[p]) implies current(view[p])
        == view[p][a] by {
        let heads = view[p];
        let keys = keys_of(heads);
        lemma_ordered(heads.dom());
        assert(heads.dom().contains(a));
        assert(keys.contains(a));
        assert(keys.contains(keys[0]));
        assert(heads.dom().contains(keys[0]));
        assert(heads.contains_key(keys[0]));
    }
    if view_snapshot(view) is Ok && view.contains_key(path) {
        assert(!conflicts_of(view).contains(path));
    }
    if (forall|p: Seq<char>| !#[trigger] conflicts_of(view).contains(p)) && (forall|p: Seq<char>| #[trigger]
        files.contains_key(p) ==> view.contains_key(p)) && (forall|p: Seq<char>, a: Seq<char>|
        view.contains_key(p) && #[trigger] view[p].contains_key(a) ==> has(files, p, view[p][a])) && snapshot_check(
        files,
    ) is Ok {
        assert(conflicts_of(view) =~= Set::<Seq<char>>::empty());
        assert forall|p: Seq<char>| view.contains_key(p) implies has(files, p, #[trigger] current(view[p])) by {
            let a = choose|a: Seq<char>| #[trigger] view[p].contains_key(a);
            assert(!conflicts_of(view).contains(p));
            assert(current(view[p]) == view[p][a]);
        }
        assert(settled(view) =~= files);
    }
}

/// A file is contested if it is there, and it and what comes in are neither as
/// they were nor the same.
pub proof fn contested_files_were_edited_on_both_sides(
    base: Map<Seq<char>, FileEntryV>,
    local: Map<Seq<char>, FileEntryV>,
    incoming: Map<Seq<char>, FileEntryV>,
    path: Seq<char>,
)
    ensures
        contested(base, local, incoming, path) <==> {
            &&& local.contains_key(path)
            &&& !(base.contains_key(path) && base[path] == local[path])
            &&& base.contains_key(path) != incoming.contains_key(path) || base.contains_key(path) && base[path]
                != incoming[path]
            &&& !(incoming.contains_key(path) && incoming[path] == local[path])
        },
{
}

/// Contents are merged only where all three are text.
pub proof fn only_texts_are_merged(base: Seq<u8>, ours: Seq<u8>, theirs: Seq<u8>)
    ensures
        merged_contents(base, ours, theirs) is Some ==> plain_text(base) is Some && plain_text(ours) is Some && plain_text(
            theirs,
        ) is Some,
        plain_text(base) is Some && plain_text(ours) is Some && plain_text(theirs) is Some ==> merged_contents(
            base,
            ours,
            theirs,
        ) == crate::merge::diffy_merged(plain_text(base)->0, plain_text(ours)->0, plain_text(theirs)->0),
{
}

proof fn lemma_decoded_length(base: Seq<u8>, input: Seq<u8>, length: int, output: Seq<u8>)
    requires
        decoded_from(base, input, length, output) is Ok,
    ensures
        decoded_from(base, input, length, output)->Ok_0.len() == length,
        output.len() <= length,
        decoded_from(base, input, length, output)->Ok_0.take(output.len() as int) == output,
    decreases input.len(),
{
    let all = decoded_from(base, input, length, output)->Ok_0;
    if input.len() == 0 {
        assert(all.take(output.len() as int) =~= output);
    } else {
        let first = crate::encoding::unbe32(input.subrange(1, 5));
        let rest = input.skip(5);
        if input[0] == 0 {
            let more = output + rest.take(first);
            lemma_decoded_length(base, rest.skip(first), length, more);
            assert(all.take(output.len() as int) =~= all.take(more.len() as int).take(output.len() as int));
            assert(more.take(output.len() as int) =~= output);
        } else {
            let count = crate::encoding::unbe32(rest.subrange(0, 4));
            let more = output + base.subrange(first, first + count);
            lemma_decoded_length(base, rest.skip(4), length, more);
            assert(all.take(output.len() as int) =~= all.take(more.len() as int).take(output.len() as int));
            assert(more.take(output.len() as int) =~= output);
        }
    }
}

/// What a difference is read as has the length that it should have.
pub proof fn differences_are_read_in_their_length(base: Seq<u8>, input: Seq<u8>, length: int)
    requires
        decoded(base, input, length) is Ok,
    ensures
        decoded(base, input, length)->Ok_0.len() == length,
{
    lemma_decoded_length(base, input, length, Seq::empty());
}

// Places

/// To find an object, its owner is asked first and the other nodes in their
/// order. To store it, the owner comes first and the nodes after it in a ring.
pub proof fn owners_come_first(owner: int, nodes: nat, i: int, j: int)
    requires
        0 <= owner < nodes,
        0 <= i < j < nodes,
    ensures
        asked(owner, nodes)[0] == owner,
        i > 0 ==> asked(owner, nodes)[i] < asked(owner, nodes)[j],
        ring(owner, nodes)[0] == owner,
        ring(owner, nodes)[j] == (owner + j) % (nodes as int),
{
    assert((owner + j) % (nodes as int) == (if owner + j < nodes {
        owner + j
    } else {
        owner + j - nodes
    })) by (nonlinear_arith)
        requires
            0 <= owner < nodes,
            0 < j < nodes,
    ;
}

/// The path of a remote and the name of a project are found in an address of
/// the web that ends with them. No other address has them.
pub proof fn prefixes_are_found_in_addresses(parts: UrlPartsV)
    ensures
        prefix_of(Some(parts)) is Ok <==> http_address(parts) && location_parts(parts.path) is Ok && path_fits(
            parts,
            location_parts(parts.path)->Ok_0.0,
        ),
        prefix_of(Some(parts)) is Ok ==> prefix_of(Some(parts)) == location_parts(parts.path),
        prefix_of(None) is Err,
{
}

// Devices

/// A letter, in either case.
pub open spec fn letter(c: char, upper: char) -> bool {
    c == upper || c as int == upper as int + 32
}

proof fn lemma_lower(b: u8, upper: u8)
    requires
        65 <= upper <= 90,
    ensures
        crate::paths::ascii_lower(b) == crate::paths::ascii_lower(upper) <==> b == upper || b == upper + 32,
{
}

proof fn lemma_three(stem: Seq<char>, a: char, b: char, c: char)
    requires
        'A' <= a <= 'Z',
        'A' <= b <= 'Z',
        'A' <= c <= 'Z',
    ensures
        same_ignoring_case(encode_utf8(stem), encode_utf8(seq![a, b, c])) <==> stem.len() == 3 && letter(stem[0], a)
            && letter(stem[1], b) && letter(stem[2], c),
{
    let name = seq![a, b, c];
    assert(is_ascii_chars(name));
    is_ascii_chars_encode_utf8(name);
    let bytes = encode_utf8(stem);
    let other = encode_utf8(name);
    assert(other.len() == 3);
    if same_ignoring_case(bytes, other) {
        assert forall|i: int| 0 <= i < bytes.len() implies #[trigger] bytes[i] < 128 by {
            assert(crate::paths::ascii_lower(bytes[i]) == crate::paths::ascii_lower(other[i]));
            assert(i == 0 || i == 1 || i == 2);
        }
        lemma_ascii_text(stem);
        lemma_lower(bytes[0], a as u8);
        lemma_lower(bytes[1], b as u8);
        lemma_lower(bytes[2], c as u8);
        assert(crate::paths::ascii_lower(bytes[0]) == crate::paths::ascii_lower(other[0]));
        assert(crate::paths::ascii_lower(bytes[1]) == crate::paths::ascii_lower(other[1]));
        assert(crate::paths::ascii_lower(bytes[2]) == crate::paths::ascii_lower(other[2]));
    }
    if stem.len() == 3 && letter(stem[0], a) && letter(stem[1], b) && letter(stem[2], c) {
        assert(is_ascii_chars(stem)) by {
            assert forall|i: int| 0 <= i < stem.len() implies '\0' <= #[trigger] stem[i] <= '\u{7f}' by {
                assert(i == 0 || i == 1 || i == 2);
            }
        }
        is_ascii_chars_encode_utf8(stem);
        lemma_lower(bytes[0], a as u8);
        lemma_lower(bytes[1], b as u8);
        lemma_lower(bytes[2], c as u8);
        assert forall|i: int| 0 <= i < bytes.len() implies crate::paths::ascii_lower(#[trigger] bytes[i])
            == crate::paths::ascii_lower(other[i]) by {
            assert(i == 0 || i == 1 || i == 2);
        }
    }
}

proof fn lemma_ascii_text(text: Seq<char>)
    requires
        forall|i: int| 0 <= i < encode_utf8(text).len() ==> #[trigger] encode_utf8(text)[i] < 128,
    ensures
        is_ascii_chars(text),
        encode_utf8(text).len() == text.len(),
        forall|i: int| 0 <= i < text.len() ==> encode_utf8(text)[i] == #[trigger] text[i] as u8,
{
    let bytes = encode_utf8(text);
    let same = Seq::new(bytes.len(), |i: int| bytes[i] as char);
    assert(is_ascii_chars(same)) by {
        assert forall|i: int| 0 <= i < same.len() implies '\0' <= #[trigger] same[i] <= '\u{7f}' by {
            assert(bytes[i] < 128);
        }
    }
    is_ascii_chars_encode_utf8(same);
    assert(encode_utf8(same) =~= bytes) by {
        assert forall|i: int| 0 <= i < bytes.len() implies encode_utf8(same)[i] == #[trigger] bytes[i] by {
            assert(bytes[i] < 128);
            assert(same[i] as u8 == bytes[i]);
        }
    }
    encode_utf8_decode_utf8(same);
    encode_utf8_decode_utf8(text);
}

proof fn lemma_four(stem: Seq<char>, a: char, b: char, c: char, d: char)
    requires
        'A' <= a <= 'Z',
        'A' <= b <= 'Z',
        'A' <= c <= 'Z',
        '1' <= d <= '9',
    ensures
        same_ignoring_case(encode_utf8(stem), encode_utf8(seq![a, b, c, d])) <==> stem.len() == 4 && letter(stem[0], a)
            && letter(stem[1], b) && letter(stem[2], c) && stem[3] == d,
{
    let name = seq![a, b, c, d];
    assert(is_ascii_chars(name));
    is_ascii_chars_encode_utf8(name);
    let bytes = encode_utf8(stem);
    let other = encode_utf8(name);
    assert(other.len() == 4);
    if same_ignoring_case(bytes, other) {
        assert forall|i: int| 0 <= i < bytes.len() implies #[trigger] bytes[i] < 128 by {
            assert(crate::paths::ascii_lower(bytes[i]) == crate::paths::ascii_lower(other[i]));
            assert(i == 0 || i == 1 || i == 2 || i == 3);
        }
        lemma_ascii_text(stem);
        lemma_lower(bytes[0], a as u8);
        lemma_lower(bytes[1], b as u8);
        lemma_lower(bytes[2], c as u8);
        assert(crate::paths::ascii_lower(bytes[0]) == crate::paths::ascii_lower(other[0]));
        assert(crate::paths::ascii_lower(bytes[1]) == crate::paths::ascii_lower(other[1]));
        assert(crate::paths::ascii_lower(bytes[2]) == crate::paths::ascii_lower(other[2]));
        assert(crate::paths::ascii_lower(bytes[3]) == crate::paths::ascii_lower(other[3]));
    }
    if stem.len() == 4 && letter(stem[0], a) && letter(stem[1], b) && letter(stem[2], c) && stem[3] == d {
        assert(is_ascii_chars(stem)) by {
            assert forall|i: int| 0 <= i < stem.len() implies '\0' <= #[trigger] stem[i] <= '\u{7f}' by {
                assert(i == 0 || i == 1 || i == 2 || i == 3);
            }
        }
        is_ascii_chars_encode_utf8(stem);
        lemma_lower(bytes[0], a as u8);
        lemma_lower(bytes[1], b as u8);
        lemma_lower(bytes[2], c as u8);
        assert forall|i: int| 0 <= i < bytes.len() implies crate::paths::ascii_lower(#[trigger] bytes[i])
            == crate::paths::ascii_lower(other[i]) by {
            assert(i == 0 || i == 1 || i == 2 || i == 3);
        }
    }
}

/// Four names of three letters are devices, and so are two others with a digit
/// from one to nine after them, in whatever case. No other name is.
pub proof fn devices_are_named(stem: Seq<char>)
    ensures
        device(stem) <==> {
            ||| stem.len() == 3 && letter(stem[0], 'C') && letter(stem[1], 'O') && letter(stem[2], 'N')
            ||| stem.len() == 3 && letter(stem[0], 'P') && letter(stem[1], 'R') && letter(stem[2], 'N')
            ||| stem.len() == 3 && letter(stem[0], 'A') && letter(stem[1], 'U') && letter(stem[2], 'X')
            ||| stem.len() == 3 && letter(stem[0], 'N') && letter(stem[1], 'U') && letter(stem[2], 'L')
            ||| stem.len() == 4 && letter(stem[0], 'C') && letter(stem[1], 'O') && letter(stem[2], 'M') && '1' <= stem[3]
                <= '9'
            ||| stem.len() == 4 && letter(stem[0], 'L') && letter(stem[1], 'P') && letter(stem[2], 'T') && '1' <= stem[3]
                <= '9'
        },
{
    reveal_strlit("CON");
    assert("CON"@ =~= seq!['C', 'O', 'N']);
    lemma_three(stem, 'C', 'O', 'N');
    reveal_strlit("PRN");
    assert("PRN"@ =~= seq!['P', 'R', 'N']);
    lemma_three(stem, 'P', 'R', 'N');
    reveal_strlit("AUX");
    assert("AUX"@ =~= seq!['A', 'U', 'X']);
    lemma_three(stem, 'A', 'U', 'X');
    reveal_strlit("NUL");
    assert("NUL"@ =~= seq!['N', 'U', 'L']);
    lemma_three(stem, 'N', 'U', 'L');
    reveal_strlit("COM1");
    assert("COM1"@ =~= seq!['C', 'O', 'M', '1']);
    lemma_four(stem, 'C', 'O', 'M', '1');
    reveal_strlit("COM2");
    assert("COM2"@ =~= seq!['C', 'O', 'M', '2']);
    lemma_four(stem, 'C', 'O', 'M', '2');
    reveal_strlit("COM3");
    assert("COM3"@ =~= seq!['C', 'O', 'M', '3']);
    lemma_four(stem, 'C', 'O', 'M', '3');
    reveal_strlit("COM4");
    assert("COM4"@ =~= seq!['C', 'O', 'M', '4']);
    lemma_four(stem, 'C', 'O', 'M', '4');
    reveal_strlit("COM5");
    assert("COM5"@ =~= seq!['C', 'O', 'M', '5']);
    lemma_four(stem, 'C', 'O', 'M', '5');
    reveal_strlit("COM6");
    assert("COM6"@ =~= seq!['C', 'O', 'M', '6']);
    lemma_four(stem, 'C', 'O', 'M', '6');
    reveal_strlit("COM7");
    assert("COM7"@ =~= seq!['C', 'O', 'M', '7']);
    lemma_four(stem, 'C', 'O', 'M', '7');
    reveal_strlit("COM8");
    assert("COM8"@ =~= seq!['C', 'O', 'M', '8']);
    lemma_four(stem, 'C', 'O', 'M', '8');
    reveal_strlit("COM9");
    assert("COM9"@ =~= seq!['C', 'O', 'M', '9']);
    lemma_four(stem, 'C', 'O', 'M', '9');
    reveal_strlit("LPT1");
    assert("LPT1"@ =~= seq!['L', 'P', 'T', '1']);
    lemma_four(stem, 'L', 'P', 'T', '1');
    reveal_strlit("LPT2");
    assert("LPT2"@ =~= seq!['L', 'P', 'T', '2']);
    lemma_four(stem, 'L', 'P', 'T', '2');
    reveal_strlit("LPT3");
    assert("LPT3"@ =~= seq!['L', 'P', 'T', '3']);
    lemma_four(stem, 'L', 'P', 'T', '3');
    reveal_strlit("LPT4");
    assert("LPT4"@ =~= seq!['L', 'P', 'T', '4']);
    lemma_four(stem, 'L', 'P', 'T', '4');
    reveal_strlit("LPT5");
    assert("LPT5"@ =~= seq!['L', 'P', 'T', '5']);
    lemma_four(stem, 'L', 'P', 'T', '5');
    reveal_strlit("LPT6");
    assert("LPT6"@ =~= seq!['L', 'P', 'T', '6']);
    lemma_four(stem, 'L', 'P', 'T', '6');
    reveal_strlit("LPT7");
    assert("LPT7"@ =~= seq!['L', 'P', 'T', '7']);
    lemma_four(stem, 'L', 'P', 'T', '7');
    reveal_strlit("LPT8");
    assert("LPT8"@ =~= seq!['L', 'P', 'T', '8']);
    lemma_four(stem, 'L', 'P', 'T', '8');
    reveal_strlit("LPT9");
    assert("LPT9"@ =~= seq!['L', 'P', 'T', '9']);
    lemma_four(stem, 'L', 'P', 'T', '9');
    if stem.len() == 4 && '1' <= stem[3] <= '9' {
        assert(stem[3] == '1' || stem[3] == '2' || stem[3] == '3' || stem[3] == '4' || stem[3] == '5' || stem[3] == '6'
            || stem[3] == '7' || stem[3] == '8' || stem[3] == '9');
    }
}

} // verus!
