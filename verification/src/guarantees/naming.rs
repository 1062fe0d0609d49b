//! Which names are accepted, and what they mean.
use vstd::prelude::*;
use vstd::utf8::*;

use crate::collections::{increasing, lemma_ordered, ordered};
use crate::commands::{argument_path, leading, name_character, without_git};
use crate::encoding::{decimal, decimal_round_trip, read_decimal};
use crate::error::{lemma_first_problem, ErrorV};
use crate::git::{first_tab, imported, lines, roots_together, tag_of, tree_entries, tree_entry, words, TreeEntryV};
use crate::history::stripped;
use crate::json::Json;
use crate::objects::{valid_name, FileEntryV};
use crate::paths::{
    accepted_paths_are_valid, allowed, below, component, join_then_split, lemma_last_slash, lemma_split, native, parts,
    path_check, read_path, rejoin, shown, shown_bytes, shown_char, shown_chars, shown_part, split, split_then_join, valid_path,
    valid_paths_survive,
};
use crate::portable::{portable_check, portable_part, special};
use crate::remote::{endpoint_of, location_of, location_parts, normal_url, url_parts, UrlPartsV};
use crate::replication::{copy_check, following, listed};
use crate::selection::{covers, named, normal, selected, selection_check, topmost, trimmed, whole, without_dot};
use crate::server::{cluster_nodes, node_url, node_urls};
use crate::text::{before, blank, control, join, white_space, without_tail};
use crate::transactions::{Transaction, TransactionV};
use crate::views::{recorded, ViewV};

verus! {

// Paths

/// A letter of a name, in either case.
pub open spec fn either_case(b: u8, lower: u8) -> bool {
    b == lower || b + 32 == lower
}

/// The bytes of a name may be any but nothing, a dot, two dots, the names of
/// the metadata directories in whatever case, and any with a zero or a slash.
pub proof fn parts_of_paths_are_ordinary_names(bytes: Seq<u8>)
    ensures
        allowed(bytes) <==> {
            &&& bytes.len() > 0
            &&& !(bytes.len() == 1 && bytes[0] == 46)
            &&& !(bytes.len() == 2 && bytes[0] == 46 && bytes[1] == 46)
            &&& !(bytes.len() == 5 && bytes[0] == 46 && either_case(bytes[1], 107) && either_case(bytes[2], 101)
                && either_case(bytes[3], 108) && either_case(bytes[4], 112))
            &&& !(bytes.len() == 4 && bytes[0] == 46 && either_case(bytes[1], 103) && either_case(bytes[2], 105)
                && either_case(bytes[3], 116))
            &&& forall|i: int| 0 <= i < bytes.len() ==> #[trigger] bytes[i] != 0 && bytes[i] != 47
        },
{
    if bytes.len() == 1 && bytes[0] == 46 {
        assert(bytes =~= seq![46u8]);
    }
    if bytes.len() == 2 && bytes[0] == 46 && bytes[1] == 46 {
        assert(bytes =~= seq![46u8, 46u8]);
    }
    let kelp = crate::paths::kelp_directory();
    let git = crate::paths::git_directory();
    assert(kelp[0] == 46 && kelp[1] == 107 && kelp[2] == 101 && kelp[3] == 108 && kelp[4] == 112);
    assert(git[0] == 46 && git[1] == 103 && git[2] == 105 && git[3] == 116);
    if bytes.len() == 5 {
        assert(crate::paths::same_ignoring_case(bytes, kelp) <==> bytes[0] == 46 && either_case(bytes[1], 107)
            && either_case(bytes[2], 101) && either_case(bytes[3], 108) && either_case(bytes[4], 112)) by {
            if bytes[0] == 46 && either_case(bytes[1], 107) && either_case(bytes[2], 101) && either_case(bytes[3], 108)
                && either_case(bytes[4], 112) {
                assert forall|i: int| 0 <= i < bytes.len() implies crate::paths::ascii_lower(#[trigger] bytes[i])
                    == crate::paths::ascii_lower(kelp[i]) by {
                    assert(i == 0 || i == 1 || i == 2 || i == 3 || i == 4);
                }
            }
        }
    }
    if bytes.len() == 4 {
        assert(crate::paths::same_ignoring_case(bytes, git) <==> bytes[0] == 46 && either_case(bytes[1], 103)
            && either_case(bytes[2], 105) && either_case(bytes[3], 116)) by {
            if bytes[0] == 46 && either_case(bytes[1], 103) && either_case(bytes[2], 105) && either_case(
                bytes[3],
                116,
            ) {
                assert forall|i: int| 0 <= i < bytes.len() implies crate::paths::ascii_lower(#[trigger] bytes[i])
                    == crate::paths::ascii_lower(git[i]) by {
                    assert(i == 0 || i == 1 || i == 2 || i == 3);
                }
            }
        }
    }
    if bytes.contains(0u8) {
        let i = choose|i: int| 0 <= i < bytes.len() && bytes[i] == 0u8;
        assert(bytes[i] == 0);
    }
    if bytes.contains(47u8) {
        let i = choose|i: int| 0 <= i < bytes.len() && bytes[i] == 47u8;
        assert(bytes[i] == 47);
    }
}

/// A path is accepted if and only if it is not empty and what each of its
/// parts between slashes stands for is an ordinary name.
pub proof fn paths_are_made_of_ordinary_names(path: Seq<char>)
    ensures
        path_check(path) is Ok <==> path.len() > 0 && forall|i: int|
            0 <= i < split(path, '/').len() ==> component(#[trigger] split(path, '/')[i]) is Ok && allowed(
                component(split(path, '/')[i])->Ok_0,
            ),
{
    accepted_paths_are_valid(path);
    assert(parts(path) == split(path, '/'));
    if valid_path(path) {
        assert forall|i: int| 0 <= i < split(path, '/').len() implies component(#[trigger] split(path, '/')[i]) is Ok
            && allowed(component(split(path, '/')[i])->Ok_0) by {
            assert(component(parts(path)[i]) matches Ok(bytes) && allowed(bytes));
        }
    }
}

/// A part of a path that does not start with a zero stands for its own text.
/// One that does stands for bytes that are no text, written in hexadecimal.
pub proof fn parts_stand_for_their_text(part: Seq<char>)
    ensures
        part.len() == 0 || part[0] != '\0' ==> component(part) == Ok::<Seq<u8>, crate::error::Problem>(
            encode_utf8(part),
        ),
        part.len() > 0 && part[0] == '\0' && component(part) is Ok ==> !valid_utf8(component(part)->Ok_0) && part
            == seq!['\0'] + crate::encoding::hex(component(part)->Ok_0),
        part.len() > 1 && part[0] == '\0' && part.len() % 2 == 1 && crate::encoding::all_hex(part.skip(1))
            && !valid_utf8(crate::encoding::unhex(part.skip(1))) ==> component(part) is Ok,
{
    if part.len() > 0 && part[0] == '\0' && component(part) is Ok {
        crate::encoding::unhex_round_trip(part.skip(1));
        assert(part =~= seq!['\0'] + part.skip(1));
    }
}

proof fn lemma_shown_char(c: char)
    ensures
        forall|i: int| 0 <= i < shown_char(c).len() ==> !control(#[trigger] shown_char(c)[i]),
        !control(c) ==> shown_char(c) == seq![c],
{
    if control(c) && c != '\t' && c != '\r' && c != '\n' {
        let n: int = c as int;
        assert(0 <= n <= 159);
        assert(0 <= n / 16 < 16);
        assert(0 <= n % 16 < 16);
        crate::encoding::lemma_hex_digit(n / 16);
        crate::encoding::lemma_hex_digit(n % 16);
        if n < 16 {
            crate::encoding::lemma_hex_digit(n);
        }
    }
}

/// What is shown of a text has no control characters, and leaves a text
/// without any as it is.
pub proof fn shown_texts_have_no_control_characters(chars: Seq<char>)
    ensures
        forall|i: int| 0 <= i < shown_chars(chars).len() ==> !control(#[trigger] shown_chars(chars)[i]),
        (forall|i: int| 0 <= i < chars.len() ==> !control(#[trigger] chars[i])) ==> shown_chars(chars) == chars,
    decreases chars.len(),
{
    if chars.len() > 0 {
        let head = chars.drop_last();
        let c = chars.last();
        shown_texts_have_no_control_characters(head);
        lemma_shown_char(c);
        let all = shown_chars(chars);
        let earlier = shown_chars(head);
        assert(all == earlier + shown_char(c));
        assert forall|i: int| 0 <= i < all.len() implies !control(#[trigger] all[i]) by {
            if i < earlier.len() {
                assert(all[i] == earlier[i]);
            } else {
                assert(all[i] == shown_char(c)[i - earlier.len()]);
            }
        }
        if forall|i: int| 0 <= i < chars.len() ==> !control(#[trigger] chars[i]) {
            assert(!control(chars[chars.len() - 1]));
            assert forall|i: int| 0 <= i < head.len() implies !control(#[trigger] head[i]) by {
                assert(!control(chars[i]));
            }
            assert(chars =~= head + seq![c]);
        }
    }
}

/// A path can be written anywhere if and only if it is accepted and none of
/// its parts is other than text, ends in a dot or a space, has a special
/// character, or is named like a device.
pub proof fn portable_paths_are_written_anywhere(path: Seq<char>)
    ensures
        portable_check(path) is Ok <==> path_check(path) is Ok && forall|i: int|
            #![trigger split(path, '/')[i]]
            0 <= i < split(path, '/').len() ==> {
                let part = split(path, '/')[i];
                &&& part.len() > 0 ==> part[0] != '\0' && part.last() != '.' && part.last() != ' '
                &&& forall|k: int| 0 <= k < part.len() ==> !special(#[trigger] part[k])
                &&& !crate::portable::device(crate::portable::stem(part))
            },
{
    let list = parts(path);
    let check = |part: Seq<char>| portable_part(path, part);
    lemma_first_problem(list, check);
    if crate::error::first_problem(list, check) is Ok {
        assert forall|i: int|
            #![trigger split(path, '/')[i]]
            0 <= i < split(path, '/').len() implies {
            let part = split(path, '/')[i];
            &&& part.len() > 0 ==> part[0] != '\0' && part.last() != '.' && part.last() != ' '
            &&& forall|k: int| 0 <= k < part.len() ==> !special(#[trigger] part[k])
            &&& !crate::portable::device(crate::portable::stem(part))
        } by {
            assert(check(list[i]) is Ok);
        }
    } else {
        let i = choose|i: int| 0 <= i < list.len() && check(#[trigger] list[i]) is Err;
        assert(split(path, '/')[i] == list[i]);
    }
}

/// The characters that are special are the control characters and nine others.
pub proof fn special_characters_are_told(c: char)
    ensures
        special(c) <==> c < ' ' || '\u{7f}' <= c <= '\u{9f}' || c == '\\' || c == ':' || c == '<' || c == '>' || c == '"'
            || c == '|' || c == '?' || c == '*',
        control(c) <==> c < ' ' || '\u{7f}' <= c <= '\u{9f}',
{
}

/// The name that counts for a device is what comes before the first dot.
pub proof fn stems_end_before_the_first_dot(part: Seq<char>)
    ensures
        ({
            let stem = crate::portable::stem(part);
            &&& stem.len() <= part.len()
            &&& part.take(stem.len() as int) == stem
            &&& forall|i: int| 0 <= i < stem.len() ==> #[trigger] stem[i] != '.'
            &&& stem.len() < part.len() ==> part[stem.len() as int] == '.'
        }),
    decreases part.len(),
{
    if part.len() > 0 && part[0] != '.' {
        let rest = part.drop_first();
        stems_end_before_the_first_dot(rest);
        let inner = crate::portable::stem(rest);
        let stem = crate::portable::stem(part);
        assert(stem == seq![part[0]] + inner);
        assert(part.take(stem.len() as int) =~= seq![part[0]] + rest.take(inner.len() as int));
        assert forall|i: int| 0 <= i < stem.len() implies #[trigger] stem[i] != '.' by {
            if i > 0 {
                assert(stem[i] == inner[i - 1]);
            }
        }
    } else {
        assert(part.take(0) =~= Seq::<char>::empty());
    }
}

/// Only white space is cut from the end of a text, and all of it.
pub proof fn only_white_space_is_cut(text: Seq<char>)
    ensures
        ({
            let cut = without_tail(text);
            &&& cut.len() <= text.len()
            &&& text.take(cut.len() as int) == cut
            &&& cut.len() > 0 ==> !white_space(cut.last())
            &&& forall|i: int| cut.len() <= i < text.len() ==> white_space(#[trigger] text[i])
        }),
    decreases text.len(),
{
    if text.len() > 0 && white_space(text.last()) {
        only_white_space_is_cut(text.drop_last());
        let cut = without_tail(text);
        assert(text.take(cut.len() as int) =~= text.drop_last().take(cut.len() as int));
        assert forall|i: int| cut.len() <= i < text.len() implies white_space(#[trigger] text[i]) by {
            if i < text.len() - 1 {
                assert(white_space(text.drop_last()[i]));
            }
        }
    } else {
        assert(text.take(text.len() as int) =~= text);
    }
}

// Selections

/// Slashes at the end of a path do not count, and nothing else is cut.
pub proof fn only_slashes_are_cut(path: Seq<char>)
    ensures
        ({
            let cut = trimmed(path);
            &&& cut.len() <= path.len()
            &&& path.take(cut.len() as int) == cut
            &&& cut.len() > 0 ==> cut.last() != '/'
            &&& forall|i: int| cut.len() <= i < path.len() ==> #[trigger] path[i] == '/'
        }),
    decreases path.len(),
{
    if path.len() > 0 && path.last() == '/' {
        only_slashes_are_cut(path.drop_last());
        let cut = trimmed(path);
        assert(path.take(cut.len() as int) =~= path.drop_last().take(cut.len() as int));
        assert forall|i: int| cut.len() <= i < path.len() implies #[trigger] path[i] == '/' by {
            if i < path.len() - 1 {
                assert(path.drop_last()[i] == '/');
            }
        }
    } else {
        assert(path.take(path.len() as int) =~= path);
    }
}

proof fn lemma_valid_ends(path: Seq<char>)
    requires
        valid_path(path),
    ensures
        path.len() > 0,
        path.last() != '/',
        path[0] != '/',
        path != seq!['.'],
        !(path.len() >= 2 && path[0] == '.' && path[1] == '/'),
{
    let list = parts(path);
    lemma_split(path, '/');
    lemma_ends(path);
    if path.last() == '/' {
        assert(list.last().len() == 0);
        let part = list[list.len() - 1];
        assert(component(part) matches Ok(bytes) && allowed(bytes));
        assert(encode_utf8(part).len() == 0);
    }
    lemma_starts(path);
    if path[0] == '/' {
        let part = list[0];
        assert(part.len() == 0);
        assert(component(part) matches Ok(bytes) && allowed(bytes));
        assert(encode_utf8(part).len() == 0);
    }
    if path == seq!['.'] || path.len() >= 2 && path[0] == '.' && path[1] == '/' {
        let part = list[0];
        assert(part =~= seq!['.']);
        assert(component(part) matches Ok(bytes) && allowed(bytes));
        lemma_dot();
    }
}

proof fn lemma_dot()
    ensures
        encode_utf8(seq!['.']) == seq![46u8],
{
    let dot = seq!['.'];
    assert(is_ascii_chars(dot));
    is_ascii_chars_encode_utf8(dot);
    assert(encode_utf8(dot) =~= seq![46u8]);
}

proof fn lemma_ends(path: Seq<char>)
    requires
        path.len() > 0,
    ensures
        path.last() == '/' ==> split(path, '/').last().len() == 0,
{
}

proof fn lemma_starts(path: Seq<char>)
    requires
        path.len() > 0,
    ensures
        split(path, '/').len() > 0,
        path[0] == '/' ==> split(path, '/')[0].len() == 0,
        path[0] != '/' ==> split(path, '/')[0].len() > 0 && split(path, '/')[0][0] == path[0],
        path[0] != '/' && path.len() > 1 && path[1] == '/' ==> split(path, '/')[0] == seq![path[0]] && split(
            path,
            '/',
        ).len() > 1,
        path[0] != '/' && path.len() == 1 ==> split(path, '/')[0] == seq![path[0]],
        path[0] == '/' ==> split(path, '/').len() > 1,
    decreases path.len(),
{
    let head = path.drop_last();
    lemma_split(head, '/');
    reveal_with_fuel(split, 3);
    if path.len() == 1 {
        assert(head =~= Seq::<char>::empty());
        assert(split(head, '/') == seq![Seq::<char>::empty()]);
        if path[0] != '/' {
            assert(split(path, '/')[0] =~= seq![path[0]]);
        }
    } else {
        lemma_starts(head);
        if path.len() == 2 && path[1] == '/' && path[0] != '/' {
            assert(split(path, '/')[0] =~= seq![path[0]]);
        }
    }
}

/// A valid path selects itself, with a dot and a slash before it and slashes
/// after it, too. A dot selects everything, with or without a slash.
pub proof fn paths_select_themselves(path: Seq<char>)
    requires
        valid_path(path),
    ensures
        selected(path) == Ok::<Option<Seq<char>>, ErrorV>(Some(path)),
        selected(seq!['.', '/'] + path) == Ok::<Option<Seq<char>>, ErrorV>(Some(path)),
        selected(path.push('/')) == Ok::<Option<Seq<char>>, ErrorV>(Some(path)),
        selected(seq!['.']) == Ok::<Option<Seq<char>>, ErrorV>(None),
        selected(seq!['.', '/']) == Ok::<Option<Seq<char>>, ErrorV>(None),
        selected(Seq::empty()) is Err,
{
    lemma_valid_ends(path);
    accepted_paths_are_valid(path);
    let dotted = seq!['.', '/'] + path;
    assert(dotted.skip(2) =~= path);
    assert(without_dot(dotted) == path);
    assert(trimmed(path) == path);
    assert(path.push('/').drop_last() =~= path);
    assert(trimmed(path.push('/')) == path);
    assert(path.push('/')[0] == path[0]);
    if path.len() == 1 {
        assert(path.push('/')[1] == '/');
        assert(path[0] != '.') by {
            if path[0] == '.' {
                assert(path =~= seq!['.']);
            }
        }
    } else {
        assert(path.push('/')[1] == path[1]);
    }
    assert(path.push('/') != seq!['.', '/']) by {
        if path.push('/') == seq!['.', '/'] {
            assert(path.push('/')[0] == '.');
            assert(path =~= seq!['.']);
        }
    }
    assert(dotted != seq!['.'] && dotted != seq!['.', '/']) by {
        assert(dotted.len() > 2);
        assert(seq!['.'].len() == 1 && seq!['.', '/'].len() == 2);
    }
    assert(path.push('/') != seq!['.']) by {
        assert(path.push('/').len() >= 2);
        assert(seq!['.'].len() == 1);
    }
    assert(path != seq!['.', '/']) by {
        if path == seq!['.', '/'] {
            assert(path.last() == '/');
        }
    }
    assert(without_dot(path.push('/')) == path.push('/'));
}

proof fn lemma_selection_checked(paths: Seq<Seq<char>>)
    ensures
        selection_check(paths) is Ok <==> forall|i: int| 0 <= i < paths.len() ==> selected(#[trigger] paths[i]) is Ok,
    decreases paths.len(),
{
    if paths.len() > 0 {
        let rest = paths.drop_first();
        lemma_selection_checked(rest);
        assert forall|i: int| 0 <= i < rest.len() implies #[trigger] rest[i] == paths[i + 1] by {}
        if selected(paths[0]) is Ok && selection_check(rest) is Ok {
            assert forall|i: int| 0 <= i < paths.len() implies selected(#[trigger] paths[i]) is Ok by {
                if i > 0 {
                    assert(selected(rest[i - 1]) is Ok);
                }
            }
        }
        if forall|i: int| 0 <= i < paths.len() ==> selected(#[trigger] paths[i]) is Ok {
            assert(selected(paths[0]) is Ok);
            assert forall|i: int| 0 <= i < rest.len() implies selected(#[trigger] rest[i]) is Ok by {
                assert(selected(paths[i + 1]) is Ok);
            }
        }
    }
}

proof fn lemma_named_finite(paths: Seq<Seq<char>>)
    ensures
        topmost(named(paths)).finite(),
{
    let all = paths.map_values(|path: Seq<char>| trimmed(without_dot(path))).to_set();
    vstd::seq_lib::seq_to_set_is_finite(paths.map_values(|path: Seq<char>| trimmed(without_dot(path))));
    assert(topmost(named(paths)).subset_of(all)) by {
        assert forall|name: Seq<char>| topmost(named(paths)).contains(name) implies all.contains(name) by {
            let i = choose|i: int|
                0 <= i < paths.len() && selected(#[trigger] paths[i]) == Ok::<Option<Seq<char>>, ErrorV>(Some(name));
            assert(paths.map_values(|path: Seq<char>| trimmed(without_dot(path)))[i] == name);
        }
    }
    vstd::set_lib::lemma_set_subset_finite(all, topmost(named(paths)));
}

/// A selection is accepted if and only if every path of it is. In its normal
/// form the paths are in order, and none covers another.
pub proof fn selections_are_put_in_order(paths: Seq<Seq<char>>)
    ensures
        normal(paths) is Ok <==> forall|i: int| 0 <= i < paths.len() ==> selected(#[trigger] paths[i]) is Ok,
        normal(paths) is Ok ==> {
            let list = normal(paths)->Ok_0;
            &&& forall|i: int, j: int| 0 <= i < j < list.len() ==> before(#[trigger] list[i], #[trigger] list[j])
            &&& forall|i: int, j: int|
                0 <= i < list.len() && 0 <= j < list.len() && i != j ==> !below(#[trigger] list[i], #[trigger] list[j])
            &&& forall|i: int|
                0 <= i < list.len() ==> exists|k: int|
                    0 <= k < paths.len() && selected(#[trigger] paths[k]) == Ok::<Option<Seq<char>>, ErrorV>(
                        Some(#[trigger] list[i]),
                    )
        },
{
    lemma_selection_checked(paths);
    if normal(paths) is Ok && !whole(paths) {
        let set = topmost(named(paths));
        let list = ordered(set);
        lemma_named_finite(paths);
        lemma_ordered(set);
        assert(increasing(list));
        assert forall|i: int, j: int| 0 <= i < list.len() && 0 <= j < list.len() && i != j implies !below(
            #[trigger] list[i],
            #[trigger] list[j],
        ) by {
            assert(list.contains(list[i]) && list.contains(list[j]));
            assert(set.contains(list[i]) && set.contains(list[j]));
            assert(list[i] != list[j]) by {
                if i < j {
                    assert(before(list[i], list[j]));
                } else {
                    assert(before(list[j], list[i]));
                }
                crate::text::lemma_before_irreflexive(list[i]);
            }
            assert(named(paths).contains(list[j]));
            assert(!covers(list[j], list[i]));
        }
        assert forall|i: int| 0 <= i < list.len() implies exists|k: int|
            0 <= k < paths.len() && selected(#[trigger] paths[k]) == Ok::<Option<Seq<char>>, ErrorV>(
                Some(#[trigger] list[i]),
            ) by {
            assert(list.contains(list[i]));
            assert(set.contains(list[i]));
            assert(named(paths).contains(list[i]));
        }
    }
}

// Addresses

/// The address of a remote is accepted if and only if it is one of the web,
/// with a host and without credentials, query or fragment. Slashes at its end
/// do not count.
pub proof fn remotes_are_plain_web_addresses(parts: UrlPartsV)
    ensures
        normal_url(Some(parts)) is Ok <==> {
            &&& parts.scheme == "http"@ || parts.scheme == "https"@
            &&& parts.host is Some
            &&& parts.username.len() == 0 && parts.password is None
            &&& parts.query is None && parts.fragment is None
        },
        normal_url(Some(parts)) is Ok ==> normal_url(Some(parts))->Ok_0 == trimmed(parts.text),
        normal_url(None) is Err,
        node_url(Some(parts)) is Ok <==> normal_url(Some(parts)) is Ok,
        node_url(Some(parts)) is Ok ==> node_url(Some(parts))->Ok_0 == trimmed(parts.text),
        node_url(None) is Err,
{
}

/// The last part of the path in an address is the project, if that is a name.
/// What comes before it is the path of the remote.
pub proof fn projects_come_last(base: Seq<char>, project: Seq<char>)
    requires
        !project.contains('/'),
        project.len() > 0,
    ensures
        valid_name(project) ==> location_parts(base + seq!['/'] + project) == Ok::<(Seq<char>, Seq<char>), ErrorV>(
            (base, project),
        ),
        !valid_name(project) ==> location_parts(base + seq!['/'] + project) is Err,
        location_parts(project) is Err,
        location_parts((base + seq!['/'] + project).push('/')) == location_parts(base + seq!['/'] + project),
{
    let path = base + seq!['/'] + project;
    assert(path.last() == project.last());
    assert(project.contains(project.last())) by {
        assert(project[project.len() - 1] == project.last());
    }
    assert(trimmed(path) == path);
    assert(trimmed(project) == project);
    assert(path.push('/').drop_last() =~= path);
    assert(trimmed(path.push('/')) == path);
    lemma_last_slash(path);
    lemma_last_slash(project);
    let at = crate::paths::last_slash(path);
    assert(path[base.len() as int] == '/');
    if at > base.len() {
        assert(project[at - base.len() - 1] == '/');
        assert(project.contains('/'));
    }
    assert(at == base.len());
    assert(path.take(at) =~= base);
    assert(path.skip(at + 1) =~= project);
    if crate::paths::last_slash(project) >= 0 {
        assert(project.contains('/'));
    }
}

/// A project is reached under the address of its remote if its name is valid,
/// there is a token, and the address is accepted.
pub proof fn projects_are_reached_under_their_remote(url: Seq<char>, project: Seq<char>, token: Seq<char>)
    ensures
        endpoint_of(url, project, token) is Ok <==> valid_name(project) && (exists|i: int|
            0 <= i < token.len() && !white_space(#[trigger] token[i])) && normal_url(url_parts(url)) is Ok,
        endpoint_of(url, project, token) is Ok ==> endpoint_of(url, project, token)->Ok_0 == normal_url(
            url_parts(url),
        )->Ok_0 + "/v1/projects/"@ + project,
{
    assert(!blank(token) <==> exists|i: int| 0 <= i < token.len() && !white_space(#[trigger] token[i]));
}

proof fn lemma_node_urls(nodes: Seq<Seq<char>>)
    ensures
        node_urls(nodes) is Ok <==> forall|i: int|
            0 <= i < nodes.len() ==> node_url(url_parts(#[trigger] nodes[i])) is Ok,
        node_urls(nodes) is Ok ==> {
            let urls = node_urls(nodes)->Ok_0;
            &&& urls.len() == nodes.len()
            &&& forall|i: int|
                0 <= i < nodes.len() ==> #[trigger] urls[i] == node_url(url_parts(nodes[i]))->Ok_0
        },
    decreases nodes.len(),
{
    if nodes.len() > 0 {
        let head = nodes.drop_last();
        lemma_node_urls(head);
        let last = nodes.len() - 1;
        assert(nodes[last] == nodes.last());
        assert forall|i: int| 0 <= i < head.len() implies #[trigger] head[i] == nodes[i] by {}
        if node_urls(head) is Ok && node_url(url_parts(nodes.last())) is Ok {
            assert forall|i: int| 0 <= i < nodes.len() implies node_url(url_parts(#[trigger] nodes[i])) is Ok by {
                if i < last {
                    assert(node_url(url_parts(head[i])) is Ok);
                }
            }
        }
        if forall|i: int| 0 <= i < nodes.len() ==> node_url(url_parts(#[trigger] nodes[i])) is Ok {
            assert forall|i: int| 0 <= i < head.len() implies node_url(url_parts(#[trigger] head[i])) is Ok by {
                assert(node_url(url_parts(nodes[i])) is Ok);
            }
            assert(node_url(url_parts(nodes[last])) is Ok);
        }
    }
}

/// Storage nodes are accepted if and only if there are some and a token, each
/// has an address that is accepted, and no two have the same. They are put in
/// the order of their addresses.
pub proof fn storage_nodes_are_put_in_order(nodes: Seq<Seq<char>>, token: Seq<char>)
    ensures
        cluster_nodes(nodes, token) is Ok <==> {
            &&& nodes.len() > 0 && token.len() > 0
            &&& forall|i: int| 0 <= i < nodes.len() ==> node_url(url_parts(#[trigger] nodes[i])) is Ok
            &&& forall|i: int, j: int|
                0 <= i < j < nodes.len() ==> node_url(url_parts(#[trigger] nodes[i]))->Ok_0 != node_url(
                    url_parts(#[trigger] nodes[j]),
                )->Ok_0
        },
        cluster_nodes(nodes, token) is Ok ==> {
            let list = cluster_nodes(nodes, token)->Ok_0;
            &&& list.len() == nodes.len()
            &&& forall|i: int, j: int| 0 <= i < j < list.len() ==> before(#[trigger] list[i], #[trigger] list[j])
            &&& forall|i: int| 0 <= i < nodes.len() ==> list.contains(node_url(url_parts(#[trigger] nodes[i]))->Ok_0)
        },
{
    lemma_node_urls(nodes);
    if node_urls(nodes) is Ok {
        let urls = node_urls(nodes)->Ok_0;
        if urls.no_duplicates() {
            assert forall|i: int, j: int| 0 <= i < j < nodes.len() implies node_url(url_parts(#[trigger] nodes[i]))->Ok_0
                != node_url(url_parts(#[trigger] nodes[j]))->Ok_0 by {
                assert(urls[i] != urls[j]);
            }
            vstd::seq_lib::seq_to_set_is_finite(urls);
            lemma_ordered(urls.to_set());
            urls.unique_seq_to_set();
            assert forall|i: int| 0 <= i < nodes.len() implies ordered(urls.to_set()).contains(
                node_url(url_parts(#[trigger] nodes[i]))->Ok_0,
            ) by {
                assert(urls.contains(urls[i]));
                assert(urls.to_set().contains(urls[i]));
            }
        }
        if forall|i: int, j: int|
            0 <= i < j < nodes.len() ==> node_url(url_parts(#[trigger] nodes[i]))->Ok_0 != node_url(
                url_parts(#[trigger] nodes[j]),
            )->Ok_0 {
            assert forall|i: int, j: int| 0 <= i < urls.len() && 0 <= j < urls.len() && i != j implies urls[i]
                != urls[j] by {
                if i < j {
                    assert(node_url(url_parts(nodes[i]))->Ok_0 != node_url(url_parts(nodes[j]))->Ok_0);
                } else {
                    assert(node_url(url_parts(nodes[j]))->Ok_0 != node_url(url_parts(nodes[i]))->Ok_0);
                }
            }
        }
    }
}

// Paging through releases

/// The next page has the identities that come after a given one, in order, as
/// many as a page can have. It leaves out none that comes before one that it
/// has.
pub proof fn pages_have_what_comes_next(ids: Set<Seq<char>>, after: Seq<char>, id: Seq<char>)
    requires
        ids.finite(),
    ensures
        ({
            let page = listed(following(ids, after));
            &&& page.len() <= 128
            &&& forall|i: int, j: int| 0 <= i < j < page.len() ==> before(#[trigger] page[i], #[trigger] page[j])
            &&& page.contains(id) ==> ids.contains(id) && before(after, id)
            &&& ids.contains(id) && before(after, id) ==> page.contains(id) || page.len() == 128 && before(
                page.last(),
                id,
            )
        }),
{
    let set = ids.filter(|id: Seq<char>| before(after, id));
    let all = following(ids, after);
    let page = listed(all);
    assert(set.subset_of(ids));
    vstd::set_lib::lemma_set_subset_finite(ids, set);
    lemma_ordered(set);
    assert(all == ordered(set));
    if page.contains(id) {
        let i = choose|i: int| 0 <= i < page.len() && page[i] == id;
        assert(all[i] == id);
        assert(all.contains(id));
        assert(set.contains(id));
    }
    if ids.contains(id) && before(after, id) {
        assert(set.contains(id));
        assert(all.contains(id));
        let i = choose|i: int| 0 <= i < all.len() && all[i] == id;
        if i < page.len() {
            assert(page[i] == id);
        } else {
            assert(before(all[127], all[i]));
            assert(page.last() == all[127]);
        }
    }
}

/// What is copied to another node is a blob, or a transaction or release that
/// has kept its identity.
pub proof fn copies_keep_their_identity(kind: Seq<char>, id: Seq<char>, copied: Seq<char>)
    ensures
        copy_check(kind, id, copied) is Ok <==> kind == "blob"@ || (kind == "transaction"@ || kind == "pin"@) && copied
            == id,
{
    reveal_strlit("blob");
    reveal_strlit("transaction");
    reveal_strlit("pin");
    assert("blob"@.len() == 4 && "transaction"@.len() == 11 && "pin"@.len() == 3);
}

// Git

proof fn lemma_words(text: Seq<char>)
    ensures
        forall|i: int| 0 <= i < words(text).len() ==> (#[trigger] words(text)[i]).len() > 0,
        forall|i: int, j: int|
            0 <= i < words(text).len() && 0 <= j < words(text)[i].len() ==> !white_space(#[trigger] words(text)[i][j]),
        text.len() > 0 && !white_space(text.last()) ==> words(text).len() > 0 && words(text).last().last() == text.last(),
    decreases text.len(),
{
    if text.len() > 0 {
        let head = text.drop_last();
        lemma_words(head);
        let earlier = words(head);
        let all = words(text);
        if !white_space(text.last()) {
            if text.len() > 1 && !white_space(text[text.len() - 2]) {
                assert(head.last() == text[text.len() - 2]);
                assert(all =~= earlier.update(earlier.len() - 1, earlier.last().push(text.last())));
                assert forall|i: int, j: int| 0 <= i < all.len() && 0 <= j < all[i].len() implies !white_space(
                    #[trigger] all[i][j],
                ) by {
                    if i == all.len() - 1 {
                        if j < earlier.last().len() {
                            assert(all[i][j] == earlier[i][j]);
                        }
                    } else {
                        assert(all[i] == earlier[i]);
                    }
                }
                assert forall|i: int| 0 <= i < all.len() implies (#[trigger] all[i]).len() > 0 by {
                    if i < all.len() - 1 {
                        assert(all[i] == earlier[i]);
                    }
                }
            } else {
                assert(all =~= earlier.push(seq![text.last()]));
                assert forall|i: int, j: int| 0 <= i < all.len() && 0 <= j < all[i].len() implies !white_space(
                    #[trigger] all[i][j],
                ) by {
                    if i < earlier.len() {
                        assert(all[i] == earlier[i]);
                    }
                }
                assert forall|i: int| 0 <= i < all.len() implies (#[trigger] all[i]).len() > 0 by {
                    if i < earlier.len() {
                        assert(all[i] == earlier[i]);
                    }
                }
            }
        }
    }
}

/// The letters of some words, one after another.
pub open spec fn letters(list: Seq<Seq<char>>) -> Seq<char>
    decreases list.len(),
{
    if list.len() == 0 {
        Seq::empty()
    } else {
        letters(list.drop_last()) + list.last()
    }
}

/// The words of a text are its letters that are not white space, in their
/// order. None is empty or has white space in it.
pub proof fn words_are_what_is_between_white_space(text: Seq<char>)
    ensures
        forall|i: int| 0 <= i < words(text).len() ==> (#[trigger] words(text)[i]).len() > 0,
        forall|i: int, j: int|
            0 <= i < words(text).len() && 0 <= j < words(text)[i].len() ==> !white_space(#[trigger] words(text)[i][j]),
        letters(words(text)) == text.filter(|c: char| !white_space(c)),
    decreases text.len(),
{
    lemma_words(text);
    reveal(Seq::filter);
    if text.len() > 0 {
        let head = text.drop_last();
        words_are_what_is_between_white_space(head);
        lemma_words(head);
        let earlier = words(head);
        let all = words(text);
        if !white_space(text.last()) {
            if text.len() > 1 && !white_space(text[text.len() - 2]) {
                assert(head.last() == text[text.len() - 2]);
                assert(all.drop_last() =~= earlier.drop_last());
                assert(letters(all) =~= letters(earlier).push(text.last()));
            } else {
                assert(all.drop_last() =~= earlier);
                assert(letters(all) =~= letters(earlier).push(text.last()));
            }
        }
    }
}

/// Two words next to each other in a text are two words, and not one.
pub proof fn white_space_ends_a_word(text: Seq<char>, space: char, c: char)
    requires
        white_space(space),
        !white_space(c),
    ensures
        words(text.push(space)) == words(text),
        words(text.push(space).push(c)) == words(text).push(seq![c]),
        text.len() > 0 && !white_space(text.last()) ==> words(text.push(c)).len() == words(text).len(),
{
    assert(text.push(space).drop_last() =~= text);
    assert(text.push(space).push(c).drop_last() =~= text.push(space));
    assert(text.push(c).drop_last() =~= text);
    lemma_words(text);
    let spaced = text.push(space);
    let longer = spaced.push(c);
    assert(longer[longer.len() - 2] == space);
    assert(words(spaced) == words(text));
    assert(words(longer) == words(spaced).push(seq![c]));
    if text.len() > 0 {
        assert(text.push(c)[text.len() - 1] == text.last());
    }
}

proof fn lemma_trees_refused(lines: Seq<Seq<u8>>)
    ensures
        tree_entries(lines) is Ok <==> forall|i: int|
            0 <= i < lines.len() && (#[trigger] lines[i]).len() > 0 ==> tree_entry(lines[i]) is Ok,
    decreases lines.len(),
{
    if lines.len() > 0 {
        let head = lines.drop_last();
        let last = lines.len() - 1;
        lemma_trees_refused(head);
        assert(lines[last] == lines.last());
        if tree_entries(lines) is Ok {
            assert forall|i: int| 0 <= i < lines.len() && (#[trigger] lines[i]).len() > 0 implies tree_entry(
                lines[i],
            ) is Ok by {
                if i < last {
                    assert(head[i] == lines[i]);
                }
            }
        }
        if forall|i: int| 0 <= i < lines.len() && (#[trigger] lines[i]).len() > 0 ==> tree_entry(lines[i]) is Ok {
            assert forall|i: int| 0 <= i < head.len() && (#[trigger] head[i]).len() > 0 implies tree_entry(
                head[i],
            ) is Ok by {
                assert(lines[i].len() > 0);
            }
        }
    }
}

/// The lines of a listing that are not empty.
pub open spec fn entry_lines(lines: Seq<Seq<u8>>) -> Seq<Seq<u8>> {
    lines.filter(|line: Seq<u8>| line.len() > 0)
}

proof fn lemma_entry_lines(lines: Seq<Seq<u8>>)
    requires
        lines.len() > 0,
    ensures
        entry_lines(lines) == (if lines.last().len() > 0 {
            entry_lines(lines.drop_last()).push(lines.last())
        } else {
            entry_lines(lines.drop_last())
        }),
{
    reveal(Seq::filter);
}

/// A tree lists the entries of its lines that are not empty, in their order,
/// and is refused where one of them is.
pub proof fn trees_list_every_entry(lines: Seq<Seq<u8>>)
    ensures
        tree_entries(lines) is Ok <==> forall|i: int|
            0 <= i < lines.len() && (#[trigger] lines[i]).len() > 0 ==> tree_entry(lines[i]) is Ok,
        tree_entries(lines) is Ok ==> {
            &&& tree_entries(lines)->Ok_0.len() == entry_lines(lines).len()
            &&& forall|i: int|
                0 <= i < entry_lines(lines).len() ==> tree_entry(#[trigger] entry_lines(lines)[i]) == Ok::<
                    crate::git::TreeEntryV,
                    ErrorV,
                >(tree_entries(lines)->Ok_0[i])
        },
    decreases lines.len(),
{
    lemma_trees_refused(lines);
    if lines.len() > 0 {
        let head = lines.drop_last();
        trees_list_every_entry(head);
        lemma_entry_lines(lines);
        if tree_entries(lines) is Ok {
            let kept = entry_lines(head);
            let all = entry_lines(lines);
            let found = tree_entries(lines)->Ok_0;
            let earlier = tree_entries(head)->Ok_0;
            assert forall|i: int| 0 <= i < all.len() implies tree_entry(#[trigger] all[i]) == Ok::<
                crate::git::TreeEntryV,
                ErrorV,
            >(found[i]) by {
                if i < kept.len() {
                    assert(all[i] == kept[i]);
                    assert(found[i] == earlier[i]);
                }
            }
        }
    } else {
        reveal(Seq::filter);
    }
}

/// An imported commit has what would be committed, with the message that it had
/// in Git but for white space at its end, and the identity that it had there for
/// a nonce. It says where it came from.
pub proof fn imported_commits_say_where_they_come_from(
    view: ViewV,
    files: Map<Seq<char>, FileEntryV>,
    message: Seq<char>,
    commit: Seq<char>,
    origin: FileEntryV,
)
    requires
        imported(view, files, message, commit, origin) is Ok,
    ensures
        ({
            let transaction = imported(view, files, message, commit, origin)->Ok_0;
            &&& transaction.provenance == Some(origin)
            &&& transaction.format == 2
            &&& transaction.nonce == commit
            &&& transaction.message == without_tail(message)
            &&& recorded(view, files, without_tail(message), commit) is Ok
            &&& transaction.edits == recorded(view, files, without_tail(message), commit)->Ok_0.edits
        }),
{
}

/// The name of a tag does not begin like a reference, and the reference is
/// that name with as many beginnings before it as it has.
pub proof fn tags_are_named_without_their_place(reference: Seq<char>)
    ensures
        stripped(tag_of(reference), "refs/tags/"@) is None,
        tag_of("refs/tags/"@ + reference) == tag_of(reference),
        stripped(reference, "refs/tags/"@) is None ==> tag_of(reference) == reference,
    decreases reference.len(),
{
    let head = "refs/tags/"@;
    reveal_strlit("refs/tags/");
    let longer = head + reference;
    assert(longer.take(10) =~= head);
    assert(longer.skip(10) =~= reference);
    if stripped(reference, head) is Some {
        let rest = reference.skip(10);
        assert(stripped(reference, head) == Some(rest));
        tags_are_named_without_their_place(rest);
    }
}

// Names from directories

/// A project gets the name of its directory with a hyphen for each character
/// that names cannot have.
pub proof fn unsuitable_characters_become_hyphens(c: char)
    ensures
        '0' <= c <= '9' || 'a' <= c <= 'z' || 'A' <= c <= 'Z' || c == '-' || c == '_' ==> name_character(c) == c,
        !('0' <= c <= '9' || 'a' <= c <= 'z' || 'A' <= c <= 'Z' || c == '-' || c == '_') ==> name_character(c) == '-',
{
}

/// The name of an imported project does not end like that of a repository, and
/// nothing but such endings is cut.
pub proof fn repository_endings_are_cut(name: Seq<char>)
    ensures
        without_git(name + ".git"@) == without_git(name),
        !(name.len() >= 4 && name.skip(name.len() - 4) == ".git"@) ==> without_git(name) == name,
        ({
            let cut = without_git(name);
            !(cut.len() >= 4 && cut.skip(cut.len() - 4) == ".git"@)
        }),
    decreases name.len(),
{
    reveal_strlit(".git");
    let longer = name + ".git"@;
    assert(longer.skip(longer.len() - 4) =~= ".git"@);
    assert(longer.take(longer.len() - 4) =~= name);
    if name.len() >= 4 && name.skip(name.len() - 4) == ".git"@ {
        repository_endings_are_cut(name.take(name.len() - 4));
    }
}

/// A path on the command line is refused if it starts at the root or goes up
/// anywhere.
pub proof fn arguments_stay_in_the_project(path: Seq<u8>, i: int)
    ensures
        path.len() > 0 && path[0] == 47 ==> argument_path(path) is Err,
        0 <= i < split(path, 47u8).len() && split(path, 47u8)[i] == seq![46u8, 46u8] ==> argument_path(path) is Err,
{
    if 0 <= i < split(path, 47u8).len() && split(path, 47u8)[i] == seq![46u8, 46u8] {
        assert(split(path, 47u8).contains(seq![46u8, 46u8]));
    }
}

/// A valid path on the command line is taken as it is.
pub proof fn valid_arguments_are_taken(path: Seq<char>)
    requires
        valid_path(path),
    ensures
        argument_path(native(path)) == Ok::<Seq<char>, ErrorV>(path),
{
    let list = parts(path).map_values(|part: Seq<char>| component(part)->Ok_0);
    let bytes = native(path);
    lemma_split(path, '/');
    assert forall|i: int| 0 <= i < list.len() implies allowed(#[trigger] list[i]) by {
        assert(component(parts(path)[i]) matches Ok(found) && allowed(found));
    }
    assert forall|i: int, j: int| 0 <= i < list.len() && 0 <= j < list[i].len() implies #[trigger] list[i][j] != 47 by {
        assert(allowed(list[i]));
        assert(list[i].contains(list[i][j]));
    }
    join_then_split(list, 47u8);
    assert(split(bytes, 47u8) == list);
    assert(!list.contains(seq![46u8, 46u8])) by {
        if list.contains(seq![46u8, 46u8]) {
            let i = choose|i: int| 0 <= i < list.len() && list[i] == seq![46u8, 46u8];
            assert(allowed(list[i]));
        }
    }
    lemma_all_parts_kept(list);
    split_then_join(bytes, 47u8);
    assert(allowed(list[0]));
    lemma_rejoin_starts(list, 47u8);
    assert(list[0].contains(list[0][0]));
    valid_paths_survive(path);
}

proof fn lemma_all_parts_kept(list: Seq<Seq<u8>>)
    requires
        forall|i: int| 0 <= i < list.len() ==> allowed(#[trigger] list[i]),
    ensures
        list.filter(|part: Seq<u8>| leading(part)) == list,
    decreases list.len(),
{
    reveal(Seq::filter);
    if list.len() > 0 {
        lemma_all_parts_kept(list.drop_last());
        assert(allowed(list[list.len() - 1]));
        assert(list =~= list.drop_last().push(list.last()));
    }
}

proof fn lemma_rejoin_starts(list: Seq<Seq<u8>>, separator: u8)
    requires
        list.len() > 0,
        list[0].len() > 0,
    ensures
        rejoin(list, separator).len() > 0,
        rejoin(list, separator)[0] == list[0][0],
    decreases list.len(),
{
    if list.len() > 1 {
        lemma_rejoin_starts(list.drop_last(), separator);
    }
}

// Lines and tree entries

/// What is left of a text after a beginning is what makes the text with it.
pub proof fn beginnings_are_taken_off(text: Seq<char>, head: Seq<char>, rest: Seq<char>)
    ensures
        stripped(text, head) == Some(rest) <==> text == head + rest,
{
    if text == head + rest {
        assert(text.take(head.len() as int) =~= head);
        assert(text.skip(head.len() as int) =~= rest);
    }
    if stripped(text, head) == Some(rest) {
        assert(text =~= head + rest);
    }
}

proof fn lemma_split_first(line: Seq<char>, rest: Seq<char>)
    requires
        !line.contains('\n'),
    ensures
        split(line, '\n') == seq![line],
        split(line + seq!['\n'] + rest, '\n') == seq![line] + split(rest, '\n'),
    decreases line.len() + rest.len(),
{
    lemma_split_alone(line);
    let text = line + seq!['\n'] + rest;
    if rest.len() == 0 {
        assert(text.drop_last() =~= line);
        assert(text.last() == '\n');
        assert(split(text, '\n') =~= seq![line] + split(rest, '\n'));
    } else {
        let head = rest.drop_last();
        lemma_split_first(line, head);
        assert(text.drop_last() =~= line + seq!['\n'] + head);
        assert(text.last() == rest.last());
        lemma_split(head, '\n');
        let inner = split(head, '\n');
        let outer = split(text.drop_last(), '\n');
        assert(outer == seq![line] + inner);
        if rest.last() == '\n' {
            assert(outer.push(Seq::empty()) =~= seq![line] + inner.push(Seq::empty()));
        } else {
            assert(outer.update(outer.len() - 1, outer.last().push(rest.last())) =~= seq![line] + inner.update(
                inner.len() - 1,
                inner.last().push(rest.last()),
            ));
        }
    }
}

proof fn lemma_split_alone(line: Seq<char>)
    requires
        !line.contains('\n'),
    ensures
        split(line, '\n') == seq![line],
    decreases line.len(),
{
    if line.len() > 0 {
        let head = line.drop_last();
        assert(line.contains(line.last())) by {
            assert(line[line.len() - 1] == line.last());
        }
        assert(!head.contains('\n')) by {
            if head.contains('\n') {
                let i = choose|i: int| 0 <= i < head.len() && head[i] == '\n';
                assert(line[i] == '\n');
            }
        }
        lemma_split_alone(head);
        assert(head.push(line.last()) =~= line);
        assert(split(line, '\n') =~= seq![line]);
    } else {
        assert(line =~= Seq::<char>::empty());
    }
}

/// The lines of a text are what stands between line feeds. The last one needs
/// none after it, and counts only if it has something in it.
pub proof fn lines_end_with_line_feeds(line: Seq<char>, rest: Seq<char>)
    requires
        !line.contains('\n'),
    ensures
        lines(Seq::empty()) == Seq::<Seq<char>>::empty(),
        line.len() > 0 ==> lines(line) == seq![line],
        lines(line + seq!['\n'] + rest) == seq![line] + lines(rest),
{
    lemma_split_first(line, rest);
    lemma_split(rest, '\n');
    let inner = split(rest, '\n');
    let all = seq![line] + inner;
    assert(all.last() == inner.last());
    assert(all.drop_last() =~= seq![line] + inner.drop_last());
    assert(seq![Seq::<char>::empty()].drop_last() =~= Seq::<Seq<char>>::empty());
}

/// The roots of several commits together are the roots of each.
pub proof fn joined_commits_have_all_roots(
    roots: Map<Seq<char>, Set<Seq<char>>>,
    parents: Seq<Seq<char>>,
    id: Seq<char>,
)
    ensures
        roots_together(roots, parents).contains(id) <==> exists|parent: Seq<char>| #[trigger]
            parents.contains(parent) && roots[parent].contains(id),
{
    if roots_together(roots, parents).contains(id) {
        let i = choose|i: int| 0 <= i < parents.len() && #[trigger] roots[parents[i]].contains(id);
        assert(parents.contains(parents[i]));
    }
    if exists|parent: Seq<char>| #[trigger] parents.contains(parent) && roots[parent].contains(id) {
        let parent = choose|parent: Seq<char>| #[trigger] parents.contains(parent) && roots[parent].contains(id);
        let i = choose|i: int| 0 <= i < parents.len() && parents[i] == parent;
        assert(roots[parents[i]].contains(id));
    }
}

/// A word: something without white space.
pub open spec fn is_word(text: Seq<char>) -> bool {
    text.len() > 0 && forall|i: int| 0 <= i < text.len() ==> !white_space(#[trigger] text[i])
}

proof fn lemma_word_added(text: Seq<char>, word: Seq<char>)
    requires
        is_word(word),
    ensures
        words(text.push(' ') + word) == words(text).push(word),
        text.len() == 0 ==> words(word) == seq![word],
    decreases word.len(),
{
    let spaced = text.push(' ');
    assert(spaced.drop_last() =~= text);
    assert(words(spaced) == words(text));
    let head = word.drop_last();
    let whole = spaced + word;
    assert(whole.drop_last() =~= spaced + head);
    assert(!white_space(word[word.len() - 1]));
    assert(whole.last() == word.last());
    if word.len() == 1 {
        assert(spaced + head =~= spaced);
        assert(word =~= seq![word.last()]);
        assert(whole[whole.len() - 2] == ' ');
        assert(head =~= Seq::<char>::empty());
        assert(words(head) =~= Seq::<Seq<char>>::empty());
        assert(words(word) =~= seq![word]);
    } else {
        assert forall|i: int| 0 <= i < head.len() implies !white_space(#[trigger] head[i]) by {
            assert(!white_space(word[i]));
        }
        lemma_word_added(text, head);
        assert(whole[whole.len() - 2] == word[word.len() - 2]);
        assert(!white_space(word[word.len() - 2]));
        let before_it = words(spaced + head);
        assert(before_it == words(text).push(head));
        assert(head.push(word.last()) =~= word);
        assert(words(whole) =~= words(text).push(word));
        if text.len() == 0 {
            assert(words(word) =~= seq![word]);
        }
    }
}

proof fn lemma_tab(head: Seq<u8>, rest: Seq<u8>)
    requires
        forall|i: int| 0 <= i < head.len() ==> #[trigger] head[i] != 9,
    ensures
        first_tab(head + seq![9u8] + rest) == head.len(),
    decreases head.len(),
{
    let entry = head + seq![9u8] + rest;
    if head.len() > 0 {
        assert(entry.drop_first() =~= head.drop_first() + seq![9u8] + rest);
        assert(entry[0] == head[0]);
        assert forall|i: int| 0 <= i < head.drop_first().len() implies #[trigger] head.drop_first()[i] != 9 by {
            assert(head[i + 1] != 9);
        }
        lemma_tab(head.drop_first(), rest);
    } else {
        assert(entry[0] == 9);
    }
}

/// How a tree lists a file: its mode, its kind, its identity and its size, each
/// after a space but the first, and a tab before its path.
pub open spec fn listed_file(mode: Seq<char>, id: Seq<char>, size: u64, path: Seq<char>) -> Seq<u8> {
    encode_utf8(mode + seq![' '] + "blob"@ + seq![' '] + id + seq![' '] + decimal(size as nat)) + seq![9u8] + native(path)
}

/// A file that a tree lists is read with its mode, its identity, its size and
/// its path.
pub proof fn listed_files_are_read(mode: Seq<char>, id: Seq<char>, size: u64, path: Seq<char>)
    requires
        is_word(mode),
        is_word(id),
        is_ascii_chars(mode),
        is_ascii_chars(id),
        valid_path(path),
    ensures
        tree_entry(listed_file(mode, id, size, path)) == Ok::<TreeEntryV, ErrorV>(
            TreeEntryV { mode, id, size, path },
        ),
{
    let digits = decimal(size as nat);
    let text = mode + seq![' '] + "blob"@ + seq![' '] + id + seq![' '] + digits;
    let head = encode_utf8(text);
    let bytes = native(path);
    let entry = listed_file(mode, id, size, path);
    reveal_strlit("blob");
    decimal_round_trip(size as nat);
    assert forall|i: int| 0 <= i < digits.len() implies !white_space(#[trigger] digits[i]) && '0' <= digits[i] <= '9' by {
        assert(crate::text::digit(digits[i]));
    }
    lemma_word_added(Seq::empty(), mode);
    lemma_word_added(mode, "blob"@);
    lemma_word_added(mode.push(' ') + "blob"@, id);
    lemma_word_added(mode.push(' ') + "blob"@ + seq![' '] + id, digits);
    assert((mode.push(' ') + "blob"@).push(' ') + id =~= mode.push(' ') + "blob"@ + seq![' '] + id);
    assert((mode.push(' ') + "blob"@ + seq![' '] + id).push(' ') + digits =~= text);
    let header = words(text);
    assert(header == seq![mode].push("blob"@).push(id).push(digits));
    assert(is_ascii_chars(text)) by {
        assert forall|i: int| 0 <= i < text.len() implies '\0' <= #[trigger] text[i] <= '\u{7f}' by {
            lemma_letter(mode, id, digits, i);
        }
    }
    is_ascii_chars_encode_utf8(text);
    encode_utf8_valid_utf8(text);
    encode_utf8_decode_utf8(text);
    assert forall|i: int| 0 <= i < head.len() implies #[trigger] head[i] != 9 by {
        lemma_letter(mode, id, digits, i);
        assert(head[i] as char == text[i]);
    }
    lemma_tab(head, bytes);
    assert(entry.take(head.len() as int) =~= head);
    assert(entry.skip(head.len() as int + 1) =~= bytes);
    valid_paths_survive(path);
    accepted_paths_are_valid(path);
}

proof fn lemma_letter(mode: Seq<char>, id: Seq<char>, digits: Seq<char>, i: int)
    requires
        is_word(mode),
        is_word(id),
        is_ascii_chars(mode),
        is_ascii_chars(id),
        forall|k: int| 0 <= k < digits.len() ==> '0' <= #[trigger] digits[k] <= '9',
        0 <= i < (mode + seq![' '] + "blob"@ + seq![' '] + id + seq![' '] + digits).len(),
    ensures
        ({
            let c = (mode + seq![' '] + "blob"@ + seq![' '] + id + seq![' '] + digits)[i];
            '\0' <= c <= '\u{7f}' && c != '\t'
        }),
{
    reveal_strlit("blob");
    let text = mode + seq![' '] + "blob"@ + seq![' '] + id + seq![' '] + digits;
    let a = mode.len() as int;
    let b = a + 6 + id.len();
    if i < a {
        assert(text[i] == mode[i]);
        assert(!white_space(mode[i]));
    } else if i < a + 6 {
        assert("blob"@ =~= seq!['b', 'l', 'o', 'b']);
        assert(i == a || i == a + 1 || i == a + 2 || i == a + 3 || i == a + 4 || i == a + 5);
    } else if i < b {
        assert(text[i] == id[i - a - 6]);
        assert(!white_space(id[i - a - 6]));
    } else if i == b {
        assert(text[i] == ' ');
    } else {
        assert(text[i] == digits[i - b - 1]);
    }
}

/// What a tree lists is a file only if it says so, in four words before the
/// tab. Anything else is refused.
pub proof fn only_files_are_listed(entry: Seq<u8>)
    requires
        tree_entry(entry) is Ok,
    ensures
        ({
            let tab = first_tab(entry);
            let header = words(decode_utf8(entry.take(tab)));
            &&& 0 <= tab < entry.len() && entry[tab] == 9
            &&& header.len() == 4
            &&& header[1] == "blob"@
            &&& tree_entry(entry)->Ok_0.mode == header[0]
            &&& tree_entry(entry)->Ok_0.id == header[2]
            &&& path_check(tree_entry(entry)->Ok_0.path) is Ok
        }),
{
    lemma_first_tab(entry);
}

proof fn lemma_first_tab(entry: Seq<u8>)
    ensures
        0 <= first_tab(entry) <= entry.len(),
        first_tab(entry) < entry.len() ==> entry[first_tab(entry)] == 9,
    decreases entry.len(),
{
    if entry.len() > 0 && entry[0] != 9 {
        lemma_first_tab(entry.drop_first());
    }
}

/// A commit can be imported if and only if it could be made, and has at most
/// 2 MiB with the place that it came from.
pub proof fn commits_that_fit_are_imported(
    view: ViewV,
    files: Map<Seq<char>, FileEntryV>,
    message: Seq<char>,
    commit: Seq<char>,
    origin: FileEntryV,
)
    ensures
        imported(view, files, message, commit, origin) is Ok <==> {
            &&& recorded(view, files, without_tail(message), commit) is Ok
            &&& encode_utf8(
                Transaction::json_of(
                    (TransactionV {
                        format: 2,
                        provenance: Some(origin),
                        ..recorded(view, files, without_tail(message), commit)->Ok_0
                    }),
                ),
            ).len() <= 2_097_152
        },
{
}

/// A number is read of decimal digits, of which a plus may come first. It is
/// read only if it fits.
pub proof fn numbers_are_read_of_digits(text: Seq<char>)
    ensures
        read_decimal(text) is Some ==> text.len() > 0 && ('0' <= text[0] <= '9' || text[0] == '+' && text.len() > 1),
        read_decimal(text) is Some ==> forall|i: int| 0 < i < text.len() ==> '0' <= #[trigger] text[i] <= '9',
        read_decimal(text) is Some && text[0] != '+' ==> read_decimal(seq!['+'] + text) == read_decimal(text),
{
    if read_decimal(text) is Some {
        let digits = if text[0] == '+' {
            text.skip(1)
        } else {
            text
        };
        assert(crate::text::digit(digits[0]));
        assert forall|i: int| 0 < i < text.len() implies '0' <= #[trigger] text[i] <= '9' by {
            if text[0] == '+' {
                assert(crate::text::digit(digits[i - 1]));
            } else {
                assert(crate::text::digit(digits[i]));
            }
        }
        assert((seq!['+'] + text).skip(1) =~= text);
    }
}

/// On the command line, a path of nothing but dots and slashes is the project
/// itself, unless it goes up or starts at the root.
pub proof fn dots_are_the_project_itself(path: Seq<u8>)
    requires
        path.len() > 0,
        path[0] != 47,
        forall|i: int|
            0 <= i < split(path, 47u8).len() ==> (#[trigger] split(path, 47u8)[i]).len() == 0 || split(path, 47u8)[i]
                == seq![46u8],
    ensures
        argument_path(path) == Ok::<Seq<char>, ErrorV>("."@),
{
    let list = split(path, 47u8);
    assert(!list.contains(seq![46u8, 46u8])) by {
        if list.contains(seq![46u8, 46u8]) {
            let i = choose|i: int| 0 <= i < list.len() && list[i] == seq![46u8, 46u8];
            assert(list[i].len() == 2);
            assert(seq![46u8].len() == 1);
        }
    }
    lemma_no_parts_kept(list);
}

proof fn lemma_no_parts_kept(list: Seq<Seq<u8>>)
    requires
        forall|i: int| 0 <= i < list.len() ==> (#[trigger] list[i]).len() == 0 || list[i] == seq![46u8],
    ensures
        list.filter(|part: Seq<u8>| leading(part)).len() == 0,
    decreases list.len(),
{
    reveal(Seq::filter);
    if list.len() > 0 {
        lemma_no_parts_kept(list.drop_last());
        assert(list[list.len() - 1].len() == 0 || list[list.len() - 1] == seq![46u8]);
    }
}

// Showing paths

proof fn lemma_join_slashes(list: Seq<Seq<char>>)
    ensures
        join(list, seq!['/']) == rejoin(list, '/'),
    decreases list.len(),
{
    if list.len() > 1 {
        lemma_join_slashes(list.drop_last());
        assert(rejoin(list.drop_last(), '/').push('/') =~= rejoin(list.drop_last(), '/') + seq!['/']);
    }
}

/// A path that is text without control characters is shown as it is.
pub proof fn plain_paths_are_shown_as_they_are(path: Seq<char>)
    requires
        forall|i: int| 0 <= i < path.len() ==> !control(#[trigger] path[i]),
    ensures
        shown(path) == path,
{
    let list = parts(path);
    lemma_parts_are_taken_from(path);
    let shown_list = list.map_values(|part: Seq<char>| shown_part(part));
    assert forall|i: int| 0 <= i < list.len() implies #[trigger] shown_list[i] == list[i] by {
        let part = list[i];
        assert forall|j: int| 0 <= j < part.len() implies !control(#[trigger] part[j]) by {
            assert(path.contains(list[i][j]));
            let k = choose|k: int| 0 <= k < path.len() && path[k] == list[i][j];
            assert(!control(path[k]));
        }
        shown_texts_have_no_control_characters(part);
        if part.len() > 0 {
            assert(!control(part[0]));
        }
    }
    assert(shown_list =~= list);
    lemma_join_slashes(list);
    split_then_join(path, '/');
}

proof fn lemma_parts_are_taken_from(path: Seq<char>)
    ensures
        forall|i: int, j: int|
            0 <= i < split(path, '/').len() && 0 <= j < split(path, '/')[i].len() ==> path.contains(
                #[trigger] split(path, '/')[i][j],
            ),
    decreases path.len(),
{
    if path.len() > 0 {
        let head = path.drop_last();
        lemma_parts_are_taken_from(head);
        lemma_split(head, '/');
        let earlier = split(head, '/');
        let all = split(path, '/');
        assert(path[path.len() - 1] == path.last());
        assert forall|i: int, j: int| 0 <= i < all.len() && 0 <= j < all[i].len() implies path.contains(
            #[trigger] all[i][j],
        ) by {
            if i < earlier.len() && j < earlier[i].len() {
                assert(all[i][j] == earlier[i][j]);
                assert(head.contains(earlier[i][j]));
                let k = choose|k: int| 0 <= k < head.len() && head[k] == earlier[i][j];
                assert(path[k] == head[k]);
            } else {
                assert(all[i][j] == path.last());
            }
        }
    }
}

/// Bytes that are no text are shown two digits for each, after a mark.
pub proof fn bytes_are_shown_in_hexadecimal(bytes: Seq<u8>, i: int)
    requires
        0 <= i < bytes.len(),
    ensures
        shown_bytes(bytes).len() == 4 * bytes.len(),
        shown_bytes(bytes).subrange(4 * i, 4 * i + 4) == seq!['\\', 'x'] + crate::encoding::hex(seq![bytes[i]]),
    decreases bytes.len(),
{
    let head = bytes.drop_last();
    let mark = seq![
        '\\',
        'x',
        crate::encoding::hex_digit(bytes.last() as int / 16),
        crate::encoding::hex_digit(bytes.last() as int % 16),
    ];
    if head.len() > 0 {
        bytes_are_shown_in_hexadecimal(head, 0);
    }
    assert(shown_bytes(bytes) == shown_bytes(head) + mark);
    if i < head.len() {
        bytes_are_shown_in_hexadecimal(head, i);
        assert(shown_bytes(bytes).subrange(4 * i, 4 * i + 4) =~= shown_bytes(head).subrange(4 * i, 4 * i + 4));
    } else {
        assert(shown_bytes(bytes).subrange(4 * i, 4 * i + 4) =~= mark);
        assert(mark =~= seq!['\\', 'x'] + crate::encoding::hex(seq![bytes[i]]));
    }
}

/// Whatever path is read is valid, and so is one from the command line, unless
/// it is the project itself.
pub proof fn what_is_read_as_a_path_is_valid(bytes: Seq<u8>)
    ensures
        read_path(bytes) is Ok ==> path_check(read_path(bytes)->Ok_0) is Ok,
        argument_path(bytes) is Ok ==> argument_path(bytes)->Ok_0 == "."@ || path_check(argument_path(bytes)->Ok_0) is Ok,
{
}

/// The place of a project is found only in an address that is accepted, and
/// ends with its name.
pub proof fn places_of_projects_are_accepted(value: Seq<char>)
    requires
        location_of(value) is Ok,
    ensures
        normal_url(url_parts(value)) is Ok,
        valid_name(location_of(value)->Ok_0.1),
        ({
            let found = location_parts((url_parts(normal_url(url_parts(value))->Ok_0)->0).path);
            found is Ok && found->Ok_0.1 == location_of(value)->Ok_0.1
        }),
{
}

} // verus!
