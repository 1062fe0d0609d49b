//! How numbers, texts and records are written down.
use vstd::prelude::*;
use vstd::utf8::*;

use crate::encoding::{be32, be64, decimal, hex};
use crate::git::{history_records, lines, words};
use crate::json::{escaped, escaped_text, json_list, quoted};
use crate::objects::{envelope, object_hash, valid_hash};
use crate::paths::{below, valid_path};
use crate::remote::{info_set, key_set};
use crate::selection::{covers, named, normal, normal_forms_keep_the_selection, selected, selects, trimmed, whole};
use crate::server::{all_files, trimmed_nodes};
use crate::storage::{pack_base, record_form};
use crate::text::{before, join, white_space};
use crate::transactions::{placement, saved_json};
use crate::transfer::{framed, Info, Key, KeyV, Object, ObjectV};

verus! {

// Numbers

/// The digits of hexadecimal are those of decimal, and the letters from a to f
/// in lower case. The high half of a byte comes first.
pub proof fn bytes_are_written_high_half_first(bytes: Seq<u8>, i: int)
    requires
        0 <= i < bytes.len(),
    ensures
        hex(bytes).len() == 2 * bytes.len(),
        ({
            let high = bytes[i] as int / 16;
            let low = bytes[i] as int % 16;
            &&& high < 10 ==> hex(bytes)[2 * i] as int == '0' as int + high
            &&& high >= 10 ==> hex(bytes)[2 * i] as int == 'a' as int + high - 10
            &&& low < 10 ==> hex(bytes)[2 * i + 1] as int == '0' as int + low
            &&& low >= 10 ==> hex(bytes)[2 * i + 1] as int == 'a' as int + low - 10
        }),
{
    assert((2 * i) / 2 == i);
    assert((2 * i + 1) / 2 == i);
}

/// Numbers in records have their highest byte first.
pub proof fn numbers_are_written_highest_byte_first(n: u32, m: u64)
    ensures
        be32(n).len() == 4,
        be32(n)[0] * 0x100_0000 + be32(n)[1] * 0x1_0000 + be32(n)[2] * 0x100 + be32(n)[3] == n,
        be64(m).len() == 8,
        be64(m)[0] * 0x100_0000_0000_0000 + be64(m)[1] * 0x1_0000_0000_0000 + be64(m)[2] * 0x100_0000_0000 + be64(m)[3]
            * 0x1_0000_0000 + be64(m)[4] * 0x100_0000 + be64(m)[5] * 0x1_0000 + be64(m)[6] * 0x100 + be64(m)[7] == m,
{
    crate::encoding::be32_round_trip(n);
    let high = (m / 0x1_0000_0000) as u32;
    let low = (m % 0x1_0000_0000) as u32;
    crate::encoding::be32_round_trip(high);
    crate::encoding::be32_round_trip(low);
    assert(m == high * 0x1_0000_0000 + low);
    assert(be64(m) == be32(high) + be32(low));
}

/// A number in decimal has a digit for each power of ten, and no zero in front.
pub proof fn numbers_are_written_in_decimal(n: nat, last: nat)
    requires
        last < 10,
    ensures
        decimal(last).len() == 1,
        decimal(last)[0] as int == '0' as int + last,
        n > 0 ==> decimal(10 * n + last) == decimal(n) + decimal(last),
{
    if n > 0 {
        let m: nat = 10 * n + last;
        assert(m / 10 == n);
        assert(m % 10 == last);
        assert(decimal(m) =~= decimal(n) + decimal(last));
    }
}

// Texts

/// White space in ASCII is the space and the five control characters from the
/// tab to the carriage return.
pub proof fn ascii_white_space_is_told(c: char)
    requires
        c <= '\u{7f}',
    ensures
        white_space(c) <==> c == ' ' || c == '\t' || c == '\n' || c == '\u{b}' || c == '\u{c}' || c == '\r',
{
}

/// Texts are joined with the separator between each two, and none at the ends.
pub proof fn separators_come_between(list: Seq<Seq<char>>, last: Seq<char>, separator: Seq<char>)
    ensures
        join(Seq::empty(), separator) == Seq::<char>::empty(),
        join(seq![last], separator) == last,
        list.len() > 0 ==> join(list.push(last), separator) == join(list, separator) + separator + last,
{
    assert(list.push(last).drop_last() =~= list);
}

/// In JSON, a text stands between quotes, with what cannot stand there as it is
/// after a backslash. Everything else is as it is.
pub proof fn texts_are_quoted(text: Seq<char>, c: char)
    ensures
        quoted(text).len() >= 2 && quoted(text)[0] == '"' && quoted(text).last() == '"',
        c != '"' && c != '\\' && c > '\u{1f}' ==> escaped(c) == seq![c],
        c == '"' || c == '\\' || c <= '\u{1f}' ==> escaped(c).len() >= 2 && escaped(c)[0] == '\\',
        escaped('"') == seq!['\\', '"'],
        escaped('\\') == seq!['\\', '\\'],
        escaped('\n') == seq!['\\', 'n'],
        escaped('\t') == seq!['\\', 't'],
        escaped('\r') == seq!['\\', 'r'],
        escaped_text(text.push(c)) == escaped_text(text) + escaped(c),
        escaped_text(Seq::empty()) == Seq::<char>::empty(),
        quoted(text) == seq!['"'] + escaped_text(text) + seq!['"'],
{
    assert(text.push(c).drop_last() =~= text);
}

// Records

/// The identity of an object is the hash of its kind, its length and its
/// content.
pub proof fn identities_cover_kind_and_length(kind: Seq<char>, bytes: Seq<u8>)
    ensures
        envelope(kind, bytes) == encode_utf8("kelp/0\0"@ + kind + "\0"@ + decimal(bytes.len()) + "\0"@) + bytes,
        object_hash(kind, bytes) == hex(crate::objects::sha256_digest(envelope(kind, bytes))),
{
}

/// A batch begins with its mark. Of each object it has a byte for its kind, its
/// hash, its length and its content.
pub proof fn batches_are_marked(object: ObjectV)
    requires
        framed(seq![object]) is Ok,
    ensures
        ({
            let raw = framed(seq![object])->Ok_0;
            &&& raw.len() == 73 + object.bytes.len()
            &&& raw.take(4) == seq![75u8, 76u8, 80u8, 49u8]
            &&& raw[4] == (if object.key.kind == "blob"@ {
                0u8
            } else {
                1u8
            })
            &&& raw.subrange(5, 69) == encode_utf8(object.key.id)
            &&& raw.subrange(69, 73) == be32(object.bytes.len() as u32)
            &&& raw.skip(73) == object.bytes
        }),
{
    let list = seq![object];
    crate::guarantees::exchanging::batches_hold_what_fits(list);
    let keys = crate::transfer::keys_of_objects(list);
    crate::guarantees::exchanging::requests_name_each_object_once(keys);
    assert(keys[0] == object.key);
    assert(valid_hash(object.key.id));
    assert(is_ascii_chars(object.key.id)) by {
        assert forall|i: int| 0 <= i < object.key.id.len() implies '\0' <= #[trigger] object.key.id[i] <= '\u{7f}' by {
            assert(crate::text::lower_hex(object.key.id[i]));
        }
    }
    is_ascii_chars_encode_utf8(object.key.id);
    let raw = framed(list)->Ok_0;
    let record = crate::transfer::object_record(object);
    reveal_with_fuel(crate::transfer::framed_from, 3);
    assert(list[0] == object);
    assert(raw == crate::transfer::batch_header() + record);
    assert(raw.take(4) =~= seq![75u8, 76u8, 80u8, 49u8]);
    assert(raw.subrange(5, 69) =~= encode_utf8(object.key.id));
    assert(raw.subrange(69, 73) =~= be32(object.bytes.len() as u32));
    assert(raw.skip(73) =~= object.bytes);
}

/// A record that is compressed begins with its mark and the length of what it
/// keeps.
pub proof fn records_are_marked(bytes: Seq<u8>, compressed: Seq<u8>)
    requires
        compressed.len() + 12 < bytes.len(),
    ensures
        ({
            let record = record_form(bytes, compressed);
            &&& record.take(4) == seq![75u8, 90u8, 48u8, 49u8]
            &&& record.subrange(4, 12) == be64(bytes.len() as u64)
            &&& record.skip(12) == compressed
        }),
{
    crate::encoding::be64_round_trip(bytes.len() as u64);
    let record = record_form(bytes, compressed);
    assert(record.take(4) =~= seq![75u8, 90u8, 48u8, 49u8]);
    assert(record.subrange(4, 12) =~= be64(bytes.len() as u64));
    assert(record.skip(12) =~= compressed);
}

/// A pack of differences begins with its mark, the length of what they differ
/// from, and that.
pub proof fn packs_of_differences_are_marked(base: Seq<u8>, rest: Seq<u8>)
    requires
        base.len() <= u32::MAX,
    ensures
        pack_base(seq![75u8, 68u8, 80u8, 49u8] + be32(base.len() as u32) + base + rest) == Ok::<
            Seq<u8>,
            crate::error::ErrorV,
        >(base),
{
    crate::encoding::be32_round_trip(base.len() as u32);
    let pack = seq![75u8, 68u8, 80u8, 49u8] + be32(base.len() as u32) + base + rest;
    assert(pack.take(4) =~= seq![75u8, 68u8, 80u8, 49u8]);
    assert(pack.subrange(4, 8) =~= be32(base.len() as u32));
    assert(pack.subrange(8, 8 + base.len() as int) =~= base);
}

/// Objects are placed on one of the nodes.
pub proof fn objects_are_placed_on_a_node(project: Seq<char>, kind: Seq<char>, id: Seq<char>, nodes: int)
    requires
        nodes > 0,
    ensures
        0 <= placement(project, kind, id, nodes) < nodes,
        nodes == 1 ==> placement(project, kind, id, nodes) == 0,
{
}

/// A saved view without a selection is written without one.
pub proof fn selections_are_written_where_there_are_some(
    format: u32,
    snapshot: Seq<char>,
    roots: Set<Seq<char>>,
    paths: Seq<Seq<char>>,
)
    ensures
        paths.len() > 0 ==> saved_json(format, snapshot, roots, paths).len() > saved_json(
            format,
            snapshot,
            roots,
            Seq::empty(),
        ).len(),
{
    let part = ",\"paths\":"@ + json_list(paths);
    reveal_strlit(",\"paths\":");
    assert(part.len() > 0);
}

// Lists

/// The records of a history are the words of each of its lines.
pub proof fn history_is_read_by_lines(text: Seq<char>, i: int)
    requires
        0 <= i < lines(text).len(),
    ensures
        history_records(text).len() == lines(text).len(),
        history_records(text)[i] == words(lines(text)[i]),
{
}

/// The keys and the answers that came are those in their lists.
pub proof fn lists_hold_their_keys(keys: Seq<Key>, infos: Seq<Info>, key: KeyV)
    ensures
        key_set(keys).contains(key) <==> exists|i: int| 0 <= i < keys.len() && (#[trigger] keys[i])@ == key,
        info_set(infos).contains(key) <==> exists|i: int| 0 <= i < infos.len() && (#[trigger] infos[i]).object@ == key,
{
}

/// Uploads are of blobs alone.
pub proof fn uploads_are_blobs(objects: Seq<Object>)
    ensures
        all_files(objects) <==> !exists|i: int| 0 <= i < objects.len() && (#[trigger] objects[i])@.key.kind != "blob"@,
{
}

/// Slashes at the end of a node's address do not count.
pub proof fn addresses_of_nodes_are_trimmed(nodes: Seq<Seq<char>>, i: int)
    requires
        0 <= i < nodes.len(),
    ensures
        trimmed_nodes(nodes).len() == nodes.len(),
        trimmed_nodes(nodes)[i] == trimmed(nodes[i]),
{
}

/// A selection of valid paths holds a file if and only if one of them is the
/// file or lies above it, whatever else is listed. A dot among them selects
/// everything.
pub proof fn normal_selections_hold_what_was_asked_for(paths: Seq<Seq<char>>, path: Seq<char>)
    requires
        paths.len() > 0,
    ensures
        (forall|i: int| 0 <= i < paths.len() ==> valid_path(#[trigger] paths[i])) ==> normal(paths) is Ok && (selects(
            normal(paths)->Ok_0,
            path,
        ) <==> exists|i: int| 0 <= i < paths.len() && (#[trigger] paths[i] == path || below(path, paths[i]))),
        normal(paths) is Ok && paths.contains(seq!['.']) ==> normal(paths)->Ok_0.len() == 0,
{
    crate::guarantees::naming::selections_are_put_in_order(paths);
    if forall|i: int| 0 <= i < paths.len() ==> valid_path(#[trigger] paths[i]) {
        assert forall|i: int| 0 <= i < paths.len() implies selected(#[trigger] paths[i]) == Ok::<
            Option<Seq<char>>,
            crate::error::ErrorV,
        >(Some(paths[i])) by {
            crate::guarantees::naming::paths_select_themselves(paths[i]);
        }
        assert(!whole(paths));
        normal_forms_keep_the_selection(paths, path);
        if exists|name: Seq<char>| #[trigger] named(paths).contains(name) && covers(name, path) {
            let name = choose|name: Seq<char>| #[trigger] named(paths).contains(name) && covers(name, path);
            let i = choose|i: int|
                0 <= i < paths.len() && selected(#[trigger] paths[i]) == Ok::<Option<Seq<char>>, crate::error::ErrorV>(
                    Some(name),
                );
            assert(paths[i] == path || below(path, paths[i]));
        }
        if exists|i: int| 0 <= i < paths.len() && (#[trigger] paths[i] == path || below(path, paths[i])) {
            let i = choose|i: int| 0 <= i < paths.len() && (#[trigger] paths[i] == path || below(path, paths[i]));
            assert(named(paths).contains(paths[i]));
            assert(covers(paths[i], path));
        }
    }
    if paths.contains(seq!['.']) {
        let i = choose|i: int| 0 <= i < paths.len() && paths[i] == seq!['.'];
        assert(selected(paths[i]) == Ok::<Option<Seq<char>>, crate::error::ErrorV>(None));
        assert(whole(paths));
    }
}

// Order

/// A text comes before another if it is the beginning of it, or has the lower
/// character where they first differ.
pub proof fn texts_are_ordered_by_characters(a: Seq<char>, b: Seq<char>)
    ensures
        before(a, b) <==> {
            ||| a.len() < b.len() && b.take(a.len() as int) == a
            ||| exists|i: int|
                #![trigger a[i]]
                0 <= i < a.len() && i < b.len() && a.take(i) == b.take(i) && a[i] < b[i]
        },
    decreases a.len(),
{
    if a.len() > 0 && b.len() > 0 {
        let p = a.drop_first();
        let q = b.drop_first();
        if a[0] == b[0] {
            texts_are_ordered_by_characters(p, q);
            assert(a.len() < b.len() && b.take(a.len() as int) == a <==> p.len() < q.len() && q.take(p.len() as int) == p)
                by {
                if a.len() < b.len() && b.take(a.len() as int) == a {
                    assert(q.take(p.len() as int) =~= b.take(a.len() as int).drop_first());
                }
                if p.len() < q.len() && q.take(p.len() as int) == p {
                    assert(b.take(a.len() as int) =~= seq![b[0]] + q.take(p.len() as int));
                    assert(a =~= seq![a[0]] + p);
                }
            }
            if exists|i: int| #![trigger p[i]] 0 <= i < p.len() && i < q.len() && p.take(i) == q.take(i) && p[i] < q[i] {
                let i = choose|i: int|
                    #![trigger p[i]]
                    0 <= i < p.len() && i < q.len() && p.take(i) == q.take(i) && p[i] < q[i];
                assert(a.take(i + 1) =~= seq![a[0]] + p.take(i));
                assert(b.take(i + 1) =~= seq![b[0]] + q.take(i));
                assert(a[i + 1] < b[i + 1]);
            }
            if exists|i: int| #![trigger a[i]] 0 <= i < a.len() && i < b.len() && a.take(i) == b.take(i) && a[i] < b[i] {
                let i = choose|i: int|
                    #![trigger a[i]]
                    0 <= i < a.len() && i < b.len() && a.take(i) == b.take(i) && a[i] < b[i];
                assert(i > 0);
                assert(p.take(i - 1) =~= a.take(i).drop_first());
                assert(q.take(i - 1) =~= b.take(i).drop_first());
                assert(p[i - 1] == a[i] && q[i - 1] == b[i]);
            }
        } else {
            if a[0] < b[0] {
                assert(a.take(0) =~= b.take(0));
                assert(a[0] < b[0]);
            } else {
                if a.len() < b.len() && b.take(a.len() as int) == a {
                    assert(b.take(a.len() as int)[0] == b[0]);
                }
                if exists|i: int|
                    #![trigger a[i]]
                    0 <= i < a.len() && i < b.len() && a.take(i) == b.take(i) && a[i] < b[i] {
                    let i = choose|i: int|
                        #![trigger a[i]]
                        0 <= i < a.len() && i < b.len() && a.take(i) == b.take(i) && a[i] < b[i];
                    if i > 0 {
                        assert(a.take(i)[0] == a[0]);
                        assert(b.take(i)[0] == b[0]);
                    }
                }
            }
        }
    } else if b.len() > 0 {
        assert(b.take(0) =~= a);
    }
}

/// Beyond ASCII, eight characters are white space, and eleven in a row. No
/// others are.
pub proof fn other_white_space_is_told(c: char)
    requires
        c > '\u{7f}',
    ensures
        white_space(c) <==> {
            let n = c as int;
            n == 0x85 || n == 0xa0 || n == 0x1680 || 0x2000 <= n <= 0x200a || n == 0x2028 || n == 0x2029 || n == 0x202f || n
                == 0x205f || n == 0x3000
        },
{
}

/// Control characters in JSON have a letter after the backslash where there is
/// one for them, and otherwise four digits of hexadecimal after a u.
pub proof fn control_characters_are_escaped(c: char)
    requires
        c <= '\u{1f}',
    ensures
        c == '\u{8}' ==> escaped(c) == seq!['\\', 'b'],
        c == '\u{c}' ==> escaped(c) == seq!['\\', 'f'],
        c != '\u{8}' && c != '\u{c}' && c != '\t' && c != '\n' && c != '\r' ==> escaped(c) == seq![
            '\\',
            'u',
            '0',
            '0',
        ] + hex(seq![c as u8]),
{
    let n: int = c as int;
    assert(n <= 31);
    assert(escaped(c).len() == 6 ==> escaped(c) =~= seq!['\\', 'u', '0', '0'] + hex(seq![c as u8]));
}

} // verus!
