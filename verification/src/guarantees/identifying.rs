//! What differs has a different identity, unless the hash has the same value
//! for different bytes.
use vstd::prelude::*;
use vstd::utf8::*;

use crate::collections::{keys_of, lemma_ordered, ordered, TextMap, TextSet};
use crate::encoding::{decimal, decimal_round_trip, decimal_value};
use crate::graphs::state_id;
use crate::index::membership;
use crate::json::{json_list, member, quoted, quoted_texts_are_told_apart, Json};
use crate::objects::{snapshot_id, snapshot_json, EntryKind, FileEntry, FileEntryV};
use crate::pins::{pin_id, pin_json, PinV};
use crate::publication::is_collision;
use crate::text::{digit, join};
use crate::transactions::{saved_id, saved_json, transaction_id, Edit, EditV, Transaction, TransactionV};

verus! {

// Texts one after another

proof fn lemma_cut(head: Seq<char>, x: Seq<char>, y: Seq<char>)
    requires
        head + x == head + y,
    ensures
        x == y,
{
    assert(x =~= (head + x).skip(head.len() as int));
    assert(y =~= (head + y).skip(head.len() as int));
}

proof fn lemma_regroup(a: Seq<char>, b: Seq<char>, c: Seq<char>)
    ensures
        (a + b) + c == a + (b + c),
{
    assert((a + b) + c =~= a + (b + c));
}

proof fn lemma_numbers_apart(n: nat, m: nat, x: Seq<char>, y: Seq<char>)
    requires
        decimal(n) + x == decimal(m) + y,
        x.len() > 0,
        y.len() > 0,
        !digit(x[0]),
        !digit(y[0]),
    ensures
        n == m,
        x == y,
{
    let d = decimal(n);
    let e = decimal(m);
    decimal_round_trip(n);
    decimal_round_trip(m);
    let whole = d + x;
    if d.len() < e.len() {
        assert(whole[d.len() as int] == x[0]);
        assert((e + y)[d.len() as int] == e[d.len() as int]);
        assert(digit(e[d.len() as int]));
    } else if d.len() > e.len() {
        assert((e + y)[e.len() as int] == y[0]);
        assert(whole[e.len() as int] == d[e.len() as int]);
        assert(digit(d[e.len() as int]));
    }
    assert(d =~= whole.take(d.len() as int));
    assert(e =~= (e + y).take(e.len() as int));
    assert(decimal_value(d) == decimal_value(e));
    lemma_cut(d, x, y);
}

// Entries of files

/// What follows an entry's mode.
spec fn kind_part(kind: EntryKind) -> Seq<char> {
    if kind.regular() {
        Seq::empty()
    } else {
        ",\"kind\":\""@ + kind.label() + "\""@
    }
}

spec fn entry_tail(entry: FileEntryV, x: Seq<char>) -> Seq<char> {
    ",\"executable\":"@ + (bool::json_of(entry.executable) + (kind_part(entry.kind) + ("}"@ + x)))
}

proof fn lemma_entry_form(entry: FileEntryV, x: Seq<char>)
    ensures
        FileEntry::json_of(entry) + x == "{\"blob\":"@ + (quoted(entry.blob) + (",\"size\":"@ + (decimal(
            entry.size as nat,
        ) + entry_tail(entry, x)))),
{
    let a = "{\"blob\":"@;
    let b = quoted(entry.blob);
    let c = ",\"size\":"@;
    let d = decimal(entry.size as nat);
    let e = ",\"executable\":"@;
    let f = bool::json_of(entry.executable);
    let g = kind_part(entry.kind);
    let h = "}"@;
    assert(FileEntry::json_of(entry) == a + b + c + d + e + f + g + h);
    lemma_regroup(a + b + c + d + e + f + g, h, x);
    lemma_regroup(a + b + c + d + e + f, g, h + x);
    lemma_regroup(a + b + c + d + e, f, g + (h + x));
    lemma_regroup(a + b + c + d, e, f + (g + (h + x)));
    lemma_regroup(a + b + c, d, entry_tail(entry, x));
    lemma_regroup(a + b, c, d + entry_tail(entry, x));
    lemma_regroup(a, b, c + (d + entry_tail(entry, x)));
}

proof fn lemma_labels_apart(a: EntryKind, b: EntryKind, x: Seq<char>, y: Seq<char>)
    requires
        !a.regular(),
        !b.regular(),
        a.label() + ("\""@ + x) == b.label() + ("\""@ + y),
    ensures
        a == b,
        x == y,
{
    reveal_strlit("chunked");
    reveal_strlit("symlink");
    reveal_strlit("symlink-directory");
    reveal_strlit("\"");
    let s = a.label() + ("\""@ + x);
    let t = b.label() + ("\""@ + y);
    if a != b {
        assert(s[0] == a.label()[0] && t[0] == b.label()[0]);
        assert(a is Symlink ==> s[7] == '"');
        assert(b is Symlink ==> t[7] == '"');
        assert(a is SymlinkDirectory ==> s[7] == '-');
        assert(b is SymlinkDirectory ==> t[7] == '-');
    } else {
        lemma_cut(a.label(), "\""@ + x, "\""@ + y);
        lemma_cut("\""@, x, y);
    }
}

proof fn lemma_kinds_apart(a: EntryKind, b: EntryKind, x: Seq<char>, y: Seq<char>)
    requires
        kind_part(a) + ("}"@ + x) == kind_part(b) + ("}"@ + y),
    ensures
        a == b,
        x == y,
{
    reveal_strlit("}");
    reveal_strlit(",\"kind\":\"");
    let none = Seq::<char>::empty();
    let s = kind_part(a) + ("}"@ + x);
    let t = kind_part(b) + ("}"@ + y);
    let head = ",\"kind\":\""@;
    if a.regular() && b.regular() {
        assert(none + ("}"@ + x) =~= "}"@ + x);
        assert(none + ("}"@ + y) =~= "}"@ + y);
        lemma_cut("}"@, x, y);
    } else if a.regular() {
        assert(s[0] == '}');
        assert(t[0] == head[0]);
    } else if b.regular() {
        assert(t[0] == '}');
        assert(s[0] == head[0]);
    } else {
        lemma_regroup(head + a.label(), "\""@, "}"@ + x);
        lemma_regroup(head, a.label(), "\""@ + ("}"@ + x));
        lemma_regroup(head + b.label(), "\""@, "}"@ + y);
        lemma_regroup(head, b.label(), "\""@ + ("}"@ + y));
        lemma_cut(head, a.label() + ("\""@ + ("}"@ + x)), b.label() + ("\""@ + ("}"@ + y)));
        lemma_labels_apart(a, b, "}"@ + x, "}"@ + y);
        lemma_cut("}"@, x, y);
    }
}

proof fn lemma_modes_apart(a: bool, b: bool, x: Seq<char>, y: Seq<char>)
    requires
        bool::json_of(a) + x == bool::json_of(b) + y,
    ensures
        a == b,
        x == y,
{
    reveal_strlit("true");
    reveal_strlit("false");
    if a != b {
        assert((bool::json_of(a) + x)[0] == bool::json_of(a)[0]);
        assert((bool::json_of(b) + y)[0] == bool::json_of(b)[0]);
    }
    lemma_cut(bool::json_of(a), x, y);
}

proof fn lemma_entries_apart(a: FileEntryV, b: FileEntryV, x: Seq<char>, y: Seq<char>)
    requires
        FileEntry::json_of(a) + x == FileEntry::json_of(b) + y,
    ensures
        a == b,
        x == y,
{
    reveal_strlit(",\"executable\":");
    lemma_entry_form(a, x);
    lemma_entry_form(b, y);
    let size = ",\"size\":"@;
    let mode = ",\"executable\":"@;
    let u = size + (decimal(a.size as nat) + entry_tail(a, x));
    let v = size + (decimal(b.size as nat) + entry_tail(b, y));
    lemma_cut("{\"blob\":"@, quoted(a.blob) + u, quoted(b.blob) + v);
    quoted_texts_are_told_apart(a.blob, b.blob, u, v);
    lemma_cut(size, decimal(a.size as nat) + entry_tail(a, x), decimal(b.size as nat) + entry_tail(b, y));
    assert(entry_tail(a, x)[0] == ',');
    assert(entry_tail(b, y)[0] == ',');
    lemma_numbers_apart(a.size as nat, b.size as nat, entry_tail(a, x), entry_tail(b, y));
    let p = kind_part(a.kind) + ("}"@ + x);
    let q = kind_part(b.kind) + ("}"@ + y);
    lemma_cut(mode, bool::json_of(a.executable) + p, bool::json_of(b.executable) + q);
    lemma_modes_apart(a.executable, b.executable, p, q);
    lemma_kinds_apart(a.kind, b.kind, x, y);
}

proof fn lemma_values_apart(a: Option<FileEntryV>, b: Option<FileEntryV>, x: Seq<char>, y: Seq<char>)
    requires
        Option::<FileEntry>::json_of(a) + x == Option::<FileEntry>::json_of(b) + y,
    ensures
        a == b,
        x == y,
{
    reveal_strlit("null");
    reveal_strlit("{\"blob\":");
    match (a, b) {
        (Some(p), Some(q)) => {
            lemma_entries_apart(p, q, x, y);
        },
        (None, None) => {
            lemma_cut("null"@, x, y);
        },
        (Some(p), None) => {
            lemma_entry_form(p, x);
            assert((FileEntry::json_of(p) + x)[0] == '{');
            assert(("null"@ + y)[0] == 'n');
        },
        (None, Some(q)) => {
            lemma_entry_form(q, y);
            assert((FileEntry::json_of(q) + y)[0] == '{');
            assert(("null"@ + x)[0] == 'n');
        },
    }
}

// Lists

proof fn lemma_join_front(list: Seq<Seq<char>>)
    requires
        list.len() > 1,
    ensures
        join(list, ","@) == list[0] + (","@ + join(list.drop_first(), ","@)),
    decreases list.len(),
{
    let head = list.drop_last();
    let rest = list.drop_first();
    if list.len() == 2 {
        assert(head =~= seq![list[0]]);
        assert(rest =~= seq![list[1]]);
        assert(join(head, ","@) == list[0]);
        assert(join(rest, ","@) == list[1]);
        assert(join(list, ","@) == list[0] + ","@ + list[1]);
        lemma_regroup(list[0], ","@, list[1]);
    } else {
        lemma_join_front(head);
        assert(head.drop_first() =~= rest.drop_last());
        assert(head[0] == list[0]);
        assert(rest.last() == list.last());
        let inner = join(rest.drop_last(), ","@);
        assert(join(list, ","@) == join(head, ","@) + ","@ + list.last());
        assert(join(rest, ","@) == inner + ","@ + list.last());
        lemma_regroup(list[0], ","@ + inner, ","@);
        lemma_regroup(list[0], (","@ + inner) + ","@, list.last());
        lemma_regroup(","@, inner, ","@);
        lemma_regroup(","@, inner + ","@, list.last());
    }
}

/// Items that can be told from what follows them: none is empty, none begins
/// like the end of the list, and none is the beginning of another.
spec fn separable(a: Seq<Seq<char>>, b: Seq<Seq<char>>, end: char) -> bool {
    &&& forall|i: int| 0 <= i < a.len() ==> (#[trigger] a[i]).len() > 0 && a[i][0] != end
    &&& forall|i: int| 0 <= i < b.len() ==> (#[trigger] b[i]).len() > 0 && b[i][0] != end
    &&& forall|i: int, j: int, x: Seq<char>, y: Seq<char>|
        0 <= i < a.len() && 0 <= j < b.len() && #[trigger] (a[i] + x) == #[trigger] (b[j] + y) ==> a[i] == b[j]
}

proof fn lemma_rest_separable(a: Seq<Seq<char>>, b: Seq<Seq<char>>, end: char)
    requires
        separable(a, b, end),
        a.len() > 0,
        b.len() > 0,
    ensures
        separable(a.drop_first(), b.drop_first(), end),
{
    let p = a.drop_first();
    let q = b.drop_first();
    assert forall|i: int| 0 <= i < p.len() implies (#[trigger] p[i]).len() > 0 && p[i][0] != end by {
        assert(p[i] == a[i + 1]);
    }
    assert forall|i: int| 0 <= i < q.len() implies (#[trigger] q[i]).len() > 0 && q[i][0] != end by {
        assert(q[i] == b[i + 1]);
    }
    assert forall|i: int, j: int, x: Seq<char>, y: Seq<char>|
        0 <= i < p.len() && 0 <= j < q.len() && #[trigger] (p[i] + x) == #[trigger] (q[j] + y) implies p[i] == q[j] by {
        assert(p[i] == a[i + 1]);
        assert(q[j] == b[j + 1]);
        assert(a[i + 1] + x == b[j + 1] + y);
    }
}

/// What follows the first item of a list.
spec fn after_first(list: Seq<Seq<char>>, end: char, x: Seq<char>) -> Seq<char> {
    if list.len() == 1 {
        seq![end] + x
    } else {
        ","@ + (join(list.drop_first(), ","@) + (seq![end] + x))
    }
}

proof fn lemma_first_item(list: Seq<Seq<char>>, end: char, x: Seq<char>)
    requires
        list.len() > 0,
    ensures
        join(list, ","@) + (seq![end] + x) == list[0] + after_first(list, end, x),
{
    if list.len() > 1 {
        lemma_join_front(list);
        let rest = join(list.drop_first(), ","@);
        lemma_regroup(list[0], ","@ + rest, seq![end] + x);
        lemma_regroup(","@, rest, seq![end] + x);
    }
}

proof fn lemma_lists_apart(a: Seq<Seq<char>>, b: Seq<Seq<char>>, end: char, x: Seq<char>, y: Seq<char>)
    requires
        separable(a, b, end),
        end != ',',
        join(a, ","@) + (seq![end] + x) == join(b, ","@) + (seq![end] + y),
    ensures
        a == b,
        x == y,
    decreases a.len(),
{
    let none = Seq::<char>::empty();
    let u = seq![end] + x;
    let v = seq![end] + y;
    reveal_strlit(",");
    if a.len() == 0 && b.len() == 0 {
        assert(none + u =~= u);
        assert(none + v =~= v);
        lemma_cut(seq![end], x, y);
        assert(a =~= b);
    } else if a.len() == 0 {
        lemma_first_item(b, end, y);
        assert((none + u)[0] == end);
        assert((b[0] + after_first(b, end, y))[0] == b[0][0]);
    } else if b.len() == 0 {
        lemma_first_item(a, end, x);
        assert((none + v)[0] == end);
        assert((a[0] + after_first(a, end, x))[0] == a[0][0]);
    } else {
        lemma_first_item(a, end, x);
        lemma_first_item(b, end, y);
        assert(a[0] + after_first(a, end, x) == b[0] + after_first(b, end, y));
        assert(a[0] == b[0]);
        lemma_cut(a[0], after_first(a, end, x), after_first(b, end, y));
        let s = after_first(a, end, x);
        let t = after_first(b, end, y);
        assert(a.len() == 1 ==> s[0] == end);
        assert(a.len() > 1 ==> s[0] == ',');
        assert(b.len() == 1 ==> t[0] == end);
        assert(b.len() > 1 ==> t[0] == ',');
        if a.len() == 1 {
            lemma_cut(seq![end], x, y);
            assert(a =~= b);
        } else {
            lemma_cut(
                ","@,
                join(a.drop_first(), ","@) + (seq![end] + x),
                join(b.drop_first(), ","@) + (seq![end] + y),
            );
            lemma_rest_separable(a, b, end);
            lemma_lists_apart(a.drop_first(), b.drop_first(), end, x, y);
            assert(a =~= seq![a[0]] + a.drop_first());
            assert(b =~= seq![b[0]] + b.drop_first());
        }
    }
}

proof fn lemma_quoted_separable(a: Seq<Seq<char>>, b: Seq<Seq<char>>)
    ensures
        separable(
            a.map_values(|key: Seq<char>| quoted(key)),
            b.map_values(|key: Seq<char>| quoted(key)),
            ']',
        ),
{
    let p = a.map_values(|key: Seq<char>| quoted(key));
    let q = b.map_values(|key: Seq<char>| quoted(key));
    assert forall|i: int| 0 <= i < p.len() implies (#[trigger] p[i]).len() > 0 && p[i][0] != ']' by {
        assert(p[i] == quoted(a[i]));
    }
    assert forall|i: int| 0 <= i < q.len() implies (#[trigger] q[i]).len() > 0 && q[i][0] != ']' by {
        assert(q[i] == quoted(b[i]));
    }
    assert forall|i: int, j: int, x: Seq<char>, y: Seq<char>|
        0 <= i < p.len() && 0 <= j < q.len() && #[trigger] (p[i] + x) == #[trigger] (q[j] + y) implies p[i] == q[j] by {
        quoted_texts_are_told_apart(a[i], b[j], x, y);
    }
}

proof fn lemma_text_lists_apart(a: Seq<Seq<char>>, b: Seq<Seq<char>>, x: Seq<char>, y: Seq<char>)
    requires
        json_list(a) + x == json_list(b) + y,
    ensures
        a == b,
        x == y,
{
    let p = a.map_values(|key: Seq<char>| quoted(key));
    let q = b.map_values(|key: Seq<char>| quoted(key));
    reveal_strlit("]");
    assert("]"@ =~= seq![']']);
    lemma_quoted_separable(a, b);
    lemma_regroup("["@ + join(p, ","@), "]"@, x);
    lemma_regroup("["@, join(p, ","@), "]"@ + x);
    lemma_regroup("["@ + join(q, ","@), "]"@, y);
    lemma_regroup("["@, join(q, ","@), "]"@ + y);
    lemma_cut("["@, join(p, ","@) + ("]"@ + x), join(q, ","@) + ("]"@ + y));
    lemma_lists_apart(p, q, ']', x, y);
    let none = Seq::<char>::empty();
    assert(a.len() == p.len() && b.len() == q.len());
    assert forall|i: int| 0 <= i < a.len() implies a[i] == b[i] by {
        assert(p[i] == quoted(a[i]));
        assert(q[i] == quoted(b[i]));
        assert(quoted(a[i]) + none == quoted(b[i]) + none);
        quoted_texts_are_told_apart(a[i], b[i], none, none);
    }
    assert(a =~= b);
}

proof fn lemma_same_lists(a: Set<Seq<char>>, b: Set<Seq<char>>)
    requires
        a.finite(),
        b.finite(),
        ordered(a) == ordered(b),
    ensures
        a == b,
{
    lemma_ordered(a);
    lemma_ordered(b);
    assert forall|key: Seq<char>| #[trigger] a.contains(key) <==> b.contains(key) by {
        assert(a.contains(key) <==> ordered(a).contains(key));
    }
    assert(a =~= b);
}

proof fn lemma_sets_apart(a: Set<Seq<char>>, b: Set<Seq<char>>, x: Seq<char>, y: Seq<char>)
    requires
        a.finite(),
        b.finite(),
        TextSet::json_of(a) + x == TextSet::json_of(b) + y,
    ensures
        a == b,
        x == y,
{
    assert(TextSet::json_of(a) == json_list(ordered(a)));
    assert(TextSet::json_of(b) == json_list(ordered(b)));
    lemma_text_lists_apart(ordered(a), ordered(b), x, y);
    lemma_same_lists(a, b);
}

// Maps

/// What is written of the members of a map.
spec fn members_of<V>(map: Map<Seq<char>, V>, write: spec_fn(V) -> Seq<char>) -> Seq<Seq<char>> {
    keys_of(map).map_values(|key: Seq<char>| member(key, write(map[key])))
}

/// What is written of one value can be told from what is written of another.
spec fn legible<V>(a: Map<Seq<char>, V>, b: Map<Seq<char>, V>, write: spec_fn(V) -> Seq<char>) -> bool {
    forall|k: Seq<char>, l: Seq<char>, x: Seq<char>, y: Seq<char>|
        a.contains_key(k) && b.contains_key(l) && #[trigger] (write(a[k]) + x) == #[trigger] (write(b[l]) + y) ==> a[k]
            == b[l] && x == y
}

proof fn lemma_member_apart<V>(
    a: Map<Seq<char>, V>,
    b: Map<Seq<char>, V>,
    write: spec_fn(V) -> Seq<char>,
    k: Seq<char>,
    l: Seq<char>,
    x: Seq<char>,
    y: Seq<char>,
)
    requires
        legible(a, b, write),
        a.contains_key(k),
        b.contains_key(l),
        member(k, write(a[k])) + x == member(l, write(b[l])) + y,
    ensures
        k == l,
        a[k] == b[l],
        x == y,
{
    let u = write(a[k]);
    let v = write(b[l]);
    lemma_regroup(quoted(k) + ":"@, u, x);
    lemma_regroup(quoted(k), ":"@, u + x);
    lemma_regroup(quoted(l) + ":"@, v, y);
    lemma_regroup(quoted(l), ":"@, v + y);
    quoted_texts_are_told_apart(k, l, ":"@ + (u + x), ":"@ + (v + y));
    lemma_cut(":"@, u + x, v + y);
}

proof fn lemma_members_separable<V>(a: Map<Seq<char>, V>, b: Map<Seq<char>, V>, write: spec_fn(V) -> Seq<char>)
    requires
        legible(a, b, write),
        a.dom().finite(),
        b.dom().finite(),
    ensures
        separable(members_of(a, write), members_of(b, write), '}'),
{
    let p = members_of(a, write);
    let q = members_of(b, write);
    let k = keys_of(a);
    let l = keys_of(b);
    lemma_ordered(a.dom());
    lemma_ordered(b.dom());
    assert forall|i: int| 0 <= i < p.len() implies (#[trigger] p[i]).len() > 0 && p[i][0] != '}' by {
        assert(p[i] == member(k[i], write(a[k[i]])));
        assert(p[i][0] == quoted(k[i])[0]);
    }
    assert forall|i: int| 0 <= i < q.len() implies (#[trigger] q[i]).len() > 0 && q[i][0] != '}' by {
        assert(q[i] == member(l[i], write(b[l[i]])));
        assert(q[i][0] == quoted(l[i])[0]);
    }
    assert forall|i: int, j: int, x: Seq<char>, y: Seq<char>|
        0 <= i < p.len() && 0 <= j < q.len() && #[trigger] (p[i] + x) == #[trigger] (q[j] + y) implies p[i] == q[j] by {
        assert(k.contains(k[i]) && l.contains(l[j]));
        assert(a.dom().contains(k[i]) && b.dom().contains(l[j]));
        lemma_member_apart(a, b, write, k[i], l[j], x, y);
    }
}

proof fn lemma_maps_apart<V>(
    a: Map<Seq<char>, V>,
    b: Map<Seq<char>, V>,
    write: spec_fn(V) -> Seq<char>,
    x: Seq<char>,
    y: Seq<char>,
)
    requires
        legible(a, b, write),
        a.dom().finite(),
        b.dom().finite(),
        ("{"@ + join(members_of(a, write), ","@) + "}"@) + x == ("{"@ + join(members_of(b, write), ","@) + "}"@) + y,
    ensures
        a == b,
        x == y,
{
    let p = members_of(a, write);
    let q = members_of(b, write);
    let k = keys_of(a);
    let l = keys_of(b);
    reveal_strlit("}");
    assert("}"@ =~= seq!['}']);
    lemma_members_separable(a, b, write);
    lemma_regroup("{"@ + join(p, ","@), "}"@, x);
    lemma_regroup("{"@, join(p, ","@), "}"@ + x);
    lemma_regroup("{"@ + join(q, ","@), "}"@, y);
    lemma_regroup("{"@, join(q, ","@), "}"@ + y);
    lemma_cut("{"@, join(p, ","@) + ("}"@ + x), join(q, ","@) + ("}"@ + y));
    lemma_lists_apart(p, q, '}', x, y);
    lemma_ordered(a.dom());
    lemma_ordered(b.dom());
    let none = Seq::<char>::empty();
    assert(k.len() == p.len() && l.len() == q.len());
    assert forall|i: int| 0 <= i < k.len() implies k[i] == #[trigger] l[i] && a[k[i]] == b[l[i]] by {
        assert(p[i] == member(k[i], write(a[k[i]])));
        assert(q[i] == member(l[i], write(b[l[i]])));
        assert(k.contains(k[i]) && l.contains(l[i]));
        assert(a.dom().contains(k[i]) && b.dom().contains(l[i]));
        assert(member(k[i], write(a[k[i]])) + none == member(l[i], write(b[l[i]])) + none);
        lemma_member_apart(a, b, write, k[i], l[i], none, none);
    }
    assert(k =~= l);
    lemma_same_lists(a.dom(), b.dom());
    assert forall|key: Seq<char>| a.contains_key(key) implies #[trigger] a[key] == b[key] by {
        assert(a.dom().contains(key));
        assert(k.contains(key));
        let i = choose|i: int| 0 <= i < k.len() && k[i] == key;
        assert(k[i] == l[i] && a[k[i]] == b[l[i]]);
    }
    assert(a =~= b);
}

proof fn lemma_files_apart(
    a: Map<Seq<char>, FileEntryV>,
    b: Map<Seq<char>, FileEntryV>,
    x: Seq<char>,
    y: Seq<char>,
)
    requires
        a.dom().finite(),
        b.dom().finite(),
        TextMap::<FileEntry>::json_of(a) + x == TextMap::<FileEntry>::json_of(b) + y,
    ensures
        a == b,
        x == y,
{
    let write = |entry: FileEntryV| FileEntry::json_of(entry);
    assert(legible(a, b, write)) by {
        assert forall|k: Seq<char>, l: Seq<char>, u: Seq<char>, v: Seq<char>|
            a.contains_key(k) && b.contains_key(l) && #[trigger] (write(a[k]) + u) == #[trigger] (write(b[l])
                + v) implies a[k] == b[l] && u == v by {
            lemma_entries_apart(a[k], b[l], u, v);
        }
    }
    assert(keys_of(a).map_values(|key: Seq<char>| member(key, FileEntry::json_of(a[key]))) =~= members_of(a, write));
    assert(keys_of(b).map_values(|key: Seq<char>| member(key, FileEntry::json_of(b[key]))) =~= members_of(b, write));
    lemma_maps_apart(a, b, write, x, y);
}

// Edits and transactions

proof fn lemma_edit_form(edit: EditV, x: Seq<char>)
    ensures
        Edit::json_of(edit) + x == "{\"parents\":"@ + (TextSet::json_of(edit.parents) + (",\"value\":"@ + (Option::<
            FileEntry,
        >::json_of(edit.value) + ("}"@ + x)))),
{
    let a = "{\"parents\":"@;
    let b = TextSet::json_of(edit.parents);
    let c = ",\"value\":"@;
    let d = Option::<FileEntry>::json_of(edit.value);
    let e = "}"@;
    assert(Edit::json_of(edit) == a + b + c + d + e);
    lemma_regroup(a + b + c + d, e, x);
    lemma_regroup(a + b + c, d, e + x);
    lemma_regroup(a + b, c, d + (e + x));
    lemma_regroup(a, b, c + (d + (e + x)));
}

proof fn lemma_edits_apart(a: EditV, b: EditV, x: Seq<char>, y: Seq<char>)
    requires
        a.parents.finite(),
        b.parents.finite(),
        Edit::json_of(a) + x == Edit::json_of(b) + y,
    ensures
        a == b,
        x == y,
{
    lemma_edit_form(a, x);
    lemma_edit_form(b, y);
    let c = ",\"value\":"@;
    let p = Option::<FileEntry>::json_of(a.value) + ("}"@ + x);
    let q = Option::<FileEntry>::json_of(b.value) + ("}"@ + y);
    lemma_cut("{\"parents\":"@, TextSet::json_of(a.parents) + (c + p), TextSet::json_of(b.parents) + (c + q));
    lemma_sets_apart(a.parents, b.parents, c + p, c + q);
    lemma_cut(c, p, q);
    lemma_values_apart(a.value, b.value, "}"@ + x, "}"@ + y);
    lemma_cut("}"@, x, y);
}

proof fn lemma_edit_maps_apart(a: Map<Seq<char>, EditV>, b: Map<Seq<char>, EditV>, x: Seq<char>, y: Seq<char>)
    requires
        a.dom().finite(),
        b.dom().finite(),
        forall|path: Seq<char>| #[trigger] a.contains_key(path) ==> a[path].parents.finite(),
        forall|path: Seq<char>| #[trigger] b.contains_key(path) ==> b[path].parents.finite(),
        TextMap::<Edit>::json_of(a) + x == TextMap::<Edit>::json_of(b) + y,
    ensures
        a == b,
        x == y,
{
    let write = |edit: EditV| Edit::json_of(edit);
    assert(legible(a, b, write)) by {
        assert forall|k: Seq<char>, l: Seq<char>, u: Seq<char>, v: Seq<char>|
            a.contains_key(k) && b.contains_key(l) && #[trigger] (write(a[k]) + u) == #[trigger] (write(b[l])
                + v) implies a[k] == b[l] && u == v by {
            lemma_edits_apart(a[k], b[l], u, v);
        }
    }
    assert(keys_of(a).map_values(|key: Seq<char>| member(key, Edit::json_of(a[key]))) =~= members_of(a, write));
    assert(keys_of(b).map_values(|key: Seq<char>| member(key, Edit::json_of(b[key]))) =~= members_of(b, write));
    lemma_maps_apart(a, b, write, x, y);
}

/// Where a transaction came from, and its end.
spec fn origin_part(origin: Option<FileEntryV>) -> Seq<char> {
    (match origin {
        Some(entry) => ",\"provenance\":"@ + FileEntry::json_of(entry),
        None => Seq::empty(),
    }) + "}"@
}

spec fn after_format(transaction: TransactionV) -> Seq<char> {
    ",\"nonce\":"@ + (quoted(transaction.nonce) + (",\"message\":"@ + (quoted(transaction.message) + (
    ",\"edits\":"@ + (TextMap::<Edit>::json_of(transaction.edits) + origin_part(transaction.provenance))))))
}

proof fn lemma_transaction_form(transaction: TransactionV)
    ensures
        Transaction::json_of(transaction) == "{\"format\":"@ + (decimal(transaction.format as nat) + after_format(
            transaction,
        )),
{
    let a = "{\"format\":"@;
    let b = decimal(transaction.format as nat);
    let c = ",\"nonce\":"@;
    let d = quoted(transaction.nonce);
    let e = ",\"message\":"@;
    let f = quoted(transaction.message);
    let g = ",\"edits\":"@;
    let h = TextMap::<Edit>::json_of(transaction.edits);
    let i = match transaction.provenance {
        Some(entry) => ",\"provenance\":"@ + FileEntry::json_of(entry),
        None => Seq::empty(),
    };
    let j = "}"@;
    assert(Transaction::json_of(transaction) == a + b + c + d + e + f + g + h + i + j);
    lemma_regroup(a + b + c + d + e + f + g + h, i, j);
    let t = i + j;
    lemma_regroup(a + b + c + d + e + f + g, h, t);
    lemma_regroup(a + b + c + d + e + f, g, h + t);
    lemma_regroup(a + b + c + d + e, f, g + (h + t));
    lemma_regroup(a + b + c + d, e, f + (g + (h + t)));
    lemma_regroup(a + b + c, d, e + (f + (g + (h + t))));
    lemma_regroup(a + b, c, d + (e + (f + (g + (h + t)))));
    lemma_regroup(a, b, after_format(transaction));
}

proof fn lemma_origins_apart(a: Option<FileEntryV>, b: Option<FileEntryV>)
    requires
        origin_part(a) == origin_part(b),
    ensures
        a == b,
{
    let none = Seq::<char>::empty();
    let head = ",\"provenance\":"@;
    reveal_strlit("}");
    reveal_strlit(",\"provenance\":");
    match (a, b) {
        (Some(p), Some(q)) => {
            lemma_regroup(head, FileEntry::json_of(p), "}"@);
            lemma_regroup(head, FileEntry::json_of(q), "}"@);
            lemma_cut(head, FileEntry::json_of(p) + "}"@, FileEntry::json_of(q) + "}"@);
            lemma_entries_apart(p, q, "}"@, "}"@);
        },
        (None, None) => {},
        (Some(p), None) => {
            assert(origin_part(a)[0] == ',');
            assert(origin_part(b)[0] == '}');
        },
        (None, Some(q)) => {
            assert(origin_part(a)[0] == '}');
            assert(origin_part(b)[0] == ',');
        },
    }
}

/// A transaction of finitely many edits, each with finitely many parents.
pub open spec fn finite_edits(transaction: TransactionV) -> bool {
    &&& transaction.edits.dom().finite()
    &&& forall|path: Seq<char>| #[trigger]
        transaction.edits.contains_key(path) ==> transaction.edits[path].parents.finite()
}

/// Transactions that differ in anything are written differently: their format,
/// nonce or message, what they edit, what each edit replaces or writes, down to
/// the mode and the kind of a file, or where they came from.
pub proof fn transactions_are_told_apart(a: TransactionV, b: TransactionV)
    requires
        finite_edits(a),
        finite_edits(b),
        Transaction::json_of(a) == Transaction::json_of(b),
    ensures
        a == b,
{
    reveal_strlit(",\"nonce\":");
    lemma_transaction_form(a);
    lemma_transaction_form(b);
    lemma_cut(
        "{\"format\":"@,
        decimal(a.format as nat) + after_format(a),
        decimal(b.format as nat) + after_format(b),
    );
    assert(after_format(a)[0] == ',');
    assert(after_format(b)[0] == ',');
    lemma_numbers_apart(a.format as nat, b.format as nat, after_format(a), after_format(b));
    let p3 = TextMap::<Edit>::json_of(a.edits) + origin_part(a.provenance);
    let q3 = TextMap::<Edit>::json_of(b.edits) + origin_part(b.provenance);
    let p2 = quoted(a.message) + (",\"edits\":"@ + p3);
    let q2 = quoted(b.message) + (",\"edits\":"@ + q3);
    let p1 = quoted(a.nonce) + (",\"message\":"@ + p2);
    let q1 = quoted(b.nonce) + (",\"message\":"@ + q2);
    lemma_cut(",\"nonce\":"@, p1, q1);
    quoted_texts_are_told_apart(a.nonce, b.nonce, ",\"message\":"@ + p2, ",\"message\":"@ + q2);
    lemma_cut(",\"message\":"@, p2, q2);
    quoted_texts_are_told_apart(a.message, b.message, ",\"edits\":"@ + p3, ",\"edits\":"@ + q3);
    lemma_cut(",\"edits\":"@, p3, q3);
    lemma_edit_maps_apart(a.edits, b.edits, origin_part(a.provenance), origin_part(b.provenance));
    lemma_origins_apart(a.provenance, b.provenance);
}

proof fn lemma_identities(kind: Seq<char>, a: Seq<char>, b: Seq<char>)
    requires
        crate::objects::object_hash(kind, encode_utf8(a)) == crate::objects::object_hash(kind, encode_utf8(b)),
    ensures
        a == b || is_collision(kind, encode_utf8(a), encode_utf8(b)),
{
    encode_utf8_decode_utf8(a);
    encode_utf8_decode_utf8(b);
}

/// Transactions with one identity are one transaction, unless the hash has the
/// same value for different bytes.
pub proof fn identities_stand_for_one_transaction(a: TransactionV, b: TransactionV)
    requires
        finite_edits(a),
        finite_edits(b),
        transaction_id(a) == transaction_id(b),
    ensures
        a == b || is_collision(
            "transaction"@,
            encode_utf8(Transaction::json_of(a)),
            encode_utf8(Transaction::json_of(b)),
        ),
{
    lemma_identities("transaction"@, Transaction::json_of(a), Transaction::json_of(b));
    if Transaction::json_of(a) == Transaction::json_of(b) {
        transactions_are_told_apart(a, b);
    }
}

/// Snapshots with one identity have the same files, unless the hash has the
/// same value for different bytes.
pub proof fn identities_stand_for_one_snapshot(a: Map<Seq<char>, FileEntryV>, b: Map<Seq<char>, FileEntryV>)
    requires
        a.dom().finite(),
        b.dom().finite(),
        snapshot_id(a) == snapshot_id(b),
    ensures
        a == b || is_collision("snapshot"@, encode_utf8(snapshot_json(a)), encode_utf8(snapshot_json(b))),
{
    lemma_identities("snapshot"@, snapshot_json(a), snapshot_json(b));
    if snapshot_json(a) == snapshot_json(b) {
        let head = "{\"files\":"@;
        lemma_regroup(head, TextMap::<FileEntry>::json_of(a), "}"@);
        lemma_regroup(head, TextMap::<FileEntry>::json_of(b), "}"@);
        lemma_cut(head, TextMap::<FileEntry>::json_of(a) + "}"@, TextMap::<FileEntry>::json_of(b) + "}"@);
        lemma_files_apart(a, b, "}"@, "}"@);
    }
}

/// Histories with one view have the same roots, and sets of transactions with
/// one name are the same, unless the hash has the same value for different
/// bytes.
pub proof fn identities_stand_for_one_set(a: Set<Seq<char>>, b: Set<Seq<char>>)
    requires
        a.finite(),
        b.finite(),
    ensures
        state_id(a) == state_id(b) ==> a == b || is_collision(
            "view"@,
            encode_utf8(TextSet::json_of(a)),
            encode_utf8(TextSet::json_of(b)),
        ),
        membership(a) == membership(b) ==> a == b || is_collision(
            "membership"@,
            encode_utf8(TextSet::json_of(a)),
            encode_utf8(TextSet::json_of(b)),
        ),
{
    let none = Seq::<char>::empty();
    if state_id(a) == state_id(b) {
        lemma_identities("view"@, TextSet::json_of(a), TextSet::json_of(b));
    }
    if membership(a) == membership(b) {
        lemma_identities("membership"@, TextSet::json_of(a), TextSet::json_of(b));
    }
    if TextSet::json_of(a) == TextSet::json_of(b) {
        lemma_sets_apart(a, b, none, none);
    }
}

/// What is written of a saved view after its snapshot.
spec fn saved_tail(roots: Set<Seq<char>>, paths: Seq<Seq<char>>) -> Seq<char> {
    ",\"roots\":"@ + (TextSet::json_of(roots) + ((if paths.len() == 0 {
        Seq::empty()
    } else {
        ",\"paths\":"@ + json_list(paths)
    }) + "}"@))
}

proof fn lemma_saved_form(format: u32, snapshot: Seq<char>, roots: Set<Seq<char>>, paths: Seq<Seq<char>>)
    ensures
        saved_json(format, snapshot, roots, paths) == "{\"format\":"@ + (decimal(format as nat) + (",\"snapshot\":"@ + (
        quoted(snapshot) + saved_tail(roots, paths)))),
{
    let a = "{\"format\":"@;
    let b = decimal(format as nat);
    let c = ",\"snapshot\":"@;
    let d = quoted(snapshot);
    let e = ",\"roots\":"@;
    let f = TextSet::json_of(roots);
    let g = if paths.len() == 0 {
        Seq::empty()
    } else {
        ",\"paths\":"@ + json_list(paths)
    };
    let h = "}"@;
    assert(saved_json(format, snapshot, roots, paths) == a + b + c + d + e + f + g + h);
    lemma_regroup(a + b + c + d + e + f, g, h);
    lemma_regroup(a + b + c + d + e, f, g + h);
    lemma_regroup(a + b + c + d, e, f + (g + h));
    lemma_regroup(a + b + c, d, saved_tail(roots, paths));
    lemma_regroup(a + b, c, d + saved_tail(roots, paths));
    lemma_regroup(a, b, c + (d + saved_tail(roots, paths)));
}

proof fn lemma_path_lists_apart(a: Seq<Seq<char>>, b: Seq<Seq<char>>)
    requires
        (if a.len() == 0 {
            Seq::empty()
        } else {
            ",\"paths\":"@ + json_list(a)
        }) + "}"@ == (if b.len() == 0 {
            Seq::empty()
        } else {
            ",\"paths\":"@ + json_list(b)
        }) + "}"@,
    ensures
        a == b,
{
    reveal_strlit("}");
    reveal_strlit(",\"paths\":");
    let none = Seq::<char>::empty();
    let head = ",\"paths\":"@;
    if a.len() == 0 && b.len() == 0 {
        assert(a =~= b);
    } else if a.len() == 0 {
        assert((none + "}"@)[0] == '}');
        assert(((head + json_list(b)) + "}"@)[0] == ',');
    } else if b.len() == 0 {
        assert((none + "}"@)[0] == '}');
        assert(((head + json_list(a)) + "}"@)[0] == ',');
    } else {
        lemma_regroup(head, json_list(a), "}"@);
        lemma_regroup(head, json_list(b), "}"@);
        lemma_cut(head, json_list(a) + "}"@, json_list(b) + "}"@);
        lemma_text_lists_apart(a, b, "}"@, "}"@);
    }
}

/// Saved views with one identity are the same in format, snapshot, roots and
/// selection, unless the hash has the same value for different bytes.
pub proof fn identities_stand_for_one_saved_view(
    format: u32,
    other_format: u32,
    snapshot: Seq<char>,
    other_snapshot: Seq<char>,
    roots: Set<Seq<char>>,
    other_roots: Set<Seq<char>>,
    paths: Seq<Seq<char>>,
    other_paths: Seq<Seq<char>>,
)
    requires
        roots.finite(),
        other_roots.finite(),
        saved_id(format, snapshot, roots, paths) == saved_id(other_format, other_snapshot, other_roots, other_paths),
    ensures
        format == other_format && snapshot == other_snapshot && roots == other_roots && paths == other_paths || is_collision(
            "saved-view"@,
            encode_utf8(saved_json(format, snapshot, roots, paths)),
            encode_utf8(saved_json(other_format, other_snapshot, other_roots, other_paths)),
        ),
{
    let s = saved_json(format, snapshot, roots, paths);
    let t = saved_json(other_format, other_snapshot, other_roots, other_paths);
    lemma_identities("saved-view"@, s, t);
    if s == t {
        reveal_strlit(",\"snapshot\":");
        lemma_saved_form(format, snapshot, roots, paths);
        lemma_saved_form(other_format, other_snapshot, other_roots, other_paths);
        let label = ",\"snapshot\":"@;
        let u = saved_tail(roots, paths);
        let v = saved_tail(other_roots, other_paths);
        let p = label + (quoted(snapshot) + u);
        let q = label + (quoted(other_snapshot) + v);
        lemma_cut("{\"format\":"@, decimal(format as nat) + p, decimal(other_format as nat) + q);
        assert(p[0] == ',' && q[0] == ',');
        lemma_numbers_apart(format as nat, other_format as nat, p, q);
        lemma_cut(label, quoted(snapshot) + u, quoted(other_snapshot) + v);
        quoted_texts_are_told_apart(snapshot, other_snapshot, u, v);
        let x = (if paths.len() == 0 {
            Seq::empty()
        } else {
            ",\"paths\":"@ + json_list(paths)
        }) + "}"@;
        let y = (if other_paths.len() == 0 {
            Seq::empty()
        } else {
            ",\"paths\":"@ + json_list(other_paths)
        }) + "}"@;
        lemma_cut(",\"roots\":"@, TextSet::json_of(roots) + x, TextSet::json_of(other_roots) + y);
        lemma_sets_apart(roots, other_roots, x, y);
        lemma_path_lists_apart(paths, other_paths);
    }
}

proof fn lemma_pin_form(pin: PinV)
    ensures
        pin_json(pin) == "{\"format\":"@ + (decimal(pin.format as nat) + (",\"name\":"@ + (quoted(pin.name) + (
        ",\"snapshot\":"@ + (quoted(pin.snapshot) + (",\"roots\":"@ + (TextSet::json_of(pin.roots) + "}"@))))))),
{
    let a = "{\"format\":"@;
    let b = decimal(pin.format as nat);
    let c = ",\"name\":"@;
    let d = quoted(pin.name);
    let e = ",\"snapshot\":"@;
    let f = quoted(pin.snapshot);
    let g = ",\"roots\":"@;
    let h = TextSet::json_of(pin.roots);
    let i = "}"@;
    assert(pin_json(pin) == a + b + c + d + e + f + g + h + i);
    lemma_regroup(a + b + c + d + e + f + g, h, i);
    lemma_regroup(a + b + c + d + e + f, g, h + i);
    lemma_regroup(a + b + c + d + e, f, g + (h + i));
    lemma_regroup(a + b + c + d, e, f + (g + (h + i)));
    lemma_regroup(a + b + c, d, e + (f + (g + (h + i))));
    lemma_regroup(a + b, c, d + (e + (f + (g + (h + i)))));
    lemma_regroup(a, b, c + (d + (e + (f + (g + (h + i))))));
}

/// Releases with one identity are one release, unless the hash has the same
/// value for different bytes.
pub proof fn identities_stand_for_one_release(a: PinV, b: PinV)
    requires
        a.roots.finite(),
        b.roots.finite(),
        pin_id(a) == pin_id(b),
    ensures
        a == b || is_collision("pin"@, encode_utf8(pin_json(a)), encode_utf8(pin_json(b))),
{
    lemma_identities("pin"@, pin_json(a), pin_json(b));
    if pin_json(a) == pin_json(b) {
        reveal_strlit(",\"name\":");
        lemma_pin_form(a);
        lemma_pin_form(b);
        let p3 = TextSet::json_of(a.roots) + "}"@;
        let q3 = TextSet::json_of(b.roots) + "}"@;
        let p2 = quoted(a.snapshot) + (",\"roots\":"@ + p3);
        let q2 = quoted(b.snapshot) + (",\"roots\":"@ + q3);
        let p1 = ",\"name\":"@ + (quoted(a.name) + (",\"snapshot\":"@ + p2));
        let q1 = ",\"name\":"@ + (quoted(b.name) + (",\"snapshot\":"@ + q2));
        lemma_cut("{\"format\":"@, decimal(a.format as nat) + p1, decimal(b.format as nat) + q1);
        assert(p1[0] == ',' && q1[0] == ',');
        lemma_numbers_apart(a.format as nat, b.format as nat, p1, q1);
        lemma_cut(
            ",\"name\":"@,
            quoted(a.name) + (",\"snapshot\":"@ + p2),
            quoted(b.name) + (",\"snapshot\":"@ + q2),
        );
        quoted_texts_are_told_apart(a.name, b.name, ",\"snapshot\":"@ + p2, ",\"snapshot\":"@ + q2);
        lemma_cut(",\"snapshot\":"@, p2, q2);
        quoted_texts_are_told_apart(a.snapshot, b.snapshot, ",\"roots\":"@ + p3, ",\"roots\":"@ + q3);
        lemma_cut(",\"roots\":"@, p3, q3);
        lemma_sets_apart(a.roots, b.roots, "}"@, "}"@);
    }
}

} // verus!
