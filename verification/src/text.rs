//! Text as sequences of characters: ordering, building, decimal and
//! hexadecimal forms, and the small pieces of character classification that
//! names, hashes and messages need.
use vstd::prelude::*;
use vstd::string::*;
use vstd::utf8::*;

verus! {

/// `String::push` appends one character.
pub assume_specification[ String::push ](text: &mut String, c: char)
    ensures
        final(text)@ == old(text)@.push(c),
;

/// Wraps `String::from_utf8`, which accepts exactly the well-formed UTF-8
/// byte strings and returns the characters that they encode.
#[verifier::external_body]
pub(crate) fn utf8_text(bytes: Vec<u8>) -> (result: Option<String>)
    ensures
        match result {
            Some(text) => valid_utf8(bytes@) && text@ == decode_utf8(bytes@),
            None => !valid_utf8(bytes@),
        },
{
    String::from_utf8(bytes).ok()
}

// Ordering

/// Lexicographic order by code point. For UTF-8 strings this is the order of
/// their bytes as well.
pub open spec fn before(a: Seq<char>, b: Seq<char>) -> bool
    decreases a.len(),
{
    if b.len() == 0 {
        false
    } else if a.len() == 0 {
        true
    } else if a[0] != b[0] {
        a[0] < b[0]
    } else {
        before(a.drop_first(), b.drop_first())
    }
}

pub proof fn lemma_before_irreflexive(a: Seq<char>)
    ensures
        !before(a, a),
    decreases a.len(),
{
    if a.len() > 0 {
        lemma_before_irreflexive(a.drop_first());
    }
}

pub proof fn lemma_before_transitive(a: Seq<char>, b: Seq<char>, c: Seq<char>)
    requires
        before(a, b),
        before(b, c),
    ensures
        before(a, c),
    decreases a.len(),
{
    if a.len() > 0 && a[0] == b[0] && b[0] == c[0] {
        lemma_before_transitive(a.drop_first(), b.drop_first(), c.drop_first());
    }
}

pub proof fn lemma_before_total(a: Seq<char>, b: Seq<char>)
    ensures
        before(a, b) || before(b, a) || a == b,
    decreases a.len(),
{
    if a.len() > 0 && b.len() > 0 {
        if a[0] == b[0] {
            lemma_before_total(a.drop_first(), b.drop_first());
            if a.drop_first() == b.drop_first() {
                assert(a =~= seq![a[0]] + a.drop_first());
                assert(b =~= seq![b[0]] + b.drop_first());
            }
        } else {
            assert(a[0] < b[0] || b[0] < a[0]);
        }
    } else if a.len() == 0 && b.len() == 0 {
        assert(a =~= b);
    }
}

pub proof fn lemma_before_asymmetric(a: Seq<char>, b: Seq<char>)
    requires
        before(a, b),
    ensures
        !before(b, a),
        a != b,
{
    lemma_before_irreflexive(a);
    if before(b, a) {
        lemma_before_transitive(a, b, a);
    }
}

/// How two texts compare.
#[derive(Debug, Clone, Copy, PartialEq, Eq, Structural)]
pub enum Order {
    Less,
    Equal,
    Greater,
}

/// Three-way comparison in the order of `before`.
pub fn compare(a: &str, b: &str) -> (order: Order)
    ensures
        order is Less <==> before(a@, b@),
        order is Equal <==> a@ == b@,
        order is Greater <==> before(b@, a@),
{
    let mut left = a.chars();
    let mut right = b.chars();
    let ghost mut i: int = 0;
    proof {
        assert(a@.skip(0) =~= a@);
        assert(b@.skip(0) =~= b@);
    }
    loop
        invariant
            0 <= i <= a@.len(),
            i <= b@.len(),
            vstd::std_specs::iter::IteratorSpec::obeys_prophetic_iter_laws(&left),
            vstd::std_specs::iter::IteratorSpec::obeys_prophetic_iter_laws(&right),
            vstd::std_specs::iter::IteratorSpec::remaining(&left) == a@.skip(i),
            vstd::std_specs::iter::IteratorSpec::remaining(&right) == b@.skip(i),
            a@.take(i) == b@.take(i),
            before(a@, b@) == before(a@.skip(i), b@.skip(i)),
            before(b@, a@) == before(b@.skip(i), a@.skip(i)),
        decreases a@.len() - i,
    {
        let ghost x = a@.skip(i);
        let ghost y = b@.skip(i);
        let first = left.next();
        let second = right.next();
        match (first, second) {
            (None, None) => {
                proof {
                    assert(a@ =~= a@.take(i) + x);
                    assert(b@ =~= b@.take(i) + y);
                    lemma_before_irreflexive(a@);
                }
                return Order::Equal;
            },
            (None, Some(_)) => {
                assert(y.len() > 0 && x.len() == 0);
                proof {
                    lemma_before_asymmetric(a@, b@);
                }
                return Order::Less;
            },
            (Some(_), None) => {
                assert(x.len() > 0 && y.len() == 0);
                proof {
                    lemma_before_asymmetric(b@, a@);
                }
                return Order::Greater;
            },
            (Some(c), Some(d)) => {
                assert(x[0] == c && y[0] == d);
                if c != d {
                    if c < d {
                        proof {
                            lemma_before_asymmetric(a@, b@);
                        }
                        return Order::Less;
                    }
                    proof {
                        lemma_before_asymmetric(b@, a@);
                    }
                    return Order::Greater;
                }
                proof {
                    assert(c == d);
                    assert(x.drop_first() =~= a@.skip(i + 1));
                    assert(y.drop_first() =~= b@.skip(i + 1));
                    assert(a@.take(i + 1) =~= a@.take(i).push(c));
                    assert(b@.take(i + 1) =~= b@.take(i).push(d));
                    i = i + 1;
                }
            },
        }
    }
}

/// Whether two texts hold the same characters.
pub fn same_text(a: &str, b: &str) -> (result: bool)
    ensures
        result == (a@ == b@),
{
    match compare(a, b) {
        Order::Equal => true,
        _ => false,
    }
}

// Building

/// The characters of a text.
pub fn chars_of(text: &str) -> (chars: Vec<char>)
    ensures
        chars@ == text@,
{
    let mut chars: Vec<char> = Vec::new();
    let mut iter = text.chars();
    let ghost mut i: int = 0;
    assert(text@.skip(0) =~= text@);
    loop
        invariant
            0 <= i <= text@.len(),
            vstd::std_specs::iter::IteratorSpec::obeys_prophetic_iter_laws(&iter),
            vstd::std_specs::iter::IteratorSpec::remaining(&iter) == text@.skip(i),
            chars@ == text@.take(i),
        decreases text@.len() - i,
    {
        match iter.next() {
            None => {
                assert(text@.take(i) =~= text@);
                return chars;
            },
            Some(c) => {
                chars.push(c);
                proof {
                    assert(text@.skip(i).drop_first() =~= text@.skip(i + 1));
                    assert(text@.take(i + 1) =~= text@.take(i).push(c));
                    i = i + 1;
                }
            },
        }
    }
}

/// The text made of `chars`.
pub fn text_of(chars: &[char]) -> (text: String)
    ensures
        text@ == chars@,
{
    let mut text = String::new();
    let mut i: usize = 0;
    while i < chars.len()
        invariant
            i <= chars@.len(),
            text@ == chars@.take(i as int),
        decreases chars@.len() - i,
    {
        text.push(chars[i]);
        assert(chars@.take(i + 1) =~= chars@.take(i as int).push(chars@[i as int]));
        i += 1;
    }
    assert(chars@.take(i as int) =~= chars@);
    text
}

/// `a` followed by `b`.
pub fn joined(a: &str, b: &str) -> (text: String)
    ensures
        text@ == a@ + b@,
{
    let mut text = a.to_owned();
    text.append(b);
    text
}

/// Append `tail` to `bytes`.
pub fn push_bytes(bytes: &mut Vec<u8>, tail: &[u8])
    ensures
        final(bytes)@ == old(bytes)@ + tail@,
{
    bytes.extend_from_slice(tail);
    assert(bytes@ =~= old(bytes)@ + tail@);
}

/// Whether two byte strings are equal.
pub fn same_bytes(a: &[u8], b: &[u8]) -> (result: bool)
    ensures
        result == (a@ == b@),
{
    if a.len() != b.len() {
        return false;
    }
    let mut i: usize = 0;
    while i < a.len()
        invariant
            i <= a@.len(),
            a@.len() == b@.len(),
            forall|j: int| 0 <= j < i ==> a@[j] == b@[j],
        decreases a@.len() - i,
    {
        if a[i] != b[i] {
            return false;
        }
        i += 1;
    }
    assert(a@ =~= b@);
    true
}

/// `parts` with `separator` between neighbours.
pub open spec fn join(parts: Seq<Seq<char>>, separator: Seq<char>) -> Seq<char>
    decreases parts.len(),
{
    if parts.len() == 0 {
        Seq::empty()
    } else if parts.len() == 1 {
        parts[0]
    } else {
        join(parts.drop_last(), separator) + separator + parts.last()
    }
}

/// The characters of each text of a list.
pub open spec fn texts(list: Seq<String>) -> Seq<Seq<char>> {
    Seq::new(list.len(), |i: int| list[i]@)
}

/// Join texts with a separator.
pub fn join_texts(parts: &[String], separator: &str) -> (text: String)
    ensures
        text@ == join(texts(parts@), separator@),
{
    let mut text = String::new();
    let mut i: usize = 0;
    let ghost all = texts(parts@);
    while i < parts.len()
        invariant
            i <= parts@.len(),
            all == texts(parts@),
            text@ == join(all.take(i as int), separator@),
        decreases parts@.len() - i,
    {
        if i > 0 {
            text.append(separator);
        }
        text.append(parts[i].as_str());
        proof {
            assert(all.take(i + 1).drop_last() =~= all.take(i as int));
            assert(all.take(i + 1).last() == parts@[i as int]@);
            if i == 0 {
                assert(text@ =~= parts@[0]@);
            }
        }
        i += 1;
    }
    assert(all.take(i as int) =~= all);
    text
}

/// A copy of a list of texts.
pub fn copy_texts(list: &[String]) -> (copy: Vec<String>)
    ensures
        texts(copy@) == texts(list@),
{
    let mut copy: Vec<String> = Vec::new();
    let mut i: usize = 0;
    while i < list.len()
        invariant
            i <= list@.len(),
            texts(copy@) == texts(list@).take(i as int),
        decreases list@.len() - i,
    {
        let ghost so_far = texts(copy@);
        copy.push(list[i].clone());
        proof {
            assert(texts(copy@) =~= so_far.push(texts(list@)[i as int]));
            assert(texts(list@).take(i + 1) =~= texts(list@).take(i as int).push(texts(list@)[i as int]));
        }
        i += 1;
    }
    assert(texts(list@).take(i as int) =~= texts(list@));
    copy
}

/// Whether two lists hold the same texts in the same order.
pub fn same_texts(a: &[String], b: &[String]) -> (result: bool)
    ensures
        result == (texts(a@) == texts(b@)),
{
    assert(texts(a@).len() == a.len() && texts(b@).len() == b.len());
    if a.len() != b.len() {
        return false;
    }
    let mut i: usize = 0;
    while i < a.len()
        invariant
            i <= a@.len(),
            a@.len() == b@.len(),
            forall|j: int| 0 <= j < i ==> (#[trigger] a@[j])@ == b@[j]@,
        decreases a@.len() - i,
    {
        if !same_text(a[i].as_str(), b[i].as_str()) {
            assert(texts(a@)[i as int] != texts(b@)[i as int]);
            return false;
        }
        i += 1;
    }
    assert(texts(a@) =~= texts(b@));
    true
}

// Character classes

pub open spec fn digit(c: char) -> bool {
    '0' <= c <= '9'
}

pub fn is_digit(c: char) -> (result: bool)
    ensures
        result == digit(c),
{
    '0' <= c && c <= '9'
}

pub open spec fn lower_hex(c: char) -> bool {
    '0' <= c <= '9' || 'a' <= c <= 'f'
}

pub fn is_lower_hex(c: char) -> (result: bool)
    ensures
        result == lower_hex(c),
{
    ('0' <= c && c <= '9') || ('a' <= c && c <= 'f')
}

/// Characters that a project, change or request name may hold.
pub open spec fn name_char(c: char) -> bool {
    '0' <= c <= '9' || 'a' <= c <= 'z' || 'A' <= c <= 'Z' || c == '-' || c == '_'
}

pub fn is_name_char(c: char) -> (result: bool)
    ensures
        result == name_char(c),
{
    ('0' <= c && c <= '9') || ('a' <= c && c <= 'z') || ('A' <= c && c <= 'Z') || c == '-' || c
        == '_'
}

/// The characters with the Unicode property White_Space.
pub open spec fn white_space(c: char) -> bool {
    ||| '\u{9}' <= c <= '\u{d}'
    ||| c == ' '
    ||| c == '\u{85}'
    ||| c == '\u{a0}'
    ||| c == '\u{1680}'
    ||| '\u{2000}' <= c <= '\u{200a}'
    ||| c == '\u{2028}'
    ||| c == '\u{2029}'
    ||| c == '\u{202f}'
    ||| c == '\u{205f}'
    ||| c == '\u{3000}'
}

pub fn is_white_space(c: char) -> (result: bool)
    ensures
        result == white_space(c),
{
    ('\u{9}' <= c && c <= '\u{d}') || c == ' ' || c == '\u{85}' || c == '\u{a0}' || c
        == '\u{1680}' || ('\u{2000}' <= c && c <= '\u{200a}') || c == '\u{2028}' || c
        == '\u{2029}' || c == '\u{202f}' || c == '\u{205f}' || c == '\u{3000}'
}

/// Nothing but white space: what is left after trimming is empty.
pub open spec fn blank(text: Seq<char>) -> bool {
    forall|i: int| 0 <= i < text.len() ==> white_space(#[trigger] text[i])
}

pub fn is_blank(text: &str) -> (result: bool)
    ensures
        result == blank(text@),
{
    let chars = chars_of(text);
    let mut i: usize = 0;
    while i < chars.len()
        invariant
            i <= chars@.len(),
            chars@ == text@,
            forall|j: int| 0 <= j < i ==> white_space(#[trigger] chars@[j]),
        decreases chars@.len() - i,
    {
        if !is_white_space(chars[i]) {
            return false;
        }
        i += 1;
    }
    true
}

/// A text without white space at its end.
pub open spec fn without_tail(text: Seq<char>) -> Seq<char>
    decreases text.len(),
{
    if text.len() > 0 && white_space(text.last()) {
        without_tail(text.drop_last())
    } else {
        text
    }
}

/// A text without white space at its end.
pub fn trim_end(text: &str) -> (result: String)
    ensures
        result@ == without_tail(text@),
{
    let chars = chars_of(text);
    let mut end: usize = chars.len();
    assert(text@.take(end as int) =~= text@);
    while end > 0 && is_white_space(chars[end - 1])
        invariant
            end <= chars@.len(),
            chars@ == text@,
            without_tail(text@.take(end as int)) == without_tail(text@),
        decreases end,
    {
        let ghost longer = text@.take(end as int);
        assert(longer.last() == text@[end - 1]);
        assert(longer.drop_last() =~= text@.take(end - 1));
        end -= 1;
    }
    let ghost kept = text@.take(end as int);
    proof {
        if kept.len() > 0 {
            assert(kept.last() == text@[end - 1]);
        }
    }
    let result = text_of(vstd::slice::slice_subrange(chars.as_slice(), 0, end));
    assert(result@ =~= kept);
    result
}

/// The Unicode control characters (general category Cc).
pub open spec fn control(c: char) -> bool {
    c <= '\u{1f}' || '\u{7f}' <= c <= '\u{9f}'
}

pub fn is_control(c: char) -> (result: bool)
    ensures
        result == control(c),
{
    c <= '\u{1f}' || ('\u{7f}' <= c && c <= '\u{9f}')
}

} // verus!
