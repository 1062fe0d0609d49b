//! The canonical JSON that object hashes are taken of: no white space, fields
//! in a fixed order, maps and sets in key order.
use vstd::prelude::*;
use vstd::string::*;

use crate::collections::{keys_of, ordered, TextMap, TextSet};
use crate::encoding::{decimal, decimal_text, hex_digit, lemma_hex_digit};
use crate::text::{join, texts};

verus! {

/// A character inside a JSON string.
pub open spec fn escaped(c: char) -> Seq<char> {
    if c == '"' {
        seq!['\\', '"']
    } else if c == '\\' {
        seq!['\\', '\\']
    } else if c == '\u{8}' {
        seq!['\\', 'b']
    } else if c == '\u{9}' {
        seq!['\\', 't']
    } else if c == '\u{a}' {
        seq!['\\', 'n']
    } else if c == '\u{c}' {
        seq!['\\', 'f']
    } else if c == '\u{d}' {
        seq!['\\', 'r']
    } else if c <= '\u{1f}' {
        seq!['\\', 'u', '0', '0', hex_digit(c as int / 16), hex_digit(c as int % 16)]
    } else {
        seq![c]
    }
}

/// The inside of a JSON string.
pub open spec fn escaped_text(text: Seq<char>) -> Seq<char>
    decreases text.len(),
{
    if text.len() == 0 {
        Seq::empty()
    } else {
        escaped_text(text.drop_last()) + escaped(text.last())
    }
}

/// A JSON string.
pub open spec fn quoted(text: Seq<char>) -> Seq<char> {
    seq!['"'] + escaped_text(text) + seq!['"']
}

/// Wraps `serde_json::to_string` on a text. It always succeeds there and
/// yields the text in quotation marks, with quotation marks, backslashes and
/// the characters below the space escaped and every other character as it is.
#[verifier::external_body]
pub(crate) fn quote(text: &str) -> (result: Option<String>)
    ensures
        result is Some,
        result->0@ == quoted(text@),
{
    serde_json::to_string(text).ok()
}

proof fn lemma_escaped_front(text: Seq<char>)
    requires
        text.len() > 0,
    ensures
        escaped_text(text) == escaped(text[0]) + escaped_text(text.drop_first()),
    decreases text.len(),
{
    let front = text.drop_last();
    if front.len() == 0 {
        assert(escaped_text(front) =~= Seq::<char>::empty());
        assert(text.drop_first() =~= Seq::<char>::empty());
        assert(escaped_text(text) =~= escaped(text[0]) + escaped_text(text.drop_first()));
    } else {
        lemma_escaped_front(front);
        assert(text.drop_first().drop_last() =~= front.drop_first());
        assert(escaped_text(text) =~= escaped(text[0]) + escaped_text(text.drop_first()));
    }
}

/// The first character of a string in JSON is known by how it is written.
proof fn lemma_escaped_char(a: char, b: char, x: Seq<char>, y: Seq<char>)
    requires
        escaped(a) + x == escaped(b) + y,
    ensures
        a == b,
        x == y,
{
    let whole = escaped(a) + x;
    let same = escaped(b) + y;
    assert(whole[0] == same[0]);
    assert(whole[0] == escaped(a)[0]);
    assert(same[0] == escaped(b)[0]);
    if escaped(a).len() > 1 && escaped(b).len() > 1 {
        assert(whole[1] == escaped(a)[1]);
        assert(same[1] == escaped(b)[1]);
        if escaped(a).len() == 6 && escaped(b).len() == 6 {
            assert(whole[4] == escaped(a)[4]);
            assert(same[4] == escaped(b)[4]);
            assert(whole[5] == escaped(a)[5]);
            assert(same[5] == escaped(b)[5]);
            lemma_hex_digit(a as int / 16);
            lemma_hex_digit(a as int % 16);
            lemma_hex_digit(b as int / 16);
            lemma_hex_digit(b as int % 16);
            assert(a as int / 16 == b as int / 16);
            assert(a as int % 16 == b as int % 16);
        }
    }
    assert(a == b);
    assert(x =~= whole.skip(escaped(a).len() as int));
    assert(y =~= same.skip(escaped(b).len() as int));
}

proof fn lemma_escaped_texts(a: Seq<char>, b: Seq<char>, x: Seq<char>, y: Seq<char>)
    requires
        escaped_text(a) + seq!['"'] + x == escaped_text(b) + seq!['"'] + y,
    ensures
        a == b,
        x == y,
    decreases a.len(),
{
    let whole = escaped_text(a) + seq!['"'] + x;
    let same = escaped_text(b) + seq!['"'] + y;
    if a.len() == 0 && b.len() == 0 {
        assert(x =~= whole.skip(1));
        assert(y =~= same.skip(1));
        assert(a =~= b);
    } else if a.len() == 0 {
        lemma_escaped_front(b);
        assert(whole[0] == '"');
        assert(same[0] == escaped(b[0])[0]);
    } else if b.len() == 0 {
        lemma_escaped_front(a);
        assert(same[0] == '"');
        assert(whole[0] == escaped(a[0])[0]);
    } else {
        lemma_escaped_front(a);
        lemma_escaped_front(b);
        let u = escaped_text(a.drop_first()) + seq!['"'] + x;
        let v = escaped_text(b.drop_first()) + seq!['"'] + y;
        assert(whole =~= escaped(a[0]) + u);
        assert(same =~= escaped(b[0]) + v);
        lemma_escaped_char(a[0], b[0], u, v);
        lemma_escaped_texts(a.drop_first(), b.drop_first(), x, y);
        assert(a =~= seq![a[0]] + a.drop_first());
        assert(b =~= seq![b[0]] + b.drop_first());
    }
}

/// Where a JSON string ends, and what it says, is known from what follows its
/// beginning.
pub proof fn quoted_texts_are_told_apart(a: Seq<char>, b: Seq<char>, x: Seq<char>, y: Seq<char>)
    requires
        quoted(a) + x == quoted(b) + y,
    ensures
        a == b,
        x == y,
{
    let u = escaped_text(a) + seq!['"'] + x;
    let v = escaped_text(b) + seq!['"'] + y;
    assert(quoted(a) + x =~= seq!['"'] + u);
    assert(quoted(b) + y =~= seq!['"'] + v);
    assert(u =~= (seq!['"'] + u).skip(1));
    assert(v =~= (seq!['"'] + v).skip(1));
    lemma_escaped_texts(a, b, x, y);
}

/// A value with a canonical JSON form that is a function of what it means.
pub trait Json: DeepView + Sized {
    spec fn json_of(value: Self::V) -> Seq<char>;

    fn to_json(&self) -> (text: String)
        ensures
            text@ == Self::json_of(self.deep_view()),
    ;
}

impl Json for String {
    open spec fn json_of(value: Seq<char>) -> Seq<char> {
        quoted(value)
    }

    fn to_json(&self) -> (text: String) {
        assert(self.deep_view() == self@);
        assert(<String as Json>::json_of(self@) == quoted(self@));
        quote(self.as_str()).unwrap()
    }
}

impl Json for bool {
    open spec fn json_of(value: bool) -> Seq<char> {
        if value {
            "true"@
        } else {
            "false"@
        }
    }

    fn to_json(&self) -> (text: String) {
        if *self {
            "true".to_owned()
        } else {
            "false".to_owned()
        }
    }
}

impl Json for u64 {
    open spec fn json_of(value: u64) -> Seq<char> {
        decimal(value as nat)
    }

    fn to_json(&self) -> (text: String) {
        assert(self.deep_view() == *self);
        assert(<u64 as Json>::json_of(*self) == decimal(*self as nat));
        decimal_text(*self)
    }
}

impl<T: Json> Json for Option<T> {
    open spec fn json_of(value: Option<T::V>) -> Seq<char> {
        match value {
            Some(inner) => T::json_of(inner),
            None => "null"@,
        }
    }

    fn to_json(&self) -> (text: String) {
        match self {
            Some(inner) => inner.to_json(),
            None => "null".to_owned(),
        }
    }
}

/// One member of a JSON object.
pub open spec fn member(key: Seq<char>, value: Seq<char>) -> Seq<char> {
    quoted(key) + ":"@ + value
}

impl<T: Json> Json for TextMap<T> {
    open spec fn json_of(value: Map<Seq<char>, T::V>) -> Seq<char> {
        "{"@ + join(
            keys_of(value).map_values(|key: Seq<char>| member(key, T::json_of(value[key]))),
            ","@,
        ) + "}"@
    }

    fn to_json(&self) -> (text: String) {
        let n = self.len();
        let mut text = "{".to_owned();
        let mut i: usize = 0;
        let ghost members = keys_of(self@).map_values(|key: Seq<char>| member(key, T::json_of(self@[key])));
        assert(text@ =~= "{"@ + join(members.take(0), ","@));
        while i < n
            invariant
                i <= n,
                n == self@.dom().len(),
                n == keys_of(self@).len(),
                members == keys_of(self@).map_values(|key: Seq<char>| member(key, T::json_of(self@[key]))),
                text@ == "{"@ + join(members.take(i as int), ","@),
            decreases n - i,
        {
            if i > 0 {
                text.append(",");
            }
            let name = quote(self.key_at(i).as_str()).unwrap();
            text.append(name.as_str());
            text.append(":");
            let value = self.value_at(i).to_json();
            text.append(value.as_str());
            proof {
                assert(members.take(i + 1).drop_last() =~= members.take(i as int));
                assert(members.take(i + 1).last() == members[i as int]);
                assert(text@ =~= "{"@ + join(members.take(i + 1), ","@));
            }
            i += 1;
        }
        assert(members.take(n as int) =~= members);
        text.append("}");
        text
    }
}

impl Json for TextSet {
    open spec fn json_of(value: Set<Seq<char>>) -> Seq<char> {
        "["@ + join(ordered(value).map_values(|key: Seq<char>| quoted(key)), ","@) + "]"@
    }

    fn to_json(&self) -> (text: String) {
        let n = self.len();
        let mut text = "[".to_owned();
        let mut i: usize = 0;
        let ghost members = ordered(self@).map_values(|key: Seq<char>| quoted(key));
        assert(text@ =~= "["@ + join(members.take(0), ","@));
        while i < n
            invariant
                i <= n,
                n == self@.len(),
                n == ordered(self@).len(),
                members == ordered(self@).map_values(|key: Seq<char>| quoted(key)),
                text@ == "["@ + join(members.take(i as int), ","@),
            decreases n - i,
        {
            if i > 0 {
                text.append(",");
            }
            let name = quote(self.at(i).as_str()).unwrap();
            text.append(name.as_str());
            proof {
                assert(members.take(i + 1).drop_last() =~= members.take(i as int));
                assert(members.take(i + 1).last() == members[i as int]);
                assert(text@ =~= "["@ + join(members.take(i + 1), ","@));
            }
            i += 1;
        }
        assert(members.take(n as int) =~= members);
        text.append("]");
        text
    }
}

/// The JSON form of a list of texts.
pub open spec fn json_list(list: Seq<Seq<char>>) -> Seq<char> {
    "["@ + join(list.map_values(|key: Seq<char>| quoted(key)), ","@) + "]"@
}

/// A list of texts as JSON.
pub fn list_to_json(list: &[String]) -> (text: String)
    ensures
        text@ == json_list(texts(list@)),
{
    let mut text = "[".to_owned();
    let mut i: usize = 0;
    let ghost members = texts(list@).map_values(|key: Seq<char>| quoted(key));
    assert(text@ =~= "["@ + join(members.take(0), ","@));
    while i < list.len()
        invariant
            i <= list@.len(),
            members == texts(list@).map_values(|key: Seq<char>| quoted(key)),
            text@ == "["@ + join(members.take(i as int), ","@),
        decreases list@.len() - i,
    {
        if i > 0 {
            text.append(",");
        }
        let name = quote(list[i].as_str()).unwrap();
        text.append(name.as_str());
        proof {
            assert(members.take(i + 1).drop_last() =~= members.take(i as int));
            assert(members.take(i + 1).last() == members[i as int]);
            assert(text@ =~= "["@ + join(members.take(i + 1), ","@));
        }
        i += 1;
    }
    assert(members.take(list@.len() as int) =~= members);
    text.append("]");
    text
}

} // verus!
