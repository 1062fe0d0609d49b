//! Which paths a file system with reserved names and characters can hold.
use vstd::prelude::*;
use vstd::string::*;
use vstd::utf8::*;

use crate::error::{about, first_problem, lemma_first_problem_step, verdict, Error, ErrorV, Problem};
use crate::paths::{
    display, is_same_ignoring_case, lists_of, parts, path_check, same_ignoring_case, shown, split_chars, validate,
};
use crate::text::{chars_of, control, is_control, text_of};

verus! {

/// What stands before the first dot.
pub open spec fn stem(part: Seq<char>) -> Seq<char>
    decreases part.len(),
{
    if part.len() == 0 || part[0] == '.' {
        Seq::empty()
    } else {
        seq![part[0]] + stem(part.drop_first())
    }
}

/// A name that stands for a device, in any case.
pub open spec fn device(stem: Seq<char>) -> bool {
    ||| same_ignoring_case(encode_utf8(stem), encode_utf8("CON"@))
    ||| same_ignoring_case(encode_utf8(stem), encode_utf8("PRN"@))
    ||| same_ignoring_case(encode_utf8(stem), encode_utf8("AUX"@))
    ||| same_ignoring_case(encode_utf8(stem), encode_utf8("NUL"@))
    ||| same_ignoring_case(encode_utf8(stem), encode_utf8("COM1"@))
    ||| same_ignoring_case(encode_utf8(stem), encode_utf8("COM2"@))
    ||| same_ignoring_case(encode_utf8(stem), encode_utf8("COM3"@))
    ||| same_ignoring_case(encode_utf8(stem), encode_utf8("COM4"@))
    ||| same_ignoring_case(encode_utf8(stem), encode_utf8("COM5"@))
    ||| same_ignoring_case(encode_utf8(stem), encode_utf8("COM6"@))
    ||| same_ignoring_case(encode_utf8(stem), encode_utf8("COM7"@))
    ||| same_ignoring_case(encode_utf8(stem), encode_utf8("COM8"@))
    ||| same_ignoring_case(encode_utf8(stem), encode_utf8("COM9"@))
    ||| same_ignoring_case(encode_utf8(stem), encode_utf8("LPT1"@))
    ||| same_ignoring_case(encode_utf8(stem), encode_utf8("LPT2"@))
    ||| same_ignoring_case(encode_utf8(stem), encode_utf8("LPT3"@))
    ||| same_ignoring_case(encode_utf8(stem), encode_utf8("LPT4"@))
    ||| same_ignoring_case(encode_utf8(stem), encode_utf8("LPT5"@))
    ||| same_ignoring_case(encode_utf8(stem), encode_utf8("LPT6"@))
    ||| same_ignoring_case(encode_utf8(stem), encode_utf8("LPT7"@))
    ||| same_ignoring_case(encode_utf8(stem), encode_utf8("LPT8"@))
    ||| same_ignoring_case(encode_utf8(stem), encode_utf8("LPT9"@))
}

fn is_device(stem: &str) -> (result: bool)
    ensures
        result == device(stem@),
{
    let bytes = stem.as_bytes();
    is_same_ignoring_case(bytes, "CON".as_bytes())
        || is_same_ignoring_case(bytes, "PRN".as_bytes())
        || is_same_ignoring_case(bytes, "AUX".as_bytes())
        || is_same_ignoring_case(bytes, "NUL".as_bytes())
        || is_same_ignoring_case(bytes, "COM1".as_bytes())
        || is_same_ignoring_case(bytes, "COM2".as_bytes())
        || is_same_ignoring_case(bytes, "COM3".as_bytes())
        || is_same_ignoring_case(bytes, "COM4".as_bytes())
        || is_same_ignoring_case(bytes, "COM5".as_bytes())
        || is_same_ignoring_case(bytes, "COM6".as_bytes())
        || is_same_ignoring_case(bytes, "COM7".as_bytes())
        || is_same_ignoring_case(bytes, "COM8".as_bytes())
        || is_same_ignoring_case(bytes, "COM9".as_bytes())
        || is_same_ignoring_case(bytes, "LPT1".as_bytes())
        || is_same_ignoring_case(bytes, "LPT2".as_bytes())
        || is_same_ignoring_case(bytes, "LPT3".as_bytes())
        || is_same_ignoring_case(bytes, "LPT4".as_bytes())
        || is_same_ignoring_case(bytes, "LPT5".as_bytes())
        || is_same_ignoring_case(bytes, "LPT6".as_bytes())
        || is_same_ignoring_case(bytes, "LPT7".as_bytes())
        || is_same_ignoring_case(bytes, "LPT8".as_bytes())
        || is_same_ignoring_case(bytes, "LPT9".as_bytes())
}

/// A character that no component may hold.
pub open spec fn special(c: char) -> bool {
    control(c) || c == '\\' || c == ':' || c == '<' || c == '>' || c == '"' || c == '|' || c == '?' || c == '*'
}

fn is_special(c: char) -> (result: bool)
    ensures
        result == special(c),
{
    is_control(c) || c == '\\' || c == ':' || c == '<' || c == '>' || c == '"' || c == '|' || c == '?' || c == '*'
}

/// A component that such a file system can hold.
pub open spec fn holds(part: Seq<char>) -> bool {
    &&& !(part.len() > 0 && (part.last() == '.' || part.last() == ' '))
    &&& forall|i: int| 0 <= i < part.len() ==> !special(#[trigger] part[i])
    &&& !device(stem(part))
}

/// Why such a file system cannot hold a component of a path. Bytes that are no
/// text it cannot hold at all.
pub open spec fn portable_part(path: Seq<char>, part: Seq<char>) -> Result<(), ErrorV> {
    if part.len() > 0 && part[0] == '\0' {
        Err(about(Problem::UnportablePath, "a non-UTF-8 path"@))
    } else if holds(part) {
        Ok(())
    } else {
        Err(about(Problem::UnportablePath, shown(path)))
    }
}

/// Why such a file system cannot hold a path.
pub open spec fn portable_check(path: Seq<char>) -> Result<(), ErrorV> {
    match path_check(path) {
        Err(error) => Err(error),
        Ok(()) => first_problem(parts(path), |part: Seq<char>| portable_part(path, part)),
    }
}

fn stem_of(chars: &[char]) -> (text: String)
    ensures
        text@ == stem(chars@),
{
    let mut end: usize = 0;
    assert(chars@.skip(0) =~= chars@);
    assert(chars@.take(0) + stem(chars@) =~= stem(chars@));
    while end < chars.len() && chars[end] != '.'
        invariant
            end <= chars@.len(),
            stem(chars@) == chars@.take(end as int) + stem(chars@.skip(end as int)),
        decreases chars@.len() - end,
    {
        let ghost rest = chars@.skip(end as int);
        assert(rest[0] == chars@[end as int]);
        assert(rest.drop_first() =~= chars@.skip(end + 1));
        assert(chars@.take(end as int) + (seq![rest[0]] + stem(rest.drop_first())) =~= chars@.take(end + 1) + stem(
            chars@.skip(end + 1),
        ));
        end += 1;
    }
    assert(stem(chars@.skip(end as int)) =~= Seq::<char>::empty()) by {
        if end < chars@.len() {
            assert(chars@.skip(end as int)[0] == chars@[end as int]);
        }
    }
    let text = text_of(vstd::slice::slice_subrange(chars, 0, end));
    assert(text@ =~= chars@.take(end as int) + Seq::<char>::empty());
    text
}

fn is_held(part: &[char]) -> (result: bool)
    ensures
        result == holds(part@),
{
    assert(part@.len() == part.len());
    if part.len() > 0 && (part[part.len() - 1] == '.' || part[part.len() - 1] == ' ') {
        return false;
    }
    let mut i: usize = 0;
    while i < part.len()
        invariant
            i <= part@.len(),
            forall|j: int| 0 <= j < i ==> !special(#[trigger] part@[j]),
        decreases part@.len() - i,
    {
        if is_special(part[i]) {
            assert(special(part@[i as int]));
            return false;
        }
        i += 1;
    }
    !is_device(stem_of(part).as_str())
}

/// Check that a path can be held by a file system that reserves names and
/// characters.
pub fn check_portable(path: &str) -> (result: Result<(), Error>)
    ensures
        verdict(result) == portable_check(path@),
{
    validate(path)?;
    let list = split_chars(chars_of(path).as_slice(), '/');
    let ghost check = |part: Seq<char>| portable_part(path@, part);
    let mut i: usize = 0;
    assert(parts(path@).skip(0) =~= parts(path@));
    while i < list.len()
        invariant
            i <= list@.len(),
            path_check(path@) is Ok,
            lists_of(list@) == parts(path@),
            check == (|part: Seq<char>| portable_part(path@, part)),
            first_problem(parts(path@), check) == first_problem(parts(path@).skip(i as int), check),
        decreases list@.len() - i,
    {
        proof {
            lemma_first_problem_step(parts(path@), check, i as int);
            assert(parts(path@)[i as int] == list@[i as int]@);
        }
        if list[i].len() > 0 && list[i][0] == '\0' {
            return Err(Error::about(Problem::UnportablePath, "a non-UTF-8 path".to_owned()));
        }
        if !is_held(list[i].as_slice()) {
            return Err(Error::about(Problem::UnportablePath, display(path)));
        }
        i += 1;
    }
    assert(parts(path@).skip(list@.len() as int).len() == 0);
    Ok(())
}

} // verus!
