//! Lossless project-relative paths. UTF-8 names keep their own characters;
//! other components are a NUL followed by the hexadecimal form of their bytes,
//! which no file system name can collide with.
use vstd::prelude::*;
use vstd::utf8::*;

use crate::encoding::{all_hex, hex, hex_digit, hex_text, unhex, unhex_chars};
use crate::error::{about, first_problem, lemma_first_problem_step, outcome, plain, verdict, Error, ErrorV, Problem};
use crate::text::{chars_of, control, is_control, is_lower_hex, join, text_of, utf8_text};

verus! {

/// Wraps `str::escape_debug`, whose result is named here and not described
/// further: it escapes what is not printable in the way of `Debug`.
#[verifier::external_body]
pub(crate) fn escape_debug(text: &str) -> (escaped: String)
    ensures
        escaped@ == debug_escaped(text@),
{
    text.escape_debug().to_string()
}

/// What `str::escape_debug` yields for a text.
pub uninterp spec fn debug_escaped(text: Seq<char>) -> Seq<char>;

/// Split at every separator: each item extends the last part or, where it is
/// the separator, starts a new one.
pub open spec fn split<T>(items: Seq<T>, separator: T) -> Seq<Seq<T>>
    decreases items.len(),
{
    if items.len() == 0 {
        seq![Seq::empty()]
    } else {
        let parts = split(items.drop_last(), separator);
        if items.last() == separator {
            parts.push(Seq::empty())
        } else {
            parts.update(parts.len() - 1, parts.last().push(items.last()))
        }
    }
}

pub proof fn lemma_split<T>(items: Seq<T>, separator: T)
    ensures
        split(items, separator).len() > 0,
        forall|i: int, j: int|
            0 <= i < split(items, separator).len() && 0 <= j < split(items, separator)[i].len()
                ==> #[trigger] split(items, separator)[i][j] != separator,
    decreases items.len(),
{
    if items.len() > 0 {
        lemma_split(items.drop_last(), separator);
        let before = split(items.drop_last(), separator);
        let all = split(items, separator);
        assert forall|i: int, j: int| 0 <= i < all.len() && 0 <= j < all[i].len() implies #[trigger] all[i][j]
            != separator by {
            if items.last() == separator {
                if i < before.len() {
                    assert(all[i] == before[i]);
                }
            } else if i == before.len() - 1 {
                if j < before[i].len() {
                    assert(all[i][j] == before[i][j]);
                }
            } else {
                assert(all[i] == before[i]);
            }
        }
    }
}

/// The components of a path.
pub open spec fn parts(path: Seq<char>) -> Seq<Seq<char>> {
    split(path, '/')
}

/// The contents of each vector of a list.
pub open spec fn lists_of<T>(list: Seq<Vec<T>>) -> Seq<Seq<T>> {
    Seq::new(list.len(), |i: int| list[i]@)
}

pub fn split_chars(chars: &[char], separator: char) -> (result: Vec<Vec<char>>)
    ensures
        lists_of(result@) == split(chars@, separator),
        result@.len() > 0,
{
    let mut done: Vec<Vec<char>> = Vec::new();
    let mut current: Vec<char> = Vec::new();
    let mut i: usize = 0;
    assert(lists_of(done@).push(current@) =~= seq![Seq::<char>::empty()]);
    while i < chars.len()
        invariant
            i <= chars@.len(),
            lists_of(done@).push(current@) == split(chars@.take(i as int), separator),
        decreases chars@.len() - i,
    {
        let ghost so_far = lists_of(done@).push(current@);
        let ghost prefix = chars@.take(i + 1);
        assert(prefix.drop_last() =~= chars@.take(i as int));
        assert(prefix.last() == chars@[i as int]);
        if chars[i] == separator {
            let mut part: Vec<char> = Vec::new();
            std::mem::swap(&mut part, &mut current);
            done.push(part);
            assert(lists_of(done@).push(current@) =~= so_far.push(Seq::empty()));
        } else {
            let ghost old_current = current@;
            current.push(chars[i]);
            assert(lists_of(done@).push(current@) =~= so_far.update(
                so_far.len() - 1,
                so_far.last().push(chars@[i as int]),
            ));
        }
        i += 1;
    }
    assert(chars@.take(i as int) =~= chars@);
    let ghost last = current@;
    let ghost front = lists_of(done@);
    done.push(current);
    assert(lists_of(done@) =~= front.push(last));
    done
}

pub fn split_bytes(bytes: &[u8], separator: u8) -> (result: Vec<Vec<u8>>)
    ensures
        lists_of(result@) == split(bytes@, separator),
        result@.len() > 0,
{
    let mut done: Vec<Vec<u8>> = Vec::new();
    let mut current: Vec<u8> = Vec::new();
    let mut i: usize = 0;
    assert(lists_of(done@).push(current@) =~= seq![Seq::<u8>::empty()]);
    while i < bytes.len()
        invariant
            i <= bytes@.len(),
            lists_of(done@).push(current@) == split(bytes@.take(i as int), separator),
        decreases bytes@.len() - i,
    {
        let ghost so_far = lists_of(done@).push(current@);
        let ghost prefix = bytes@.take(i + 1);
        assert(prefix.drop_last() =~= bytes@.take(i as int));
        assert(prefix.last() == bytes@[i as int]);
        if bytes[i] == separator {
            let mut part: Vec<u8> = Vec::new();
            std::mem::swap(&mut part, &mut current);
            done.push(part);
            assert(lists_of(done@).push(current@) =~= so_far.push(Seq::empty()));
        } else {
            current.push(bytes[i]);
            assert(lists_of(done@).push(current@) =~= so_far.update(
                so_far.len() - 1,
                so_far.last().push(bytes@[i as int]),
            ));
        }
        i += 1;
    }
    assert(bytes@.take(i as int) =~= bytes@);
    let ghost last = current@;
    let ghost front = lists_of(done@);
    done.push(current);
    assert(lists_of(done@) =~= front.push(last));
    done
}

// Components

/// The raw encoding: a NUL and an even, nonempty run of hexadecimal digits.
pub open spec fn raw_digits(part: Seq<char>) -> bool {
    let digits = part.skip(1);
    digits.len() > 0 && digits.len() % 2 == 0 && all_hex(digits)
}

/// The file system bytes of one component.
pub open spec fn component(part: Seq<char>) -> Result<Seq<u8>, Problem> {
    if part.len() > 0 && part[0] == '\0' {
        if !raw_digits(part) {
            Err(Problem::InvalidRawPath)
        } else if valid_utf8(unhex(part.skip(1))) {
            Err(Problem::NoncanonicalRawPath)
        } else {
            Ok(unhex(part.skip(1)))
        }
    } else {
        Ok(encode_utf8(part))
    }
}

fn component_bytes(part: &Vec<char>) -> (result: Result<Vec<u8>, Problem>)
    ensures
        match result {
            Ok(bytes) => component(part@) == Ok::<Seq<u8>, Problem>(bytes@),
            Err(problem) => component(part@) == Err::<Seq<u8>, Problem>(problem),
        },
{
    if part.len() > 0 && part[0] == '\0' {
        let digits = vstd::slice::slice_subrange(part.as_slice(), 1, part.len());
        assert(digits@ =~= part@.skip(1));
        if digits.len() == 0 || digits.len() % 2 != 0 {
            return Err(Problem::InvalidRawPath);
        }
        let mut i: usize = 0;
        while i < digits.len()
            invariant
                i <= digits@.len(),
                digits@ == part@.skip(1),
                part@.len() > 0,
                part@[0] == '\0',
                forall|j: int| 0 <= j < i ==> crate::text::lower_hex(#[trigger] digits@[j]),
            decreases digits@.len() - i,
        {
            if !is_lower_hex(digits[i]) {
                assert(!all_hex(digits@));
                return Err(Problem::InvalidRawPath);
            }
            i += 1;
        }
        let bytes = unhex_chars(digits);
        match utf8_text(bytes.clone()) {
            Some(_) => Err(Problem::NoncanonicalRawPath),
            None => Ok(bytes),
        }
    } else {
        let text = text_of(part.as_slice());
        let bytes = vstd::slice::slice_to_vec(text.as_str().as_bytes());
        Ok(bytes)
    }
}

pub open spec fn ascii_lower(b: u8) -> u8 {
    if 65 <= b <= 90 {
        (b + 32) as u8
    } else {
        b
    }
}

/// Equal up to the case of ASCII letters.
pub open spec fn same_ignoring_case(a: Seq<u8>, b: Seq<u8>) -> bool {
    a.len() == b.len() && forall|i: int| 0 <= i < a.len() ==> ascii_lower(#[trigger] a[i]) == ascii_lower(b[i])
}

pub(crate) fn is_same_ignoring_case(a: &[u8], b: &[u8]) -> (result: bool)
    ensures
        result == same_ignoring_case(a@, b@),
{
    if a.len() != b.len() {
        return false;
    }
    let mut i: usize = 0;
    while i < a.len()
        invariant
            i <= a@.len(),
            a@.len() == b@.len(),
            forall|j: int| 0 <= j < i ==> ascii_lower(#[trigger] a@[j]) == ascii_lower(b@[j]),
        decreases a@.len() - i,
    {
        let x: u8 = if 65 <= a[i] && a[i] <= 90 { a[i] + 32 } else { a[i] };
        let y: u8 = if 65 <= b[i] && b[i] <= 90 { b[i] + 32 } else { b[i] };
        if x != y {
            assert(ascii_lower(a@[i as int]) != ascii_lower(b@[i as int]));
            return false;
        }
        i += 1;
    }
    true
}

/// `.kelp`
pub open spec fn kelp_directory() -> Seq<u8> {
    seq![46u8, 107u8, 101u8, 108u8, 112u8]
}

/// `.git`
pub open spec fn git_directory() -> Seq<u8> {
    seq![46u8, 103u8, 105u8, 116u8]
}

/// A component that may name a file: not empty, no traversal, no NUL or
/// separator, and not a metadata directory in any case.
pub open spec fn allowed(bytes: Seq<u8>) -> bool {
    &&& bytes.len() > 0
    &&& bytes != seq![46u8]
    &&& bytes != seq![46u8, 46u8]
    &&& !bytes.contains(0u8)
    &&& !bytes.contains(47u8)
    &&& !same_ignoring_case(bytes, kelp_directory())
    &&& !same_ignoring_case(bytes, git_directory())
}

fn is_allowed(bytes: &[u8]) -> (result: bool)
    ensures
        result == allowed(bytes@),
{
    if bytes.len() == 0 {
        return false;
    }
    if bytes.len() == 1 && bytes[0] == 46 {
        assert(bytes@ =~= seq![46u8]);
        return false;
    }
    if bytes.len() == 2 && bytes[0] == 46 && bytes[1] == 46 {
        assert(bytes@ =~= seq![46u8, 46u8]);
        return false;
    }
    let mut i: usize = 0;
    while i < bytes.len()
        invariant
            i <= bytes@.len(),
            forall|j: int| 0 <= j < i ==> #[trigger] bytes@[j] != 0 && bytes@[j] != 47,
        decreases bytes@.len() - i,
    {
        if bytes[i] == 0 || bytes[i] == 47 {
            assert(bytes@.contains(bytes@[i as int]));
            return false;
        }
        i += 1;
    }
    let kelp: [u8; 5] = [46, 107, 101, 108, 112];
    let git: [u8; 4] = [46, 103, 105, 116];
    assert(kelp@ =~= kelp_directory());
    assert(git@ =~= git_directory());
    !is_same_ignoring_case(bytes, &kelp) && !is_same_ignoring_case(bytes, &git)
}

// Display

/// `\u{..}` with as many digits as the value needs, for a value below 256.
pub open spec fn unicode_escape(value: int) -> Seq<char> {
    if value < 16 {
        seq!['\\', 'u', '{', hex_digit(value), '}']
    } else {
        seq!['\\', 'u', '{', hex_digit(value / 16), hex_digit(value % 16), '}']
    }
}

/// A character as shown to people: control characters are escaped.
pub open spec fn shown_char(c: char) -> Seq<char> {
    if !control(c) {
        seq![c]
    } else if c == '\t' {
        seq!['\\', 't']
    } else if c == '\r' {
        seq!['\\', 'r']
    } else if c == '\n' {
        seq!['\\', 'n']
    } else {
        unicode_escape(c as int)
    }
}

pub open spec fn shown_chars(chars: Seq<char>) -> Seq<char>
    decreases chars.len(),
{
    if chars.len() == 0 {
        Seq::empty()
    } else {
        shown_chars(chars.drop_last()) + shown_char(chars.last())
    }
}

/// Raw bytes as shown to people: `\x` and two digits each.
pub open spec fn shown_bytes(bytes: Seq<u8>) -> Seq<char>
    decreases bytes.len(),
{
    if bytes.len() == 0 {
        Seq::empty()
    } else {
        shown_bytes(bytes.drop_last()) + seq![
            '\\',
            'x',
            hex_digit(bytes.last() as int / 16),
            hex_digit(bytes.last() as int % 16),
        ]
    }
}

pub open spec fn shown_part(part: Seq<char>) -> Seq<char> {
    if part.len() > 0 && part[0] == '\0' {
        match component(part) {
            Ok(bytes) => shown_bytes(bytes),
            Err(_) => debug_escaped(part),
        }
    } else {
        shown_chars(part)
    }
}

/// A path as shown to people.
pub open spec fn shown(path: Seq<char>) -> Seq<char> {
    join(parts(path).map_values(|part: Seq<char>| shown_part(part)), seq!['/'])
}

fn push_text(text: &mut String, tail: &str)
    ensures
        final(text)@ == old(text)@ + tail@,
{
    vstd::string::StringExecFns::append(text, tail);
}

proof fn lemma_char_value(c: char)
    ensures
        (c as u32) as int == c as int,
{
    char_is_scalar(c);
}

fn show_chars(part: &Vec<char>) -> (text: String)
    ensures
        text@ == shown_chars(part@),
{
    let mut text = String::new();
    let mut i: usize = 0;
    assert(part@.take(0) =~= Seq::<char>::empty());
    while i < part.len()
        invariant
            i <= part@.len(),
            text@ == shown_chars(part@.take(i as int)),
        decreases part@.len() - i,
    {
        let ghost so_far = text@;
        let c: char = part[i];
        if !is_control(c) {
            text.push(c);
        } else {
            text.push('\\');
            if c == '\t' {
                text.push('t');
            } else if c == '\r' {
                text.push('r');
            } else if c == '\n' {
                text.push('n');
            } else {
                let value: u32 = c as u32;
                proof {
                    lemma_char_value(c);
                }
                assert(value == c as int && value <= 0x9f);
                let byte: [u8; 1] = [value as u8];
                let digits = chars_of(hex_text(&byte).as_str());
                assert(digits@ =~= seq![hex_digit(value as int / 16), hex_digit(value as int % 16)]) by {
                    assert(digits@.len() == 2);
                    assert(digits@[0] == hex_digit(byte@[0] as int / 16));
                    assert(digits@[1] == hex_digit(byte@[0] as int % 16));
                }
                text.push('u');
                text.push('{');
                if value >= 16 {
                    text.push(digits[0]);
                }
                text.push(digits[1]);
                text.push('}');
            }
        }
        proof {
            assert(part@.take(i + 1).drop_last() =~= part@.take(i as int));
            assert(text@ =~= so_far + shown_char(c));
        }
        i += 1;
    }
    assert(part@.take(i as int) =~= part@);
    text
}

fn show_bytes(bytes: &Vec<u8>) -> (text: String)
    ensures
        text@ == shown_bytes(bytes@),
{
    let mut text = String::new();
    let mut i: usize = 0;
    assert(bytes@.take(0) =~= Seq::<u8>::empty());
    while i < bytes.len()
        invariant
            i <= bytes@.len(),
            text@ == shown_bytes(bytes@.take(i as int)),
        decreases bytes@.len() - i,
    {
        let ghost so_far = text@;
        let byte: [u8; 1] = [bytes[i]];
        let digits = hex_text(&byte);
        text.push('\\');
        text.push('x');
        push_text(&mut text, digits.as_str());
        proof {
            assert(bytes@.take(i + 1).drop_last() =~= bytes@.take(i as int));
            assert(text@ =~= so_far + seq![
                '\\',
                'x',
                hex_digit(bytes@[i as int] as int / 16),
                hex_digit(bytes@[i as int] as int % 16),
            ]);
        }
        i += 1;
    }
    assert(bytes@.take(i as int) =~= bytes@);
    text
}

fn show_part(part: &Vec<char>) -> (text: String)
    ensures
        text@ == shown_part(part@),
{
    if part.len() > 0 && part[0] == '\0' {
        match component_bytes(part) {
            Ok(bytes) => show_bytes(&bytes),
            Err(_) => escape_debug(text_of(part.as_slice()).as_str()),
        }
    } else {
        show_chars(part)
    }
}

/// A path in a form that is safe to print.
pub fn display(path: &str) -> (text: String)
    ensures
        text@ == shown(path@),
{
    let list = split_chars(chars_of(path).as_slice(), '/');
    let mut texts: Vec<String> = Vec::new();
    let mut i: usize = 0;
    while i < list.len()
        invariant
            i <= list@.len(),
            lists_of(list@) == parts(path@),
            texts@.len() == i,
            forall|j: int| 0 <= j < i ==> (#[trigger] texts@[j])@ == shown_part(list@[j]@),
        decreases list@.len() - i,
    {
        texts.push(show_part(&list[i]));
        i += 1;
    }
    let mut separator = String::new();
    separator.push('/');
    proof {
        assert(separator@ =~= seq!['/']);
        assert(crate::text::texts(texts@) =~= parts(path@).map_values(|part: Seq<char>| shown_part(part))) by {
            assert forall|j: int| 0 <= j < list@.len() implies lists_of(list@)[j] == #[trigger] list@[j]@ by {}
        }
    }
    crate::text::join_texts(texts.as_slice(), separator.as_str())
}

// Validation

/// What is wrong with one component of `path`.
pub open spec fn part_check(path: Seq<char>, part: Seq<char>) -> Result<(), ErrorV> {
    match component(part) {
        Err(problem) => Err(plain(problem)),
        Ok(bytes) => if allowed(bytes) {
            Ok(())
        } else {
            Err(about(Problem::UnsupportedPath, shown(path)))
        },
    }
}

/// What is wrong with a path: the first problem along its components.
pub open spec fn path_check(path: Seq<char>) -> Result<(), ErrorV> {
    if path.len() == 0 {
        Err(plain(Problem::EmptyPath))
    } else {
        first_problem(parts(path), |part: Seq<char>| part_check(path, part))
    }
}

/// A path that names a file inside a project, and no metadata of it.
pub open spec fn valid_path(path: Seq<char>) -> bool {
    &&& path.len() > 0
    &&& forall|i: int|
        0 <= i < parts(path).len() ==> (component(#[trigger] parts(path)[i]) matches Ok(bytes)
            && allowed(bytes))
}

/// The check accepts exactly the valid paths.
pub proof fn accepted_paths_are_valid(path: Seq<char>)
    ensures
        path_check(path) is Ok <==> valid_path(path),
{
    let check = |part: Seq<char>| part_check(path, part);
    crate::error::lemma_first_problem(parts(path), check);
    if path.len() > 0 {
        if path_check(path) is Ok {
            assert forall|i: int| 0 <= i < parts(path).len() implies (component(#[trigger] parts(path)[i])
                matches Ok(bytes) && allowed(bytes)) by {
                assert(check(parts(path)[i]) is Ok);
            }
        }
        if valid_path(path) {
            assert forall|i: int| 0 <= i < parts(path).len() implies check(#[trigger] parts(path)[i]) is Ok by {
                assert(component(parts(path)[i]) is Ok);
            }
        }
    }
}

/// Check a project-relative path.
pub fn validate(path: &str) -> (result: Result<(), Error>)
    ensures
        verdict(result) == path_check(path@),
{
    if path.is_empty() {
        return Err(Error::plain(Problem::EmptyPath));
    }
    let list = split_chars(chars_of(path).as_slice(), '/');
    let ghost check = |part: Seq<char>| part_check(path@, part);
    let mut i: usize = 0;
    assert(parts(path@).skip(0) =~= parts(path@));
    while i < list.len()
        invariant
            i <= list@.len(),
            path@.len() > 0,
            lists_of(list@) == parts(path@),
            check == (|part: Seq<char>| part_check(path@, part)),
            path_check(path@) == first_problem(parts(path@).skip(i as int), check),
        decreases list@.len() - i,
    {
        proof {
            lemma_first_problem_step(parts(path@), check, i as int);
            assert(parts(path@)[i as int] == list@[i as int]@);
        }
        match component_bytes(&list[i]) {
            Err(problem) => {
                return Err(Error::plain(problem));
            },
            Ok(bytes) => {
                if !is_allowed(bytes.as_slice()) {
                    return Err(Error::about(Problem::UnsupportedPath, display(path)));
                }
            },
        }
        i += 1;
    }
    Ok(())
}

// Native bytes

/// The text that stands for one component's bytes.
pub open spec fn component_text(bytes: Seq<u8>) -> Seq<char> {
    if valid_utf8(bytes) {
        decode_utf8(bytes)
    } else {
        seq!['\0'] + hex(bytes)
    }
}

/// The text that stands for a native path.
pub open spec fn text_path(bytes: Seq<u8>) -> Seq<char> {
    join(split(bytes, 47u8).map_values(|part: Seq<u8>| component_text(part)), seq!['/'])
}

/// The result of reading a native path.
pub open spec fn read_path(bytes: Seq<u8>) -> Result<Seq<char>, ErrorV> {
    match path_check(text_path(bytes)) {
        Ok(()) => Ok(text_path(bytes)),
        Err(error) => Err(error),
    }
}

fn component_of(bytes: &Vec<u8>) -> (text: String)
    ensures
        text@ == component_text(bytes@),
{
    match utf8_text(bytes.clone()) {
        Some(text) => text,
        None => {
            let mut text = String::new();
            text.push('\0');
            push_text(&mut text, hex_text(bytes.as_slice()).as_str());
            assert(text@ =~= seq!['\0'] + hex(bytes@));
            text
        },
    }
}

/// The project path of a native path's bytes.
pub fn from_bytes(bytes: &[u8]) -> (result: Result<String, Error>)
    ensures
        outcome(result) == read_path(bytes@),
{
    let list = split_bytes(bytes, 47);
    let mut texts: Vec<String> = Vec::new();
    let mut i: usize = 0;
    while i < list.len()
        invariant
            i <= list@.len(),
            lists_of(list@) == split(bytes@, 47u8),
            texts@.len() == i,
            forall|j: int| 0 <= j < i ==> (#[trigger] texts@[j])@ == component_text(list@[j]@),
        decreases list@.len() - i,
    {
        texts.push(component_of(&list[i]));
        i += 1;
    }
    let mut separator = String::new();
    separator.push('/');
    proof {
        assert(separator@ =~= seq!['/']);
        assert(crate::text::texts(texts@) =~= split(bytes@, 47u8).map_values(
            |part: Seq<u8>| component_text(part),
        )) by {
            assert forall|j: int| 0 <= j < list@.len() implies lists_of(list@)[j] == #[trigger] list@[j]@ by {}
        }
    }
    let path = crate::text::join_texts(texts.as_slice(), separator.as_str());
    match validate(path.as_str()) {
        Ok(()) => Ok(path),
        Err(error) => Err(error),
    }
}

/// `parts` with a separator between neighbours.
pub open spec fn rejoin<T>(parts: Seq<Seq<T>>, separator: T) -> Seq<T>
    decreases parts.len(),
{
    if parts.len() == 0 {
        Seq::empty()
    } else if parts.len() == 1 {
        parts[0]
    } else {
        rejoin(parts.drop_last(), separator).push(separator) + parts.last()
    }
}

/// The native bytes of a valid path.
pub open spec fn native(path: Seq<char>) -> Seq<u8> {
    rejoin(parts(path).map_values(|part: Seq<char>| component(part)->Ok_0), 47u8)
}

/// The native bytes of a path: its components joined by `/`.
pub fn to_bytes(path: &str) -> (result: Result<Vec<u8>, Error>)
    ensures
        match result {
            Ok(bytes) => path_check(path@) is Ok && bytes@ == native(path@),
            Err(error) => path_check(path@) == Err::<(), ErrorV>(error@),
        },
{
    match validate(path) {
        Err(error) => {
            return Err(error);
        },
        Ok(()) => {},
    }
    let list = split_chars(chars_of(path).as_slice(), '/');
    let mut bytes: Vec<u8> = Vec::new();
    let mut i: usize = 0;
    let ghost all = parts(path@).map_values(|part: Seq<char>| component(part)->Ok_0);
    proof {
        accepted_paths_are_valid(path@);
    }
    while i < list.len()
        invariant
            i <= list@.len(),
            valid_path(path@),
            path_check(path@) is Ok,
            lists_of(list@) == parts(path@),
            all == parts(path@).map_values(|part: Seq<char>| component(part)->Ok_0),
            bytes@ == rejoin(all.take(i as int), 47u8),
        decreases list@.len() - i,
    {
        let ghost so_far = bytes@;
        assert(parts(path@)[i as int] == list@[i as int]@);
        if i > 0 {
            bytes.push(47);
        }
        match component_bytes(&list[i]) {
            Ok(part) => {
                crate::text::push_bytes(&mut bytes, part.as_slice());
                proof {
                    assert(all[i as int] == part@);
                    assert(all.take(i + 1).drop_last() =~= all.take(i as int));
                    assert(all.take(i + 1).last() == part@);
                    if i == 0 {
                        assert(bytes@ =~= part@);
                    }
                }
            },
            Err(problem) => {
                assert(false);
                return Err(Error::plain(problem));
            },
        }
        i += 1;
    }
    assert(all.take(i as int) =~= all);
    Ok(bytes)
}

// Parents

/// Where the last separator stands, or -1.
pub open spec fn last_slash(path: Seq<char>) -> int
    decreases path.len(),
{
    if path.len() == 0 {
        -1
    } else if path.last() == '/' {
        path.len() - 1
    } else {
        last_slash(path.drop_last())
    }
}

pub proof fn lemma_last_slash(path: Seq<char>)
    ensures
        -1 <= last_slash(path) < path.len(),
        last_slash(path) >= 0 ==> path[last_slash(path)] == '/',
        forall|i: int| last_slash(path) < i < path.len() ==> #[trigger] path[i] != '/',
    decreases path.len(),
{
    if path.len() > 0 && path.last() != '/' {
        lemma_last_slash(path.drop_last());
        assert forall|i: int| last_slash(path) < i < path.len() implies #[trigger] path[i] != '/' by {
            if i < path.len() - 1 {
                assert(path[i] == path.drop_last()[i]);
            }
        }
    }
}

/// The directories above a path, nearest first.
pub open spec fn ancestors(path: Seq<char>) -> Seq<Seq<char>>
    decreases path.len(),
{
    proof {
        lemma_last_slash(path);
    }
    if last_slash(path) < 0 {
        Seq::empty()
    } else {
        let parent = path.take(last_slash(path));
        seq![parent] + ancestors(parent)
    }
}

/// `path` lies below `directory`.
pub open spec fn below(path: Seq<char>, directory: Seq<char>) -> bool {
    &&& directory.len() < path.len()
    &&& path[directory.len() as int] == '/'
    &&& path.take(directory.len() as int) == directory
}

/// The ancestors of a path are exactly the directories that it lies below.
pub proof fn ancestors_hold_the_path(path: Seq<char>, directory: Seq<char>)
    ensures
        ancestors(path).contains(directory) <==> below(path, directory),
    decreases path.len(),
{
    lemma_last_slash(path);
    let at = last_slash(path);
    if at < 0 {
        assert(!ancestors(path).contains(directory));
        if below(path, directory) {
            assert(path[directory.len() as int] == '/');
        }
    } else {
        let parent = path.take(at);
        ancestors_hold_the_path(parent, directory);
        let rest = ancestors(parent);
        let all = seq![parent] + rest;
        if all.contains(directory) {
            let i = choose|i: int| 0 <= i < all.len() && all[i] == directory;
            if i > 0 {
                assert(rest[i - 1] == directory);
                assert(rest.contains(directory));
                assert(path.take(directory.len() as int) =~= parent.take(directory.len() as int));
            }
        }
        if below(path, directory) {
            let n = directory.len() as int;
            if n == at {
                assert(all[0] == directory);
            } else {
                assert(n < at);
                assert(parent.take(n) =~= path.take(n));
                assert(below(parent, directory));
                let i = choose|i: int| 0 <= i < rest.len() && rest[i] == directory;
                assert(all[i + 1] == directory);
            }
        }
    }
}

/// The directories above a path, nearest first.
pub fn parents_of(path: &str) -> (result: Vec<String>)
    ensures
        crate::text::texts(result@) == ancestors(path@),
{
    let chars = chars_of(path);
    let mut result: Vec<String> = Vec::new();
    let mut end: usize = chars.len();
    let ghost mut left = path@;
    assert(crate::text::texts(result@) =~= Seq::<Seq<char>>::empty());
    assert(crate::text::texts(result@) + ancestors(path@) =~= ancestors(path@));
    assert(path@.take(end as int) =~= path@);
    loop
        invariant
            end <= chars@.len(),
            chars@ == path@,
            left == path@.take(end as int),
            crate::text::texts(result@) + ancestors(left) == ancestors(path@),
        decreases end,
    {
        let mut at: usize = end;
        proof {
            lemma_last_slash(left);
        }
        assert(left.take(at as int) =~= left);
        while at > 0 && chars[at - 1] != '/'
            invariant
                at <= end,
                end <= chars@.len(),
                chars@ == path@,
                left == path@.take(end as int),
                last_slash(left) == last_slash(left.take(at as int)),
            decreases at,
        {
            let ghost shorter = left.take(at as int);
            assert(shorter.last() == chars@[at - 1]);
            assert(shorter.drop_last() =~= left.take(at - 1));
            at -= 1;
        }
        if at == 0 {
            assert(left.take(0).len() == 0);
            assert(last_slash(left) == -1);
            assert(ancestors(left) =~= Seq::<Seq<char>>::empty());
            assert(crate::text::texts(result@) + ancestors(left) =~= crate::text::texts(result@));
            return result;
        }
        let ghost shorter = left.take(at as int);
        assert(shorter.last() == '/');
        assert(last_slash(left) == at - 1);
        let ghost so_far = crate::text::texts(result@);
        let parent = text_of(vstd::slice::slice_subrange(chars.as_slice(), 0, at - 1));
        assert(parent@ =~= left.take(at - 1));
        result.push(parent);
        proof {
            assert(crate::text::texts(result@) =~= so_far.push(left.take(at - 1)));
            let next = left.take(at - 1);
            assert(ancestors(left) =~= seq![next] + ancestors(next));
            assert(so_far.push(next) + ancestors(next) =~= so_far + ancestors(left));
            assert(next =~= path@.take(at - 1));
            left = next;
        }
        end = at - 1;
    }
}

// Laws

proof fn lemma_join_is_rejoin(list: Seq<Seq<char>>)
    ensures
        join(list, seq!['/']) == rejoin(list, '/'),
    decreases list.len(),
{
    if list.len() > 1 {
        lemma_join_is_rejoin(list.drop_last());
        assert(rejoin(list.drop_last(), '/').push('/') =~= rejoin(list.drop_last(), '/') + seq!['/']);
    }
}

proof fn lemma_rejoin_last<T>(list: Seq<Seq<T>>, separator: T, item: T)
    requires
        list.len() > 0,
    ensures
        rejoin(list.update(list.len() - 1, list.last().push(item)), separator) == rejoin(list, separator).push(
            item,
        ),
        rejoin(list.push(Seq::empty()), separator) == rejoin(list, separator).push(separator),
{
    let longer = list.update(list.len() - 1, list.last().push(item));
    assert(longer.drop_last() =~= list.drop_last());
    assert(longer.last() =~= list.last().push(item));
    assert(rejoin(longer, separator) =~= rejoin(list, separator).push(item));
    let more = list.push(Seq::empty());
    assert(more.drop_last() =~= list);
    assert(rejoin(more, separator) =~= rejoin(list, separator).push(separator));
}

/// Joining the parts of a split gives back what was split.
pub proof fn split_then_join<T>(items: Seq<T>, separator: T)
    ensures
        rejoin(split(items, separator), separator) == items,
    decreases items.len(),
{
    if items.len() == 0 {
        assert(rejoin(split(items, separator), separator) =~= items);
    } else {
        split_then_join(items.drop_last(), separator);
        lemma_split(items.drop_last(), separator);
        let list = split(items.drop_last(), separator);
        lemma_rejoin_last(list, separator, items.last());
        assert(items =~= items.drop_last().push(items.last()));
    }
}

proof fn lemma_split_append<T>(head: Seq<T>, tail: Seq<T>, separator: T)
    requires
        forall|i: int| 0 <= i < tail.len() ==> #[trigger] tail[i] != separator,
    ensures
        split(head.push(separator) + tail, separator) == split(head, separator).push(tail),
    decreases tail.len(),
{
    let all = head.push(separator) + tail;
    if tail.len() == 0 {
        assert(all =~= head.push(separator));
        assert(all.drop_last() =~= head);
        assert(tail =~= Seq::empty());
    } else {
        let shorter = tail.drop_last();
        lemma_split_append(head, shorter, separator);
        assert(all.drop_last() =~= head.push(separator) + shorter);
        assert(all.last() == tail.last());
        assert(tail.last() != separator);
        let list = split(head, separator).push(shorter);
        assert(list.update(list.len() - 1, list.last().push(tail.last())) =~= split(head, separator).push(tail)) by {
            assert(shorter.push(tail.last()) =~= tail);
        }
    }
}

proof fn lemma_split_single<T>(items: Seq<T>, separator: T)
    requires
        forall|i: int| 0 <= i < items.len() ==> #[trigger] items[i] != separator,
    ensures
        split(items, separator) == seq![items],
    decreases items.len(),
{
    if items.len() > 0 {
        lemma_split_single(items.drop_last(), separator);
        assert(items.last() != separator);
        assert(seq![items.drop_last()].update(0, items.drop_last().push(items.last())) =~= seq![items]) by {
            assert(items.drop_last().push(items.last()) =~= items);
        }
    } else {
        assert(items =~= Seq::empty());
    }
}

/// Splitting joined parts gives back the parts, where none of them holds the
/// separator.
pub proof fn join_then_split<T>(list: Seq<Seq<T>>, separator: T)
    requires
        list.len() > 0,
        forall|i: int, j: int|
            0 <= i < list.len() && 0 <= j < list[i].len() ==> #[trigger] list[i][j] != separator,
    ensures
        split(rejoin(list, separator), separator) == list,
    decreases list.len(),
{
    if list.len() == 1 {
        assert forall|j: int| 0 <= j < list[0].len() implies #[trigger] list[0][j] != separator by {}
        lemma_split_single(list[0], separator);
        assert(list =~= seq![list[0]]);
    } else {
        let front = list.drop_last();
        assert forall|i: int, j: int| 0 <= i < front.len() && 0 <= j < front[i].len() implies #[trigger] front[i][j]
            != separator by {
            assert(list[i][j] != separator);
        }
        join_then_split(front, separator);
        assert forall|j: int| 0 <= j < list.last().len() implies #[trigger] list.last()[j] != separator by {
            assert(list[list.len() - 1][j] != separator);
        }
        lemma_split_append(rejoin(front, separator), list.last(), separator);
        assert(front.push(list.last()) =~= list);
    }
}

proof fn lemma_slash_encodes(chars: Seq<char>, i: int)
    requires
        0 <= i < chars.len(),
        chars[i] == '/',
    ensures
        encode_utf8(chars).contains(47u8),
    decreases chars.len(),
{
    let first = encode_scalar(chars[0] as u32);
    let rest = encode_utf8(chars.drop_first());
    let all = encode_utf8(chars);
    if i == 0 {
        assert(first =~= seq![47u8]) by {
            assert('/' as u32 == 47u32);
            assert(leading_byte_width_1(47u32) == 47u8) by (bit_vector);
        }
        assert(all[0] == 47u8);
    } else {
        lemma_slash_encodes(chars.drop_first(), i - 1);
        let j = choose|j: int| 0 <= j < rest.len() && rest[j] == 47u8;
        assert(all[first.len() + j] == 47u8);
    }
}

proof fn lemma_component_text(bytes: Seq<u8>)
    requires
        !bytes.contains(0u8),
        !bytes.contains(47u8),
    ensures
        component(component_text(bytes)) == Ok::<Seq<u8>, Problem>(bytes),
        forall|i: int|
            0 <= i < component_text(bytes).len() ==> #[trigger] component_text(bytes)[i] != '/',
{
    let text = component_text(bytes);
    if valid_utf8(bytes) {
        decode_utf8_encode_utf8(bytes);
        if text.len() > 0 && text[0] == '\0' {
            assert(encode_scalar('\0' as u32) =~= seq![0u8]) by {
                assert('\0' as u32 == 0u32);
                assert(leading_byte_width_1(0u32) == 0u8) by (bit_vector);
            }
            assert(bytes[0] == 0u8);
            assert(bytes.contains(0u8));
        }
        assert forall|i: int| 0 <= i < text.len() implies #[trigger] text[i] != '/' by {
            if text[i] == '/' {
                lemma_slash_encodes(text, i);
            }
        }
    } else {
        assert(bytes.len() > 0);
        crate::encoding::hex_round_trip(bytes);
        assert(text.skip(1) =~= hex(bytes));
        assert forall|i: int| 0 <= i < text.len() implies #[trigger] text[i] != '/' by {
            if i > 0 {
                assert(text[i] == hex(bytes)[i - 1]);
                assert(crate::text::lower_hex(hex(bytes)[i - 1]));
            }
        }
    }
}

/// Reading a native path loses nothing: its text stands for the very bytes
/// that were read. No file system name holds a NUL.
pub proof fn native_bytes_survive(bytes: Seq<u8>)
    requires
        !bytes.contains(0u8),
        read_path(bytes) is Ok,
    ensures
        native(read_path(bytes)->Ok_0) == bytes,
{
    let list = split(bytes, 47u8);
    let texts = list.map_values(|part: Seq<u8>| component_text(part));
    lemma_split(bytes, 47u8);
    split_then_join(bytes, 47u8);
    assert forall|i: int| 0 <= i < list.len() implies !(#[trigger] list[i]).contains(0u8) && !list[i].contains(47u8) by {
        lemma_part_items(bytes, 47u8, i);
    }
    assert forall|i: int, j: int| 0 <= i < texts.len() && 0 <= j < texts[i].len() implies #[trigger] texts[i][j]
        != '/' by {
        lemma_component_text(list[i]);
    }
    lemma_join_is_rejoin(texts);
    join_then_split(texts, '/');
    let path = text_path(bytes);
    assert(parts(path) == texts);
    let back = parts(path).map_values(|part: Seq<char>| component(part)->Ok_0);
    assert forall|i: int| 0 <= i < list.len() implies #[trigger] back[i] == list[i] by {
        lemma_component_text(list[i]);
    }
    assert(back =~= list);
}

proof fn lemma_part_items<T>(items: Seq<T>, separator: T, i: int)
    requires
        0 <= i < split(items, separator).len(),
    ensures
        forall|x: T| #[trigger] split(items, separator)[i].contains(x) ==> items.contains(x) && x != separator,
    decreases items.len(),
{
    lemma_split(items, separator);
    let list = split(items, separator);
    assert forall|x: T| #[trigger] list[i].contains(x) implies items.contains(x) && x != separator by {
        let j = choose|j: int| 0 <= j < list[i].len() && list[i][j] == x;
        assert(list[i][j] != separator);
        let shorter = items.drop_last();
        let old_list = split(shorter, separator);
        lemma_split(shorter, separator);
        if i < old_list.len() {
            lemma_part_items(shorter, separator, i);
            if j < old_list[i].len() {
                assert(old_list[i][j] == x);
                assert(old_list[i].contains(x));
                assert(shorter.contains(x));
                let k = choose|k: int| 0 <= k < shorter.len() && shorter[k] == x;
                assert(items[k] == x);
            } else {
                assert(items[items.len() - 1] == x);
            }
        }
    }
}

/// Writing a valid path and reading it again gives back the same text, so no
/// two valid paths name the same file.
pub proof fn valid_paths_survive(path: Seq<char>)
    requires
        valid_path(path),
    ensures
        read_path(native(path)) == Ok::<Seq<char>, ErrorV>(path),
{
    let list = parts(path);
    let bytes = list.map_values(|part: Seq<char>| component(part)->Ok_0);
    lemma_split(path, '/');
    split_then_join(path, '/');
    assert forall|i: int, j: int| 0 <= i < bytes.len() && 0 <= j < bytes[i].len() implies #[trigger] bytes[i][j]
        != 47u8 by {
        assert(component(parts(path)[i]) is Ok);
        assert(bytes[i].contains(bytes[i][j]));
    }
    join_then_split(bytes, 47u8);
    let texts = split(native(path), 47u8).map_values(|part: Seq<u8>| component_text(part));
    assert forall|i: int| 0 <= i < list.len() implies #[trigger] texts[i] == list[i] by {
        let part = parts(path)[i];
        assert(component(part) is Ok);
        if part.len() > 0 && part[0] == '\0' {
            crate::encoding::unhex_round_trip(part.skip(1));
            assert(part =~= seq!['\0'] + part.skip(1));
        } else {
            encode_utf8_valid_utf8(part);
            encode_utf8_decode_utf8(part);
        }
    }
    assert(texts =~= list);
    lemma_join_is_rejoin(texts);
    accepted_paths_are_valid(path);
}

} // verus!
