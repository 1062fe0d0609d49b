//! Immutable content: object hashes, file entries, snapshots, and the records
//! that are exchanged about them. The envelope that is hashed stays the same
//! across versions of the network protocol.
use vstd::prelude::*;
use vstd::string::*;
use vstd::utf8::*;

use crate::collections::{keys_of, TextMap, Value};
use crate::encoding::{decimal, decimal_text, hex, hex_text};
use crate::error::{
    about, first_problem, lemma_first_problem, lemma_first_problem_step, outcome, plain, verdict, Error, ErrorV,
    Problem,
};
use crate::json::{quoted, Json};
use crate::paths::{ancestors, below, parents_of, path_check, valid_path};
use crate::text::{blank, chars_of, is_blank, is_lower_hex, is_name_char, lower_hex, name_char, push_bytes, texts};

verus! {

pub const PROTOCOL: &'static str = "kelp/0";

pub const OBJECT_FORMAT: &'static str = "kelp/0";

/// 16 MiB
pub const MAX_BLOB_BYTES: usize = 16_777_216;

/// 2 MiB
pub const MAX_METADATA_BYTES: usize = 2_097_152;

/// The longest message, in bytes.
pub const MAX_MESSAGE_BYTES: usize = 16_384;

// Hashes

/// What SHA-256 yields for a byte string.
pub uninterp spec fn sha256_digest(bytes: Seq<u8>) -> Seq<u8>;

/// Wraps `sha2::Sha256::digest`, whose result is named here and is always 32
/// bytes long.
#[verifier::external_body]
pub(crate) fn sha256(bytes: &[u8]) -> (digest: Vec<u8>)
    ensures
        digest@ == sha256_digest(bytes@),
        digest@.len() == 32,
{
    <sha2::Sha256 as sha2::Digest>::digest(bytes).to_vec()
}

/// What stands in front of an object's bytes when it is hashed.
pub open spec fn envelope_head(kind: Seq<char>, length: nat) -> Seq<char> {
    "kelp/0\0"@ + kind + "\0"@ + decimal(length) + "\0"@
}

/// What is hashed for an object: its kind, its length and its bytes.
pub open spec fn envelope(kind: Seq<char>, bytes: Seq<u8>) -> Seq<u8> {
    encode_utf8(envelope_head(kind, bytes.len())) + bytes
}

/// The identity of an object.
pub open spec fn object_hash(kind: Seq<char>, bytes: Seq<u8>) -> Seq<char> {
    hex(sha256_digest(envelope(kind, bytes)))
}

/// The identity of an object. Its kind and length are hashed along with its
/// bytes, so that objects of different kinds are never confused.
pub fn object_id(kind: &str, bytes: &[u8]) -> (id: String)
    ensures
        id@ == object_hash(kind@, bytes@),
        valid_hash(id@),
{
    let mut head = "kelp/0\0".to_owned();
    head.append(kind);
    head.append("\0");
    let length = decimal_text(bytes.len() as u64);
    head.append(length.as_str());
    head.append("\0");
    assert(bytes@.len() == bytes.len());
    let mut input: Vec<u8> = Vec::new();
    push_bytes(&mut input, head.as_str().as_bytes());
    push_bytes(&mut input, bytes);
    assert(input@ =~= envelope(kind@, bytes@));
    let digest = sha256(input.as_slice());
    let id = hex_text(digest.as_slice());
    proof {
        crate::encoding::hex_round_trip(digest@);
        assert forall|i: int| 0 <= i < id@.len() implies lower_hex(#[trigger] id@[i]) by {}
    }
    id
}

/// Two objects have the same envelope only where they agree in kind and bytes.
/// Kinds hold no NUL.
pub proof fn envelopes_identify_objects(
    first_kind: Seq<char>,
    first: Seq<u8>,
    second_kind: Seq<char>,
    second: Seq<u8>,
)
    requires
        !first_kind.contains('\0'),
        !second_kind.contains('\0'),
        envelope(first_kind, first) == envelope(second_kind, second),
    ensures
        first_kind == second_kind,
        first == second,
{
    envelope_split(first_kind, first);
    envelope_split(second_kind, second);
    let all = envelope(first_kind, first);
    let intro = encode_utf8("kelp/0\0"@);
    assert(all.skip(intro.len() as int) =~= encode_utf8(first_kind) + seq![0u8] + encode_utf8(
        decimal(first.len()),
    ) + seq![0u8] + first);
    let x = encode_utf8(first_kind);
    let y = encode_utf8(second_kind);
    let x2 = encode_utf8(decimal(first.len())) + seq![0u8] + first;
    let y2 = encode_utf8(decimal(second.len())) + seq![0u8] + second;
    let rest = all.skip(intro.len() as int);
    assert(rest =~= x + seq![0u8] + x2);
    assert(rest =~= y + seq![0u8] + y2);
    lemma_no_nul(first_kind);
    lemma_no_nul(second_kind);
    lemma_first_nul(x, x2, y, y2);
    encode_utf8_decode_utf8(first_kind);
    encode_utf8_decode_utf8(second_kind);
    lemma_decimal_no_nul(first.len());
    lemma_decimal_no_nul(second.len());
    lemma_no_nul(decimal(first.len()));
    lemma_no_nul(decimal(second.len()));
    assert(x2 == y2);
    lemma_first_nul(encode_utf8(decimal(first.len())), first, encode_utf8(decimal(second.len())), second);
}

proof fn envelope_split(kind: Seq<char>, bytes: Seq<u8>)
    ensures
        envelope(kind, bytes) == encode_utf8("kelp/0\0"@) + encode_utf8(kind) + seq![0u8] + encode_utf8(
            decimal(bytes.len()),
        ) + seq![0u8] + bytes,
{
    let digits = decimal(bytes.len());
    reveal_strlit("\0");
    assert("\0"@ =~= seq!['\0']);
    assert(encode_utf8("\0"@) =~= seq![0u8]) by {
        assert(encode_scalar('\0' as u32) =~= seq![0u8]) by {
            assert('\0' as u32 == 0u32);
            assert(leading_byte_width_1(0u32) == 0u8) by (bit_vector);
        }
        assert("\0"@.drop_first() =~= Seq::<char>::empty());
        assert(encode_utf8(Seq::<char>::empty()) =~= Seq::<u8>::empty());
    }
    lemma_encode_concat("kelp/0\0"@ + kind + "\0"@ + digits, "\0"@);
    lemma_encode_concat("kelp/0\0"@ + kind + "\0"@, digits);
    lemma_encode_concat("kelp/0\0"@ + kind, "\0"@);
    lemma_encode_concat("kelp/0\0"@, kind);
}

/// Encoding goes character by character.
pub proof fn lemma_encode_concat(a: Seq<char>, b: Seq<char>)
    ensures
        encode_utf8(a + b) == encode_utf8(a) + encode_utf8(b),
    decreases a.len(),
{
    if a.len() == 0 {
        assert(a + b =~= b);
        assert(encode_utf8(a) =~= Seq::<u8>::empty());
        assert(encode_utf8(a) + encode_utf8(b) =~= encode_utf8(b));
    } else {
        lemma_encode_concat(a.drop_first(), b);
        assert((a + b).drop_first() =~= a.drop_first() + b);
        assert(encode_utf8(a + b) =~= encode_utf8(a) + encode_utf8(b));
    }
}

proof fn lemma_scalar_no_nul(c: char)
    requires
        c != '\0',
    ensures
        !encode_scalar(c as u32).contains(0u8),
{
    let v = c as u32;
    char_is_scalar(c);
    assert(v != 0u32) by {
        assert((c as u32) as int == c as int);
    }
    assert((v != 0u32 && v <= 0x7f ==> leading_byte_width_1(v) != 0u8) && leading_byte_width_2(v) != 0u8
        && leading_byte_width_3(v) != 0u8 && leading_byte_width_4(v) != 0u8 && last_continuation_byte(v)
        != 0u8 && second_last_continuation_byte(v) != 0u8 && third_last_continuation_byte(v) != 0u8)
        by (bit_vector);
    let bytes = encode_scalar(v);
    assert forall|i: int| 0 <= i < bytes.len() implies bytes[i] != 0u8 by {}
}

/// Only a NUL encodes to a NUL.
proof fn lemma_no_nul(text: Seq<char>)
    requires
        !text.contains('\0'),
    ensures
        !encode_utf8(text).contains(0u8),
    decreases text.len(),
{
    if text.len() > 0 {
        let first = encode_scalar(text[0] as u32);
        let rest = encode_utf8(text.drop_first());
        assert(text.contains(text[0]));
        lemma_scalar_no_nul(text[0]);
        assert(!text.drop_first().contains('\0')) by {
            if text.drop_first().contains('\0') {
                let i = choose|i: int| 0 <= i < text.drop_first().len() && text.drop_first()[i] == '\0';
                assert(text[i + 1] == '\0');
            }
        }
        lemma_no_nul(text.drop_first());
        let all = encode_utf8(text);
        assert(all =~= first + rest);
        assert forall|i: int| 0 <= i < all.len() implies all[i] != 0u8 by {
            if i < first.len() {
                assert(first.contains(first[i]));
            } else {
                assert(rest.contains(rest[i - first.len()]));
            }
        }
    } else {
        assert(encode_utf8(text) =~= Seq::<u8>::empty());
    }
}

proof fn lemma_decimal_no_nul(n: nat)
    ensures
        !decimal(n).contains('\0'),
    decreases n,
{
    if n >= 10 {
        lemma_decimal_no_nul(n / 10);
        let front = decimal(n / 10);
        let all = decimal(n);
        assert forall|i: int| 0 <= i < all.len() implies all[i] != '\0' by {
            if i < front.len() {
                assert(front.contains(front[i]));
            }
        }
    }
}

/// What stands before the first NUL is determined by the whole.
proof fn lemma_first_nul(a: Seq<u8>, after_a: Seq<u8>, b: Seq<u8>, after_b: Seq<u8>)
    requires
        !a.contains(0u8),
        !b.contains(0u8),
        a + seq![0u8] + after_a == b + seq![0u8] + after_b,
    ensures
        a == b,
        after_a == after_b,
{
    let x = a + seq![0u8] + after_a;
    let y = b + seq![0u8] + after_b;
    if a.len() < b.len() {
        assert(x[a.len() as int] == 0u8);
        assert(y[a.len() as int] == b[a.len() as int]);
        assert(b.contains(b[a.len() as int]));
    }
    if b.len() < a.len() {
        assert(y[b.len() as int] == 0u8);
        assert(x[b.len() as int] == a[b.len() as int]);
        assert(a.contains(a[b.len() as int]));
    }
    assert(a =~= x.take(a.len() as int));
    assert(b =~= y.take(b.len() as int));
    assert(after_a =~= x.skip(a.len() as int + 1));
    assert(after_b =~= y.skip(b.len() as int + 1));
}

/// 64 lowercase hexadecimal digits.
pub open spec fn valid_hash(id: Seq<char>) -> bool {
    &&& id.len() == 64
    &&& forall|i: int| 0 <= i < id.len() ==> lower_hex(#[trigger] id[i])
}

pub open spec fn hash_check(id: Seq<char>) -> Result<(), ErrorV> {
    if valid_hash(id) {
        Ok(())
    } else {
        Err(about(Problem::InvalidObjectId, id))
    }
}

/// Check the form of an object's identity.
pub fn validate_hash(id: &str) -> (result: Result<(), Error>)
    ensures
        verdict(result) == hash_check(id@),
{
    let chars = chars_of(id);
    let mut fits = chars.len() == 64;
    let mut i: usize = 0;
    while i < chars.len()
        invariant
            i <= chars@.len(),
            chars@ == id@,
            fits <==> id@.len() == 64 && forall|j: int| 0 <= j < i ==> lower_hex(#[trigger] id@[j]),
        decreases chars@.len() - i,
    {
        if !is_lower_hex(chars[i]) {
            fits = false;
        }
        i += 1;
    }
    if fits {
        Ok(())
    } else {
        Err(Error::about(Problem::InvalidObjectId, id.to_owned()))
    }
}

/// 1 to 128 ASCII letters, digits, hyphens or underscores.
pub open spec fn valid_name(name: Seq<char>) -> bool {
    &&& 1 <= name.len() <= 128
    &&& forall|i: int| 0 <= i < name.len() ==> name_char(#[trigger] name[i])
}

pub open spec fn name_check(name: Seq<char>) -> Result<(), ErrorV> {
    if valid_name(name) {
        Ok(())
    } else {
        Err(plain(Problem::InvalidName))
    }
}

/// Check the name of a project, a change or a request.
pub fn validate_name(name: &str) -> (result: Result<(), Error>)
    ensures
        verdict(result) == name_check(name@),
{
    let chars = chars_of(name);
    let mut fits = 1 <= chars.len() && chars.len() <= 128;
    let mut i: usize = 0;
    while i < chars.len()
        invariant
            i <= chars@.len(),
            chars@ == name@,
            fits <==> 1 <= name@.len() <= 128 && forall|j: int|
                0 <= j < i ==> name_char(#[trigger] name@[j]),
        decreases chars@.len() - i,
    {
        if !is_name_char(chars[i]) {
            fits = false;
        }
        i += 1;
    }
    if fits {
        Ok(())
    } else {
        Err(Error::plain(Problem::InvalidName))
    }
}

/// Relative native file names, excluding traversal and metadata directories.
pub fn validate_path(path: &str) -> (result: Result<(), Error>)
    ensures
        verdict(result) == path_check(path@),
{
    crate::paths::validate(path)
}

// File entries

/// What a file entry stands for.
#[derive(Debug, Clone, Copy, PartialEq, Eq, Structural)]
pub enum EntryKind {
    Regular,
    Chunked,
    Symlink,
    SymlinkDirectory,
}

impl Default for EntryKind {
    fn default() -> (kind: EntryKind)
        ensures
            kind is Regular,
    {
        EntryKind::Regular
    }
}

impl EntryKind {
    pub open spec fn regular(self) -> bool {
        self is Regular
    }

    pub open spec fn symlink(self) -> bool {
        self is Symlink || self is SymlinkDirectory
    }

    pub fn is_regular(&self) -> (result: bool)
        ensures
            result == self.regular(),
    {
        match self {
            EntryKind::Regular => true,
            _ => false,
        }
    }

    pub fn is_symlink(self) -> (result: bool)
        ensures
            result == self.symlink(),
    {
        match self {
            EntryKind::Symlink => true,
            EntryKind::SymlinkDirectory => true,
            _ => false,
        }
    }

    /// The name of a kind in canonical JSON.
    pub open spec fn label(self) -> Seq<char> {
        match self {
            EntryKind::Regular => "regular"@,
            EntryKind::Chunked => "chunked"@,
            EntryKind::Symlink => "symlink"@,
            EntryKind::SymlinkDirectory => "symlink-directory"@,
        }
    }

    fn label_text(self) -> (text: &'static str)
        ensures
            text@ == self.label(),
    {
        match self {
            EntryKind::Regular => "regular",
            EntryKind::Chunked => "chunked",
            EntryKind::Symlink => "symlink",
            EntryKind::SymlinkDirectory => "symlink-directory",
        }
    }
}

/// One version of one file.
#[derive(Debug)]
pub struct FileEntry {
    pub blob: String,
    pub size: u64,
    pub executable: bool,
    pub kind: EntryKind,
}

/// The mathematical value of a `FileEntry`.
pub struct FileEntryV {
    pub blob: Seq<char>,
    pub size: u64,
    pub executable: bool,
    pub kind: EntryKind,
}

impl View for FileEntry {
    type V = FileEntryV;

    open spec fn view(&self) -> FileEntryV {
        FileEntryV { blob: self.blob@, size: self.size, executable: self.executable, kind: self.kind }
    }
}

impl DeepView for FileEntry {
    type V = FileEntryV;

    open spec fn deep_view(&self) -> FileEntryV {
        self@
    }
}

impl Value for FileEntry {
    fn copied(&self) -> (result: Self) {
        FileEntry {
            blob: self.blob.clone(),
            size: self.size,
            executable: self.executable,
            kind: self.kind,
        }
    }

    fn same(&self, other: &Self) -> (result: bool) {
        let result = crate::text::same_text(self.blob.as_str(), other.blob.as_str()) && self.size
            == other.size && self.executable == other.executable && self.kind == other.kind;
        result
    }
}

impl Clone for FileEntry {
    fn clone(&self) -> (result: Self)
        ensures
            result@ == self@,
    {
        self.copied()
    }
}

impl PartialEq for FileEntry {
    fn eq(&self, other: &FileEntry) -> (result: bool) {
        self.same(other)
    }
}

impl vstd::std_specs::cmp::PartialEqSpecImpl for FileEntry {
    open spec fn obeys_eq_spec() -> bool {
        true
    }

    open spec fn eq_spec(&self, other: &FileEntry) -> bool {
        self@ == other@
    }
}

impl Default for FileEntry {
    fn default() -> (entry: FileEntry)
        ensures
            entry@ == (FileEntryV {
                blob: Seq::empty(),
                size: 0,
                executable: false,
                kind: EntryKind::Regular,
            }),
    {
        let entry = FileEntry {
            blob: String::new(),
            size: 0,
            executable: false,
            kind: EntryKind::Regular,
        };
        assert(entry.blob@ =~= Seq::<char>::empty());
        entry
    }
}

impl Json for FileEntry {
    open spec fn json_of(value: FileEntryV) -> Seq<char> {
        "{\"blob\":"@ + quoted(value.blob) + ",\"size\":"@ + decimal(value.size as nat)
            + ",\"executable\":"@ + bool::json_of(value.executable) + (if value.kind.regular() {
            Seq::empty()
        } else {
            ",\"kind\":\""@ + value.kind.label() + "\""@
        }) + "}"@
    }

    fn to_json(&self) -> (text: String) {
        let mut text = "{\"blob\":".to_owned();
        let blob = self.blob.to_json();
        text.append(blob.as_str());
        text.append(",\"size\":");
        let size = self.size.to_json();
        text.append(size.as_str());
        text.append(",\"executable\":");
        let executable = self.executable.to_json();
        text.append(executable.as_str());
        let ghost so_far = text@;
        if !self.kind.is_regular() {
            text.append(",\"kind\":\"");
            text.append(self.kind.label_text());
            text.append("\"");
            assert(text@ =~= so_far + (",\"kind\":\""@ + self.kind.label() + "\""@));
        } else {
            assert(so_far + Seq::<char>::empty() =~= so_far);
        }
        text.append("}");
        text
    }
}

/// What is wrong with a file entry.
pub open spec fn entry_check(entry: FileEntryV) -> Result<(), ErrorV> {
    if !valid_hash(entry.blob) {
        Err(about(Problem::InvalidObjectId, entry.blob))
    } else if entry.kind != EntryKind::Chunked && entry.size > MAX_BLOB_BYTES {
        Err(plain(Problem::UnchunkedTooLarge))
    } else if entry.kind.symlink() && entry.executable {
        Err(plain(Problem::ExecutableSymlink))
    } else {
        Ok(())
    }
}

impl FileEntry {
    pub fn validate(&self) -> (result: Result<(), Error>)
        ensures
            verdict(result) == entry_check(self@),
    {
        validate_hash(self.blob.as_str())?;
        if self.kind != EntryKind::Chunked && self.size > MAX_BLOB_BYTES as u64 {
            return Err(Error::plain(Problem::UnchunkedTooLarge));
        }
        if self.kind.is_symlink() && self.executable {
            return Err(Error::plain(Problem::ExecutableSymlink));
        }
        Ok(())
    }
}

// Snapshots

/// The files of a project at one moment.
#[derive(Debug)]
pub struct Snapshot {
    pub files: TextMap<FileEntry>,
}

impl View for Snapshot {
    type V = Map<Seq<char>, FileEntryV>;

    open spec fn view(&self) -> Self::V {
        self.files@
    }
}

impl DeepView for Snapshot {
    type V = Map<Seq<char>, FileEntryV>;

    open spec fn deep_view(&self) -> Self::V {
        self.files@
    }
}

impl Clone for Snapshot {
    fn clone(&self) -> (result: Self)
        ensures
            result@ == self@,
    {
        Snapshot { files: self.files.copied() }
    }
}

impl PartialEq for Snapshot {
    fn eq(&self, other: &Snapshot) -> (result: bool) {
        self.files.same(&other.files)
    }
}

impl vstd::std_specs::cmp::PartialEqSpecImpl for Snapshot {
    open spec fn obeys_eq_spec() -> bool {
        true
    }

    open spec fn eq_spec(&self, other: &Snapshot) -> bool {
        self@ == other@
    }
}

impl Default for Snapshot {
    fn default() -> (snapshot: Snapshot)
        ensures
            snapshot@ == Map::<Seq<char>, FileEntryV>::empty(),
    {
        Snapshot { files: TextMap::new() }
    }
}

/// A file may not stand where another file needs a directory.
pub open spec fn collision_check<T>(files: Map<Seq<char>, T>, directory: Seq<char>) -> Result<(), ErrorV> {
    if files.contains_key(directory) {
        Err(about(Problem::PathCollision, directory))
    } else {
        Ok(())
    }
}

/// What is wrong with one file of a snapshot.
pub open spec fn file_check(files: Map<Seq<char>, FileEntryV>, path: Seq<char>) -> Result<(), ErrorV> {
    match path_check(path) {
        Err(error) => Err(error),
        Ok(()) => match entry_check(files[path]) {
            Err(error) => Err(error),
            Ok(()) => first_problem(
                ancestors(path),
                |directory: Seq<char>| collision_check(files, directory),
            ),
        },
    }
}

/// What is wrong with a snapshot: the first problem along its paths.
pub open spec fn snapshot_check(files: Map<Seq<char>, FileEntryV>) -> Result<(), ErrorV> {
    first_problem(keys_of(files), |path: Seq<char>| file_check(files, path))
}

/// A snapshot as text.
pub open spec fn snapshot_json(files: Map<Seq<char>, FileEntryV>) -> Seq<char> {
    "{\"files\":"@ + TextMap::<FileEntry>::json_of(files) + "}"@
}

/// The identity of a snapshot.
pub open spec fn snapshot_id(files: Map<Seq<char>, FileEntryV>) -> Seq<char> {
    object_hash("snapshot"@, encode_utf8(snapshot_json(files)))
}

/// A snapshot that can be written into a directory.
pub open spec fn valid_snapshot(files: Map<Seq<char>, FileEntryV>) -> bool {
    forall|path: Seq<char>| #[trigger] files.contains_key(path) ==> {
        &&& valid_path(path)
        &&& entry_check(files[path]) is Ok
        &&& forall|directory: Seq<char>| #[trigger] files.contains_key(directory) ==> !below(path, directory)
    }
}

/// The check accepts exactly the valid snapshots.
pub proof fn accepted_snapshots_are_valid(files: Map<Seq<char>, FileEntryV>)
    requires
        files.dom().finite(),
    ensures
        snapshot_check(files) is Ok <==> valid_snapshot(files),
{
    let keys = keys_of(files);
    let check = |path: Seq<char>| file_check(files, path);
    crate::collections::lemma_ordered(files.dom());
    lemma_first_problem(keys, check);
    assert forall|path: Seq<char>| #[trigger] files.contains_key(path) implies (file_check(files, path) is Ok <==> {
        &&& valid_path(path)
        &&& entry_check(files[path]) is Ok
        &&& forall|directory: Seq<char>| #[trigger] files.contains_key(directory) ==> !below(path, directory)
    }) by {
        let list = ancestors(path);
        let collides = |directory: Seq<char>| collision_check(files, directory);
        lemma_first_problem(list, collides);
        crate::paths::accepted_paths_are_valid(path);
        if first_problem(list, collides) is Ok {
            assert forall|directory: Seq<char>| #[trigger] files.contains_key(directory) implies !below(
                path,
                directory,
            ) by {
                crate::paths::ancestors_hold_the_path(path, directory);
                if below(path, directory) {
                    let i = choose|i: int| 0 <= i < list.len() && list[i] == directory;
                    assert(collides(list[i]) is Ok);
                }
            }
        }
        if forall|directory: Seq<char>| #[trigger] files.contains_key(directory) ==> !below(path, directory) {
            assert forall|i: int| 0 <= i < list.len() implies collides(#[trigger] list[i]) is Ok by {
                assert(list.contains(list[i]));
                crate::paths::ancestors_hold_the_path(path, list[i]);
            }
        }
    }
    if snapshot_check(files) is Ok {
        assert forall|path: Seq<char>| #[trigger] files.contains_key(path) implies file_check(files, path) is Ok by {
            assert(files.dom().contains(path));
            let i = choose|i: int| 0 <= i < keys.len() && keys[i] == path;
            assert(check(keys[i]) is Ok);
        }
    }
    if valid_snapshot(files) {
        assert forall|i: int| 0 <= i < keys.len() implies check(#[trigger] keys[i]) is Ok by {
            assert(keys.contains(keys[i]));
            assert(files.dom().contains(keys[i]));
            assert(files.contains_key(keys[i]));
        }
    }
}

impl Snapshot {
    pub fn validate(&self) -> (result: Result<(), Error>)
        ensures
            verdict(result) == snapshot_check(self@),
            result is Ok <==> valid_snapshot(self@),
    {
        let n = self.files.len();
        let mut i: usize = 0;
        let ghost keys = keys_of(self@);
        let ghost check = |path: Seq<char>| file_check(self@, path);
        proof {
            accepted_snapshots_are_valid(self@);
            assert(keys.skip(0) =~= keys);
        }
        while i < n
            invariant
                i <= n,
                n == self@.dom().len(),
                n == keys.len(),
                keys == keys_of(self@),
                check == (|path: Seq<char>| file_check(self@, path)),
                snapshot_check(self@) == first_problem(keys.skip(i as int), check),
                snapshot_check(self@) is Ok <==> valid_snapshot(self@),
            decreases n - i,
        {
            let path = self.files.key_at(i);
            let entry = self.files.value_at(i);
            proof {
                lemma_first_problem_step(keys, check, i as int);
            }
            validate_path(path.as_str())?;
            entry.validate()?;
            self.check_parents(path.as_str())?;
            i += 1;
        }
        assert(keys.skip(n as int).len() == 0);
        Ok(())
    }

    fn check_parents(&self, path: &str) -> (result: Result<(), Error>)
        ensures
            verdict(result) == first_problem(
                ancestors(path@),
                |directory: Seq<char>| collision_check(self@, directory),
            ),
    {
        let parents = parents_of(path);
        let ghost list = ancestors(path@);
        let ghost check = |directory: Seq<char>| collision_check(self@, directory);
        let mut i: usize = 0;
        assert(list.skip(0) =~= list);
        while i < parents.len()
            invariant
                i <= parents@.len(),
                texts(parents@) == list,
                check == (|directory: Seq<char>| collision_check(self@, directory)),
                first_problem(list, check) == first_problem(list.skip(i as int), check),
                list == ancestors(path@),
            decreases parents@.len() - i,
        {
            proof {
                lemma_first_problem_step(list, check, i as int);
                assert(list[i as int] == parents@[i as int]@);
            }
            if self.files.contains_key(parents[i].as_str()) {
                return Err(Error::about(Problem::PathCollision, parents[i].clone()));
            }
            i += 1;
        }
        assert(list.skip(i as int).len() == 0);
        Ok(())
    }

    /// The snapshot as text, in its one canonical form.
    pub fn to_json(&self) -> (text: String)
        ensures
            text@ == snapshot_json(self@),
    {
        let mut text = "{\"files\":".to_owned();
        let files = self.files.to_json();
        text.append(files.as_str());
        text.append("}");
        text
    }

    /// The identity of the snapshot. It depends on the files alone, not on the
    /// order in which they were added.
    pub fn id(&self) -> (result: Result<String, Error>)
        ensures
            outcome(result) == Ok::<Seq<char>, ErrorV>(snapshot_id(self@)),
    {
        let text = self.to_json();
        Ok(object_id("snapshot", text.as_str().as_bytes()))
    }
}

// Records

/// One step of a change.
#[derive(Debug)]
pub struct Revision {
    pub project: String,
    pub change: String,
    pub predecessor: Option<String>,
    pub base_snapshot: String,
    pub result_snapshot: String,
    pub message: String,
}

/// The mathematical value of a `Revision`.
#[verifier::ext_equal]
pub struct RevisionV {
    pub project: Seq<char>,
    pub change: Seq<char>,
    pub predecessor: Option<Seq<char>>,
    pub base_snapshot: Seq<char>,
    pub result_snapshot: Seq<char>,
    pub message: Seq<char>,
}

impl View for Revision {
    type V = RevisionV;

    open spec fn view(&self) -> RevisionV {
        RevisionV {
            project: self.project@,
            change: self.change@,
            predecessor: self.predecessor.deep_view(),
            base_snapshot: self.base_snapshot@,
            result_snapshot: self.result_snapshot@,
            message: self.message@,
        }
    }
}

impl DeepView for Revision {
    type V = RevisionV;

    open spec fn deep_view(&self) -> RevisionV {
        self@
    }
}

impl Value for Revision {
    fn copied(&self) -> (result: Self) {
        Revision {
            project: self.project.clone(),
            change: self.change.clone(),
            predecessor: self.predecessor.copied(),
            base_snapshot: self.base_snapshot.clone(),
            result_snapshot: self.result_snapshot.clone(),
            message: self.message.clone(),
        }
    }

    fn same(&self, other: &Self) -> (result: bool) {
        self.project.same(&other.project)
            && self.change.same(&other.change)
            && self.predecessor.same(&other.predecessor)
            && self.base_snapshot.same(&other.base_snapshot)
            && self.result_snapshot.same(&other.result_snapshot)
            && self.message.same(&other.message)
    }
}

impl Clone for Revision {
    fn clone(&self) -> (result: Self)
        ensures
            result@ == self@,
    {
        self.copied()
    }
}

impl PartialEq for Revision {
    fn eq(&self, other: &Revision) -> (result: bool) {
        self.same(other)
    }
}

impl vstd::std_specs::cmp::PartialEqSpecImpl for Revision {
    open spec fn obeys_eq_spec() -> bool {
        true
    }

    open spec fn eq_spec(&self, other: &Revision) -> bool {
        self@ == other@
    }
}

impl Json for Revision {
    open spec fn json_of(value: RevisionV) -> Seq<char> {
        "{\"project\":"@ + quoted(value.project) + ",\"change\":"@ + quoted(value.change)
            + ",\"predecessor\":"@ + Option::<String>::json_of(value.predecessor)
            + ",\"base_snapshot\":"@ + quoted(value.base_snapshot) + ",\"result_snapshot\":"@ + quoted(
            value.result_snapshot,
        ) + ",\"message\":"@ + quoted(value.message) + "}"@
    }

    fn to_json(&self) -> (text: String) {
        let mut text = "{\"project\":".to_owned();
        text.append(self.project.to_json().as_str());
        text.append(",\"change\":");
        text.append(self.change.to_json().as_str());
        text.append(",\"predecessor\":");
        text.append(self.predecessor.to_json().as_str());
        text.append(",\"base_snapshot\":");
        text.append(self.base_snapshot.to_json().as_str());
        text.append(",\"result_snapshot\":");
        text.append(self.result_snapshot.to_json().as_str());
        text.append(",\"message\":");
        text.append(self.message.to_json().as_str());
        text.append("}");
        text
    }
}

/// What is wrong with a message that may not be blank or too long.
pub open spec fn revision_message_check(message: Seq<char>) -> Result<(), ErrorV> {
    if blank(message) {
        Err(plain(Problem::MissingMessage))
    } else if encode_utf8(message).len() > MAX_MESSAGE_BYTES {
        Err(plain(Problem::MessageTooLong))
    } else {
        Ok(())
    }
}

/// What is wrong with a revision.
pub open spec fn revision_check(revision: RevisionV) -> Result<(), ErrorV> {
    if !valid_name(revision.project) || !valid_name(revision.change) {
        Err(plain(Problem::InvalidName))
    } else if !valid_hash(revision.base_snapshot) {
        Err(about(Problem::InvalidObjectId, revision.base_snapshot))
    } else if !valid_hash(revision.result_snapshot) {
        Err(about(Problem::InvalidObjectId, revision.result_snapshot))
    } else if revision.predecessor is Some && !valid_hash(revision.predecessor->0) {
        Err(about(Problem::InvalidObjectId, revision.predecessor->0))
    } else {
        revision_message_check(revision.message)
    }
}

/// The identity of a revision.
pub open spec fn revision_id(revision: RevisionV) -> Seq<char> {
    object_hash("revision"@, encode_utf8(Revision::json_of(revision)))
}

impl Revision {
    pub fn validate(&self) -> (result: Result<(), Error>)
        ensures
            verdict(result) == revision_check(self@),
    {
        validate_name(self.project.as_str())?;
        validate_name(self.change.as_str())?;
        validate_hash(self.base_snapshot.as_str())?;
        validate_hash(self.result_snapshot.as_str())?;
        if let Some(parent) = &self.predecessor {
            validate_hash(parent.as_str())?;
        }
        if is_blank(self.message.as_str()) {
            return Err(Error::plain(Problem::MissingMessage));
        }
        if self.message.as_str().as_bytes().len() > MAX_MESSAGE_BYTES {
            return Err(Error::plain(Problem::MessageTooLong));
        }
        Ok(())
    }

    pub fn id(&self) -> (result: Result<String, Error>)
        ensures
            outcome(result) == Ok::<Seq<char>, ErrorV>(revision_id(self@)),
    {
        let text = self.to_json();
        Ok(object_id("revision", text.as_str().as_bytes()))
    }
}

/// A revision and the request that it is published under.
#[derive(Debug)]
pub struct Publication {
    pub request_id: String,
    pub revision: Revision,
}

/// What a publication led to.
#[derive(Debug, Clone, PartialEq, Eq)]
pub struct PublicationReceipt {
    pub request_id: String,
    pub change: String,
    pub revision: String,
    pub heads: Vec<String>,
}

/// What a server says of a project.
#[derive(Debug, Clone)]
pub struct ProjectInfo {
    pub project: String,
    pub protocol: String,
}

/// What a server says of a change.
#[derive(Debug, Clone)]
pub struct ChangeInfo {
    pub change: String,
    pub heads: Vec<String>,
}

/// What a server says of a failure.
#[derive(Debug)]
pub struct ApiError {
    pub code: String,
    pub message: String,
}

} // verus!
