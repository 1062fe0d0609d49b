//! Talking to a remote: addresses, batches, and what is sent and fetched.
use vstd::prelude::*;
use vstd::string::*;
use vstd::utf8::*;

use crate::collections::{keys_of, lists, Value};
use crate::error::{about, outcome, plain, verdict, Error, ErrorV, Problem};
use crate::objects::{valid_name, validate_name, EntryKind, FileEntry, FileEntryV};
use crate::paths::last_slash;
use crate::selection::{includes, selects, trimmed};
use crate::text::{blank, chars_of, is_blank, same_text, text_of, texts};
use crate::transactions::{EditV, Project, Receipt, Transaction, TransactionV};
use crate::transfer::{limit_of, Info, Key, KeyV, MAX_OBJECTS, MAX_PACK_BYTES};

verus! {

// Addresses

/// An address and its parts.
#[derive(Debug)]
pub struct UrlParts {
    pub text: String,
    pub scheme: String,
    pub host: Option<String>,
    pub username: String,
    pub password: Option<String>,
    pub query: Option<String>,
    pub fragment: Option<String>,
    pub path: String,
}

/// The mathematical value of a `UrlParts`.
#[verifier::ext_equal]
pub struct UrlPartsV {
    pub text: Seq<char>,
    pub scheme: Seq<char>,
    pub host: Option<Seq<char>>,
    pub username: Seq<char>,
    pub password: Option<Seq<char>>,
    pub query: Option<Seq<char>>,
    pub fragment: Option<Seq<char>>,
    pub path: Seq<char>,
}

impl View for UrlParts {
    type V = UrlPartsV;

    open spec fn view(&self) -> UrlPartsV {
        UrlPartsV {
            text: self.text@,
            scheme: self.scheme@,
            host: self.host.deep_view(),
            username: self.username@,
            password: self.password.deep_view(),
            query: self.query.deep_view(),
            fragment: self.fragment.deep_view(),
            path: self.path@,
        }
    }
}

impl DeepView for UrlParts {
    type V = UrlPartsV;

    open spec fn deep_view(&self) -> UrlPartsV {
        self@
    }
}

/// What `Url::parse` reads in a text; `None` where it is no address.
pub uninterp spec fn url_parts(text: Seq<char>) -> Option<UrlPartsV>;

/// Wraps `reqwest::Url::parse` and the methods that give out the parts of the
/// address, which are named here and not described further.
#[verifier::external_body]
pub(crate) fn parse_url(text: &str) -> (result: Option<UrlParts>)
    ensures
        match result {
            Some(parts) => url_parts(text@) == Some(parts@),
            None => url_parts(text@) is None,
        },
{
    reqwest::Url::parse(text).ok().map(|url| UrlParts {
        text: url.as_str().to_owned(),
        scheme: url.scheme().to_owned(),
        host: url.host_str().map(str::to_owned),
        username: url.username().to_owned(),
        password: url.password().map(str::to_owned),
        query: url.query().map(str::to_owned),
        fragment: url.fragment().map(str::to_owned),
        path: url.path().to_owned(),
    })
}

/// A character that stands for itself in a path.
pub open spec fn kept_in_path(c: char) -> bool {
    '!' <= c && c <= '~' && c != '"' && c != '#' && c != '<' && c != '>' && c != '?' && c != '`' && c != '{' && c != '}'
}

/// How many bytes a character takes up in a path at most: one, or three for
/// each of its own where it is written in percent signs.
pub open spec fn path_weight(c: char) -> int {
    if kept_in_path(c) {
        1
    } else if c <= '\u{7f}' {
        3
    } else {
        12
    }
}

/// How many bytes a path takes up in an address at most, with a slash in front
/// of it.
pub open spec fn path_room(path: Seq<char>) -> int
    decreases path.len(),
{
    if path.len() == 0 {
        1
    } else {
        path_room(path.drop_last()) + path_weight(path.last())
    }
}

/// The address has no more bytes than its parts can be counted in, neither as
/// it is nor with another path.
pub open spec fn path_fits(parts: UrlPartsV, path: Seq<char>) -> bool {
    &&& encode_utf8(parts.text).len() <= u32::MAX
    &&& encode_utf8(parts.text).len() + path_room(path) <= u32::MAX + encode_utf8(parts.path).len()
}

fn weigh(c: char) -> (weight: u128)
    ensures
        weight == path_weight(c),
{
    if '!' <= c && c <= '~' && c != '"' && c != '#' && c != '<' && c != '>' && c != '?' && c != '`' && c != '{' && c
        != '}' {
        1
    } else if c <= '\u{7f}' {
        3
    } else {
        12
    }
}

/// Whether an address can be counted, as it is and with another path.
pub fn fits_path(parts: &UrlParts, path: &str) -> (result: bool)
    ensures
        result == path_fits(parts@, path@),
{
    let chars = chars_of(path);
    let mut room: u128 = 1;
    let mut i: usize = 0;
    assert(path@.take(0).len() == 0);
    while i < chars.len()
        invariant
            i <= chars@.len(),
            chars@ == path@,
            room == path_room(path@.take(i as int)),
            room <= 1 + 12 * i,
        decreases chars@.len() - i,
    {
        proof {
            assert(path@.take(i + 1).drop_last() =~= path@.take(i as int));
            assert(path@.take(i + 1).last() == path@[i as int]);
        }
        room = room + weigh(chars[i]);
        i += 1;
    }
    assert(path@.take(i as int) =~= path@);
    let length: u128 = parts.text.as_str().as_bytes().len() as u128;
    let replaced: u128 = parts.path.as_str().as_bytes().len() as u128;
    length <= u32::MAX as u128 && length + room <= u32::MAX as u128 + replaced
}

/// What an address becomes when its path is replaced.
pub uninterp spec fn url_with_path(text: Seq<char>, path: Seq<char>) -> Option<Seq<char>>;

/// Wraps `reqwest::Url::set_path` on a parsed address; the resulting address
/// is named here. It is none where the text is no address. It counts the bytes
/// of the address before and after in 32 bits and panics where they do not
/// fit. In the path of an HTTP address every character stands for itself or
/// for at most three times its bytes, and a slash may be put in front.
#[verifier::external_body]
pub(crate) fn replace_path(text: &str, path: &str) -> (result: Option<String>)
    requires
        url_parts(text@) matches Some(parts) ==> http_address(parts) && path_fits(parts, path@),
    ensures
        match result {
            Some(url) => url_with_path(text@, path@) == Some(url@),
            None => url_with_path(text@, path@) is None,
        },
{
    reqwest::Url::parse(text).ok().map(|mut url| {
        url.set_path(path);
        url.as_str().to_owned()
    })
}

pub(crate) fn trim_slashes(text: &str) -> (result: String)
    ensures
        result@ == trimmed(text@),
{
    let chars = chars_of(text);
    let mut end: usize = chars.len();
    assert(text@.take(end as int) =~= text@);
    while end > 0 && chars[end - 1] == '/'
        invariant
            end <= chars@.len(),
            chars@ == text@,
            trimmed(text@.take(end as int)) == trimmed(text@),
        decreases end,
    {
        let ghost longer = text@.take(end as int);
        assert(longer.last() == '/');
        assert(longer.drop_last() =~= text@.take(end - 1));
        end -= 1;
    }
    let ghost kept = text@.take(end as int);
    proof {
        if kept.len() > 0 {
            assert(kept.last() == text@[end - 1]);
        }
    }
    let result = text_of(vstd::slice::slice_subrange(chars.as_slice(), 0, end));
    assert(result@ =~= kept);
    result
}

/// An address of a server.
pub open spec fn http_address(parts: UrlPartsV) -> bool {
    (parts.scheme == "http"@ || parts.scheme == "https"@) && parts.host is Some
}

/// An address without credentials, query or fragment.
pub open spec fn bare_address(parts: UrlPartsV) -> bool {
    parts.username.len() == 0 && parts.password is None && parts.query is None && parts.fragment is None
}

/// The normal form of an address that was read.
pub open spec fn normal_url(parts: Option<UrlPartsV>) -> Result<Seq<char>, ErrorV> {
    match parts {
        None => Err(plain(Problem::NotAnHttpUrl)),
        Some(parts) => if !http_address(parts) {
            Err(plain(Problem::NotAnHttpUrl))
        } else if !bare_address(parts) {
            Err(plain(Problem::UrlCarriesMore))
        } else {
            Ok(trimmed(parts.text))
        },
    }
}

pub(crate) fn is_http(parts: &UrlParts) -> (result: bool)
    ensures
        result == http_address(parts@),
{
    (same_text(parts.scheme.as_str(), "http") || same_text(parts.scheme.as_str(), "https")) && parts.host.is_some()
}

pub(crate) fn is_bare(parts: &UrlParts) -> (result: bool)
    ensures
        result == bare_address(parts@),
{
    parts.username.as_str().is_empty() && parts.password.is_none() && parts.query.is_none()
        && parts.fragment.is_none()
}

/// Check an address that was read, and bring it into its normal form.
pub fn check_url(parts: Option<UrlParts>) -> (result: Result<String, Error>)
    ensures
        outcome(result) == normal_url(parts.deep_view()),
{
    let parts = match parts {
        Some(parts) => parts,
        None => {
            return Err(Error::plain(Problem::NotAnHttpUrl));
        },
    };
    if !is_http(&parts) {
        return Err(Error::plain(Problem::NotAnHttpUrl));
    }
    if !is_bare(&parts) {
        return Err(Error::plain(Problem::UrlCarriesMore));
    }
    Ok(trim_slashes(parts.text.as_str()))
}

/// The normal form of the address of a remote.
pub fn normalize_url(value: &str) -> (result: Result<String, Error>)
    ensures
        outcome(result) == normal_url(url_parts(value@)),
{
    check_url(parse_url(value))
}

/// The path of an address as what stands before the project, and the project.
pub open spec fn location_parts(path: Seq<char>) -> Result<(Seq<char>, Seq<char>), ErrorV> {
    let text = trimmed(path);
    let at = last_slash(text);
    if at < 0 {
        Err(plain(Problem::MissingProject))
    } else if !valid_name(text.skip(at + 1)) {
        Err(plain(Problem::InvalidProjectName))
    } else {
        Ok((text.take(at), text.skip(at + 1)))
    }
}

/// Split the path of an address into what stands before the project, and the
/// project.
pub fn split_location(path: &str) -> (result: Result<(String, String), Error>)
    ensures
        match result {
            Ok(found) => location_parts(path@) == Ok::<(Seq<char>, Seq<char>), ErrorV>((found.0@, found.1@)),
            Err(error) => location_parts(path@) == Err::<(Seq<char>, Seq<char>), ErrorV>(error@),
        },
{
    let text = trim_slashes(path);
    let chars = chars_of(text.as_str());
    let mut at: usize = chars.len();
    let ghost whole = text@;
    assert(whole.take(at as int) =~= whole);
    while at > 0 && chars[at - 1] != '/'
        invariant
            at <= chars@.len(),
            chars@ == whole,
            last_slash(whole) == last_slash(whole.take(at as int)),
        decreases at,
    {
        let ghost longer = whole.take(at as int);
        assert(longer.last() == chars@[at - 1]);
        assert(longer.drop_last() =~= whole.take(at - 1));
        at -= 1;
    }
    if at == 0 {
        assert(whole.take(0).len() == 0);
        return Err(Error::plain(Problem::MissingProject));
    }
    assert(whole.take(at as int).last() == '/');
    let prefix = text_of(vstd::slice::slice_subrange(chars.as_slice(), 0, at - 1));
    let project = text_of(vstd::slice::slice_subrange(chars.as_slice(), at, chars.len()));
    assert(prefix@ =~= whole.take(at - 1));
    assert(project@ =~= whole.skip(at as int));
    if validate_name(project.as_str()).is_err() {
        return Err(Error::plain(Problem::InvalidProjectName));
    }
    Ok((prefix, project))
}

/// The path of an address that was read, split before the project, where the
/// address can be given the shorter path.
pub open spec fn prefix_of(parts: Option<UrlPartsV>) -> Result<(Seq<char>, Seq<char>), ErrorV> {
    match parts {
        None => Err(plain(Problem::NotAnHttpUrl)),
        Some(parts) => if !http_address(parts) {
            Err(plain(Problem::NotAnHttpUrl))
        } else {
            match location_parts(parts.path) {
                Err(error) => Err(error),
                Ok(split) => if path_fits(parts, split.0) {
                    Ok(split)
                } else {
                    Err(plain(Problem::UrlTooLong))
                },
            }
        },
    }
}

/// Split the path of an address that was read before the project.
pub fn split_address(parts: Option<UrlParts>) -> (result: Result<(String, String), Error>)
    ensures
        match result {
            Ok(found) => prefix_of(parts.deep_view()) == Ok::<(Seq<char>, Seq<char>), ErrorV>((found.0@, found.1@)),
            Err(error) => prefix_of(parts.deep_view()) == Err::<(Seq<char>, Seq<char>), ErrorV>(error@),
        },
{
    let parts = match parts {
        Some(parts) => parts,
        None => {
            return Err(Error::plain(Problem::NotAnHttpUrl));
        },
    };
    if !is_http(&parts) {
        return Err(Error::plain(Problem::NotAnHttpUrl));
    }
    let (prefix, project) = split_location(parts.path.as_str())?;
    if !fits_path(&parts, prefix.as_str()) {
        return Err(Error::plain(Problem::UrlTooLong));
    }
    Ok((prefix, project))
}

proof fn lemma_trimmed(text: Seq<char>)
    ensures
        trimmed(text).len() <= text.len(),
        trimmed(text) == text.take(trimmed(text).len() as int),
    decreases text.len(),
{
    if text.len() > 0 && text.last() == '/' {
        lemma_trimmed(text.drop_last());
        let kept = trimmed(text);
        assert(kept =~= text.take(kept.len() as int));
    } else {
        assert(text.take(text.len() as int) =~= text);
    }
}

proof fn lemma_plain_room(path: Seq<char>)
    requires
        forall|i: int| 0 <= i < path.len() ==> kept_in_path(#[trigger] path[i]),
    ensures
        path_room(path) == 1 + path.len(),
    decreases path.len(),
{
    if path.len() > 0 {
        assert forall|i: int| 0 <= i < path.drop_last().len() implies kept_in_path(#[trigger] path.drop_last()[i]) by {
            assert(path.drop_last()[i] == path[i]);
        }
        lemma_plain_room(path.drop_last());
        assert(kept_in_path(path[path.len() - 1]));
    }
}

proof fn lemma_bytes_of_chars(text: Seq<char>)
    ensures
        encode_utf8(text).len() >= text.len(),
    decreases text.len(),
{
    if text.len() > 0 {
        lemma_bytes_of_chars(text.drop_first());
    }
}

/// An address is refused as too long only if it cannot be counted as it
/// stands: a path in which every character stands for itself, as in all
/// addresses that were read, leaves room for the part of it before the
/// project.
pub proof fn shorter_paths_fit(parts: UrlPartsV)
    requires
        http_address(parts),
        location_parts(parts.path) is Ok,
        encode_utf8(parts.text).len() <= u32::MAX,
        forall|i: int| 0 <= i < parts.path.len() ==> kept_in_path(#[trigger] parts.path[i]),
    ensures
        prefix_of(Some(parts)) == location_parts(parts.path),
{
    let path = parts.path;
    let text = trimmed(path);
    let prefix = location_parts(path)->Ok_0.0;
    lemma_trimmed(path);
    crate::paths::lemma_last_slash(text);
    lemma_bytes_of_chars(path);
    assert(prefix.len() < text.len());
    assert(text.skip(last_slash(text) + 1).len() > 0);
    assert forall|i: int| 0 <= i < prefix.len() implies kept_in_path(#[trigger] prefix[i]) by {
        assert(prefix[i] == path[i]);
    }
    lemma_plain_room(prefix);
}

/// The address of the server and the project of a full address.
pub open spec fn location_of(value: Seq<char>) -> Result<(Seq<char>, Seq<char>), ErrorV> {
    match normal_url(url_parts(value)) {
        Err(error) => Err(error),
        Ok(normalized) => match prefix_of(url_parts(normalized)) {
            Err(error) => Err(error),
            Ok(split) => match url_with_path(normalized, split.0) {
                None => Err(plain(Problem::NotAnHttpUrl)),
                Some(url) => Ok((trimmed(url), split.1)),
            },
        },
    }
}

/// The address of the server and the project that a full address names.
pub fn project_location(value: &str) -> (result: Result<(String, String), Error>)
    ensures
        match result {
            Ok(found) => location_of(value@) == Ok::<(Seq<char>, Seq<char>), ErrorV>((found.0@, found.1@)),
            Err(error) => location_of(value@) == Err::<(Seq<char>, Seq<char>), ErrorV>(error@),
        },
{
    let normalized = normalize_url(value)?;
    let (prefix, project) = split_address(parse_url(normalized.as_str()))?;
    match replace_path(normalized.as_str(), prefix.as_str()) {
        Some(url) => Ok((trim_slashes(url.as_str()), project)),
        None => Err(Error::plain(Problem::NotAnHttpUrl)),
    }
}

/// The full address of a project.
pub fn project_url(base: &str, project: &str) -> (url: String)
    ensures
        url@ == trimmed(base@) + "/"@ + project@,
{
    let mut url = trim_slashes(base);
    url.append("/");
    url.append(project);
    url
}

/// Where the requests for a project go.
pub open spec fn endpoint_of(url: Seq<char>, project: Seq<char>, token: Seq<char>) -> Result<Seq<char>, ErrorV> {
    if !valid_name(project) {
        Err(plain(Problem::InvalidName))
    } else if blank(token) {
        Err(plain(Problem::MissingToken))
    } else {
        match normal_url(url_parts(url)) {
            Err(error) => Err(error),
            Ok(base) => Ok(base + "/v1/projects/"@ + project),
        }
    }
}

/// Where the requests for a project go. They need an access token.
pub fn project_endpoint(url: &str, project: &str, token: &str) -> (result: Result<String, Error>)
    ensures
        outcome(result) == endpoint_of(url@, project@, token@),
{
    validate_name(project)?;
    if is_blank(token) {
        return Err(Error::plain(Problem::MissingToken));
    }
    let mut endpoint = normalize_url(url)?;
    endpoint.append("/v1/projects/");
    endpoint.append(project);
    Ok(endpoint)
}

/// A remote has to speak the protocol of transactions.
pub fn check_protocol(project: &Project) -> (result: Result<(), Error>)
    ensures
        verdict(result) == (if project.protocol@ == "kelp/1"@ {
            Ok::<(), ErrorV>(())
        } else {
            Err(about(Problem::UnsupportedProtocol, project.protocol@))
        }),
{
    if same_text(project.protocol.as_str(), "kelp/1") {
        Ok(())
    } else {
        Err(Error::about(Problem::UnsupportedProtocol, project.protocol.clone()))
    }
}

/// The answer to a pushed transaction has to name it.
pub fn check_receipt(receipt: &Receipt, transaction: &str) -> (result: Result<(), Error>)
    ensures
        verdict(result) == (if receipt.transaction@ == transaction@ {
            Ok::<(), ErrorV>(())
        } else {
            Err(plain(Problem::ReceiptMismatch))
        }),
{
    if same_text(receipt.transaction.as_str(), transaction) {
        Ok(())
    } else {
        Err(Error::plain(Problem::ReceiptMismatch))
    }
}

// Inventories and batches

/// The values of a list of keys, as a set.
pub open spec fn key_set(keys: Seq<Key>) -> Set<KeyV> {
    Set::new(|key: KeyV| exists|i: int| 0 <= i < keys.len() && #[trigger] keys[i]@ == key)
}

/// The keys that a list of replies speaks of.
pub open spec fn info_set(infos: Seq<Info>) -> Set<KeyV> {
    Set::new(|key: KeyV| exists|i: int| 0 <= i < infos.len() && (#[trigger] infos[i]).object@ == key)
}

fn holds_key(keys: &[Key], key: &Key) -> (result: bool)
    ensures
        result == key_set(keys@).contains(key@),
{
    let mut i: usize = 0;
    while i < keys.len()
        invariant
            i <= keys@.len(),
            forall|j: int| 0 <= j < i ==> (#[trigger] keys@[j])@ != key@,
        decreases keys@.len() - i,
    {
        if keys[i].same(key) {
            return true;
        }
        i += 1;
    }
    false
}

fn same_keys(a: &[Key], b: &[Key]) -> (result: bool)
    ensures
        result == (key_set(a@) == key_set(b@)),
{
    let mut i: usize = 0;
    while i < a.len()
        invariant
            i <= a@.len(),
            forall|j: int| 0 <= j < i ==> key_set(b@).contains((#[trigger] a@[j])@),
        decreases a@.len() - i,
    {
        if !holds_key(b, &a[i]) {
            assert(key_set(a@).contains(a@[i as int]@));
            return false;
        }
        i += 1;
    }
    let mut k: usize = 0;
    while k < b.len()
        invariant
            k <= b@.len(),
            forall|j: int| 0 <= j < k ==> key_set(a@).contains((#[trigger] b@[j])@),
        decreases b@.len() - k,
    {
        if !holds_key(a, &b[k]) {
            assert(key_set(b@).contains(b@[k as int]@));
            return false;
        }
        k += 1;
    }
    assert(key_set(a@) =~= key_set(b@));
    true
}

fn keys_of_infos(infos: &[Info]) -> (keys: Vec<Key>)
    ensures
        keys@.len() == infos@.len(),
        forall|i: int| 0 <= i < infos@.len() ==> (#[trigger] keys@[i])@ == infos@[i].object@,
{
    let mut keys: Vec<Key> = Vec::new();
    let mut i: usize = 0;
    while i < infos.len()
        invariant
            i <= infos@.len(),
            keys@.len() == i,
            forall|j: int| 0 <= j < i ==> (#[trigger] keys@[j])@ == infos@[j].object@,
        decreases infos@.len() - i,
    {
        keys.push(infos[i].object.clone());
        i += 1;
    }
    keys
}

/// An inventory has to speak of exactly the objects that were asked about.
pub fn check_inventory(reply: &[Info], asked: &[Key]) -> (result: Result<(), Error>)
    ensures
        verdict(result) == (if reply@.len() == asked@.len() && info_set(reply@) == key_set(asked@) {
            Ok::<(), ErrorV>(())
        } else {
            Err(plain(Problem::InvalidInventory))
        }),
{
    let keys = keys_of_infos(reply);
    proof {
        assert forall|key: KeyV| key_set(keys@).contains(key) <==> info_set(reply@).contains(key) by {
            if key_set(keys@).contains(key) {
                let i = choose|i: int| 0 <= i < keys@.len() && #[trigger] keys@[i]@ == key;
                assert(reply@[i].object@ == key);
            }
            if info_set(reply@).contains(key) {
                let i = choose|i: int| 0 <= i < reply@.len() && (#[trigger] reply@[i]).object@ == key;
                assert(keys@[i]@ == key);
            }
        }
        assert(key_set(keys@) =~= info_set(reply@));
    }
    if reply.len() == asked.len() && same_keys(keys.as_slice(), asked) {
        Ok(())
    } else {
        Err(Error::plain(Problem::InvalidInventory))
    }
}

/// The objects that came have to be the objects that were asked for.
pub fn check_batch(came: &[Key], asked: &[Key]) -> (result: Result<(), Error>)
    ensures
        verdict(result) == (if key_set(came@) == key_set(asked@) {
            Ok::<(), ErrorV>(())
        } else {
            Err(plain(Problem::BatchMismatch))
        }),
{
    if same_keys(came, asked) {
        Ok(())
    } else {
        Err(Error::plain(Problem::BatchMismatch))
    }
}

/// The size of an object that a remote offers.
pub open spec fn offered_size(kind: Seq<char>, size: Option<u64>) -> Result<usize, ErrorV> {
    match size {
        None => Err(plain(Problem::RemoteObjectMissing)),
        Some(n) => if n > limit_of(kind) {
            Err(plain(Problem::RemoteObjectTooLarge))
        } else {
            Ok(n as usize)
        },
    }
}

/// The size of an object that a remote offers. It has to be there, and within
/// the limit for its kind.
pub fn check_offer(info: &Info) -> (result: Result<usize, Error>)
    ensures
        outcome(result) == offered_size(info.object@.kind, info.size),
        result matches Ok(size) ==> size <= limit_of(info.object@.kind),
{
    match info.size {
        None => Err(Error::plain(Problem::RemoteObjectMissing)),
        Some(n) => {
            if n > info.object.limit() as u64 {
                Err(Error::plain(Problem::RemoteObjectTooLarge))
            } else {
                Ok(n as usize)
            }
        },
    }
}

/// How full the current batch is.
#[derive(Debug)]
pub struct Batcher {
    count: usize,
    total: usize,
}

/// What an object takes in a batch, beside its bytes.
pub const RECORD_BYTES: usize = 69;

impl Batcher {
    /// How many objects the batch holds.
    pub closed spec fn objects(self) -> int {
        self.count as int
    }

    /// How many bytes the batch takes before compression.
    pub closed spec fn bytes(self) -> int {
        self.total as int
    }

    #[verifier::type_invariant]
    spec fn bounded(self) -> bool {
        self.count <= MAX_OBJECTS && self.total <= MAX_PACK_BYTES
    }

    pub fn new() -> (batcher: Self)
        ensures
            batcher.objects() == 0,
            batcher.bytes() == 4,
    {
        Batcher { count: 0, total: 4 }
    }

    /// Count one more object. Says whether the batch has to be sent first.
    pub fn place(&mut self, size: usize) -> (send_first: bool)
        requires
            4 + size + RECORD_BYTES <= MAX_PACK_BYTES,
        ensures
            send_first == (old(self).objects() == MAX_OBJECTS || old(self).bytes() + size + RECORD_BYTES
                > MAX_PACK_BYTES),
            final(self).objects() == (if send_first {
                1
            } else {
                old(self).objects() + 1
            }),
            final(self).bytes() == (if send_first {
                4
            } else {
                old(self).bytes()
            }) + size + RECORD_BYTES,
            final(self).objects() <= MAX_OBJECTS,
            final(self).bytes() <= MAX_PACK_BYTES,
    {
        proof {
            use_type_invariant(&*self);
        }
        let send_first = self.count == MAX_OBJECTS || self.total + size + RECORD_BYTES > MAX_PACK_BYTES;
        if send_first {
            *self = Batcher { count: 1, total: 4 + size + RECORD_BYTES };
        } else {
            *self = Batcher { count: self.count + 1, total: self.total + size + RECORD_BYTES };
        }
        send_first
    }
}

// Content

/// The content that was fetched for a file has to have the length that its
/// entry says. A file in chunks is checked along its tree.
pub fn check_fetched(entry: &FileEntry, size: Option<u64>) -> (result: Result<(), Error>)
    ensures
        verdict(result) == (if size is Some && (entry@.kind is Chunked || size->0 == entry@.size) {
            Ok::<(), ErrorV>(())
        } else {
            Err(plain(Problem::RemoteLengthMismatch))
        }),
{
    let fits = match size {
        Some(size) => match entry.kind {
            EntryKind::Chunked => true,
            _ => size == entry.size,
        },
        None => false,
    };
    if fits {
        Ok(())
    } else {
        Err(Error::plain(Problem::RemoteLengthMismatch))
    }
}

/// The values that edits give to the selected ones of some paths, in order.
pub open spec fn selected_values(
    edits: Map<Seq<char>, EditV>,
    paths: Seq<Seq<char>>,
    selection: Seq<Seq<char>>,
) -> Seq<FileEntryV>
    decreases paths.len(),
{
    if paths.len() == 0 {
        Seq::empty()
    } else {
        let before = selected_values(edits, paths.drop_last(), selection);
        match edits[paths.last()].value {
            Some(entry) => if selects(selection, paths.last()) {
                before.push(entry)
            } else {
                before
            },
            None => before,
        }
    }
}

/// The entries of a transaction whose content has to be there: where it came
/// from, and the values at the selected paths.
pub open spec fn needed(transaction: TransactionV, selection: Seq<Seq<char>>) -> Seq<FileEntryV> {
    let origin = match transaction.provenance {
        Some(entry) => seq![entry],
        None => Seq::empty(),
    };
    origin + selected_values(transaction.edits, keys_of(transaction.edits), selection)
}

/// The entries of a transaction whose content has to be there.
pub fn needed_entries(transaction: &Transaction, selection: &[String]) -> (entries: Vec<FileEntry>)
    ensures
        entries.deep_view() == needed(transaction@, texts(selection@)),
{
    let ghost sel = texts(selection@);
    let mut entries: Vec<FileEntry> = Vec::new();
    if let Some(entry) = &transaction.provenance {
        entries.push(entry.clone());
    }
    let ghost origin = entries.deep_view();
    let n = transaction.edits.len();
    let ghost keys = keys_of(transaction.edits@);
    let mut i: usize = 0;
    assert(keys.take(0).len() == 0);
    assert(origin =~= origin + selected_values(transaction@.edits, keys.take(0), sel));
    while i < n
        invariant
            i <= n,
            n == transaction.edits@.dom().len(),
            n == keys.len(),
            keys == keys_of(transaction.edits@),
            lists(keys, transaction.edits@.dom()),
            sel == texts(selection@),
            entries.deep_view() == origin + selected_values(transaction@.edits, keys.take(i as int), sel),
        decreases n - i,
    {
        let ghost so_far = entries.deep_view();
        let path = transaction.edits.key_at(i);
        assert(keys.take(i + 1).drop_last() =~= keys.take(i as int));
        assert(keys.take(i + 1).last() == path@);
        let ghost before = selected_values(transaction@.edits, keys.take(i as int), sel);
        if includes(selection, path.as_str()) {
            if let Some(entry) = &transaction.edits.value_at(i).value {
                entries.push(entry.clone());
                assert(entries.deep_view() =~= so_far.push(entry@));
                assert((origin + before).push(entry@) =~= origin + before.push(entry@));
            }
        }
        i += 1;
    }
    assert(keys.take(n as int) =~= keys);
    proof {
        match transaction@.provenance {
            Some(entry) => assert(origin =~= seq![entry]),
            None => assert(origin =~= Seq::empty()),
        }
    }
    entries
}

} // verus!
