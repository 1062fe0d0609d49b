use kelp::transfer::{self, Key, Object, Request};
use kelp::{object_id, Problem};

fn object(kind: &str, bytes: &[u8]) -> Object {
    Object { key: Key { kind: kind.into(), id: object_id(kind, bytes) }, bytes: bytes.to_vec() }
}

#[test]
fn object_batches_preserve_binary_content_and_reject_malformed_or_corrupt_frames() {
    let bytes = vec![0, 255, 1, 0, 42];
    let object = Object { key: Key { kind: "blob".into(), id: object_id("blob", &bytes) }, bytes };
    let encoded = transfer::encode(std::slice::from_ref(&object)).unwrap();
    let decoded = transfer::decode(&encoded).unwrap();
    assert_eq!(decoded[0].bytes, object.bytes);
    assert_eq!(decoded[0].key, object.key);
    assert!(transfer::encode(&[object.clone(), object.clone()]).is_err());
    let mut raw = zstd::bulk::decompress(&encoded, transfer::MAX_PACK_BYTES).unwrap();
    *raw.last_mut().unwrap() ^= 1;
    assert!(transfer::decode(&zstd::bulk::compress(&raw, 1).unwrap()).is_err());
    raw.truncate(20);
    assert!(transfer::decode(&zstd::bulk::compress(&raw, 1).unwrap()).is_err());
}

#[test]
fn a_frame_is_a_header_and_a_record_for_each_object() {
    let one = object("blob", b"abc");
    let mut expected = b"KLP1\0".to_vec();
    expected.extend_from_slice(one.key.id.as_bytes());
    expected.extend_from_slice(&[0, 0, 0, 3]);
    expected.extend_from_slice(b"abc");
    assert_eq!(transfer::frame(&[one]).unwrap(), expected);
    let two = object("transaction", b"{}");
    assert_eq!(transfer::frame(&[two]).unwrap()[4], 1);
    assert_eq!(transfer::frame(&[]).unwrap(), b"KLP1");
    assert_eq!(transfer::unframe(b"KLP1").unwrap().len(), 0);
}

#[test]
fn frames_are_checked() {
    let problem = |raw: &[u8]| transfer::unframe(raw).unwrap_err().problem;
    assert_eq!(problem(b"KLP2"), Problem::InvalidBatchHeader);
    assert_eq!(problem(b"KLP1\x07"), Problem::InvalidObjectKind);
    assert_eq!(problem(b"KLP1\0abc"), Problem::TruncatedBatch);
    let good = transfer::frame(&[object("blob", b"abc")]).unwrap();
    let mut text = good.clone();
    text[5] = 0xff;
    assert_eq!(problem(&text), Problem::InvalidBatchText);
    let mut hash = good.clone();
    hash[5] = b'X';
    assert_eq!(problem(&hash), Problem::InvalidObjectId);
    let mut length = good.clone();
    length[69] = 0xff;
    assert_eq!(problem(&length), Problem::InvalidObjectLength);
    let mut content = good.clone();
    *content.last_mut().unwrap() = b'd';
    assert_eq!(problem(&content), Problem::BatchHashMismatch);
    let mut twice = good.clone();
    twice.extend_from_slice(&good[4..]);
    assert_eq!(problem(&twice), Problem::DuplicateObject);
    assert_eq!(transfer::decode(b"no frame").unwrap_err().problem, Problem::DecompressionFailed);
}

#[test]
fn batches_have_limits() {
    let many: Vec<Object> = (0..129).map(|i| object("blob", format!("{i}").as_bytes())).collect();
    assert_eq!(transfer::frame(&many).unwrap_err().problem, Problem::BatchTooManyObjects);
    assert!(transfer::frame(&many[..128]).is_ok());
    let mut wrong = object("blob", b"abc");
    wrong.bytes.push(0);
    assert_eq!(transfer::frame(&[wrong]).unwrap_err().problem, Problem::ObjectHashMismatch);
    let large = object("transaction", &vec![0; 2 * 1024 * 1024 + 1]);
    assert_eq!(transfer::frame(&[large]).unwrap_err().problem, Problem::ObjectTooLarge);
    let megabytes: Vec<Object> = (0..3).map(|i| object("blob", &vec![i; 12 * 1024 * 1024])).collect();
    assert_eq!(transfer::frame(&megabytes).unwrap_err().problem, Problem::BatchTooLarge);
    assert_eq!(megabytes[0].key.limit(), 16 * 1024 * 1024);
}

#[test]
fn requests_are_checked() {
    let key = |kind: &str, text: &str| Key { kind: kind.into(), id: object_id(kind, text.as_bytes()) };
    assert!(Request { objects: vec![key("blob", "a"), key("transaction", "a")] }.validate().is_ok());
    let kind = Request { objects: vec![key("snapshot", "a")] };
    assert_eq!(kind.validate().unwrap_err().problem, Problem::UnsupportedBatchKind);
    let twice = Request { objects: vec![key("blob", "a"), key("blob", "a")] };
    assert_eq!(twice.validate().unwrap_err().problem, Problem::DuplicateObject);
    let id = Request { objects: vec![Key { kind: "blob".into(), id: "x".into() }] };
    assert_eq!(id.validate().unwrap_err().problem, Problem::InvalidObjectId);
    let many = Request { objects: (0..129).map(|i| key("blob", &format!("{i}"))).collect() };
    assert_eq!(many.validate().unwrap_err().problem, Problem::BatchTooManyObjects);
}
