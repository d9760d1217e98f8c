use crdt_doc::codec::{FORMAT, HEADER};
use crdt_doc::wire::checksum;
use crdt_doc::{Change, DecodeError, Document, EncodingError, OpId, OpKind, Operation, Transaction, Value, Version};

fn sample() -> Change {
    let mut doc = Document::new(0x0102_0304_0506_0708);
    let mut tx = Transaction::new();
    tx.put(b"name".to_vec(), Value::Str(b"Bar".to_vec()));
    tx.put(b"n".to_vec(), Value::Int(-42));
    tx.put(b"ok".to_vec(), Value::Bool(true));
    tx.put(b"nothing".to_vec(), Value::Null);
    tx.delete(b"url".to_vec());
    assert_eq!(doc.commit(tx), Ok(()));
    let mut cs = doc.changes_since(&Version::empty(), 1_700_000_000);
    assert_eq!(cs.len(), 1);
    cs.remove(0)
}

#[test]
fn round_trip_gives_the_change_back() {
    let c = sample();
    let bytes = c.to_bytes();
    assert_eq!(Change::decode(&bytes), Ok(c.clone()));
    let mut m = c.clone();
    m.message = Some(b"edit".to_vec());
    assert_eq!(Change::decode(&m.to_bytes()), Ok(m));
}

#[test]
fn every_corrupted_byte_is_a_hash_mismatch() {
    let bytes = sample().to_bytes();
    for i in 0..bytes.len() {
        let mut bad = bytes.clone();
        bad[i] ^= 0x5a;
        assert_eq!(Change::decode(&bad), Err(DecodeError::HashMismatch), "byte {}", i);
    }
}

#[test]
fn short_input_is_malformed() {
    assert_eq!(Change::decode(&[1, 2, 3]), Err(DecodeError::Malformed));
    assert_eq!(Change::decode(&[]), Err(DecodeError::Malformed));
}

fn seal(mut body: Vec<u8>) -> Vec<u8> {
    let h = checksum(&body);
    body.extend_from_slice(&h.to_le_bytes());
    body
}

#[test]
fn unknown_format_is_unsupported() {
    let bytes = sample().to_bytes();
    let mut body = bytes[..bytes.len() - 8].to_vec();
    body[0] = FORMAT + 1;
    assert_eq!(Change::decode(&seal(body)), Err(DecodeError::UnsupportedVersion));
}

#[test]
fn truncated_body_is_malformed() {
    let bytes = sample().to_bytes();
    let body = bytes[..HEADER + 2].to_vec();
    assert_eq!(Change::decode(&seal(body)), Err(DecodeError::Malformed));
}

#[test]
fn layout_of_an_empty_change() {
    let c = Change { actor: 2, start: 3, timestamp: 4, message: None, ops: vec![] };
    let b = c.to_bytes();
    assert_eq!(b.len(), HEADER + 1 + 8);
    assert_eq!(b[0], 1);
    assert_eq!(&b[1..9], &2u64.to_le_bytes());
    assert_eq!(&b[9..17], &3u64.to_le_bytes());
    assert_eq!(&b[17..25], &0u64.to_le_bytes());
    assert_eq!(&b[25..33], &4u64.to_le_bytes());
    assert_eq!(b[33], 0);
    assert_eq!(c.hash(), checksum(&b[..34]));
    assert_eq!(&b[34..], &c.hash().to_le_bytes());
}

#[test]
fn checksum_known_value() {
    // a: 1, 3, 6; b: 1, 4, 10.
    assert_eq!(checksum(&[1, 2, 3]), (10u64 << 32) | 6);
    assert_eq!(checksum(&[]), 0);
}

#[test]
fn hex_dump_matches_bytes() {
    let c = Change { actor: 255, start: 1, timestamp: 0, message: None, ops: vec![] };
    let h = c.to_hex();
    assert_eq!(h.len(), 2 * c.to_bytes().len());
    assert!(h.starts_with("01ff00000000000000"));
    assert_eq!(h, hex::encode(c.to_bytes()));
}

fn op(actor: u64, counter: u64) -> Operation {
    Operation { id: OpId { actor, counter }, kind: OpKind::Delete(b"k".to_vec()), deps: vec![] }
}

#[test]
fn run_of_consecutive_ops_forms_a_change() {
    let c = Change::from_run(&vec![op(3, 5), op(3, 6)], 9, None).unwrap();
    assert_eq!((c.actor, c.start, c.timestamp, c.ops.len()), (3, 5, 9, 2));
}

#[test]
fn gap_or_mixed_actors_cannot_form_a_change() {
    assert_eq!(Change::from_run(&vec![op(3, 5), op(3, 7)], 9, None), Err(EncodingError::NotContiguous));
    assert_eq!(Change::from_run(&vec![op(3, 5), op(4, 6)], 9, None), Err(EncodingError::NotContiguous));
    assert_eq!(Change::from_run(&vec![], 9, None), Err(EncodingError::NotContiguous));
}

#[test]
fn batch_decode_reports_first_failure() {
    let good = sample().to_bytes();
    let mut bad = good.clone();
    bad[3] ^= 1;
    assert_eq!(crdt_doc::decode_changes(&vec![good.clone(), bad]), Err(DecodeError::HashMismatch));
    assert_eq!(crdt_doc::decode_changes(&vec![good]).map(|v| v.len()), Ok(1));
}

#[test]
fn extreme_integers_survive() {
    for i in [i64::MIN, -1, 0, 1, i64::MAX] {
        let c = Change {
            actor: 1,
            start: 1,
            timestamp: u64::MAX,
            message: None,
            ops: vec![Operation { id: OpId { actor: 1, counter: 1 }, kind: OpKind::Put(vec![], Value::Int(i)), deps: vec![OpId { actor: 9, counter: u64::MAX }] }],
        };
        assert_eq!(Change::decode(&c.to_bytes()), Ok(c));
    }
}

#[test]
fn update_blob_round_trip() {
    let mut a = Document::new(3);
    let mut tx = Transaction::new();
    tx.put(b"k".to_vec(), Value::Int(1));
    assert_eq!(a.commit(tx), Ok(()));
    let mut b = a.fork(4);
    let mut tx = Transaction::new();
    tx.put(b"k".to_vec(), Value::Int(2));
    assert_eq!(b.commit(tx), Ok(()));
    let v = b.version();
    let cs = b.changes_since(&Version::empty(), 5);
    let blob = crdt_doc::codec::encode_update(&v.heads, &cs);
    let (v2, cs2) = crdt_doc::codec::decode_update(&blob).unwrap();
    assert_eq!(v2, v.heads);
    assert_eq!(cs2, cs);
    let mut c = Document::new(6);
    assert_eq!(c.apply_changes(&cs2), Ok(()));
    assert_eq!(c.get(b"k"), Some(Value::Int(2)));
}

#[test]
fn update_blob_with_corrupted_change() {
    let c = sample();
    let blob = crdt_doc::codec::encode_update(&vec![], &vec![c]);
    let mut bad = blob.clone();
    let last = bad.len() - 1;
    bad[last] ^= 1;
    assert_eq!(crdt_doc::codec::decode_update(&bad), Err(DecodeError::HashMismatch));
    assert_eq!(crdt_doc::codec::decode_update(&blob[..4]), Err(DecodeError::Malformed));
}

#[test]
fn append_checks_dependencies() {
    let mut d = Document::new(1);
    let first = Operation { id: OpId { actor: 2, counter: 1 }, kind: OpKind::Put(b"k".to_vec(), Value::Int(1)), deps: vec![] };
    let second = Operation { id: OpId { actor: 2, counter: 2 }, kind: OpKind::Put(b"k".to_vec(), Value::Int(2)), deps: vec![first.id] };
    assert_eq!(d.append(second.clone()), Err(crdt_doc::CausalityError { missing: first.id }));
    assert_eq!(d.len(), 0);
    assert_eq!(d.append(first.clone()), Ok(()));
    assert_eq!(d.append(second), Ok(()));
    assert_eq!(d.append(first), Ok(()));
    assert_eq!(d.len(), 2);
    assert_eq!(d.get(b"k"), Some(Value::Int(2)));
}
