use crdt_doc::{Change, ClockError, Document, MergeError, OpId, OpKind, Operation, Transaction, Value, Version};

fn s(x: &str) -> Vec<u8> {
    x.as_bytes().to_vec()
}

fn text(x: &str) -> Value {
    Value::Str(s(x))
}

fn sorted(mut v: Vec<(Vec<u8>, Value)>) -> Vec<(Vec<u8>, Value)> {
    v.sort_by(|a, b| a.0.cmp(&b.0));
    v
}

fn initial(actor: u64) -> Document {
    let mut doc = Document::new(actor);
    let mut tx = Transaction::new();
    tx.put(s("@context"), text("https://schema.org"));
    tx.put(s("@type"), text("Thing"));
    tx.put(s("name"), text("Foo"));
    tx.put(s("description"), text("Lorem ipsum"));
    tx.put(s("url"), text("https://example.com"));
    assert_eq!(doc.commit(tx), Ok(()));
    doc
}

fn put_one(doc: &mut Document, key: &str, value: Value) {
    let mut tx = Transaction::new();
    tx.put(s(key), value);
    assert_eq!(doc.commit(tx), Ok(()));
}

#[test]
fn delta_brings_remote_to_same_state() {
    let mut a = initial(1);
    let mut b = a.fork(2);
    let before = a.version();
    let mut tx = Transaction::new();
    tx.put(s("name"), text("Bar"));
    tx.put(s("image"), text("https://example.com/cat.png"));
    tx.delete(s("url"));
    assert_eq!(tx.len(), 3);
    assert_eq!(a.commit(tx), Ok(()));
    let changes = a.changes_since(&before, 1000);
    assert_eq!(changes.len(), 1);
    assert_eq!(changes[0].ops.len(), 3);
    assert_eq!(changes[0].start, 6);
    assert_eq!(b.apply_changes(&changes), Ok(()));
    assert_eq!(sorted(b.project()), sorted(a.project()));
    assert_eq!(b.get(b"name"), Some(text("Bar")));
    assert_eq!(b.get(b"image"), Some(text("https://example.com/cat.png")));
    assert_eq!(b.get(b"url"), None);
    assert_eq!(b.get(b"description"), Some(text("Lorem ipsum")));
    assert_eq!(b.project().len(), 5);
}

#[test]
fn delta_through_bytes() {
    let mut a = initial(1);
    let mut b = a.fork(2);
    let before = a.version();
    let mut tx = Transaction::new();
    tx.put(s("name"), text("Bar"));
    tx.delete(s("url"));
    assert_eq!(a.commit(tx), Ok(()));
    let blobs: Vec<Vec<u8>> = a.changes_since(&before, 7).iter().map(|c| c.to_bytes()).collect();
    let decoded = crdt_doc::decode_changes(&blobs).unwrap();
    assert_eq!(b.apply_changes(&decoded), Ok(()));
    assert_eq!(sorted(b.project()), sorted(a.project()));
    assert_eq!(b.get(b"url"), None);
}

#[test]
fn concurrent_writes_pick_one_winner() {
    let base = Document::new(9);
    let mut a = base.fork(1);
    let mut b = base.fork(2);
    put_one(&mut a, "title", text("from a"));
    put_one(&mut b, "title", text("from b"));
    let ca = a.changes_since(&Version::empty(), 1);
    let cb = b.changes_since(&Version::empty(), 2);
    assert_eq!(a.apply_changes(&cb), Ok(()));
    assert_eq!(b.apply_changes(&ca), Ok(()));
    // Same counter on both sides: the higher actor wins.
    assert_eq!(a.get(b"title"), Some(text("from b")));
    assert_eq!(b.get(b"title"), Some(text("from b")));
}

#[test]
fn higher_counter_wins_conflict() {
    let base = Document::new(9);
    let mut a = base.fork(1);
    let mut b = base.fork(2);
    put_one(&mut a, "other", Value::Null);
    put_one(&mut a, "title", text("from a"));
    put_one(&mut b, "title", text("from b"));
    let ca = a.changes_since(&Version::empty(), 1);
    let cb = b.changes_since(&Version::empty(), 2);
    assert_eq!(a.apply_changes(&cb), Ok(()));
    assert_eq!(b.apply_changes(&ca), Ok(()));
    assert_eq!(a.get(b"title"), Some(text("from a")));
    assert_eq!(b.get(b"title"), Some(text("from a")));
}

#[test]
fn later_write_overrides_seen_one() {
    let mut a = Document::new(5);
    put_one(&mut a, "k", Value::Int(1));
    let mut b = a.fork(1);
    put_one(&mut b, "k", Value::Int(2));
    let cb = b.changes_since(&a.version(), 3);
    assert_eq!(a.apply_changes(&cb), Ok(()));
    // b's write depends on a's, so it wins though its counter and actor are lower.
    assert_eq!(a.get(b"k"), Some(Value::Int(2)));
}

#[test]
fn replicas_converge_after_exchange() {
    let base = initial(1);
    let mut a = base.fork(3);
    let mut b = base.fork(4);
    let v = base.version();
    put_one(&mut a, "name", text("A"));
    put_one(&mut a, "x", Value::Bool(true));
    put_one(&mut b, "name", text("B"));
    let mut tx = Transaction::new();
    tx.delete(s("url"));
    tx.put(s("y"), Value::Int(-5));
    assert_eq!(b.commit(tx), Ok(()));
    let ca = a.changes_since(&v, 1);
    let cb = b.changes_since(&v, 1);
    assert_eq!(a.apply_changes(&cb), Ok(()));
    assert_eq!(b.apply_changes(&ca), Ok(()));
    assert_eq!(sorted(a.project()), sorted(b.project()));
    assert_eq!(a.len(), b.len());
    assert_eq!(a.get(b"y"), Some(Value::Int(-5)));
    assert_eq!(a.get(b"url"), None);
}

#[test]
fn applying_twice_is_applying_once() {
    let mut a = initial(1);
    let mut b = a.fork(2);
    let v = a.version();
    put_one(&mut a, "name", text("Bar"));
    let c = a.changes_since(&v, 1);
    assert_eq!(b.apply_changes(&c), Ok(()));
    let once = sorted(b.project());
    let n = b.len();
    assert_eq!(b.apply_changes(&c), Ok(()));
    assert_eq!(sorted(b.project()), once);
    assert_eq!(b.len(), n);
}

#[test]
fn order_of_independent_changes_does_not_matter() {
    let base = initial(1);
    let mut a = base.fork(2);
    let mut b = base.fork(3);
    let v = base.version();
    put_one(&mut a, "name", text("A"));
    put_one(&mut b, "name", text("B"));
    let c1 = a.changes_since(&v, 1).remove(0);
    let c2 = b.changes_since(&v, 1).remove(0);
    let mut r1 = base.fork(7);
    let mut r2 = base.fork(8);
    assert_eq!(r1.apply_changes(&vec![c1.clone(), c2.clone()]), Ok(()));
    assert_eq!(r2.apply_changes(&vec![c2, c1]), Ok(()));
    assert_eq!(sorted(r1.project()), sorted(r2.project()));
    assert_eq!(r1.get(b"name"), Some(text("B")));
}

#[test]
fn out_of_order_delivery_is_buffered() {
    let mut a = Document::new(1);
    let v0 = a.version();
    put_one(&mut a, "k", Value::Int(1));
    let v1 = a.version();
    put_one(&mut a, "k", Value::Int(2));
    let first = a.changes_since(&v0, 1);
    let second = a.changes_since(&v1, 1);
    assert_eq!(first.len(), 1);
    assert_eq!(second.len(), 1);
    let mut b = Document::new(2);
    assert_eq!(b.apply_changes(&vec![second[0].clone(), first[0].clone()]), Ok(()));
    assert_eq!(b.get(b"k"), Some(Value::Int(2)));
    assert_eq!(b.len(), 2);
}

#[test]
fn missing_dependency_is_reported() {
    let mut a = Document::new(1);
    let v0 = a.version();
    put_one(&mut a, "k", Value::Int(1));
    let v1 = a.version();
    put_one(&mut a, "k", Value::Int(2));
    let _ = v0;
    let second = a.changes_since(&v1, 1);
    let mut b = Document::new(2);
    assert_eq!(
        b.apply_changes(&second),
        Err(MergeError::MissingDependency(OpId { actor: 1, counter: 1 }))
    );
    assert_eq!(b.len(), 0);
    assert_eq!(b.get(b"k"), None);
}

#[test]
fn delta_is_only_what_is_new() {
    let mut a = initial(1);
    let v = a.version();
    assert_eq!(a.changes_since(&v, 1).len(), 0);
    put_one(&mut a, "name", text("Bar"));
    let c = a.changes_since(&v, 1);
    assert_eq!(c.len(), 1);
    assert_eq!(c[0].ops.len(), 1);
    assert_eq!(c[0].ops[0].id, OpId { actor: 1, counter: 6 });
    let all = a.changes_since(&Version::empty(), 1);
    assert_eq!(all.iter().map(|c| c.ops.len()).sum::<usize>(), 6);
}

#[test]
fn version_lists_highest_counters() {
    let mut a = initial(1);
    let b = Document::new(2);
    let mut b2 = b.fork(2);
    put_one(&mut b2, "z", Value::Null);
    assert_eq!(a.apply_changes(&b2.changes_since(&Version::empty(), 0)), Ok(()));
    let v = a.version();
    let mut heads = v.heads.clone();
    heads.sort_by_key(|h| h.actor);
    assert_eq!(heads, vec![OpId { actor: 1, counter: 5 }, OpId { actor: 2, counter: 1 }]);
    assert_eq!(a.clock(1), 5);
    assert_eq!(a.clock(3), 0);
    assert!(v.covers(OpId { actor: 1, counter: 3 }));
    assert!(!v.covers(OpId { actor: 1, counter: 6 }));
}

#[test]
fn clock_overflow_rejects_whole_transaction() {
    let mut a = Document::new(1);
    let remote = Change {
        actor: 1,
        start: u64::MAX,
        timestamp: 0,
        message: None,
        ops: vec![Operation { id: OpId { actor: 1, counter: u64::MAX }, kind: OpKind::Put(s("k"), Value::Int(0)), deps: vec![] }],
    };
    assert_eq!(a.apply_changes(&vec![remote]), Ok(()));
    let mut tx = Transaction::new();
    tx.put(s("j"), Value::Int(1));
    assert_eq!(a.commit(tx), Err(ClockError { actor: 1, last: u64::MAX }));
    assert_eq!(a.len(), 1);
    assert_eq!(a.get(b"j"), None);
}

#[test]
fn empty_transaction_commits_nothing() {
    let mut a = initial(1);
    let n = a.len();
    assert_eq!(a.commit(Transaction::new()), Ok(()));
    assert_eq!(a.len(), n);
}

#[test]
fn local_ops_carry_dependencies() {
    let mut a = Document::new(4);
    put_one(&mut a, "k", Value::Int(1));
    put_one(&mut a, "k", Value::Int(2));
    let ops = a.operations();
    assert_eq!(ops[1].id, OpId { actor: 4, counter: 2 });
    assert!(ops[1].deps.contains(&OpId { actor: 4, counter: 1 }));
    assert!(a.contains(OpId { actor: 4, counter: 2 }));
    assert!(!a.contains(OpId { actor: 4, counter: 3 }));
    assert_eq!(a.actor(), 4);
}

#[test]
fn operations_since_lists_only_new_ops() {
    let mut a = initial(1);
    let v = a.version();
    assert_eq!(a.operations_since(&v).len(), 0);
    put_one(&mut a, "name", text("Bar"));
    put_one(&mut a, "name", text("Baz"));
    let ops = a.operations_since(&v);
    assert_eq!(ops.iter().map(|o| o.id.counter).collect::<Vec<_>>(), vec![6, 7]);
    assert!(ops[1].deps.contains(&ops[0].id));
    assert_eq!(a.operations_since(&Version::empty()).len(), 7);
}
