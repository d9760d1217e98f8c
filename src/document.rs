//! A replica: its actor id and its operation log, with lookups, local
//! transactions, merging and delta generation.
use crate::log::{
    beats, in_log, is_head, lemma_push_wf, is_winner, lemma_log_map, lemma_winner_unique, log_map, lookup,
    overwritten, unique_ids, wf_log,
};
use crate::log::{carried, lemma_ordered_extend, lemma_ordered_new, ordered, seen, dep_met, from_changes, in_change, integrable, lemma_extend, lemma_prefix_map, merged, present, settled};
use crate::types::{ops_view, wf_change, Change, ChangeV, KindV, OpId, OpKind, OpV, Operation, Value, ValueV};
use vstd::prelude::*;
use vstd::slice::slice_to_vec;

verus! {

pub open spec fn opt_value_view(v: Option<Value>) -> Option<ValueV> {
    match v {
        Some(x) => Some(x@),
        None => None,
    }
}

/// Byte-wise equality.
pub fn bytes_eq(a: &[u8], b: &[u8]) -> (r: bool)
    ensures
        r == (a@ == b@),
{
    if a.len() != b.len() {
        return false;
    }
    let mut i: usize = 0;
    while i < a.len()
        invariant
            a@.len() == b@.len(),
            i <= a@.len(),
            a@.subrange(0, i as int) == b@.subrange(0, i as int),
        decreases a@.len() - i,
    {
        if a[i] != b[i] {
            assert(a@[i as int] != b@[i as int]);
            return false;
        }
        i = i + 1;
        assert(a@.subrange(0, i as int) =~= a@.subrange(0, i - 1).push(a@[i - 1]));
        assert(b@.subrange(0, i as int) =~= b@.subrange(0, i - 1).push(b@[i - 1]));
    }
    assert(a@ =~= a@.subrange(0, i as int));
    assert(b@ =~= b@.subrange(0, i as int));
    true
}

/// The dependency list holds `id`.
pub fn contains_id(ds: &[OpId], id: OpId) -> (r: bool)
    ensures
        r == ds@.contains(id),
{
    let mut i: usize = 0;
    while i < ds.len()
        invariant
            i <= ds@.len(),
            forall|j: int| 0 <= j < i ==> ds@[j] != id,
        decreases ds@.len() - i,
    {
        if ds[i] == id {
            return true;
        }
        i = i + 1;
    }
    false
}

impl Value {
    /// A copy of the value.
    pub fn copy(&self) -> (r: Value)
        ensures
            r@ == self@,
    {
        match self {
            Value::Str(s) => Value::Str(slice_to_vec(s.as_slice())),
            Value::Int(i) => Value::Int(*i),
            Value::Bool(b) => Value::Bool(*b),
            Value::Null => Value::Null,
        }
    }
}

impl OpKind {
    /// The key that the operation writes.
    pub fn key(&self) -> (r: &Vec<u8>)
        ensures
            r@ == self@.key(),
    {
        match self {
            OpKind::Put(k, _) => k,
            OpKind::Delete(k) => k,
        }
    }
}

/// The highest counter of `a` in the log, or 0.
pub open spec fn max_counter(s: Seq<OpV>, a: u64) -> u64
    decreases s.len(),
{
    if s.len() == 0 {
        0
    } else {
        let m = max_counter(s.drop_last(), a);
        if s.last().id.actor == a && s.last().id.counter > m {
            s.last().id.counter
        } else {
            m
        }
    }
}

pub proof fn lemma_max_counter(s: Seq<OpV>, a: u64)
    ensures
        forall|i: int|
            0 <= i < s.len() && #[trigger] s[i].id.actor == a ==> s[i].id.counter <= max_counter(
                s,
                a,
            ),
        max_counter(s, a) >= 1 ==> in_log(s, OpId { actor: a, counter: max_counter(s, a) }),
    decreases s.len(),
{
    if s.len() > 0 {
        let t = s.drop_last();
        lemma_max_counter(t, a);
        assert forall|i: int| 0 <= i < s.len() && #[trigger] s[i].id.actor == a implies s[i].id.counter
            <= max_counter(s, a) by {
            if i < t.len() {
                assert(t[i] == s[i]);
            }
        }
        if max_counter(s, a) >= 1 {
            if max_counter(s, a) == max_counter(t, a) {
                let j = choose|j: int|
                    0 <= j < t.len() && #[trigger] t[j].id == OpId { actor: a, counter: max_counter(t, a) };
                assert(s[j] == t[j]);
            } else {
                assert(s[s.len() - 1].id == OpId { actor: a, counter: max_counter(s, a) });
            }
        }
    }
}

/// Why a transaction could not be committed: the actor's counter would pass
/// the largest 64-bit value.
#[derive(Clone, Copy, Debug, PartialEq, Eq, Structural)]
pub struct ClockError {
    pub actor: u64,
    pub last: u64,
}

/// Pending local edits; nothing reaches the document until `commit`, and
/// dropping the transaction discards them.
pub struct Transaction {
    edits: Vec<OpKind>,
}

impl Transaction {
    pub closed spec fn edits(&self) -> Seq<KindV> {
        self.edits@.map_values(|e: OpKind| e@)
    }

    /// An empty transaction.
    pub fn new() -> (r: Transaction)
        ensures
            r.edits() == Seq::<KindV>::empty(),
    {
        let r = Transaction { edits: Vec::new() };
        assert(r.edits() =~= Seq::<KindV>::empty());
        r
    }

    /// Records a write of `value` under `key`.
    pub fn put(&mut self, key: Vec<u8>, value: Value)
        ensures
            final(self).edits() == old(self).edits().push(KindV::Put(key@, value@)),
    {
        self.edits.push(OpKind::Put(key, value));
        assert(final(self).edits() =~= old(self).edits().push(KindV::Put(key@, value@)));
    }

    /// Records the deletion of `key`.
    pub fn delete(&mut self, key: Vec<u8>)
        ensures
            final(self).edits() == old(self).edits().push(KindV::Delete(key@)),
    {
        self.edits.push(OpKind::Delete(key));
        assert(final(self).edits() =~= old(self).edits().push(KindV::Delete(key@)));
    }

    /// Number of pending edits.
    pub fn len(&self) -> (r: usize)
        ensures
            r == self.edits().len(),
    {
        self.edits.len()
    }
}

/// `o` is a local write made on top of `prefix`: it depends on every head of
/// its key there, and all its dependencies are in `prefix`.
pub open spec fn local_write(prefix: Seq<OpV>, o: OpV) -> bool {
    &&& forall|id: OpId| #[trigger]
        is_head(log_map(prefix), id, o.kind.key()) ==> o.deps.contains(id)
    &&& forall|d: int| 0 <= d < o.deps.len() ==> in_log(prefix, #[trigger] o.deps[d])
}

/// The `j`-th edit of a transaction stands at `n + j` in `s` as a local write
/// with counter `c + 1 + j`.
pub open spec fn written(s: Seq<OpV>, n: int, a: u64, c: u64, ed: Seq<KindV>, j: int) -> bool {
    &&& s[n + j].id == OpId { actor: a, counter: (c + 1 + j) as u64 }
    &&& s[n + j].kind == ed[j]
    &&& local_write(s.subrange(0, n + j), s[n + j])
}

/// One replica of the document. Edits and merges take `&mut self`, so there
/// is one writer at a time; lookups and deltas share `&self`.
pub struct Document {
    actor: u64,
    ops: Vec<Operation>,
}

impl Document {
    /// The operation log, in the order in which operations were integrated.
    pub closed spec fn log(&self) -> Seq<OpV> {
        ops_view(self.ops@)
    }

    pub closed spec fn actor_spec(&self) -> u64 {
        self.actor
    }

    pub open spec fn wf(&self) -> bool {
        wf_log(self.log())
    }

    /// An empty document owned by `actor`.
    pub fn new(actor: u64) -> (r: Document)
        ensures
            r.wf(),
            r.log() == Seq::<OpV>::empty(),
            r.actor_spec() == actor,
    {
        let r = Document { actor, ops: Vec::new() };
        assert(r.log() =~= Seq::<OpV>::empty());
        r
    }

    /// The replica's actor id.
    pub fn actor(&self) -> (r: u64)
        ensures
            r == self.actor_spec(),
    {
        self.actor
    }

    /// Number of operations in the log.
    pub fn len(&self) -> (r: usize)
        ensures
            r == self.log().len(),
    {
        self.ops.len()
    }

    /// The operations of the log, in order.
    pub fn operations(&self) -> (r: &Vec<Operation>)
        ensures
            ops_view(r@) == self.log(),
    {
        &self.ops
    }

    /// Whether an operation with this id is in the log.
    pub fn contains(&self, id: OpId) -> (r: bool)
        ensures
            r == in_log(self.log(), id),
    {
        let mut i: usize = 0;
        while i < self.ops.len()
            invariant
                i <= self.ops@.len(),
                forall|j: int| 0 <= j < i ==> self.log()[j].id != id,
            decreases self.ops@.len() - i,
        {
            if self.ops[i].id == id {
                assert(self.log()[i as int].id == id);
                return true;
            }
            i = i + 1;
        }
        false
    }

    fn is_overwritten(&self, id: OpId, key: &[u8]) -> (r: bool)
        requires
            self.wf(),
        ensures
            r == overwritten(log_map(self.log()), id, key@),
    {
        let ghost s = self.log();
        let ghost m = log_map(s);
        proof {
            lemma_log_map(s);
        }
        let mut i: usize = 0;
        while i < self.ops.len()
            invariant
                s == self.log(),
                m == log_map(s),
                unique_ids(s),
                i <= s.len(),
                forall|j: int|
                    0 <= j < i ==> !(#[trigger] s[j].kind.key() == key@ && s[j].deps.contains(id)),
            decreases s.len() - i,
        {
            let o = &self.ops[i];
            if bytes_eq(o.kind.key().as_slice(), key) && contains_id(o.deps.as_slice(), id) {
                assert(m.contains_key(s[i as int].id) && m[s[i as int].id] == s[i as int]);
                return true;
            }
            i = i + 1;
        }
        proof {
            if overwritten(m, id, key@) {
                let w = choose|w: OpId|
                    #![trigger m[w]]
                    m.contains_key(w) && m[w].kind.key() == key@ && m[w].deps.contains(id);
                let j = choose|j: int| 0 <= j < s.len() && s[j].id == w;
                assert(s[j].kind.key() == key@);
            }
        }
        false
    }

    /// The value that the document holds under `key`.
    pub fn get(&self, key: &[u8]) -> (r: Option<Value>)
        requires
            self.wf(),
        ensures
            opt_value_view(r) == lookup(log_map(self.log()), key@),
    {
        let ghost s = self.log();
        let ghost m = log_map(s);
        let ghost k = key@;
        proof {
            lemma_log_map(s);
        }
        let mut best: Option<usize> = None;
        let mut i: usize = 0;
        while i < self.ops.len()
            invariant
                s == self.log(),
                m == log_map(s),
                k == key@,
                self.wf(),
                i <= s.len(),
                forall|j: int|
                    0 <= j < s.len() ==> m.contains_key(#[trigger] s[j].id) && m[s[j].id] == s[j],
                match best {
                    None => forall|j: int| 0 <= j < i ==> !is_head(m, #[trigger] s[j].id, k),
                    Some(b) => b < i && is_head(m, s[b as int].id, k) && forall|j: int|
                        0 <= j < i && j != b && is_head(m, #[trigger] s[j].id, k) ==> beats(
                            s[b as int].id,
                            s[j].id,
                        ),
                },
            decreases s.len() - i,
        {
            let o = &self.ops[i];
            if bytes_eq(o.kind.key().as_slice(), key) && !self.is_overwritten(o.id, key) {
                match best {
                    None => {
                        best = Some(i);
                    },
                    Some(b) => {
                        let x = self.ops[b].id;
                        assert(s[b as int].id != s[i as int].id);
                        if o.id.counter > x.counter || (o.id.counter == x.counter && o.id.actor
                            > x.actor) {
                            best = Some(i);
                        }
                    },
                }
            }
            i = i + 1;
        }
        match best {
            None => {
                proof {
                    if exists|id: OpId| is_winner(m, k, id) {
                        let id = choose|id: OpId| is_winner(m, k, id);
                        let j = choose|j: int| 0 <= j < s.len() && s[j].id == id;
                        assert(is_head(m, s[j].id, k));
                    }
                }
                None
            },
            Some(b) => {
                let ghost w = s[b as int].id;
                proof {
                    assert forall|o: OpId| #[trigger] is_head(m, o, k) && o != w implies beats(
                        w,
                        o,
                    ) by {
                        let j = choose|j: int| 0 <= j < s.len() && s[j].id == o;
                        assert(is_head(m, s[j].id, k));
                    }
                    assert(is_winner(m, k, w));
                    let c = choose|id: OpId| is_winner(m, k, id);
                    lemma_winner_unique(m, k, c, w);
                }
                match &self.ops[b].kind {
                    OpKind::Put(_, v) => Some(v.copy()),
                    OpKind::Delete(_) => None,
                }
            },
        }
    }
}


impl Document {
    /// The highest counter of `a` in the log, or 0 when `a` has none.
    pub fn clock(&self, a: u64) -> (r: u64)
        ensures
            r == max_counter(self.log(), a),
    {
        let ghost s = self.log();
        let mut c: u64 = 0;
        let mut i: usize = 0;
        while i < self.ops.len()
            invariant
                s == self.log(),
                i <= s.len(),
                c == max_counter(s.subrange(0, i as int), a),
            decreases s.len() - i,
        {
            assert(s.subrange(0, i + 1).drop_last() =~= s.subrange(0, i as int));
            let id = self.ops[i].id;
            if id.actor == a && id.counter > c {
                c = id.counter;
            }
            i = i + 1;
        }
        assert(s.subrange(0, i as int) =~= s);
        c
    }

    /// The ids of the operations on `key` that nothing has overwritten.
    fn heads_of(&self, key: &[u8]) -> (r: Vec<OpId>)
        requires
            self.wf(),
        ensures
            forall|id: OpId| #[trigger] is_head(log_map(self.log()), id, key@) ==> r@.contains(id),
            forall|d: int| 0 <= d < r@.len() ==> in_log(self.log(), #[trigger] r@[d]),
    {
        let ghost s = self.log();
        let ghost m = log_map(s);
        proof {
            lemma_log_map(s);
        }
        let mut r: Vec<OpId> = Vec::new();
        let mut i: usize = 0;
        while i < self.ops.len()
            invariant
                s == self.log(),
                m == log_map(s),
                self.wf(),
                i <= s.len(),
                forall|j: int|
                    0 <= j < s.len() ==> m.contains_key(#[trigger] s[j].id) && m[s[j].id] == s[j],
                forall|j: int| 0 <= j < i && is_head(m, #[trigger] s[j].id, key@) ==> r@.contains(s[j].id),
                forall|d: int| 0 <= d < r@.len() ==> in_log(s, #[trigger] r@[d]),
            decreases s.len() - i,
        {
            let o = &self.ops[i];
            let ghost r0 = r@;
            if bytes_eq(o.kind.key().as_slice(), key) && !self.is_overwritten(o.id, key) {
                r.push(o.id);
                assert(r@[r@.len() - 1] == s[i as int].id);
                assert forall|x: OpId| r0.contains(x) implies r@.contains(x) by {
                    let k = choose|k: int| 0 <= k < r0.len() && r0[k] == x;
                    assert(r@[k] == x);
                }
                assert forall|d: int| 0 <= d < r@.len() implies in_log(s, #[trigger] r@[d]) by {
                    if d < r0.len() {
                        assert(r@[d] == r0[d]);
                    }
                }
            }
            i = i + 1;
        }
        proof {
            assert forall|id: OpId| #[trigger] is_head(m, id, key@) implies r@.contains(id) by {
                let j = choose|j: int| 0 <= j < s.len() && s[j].id == id;
                assert(is_head(m, s[j].id, key@));
            }
        }
        r
    }

    /// Appends the transaction's edits as operations with consecutive
    /// counters of this replica; all of them or none.
    pub fn commit(&mut self, tx: Transaction) -> (r: Result<(), ClockError>)
        requires
            old(self).wf(),
        ensures
            final(self).wf(),
            final(self).actor_spec() == old(self).actor_spec(),
            r is Err <==> max_counter(old(self).log(), old(self).actor_spec()) + tx.edits().len()
                > u64::MAX,
            r is Err ==> final(self).log() == old(self).log(),
            r is Ok ==> {
                let s = final(self).log();
                let n = old(self).log().len();
                let c = max_counter(old(self).log(), old(self).actor_spec());
                &&& s.len() == n + tx.edits().len()
                &&& s.subrange(0, n as int) == old(self).log()
                &&& forall|i: int|
                    0 <= i < tx.edits().len() ==> #[trigger] written(
                        s,
                        n as int,
                        old(self).actor_spec(),
                        c,
                        tx.edits(),
                        i,
                    )
            },
    {
        let ghost s0 = self.log();
        let ghost n = s0.len();
        let ghost ed = tx.edits();
        let a = self.actor;
        let c0 = self.clock(a);
        let count = tx.edits.len();
        if count as u64 > u64::MAX - c0 {
            return Err(ClockError { actor: a, last: c0 });
        }
        proof {
            lemma_max_counter(s0, a);
        }
        let mut i: usize = 0;
        while i < count
            invariant
                self.wf(),
                self.actor == a,
                count == tx.edits@.len(),
                ed == tx.edits(),
                c0 == max_counter(s0, a),
                c0 + count <= u64::MAX,
                i <= count,
                self.log().len() == n + i,
                self.log().subrange(0, n as int) == s0,
                forall|j: int|
                    0 <= j < self.log().len() && #[trigger] self.log()[j].id.actor == a
                        ==> self.log()[j].id.counter <= c0 + i,
                c0 + i >= 1 ==> in_log(self.log(), OpId { actor: a, counter: (c0 + i) as u64 }),
                forall|j: int| 0 <= j < i ==> #[trigger] written(self.log(), n as int, a, c0, ed, j),
            decreases count - i,
        {
            let ghost before = self.log();
            let kind = tx.edits[i].clone_kind();
            let id = OpId { actor: a, counter: c0 + 1 + i as u64 };
            let mut deps = self.heads_of(kind.key().as_slice());
            let ghost d0 = deps@;
            if c0 + (i as u64) >= 1 {
                deps.push(OpId { actor: a, counter: c0 + i as u64 });
                assert forall|id2: OpId| #[trigger]
                    is_head(log_map(before), id2, kind@.key()) implies deps@.contains(id2) by {
                    assert(d0.contains(id2));
                    let k = choose|k: int| 0 <= k < d0.len() && d0[k] == id2;
                    assert(deps@[k] == id2);
                }
                assert forall|d: int| 0 <= d < deps@.len() implies in_log(before, #[trigger] deps@[d]) by {
                    if d < d0.len() {
                        assert(deps@[d] == d0[d]);
                    }
                }
            }
            let op = Operation { id, kind, deps };
            let ghost ov = op@;
            assert(local_write(before, ov));
            self.ops.push(op);
            proof {
                let s = self.log();
                assert(s =~= before.push(ov));
                assert(s.subrange(0, n as int) =~= s0);
                assert(before.subrange(0, n as int) =~= s0);
                assert(s.subrange(0, n + i) =~= before);
                assert forall|j: int| 0 <= j < i + 1 implies #[trigger] written(
                    s,
                    n as int,
                    a,
                    c0,
                    ed,
                    j,
                ) by {
                    if j < i {
                        assert(written(before, n as int, a, c0, ed, j));
                        assert(s.subrange(0, n + j) =~= before.subrange(0, n + j));
                        assert(s[n + j] == before[n + j]);
                    } else {
                        assert(s[n + j] == ov);
                    }
                }
                assert(in_log(s, OpId { actor: a, counter: (c0 + i + 1) as u64 })) by {
                    assert(s[s.len() - 1].id == id);
                }
                assert(!in_log(before, ov.id)) by {
                    if in_log(before, ov.id) {
                        let j = choose|j: int| 0 <= j < before.len() && before[j].id == ov.id;
                        assert(before[j].id.actor == a);
                    }
                }
                lemma_push_wf(before, ov);
                assert forall|j: int| 0 <= j < s.len() && #[trigger] s[j].id.actor == a implies s[j].id.counter
                    <= c0 + i + 1 by {
                    if j < s.len() - 1 {
                        assert(before[j] == s[j]);
                    }
                }
            }
            i = i + 1;
        }
        Ok(())
    }
}

impl OpKind {
    /// A copy of the edit.
    pub fn clone_kind(&self) -> (r: OpKind)
        ensures
            r@ == self@,
    {
        match self {
            OpKind::Put(k, v) => OpKind::Put(slice_to_vec(k.as_slice()), v.copy()),
            OpKind::Delete(k) => OpKind::Delete(slice_to_vec(k.as_slice())),
        }
    }
}


/// Why a merge could not integrate every change.
#[derive(Clone, Copy, Debug, PartialEq, Eq, Structural)]
pub enum MergeError {
    /// A change waits for an operation that never arrived.
    MissingDependency(OpId),
}

pub open spec fn changes_view(cs: Seq<Change>) -> Seq<ChangeV> {
    cs.map_values(|c: Change| c@)
}

/// Number of `false` entries.
pub open spec fn count_false(s: Seq<bool>) -> nat
    decreases s.len(),
{
    if s.len() == 0 {
        0
    } else {
        count_false(s.drop_last()) + if s.last() {
            0nat
        } else {
            1nat
        }
    }
}

proof fn lemma_count_set(s: Seq<bool>, j: int)
    requires
        0 <= j < s.len(),
    ensures
        !s[j] ==> count_false(s.update(j, true)) + 1 == count_false(s),
        s[j] ==> count_false(s.update(j, true)) == count_false(s),
    decreases s.len(),
{
    let t = s.update(j, true);
    if j == s.len() - 1 {
        assert(t.drop_last() =~= s.drop_last());
    } else {
        lemma_count_set(s.drop_last(), j);
        assert(t.drop_last() =~= s.drop_last().update(j, true));
    }
}

impl Operation {
    /// A copy of the operation.
    pub fn copy(&self) -> (r: Operation)
        ensures
            r@ == self@,
    {
        Operation { id: self.id, kind: self.kind.clone_kind(), deps: slice_to_vec(self.deps.as_slice()) }
    }
}

impl Document {
    /// Whether every operation of the change is in the log.
    pub fn has_change(&self, c: &Change) -> (r: bool)
        ensures
            r == present(self.log(), c@),
    {
        let mut k: usize = 0;
        while k < c.ops.len()
            invariant
                k <= c.ops@.len(),
                forall|k2: int| 0 <= k2 < k ==> in_log(self.log(), #[trigger] c@.ops[k2].id),
            decreases c.ops@.len() - k,
        {
            if !self.contains(c.ops[k].id) {
                assert(!in_log(self.log(), c@.ops[k as int].id));
                return false;
            }
            k = k + 1;
        }
        true
    }

    /// A dependency of the change that is neither in the log nor an earlier
    /// operation of the change, if there is one.
    pub fn missing_dep(&self, c: &Change) -> (r: Option<OpId>)
        ensures
            r is None <==> integrable(self.log(), c@),
            match r {
                Some(id) => !in_log(self.log(), id) && exists|k: int, d: int|
                    0 <= k < c@.ops.len() && 0 <= d < c@.ops[k].deps.len() && #[trigger] c@.ops[k].deps[d]
                        == id,
                None => true,
            },
    {
        let ghost cv = c@;
        let mut k: usize = 0;
        while k < c.ops.len()
            invariant
                cv == c@,
                k <= cv.ops.len(),
                forall|k2: int, d: int|
                    0 <= k2 < k && 0 <= d < cv.ops[k2].deps.len() ==> #[trigger] dep_met(self.log(), cv, k2, d),
            decreases cv.ops.len() - k,
        {
            let o = &c.ops[k];
            let mut d: usize = 0;
            while d < o.deps.len()
                invariant
                    cv == c@,
                    k < cv.ops.len(),
                    cv.ops[k as int] == o@,
                    d <= o.deps@.len(),
                    forall|k2: int, d2: int|
                        0 <= k2 < k && 0 <= d2 < cv.ops[k2].deps.len() ==> #[trigger] dep_met(self.log(), cv, k2, d2),
                    forall|d2: int| 0 <= d2 < d ==> #[trigger] dep_met(self.log(), cv, k as int, d2),
                decreases o.deps@.len() - d,
            {
                let dep = o.deps[d];
                let mut found = self.contains(dep);
                let mut k2: usize = 0;
                while k2 < k && !found
                    invariant
                        cv == c@,
                        k < cv.ops.len(),
                        k2 <= k,
                        found ==> dep_met(self.log(), cv, k as int, d as int),
                        !found ==> !in_log(self.log(), dep) && forall|k3: int| 0 <= k3 < k2 ==> #[trigger] cv.ops[k3].id != dep,
                        (d as int) < cv.ops[k as int].deps.len(),
                        dep == cv.ops[k as int].deps[d as int],
                    decreases k - k2,
                {
                    if c.ops[k2].id == dep {
                        assert(cv.ops[k2 as int].id == cv.ops[k as int].deps[d as int]);
                        found = true;
                    }
                    k2 = k2 + 1;
                }
                if !found {
                    proof {
                        assert(!dep_met(self.log(), cv, k as int, d as int));
                    }
                    return Some(dep);
                }
                d = d + 1;
            }
            k = k + 1;
        }
        None
    }

    /// Appends the operations of an integrable change that are not yet in
    /// the log, in order.
    fn integrate(&mut self, c: &Change)
        requires
            old(self).wf(),
            integrable(old(self).log(), c@),
        ensures
            final(self).wf(),
            final(self).actor_spec() == old(self).actor_spec(),
            final(self).log().len() >= old(self).log().len(),
            final(self).log().subrange(0, old(self).log().len() as int) == old(self).log(),
            forall|i: int|
                old(self).log().len() <= i < final(self).log().len() ==> #[trigger] in_change(
                    c@,
                    final(self).log()[i],
                ),
            present(final(self).log(), c@),
    {
        let ghost s0 = self.log();
        let ghost n0 = s0.len();
        let ghost cv = c@;
        let mut k: usize = 0;
        while k < c.ops.len()
            invariant
                cv == c@,
                integrable(s0, cv),
                self.wf(),
                self.actor == old(self).actor,
                s0 == old(self).log(),
                n0 == s0.len(),
                k <= cv.ops.len(),
                self.log().len() >= n0,
                self.log().subrange(0, n0 as int) == s0,
                forall|i: int| n0 <= i < self.log().len() ==> #[trigger] in_change(cv, self.log()[i]),
                forall|k2: int| 0 <= k2 < k ==> in_log(self.log(), #[trigger] cv.ops[k2].id),
            decreases cv.ops.len() - k,
        {
            let ghost before = self.log();
            if !self.contains(c.ops[k].id) {
                let op = c.ops[k].copy();
                let ghost ov = op@;
                proof {
                    lemma_extend(s0, before, seq![]);
                    assert forall|d: int| 0 <= d < ov.deps.len() implies in_log(before, #[trigger] ov.deps[d]) by {
                        assert(dep_met(s0, cv, k as int, d));
                        if !in_log(s0, ov.deps[d]) {
                            let k2 = choose|k2: int| 0 <= k2 < k && #[trigger] cv.ops[k2].id == cv.ops[k as int].deps[d];
                            assert(in_log(before, cv.ops[k2].id));
                        }
                    }
                    lemma_push_wf(before, ov);
                }
                self.ops.push(op);
                proof {
                    let s = self.log();
                    assert(s =~= before.push(ov));
                    assert(s.subrange(0, n0 as int) =~= before.subrange(0, n0 as int));
                    assert(s.subrange(0, before.len() as int) =~= before);
                    lemma_extend(before, s, seq![]);
                    assert forall|i: int| n0 <= i < s.len() implies #[trigger] in_change(cv, s[i]) by {
                        if i < before.len() {
                            assert(s[i] == before[i]);
                            assert(in_change(cv, before[i]));
                        } else {
                            assert(cv.ops[k as int] == s[i]);
                        }
                    }
                    assert(s[s.len() - 1].id == cv.ops[k as int].id);
                }
            }
            k = k + 1;
        }
        proof {
            assert forall|k2: int| 0 <= k2 < cv.ops.len() implies in_log(self.log(), #[trigger] cv.ops[k2].id) by {}
        }
    }
}


impl Document {
    /// Merges changes received from other replicas. Operations already in the
    /// log are skipped; a change whose dependencies are missing waits until
    /// another change of the batch brings them, and is reported if they never
    /// arrive. The document stays well-formed either way.
    pub fn apply_changes(&mut self, changes: &Vec<Change>) -> (r: Result<(), MergeError>)
        requires
            old(self).wf(),
        ensures
            final(self).wf(),
            final(self).actor_spec() == old(self).actor_spec(),
            merged(old(self).log(), changes_view(changes@), final(self).log()),
            r is Ok <==> forall|j: int|
                0 <= j < changes@.len() ==> present(final(self).log(), #[trigger] changes_view(changes@)[j]),
            match r {
                Err(MergeError::MissingDependency(id)) => !in_log(final(self).log(), id) && exists|
                    j: int,
                    k: int,
                    d: int,
                |
                    0 <= j < changes@.len() && 0 <= k < changes@[j]@.ops.len() && 0 <= d
                        < changes@[j]@.ops[k].deps.len() && #[trigger] changes@[j]@.ops[k].deps[d] == id,
                Ok(_) => true,
            },
    {
        let ghost s0 = self.log();
        let ghost n0 = s0.len();
        let ghost cs = changes_view(changes@);
        let n = changes.len();
        let mut done: Vec<bool> = Vec::new();
        let mut i: usize = 0;
        while i < n
            invariant
                i <= n,
                done@.len() == i,
                forall|j: int| 0 <= j < i ==> !done@[j],
            decreases n - i,
        {
            done.push(false);
            i = i + 1;
        }
        let mut progress = true;
        while progress
            invariant
                self.wf(),
                self.actor == old(self).actor,
                s0 == old(self).log(),
                n0 == s0.len(),
                cs == changes_view(changes@),
                n == changes@.len(),
                done@.len() == n,
                self.log().len() >= n0,
                self.log().subrange(0, n0 as int) == s0,
                forall|x: int| n0 <= x < self.log().len() ==> #[trigger] from_changes(cs, self.log()[x]),
                forall|j: int| 0 <= j < n && #[trigger] done@[j] ==> present(self.log(), cs[j]),
                !progress ==> forall|j: int|
                    0 <= j < n ==> #[trigger] done@[j] || (!present(self.log(), cs[j]) && !integrable(self.log(), cs[j])),
                settled(s0, cs) ==> self.log() == s0,
            decreases count_false(done@) + if progress {
                1nat
            } else {
                0nat
            },
        {
            progress = false;
            let ghost round_log = self.log();
            let ghost start_count = count_false(done@);
            let mut j: usize = 0;
            while j < n
                invariant
                    self.wf(),
                    self.actor == old(self).actor,
                    s0 == old(self).log(),
                    n0 == s0.len(),
                    cs == changes_view(changes@),
                    n == changes@.len(),
                    done@.len() == n,
                    j <= n,
                    self.log().len() >= n0,
                    self.log().subrange(0, n0 as int) == s0,
                    forall|x: int| n0 <= x < self.log().len() ==> #[trigger] from_changes(cs, self.log()[x]),
                    forall|j2: int| 0 <= j2 < n && #[trigger] done@[j2] ==> present(self.log(), cs[j2]),
                    !progress ==> self.log() == round_log,
                    !progress ==> forall|j2: int|
                        0 <= j2 < j ==> #[trigger] done@[j2] || (!present(self.log(), cs[j2]) && !integrable(self.log(), cs[j2])),
                    settled(s0, cs) ==> self.log() == s0,
                    count_false(done@) <= start_count,
                    progress ==> count_false(done@) < start_count,
                decreases n - j,
            {
                assert(cs[j as int] == changes@[j as int]@);
                if !done[j] {
                    if self.has_change(&changes[j]) {
                        proof {
                            lemma_count_set(done@, j as int);
                        }
                        done.set(j, true);
                    } else if self.missing_dep(&changes[j]).is_none() {
                        let ghost before = self.log();
                        proof {
                            if settled(s0, cs) {
                                assert(present(s0, cs[j as int]) || !integrable(s0, cs[j as int]));
                            }
                        }
                        self.integrate(&changes[j]);
                        proof {
                            let s = self.log();
                            assert(s.subrange(0, n0 as int) =~= before.subrange(0, n0 as int));
                            lemma_extend(before, s, cs);
                            assert forall|x: int| n0 <= x < s.len() implies #[trigger] from_changes(cs, s[x]) by {
                                if x < before.len() {
                                    assert(s[x] == before[x]);
                                    assert(from_changes(cs, before[x]));
                                } else {
                                    assert(in_change(cs[j as int], s[x]));
                                    let k = choose|k: int| 0 <= k < cs[j as int].ops.len() && #[trigger] cs[j as int].ops[k] == s[x];
                                    assert(cs[j as int].ops[k] == s[x]);
                                }
                            }
                            lemma_count_set(done@, j as int);
                        }
                        done.set(j, true);
                        progress = true;
                    }
                }
                j = j + 1;
            }
        }
        proof {
            let s = self.log();
            lemma_prefix_map(s0, s);
            lemma_log_map(s);
            assert forall|id: OpId| #[trigger] log_map(s).contains_key(id) && !in_log(s0, id) implies from_changes(
                cs,
                log_map(s)[id],
            ) by {
                let x = choose|x: int| 0 <= x < s.len() && s[x].id == id;
                if x < n0 {
                    assert(s0[x] == s[x]);
                }
                assert(from_changes(cs, s[x]));
            }
            assert forall|j: int| 0 <= j < cs.len() implies present(s, #[trigger] cs[j]) || !integrable(s, cs[j]) by {
                assert(done@[j] || (!present(s, cs[j]) && !integrable(s, cs[j])));
            }
            assert(merged(s0, cs, s));
        }
        let mut j: usize = 0;
        while j < n
            invariant
                self.wf(),
                self.actor == old(self).actor,
                s0 == old(self).log(),
                merged(s0, cs, self.log()),
                n == changes@.len(),
                cs == changes_view(changes@),
                done@.len() == n,
                j <= n,
                forall|j2: int| 0 <= j2 < j ==> #[trigger] done@[j2],
                forall|j2: int| 0 <= j2 < n && #[trigger] done@[j2] ==> present(self.log(), cs[j2]),
                forall|j2: int|
                    0 <= j2 < n ==> #[trigger] done@[j2] || (!present(self.log(), cs[j2]) && !integrable(self.log(), cs[j2])),
            decreases n - j,
        {
            if !done[j] {
                assert(cs[j as int] == changes@[j as int]@);
                match self.missing_dep(&changes[j]) {
                    Some(id) => {
                        proof {
                            let (k, d) = choose|k: int, d: int|
                                0 <= k < changes@[j as int]@.ops.len() && 0 <= d < changes@[j as int]@.ops[k].deps.len()
                                    && #[trigger] changes@[j as int]@.ops[k].deps[d] == id;
                            assert(changes@[j as int]@.ops[k].deps[d] == id);
                        }
                        return Err(MergeError::MissingDependency(id));
                    },
                    None => {
                        return Ok(());
                    },
                }
            }
            j = j + 1;
        }
        assert forall|j2: int| 0 <= j2 < changes@.len() implies present(self.log(), #[trigger] changes_view(changes@)[j2]) by {
            assert(done@[j2]);
        }
        Ok(())
    }
}


/// A version: for each actor, the highest counter known.
pub struct Version {
    pub heads: Vec<OpId>,
}

impl View for Version {
    type V = Seq<OpId>;

    open spec fn view(&self) -> Seq<OpId> {
        self.heads@
    }
}

impl Version {
    /// The version that knows nothing.
    pub fn empty() -> (r: Version)
        ensures
            r@ == Seq::<OpId>::empty(),
    {
        Version { heads: Vec::new() }
    }

    /// Whether the version covers `id`.
    pub fn covers(&self, id: OpId) -> (r: bool)
        ensures
            r == seen(self@, id),
    {
        let mut e: usize = 0;
        while e < self.heads.len()
            invariant
                e <= self@.len(),
                forall|e2: int| 0 <= e2 < e ==> !(#[trigger] self@[e2].actor == id.actor && id.counter <= self@[e2].counter),
            decreases self@.len() - e,
        {
            let h = self.heads[e];
            if h.actor == id.actor && id.counter <= h.counter {
                assert(self@[e as int].actor == id.actor);
                return true;
            }
            e = e + 1;
        }
        false
    }
}

impl Document {
    /// The document's current version: each actor of the log with its
    /// highest counter.
    pub fn version(&self) -> (r: Version)
        ensures
            forall|id: OpId| in_log(self.log(), id) ==> seen(r@, id),
            forall|e: int| 0 <= e < r@.len() ==> #[trigger] r@[e].counter == max_counter(self.log(), r@[e].actor),
    {
        let ghost s = self.log();
        proof {
            lemma_max_counter(s, 0);
        }
        let mut r = Version::empty();
        let mut i: usize = 0;
        while i < self.ops.len()
            invariant
                s == self.log(),
                i <= s.len(),
                forall|i2: int| 0 <= i2 < i ==> seen(r@, #[trigger] s[i2].id),
                forall|e: int| 0 <= e < r@.len() ==> #[trigger] r@[e].counter == max_counter(s, r@[e].actor),
            decreases s.len() - i,
        {
            let id = self.ops[i].id;
            if !r.covers(id) {
                let c = self.clock(id.actor);
                proof {
                    lemma_max_counter(s, id.actor);
                    assert(s[i as int].id.actor == id.actor);
                }
                let ghost before = r@;
                r.heads.push(OpId { actor: id.actor, counter: c });
                proof {
                    assert forall|i2: int| 0 <= i2 <= i implies seen(r@, #[trigger] s[i2].id) by {
                        if i2 < i {
                            let e = choose|e: int| 0 <= e < before.len() && #[trigger] before[e].actor == s[i2].id.actor && s[i2].id.counter <= before[e].counter;
                            assert(r@[e] == before[e]);
                        } else {
                            assert(r@[before.len() as int].actor == s[i2].id.actor);
                        }
                    }
                }
            }
            i = i + 1;
        }
        proof {
            assert forall|id: OpId| in_log(s, id) implies seen(r@, id) by {
                let j = choose|j: int| 0 <= j < s.len() && s[j].id == id;
                assert(seen(r@, s[j].id));
            }
        }
        r
    }

    /// The operations that `v` does not cover, as changes of consecutive
    /// operations of one actor each, in an order in which they can be
    /// merged without waiting.
    pub fn changes_since(&self, v: &Version, timestamp: u64) -> (r: Vec<Change>)
        requires
            self.wf(),
        ensures
            forall|j: int|
                0 <= j < r@.len() ==> wf_change(#[trigger] changes_view(r@)[j]) && changes_view(r@)[j].timestamp
                    == timestamp && changes_view(r@)[j].message is None && changes_view(r@)[j].ops.len() > 0,
            forall|j: int, k: int|
                0 <= j < r@.len() && 0 <= k < changes_view(r@)[j].ops.len() ==> {
                    let o = #[trigger] changes_view(r@)[j].ops[k];
                    in_log(self.log(), o.id) && log_map(self.log())[o.id] == o && !seen(v@, o.id)
                },
            forall|id: OpId| #[trigger] in_log(self.log(), id) && !seen(v@, id) ==> carried(changes_view(r@), id),
            ordered(changes_view(r@), v@),
    {
        let ghost s = self.log();
        proof {
            lemma_log_map(s);
        }
        let mut out: Vec<Change> = Vec::new();
        let mut cur = Change { actor: 0, start: 0, timestamp, message: None, ops: Vec::new() };
        let mut i: usize = 0;
        proof {
            let all = changes_view(out@).push(cur@);
            assert(all.len() == 1 && all[0].ops.len() == 0);
            assert forall|j: int, k: int, d: int|
                0 <= j < all.len() && 0 <= k < all[j].ops.len() && 0 <= d < all[j].ops[k].deps.len() implies #[trigger] crate::log::dep_ready(all, v@, j, k, d) by {}
        }
        while i < self.ops.len()
            invariant
                s == self.log(),
                self.wf(),
                i <= s.len(),
                forall|j: int| 0 <= j < s.len() ==> log_map(s).contains_key(#[trigger] s[j].id) && log_map(s)[s[j].id] == s[j],
                cur.ops@.len() == 0 ==> out@.len() == 0,
                forall|j: int| 0 <= j < out@.len() ==> (#[trigger] out@[j]).ops@.len() > 0,
                ({
                    let all = changes_view(out@).push(cur@);
                    &&& forall|j: int|
                        0 <= j < all.len() ==> wf_change(#[trigger] all[j]) && all[j].timestamp == timestamp
                            && all[j].message is None
                    &&& forall|j: int, k: int|
                        0 <= j < all.len() && 0 <= k < all[j].ops.len() ==> {
                            let o = #[trigger] all[j].ops[k];
                            in_log(s, o.id) && log_map(s)[o.id] == o && !seen(v@, o.id)
                        }
                    &&& forall|i2: int| 0 <= i2 < i && !seen(v@, #[trigger] s[i2].id) ==> carried(all, s[i2].id)
                    &&& ordered(all, v@)
                }),
            decreases s.len() - i,
        {
            let ghost all = changes_view(out@).push(cur@);
            let o = &self.ops[i];
            if !v.covers(o.id) {
                let ghost ov = s[i as int];
                assert(ov == o@);
                proof {
                    assert forall|d: int| 0 <= d < ov.deps.len() implies seen(v@, #[trigger] ov.deps[d]) || carried(all, ov.deps[d]) by {
                        assert(crate::log::dep_before(s, i as int, d));
                        let j = choose|j: int| 0 <= j < i && #[trigger] s[j].id == s[i as int].deps[d];
                        if !seen(v@, s[j].id) {
                            assert(carried(all, s[j].id));
                        }
                    }
                }
                let n = cur.ops.len();
                if n > 0 && o.id.actor == cur.actor && cur.start <= u64::MAX - n as u64 && o.id.counter
                    == cur.start + n as u64 {
                    let ghost c0 = cur@;
                    let op = o.copy();
                    cur.ops.push(op);
                    proof {
                        assert(all.last() == c0);
                        assert(all.drop_last() =~= changes_view(out@));
                        assert(ops_view(cur.ops@) =~= c0.ops.push(ov));
                        assert(cur@ == ChangeV { ops: c0.ops.push(ov), ..c0 });
                        lemma_ordered_extend(all, v@, ov);
                        let all2 = changes_view(out@).push(cur@);
                        assert(all2 =~= all.drop_last().push(ChangeV { ops: c0.ops.push(ov), ..c0 }));
                        assert forall|j: int| 0 <= j < all2.len() implies wf_change(#[trigger] all2[j]) && all2[j].timestamp
                            == timestamp && all2[j].message is None by {
                            if j < all.len() - 1 {
                                assert(all2[j] == all[j]);
                            } else {
                                assert forall|k: int| 0 <= k < all2[j].ops.len() implies #[trigger] all2[j].ops[k].id == crate::types::run_id(all2[j].actor, all2[j].start, k) by {
                                    if k < n {
                                        assert(all2[j].ops[k] == c0.ops[k]);
                                    }
                                }
                            }
                        }
                        assert forall|j: int, k: int| 0 <= j < all2.len() && 0 <= k < all2[j].ops.len() implies {
                            let o2 = #[trigger] all2[j].ops[k];
                            in_log(s, o2.id) && log_map(s)[o2.id] == o2 && !seen(v@, o2.id)
                        } by {
                            if j < all.len() - 1 || k < n {
                                assert(all2[j].ops[k] == all[j].ops[k]);
                            } else {
                                assert(all2[j].ops[k] == ov);
                                assert(log_map(s).contains_key(s[i as int].id));
                            }
                        }
                        assert forall|i2: int| 0 <= i2 <= i && !seen(v@, #[trigger] s[i2].id) implies carried(all2, s[i2].id) by {
                            if i2 < i {
                                assert(carried(all, s[i2].id));
                            }
                        }
                    }
                } else {
                    let mut ops: Vec<Operation> = Vec::new();
                    ops.push(o.copy());
                    let fresh = Change { actor: o.id.actor, start: o.id.counter, timestamp, message: None, ops };
                    let ghost fv = fresh@;
                    proof {
                        assert(fv.ops =~= seq![ov]);
                        lemma_ordered_new(all, v@, fv);
                    }
                    if n == 0 {
                        cur = fresh;
                        proof {
                            assert(out@.len() == 0);
                            assert(all.len() == 1 && all[0].ops.len() == 0);
                            assert forall|x: OpId| !carried(all, x) by {}
                            lemma_ordered_new(Seq::empty(), v@, fv);
                            let all2 = changes_view(out@).push(cur@);
                            assert(all2 =~= Seq::<ChangeV>::empty().push(fv));
                            assert(all2[0] == fv);
                            assert forall|k: int| 0 <= k < all2[0].ops.len() implies {
                                let o2 = #[trigger] all2[0].ops[k];
                                in_log(s, o2.id) && log_map(s)[o2.id] == o2 && !seen(v@, o2.id)
                            } by {
                                assert(all2[0].ops[k] == ov);
                                assert(log_map(s).contains_key(s[i as int].id));
                            }
                            assert forall|i2: int| 0 <= i2 <= i && !seen(v@, #[trigger] s[i2].id) implies carried(all2, s[i2].id) by {
                                if i2 < i {
                                    assert(carried(all, s[i2].id));
                                }
                            }
                        }
                    } else {
                    let old_cur = cur;
                    cur = fresh;
                    out.push(old_cur);
                    proof {
                        let all2 = changes_view(out@).push(cur@);
                        assert(all2 =~= all.push(fv));
                        assert forall|j: int| 0 <= j < all2.len() implies wf_change(#[trigger] all2[j]) && all2[j].timestamp
                            == timestamp && all2[j].message is None by {
                            if j < all.len() {
                                assert(all2[j] == all[j]);
                            } else {
                                assert(all2[j] == fv);
                            }
                        }
                        assert forall|j: int, k: int| 0 <= j < all2.len() && 0 <= k < all2[j].ops.len() implies {
                            let o2 = #[trigger] all2[j].ops[k];
                            in_log(s, o2.id) && log_map(s)[o2.id] == o2 && !seen(v@, o2.id)
                        } by {
                            if j < all.len() {
                                assert(all2[j].ops[k] == all[j].ops[k]);
                            } else {
                                assert(all2[j].ops[k] == ov);
                                assert(log_map(s).contains_key(s[i as int].id));
                            }
                        }
                        assert forall|i2: int| 0 <= i2 <= i && !seen(v@, #[trigger] s[i2].id) implies carried(all2, s[i2].id) by {
                            if i2 < i {
                                assert(carried(all, s[i2].id));
                            }
                        }
                    }
                    }
                }
            }
            i = i + 1;
        }
        let ghost all = changes_view(out@).push(cur@);
        if cur.ops.len() > 0 {
            out.push(cur);
            proof {
                assert(changes_view(out@) =~= all);
            }
        } else {
            proof {
                let r = changes_view(out@);
                assert(all.drop_last() =~= r);
                assert(all.take(r.len() as int) =~= r);
                assert forall|j: int, k: int, d: int|
                    0 <= j < r.len() && 0 <= k < r[j].ops.len() && 0 <= d < r[j].ops[k].deps.len() implies #[trigger] crate::log::dep_ready(r, v@, j, k, d) by {
                    assert(r[j] == all[j]);
                    assert(r.take(j) =~= all.take(j));
                    assert(crate::log::dep_ready(all, v@, j, k, d));
                }
                assert forall|id: OpId| carried(all, id) implies carried(r, id) by {
                    let (j2, k2) = choose|j2: int, k2: int| 0 <= j2 < all.len() && 0 <= k2 < all[j2].ops.len() && #[trigger] all[j2].ops[k2].id == id;
                    assert(r[j2] == all[j2]);
                }
                assert forall|j: int, k: int| 0 <= j < r.len() && 0 <= k < r[j].ops.len() implies {
                    let o2 = #[trigger] r[j].ops[k];
                    in_log(s, o2.id) && log_map(s)[o2.id] == o2 && !seen(v@, o2.id)
                } by {
                    assert(r[j] == all[j]);
                }
            }
        }
        proof {
            let r = changes_view(out@);
            assert forall|id: OpId| #[trigger] in_log(s, id) && !seen(v@, id) implies carried(r, id) by {
                let j = choose|j: int| 0 <= j < s.len() && s[j].id == id;
                assert(carried(all, s[j].id));
            }
        }
        out
    }
}


/// The entries hold distinct keys.
pub open spec fn distinct_keys(r: Seq<(Vec<u8>, Value)>) -> bool {
    forall|a: int, b: int| 0 <= a < b < r.len() ==> (#[trigger] r[a]).0@ != (#[trigger] r[b]).0@
}

impl Document {
    /// Whether some entry has this key.
    fn has_key(r: &Vec<(Vec<u8>, Value)>, key: &[u8]) -> (b: bool)
        ensures
            b == exists|e: int| 0 <= e < r@.len() && (#[trigger] r@[e]).0@ == key@,
    {
        let mut e: usize = 0;
        while e < r.len()
            invariant
                e <= r@.len(),
                forall|e2: int| 0 <= e2 < e ==> (#[trigger] r@[e2]).0@ != key@,
            decreases r@.len() - e,
        {
            if bytes_eq(r[e].0.as_slice(), key) {
                return true;
            }
            e = e + 1;
        }
        false
    }

    /// Every key with a value, once, with that value.
    pub fn project(&self) -> (r: Vec<(Vec<u8>, Value)>)
        requires
            self.wf(),
        ensures
            forall|e: int| 0 <= e < r@.len() ==> lookup(log_map(self.log()), (#[trigger] r@[e]).0@) == Some(r@[e].1@),
            forall|k: Seq<u8>| lookup(log_map(self.log()), k) is Some ==> exists|e: int| 0 <= e < r@.len() && (#[trigger] r@[e]).0@ == k,
            distinct_keys(r@),
    {
        let ghost s = self.log();
        let ghost m = log_map(s);
        proof {
            lemma_log_map(s);
        }
        let mut r: Vec<(Vec<u8>, Value)> = Vec::new();
        let mut i: usize = 0;
        while i < self.ops.len()
            invariant
                s == self.log(),
                m == log_map(s),
                self.wf(),
                i <= s.len(),
                forall|j: int| 0 <= j < s.len() ==> m.contains_key(#[trigger] s[j].id) && m[s[j].id] == s[j],
                forall|e: int| 0 <= e < r@.len() ==> lookup(m, (#[trigger] r@[e]).0@) == Some(r@[e].1@),
                forall|j: int| 0 <= j < i && lookup(m, (#[trigger] s[j]).kind.key()) is Some ==> exists|e: int| 0 <= e < r@.len() && (#[trigger] r@[e]).0@ == s[j].kind.key(),
                distinct_keys(r@),
            decreases s.len() - i,
        {
            let key = self.ops[i].kind.key();
            if !Self::has_key(&r, key.as_slice()) {
                match self.get(key.as_slice()) {
                    Some(v) => {
                        let ghost r0 = r@;
                        r.push((slice_to_vec(key.as_slice()), v));
                        proof {
                            assert(r@[r0.len() as int].0@ == s[i as int].kind.key());
                            assert forall|j: int| 0 <= j <= i && lookup(m, (#[trigger] s[j]).kind.key()) is Some implies exists|e: int| 0 <= e < r@.len() && (#[trigger] r@[e]).0@ == s[j].kind.key() by {
                                if j < i && s[j].kind.key() != s[i as int].kind.key() {
                                    let e = choose|e: int| 0 <= e < r0.len() && (#[trigger] r0[e]).0@ == s[j].kind.key();
                                    assert(r@[e] == r0[e]);
                                } else {
                                    assert(r@[r0.len() as int].0@ == s[j].kind.key());
                                }
                            }
                            assert forall|e: int| 0 <= e < r@.len() implies lookup(m, (#[trigger] r@[e]).0@) == Some(r@[e].1@) by {
                                if e < r0.len() {
                                    assert(r@[e] == r0[e]);
                                }
                            }
                            assert forall|a: int, b: int| 0 <= a < b < r@.len() implies (#[trigger] r@[a]).0@ != (#[trigger] r@[b]).0@ by {
                                assert(r@[a] == r0[a]);
                                if b < r0.len() {
                                    assert(r@[b] == r0[b]);
                                }
                            }
                        }
                    },
                    None => {},
                }
            }
            i = i + 1;
        }
        proof {
            assert forall|k: Seq<u8>| lookup(m, k) is Some implies exists|e: int| 0 <= e < r@.len() && (#[trigger] r@[e]).0@ == k by {
                let id = choose|id: OpId| is_winner(m, k, id);
                let j = choose|j: int| 0 <= j < s.len() && s[j].id == id;
                assert(m[s[j].id] == s[j]);
                assert(lookup(m, s[j].kind.key()) is Some);
            }
        }
        r
    }
}


impl Document {
    /// An independent replica with the same history, owned by `actor`.
    pub fn fork(&self, actor: u64) -> (r: Document)
        requires
            self.wf(),
        ensures
            r.wf(),
            r.log() == self.log(),
            r.actor_spec() == actor,
    {
        let mut ops: Vec<Operation> = Vec::new();
        let mut i: usize = 0;
        while i < self.ops.len()
            invariant
                i <= self.ops@.len(),
                ops_view(ops@) == self.log().subrange(0, i as int),
            decreases self.ops@.len() - i,
        {
            let ghost o0 = ops@;
            let op = self.ops[i].copy();
            ops.push(op);
            assert(ops_view(ops@) =~= ops_view(o0).push(self.log()[i as int]));
            i = i + 1;
            assert(ops_view(ops@) =~= self.log().subrange(0, i as int));
        }
        assert(self.log().subrange(0, i as int) =~= self.log());
        Document { actor, ops }
    }
}


/// An operation reached the log before one of its dependencies.
#[derive(Clone, Copy, Debug, PartialEq, Eq, Structural)]
pub struct CausalityError {
    pub missing: OpId,
}

impl Document {
    /// Adds one operation to the log. An operation already present is
    /// skipped; one with a dependency that is not in the log is refused.
    pub fn append(&mut self, op: Operation) -> (r: Result<(), CausalityError>)
        requires
            old(self).wf(),
        ensures
            final(self).wf(),
            final(self).actor_spec() == old(self).actor_spec(),
            in_log(old(self).log(), op.id) ==> r is Ok && final(self).log() == old(self).log(),
            !in_log(old(self).log(), op.id) ==> {
                &&& r is Ok <==> forall|d: int| 0 <= d < op.deps@.len() ==> in_log(old(self).log(), #[trigger] op.deps@[d])
                &&& r is Ok ==> final(self).log() == old(self).log().push(op@)
            },
            r is Err ==> final(self).log() == old(self).log(),
            match r {
                Err(e) => !in_log(old(self).log(), e.missing) && op.deps@.contains(e.missing),
                Ok(_) => true,
            },
    {
        if self.contains(op.id) {
            return Ok(());
        }
        let mut d: usize = 0;
        while d < op.deps.len()
            invariant
                self.wf(),
                self.actor == old(self).actor,
                self.log() == old(self).log(),
                !in_log(self.log(), op.id),
                d <= op.deps@.len(),
                forall|d2: int| 0 <= d2 < d ==> in_log(self.log(), #[trigger] op.deps@[d2]),
            decreases op.deps@.len() - d,
        {
            let dep = op.deps[d];
            if !self.contains(dep) {
                assert(op.deps@[d as int] == dep);
                return Err(CausalityError { missing: dep });
            }
            d = d + 1;
        }
        let ghost before = self.log();
        let ghost ov = op@;
        proof {
            lemma_push_wf(before, ov);
        }
        self.ops.push(op);
        assert(self.log() =~= before.push(ov));
        Ok(())
    }
}


impl Document {
    /// The operations that `v` does not cover, in log order, so that each
    /// dependency is covered by `v` or comes earlier in the result.
    pub fn operations_since(&self, v: &Version) -> (r: Vec<Operation>)
        requires
            self.wf(),
        ensures
            forall|i: int|
                0 <= i < r@.len() ==> {
                    let o = #[trigger] r@[i]@;
                    in_log(self.log(), o.id) && log_map(self.log())[o.id] == o && !seen(v@, o.id)
                },
            forall|id: OpId| #[trigger] in_log(self.log(), id) && !seen(v@, id) ==> exists|i: int| 0 <= i < r@.len() && #[trigger] r@[i].id == id,
            forall|i: int, d: int|
                0 <= i < r@.len() && 0 <= d < r@[i].deps@.len() ==> seen(v@, #[trigger] r@[i].deps@[d]) || exists|i2: int|
                    0 <= i2 < i && #[trigger] r@[i2].id == r@[i].deps@[d],
    {
        let ghost s = self.log();
        proof {
            lemma_log_map(s);
        }
        let mut r: Vec<Operation> = Vec::new();
        let mut i: usize = 0;
        while i < self.ops.len()
            invariant
                s == self.log(),
                self.wf(),
                i <= s.len(),
                forall|j: int| 0 <= j < s.len() ==> log_map(s).contains_key(#[trigger] s[j].id) && log_map(s)[s[j].id] == s[j],
                forall|k: int|
                    0 <= k < r@.len() ==> {
                        let o = #[trigger] r@[k]@;
                        in_log(s, o.id) && log_map(s)[o.id] == o && !seen(v@, o.id)
                    },
                forall|i2: int| 0 <= i2 < i && !seen(v@, #[trigger] s[i2].id) ==> exists|k: int| 0 <= k < r@.len() && #[trigger] r@[k].id == s[i2].id,
                forall|k: int, d: int|
                    0 <= k < r@.len() && 0 <= d < r@[k].deps@.len() ==> seen(v@, #[trigger] r@[k].deps@[d]) || exists|k2: int|
                        0 <= k2 < k && #[trigger] r@[k2].id == r@[k].deps@[d],
            decreases s.len() - i,
        {
            let o = &self.ops[i];
            if !v.covers(o.id) {
                let ghost r0 = r@;
                let ghost ov = s[i as int];
                assert(ov == o@);
                let op = o.copy();
                r.push(op);
                proof {
                    let n = r0.len() as int;
                    assert(r@[n]@ == ov);
                    assert forall|k: int| 0 <= k < r@.len() implies {
                        let o2 = #[trigger] r@[k]@;
                        in_log(s, o2.id) && log_map(s)[o2.id] == o2 && !seen(v@, o2.id)
                    } by {
                        if k < n {
                            assert(r@[k] == r0[k]);
                        } else {
                            assert(log_map(s).contains_key(s[i as int].id));
                        }
                    }
                    assert forall|i2: int| 0 <= i2 <= i && !seen(v@, #[trigger] s[i2].id) implies exists|k: int| 0 <= k < r@.len() && #[trigger] r@[k].id == s[i2].id by {
                        if i2 < i {
                            let k = choose|k: int| 0 <= k < r0.len() && #[trigger] r0[k].id == s[i2].id;
                            assert(r@[k] == r0[k]);
                        } else {
                            assert(r@[n].id == s[i2].id);
                        }
                    }
                    assert forall|k: int, d: int|
                        0 <= k < r@.len() && 0 <= d < r@[k].deps@.len() implies seen(v@, #[trigger] r@[k].deps@[d]) || exists|k2: int|
                            0 <= k2 < k && #[trigger] r@[k2].id == r@[k].deps@[d] by {
                        if k < n {
                            assert(r@[k] == r0[k]);
                            if !seen(v@, r0[k].deps@[d]) {
                                let k2 = choose|k2: int| 0 <= k2 < k && #[trigger] r0[k2].id == r0[k].deps@[d];
                                assert(r@[k2] == r0[k2]);
                            }
                        } else {
                            let x = r@[k].deps@[d];
                            assert(x == ov.deps[d]);
                            assert(crate::log::dep_before(s, i as int, d));
                            let j = choose|j: int| 0 <= j < i && #[trigger] s[j].id == s[i as int].deps[d];
                            if !seen(v@, x) {
                                let k2 = choose|k2: int| 0 <= k2 < r0.len() && #[trigger] r0[k2].id == s[j].id;
                                assert(r@[k2] == r0[k2]);
                            }
                        }
                    }
                }
            }
            i = i + 1;
        }
        r
    }
}

} // verus!
