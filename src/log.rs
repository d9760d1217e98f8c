//! Mathematical model of an operation log and of the key/value view that it
//! projects to.
use crate::types::{ChangeV, KindV, OpId, OpV, ValueV};
use vstd::prelude::*;

verus! {

/// Some operation of the log has this id.
pub open spec fn in_log(s: Seq<OpV>, id: OpId) -> bool {
    exists|i: int| 0 <= i < s.len() && #[trigger] s[i].id == id
}

/// No id occurs twice.
pub open spec fn unique_ids(s: Seq<OpV>) -> bool {
    forall|i: int, j: int| 0 <= i < j < s.len() ==> #[trigger] s[i].id != #[trigger] s[j].id
}

/// Every dependency of an operation stands earlier in the log.
pub open spec fn deps_earlier(s: Seq<OpV>) -> bool {
    forall|i: int, d: int|
        0 <= i < s.len() && 0 <= d < s[i].deps.len() ==> #[trigger] dep_before(s, i, d)
}

/// The `d`-th dependency of operation `i` is an operation before `i`.
pub open spec fn dep_before(s: Seq<OpV>, i: int, d: int) -> bool {
    exists|j: int| 0 <= j < i && #[trigger] s[j].id == s[i].deps[d]
}

/// A well-formed log: unique ids, and each operation after all it depends on.
pub open spec fn wf_log(s: Seq<OpV>) -> bool {
    unique_ids(s) && deps_earlier(s)
}

/// The log as a set of operations keyed by id.
pub open spec fn log_map(s: Seq<OpV>) -> Map<OpId, OpV> {
    Map::new(
        |id: OpId| in_log(s, id),
        |id: OpId| s[choose|i: int| 0 <= i < s.len() && s[i].id == id],
    )
}

/// Conflict order: the higher counter wins, then the higher actor.
pub open spec fn beats(x: OpId, y: OpId) -> bool {
    x.counter > y.counter || (x.counter == y.counter && x.actor > y.actor)
}

/// Some operation of `m` that writes `k` lists `id` among its dependencies.
pub open spec fn overwritten(m: Map<OpId, OpV>, id: OpId, k: Seq<u8>) -> bool {
    exists|w: OpId|
        #![trigger m[w]]
        m.contains_key(w) && m[w].kind.key() == k && m[w].deps.contains(id)
}

/// `id` writes `k` and no operation on `k` has overwritten it.
pub open spec fn is_head(m: Map<OpId, OpV>, id: OpId, k: Seq<u8>) -> bool {
    m.contains_key(id) && m[id].kind.key() == k && !overwritten(m, id, k)
}

/// `id` is the head of `k` that beats every other head of `k`.
pub open spec fn is_winner(m: Map<OpId, OpV>, k: Seq<u8>, id: OpId) -> bool {
    is_head(m, id, k) && forall|o: OpId| #[trigger] is_head(m, o, k) && o != id ==> beats(id, o)
}

/// The value under `k`: the winning write, unless it is a delete.
pub open spec fn lookup(m: Map<OpId, OpV>, k: Seq<u8>) -> Option<ValueV> {
    if exists|id: OpId| is_winner(m, k, id) {
        match m[choose|id: OpId| is_winner(m, k, id)].kind {
            KindV::Put(_, v) => Some(v),
            KindV::Delete(_) => None,
        }
    } else {
        None
    }
}

/// The whole key/value view of a set of operations.
pub open spec fn project(m: Map<OpId, OpV>) -> Map<Seq<u8>, ValueV> {
    Map::new(|k: Seq<u8>| lookup(m, k) is Some, |k: Seq<u8>| lookup(m, k)->Some_0)
}

/// With unique ids, each operation of the log is found under its id.
pub proof fn lemma_log_map(s: Seq<OpV>)
    requires
        unique_ids(s),
    ensures
        forall|i: int|
            0 <= i < s.len() ==> log_map(s).contains_key(#[trigger] s[i].id) && log_map(s)[s[i].id]
                == s[i],
{
    assert forall|i: int| 0 <= i < s.len() implies log_map(s).contains_key(#[trigger] s[i].id)
        && log_map(s)[s[i].id] == s[i] by {
        assert(in_log(s, s[i].id));
        let j = choose|j: int| 0 <= j < s.len() && s[j].id == s[i].id;
        if j != i {
            if j < i {
                assert(s[j].id != s[i].id);
            } else {
                assert(s[i].id != s[j].id);
            }
        }
    }
}

/// Two winners of one key are the same operation.
pub proof fn lemma_winner_unique(m: Map<OpId, OpV>, k: Seq<u8>, a: OpId, b: OpId)
    requires
        is_winner(m, k, a),
        is_winner(m, k, b),
    ensures
        a == b,
{
    if a != b {
        assert(is_head(m, b, k));
        assert(is_head(m, a, k));
    }
}

/// Appending an operation with a new id whose dependencies are all present
/// keeps a log well-formed.
pub proof fn lemma_push_wf(s: Seq<OpV>, o: OpV)
    requires
        wf_log(s),
        !in_log(s, o.id),
        forall|d: int| 0 <= d < o.deps.len() ==> in_log(s, #[trigger] o.deps[d]),
    ensures
        wf_log(s.push(o)),
        log_map(s.push(o)) == log_map(s).insert(o.id, o),
{
    let t = s.push(o);
    assert forall|x: int, y: int| 0 <= x < y < t.len() implies #[trigger] t[x].id != #[trigger] t[y].id by {
        assert(t[x] == s[x]);
        if y < s.len() {
            assert(t[y] == s[y]);
        } else {
            assert(t[y] == o);
        }
    }
    assert forall|x: int, d: int|
        0 <= x < t.len() && 0 <= d < t[x].deps.len() implies #[trigger] dep_before(t, x, d) by {
        if x < s.len() {
            assert(t[x] == s[x]);
            assert(dep_before(s, x, d));
            let j = choose|j: int| 0 <= j < x && #[trigger] s[j].id == s[x].deps[d];
            assert(t[j] == s[j]);
        } else {
            assert(t[x] == o);
            assert(in_log(s, o.deps[d]));
            let j = choose|j: int| 0 <= j < s.len() && #[trigger] s[j].id == o.deps[d];
            assert(t[j] == s[j]);
        }
    }
    assert(unique_ids(t));
    assert(deps_earlier(t));
    lemma_log_map(s);
    lemma_log_map(t);
    assert forall|id: OpId| in_log(t, id) <==> (in_log(s, id) || id == o.id) by {
        if in_log(t, id) {
            let j = choose|j: int| 0 <= j < t.len() && t[j].id == id;
            if j < s.len() {
                assert(s[j] == t[j]);
            }
        }
        if in_log(s, id) {
            let j = choose|j: int| 0 <= j < s.len() && s[j].id == id;
            assert(s[j] == t[j]);
        }
        if id == o.id {
            assert(t[s.len() as int] == o);
        }
    }
    assert forall|id: OpId| #[trigger] log_map(t).contains_key(id) implies log_map(t)[id]
        == log_map(s).insert(o.id, o)[id] by {
        let j = choose|j: int| 0 <= j < t.len() && t[j].id == id;
        if j < s.len() {
            assert(s[j] == t[j]);
        }
    }
    assert(log_map(t) =~= log_map(s).insert(o.id, o));
}

/// Every operation of the change is in the log.
pub open spec fn present(s: Seq<OpV>, c: ChangeV) -> bool {
    forall|k: int| 0 <= k < c.ops.len() ==> in_log(s, #[trigger] c.ops[k].id)
}

/// The `d`-th dependency of the change's `k`-th operation is in the log or
/// is an earlier operation of the change.
pub open spec fn dep_met(s: Seq<OpV>, c: ChangeV, k: int, d: int) -> bool {
    in_log(s, c.ops[k].deps[d]) || exists|k2: int| 0 <= k2 < k && #[trigger] c.ops[k2].id == c.ops[k].deps[d]
}

/// The change can be integrated into the log now.
pub open spec fn integrable(s: Seq<OpV>, c: ChangeV) -> bool {
    forall|k: int, d: int|
        0 <= k < c.ops.len() && 0 <= d < c.ops[k].deps.len() ==> #[trigger] dep_met(s, c, k, d)
}

/// `o` is one of the operations of the change.
pub open spec fn in_change(c: ChangeV, o: OpV) -> bool {
    exists|k: int| 0 <= k < c.ops.len() && #[trigger] c.ops[k] == o
}

/// `o` is one of the operations carried by the changes.
pub open spec fn from_changes(cs: Seq<ChangeV>, o: OpV) -> bool {
    exists|j: int, k: int| 0 <= j < cs.len() && 0 <= k < cs[j].ops.len() && #[trigger] cs[j].ops[k] == o
}

/// No change is both missing from the log and ready to be integrated.
pub open spec fn settled(s: Seq<OpV>, cs: Seq<ChangeV>) -> bool {
    forall|j: int| 0 <= j < cs.len() ==> present(s, #[trigger] cs[j]) || !integrable(s, cs[j])
}

/// What merging the changes `cs` into the log `old` gives `new`: every old
/// operation stays as it was, every added one comes from `cs`, no change is
/// left out that could be integrated, and nothing moves when nothing could.
pub open spec fn merged(old: Seq<OpV>, cs: Seq<ChangeV>, new: Seq<OpV>) -> bool {
    &&& forall|id: OpId|
        #[trigger] in_log(old, id) ==> log_map(new).contains_key(id) && log_map(new)[id]
            == log_map(old)[id]
    &&& forall|id: OpId|
        #[trigger] log_map(new).contains_key(id) && !in_log(old, id) ==> from_changes(
            cs,
            log_map(new)[id],
        )
    &&& settled(new, cs)
    &&& settled(old, cs) ==> new == old
}

/// A longer log that starts with `s` still holds each operation of `s`,
/// unchanged.
pub proof fn lemma_prefix_map(s: Seq<OpV>, t: Seq<OpV>)
    requires
        s.len() <= t.len(),
        t.subrange(0, s.len() as int) == s,
        unique_ids(t),
    ensures
        unique_ids(s),
        forall|id: OpId| #[trigger] in_log(s, id) ==> in_log(t, id) && log_map(t)[id] == log_map(s)[id],
{
    assert forall|x: int, y: int| 0 <= x < y < s.len() implies #[trigger] s[x].id != #[trigger] s[y].id by {
        assert(s[x] == t[x] && s[y] == t[y]);
    }
    lemma_log_map(s);
    lemma_log_map(t);
    assert forall|id: OpId| #[trigger] in_log(s, id) implies in_log(t, id) && log_map(t)[id] == log_map(s)[id] by {
        let j = choose|j: int| 0 <= j < s.len() && s[j].id == id;
        assert(s[j] == t[j]);
    }
}

/// Operations and changes present in a log stay present in any log that
/// extends it.
pub proof fn lemma_extend(s: Seq<OpV>, t: Seq<OpV>, cs: Seq<ChangeV>)
    requires
        s.len() <= t.len(),
        t.subrange(0, s.len() as int) == s,
    ensures
        forall|id: OpId| #[trigger] in_log(s, id) ==> in_log(t, id),
        forall|j: int| 0 <= j < cs.len() && present(s, #[trigger] cs[j]) ==> present(t, cs[j]),
{
    assert forall|id: OpId| #[trigger] in_log(s, id) implies in_log(t, id) by {
        let j = choose|j: int| 0 <= j < s.len() && s[j].id == id;
        assert(s[j] == t[j]);
    }
}

/// The version `v` (highest known counter per actor) covers `id`.
pub open spec fn seen(v: Seq<OpId>, id: OpId) -> bool {
    exists|e: int| 0 <= e < v.len() && #[trigger] v[e].actor == id.actor && id.counter <= v[e].counter
}

/// Some change carries an operation with this id.
pub open spec fn carried(cs: Seq<ChangeV>, id: OpId) -> bool {
    exists|j: int, k: int| 0 <= j < cs.len() && 0 <= k < cs[j].ops.len() && #[trigger] cs[j].ops[k].id == id
}

/// The `d`-th dependency of operation `k` of change `j` is covered by `v`,
/// carried by an earlier change, or an earlier operation of the same change.
pub open spec fn dep_ready(cs: Seq<ChangeV>, v: Seq<OpId>, j: int, k: int, d: int) -> bool {
    let x = cs[j].ops[k].deps[d];
    seen(v, x) || carried(cs.take(j), x) || exists|k2: int| 0 <= k2 < k && #[trigger] cs[j].ops[k2].id == x
}

/// Merging the changes in order never waits: each dependency is known at
/// `v` or comes before the operation that needs it.
pub open spec fn ordered(cs: Seq<ChangeV>, v: Seq<OpId>) -> bool {
    forall|j: int, k: int, d: int|
        0 <= j < cs.len() && 0 <= k < cs[j].ops.len() && 0 <= d < cs[j].ops[k].deps.len()
            ==> #[trigger] dep_ready(cs, v, j, k, d)
}

/// Adding an operation to the last change keeps the changes ordered when
/// each dependency of the operation is covered or already carried.
pub proof fn lemma_ordered_extend(cs: Seq<ChangeV>, v: Seq<OpId>, o: OpV)
    requires
        cs.len() > 0,
        ordered(cs, v),
        forall|d: int| 0 <= d < o.deps.len() ==> seen(v, #[trigger] o.deps[d]) || carried(cs, o.deps[d]),
    ensures
        ({
            let last = cs.last();
            let t = cs.drop_last().push(ChangeV { ops: last.ops.push(o), ..last });
            &&& ordered(t, v)
            &&& forall|x: OpId| carried(cs, x) ==> carried(t, x)
            &&& carried(t, o.id)
        }),
{
    let n = cs.len() - 1;
    let last = cs.last();
    let t = cs.drop_last().push(ChangeV { ops: last.ops.push(o), ..last });
    assert(t.take(n) =~= cs.take(n));
    assert forall|j: int, k: int, d: int|
        0 <= j < t.len() && 0 <= k < t[j].ops.len() && 0 <= d < t[j].ops[k].deps.len() implies #[trigger] dep_ready(
        t,
        v,
        j,
        k,
        d,
    ) by {
        assert(t.take(j) =~= cs.take(j));
        if j < n || k < last.ops.len() {
            assert(t[j].ops[k] == cs[j].ops[k]);
            assert(dep_ready(cs, v, j, k, d));
            if exists|k2: int| 0 <= k2 < k && #[trigger] cs[j].ops[k2].id == cs[j].ops[k].deps[d] {
                let k2 = choose|k2: int| 0 <= k2 < k && #[trigger] cs[j].ops[k2].id == cs[j].ops[k].deps[d];
                assert(t[j].ops[k2] == cs[j].ops[k2]);
            }
        } else {
            let x = o.deps[d];
            assert(t[j].ops[k] == o);
            if !seen(v, x) {
                let (j2, k2) = choose|j2: int, k2: int| 0 <= j2 < cs.len() && 0 <= k2 < cs[j2].ops.len() && #[trigger] cs[j2].ops[k2].id == x;
                if j2 < n {
                    assert(cs.take(n)[j2] == cs[j2]);
                    assert(carried(cs.take(n), x));
                } else {
                    assert(t[j].ops[k2] == cs[j2].ops[k2]);
                }
            }
        }
    }
    assert forall|x: OpId| carried(cs, x) implies carried(t, x) by {
        let (j2, k2) = choose|j2: int, k2: int| 0 <= j2 < cs.len() && 0 <= k2 < cs[j2].ops.len() && #[trigger] cs[j2].ops[k2].id == x;
        assert(t[j2].ops[k2] == cs[j2].ops[k2]);
    }
    assert(t[n].ops[last.ops.len() as int] == o);
}

/// Starting a new change with one operation keeps the changes ordered when
/// each dependency of the operation is covered or already carried.
pub proof fn lemma_ordered_new(cs: Seq<ChangeV>, v: Seq<OpId>, c: ChangeV)
    requires
        ordered(cs, v),
        c.ops.len() == 1,
        forall|d: int| 0 <= d < c.ops[0].deps.len() ==> seen(v, #[trigger] c.ops[0].deps[d]) || carried(cs, c.ops[0].deps[d]),
    ensures
        ordered(cs.push(c), v),
        forall|x: OpId| carried(cs, x) ==> carried(cs.push(c), x),
        carried(cs.push(c), c.ops[0].id),
{
    let t = cs.push(c);
    let n = cs.len() as int;
    assert(t.take(n) =~= cs);
    assert forall|j: int, k: int, d: int|
        0 <= j < t.len() && 0 <= k < t[j].ops.len() && 0 <= d < t[j].ops[k].deps.len() implies #[trigger] dep_ready(
        t,
        v,
        j,
        k,
        d,
    ) by {
        if j < n {
            assert(t.take(j) =~= cs.take(j));
            assert(t[j] == cs[j]);
            assert(dep_ready(cs, v, j, k, d));
        } else {
            assert(k == 0);
        }
    }
    assert forall|x: OpId| carried(cs, x) implies carried(t, x) by {
        let (j2, k2) = choose|j2: int, k2: int| 0 <= j2 < cs.len() && 0 <= k2 < cs[j2].ops.len() && #[trigger] cs[j2].ops[k2].id == x;
        assert(t[j2] == cs[j2]);
    }
    assert(t[n].ops[0] == c.ops[0]);
}

} // verus!
