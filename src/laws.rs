//! Laws of merging: what replicas that exchanged changes agree on.
use crate::document::local_write;
use crate::log::{
    carried, dep_before, dep_met, dep_ready, from_changes, in_log, integrable, is_head, is_winner,
    lemma_log_map, lemma_push_wf, lemma_winner_unique, log_map, lookup, merged, ordered,
    overwritten, present, project, seen, settled, unique_ids, wf_log,
};
use crate::types::{ChangeV, KindV, OpId, OpV, ValueV};
use vstd::prelude::*;

verus! {

/// The changes agree with the log and with one another: operations with the
/// same id are the same operation.
pub open spec fn consistent(s: Seq<OpV>, cs: Seq<ChangeV>) -> bool {
    &&& forall|j: int, k: int|
        0 <= j < cs.len() && 0 <= k < cs[j].ops.len() && in_log(s, #[trigger] cs[j].ops[k].id)
            ==> log_map(s)[cs[j].ops[k].id] == cs[j].ops[k]
    &&& forall|j: int, k: int, j2: int, k2: int|
        0 <= j < cs.len() && 0 <= k < cs[j].ops.len() && 0 <= j2 < cs.len() && 0 <= k2 < cs[j2].ops.len()
            && #[trigger] cs[j].ops[k].id == #[trigger] cs[j2].ops[k2].id ==> cs[j].ops[k] == cs[j2].ops[k2]
}

/// The operation found under an id carries that id.
pub proof fn lemma_map_id(s: Seq<OpV>, id: OpId)
    requires
        log_map(s).contains_key(id),
    ensures
        log_map(s)[id].id == id,
        in_log(s, id),
{
}

/// A merge that integrated every change holds exactly the old operations and
/// those of the changes.
pub proof fn lemma_merged_exact(s: Seq<OpV>, cs: Seq<ChangeV>, t: Seq<OpV>)
    requires
        merged(s, cs, t),
        unique_ids(t),
        consistent(s, cs),
        forall|j: int| 0 <= j < cs.len() ==> present(t, #[trigger] cs[j]),
    ensures
        forall|id: OpId| #[trigger] log_map(t).contains_key(id) <==> (in_log(s, id) || carried(cs, id)),
        forall|id: OpId| #[trigger] in_log(s, id) ==> log_map(t)[id] == log_map(s)[id],
        forall|j: int, k: int|
            0 <= j < cs.len() && 0 <= k < cs[j].ops.len() ==> log_map(t)[#[trigger] cs[j].ops[k].id] == cs[j].ops[k],
{
    lemma_log_map(t);
    assert forall|id: OpId| #[trigger] log_map(t).contains_key(id) <==> (in_log(s, id) || carried(cs, id)) by {
        if log_map(t).contains_key(id) && !in_log(s, id) {
            lemma_map_id(t, id);
            assert(from_changes(cs, log_map(t)[id]));
            let (j, k) = choose|j: int, k: int|
                0 <= j < cs.len() && 0 <= k < cs[j].ops.len() && #[trigger] cs[j].ops[k] == log_map(t)[id];
            assert(cs[j].ops[k].id == id);
        }
        if carried(cs, id) {
            let (j, k) = choose|j: int, k: int| 0 <= j < cs.len() && 0 <= k < cs[j].ops.len() && #[trigger] cs[j].ops[k].id == id;
            assert(present(t, cs[j]));
            assert(in_log(t, cs[j].ops[k].id));
        }
    }
    assert forall|j: int, k: int|
        0 <= j < cs.len() && 0 <= k < cs[j].ops.len() implies log_map(t)[#[trigger] cs[j].ops[k].id] == cs[j].ops[k] by {
        let id = cs[j].ops[k].id;
        assert(present(t, cs[j]));
        assert(in_log(t, id));
        if in_log(s, id) {
        } else {
            lemma_map_id(t, id);
            assert(from_changes(cs, log_map(t)[id]));
            let (j2, k2) = choose|j2: int, k2: int|
                0 <= j2 < cs.len() && 0 <= k2 < cs[j2].ops.len() && #[trigger] cs[j2].ops[k2] == log_map(t)[id];
            assert(cs[j2].ops[k2].id == cs[j].ops[k].id);
        }
    }
}

/// Merging the same changes a second time changes nothing.
pub proof fn lemma_merge_idempotent(s: Seq<OpV>, cs: Seq<ChangeV>, t1: Seq<OpV>, t2: Seq<OpV>)
    requires
        merged(s, cs, t1),
        merged(t1, cs, t2),
    ensures
        t2 == t1,
        project(log_map(t2)) == project(log_map(t1)),
{
}

/// A change whose dependencies are in a log can still be integrated after
/// the log has grown.
pub proof fn lemma_integrable_grows(s: Seq<OpV>, cs: Seq<ChangeV>, t: Seq<OpV>, c: ChangeV)
    requires
        merged(s, cs, t),
        integrable(s, c),
    ensures
        integrable(t, c),
{
    assert forall|k: int, d: int| 0 <= k < c.ops.len() && 0 <= d < c.ops[k].deps.len() implies #[trigger] dep_met(
        t,
        c,
        k,
        d,
    ) by {
        assert(dep_met(s, c, k, d));
        if in_log(s, c.ops[k].deps[d]) {
            lemma_map_id(t, c.ops[k].deps[d]);
        }
    }
}

/// Two changes whose dependencies are already in the log give the same
/// document whichever order they are merged in.
pub proof fn lemma_merge_commutes(s: Seq<OpV>, c1: ChangeV, c2: ChangeV, t1: Seq<OpV>, t2: Seq<OpV>)
    requires
        unique_ids(t1),
        unique_ids(t2),
        consistent(s, seq![c1, c2]),
        integrable(s, c1),
        integrable(s, c2),
        merged(s, seq![c1, c2], t1),
        merged(s, seq![c2, c1], t2),
    ensures
        log_map(t1) == log_map(t2),
        project(log_map(t1)) == project(log_map(t2)),
{
    let cs1 = seq![c1, c2];
    let cs2 = seq![c2, c1];
    assert(cs1[0] == c1 && cs1[1] == c2 && cs2[0] == c2 && cs2[1] == c1);
    assert(consistent(s, cs2)) by {
        assert forall|j: int, k: int, j2: int, k2: int|
            0 <= j < cs2.len() && 0 <= k < cs2[j].ops.len() && 0 <= j2 < cs2.len() && 0 <= k2 < cs2[j2].ops.len()
                && #[trigger] cs2[j].ops[k].id == #[trigger] cs2[j2].ops[k2].id implies cs2[j].ops[k] == cs2[j2].ops[k2] by {
            assert(cs1[1 - j].ops[k].id == cs1[1 - j2].ops[k2].id);
        }
        assert forall|j: int, k: int|
            0 <= j < cs2.len() && 0 <= k < cs2[j].ops.len() && in_log(s, #[trigger] cs2[j].ops[k].id) implies log_map(
                s,
            )[cs2[j].ops[k].id] == cs2[j].ops[k] by {
            assert(in_log(s, cs1[1 - j].ops[k].id));
        }
    }
    lemma_integrable_grows(s, cs1, t1, c1);
    lemma_integrable_grows(s, cs1, t1, c2);
    lemma_integrable_grows(s, cs2, t2, c1);
    lemma_integrable_grows(s, cs2, t2, c2);
    assert(settled(t1, cs1));
    assert(present(t1, cs1[0]) || !integrable(t1, cs1[0]));
    assert(present(t1, cs1[1]) || !integrable(t1, cs1[1]));
    assert(present(t2, cs2[0]) || !integrable(t2, cs2[0]));
    assert(present(t2, cs2[1]) || !integrable(t2, cs2[1]));
    lemma_merged_exact(s, cs1, t1);
    lemma_merged_exact(s, cs2, t2);
    assert forall|id: OpId| carried(cs1, id) <==> carried(cs2, id) by {
        if carried(cs1, id) {
            let (j, k) = choose|j: int, k: int| 0 <= j < cs1.len() && 0 <= k < cs1[j].ops.len() && #[trigger] cs1[j].ops[k].id == id;
            assert(cs2[1 - j].ops[k].id == id);
        }
        if carried(cs2, id) {
            let (j, k) = choose|j: int, k: int| 0 <= j < cs2.len() && 0 <= k < cs2[j].ops.len() && #[trigger] cs2[j].ops[k].id == id;
            assert(cs1[1 - j].ops[k].id == id);
        }
    }
    assert forall|id: OpId| #[trigger] log_map(t1).contains_key(id) implies log_map(t1)[id] == log_map(t2)[id] by {
        if !in_log(s, id) {
            let (j, k) = choose|j: int, k: int| 0 <= j < cs1.len() && 0 <= k < cs1[j].ops.len() && #[trigger] cs1[j].ops[k].id == id;
            assert(cs2[1 - j].ops[k].id == id);
        }
    }
    assert(log_map(t1) =~= log_map(t2));
}

/// Operations that both logs hold are the same operations.
pub open spec fn agree(a: Seq<OpV>, b: Seq<OpV>) -> bool {
    forall|id: OpId| #[trigger] in_log(a, id) && in_log(b, id) ==> log_map(a)[id] == log_map(b)[id]
}

/// The changes carry operations of `from` only, and every operation of
/// `from` that `to` lacks.
pub open spec fn delivers(cs: Seq<ChangeV>, from: Seq<OpV>, to: Seq<OpV>) -> bool {
    &&& forall|j: int, k: int|
        0 <= j < cs.len() && 0 <= k < cs[j].ops.len() ==> in_log(from, #[trigger] cs[j].ops[k].id)
            && log_map(from)[cs[j].ops[k].id] == cs[j].ops[k]
    &&& forall|id: OpId| #[trigger] in_log(from, id) && !in_log(to, id) ==> carried(cs, id)
}

/// Two replicas that send each other every operation the other lacks, and
/// merge all of it, end with the same operations and the same key/value view.
pub proof fn lemma_convergence(
    a: Seq<OpV>,
    b: Seq<OpV>,
    ca: Seq<ChangeV>,
    cb: Seq<ChangeV>,
    a2: Seq<OpV>,
    b2: Seq<OpV>,
)
    requires
        unique_ids(a2),
        unique_ids(b2),
        agree(a, b),
        delivers(ca, a, b),
        delivers(cb, b, a),
        merged(a, cb, a2),
        merged(b, ca, b2),
        forall|j: int| 0 <= j < cb.len() ==> present(a2, #[trigger] cb[j]),
        forall|j: int| 0 <= j < ca.len() ==> present(b2, #[trigger] ca[j]),
    ensures
        log_map(a2) == log_map(b2),
        project(log_map(a2)) == project(log_map(b2)),
{
    lemma_log_map(a2);
    assert(consistent(a, cb)) by {
        assert forall|j: int, k: int|
            0 <= j < cb.len() && 0 <= k < cb[j].ops.len() && in_log(a, #[trigger] cb[j].ops[k].id) implies log_map(
                a,
            )[cb[j].ops[k].id] == cb[j].ops[k] by {
            assert(in_log(b, cb[j].ops[k].id));
        }
    }
    assert(consistent(b, ca)) by {
        assert forall|j: int, k: int|
            0 <= j < ca.len() && 0 <= k < ca[j].ops.len() && in_log(b, #[trigger] ca[j].ops[k].id) implies log_map(
                b,
            )[ca[j].ops[k].id] == ca[j].ops[k] by {
            assert(in_log(a, ca[j].ops[k].id));
        }
    }
    lemma_merged_exact(a, cb, a2);
    lemma_merged_exact(b, ca, b2);
    assert forall|id: OpId| #[trigger] log_map(a2).contains_key(id) <==> log_map(b2).contains_key(id) by {
        if carried(cb, id) {
            let (j, k) = choose|j: int, k: int| 0 <= j < cb.len() && 0 <= k < cb[j].ops.len() && #[trigger] cb[j].ops[k].id == id;
            assert(in_log(b, cb[j].ops[k].id));
        }
        if carried(ca, id) {
            let (j, k) = choose|j: int, k: int| 0 <= j < ca.len() && 0 <= k < ca[j].ops.len() && #[trigger] ca[j].ops[k].id == id;
            assert(in_log(a, ca[j].ops[k].id));
        }
        if in_log(a, id) && !in_log(b, id) {
            assert(carried(ca, id));
        }
        if in_log(b, id) && !in_log(a, id) {
            assert(carried(cb, id));
        }
    }
    assert forall|id: OpId| #[trigger] log_map(a2).contains_key(id) implies log_map(a2)[id] == log_map(b2)[id] by {
        if in_log(a, id) && in_log(b, id) {
        } else if in_log(a, id) {
            assert(carried(ca, id));
            let (j, k) = choose|j: int, k: int| 0 <= j < ca.len() && 0 <= k < ca[j].ops.len() && #[trigger] ca[j].ops[k].id == id;
            assert(log_map(b2)[ca[j].ops[k].id] == ca[j].ops[k]);
        } else {
            assert(carried(cb, id));
            let (j, k) = choose|j: int, k: int| 0 <= j < cb.len() && 0 <= k < cb[j].ops.len() && #[trigger] cb[j].ops[k].id == id;
            assert(log_map(a2)[cb[j].ops[k].id] == cb[j].ops[k]);
            assert(in_log(b, id));
        }
    }
    assert(log_map(a2) =~= log_map(b2));
}

/// The operations of `d` that the version `v` covers: what a replica that
/// is at `v` holds.
pub open spec fn at_version(r: Seq<OpV>, d: Seq<OpV>, v: Seq<OpId>) -> bool {
    &&& forall|id: OpId| #[trigger] in_log(r, id) <==> in_log(d, id) && seen(v, id)
    &&& agree(r, d)
}

/// What `changes_since(v)` returns on the log `d`: the operations of `d` that
/// `v` does not cover, all of them, in an order that never waits.
pub open spec fn delta_of(cs: Seq<ChangeV>, d: Seq<OpV>, v: Seq<OpId>) -> bool {
    &&& forall|j: int, k: int|
        0 <= j < cs.len() && 0 <= k < cs[j].ops.len() ==> {
            let o = #[trigger] cs[j].ops[k];
            in_log(d, o.id) && log_map(d)[o.id] == o && !seen(v, o.id)
        }
    &&& forall|id: OpId| #[trigger] in_log(d, id) && !seen(v, id) ==> carried(cs, id)
    &&& ordered(cs, v)
}

proof fn lemma_delta_present(d: Seq<OpV>, v: Seq<OpId>, r: Seq<OpV>, cs: Seq<ChangeV>, r2: Seq<OpV>, n: int)
    requires
        wf_log(d),
        at_version(r, d, v),
        delta_of(cs, d, v),
        merged(r, cs, r2),
        0 <= n <= cs.len(),
    ensures
        forall|j: int| 0 <= j < n ==> present(r2, #[trigger] cs[j]),
    decreases n,
{
    if n > 0 {
        lemma_delta_present(d, v, r, cs, r2, n - 1);
        let c = cs[n - 1];
        lemma_log_map(d);
        assert forall|k: int, dd: int| 0 <= k < c.ops.len() && 0 <= dd < c.ops[k].deps.len() implies #[trigger] dep_met(
            r2,
            c,
            k,
            dd,
        ) by {
            let x = c.ops[k].deps[dd];
            assert(dep_ready(cs, v, n - 1, k, dd));
            if seen(v, x) {
                let o = c.ops[k];
                assert(in_log(d, o.id) && log_map(d)[o.id] == o);
                let i = choose|i: int| 0 <= i < d.len() && d[i].id == o.id;
                assert(d[i] == o);
                assert(dep_before(d, i, dd));
                let i2 = choose|i2: int| 0 <= i2 < i && #[trigger] d[i2].id == d[i].deps[dd];
                assert(in_log(d, x));
                assert(in_log(r, x));
                lemma_map_id(r2, x);
            } else if carried(cs.take(n - 1), x) {
                let (j2, k2) = choose|j2: int, k2: int|
                    0 <= j2 < cs.take(n - 1).len() && 0 <= k2 < cs.take(n - 1)[j2].ops.len()
                        && #[trigger] cs.take(n - 1)[j2].ops[k2].id == x;
                assert(cs.take(n - 1)[j2] == cs[j2]);
                assert(present(r2, cs[j2]));
                assert(in_log(r2, cs[j2].ops[k2].id));
            }
        }
        assert(present(r2, cs[n - 1]) || !integrable(r2, cs[n - 1]));
    }
}

/// Merging `changes_since(v)` of a document into a replica that is at `v`
/// integrates every change and gives the replica exactly the document's
/// operations, hence its key/value view.
pub proof fn lemma_delta_complete(d: Seq<OpV>, v: Seq<OpId>, r: Seq<OpV>, cs: Seq<ChangeV>, r2: Seq<OpV>)
    requires
        wf_log(d),
        unique_ids(r2),
        at_version(r, d, v),
        delta_of(cs, d, v),
        merged(r, cs, r2),
    ensures
        forall|j: int| 0 <= j < cs.len() ==> present(r2, #[trigger] cs[j]),
        log_map(r2) == log_map(d),
        project(log_map(r2)) == project(log_map(d)),
{
    lemma_delta_present(d, v, r, cs, r2, cs.len() as int);
    assert(consistent(r, cs)) by {
        assert forall|j: int, k: int|
            0 <= j < cs.len() && 0 <= k < cs[j].ops.len() && in_log(r, #[trigger] cs[j].ops[k].id) implies log_map(
                r,
            )[cs[j].ops[k].id] == cs[j].ops[k] by {
            assert(in_log(d, cs[j].ops[k].id));
        }
        assert forall|j: int, k: int, j2: int, k2: int|
            0 <= j < cs.len() && 0 <= k < cs[j].ops.len() && 0 <= j2 < cs.len() && 0 <= k2 < cs[j2].ops.len()
                && #[trigger] cs[j].ops[k].id == #[trigger] cs[j2].ops[k2].id implies cs[j].ops[k] == cs[j2].ops[k2] by {
            assert(log_map(d)[cs[j].ops[k].id] == cs[j].ops[k]);
            assert(log_map(d)[cs[j2].ops[k2].id] == cs[j2].ops[k2]);
        }
    }
    lemma_merged_exact(r, cs, r2);
    assert forall|id: OpId| #[trigger] log_map(r2).contains_key(id) <==> log_map(d).contains_key(id) by {
        if carried(cs, id) {
            let (j, k) = choose|j: int, k: int| 0 <= j < cs.len() && 0 <= k < cs[j].ops.len() && #[trigger] cs[j].ops[k].id == id;
            assert(in_log(d, cs[j].ops[k].id));
        }
        if in_log(d, id) && !seen(v, id) {
            assert(carried(cs, id));
        }
    }
    assert forall|id: OpId| #[trigger] log_map(r2).contains_key(id) implies log_map(r2)[id] == log_map(d)[id] by {
        if in_log(r, id) {
            assert(in_log(d, id));
        } else {
            let (j, k) = choose|j: int, k: int| 0 <= j < cs.len() && 0 <= k < cs[j].ops.len() && #[trigger] cs[j].ops[k].id == id;
            assert(log_map(r2)[cs[j].ops[k].id] == cs[j].ops[k]);
            assert(log_map(d)[cs[j].ops[k].id] == cs[j].ops[k]);
        }
    }
    assert(log_map(r2) =~= log_map(d));
}

/// A local write of `val` under `key`, made on top of a well-formed log, is
/// what the key reads afterwards: it overwrites every head of the key and
/// nothing overwrites it.
pub proof fn lemma_local_put_visible(s: Seq<OpV>, o: OpV, key: Seq<u8>, val: ValueV)
    requires
        wf_log(s),
        !in_log(s, o.id),
        local_write(s, o),
        o.kind == KindV::Put(key, val),
    ensures
        lookup(log_map(s.push(o)), key) == Some(val),
{
    lemma_push_wf(s, o);
    let t = s.push(o);
    let m = log_map(t);
    let m0 = log_map(s);
    lemma_log_map(s);
    assert(m == m0.insert(o.id, o));
    assert(!overwritten(m, o.id, key)) by {
        if overwritten(m, o.id, key) {
            let w = choose|w: OpId| #![trigger m[w]] m.contains_key(w) && m[w].kind.key() == key && m[w].deps.contains(o.id);
            if w == o.id {
                let d = choose|d: int| 0 <= d < o.deps.len() && o.deps[d] == o.id;
                assert(in_log(s, o.deps[d]));
            } else {
                let i = choose|i: int| 0 <= i < s.len() && s[i].id == w;
                assert(m0[w] == s[i]);
                let d = choose|d: int| 0 <= d < s[i].deps.len() && s[i].deps[d] == o.id;
                assert(dep_before(s, i, d));
                let j = choose|j: int| 0 <= j < i && #[trigger] s[j].id == s[i].deps[d];
            }
        }
    }
    assert(is_head(m, o.id, key));
    assert forall|x: OpId| #[trigger] is_head(m, x, key) implies x == o.id by {
        if x != o.id {
            assert(m0.contains_key(x) && m[x] == m0[x]);
            if overwritten(m0, x, key) {
                let w = choose|w: OpId| #![trigger m0[w]] m0.contains_key(w) && m0[w].kind.key() == key && m0[w].deps.contains(x);
                assert(m.contains_key(w) && m[w] == m0[w]);
            } else {
                assert(is_head(m0, x, key));
                assert(o.deps.contains(x));
                assert(m.contains_key(o.id) && m[o.id] == o);
            }
        }
    }
    assert(is_winner(m, key, o.id));
    let c = choose|id: OpId| is_winner(m, key, id);
    lemma_winner_unique(m, key, c, o.id);
}

} // verus!
