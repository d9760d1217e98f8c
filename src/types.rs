//! The document's data: operation ids, scalar values, operations and changes,
//! each with its mathematical view.
use vstd::prelude::*;

verus! {

/// Globally unique id of an operation: the replica that made it and that
/// replica's counter for it.
#[derive(Clone, Copy, Debug, PartialEq, Eq, Structural)]
pub struct OpId {
    pub actor: u64,
    pub counter: u64,
}

/// A scalar value stored under a key. Strings are kept as their UTF-8 bytes.
#[derive(Clone, Debug, PartialEq, Eq)]
pub enum Value {
    Str(Vec<u8>),
    Int(i64),
    Bool(bool),
    Null,
}

pub enum ValueV {
    Str(Seq<u8>),
    Int(i64),
    Bool(bool),
    Null,
}

impl View for Value {
    type V = ValueV;

    open spec fn view(&self) -> ValueV {
        match self {
            Value::Str(s) => ValueV::Str(s@),
            Value::Int(i) => ValueV::Int(*i),
            Value::Bool(b) => ValueV::Bool(*b),
            Value::Null => ValueV::Null,
        }
    }
}

/// What an operation does: write a value under a key, or delete the key.
#[derive(Clone, Debug, PartialEq, Eq)]
pub enum OpKind {
    Put(Vec<u8>, Value),
    Delete(Vec<u8>),
}

pub enum KindV {
    Put(Seq<u8>, ValueV),
    Delete(Seq<u8>),
}

impl View for OpKind {
    type V = KindV;

    open spec fn view(&self) -> KindV {
        match self {
            OpKind::Put(k, v) => KindV::Put(k@, v@),
            OpKind::Delete(k) => KindV::Delete(k@),
        }
    }
}

impl KindV {
    /// The key that the operation writes.
    pub open spec fn key(self) -> Seq<u8> {
        match self {
            KindV::Put(k, _) => k,
            KindV::Delete(k) => k,
        }
    }
}

/// One atomic edit with its id and the ids of the operations it causally follows.
#[derive(Clone, Debug, PartialEq, Eq)]
pub struct Operation {
    pub id: OpId,
    pub kind: OpKind,
    pub deps: Vec<OpId>,
}

pub struct OpV {
    pub id: OpId,
    pub kind: KindV,
    pub deps: Seq<OpId>,
}

impl View for Operation {
    type V = OpV;

    open spec fn view(&self) -> OpV {
        OpV { id: self.id, kind: self.kind@, deps: self.deps@ }
    }
}

/// A contiguous run of one actor's operations with its metadata. The `i`-th
/// operation has the counter `start + i`.
#[derive(Clone, Debug, PartialEq, Eq)]
pub struct Change {
    pub actor: u64,
    pub start: u64,
    pub timestamp: u64,
    pub message: Option<Vec<u8>>,
    pub ops: Vec<Operation>,
}

pub struct ChangeV {
    pub actor: u64,
    pub start: u64,
    pub timestamp: u64,
    pub message: Option<Seq<u8>>,
    pub ops: Seq<OpV>,
}

pub open spec fn opt_bytes_view(m: Option<Vec<u8>>) -> Option<Seq<u8>> {
    match m {
        Some(b) => Some(b@),
        None => None,
    }
}

pub open spec fn ops_view(ops: Seq<Operation>) -> Seq<OpV> {
    ops.map_values(|o: Operation| o@)
}

impl View for Change {
    type V = ChangeV;

    open spec fn view(&self) -> ChangeV {
        ChangeV {
            actor: self.actor,
            start: self.start,
            timestamp: self.timestamp,
            message: opt_bytes_view(self.message),
            ops: ops_view(self.ops@),
        }
    }
}

/// The id that the `i`-th operation of a run starting at `start` carries.
pub open spec fn run_id(actor: u64, start: u64, i: int) -> OpId {
    OpId { actor, counter: (start + i) as u64 }
}

/// A well-formed change: its counters fit in 64 bits and the operations
/// carry consecutive ids of the change's actor.
pub open spec fn wf_change(c: ChangeV) -> bool {
    &&& c.start + c.ops.len() <= u64::MAX + 1
    &&& forall|i: int| 0 <= i < c.ops.len() ==> #[trigger] c.ops[i].id == run_id(c.actor, c.start, i)
}

} // verus!
