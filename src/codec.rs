//! The binary change format.
//!
//! Layout: a format byte, the actor, the start counter, the number of
//! operations and the timestamp as little-endian words, the optional message,
//! the operations, and a trailing checksum word over every preceding byte.
//! An operation is its kind (tag, key, value) followed by its dependencies.
use crate::types::{opt_bytes_view, ops_view, run_id, wf_change, Change, ChangeV, KindV, OpId, OpKind, OpV, Operation, Value, ValueV};
use crate::wire::{checksum, checksum_spec, le8, lemma_checksum_detects_one_byte, lemma_le8, push_bytes, push_u64, read_u64, word_at};
use vstd::bytes::{spec_u64_from_le_bytes, spec_u64_to_le_bytes};
use vstd::prelude::*;
use vstd::slice::{slice_subrange, slice_to_vec};

verus! {

/// The format byte written by this version.
pub const FORMAT: u8 = 1;

/// Offset that maps an `i64` onto a `u64` keeping the order.
pub const BIAS: u64 = 0x8000_0000_0000_0000;

/// Why a byte string is not a change.
#[derive(Clone, Copy, Debug, PartialEq, Eq, Structural)]
pub enum DecodeError {
    Malformed,
    HashMismatch,
    UnsupportedVersion,
}

pub open spec fn bias(i: i64) -> u64 {
    (i + BIAS) as u64
}

pub open spec fn unbias(w: u64) -> i64 {
    (w - BIAS) as i64
}

pub open spec fn enc_bytes(b: Seq<u8>) -> Seq<u8> {
    le8(b.len() as u64) + b
}

pub open spec fn enc_value(v: ValueV) -> Seq<u8> {
    match v {
        ValueV::Str(s) => seq![0u8] + enc_bytes(s),
        ValueV::Int(i) => seq![1u8] + le8(bias(i)),
        ValueV::Bool(b) => seq![2u8, if b { 1u8 } else { 0u8 }],
        ValueV::Null => seq![3u8],
    }
}

pub open spec fn enc_kind(k: KindV) -> Seq<u8> {
    match k {
        KindV::Put(key, v) => seq![0u8] + enc_bytes(key) + enc_value(v),
        KindV::Delete(key) => seq![1u8] + enc_bytes(key),
    }
}

pub open spec fn enc_ids(ds: Seq<OpId>) -> Seq<u8>
    decreases ds.len(),
{
    if ds.len() == 0 {
        Seq::empty()
    } else {
        enc_ids(ds.drop_last()) + le8(ds.last().actor) + le8(ds.last().counter)
    }
}

pub open spec fn enc_op(o: OpV) -> Seq<u8> {
    enc_kind(o.kind) + le8(o.deps.len() as u64) + enc_ids(o.deps)
}

pub open spec fn enc_ops(os: Seq<OpV>) -> Seq<u8>
    decreases os.len(),
{
    if os.len() == 0 {
        Seq::empty()
    } else {
        enc_ops(os.drop_last()) + enc_op(os.last())
    }
}

pub open spec fn enc_message(m: Option<Seq<u8>>) -> Seq<u8> {
    match m {
        None => seq![0u8],
        Some(b) => seq![1u8] + enc_bytes(b),
    }
}

/// Every byte of a change but the trailing checksum.
pub open spec fn enc_body(c: ChangeV) -> Seq<u8> {
    seq![FORMAT] + le8(c.actor) + le8(c.start) + le8(c.ops.len() as u64) + le8(c.timestamp)
        + enc_message(c.message) + enc_ops(c.ops)
}

/// The bytes of a change.
pub open spec fn enc_change(c: ChangeV) -> Seq<u8> {
    enc_body(c) + le8(checksum_spec(enc_body(c)))
}

fn write_bytes(out: &mut Vec<u8>, b: &[u8])
    ensures
        final(out)@ == old(out)@ + enc_bytes(b@),
{
    push_u64(out, b.len() as u64);
    push_bytes(out, b);
    assert(final(out)@ =~= old(out)@ + enc_bytes(b@));
}

fn bias_of(i: i64) -> (r: u64)
    ensures
        r == bias(i),
{
    if i >= 0 {
        i as u64 + BIAS
    } else {
        (i + 0x7fff_ffff_ffff_ffff + 1) as u64
    }
}

fn unbias_of(w: u64) -> (r: i64)
    ensures
        r == unbias(w),
{
    if w >= BIAS {
        (w - BIAS) as i64
    } else {
        w as i64 - 0x7fff_ffff_ffff_ffff - 1
    }
}

fn write_value(out: &mut Vec<u8>, v: &Value)
    ensures
        final(out)@ == old(out)@ + enc_value(v@),
{
    match v {
        Value::Str(s) => {
            out.push(0u8);
            write_bytes(out, s.as_slice());
        },
        Value::Int(i) => {
            out.push(1u8);
            push_u64(out, bias_of(*i));
        },
        Value::Bool(b) => {
            out.push(2u8);
            out.push(if *b { 1u8 } else { 0u8 });
        },
        Value::Null => {
            out.push(3u8);
        },
    }
    assert(final(out)@ =~= old(out)@ + enc_value(v@));
}

fn write_op(out: &mut Vec<u8>, o: &Operation)
    ensures
        final(out)@ == old(out)@ + enc_op(o@),
{
    let ghost start = out@;
    match &o.kind {
        OpKind::Put(k, v) => {
            out.push(0u8);
            write_bytes(out, k.as_slice());
            write_value(out, v);
        },
        OpKind::Delete(k) => {
            out.push(1u8);
            write_bytes(out, k.as_slice());
        },
    }
    assert(out@ =~= start + enc_kind(o.kind@));
    push_u64(out, o.deps.len() as u64);
    let ghost mid = out@;
    let mut i: usize = 0;
    while i < o.deps.len()
        invariant
            i <= o.deps@.len(),
            out@ == mid + enc_ids(o.deps@.subrange(0, i as int)),
        decreases o.deps@.len() - i,
    {
        let d = o.deps[i];
        push_u64(out, d.actor);
        push_u64(out, d.counter);
        i = i + 1;
        assert(o.deps@.subrange(0, i as int).drop_last() =~= o.deps@.subrange(0, i - 1));
        assert(out@ =~= mid + enc_ids(o.deps@.subrange(0, i as int)));
    }
    assert(o.deps@.subrange(0, i as int) =~= o.deps@);
    assert(final(out)@ =~= old(out)@ + enc_op(o@));
}

impl Change {
    /// Every byte of the change but the trailing checksum.
    pub fn body_bytes(&self) -> (r: Vec<u8>)
        ensures
            r@ == enc_body(self@),
    {
        let mut out: Vec<u8> = Vec::new();
        out.push(FORMAT);
        push_u64(&mut out, self.actor);
        push_u64(&mut out, self.start);
        push_u64(&mut out, self.ops.len() as u64);
        push_u64(&mut out, self.timestamp);
        match &self.message {
            None => {
                out.push(0u8);
            },
            Some(m) => {
                out.push(1u8);
                write_bytes(&mut out, m.as_slice());
            },
        }
        let ghost head = out@;
        assert(head =~= seq![FORMAT] + le8(self.actor) + le8(self.start) + le8(
            self.ops@.len() as u64,
        ) + le8(self.timestamp) + enc_message(self@.message));
        let mut i: usize = 0;
        while i < self.ops.len()
            invariant
                i <= self.ops@.len(),
                out@ == head + enc_ops(ops_view(self.ops@.subrange(0, i as int))),
            decreases self.ops@.len() - i,
        {
            write_op(&mut out, &self.ops[i]);
            i = i + 1;
            assert(ops_view(self.ops@.subrange(0, i as int)).drop_last() =~= ops_view(
                self.ops@.subrange(0, i - 1),
            ));
            assert(out@ =~= head + enc_ops(ops_view(self.ops@.subrange(0, i as int))));
        }
        assert(self.ops@.subrange(0, i as int) =~= self.ops@);
        out
    }

    /// The content hash of the change: the checksum of its body.
    pub fn hash(&self) -> (r: u64)
        ensures
            r == checksum_spec(enc_body(self@)),
    {
        let body = self.body_bytes();
        checksum(body.as_slice())
    }

    /// The bytes of the change, checksum included.
    pub fn to_bytes(&self) -> (r: Vec<u8>)
        ensures
            r@ == enc_change(self@),
    {
        let mut out = self.body_bytes();
        let h = checksum(out.as_slice());
        push_u64(&mut out, h);
        out
    }
}


pub open spec fn parse_word(b: Seq<u8>, p: int) -> Option<(u64, int)> {
    if 0 <= p && p + 8 <= b.len() {
        Some((word_at(b, p), p + 8))
    } else {
        None
    }
}

pub open spec fn parse_bytes(b: Seq<u8>, p: int) -> Option<(Seq<u8>, int)> {
    match parse_word(b, p) {
        Some((n, q)) => if q + n <= b.len() {
            Some((b.subrange(q, q + n), q + n))
        } else {
            None
        },
        None => None,
    }
}

pub open spec fn parse_value(b: Seq<u8>, p: int) -> Option<(ValueV, int)> {
    if 0 <= p < b.len() {
        let t = b[p];
        if t == 0 {
            match parse_bytes(b, p + 1) {
                Some((s, q)) => Some((ValueV::Str(s), q)),
                None => None,
            }
        } else if t == 1 {
            match parse_word(b, p + 1) {
                Some((w, q)) => Some((ValueV::Int(unbias(w)), q)),
                None => None,
            }
        } else if t == 2 {
            if p + 2 <= b.len() && b[p + 1] <= 1 {
                Some((ValueV::Bool(b[p + 1] == 1), p + 2))
            } else {
                None
            }
        } else if t == 3 {
            Some((ValueV::Null, p + 1))
        } else {
            None
        }
    } else {
        None
    }
}

pub open spec fn parse_kind(b: Seq<u8>, p: int) -> Option<(KindV, int)> {
    if 0 <= p < b.len() {
        if b[p] == 0 {
            match parse_bytes(b, p + 1) {
                Some((k, q)) => match parse_value(b, q) {
                    Some((v, r)) => Some((KindV::Put(k, v), r)),
                    None => None,
                },
                None => None,
            }
        } else if b[p] == 1 {
            match parse_bytes(b, p + 1) {
                Some((k, q)) => Some((KindV::Delete(k), q)),
                None => None,
            }
        } else {
            None
        }
    } else {
        None
    }
}

pub open spec fn parse_ids(b: Seq<u8>, p: int, n: nat) -> Option<(Seq<OpId>, int)>
    decreases n,
{
    if n == 0 {
        Some((Seq::empty(), p))
    } else {
        match parse_ids(b, p, (n - 1) as nat) {
            Some((ds, q)) => if 0 <= q && q + 16 <= b.len() {
                Some((ds.push(OpId { actor: word_at(b, q), counter: word_at(b, q + 8) }), q + 16))
            } else {
                None
            },
            None => None,
        }
    }
}

pub open spec fn parse_op(b: Seq<u8>, p: int, id: OpId) -> Option<(OpV, int)> {
    match parse_kind(b, p) {
        Some((k, q)) => match parse_word(b, q) {
            Some((n, r)) => match parse_ids(b, r, n as nat) {
                Some((ds, e)) => Some((OpV { id, kind: k, deps: ds }, e)),
                None => None,
            },
            None => None,
        },
        None => None,
    }
}

pub open spec fn parse_ops(b: Seq<u8>, p: int, actor: u64, start: u64, n: nat) -> Option<
    (Seq<OpV>, int),
>
    decreases n,
{
    if n == 0 {
        Some((Seq::empty(), p))
    } else {
        match parse_ops(b, p, actor, start, (n - 1) as nat) {
            Some((os, q)) => match parse_op(b, q, run_id(actor, start, n - 1)) {
                Some((o, r)) => Some((os.push(o), r)),
                None => None,
            },
            None => None,
        }
    }
}

pub open spec fn parse_message(b: Seq<u8>, p: int) -> Option<(Option<Seq<u8>>, int)> {
    if 0 <= p < b.len() {
        if b[p] == 0 {
            Some((None, p + 1))
        } else if b[p] == 1 {
            match parse_bytes(b, p + 1) {
                Some((m, q)) => Some((Some(m), q)),
                None => None,
            }
        } else {
            None
        }
    } else {
        None
    }
}

/// Length of the fixed header: format byte and four words.
pub const HEADER: usize = 33;

/// Parses the bytes before the checksum.
pub open spec fn parse_body(b: Seq<u8>) -> Result<ChangeV, DecodeError> {
    if b.len() < HEADER {
        Err(DecodeError::Malformed)
    } else {
        let actor = word_at(b, 1);
        let start = word_at(b, 9);
        let n = word_at(b, 17);
        let ts = word_at(b, 25);
        match parse_message(b, HEADER as int) {
            Some((m, q)) => match parse_ops(b, q, actor, start, n as nat) {
                Some((os, r)) => if r == b.len() && start + n <= u64::MAX + 1 {
                    Ok(ChangeV { actor, start, timestamp: ts, message: m, ops: os })
                } else {
                    Err(DecodeError::Malformed)
                },
                None => Err(DecodeError::Malformed),
            },
            None => Err(DecodeError::Malformed),
        }
    }
}

/// What decoding a byte string gives: the checksum is checked before
/// anything else, then the format byte, then the structure.
pub open spec fn decode_spec(b: Seq<u8>) -> Result<ChangeV, DecodeError> {
    if b.len() < 9 {
        Err(DecodeError::Malformed)
    } else if word_at(b, b.len() - 8) != checksum_spec(b.subrange(0, b.len() - 8)) {
        Err(DecodeError::HashMismatch)
    } else if b[0] != FORMAT {
        Err(DecodeError::UnsupportedVersion)
    } else {
        parse_body(b.subrange(0, b.len() - 8))
    }
}

fn read_word(b: &[u8], p: usize) -> (r: Option<(u64, usize)>)
    requires
        b@.len() <= usize::MAX,
    ensures
        match r {
            Some((w, q)) => parse_word(b@, p as int) == Some((w, q as int)),
            None => parse_word(b@, p as int) is None,
        },
{
    if p <= b.len() && b.len() - p >= 8 {
        Some((read_u64(b, p), p + 8))
    } else {
        None
    }
}

fn read_bytes(b: &[u8], p: usize) -> (r: Option<(Vec<u8>, usize)>)
    requires
        b@.len() <= usize::MAX,
    ensures
        match r {
            Some((s, q)) => parse_bytes(b@, p as int) == Some((s@, q as int)),
            None => parse_bytes(b@, p as int) is None,
        },
{
    match read_word(b, p) {
        Some((n, q)) => {
            if n <= (b.len() - q) as u64 {
                let e = q + n as usize;
                Some((slice_to_vec(slice_subrange(b, q, e)), e))
            } else {
                None
            }
        },
        None => None,
    }
}

fn read_value(b: &[u8], p: usize) -> (r: Option<(Value, usize)>)
    requires
        b@.len() <= usize::MAX,
    ensures
        match r {
            Some((v, q)) => parse_value(b@, p as int) == Some((v@, q as int)),
            None => parse_value(b@, p as int) is None,
        },
{
    if p >= b.len() {
        return None;
    }
    let t = b[p];
    if t == 0 {
        match read_bytes(b, p + 1) {
            Some((s, q)) => Some((Value::Str(s), q)),
            None => None,
        }
    } else if t == 1 {
        match read_word(b, p + 1) {
            Some((w, q)) => Some((Value::Int(unbias_of(w)), q)),
            None => None,
        }
    } else if t == 2 {
        if b.len() - p >= 2 && b[p + 1] <= 1 {
            Some((Value::Bool(b[p + 1] == 1), p + 2))
        } else {
            None
        }
    } else if t == 3 {
        Some((Value::Null, p + 1))
    } else {
        None
    }
}

fn read_kind(b: &[u8], p: usize) -> (r: Option<(OpKind, usize)>)
    requires
        b@.len() <= usize::MAX,
    ensures
        match r {
            Some((k, q)) => parse_kind(b@, p as int) == Some((k@, q as int)),
            None => parse_kind(b@, p as int) is None,
        },
{
    if p >= b.len() {
        return None;
    }
    if b[p] == 0 {
        match read_bytes(b, p + 1) {
            Some((k, q)) => match read_value(b, q) {
                Some((v, e)) => Some((OpKind::Put(k, v), e)),
                None => None,
            },
            None => None,
        }
    } else if b[p] == 1 {
        match read_bytes(b, p + 1) {
            Some((k, q)) => Some((OpKind::Delete(k), q)),
            None => None,
        }
    } else {
        None
    }
}

fn read_ids(b: &[u8], p: usize, n: u64) -> (r: Option<(Vec<OpId>, usize)>)
    requires
        b@.len() <= usize::MAX,
    ensures
        match r {
            Some((ds, q)) => parse_ids(b@, p as int, n as nat) == Some((ds@, q as int)),
            None => parse_ids(b@, p as int, n as nat) is None,
        },
{
    let mut ds: Vec<OpId> = Vec::new();
    let mut q: usize = p;
    let mut i: u64 = 0;
    while i < n
        invariant
            b@.len() <= usize::MAX,
            i <= n,
            parse_ids(b@, p as int, i as nat) == Some((ds@, q as int)),
        decreases n - i,
    {
        if q <= b.len() && b.len() - q >= 16 {
            let a = read_u64(b, q);
            let c = read_u64(b, q + 8);
            ds.push(OpId { actor: a, counter: c });
            q = q + 16;
            i = i + 1;
        } else {
            proof {
                lemma_ids_stuck(b@, p as int, i as nat, n as nat);
            }
            return None;
        }
    }
    Some((ds, q))
}

proof fn lemma_ids_stuck(b: Seq<u8>, p: int, i: nat, n: nat)
    requires
        i < n,
        parse_ids(b, p, (i + 1) as nat) is None,
    ensures
        parse_ids(b, p, n) is None,
    decreases n - i,
{
    if i + 1 < n {
        lemma_ids_stuck(b, p, i + 1, n);
    }
}

fn read_op(b: &[u8], p: usize, id: OpId) -> (r: Option<(Operation, usize)>)
    requires
        b@.len() <= usize::MAX,
    ensures
        match r {
            Some((o, q)) => parse_op(b@, p as int, id) == Some((o@, q as int)),
            None => parse_op(b@, p as int, id) is None,
        },
{
    match read_kind(b, p) {
        Some((k, q)) => match read_word(b, q) {
            Some((n, e)) => match read_ids(b, e, n) {
                Some((ds, f)) => Some((Operation { id, kind: k, deps: ds }, f)),
                None => None,
            },
            None => None,
        },
        None => None,
    }
}

proof fn lemma_ops_stuck(b: Seq<u8>, p: int, actor: u64, start: u64, i: nat, n: nat)
    requires
        i < n,
        parse_ops(b, p, actor, start, (i + 1) as nat) is None,
    ensures
        parse_ops(b, p, actor, start, n) is None,
    decreases n - i,
{
    if i + 1 < n {
        lemma_ops_stuck(b, p, actor, start, i + 1, n);
    }
}

fn read_ops(b: &[u8], p: usize, actor: u64, start: u64, n: u64) -> (r: Option<
    (Vec<Operation>, usize),
>)
    requires
        b@.len() <= usize::MAX,
        start + n <= u64::MAX + 1,
    ensures
        match r {
            Some((os, q)) => parse_ops(b@, p as int, actor, start, n as nat) == Some(
                (ops_view(os@), q as int),
            ),
            None => parse_ops(b@, p as int, actor, start, n as nat) is None,
        },
{
    let mut os: Vec<Operation> = Vec::new();
    let mut q: usize = p;
    let mut i: u64 = 0;
    while i < n
        invariant
            b@.len() <= usize::MAX,
            i <= n,
            start + n <= u64::MAX + 1,
            parse_ops(b@, p as int, actor, start, i as nat) == Some((ops_view(os@), q as int)),
        decreases n - i,
    {
        let id = OpId { actor, counter: start + i };
        match read_op(b, q, id) {
            Some((o, e)) => {
                let ghost before = os@;
                os.push(o);
                assert(ops_view(os@) =~= ops_view(before).push(o@));
                q = e;
                i = i + 1;
            },
            None => {
                proof {
                    lemma_ops_stuck(b@, p as int, actor, start, i as nat, n as nat);
                }
                return None;
            },
        }
    }
    Some((os, q))
}

fn read_message(b: &[u8], p: usize) -> (r: Option<(Option<Vec<u8>>, usize)>)
    requires
        b@.len() <= usize::MAX,
    ensures
        match r {
            Some((m, q)) => parse_message(b@, p as int) == Some((opt_bytes_view(m), q as int)),
            None => parse_message(b@, p as int) is None,
        },
{
    if p >= b.len() {
        return None;
    }
    if b[p] == 0 {
        Some((None, p + 1))
    } else if b[p] == 1 {
        match read_bytes(b, p + 1) {
            Some((m, q)) => Some((Some(m), q)),
            None => None,
        }
    } else {
        None
    }
}

fn read_body(b: &[u8]) -> (r: Result<Change, DecodeError>)
    requires
        b@.len() <= usize::MAX,
    ensures
        match r {
            Ok(c) => parse_body(b@) == Ok::<ChangeV, DecodeError>(c@),
            Err(e) => parse_body(b@) == Err::<ChangeV, DecodeError>(e),
        },
{
    if b.len() < HEADER {
        return Err(DecodeError::Malformed);
    }
    let actor = read_u64(b, 1);
    let start = read_u64(b, 9);
    let n = read_u64(b, 17);
    let ts = read_u64(b, 25);
    match read_message(b, HEADER) {
        Some((m, q)) => {
            if n > 0 && start > u64::MAX - n + 1 {
                return Err(DecodeError::Malformed);
            }
            match read_ops(b, q, actor, start, n) {
                Some((os, e)) => {
                    if e == b.len() {
                        Ok(Change { actor, start, timestamp: ts, message: m, ops: os })
                    } else {
                        Err(DecodeError::Malformed)
                    }
                },
                None => Err(DecodeError::Malformed),
            }
        },
        None => Err(DecodeError::Malformed),
    }
}

impl Change {
    /// Decodes a change, checking its checksum first.
    pub fn decode(bytes: &[u8]) -> (r: Result<Change, DecodeError>)
        requires
            bytes@.len() <= usize::MAX,
        ensures
            match r {
                Ok(c) => decode_spec(bytes@) == Ok::<ChangeV, DecodeError>(c@),
                Err(e) => decode_spec(bytes@) == Err::<ChangeV, DecodeError>(e),
            },
    {
        let n = bytes.len();
        if n < 9 {
            return Err(DecodeError::Malformed);
        }
        let body = slice_subrange(bytes, 0, n - 8);
        let stored = read_u64(bytes, n - 8);
        if stored != checksum(body) {
            return Err(DecodeError::HashMismatch);
        }
        if bytes[0] != FORMAT {
            return Err(DecodeError::UnsupportedVersion);
        }
        read_body(body)
    }
}


/// Byte strings and lists inside the value have lengths that a word can hold.
pub open spec fn fits_value(v: ValueV) -> bool {
    match v {
        ValueV::Str(s) => s.len() <= u64::MAX,
        _ => true,
    }
}

pub open spec fn fits_op(o: OpV) -> bool {
    &&& o.kind.key().len() <= u64::MAX
    &&& o.deps.len() <= u64::MAX
    &&& match o.kind {
        KindV::Put(_, v) => fits_value(v),
        KindV::Delete(_) => true,
    }
}

/// Every length inside the change can be written as a word.
pub open spec fn fits_change(c: ChangeV) -> bool {
    &&& c.ops.len() <= u64::MAX
    &&& forall|i: int| 0 <= i < c.ops.len() ==> fits_op(#[trigger] c.ops[i])
    &&& match c.message {
        Some(m) => m.len() <= u64::MAX,
        None => true,
    }
}

/// `e` stands in `b` at position `p`.
pub open spec fn at(b: Seq<u8>, p: int, e: Seq<u8>) -> bool {
    0 <= p && p + e.len() <= b.len() && b.subrange(p, p + e.len()) == e
}

proof fn lemma_at_split(b: Seq<u8>, p: int, e1: Seq<u8>, e2: Seq<u8>)
    requires
        at(b, p, e1 + e2),
    ensures
        at(b, p, e1),
        at(b, p + e1.len(), e2),
{
    let e = e1 + e2;
    assert forall|i: int| 0 <= i < e1.len() implies b.subrange(p, p + e1.len())[i] == e1[i] by {
        assert(b.subrange(p, p + e.len())[i] == e[i]);
    }
    assert(b.subrange(p, p + e1.len()) =~= e1);
    assert forall|i: int| 0 <= i < e2.len() implies b.subrange(p + e1.len(), p + e1.len() + e2.len())[i] == e2[i] by {
        assert(b.subrange(p, p + e.len())[e1.len() + i] == e[e1.len() + i]);
    }
    assert(b.subrange(p + e1.len(), p + e1.len() + e2.len()) =~= e2);
}

proof fn lemma_word_rt(b: Seq<u8>, p: int, x: u64)
    requires
        at(b, p, le8(x)),
    ensures
        parse_word(b, p) == Some((x, p + 8)),
{
    lemma_le8();
}

proof fn lemma_bytes_rt(b: Seq<u8>, p: int, s: Seq<u8>)
    requires
        at(b, p, enc_bytes(s)),
        s.len() <= u64::MAX,
    ensures
        parse_bytes(b, p) == Some((s, p + enc_bytes(s).len())),
{
    lemma_le8();
    lemma_at_split(b, p, le8(s.len() as u64), s);
    lemma_word_rt(b, p, s.len() as u64);
}

proof fn lemma_value_rt(b: Seq<u8>, p: int, v: ValueV)
    requires
        at(b, p, enc_value(v)),
        fits_value(v),
    ensures
        parse_value(b, p) == Some((v, p + enc_value(v).len())),
{
    lemma_le8();
    assert(b.subrange(p, p + enc_value(v).len())[0] == b[p]);
    match v {
        ValueV::Str(s) => {
            lemma_at_split(b, p, seq![0u8], enc_bytes(s));
            lemma_bytes_rt(b, p + 1, s);
        },
        ValueV::Int(i) => {
            lemma_at_split(b, p, seq![1u8], le8(bias(i)));
            lemma_word_rt(b, p + 1, bias(i));
        },
        ValueV::Bool(x) => {
            assert(b.subrange(p, p + 2)[1] == b[p + 1]);
        },
        ValueV::Null => {},
    }
}

proof fn lemma_kind_rt(b: Seq<u8>, p: int, k: KindV)
    requires
        at(b, p, enc_kind(k)),
        k.key().len() <= u64::MAX,
        match k {
            KindV::Put(_, v) => fits_value(v),
            KindV::Delete(_) => true,
        },
    ensures
        parse_kind(b, p) == Some((k, p + enc_kind(k).len())),
{
    assert(b.subrange(p, p + enc_kind(k).len())[0] == b[p]);
    match k {
        KindV::Put(key, v) => {
            lemma_at_split(b, p, seq![0u8] + enc_bytes(key), enc_value(v));
            lemma_at_split(b, p, seq![0u8], enc_bytes(key));
            lemma_bytes_rt(b, p + 1, key);
            lemma_value_rt(b, p + 1 + enc_bytes(key).len(), v);
        },
        KindV::Delete(key) => {
            lemma_at_split(b, p, seq![1u8], enc_bytes(key));
            lemma_bytes_rt(b, p + 1, key);
        },
    }
}

proof fn lemma_ids_rt(b: Seq<u8>, p: int, ds: Seq<OpId>)
    requires
        at(b, p, enc_ids(ds)),
    ensures
        parse_ids(b, p, ds.len()) == Some((ds, p + enc_ids(ds).len())),
    decreases ds.len(),
{
    if ds.len() > 0 {
        lemma_le8();
        let front = enc_ids(ds.drop_last());
        let x = ds.last();
        lemma_at_split(b, p, front + le8(x.actor), le8(x.counter));
        lemma_at_split(b, p, front, le8(x.actor));
        lemma_ids_rt(b, p, ds.drop_last());
        lemma_word_rt(b, p + front.len(), x.actor);
        lemma_word_rt(b, p + front.len() + 8, x.counter);
        assert(ds.drop_last().push(x) =~= ds);
    }
}

proof fn lemma_op_rt(b: Seq<u8>, p: int, o: OpV)
    requires
        at(b, p, enc_op(o)),
        fits_op(o),
    ensures
        parse_op(b, p, o.id) == Some((o, p + enc_op(o).len())),
{
    lemma_le8();
    let k = enc_kind(o.kind);
    lemma_at_split(b, p, k + le8(o.deps.len() as u64), enc_ids(o.deps));
    lemma_at_split(b, p, k, le8(o.deps.len() as u64));
    lemma_kind_rt(b, p, o.kind);
    lemma_word_rt(b, p + k.len(), o.deps.len() as u64);
    lemma_ids_rt(b, p + k.len() + 8, o.deps);
}

proof fn lemma_ops_rt(b: Seq<u8>, p: int, actor: u64, start: u64, os: Seq<OpV>)
    requires
        at(b, p, enc_ops(os)),
        forall|i: int| 0 <= i < os.len() ==> fits_op(#[trigger] os[i]),
        forall|i: int| 0 <= i < os.len() ==> #[trigger] os[i].id == run_id(actor, start, i),
    ensures
        parse_ops(b, p, actor, start, os.len()) == Some((os, p + enc_ops(os).len())),
    decreases os.len(),
{
    if os.len() > 0 {
        let front = enc_ops(os.drop_last());
        let o = os.last();
        lemma_at_split(b, p, front, enc_op(o));
        lemma_ops_rt(b, p, actor, start, os.drop_last());
        assert(fits_op(os[os.len() - 1]));
        assert(os[os.len() - 1].id == run_id(actor, start, os.len() - 1));
        lemma_op_rt(b, p + front.len(), o);
        assert(os.drop_last().push(o) =~= os);
    }
}

proof fn lemma_message_rt(b: Seq<u8>, p: int, m: Option<Seq<u8>>)
    requires
        at(b, p, enc_message(m)),
        match m {
            Some(x) => x.len() <= u64::MAX,
            None => true,
        },
    ensures
        parse_message(b, p) == Some((m, p + enc_message(m).len())),
{
    assert(b.subrange(p, p + enc_message(m).len())[0] == b[p]);
    match m {
        Some(x) => {
            lemma_at_split(b, p, seq![1u8], enc_bytes(x));
            lemma_bytes_rt(b, p + 1, x);
        },
        None => {},
    }
}

proof fn lemma_body_rt(c: ChangeV)
    requires
        wf_change(c),
        fits_change(c),
    ensures
        parse_body(enc_body(c)) == Ok::<ChangeV, DecodeError>(c),
{
    lemma_le8();
    let b = enc_body(c);
    let h0 = seq![FORMAT];
    let h1 = h0 + le8(c.actor);
    let h2 = h1 + le8(c.start);
    let h3 = h2 + le8(c.ops.len() as u64);
    let h4 = h3 + le8(c.timestamp);
    let h5 = h4 + enc_message(c.message);
    assert(b.subrange(0, b.len() as int) =~= b);
    lemma_at_split(b, 0, h5, enc_ops(c.ops));
    lemma_at_split(b, 0, h4, enc_message(c.message));
    lemma_at_split(b, 0, h3, le8(c.timestamp));
    lemma_at_split(b, 0, h2, le8(c.ops.len() as u64));
    lemma_at_split(b, 0, h1, le8(c.start));
    lemma_at_split(b, 0, h0, le8(c.actor));
    lemma_word_rt(b, 1, c.actor);
    lemma_word_rt(b, 9, c.start);
    lemma_word_rt(b, 17, c.ops.len() as u64);
    lemma_word_rt(b, 25, c.timestamp);
    lemma_message_rt(b, HEADER as int, c.message);
    assert forall|i: int| 0 <= i < c.ops.len() implies #[trigger] c.ops[i].id == run_id(
        c.actor,
        c.start,
        i,
    ) by {}
    lemma_ops_rt(b, h5.len() as int, c.actor, c.start, c.ops);
}

/// Decoding the bytes of a well-formed change gives that change back.
pub proof fn lemma_round_trip(c: ChangeV)
    requires
        wf_change(c),
        fits_change(c),
    ensures
        decode_spec(enc_change(c)) == Ok::<ChangeV, DecodeError>(c),
{
    lemma_le8();
    let body = enc_body(c);
    let b = enc_change(c);
    let h = checksum_spec(body);
    assert(b.subrange(0, b.len() - 8) =~= body);
    assert(b.subrange(b.len() - 8, b.len() as int) =~= le8(h));
    assert(b[0] == FORMAT);
    lemma_body_rt(c);
}

/// Changing any one byte of an encoded change makes decoding fail with
/// `HashMismatch`: it never yields a change.
pub proof fn lemma_corruption_detected(c: ChangeV, i: int, x: u8)
    requires
        0 <= i < enc_change(c).len(),
        x != enc_change(c)[i],
    ensures
        decode_spec(enc_change(c).update(i, x)) == Err::<ChangeV, DecodeError>(
            DecodeError::HashMismatch,
        ),
{
    vstd::bytes::lemma_auto_spec_u64_to_from_le_bytes();
    let body = enc_body(c);
    let b = enc_change(c);
    let t = b.update(i, x);
    let n = b.len() as int;
    let h = checksum_spec(body);
    assert(b.subrange(0, n - 8) =~= body);
    assert(b.subrange(n - 8, n) =~= le8(h));
    if i < n - 8 {
        assert(t.subrange(0, n - 8) =~= body.update(i, x));
        assert(t.subrange(n - 8, n) =~= le8(h));
        lemma_checksum_detects_one_byte(body, i, x);
    } else {
        assert(t.subrange(0, n - 8) =~= body);
        let tr = t.subrange(n - 8, n);
        assert(tr =~= le8(h).update(i - (n - 8), x));
        if word_at(t, n - 8) == h {
            assert(spec_u64_to_le_bytes(spec_u64_from_le_bytes(tr)) == tr);
            assert(tr[i - (n - 8)] != le8(h)[i - (n - 8)]);
        }
    }
}

/// Why a sequence of operations cannot form one change.
#[derive(Clone, Copy, Debug, PartialEq, Eq, Structural)]
pub enum EncodingError {
    /// The run is empty, or its ids are not consecutive counters of one actor.
    NotContiguous,
}

/// A non-empty run of operations of one actor with consecutive counters.
pub open spec fn contiguous_run(os: Seq<OpV>) -> bool {
    &&& os.len() > 0
    &&& os[0].id.counter + os.len() <= u64::MAX + 1
    &&& forall|i: int| 0 <= i < os.len() ==> #[trigger] os[i].id == run_id(os[0].id.actor, os[0].id.counter, i)
}

impl Change {
    /// Builds the change that carries a run of operations.
    pub fn from_run(ops: &Vec<Operation>, timestamp: u64, message: Option<Vec<u8>>) -> (r: Result<Change, EncodingError>)
        ensures
            r is Ok <==> contiguous_run(ops_view(ops@)),
            match r {
                Ok(c) => c@ == ChangeV {
                    actor: ops@[0].id.actor,
                    start: ops@[0].id.counter,
                    timestamp,
                    message: opt_bytes_view(message),
                    ops: ops_view(ops@),
                },
                Err(_) => true,
            },
    {
        let ghost os = ops_view(ops@);
        if ops.len() == 0 {
            return Err(EncodingError::NotContiguous);
        }
        let actor = ops[0].id.actor;
        let start = ops[0].id.counter;
        let mut copy: Vec<Operation> = Vec::new();
        let mut i: usize = 0;
        while i < ops.len()
            invariant
                os == ops_view(ops@),
                os.len() > 0,
                actor == os[0].id.actor,
                start == os[0].id.counter,
                i <= os.len(),
                start + i <= u64::MAX + 1,
                forall|i2: int| 0 <= i2 < i ==> #[trigger] os[i2].id == run_id(actor, start, i2),
                ops_view(copy@) == os.subrange(0, i as int),
            decreases os.len() - i,
        {
            let id = ops[i].id;
            if id.actor != actor || i as u64 > u64::MAX - start || id.counter != start + i as u64 {
                proof {
                    assert(os[i as int].id == id);
                    if contiguous_run(os) {
                        assert(os[i as int].id == run_id(actor, start, i as int));
                    }
                }
                return Err(EncodingError::NotContiguous);
            }
            let ghost c0 = copy@;
            let op = ops[i].copy();
            assert(op@ == os[i as int]);
            copy.push(op);
            assert(ops_view(copy@) =~= ops_view(c0).push(os[i as int]));
            i = i + 1;
            assert(ops_view(copy@) =~= os.subrange(0, i as int));
        }
        assert(os.subrange(0, i as int) =~= os);
        Ok(Change { actor, start, timestamp, message, ops: copy })
    }
}

/// Decodes every blob; the first that fails decides the error.
pub fn decode_changes(blobs: &Vec<Vec<u8>>) -> (r: Result<Vec<Change>, DecodeError>)
    ensures
        match r {
            Ok(cs) => cs@.len() == blobs@.len() && forall|j: int|
                0 <= j < blobs@.len() ==> decode_spec(blobs@[j]@) == Ok::<ChangeV, DecodeError>(#[trigger] cs@[j]@),
            Err(e) => exists|j: int| 0 <= j < blobs@.len() && decode_spec(#[trigger] blobs@[j]@) == Err::<ChangeV, DecodeError>(e),
        },
{
    let mut out: Vec<Change> = Vec::new();
    let mut j: usize = 0;
    while j < blobs.len()
        invariant
            j <= blobs@.len(),
            out@.len() == j,
            forall|j2: int| 0 <= j2 < j ==> decode_spec(blobs@[j2]@) == Ok::<ChangeV, DecodeError>(#[trigger] out@[j2]@),
        decreases blobs@.len() - j,
    {
        let b = &blobs[j];
        let _n: usize = b.len();
        match Change::decode(b.as_slice()) {
            Ok(c) => {
                out.push(c);
            },
            Err(e) => {
                return Err(e);
            },
        }
        j = j + 1;
    }
    Ok(out)
}

/// The lowercase hexadecimal digit of a value below 16.
pub open spec fn hex_digit(n: int) -> char {
    seq!['0', '1', '2', '3', '4', '5', '6', '7', '8', '9', 'a', 'b', 'c', 'd', 'e', 'f'][n]
}

/// Two lowercase hexadecimal digits per byte, high half first.
pub open spec fn hex_spec(b: Seq<u8>) -> Seq<char>
    decreases b.len(),
{
    if b.len() == 0 {
        Seq::empty()
    } else {
        hex_spec(b.drop_last()) + seq![hex_digit(b.last() as int / 16), hex_digit(b.last() as int % 16)]
    }
}

/// Relies on `hex::encode`: each byte becomes two lowercase hexadecimal
/// digits, the high half first.
#[verifier::external_body]
fn hex_encode(b: &[u8]) -> (r: String)
    ensures
        r@ == hex_spec(b@),
{
    hex::encode(b)
}

impl Change {
    /// The bytes of the change in hexadecimal, for diagnostics.
    pub fn to_hex(&self) -> (r: String)
        ensures
            r@ == hex_spec(enc_change(self@)),
    {
        let b = self.to_bytes();
        hex_encode(b.as_slice())
    }
}

/// The changes one after the other, each as its length and its bytes.
pub open spec fn enc_blobs(cs: Seq<ChangeV>) -> Seq<u8>
    decreases cs.len(),
{
    if cs.len() == 0 {
        Seq::empty()
    } else {
        enc_blobs(cs.drop_last()) + enc_bytes(enc_change(cs.last()))
    }
}

/// A single update: the sender's version, then every change.
pub open spec fn enc_update(v: Seq<OpId>, cs: Seq<ChangeV>) -> Seq<u8> {
    le8(v.len() as u64) + enc_ids(v) + le8(cs.len() as u64) + enc_blobs(cs)
}

pub open spec fn parse_blobs(b: Seq<u8>, p: int, n: nat) -> Result<(Seq<ChangeV>, int), DecodeError>
    decreases n,
{
    if n == 0 {
        Ok((Seq::empty(), p))
    } else {
        match parse_blobs(b, p, (n - 1) as nat) {
            Ok((cs, q)) => match parse_bytes(b, q) {
                Some((blob, r)) => match decode_spec(blob) {
                    Ok(c) => Ok((cs.push(c), r)),
                    Err(e) => Err(e),
                },
                None => Err(DecodeError::Malformed),
            },
            Err(e) => Err(e),
        }
    }
}

/// What decoding an update gives.
pub open spec fn decode_update_spec(b: Seq<u8>) -> Result<(Seq<OpId>, Seq<ChangeV>), DecodeError> {
    match parse_word(b, 0) {
        Some((nv, p)) => match parse_ids(b, p, nv as nat) {
            Some((v, q)) => match parse_word(b, q) {
                Some((nc, r)) => match parse_blobs(b, r, nc as nat) {
                    Ok((cs, e)) => if e == b.len() {
                        Ok((v, cs))
                    } else {
                        Err(DecodeError::Malformed)
                    },
                    Err(err) => Err(err),
                },
                None => Err(DecodeError::Malformed),
            },
            None => Err(DecodeError::Malformed),
        },
        None => Err(DecodeError::Malformed),
    }
}

pub open spec fn changes_of(cs: Seq<Change>) -> Seq<ChangeV> {
    cs.map_values(|c: Change| c@)
}

/// Writes an update: the version, then every change.
pub fn encode_update(v: &Vec<OpId>, cs: &Vec<Change>) -> (r: Vec<u8>)
    ensures
        r@ == enc_update(v@, changes_of(cs@)),
{
    let mut out: Vec<u8> = Vec::new();
    push_u64(&mut out, v.len() as u64);
    let mut i: usize = 0;
    while i < v.len()
        invariant
            i <= v@.len(),
            out@ == le8(v@.len() as u64) + enc_ids(v@.subrange(0, i as int)),
        decreases v@.len() - i,
    {
        push_u64(&mut out, v[i].actor);
        push_u64(&mut out, v[i].counter);
        i = i + 1;
        assert(v@.subrange(0, i as int).drop_last() =~= v@.subrange(0, i - 1));
        assert(out@ =~= le8(v@.len() as u64) + enc_ids(v@.subrange(0, i as int)));
    }
    assert(v@.subrange(0, i as int) =~= v@);
    push_u64(&mut out, cs.len() as u64);
    let ghost head = out@;
    let mut j: usize = 0;
    while j < cs.len()
        invariant
            j <= cs@.len(),
            out@ == head + enc_blobs(changes_of(cs@).subrange(0, j as int)),
        decreases cs@.len() - j,
    {
        let blob = cs[j].to_bytes();
        write_bytes(&mut out, blob.as_slice());
        j = j + 1;
        assert(changes_of(cs@).subrange(0, j as int).drop_last() =~= changes_of(cs@).subrange(0, j - 1));
        assert(out@ =~= head + enc_blobs(changes_of(cs@).subrange(0, j as int)));
    }
    assert(changes_of(cs@).subrange(0, j as int) =~= changes_of(cs@));
    out
}

proof fn lemma_blobs_stuck(b: Seq<u8>, p: int, i: nat, n: nat)
    requires
        i < n,
        parse_blobs(b, p, (i + 1) as nat) is Err,
    ensures
        parse_blobs(b, p, n) == parse_blobs(b, p, (i + 1) as nat),
    decreases n - i,
{
    if i + 1 < n {
        lemma_blobs_stuck(b, p, i + 1, n);
    }
}

/// Reads an update back into a version and its changes.
pub fn decode_update(bytes: &[u8]) -> (r: Result<(Vec<OpId>, Vec<Change>), DecodeError>)
    requires
        bytes@.len() <= usize::MAX,
    ensures
        match r {
            Ok((v, cs)) => decode_update_spec(bytes@) == Ok::<(Seq<OpId>, Seq<ChangeV>), DecodeError>((v@, changes_of(cs@))),
            Err(e) => decode_update_spec(bytes@) == Err::<(Seq<OpId>, Seq<ChangeV>), DecodeError>(e),
        },
{
    let (nv, p) = match read_word(bytes, 0) {
        Some(x) => x,
        None => return Err(DecodeError::Malformed),
    };
    let (v, q) = match read_ids(bytes, p, nv) {
        Some(x) => x,
        None => return Err(DecodeError::Malformed),
    };
    let (nc, mut pos) = match read_word(bytes, q) {
        Some(x) => x,
        None => return Err(DecodeError::Malformed),
    };
    let ghost r0 = pos as int;
    let mut cs: Vec<Change> = Vec::new();
    assert(changes_of(cs@) =~= Seq::<ChangeV>::empty());
    let mut i: u64 = 0;
    while i < nc
        invariant
            bytes@.len() <= usize::MAX,
            parse_word(bytes@, 0) == Some((nv, p as int)),
            parse_ids(bytes@, p as int, nv as nat) == Some((v@, q as int)),
            parse_word(bytes@, q as int) == Some((nc, r0)),
            i <= nc,
            parse_blobs(bytes@, r0, i as nat) == Ok::<(Seq<ChangeV>, int), DecodeError>((changes_of(cs@), pos as int)),
        decreases nc - i,
    {
        match read_bytes(bytes, pos) {
            Some((blob, e)) => {
                match Change::decode(blob.as_slice()) {
                    Ok(c) => {
                        let ghost c0 = cs@;
                        cs.push(c);
                        assert(changes_of(cs@) =~= changes_of(c0).push(cs@[c0.len() as int]@));
                        pos = e;
                        i = i + 1;
                    },
                    Err(err) => {
                        proof {
                            assert(parse_blobs(bytes@, r0, (i + 1) as nat) == Err::<(Seq<ChangeV>, int), DecodeError>(err));
                            lemma_blobs_stuck(bytes@, r0, i as nat, nc as nat);
                        }
                        return Err(err);
                    },
                }
            },
            None => {
                proof {
                    assert(parse_blobs(bytes@, r0, (i + 1) as nat) == Err::<(Seq<ChangeV>, int), DecodeError>(DecodeError::Malformed));
                    lemma_blobs_stuck(bytes@, r0, i as nat, nc as nat);
                }
                return Err(DecodeError::Malformed);
            },
        }
    }
    if pos != bytes.len() {
        return Err(DecodeError::Malformed);
    }
    Ok((v, cs))
}

proof fn lemma_blobs_rt(b: Seq<u8>, p: int, cs: Seq<ChangeV>)
    requires
        at(b, p, enc_blobs(cs)),
        forall|j: int| 0 <= j < cs.len() ==> wf_change(#[trigger] cs[j]) && fits_change(cs[j]) && enc_change(cs[j]).len() <= u64::MAX,
    ensures
        parse_blobs(b, p, cs.len()) == Ok::<(Seq<ChangeV>, int), DecodeError>((cs, p + enc_blobs(cs).len())),
    decreases cs.len(),
{
    if cs.len() > 0 {
        let front = enc_blobs(cs.drop_last());
        let c = cs.last();
        lemma_at_split(b, p, front, enc_bytes(enc_change(c)));
        assert forall|j: int| 0 <= j < cs.drop_last().len() implies wf_change(#[trigger] cs.drop_last()[j]) && fits_change(cs.drop_last()[j]) && enc_change(cs.drop_last()[j]).len() <= u64::MAX by {
            assert(cs.drop_last()[j] == cs[j]);
        }
        lemma_blobs_rt(b, p, cs.drop_last());
        assert(wf_change(cs[cs.len() - 1]) && fits_change(cs[cs.len() - 1]) && enc_change(cs[cs.len() - 1]).len() <= u64::MAX);
        lemma_bytes_rt(b, p + front.len(), enc_change(c));
        lemma_round_trip(c);
        assert(cs.drop_last().push(c) =~= cs);
        assert(parse_blobs(b, p, (cs.len() - 1) as nat) == Ok::<(Seq<ChangeV>, int), DecodeError>((cs.drop_last(), p + front.len())));
        assert(parse_bytes(b, p + front.len()) == Some((enc_change(c), p + front.len() + enc_bytes(enc_change(c)).len())));
        assert(decode_spec(enc_change(c)) == Ok::<ChangeV, DecodeError>(c));
        assert(enc_blobs(cs).len() == front.len() + enc_bytes(enc_change(c)).len());
    } else {
        assert(cs =~= Seq::<ChangeV>::empty());
    }
}

/// Decoding an update gives back the version and the changes written into it.
pub proof fn lemma_update_round_trip(v: Seq<OpId>, cs: Seq<ChangeV>)
    requires
        v.len() <= u64::MAX,
        cs.len() <= u64::MAX,
        forall|j: int| 0 <= j < cs.len() ==> wf_change(#[trigger] cs[j]) && fits_change(cs[j]) && enc_change(cs[j]).len() <= u64::MAX,
    ensures
        decode_update_spec(enc_update(v, cs)) == Ok::<(Seq<OpId>, Seq<ChangeV>), DecodeError>((v, cs)),
{
    lemma_le8();
    let b = enc_update(v, cs);
    let a1 = le8(v.len() as u64);
    let a2 = a1 + enc_ids(v);
    let a3 = a2 + le8(cs.len() as u64);
    assert(b.subrange(0, b.len() as int) =~= b);
    lemma_at_split(b, 0, a3, enc_blobs(cs));
    lemma_at_split(b, 0, a2, le8(cs.len() as u64));
    lemma_at_split(b, 0, a1, enc_ids(v));
    lemma_word_rt(b, 0, v.len() as u64);
    lemma_ids_rt(b, 8, v);
    lemma_word_rt(b, a2.len() as int, cs.len() as u64);
    lemma_blobs_rt(b, a3.len() as int, cs);
}

} // verus!
