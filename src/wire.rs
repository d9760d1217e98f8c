//! Byte-level building blocks of the change format: little-endian words and
//! the trailing checksum.
use vstd::bytes::{spec_u64_from_le_bytes, spec_u64_to_le_bytes, u64_from_le_bytes, u64_to_le_bytes};
use vstd::prelude::*;
use vstd::slice::slice_subrange;

verus! {

/// Modulus of both running sums of the checksum.
pub const HALF: u64 = 0x1_0000_0000;

/// The two running sums (a, b) of the checksum: `a` is the sum of the bytes
/// and `b` the sum of the successive values of `a`, both modulo 2^32.
pub open spec fn sums(s: Seq<u8>) -> (u64, u64)
    decreases s.len(),
{
    if s.len() == 0 {
        (0, 0)
    } else {
        let (a, b) = sums(s.drop_last());
        let a2 = ((a + s.last()) % (HALF as int)) as u64;
        (a2, ((b + a2) % (HALF as int)) as u64)
    }
}

/// The checksum of a byte string: the second running sum in the high half,
/// the first in the low half.
pub open spec fn checksum_spec(s: Seq<u8>) -> u64 {
    (sums(s).1 * HALF + sums(s).0) as u64
}

/// The plain sum of the bytes.
pub open spec fn byte_sum(s: Seq<u8>) -> int
    decreases s.len(),
{
    if s.len() == 0 {
        0
    } else {
        byte_sum(s.drop_last()) + s.last()
    }
}

/// The plain sum of the bytes, reduced modulo 2^32.
pub open spec fn sum_mod(s: Seq<u8>) -> int {
    byte_sum(s) % (HALF as int)
}

pub proof fn lemma_sums_bounded(s: Seq<u8>)
    ensures
        sums(s).0 < HALF,
        sums(s).1 < HALF,
    decreases s.len(),
{
    if s.len() > 0 {
        lemma_sums_bounded(s.drop_last());
    }
}

/// The first running sum is the byte sum modulo 2^32.
pub proof fn lemma_first_sum(s: Seq<u8>)
    ensures
        sums(s).0 == sum_mod(s),
    decreases s.len(),
{
    if s.len() > 0 {
        lemma_first_sum(s.drop_last());
        let p = byte_sum(s.drop_last());
        let m = HALF as int;
        vstd::arithmetic::div_mod::lemma_add_mod_noop(p, s.last() as int, m);
        vstd::arithmetic::div_mod::lemma_mod_twice(s.last() as int, m);
        vstd::arithmetic::div_mod::lemma_small_mod(s.last() as nat, m as nat);
    }
}

/// The checksum determines its low half, the byte sum modulo 2^32.
pub proof fn lemma_checksum_low(s: Seq<u8>)
    ensures
        (checksum_spec(s) as int) % (HALF as int) == sum_mod(s),
{
    lemma_sums_bounded(s);
    lemma_first_sum(s);
    let a = sums(s).0 as int;
    let b = sums(s).1 as int;
    assert(b * HALF + a < 0x1_0000_0000_0000_0000) by (nonlinear_arith)
        requires
            a < HALF,
            b < HALF,
    ;
    vstd::arithmetic::div_mod::lemma_fundamental_div_mod_converse(
        b * HALF + a,
        HALF as int,
        b,
        a,
    );
}

/// Changing one byte changes the byte sum by the difference of the two values.
pub proof fn lemma_sum_update(s: Seq<u8>, i: int, x: u8)
    requires
        0 <= i < s.len(),
    ensures
        byte_sum(s.update(i, x)) == byte_sum(s) - s[i] + x,
    decreases s.len(),
{
    let t = s.update(i, x);
    if i == s.len() - 1 {
        assert(t.drop_last() =~= s.drop_last());
    } else {
        lemma_sum_update(s.drop_last(), i, x);
        assert(t.drop_last() =~= s.drop_last().update(i, x));
    }
}

/// Changing exactly one byte always changes the checksum.
pub proof fn lemma_checksum_detects_one_byte(s: Seq<u8>, i: int, x: u8)
    requires
        0 <= i < s.len(),
        x != s[i],
    ensures
        checksum_spec(s.update(i, x)) != checksum_spec(s),
{
    let t = s.update(i, x);
    lemma_sum_update(s, i, x);
    lemma_checksum_low(s);
    lemma_checksum_low(t);
    let p = byte_sum(s);
    let q = byte_sum(t);
    let m = HALF as int;
    vstd::arithmetic::div_mod::lemma_fundamental_div_mod(p, m);
    vstd::arithmetic::div_mod::lemma_fundamental_div_mod(q, m);
    if p % m == q % m {
        let k = p / m - q / m;
        assert(p - q == m * k) by (nonlinear_arith)
            requires
                p == m * (p / m) + p % m,
                q == m * (q / m) + q % m,
                p % m == q % m,
                k == p / m - q / m,
        ;
        assert(false) by (nonlinear_arith)
            requires
                p - q == m * k,
                -256 < p - q < 256,
                p != q,
                m == 0x1_0000_0000,
        ;
    }
}

/// Computes the checksum of a byte string.
pub fn checksum(s: &[u8]) -> (r: u64)
    ensures
        r == checksum_spec(s@),
{
    let mut a: u64 = 0;
    let mut b: u64 = 0;
    let mut i: usize = 0;
    while i < s.len()
        invariant
            i <= s@.len(),
            (a, b) == sums(s@.subrange(0, i as int)),
            a < HALF,
            b < HALF,
        decreases s@.len() - i,
    {
        assert(s@.subrange(0, i + 1).drop_last() =~= s@.subrange(0, i as int));
        a = (a + s[i] as u64) % HALF;
        b = (b + a) % HALF;
        i = i + 1;
    }
    assert(s@.subrange(0, i as int) =~= s@);
    assert(b * HALF + a < 0x1_0000_0000_0000_0000) by (nonlinear_arith)
        requires
            a < HALF,
            b < HALF,
    ;
    b * HALF + a
}

/// The eight little-endian bytes of a word.
pub open spec fn le8(x: u64) -> Seq<u8> {
    spec_u64_to_le_bytes(x)
}

/// The word that eight little-endian bytes stand for.
pub open spec fn word_at(s: Seq<u8>, pos: int) -> u64 {
    spec_u64_from_le_bytes(s.subrange(pos, pos + 8))
}

pub proof fn lemma_le8()
    ensures
        forall|x: u64| #![trigger le8(x)] le8(x).len() == 8 && spec_u64_from_le_bytes(le8(x)) == x,
{
    vstd::bytes::lemma_auto_spec_u64_to_from_le_bytes();
}

/// Appends the little-endian bytes of a word.
pub fn push_u64(out: &mut Vec<u8>, x: u64)
    ensures
        final(out)@ == old(out)@ + le8(x),
{
    proof {
        lemma_le8();
    }
    let w = u64_to_le_bytes(x);
    let mut i: usize = 0;
    while i < 8
        invariant
            w@ == le8(x),
            w@.len() == 8,
            i <= 8,
            out@ == old(out)@ + w@.subrange(0, i as int),
        decreases 8 - i,
    {
        out.push(w[i]);
        i = i + 1;
        assert(out@ =~= old(out)@ + w@.subrange(0, i as int));
    }
    assert(w@.subrange(0, 8) =~= w@);
}

/// Appends a byte string.
pub fn push_bytes(out: &mut Vec<u8>, b: &[u8])
    ensures
        final(out)@ == old(out)@ + b@,
{
    let mut i: usize = 0;
    while i < b.len()
        invariant
            i <= b@.len(),
            out@ == old(out)@ + b@.subrange(0, i as int),
        decreases b@.len() - i,
    {
        out.push(b[i]);
        i = i + 1;
        assert(out@ =~= old(out)@ + b@.subrange(0, i as int));
    }
    assert(b@.subrange(0, b@.len() as int) =~= b@);
}

/// Reads the word stored little-endian at `pos`.
pub fn read_u64(b: &[u8], pos: usize) -> (r: u64)
    requires
        pos + 8 <= b@.len() <= usize::MAX,
    ensures
        r == word_at(b@, pos as int),
{
    u64_from_le_bytes(slice_subrange(b, pos, pos + 8))
}

} // verus!
