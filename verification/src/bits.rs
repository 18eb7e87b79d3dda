//! The bit-level view of byte buffers: reading a buffer as a bit stream,
//! most significant bit of each byte first, and packing such a stream back
//! into bytes.

use vstd::prelude::*;

verus! {

/// Bit `k` of byte `b`, counting from the most significant bit.
pub open spec fn bit_of_byte(b: u8, k: int) -> bool
    recommends
        0 <= k < 8,
{
    (b >> (7 - k) as u8) & 1 == 1
}

/// The bits of a byte buffer in order, most significant bit of each byte
/// first.
pub open spec fn bits_of_bytes(bytes: Seq<u8>) -> Seq<bool> {
    Seq::new(bytes.len() * 8, |i: int| bit_of_byte(bytes[i / 8], i % 8))
}

/// 1 for a set bit, 0 for a clear one.
pub open spec fn bit_val(b: bool) -> int {
    if b {
        1
    } else {
        0
    }
}

/// The byte whose most-significant-bit-first spelling is the eight bits `bs`.
pub open spec fn byte_of_bits(bs: Seq<bool>) -> u8
    recommends
        bs.len() == 8,
{
    (bit_val(bs[0]) * 128 + bit_val(bs[1]) * 64 + bit_val(bs[2]) * 32 + bit_val(bs[3]) * 16
        + bit_val(bs[4]) * 8 + bit_val(bs[5]) * 4 + bit_val(bs[6]) * 2 + bit_val(bs[7])) as u8
}

/// The bytes spelled by `bits`, eight bits at a time, most significant bit
/// first; trailing bits that do not fill a byte are dropped.
pub open spec fn bytes_of_bits(bits: Seq<bool>) -> Seq<u8> {
    Seq::new(bits.len() / 8, |j: int| byte_of_bits(bits.subrange(8 * j, 8 * j + 8)))
}

/// Spelling a byte's bits and packing them again gives the byte back.
pub proof fn lemma_byte_of_bits_of_byte(b: u8, bs: Seq<bool>)
    requires
        bs.len() == 8,
        forall|k: int| 0 <= k < 8 ==> bs[k] == bit_of_byte(b, k),
    ensures
        byte_of_bits(bs) == b,
{
    assert(((b >> 7) & 1) * 128 + ((b >> 6) & 1) * 64 + ((b >> 5) & 1) * 32 + ((b >> 4) & 1) * 16
        + ((b >> 3) & 1) * 8 + ((b >> 2) & 1) * 4 + ((b >> 1) & 1) * 2 + ((b >> 0) & 1) == b)
        by (bit_vector);
    assert forall|j: u8| j < 8 implies ((b >> j) & 1) == 0 || ((b >> j) & 1) == 1 by {
        assert(((b >> j) & 1) == 0 || ((b >> j) & 1) == 1) by (bit_vector);
    }
    assert forall|k: int| 0 <= k < 8 implies bit_val(bs[k]) == ((b >> (7 - k) as u8) & 1) as int by {
        assert(bs[k] == bit_of_byte(b, k));
        assert(((b >> (7 - k) as u8) & 1) == 0 || ((b >> (7 - k) as u8) & 1) == 1);
    }
    assert(bit_val(bs[0]) == ((b >> 7) & 1) as int);
    assert(bit_val(bs[1]) == ((b >> 6) & 1) as int);
    assert(bit_val(bs[2]) == ((b >> 5) & 1) as int);
    assert(bit_val(bs[3]) == ((b >> 4) & 1) as int);
    assert(bit_val(bs[4]) == ((b >> 3) & 1) as int);
    assert(bit_val(bs[5]) == ((b >> 2) & 1) as int);
    assert(bit_val(bs[6]) == ((b >> 1) & 1) as int);
    assert(bit_val(bs[7]) == ((b >> 0) & 1) as int);
}

/// Packing the bit spelling of a byte buffer gives the buffer back.
pub proof fn lemma_bytes_bits_round_trip(bytes: Seq<u8>)
    ensures
        bytes_of_bits(bits_of_bytes(bytes)) == bytes,
{
    let bits = bits_of_bytes(bytes);
    assert(bits.len() == bytes.len() * 8);
    assert(bits.len() / 8 == bytes.len()) by (nonlinear_arith)
        requires
            bits.len() == bytes.len() * 8,
    ;
    assert forall|j: int| 0 <= j < bytes.len() implies bytes_of_bits(bits)[j] == bytes[j] by {
        let sub = bits.subrange(8 * j, 8 * j + 8);
        assert forall|k: int| 0 <= k < 8 implies sub[k] == bit_of_byte(bytes[j], k) by {
            assert(sub[k] == bits[8 * j + k]);
            assert((8 * j + k) / 8 == j && (8 * j + k) % 8 == k) by (nonlinear_arith)
                requires
                    0 <= k < 8,
                    0 <= j,
            ;
        }
        lemma_byte_of_bits_of_byte(bytes[j], sub);
    }
    assert(bytes_of_bits(bits) =~= bytes);
}

/// The packed bytes depend only on the bits up to the last full byte:
/// the trailing `len % 8` bits are dropped, never rounded up.
pub proof fn lemma_bytes_of_bits_ignores_tail(bits: Seq<bool>)
    ensures
        bytes_of_bits(bits).len() == bits.len() / 8,
        bytes_of_bits(bits) == bytes_of_bits(bits.take(8 * (bits.len() / 8) as int)),
{
    let keep: int = 8 * (bits.len() / 8) as int;
    assert(keep <= bits.len() && bits.len() < keep + 8) by (nonlinear_arith)
        requires
            keep == 8 * (bits.len() / 8),
    ;
    let pre = bits.take(keep);
    assert(pre.len() / 8 == bits.len() / 8) by (nonlinear_arith)
        requires
            pre.len() == 8 * (bits.len() / 8),
    ;
    assert forall|j: int| 0 <= j < bits.len() / 8 implies bytes_of_bits(bits)[j] == bytes_of_bits(
        pre,
    )[j] by {
        assert(8 * j + 8 <= keep) by (nonlinear_arith)
            requires
                0 <= j < bits.len() / 8,
                keep == 8 * (bits.len() / 8),
        ;
        assert(bits.subrange(8 * j, 8 * j + 8) =~= pre.subrange(8 * j, 8 * j + 8));
    }
    assert(bytes_of_bits(bits) =~= bytes_of_bits(pre));
}

/// All bits of `bytes` in order, most significant bit of each byte first.
pub fn bytes_to_bits(bytes: &[u8]) -> (r: Vec<bool>)
    ensures
        r@ == bits_of_bytes(bytes@),
{
    let mut r: Vec<bool> = Vec::new();
    let mut i: usize = 0;
    while i < bytes.len()
        invariant
            i <= bytes@.len(),
            r@.len() == 8 * i,
            forall|t: int| 0 <= t < r@.len() ==> r@[t] == bits_of_bytes(bytes@)[t],
        decreases bytes@.len() - i,
    {
        let b = bytes[i];
        let mut k: usize = 0;
        while k < 8
            invariant
                k <= 8,
                i < bytes@.len(),
                b == bytes@[i as int],
                r@.len() == 8 * i + k,
                forall|t: int| 0 <= t < r@.len() ==> r@[t] == bits_of_bytes(bytes@)[t],
            decreases 8 - k,
        {
            let ghost t = r@.len() as int;
            r.push((b >> (7 - k) as u8) & 1 == 1);
            proof {
                assert(t / 8 == i && t % 8 == k) by (nonlinear_arith)
                    requires
                        t == 8 * i + k,
                        0 <= k < 8,
                        0 <= i,
                ;
                assert(t < bytes@.len() * 8) by (nonlinear_arith)
                    requires
                        t == 8 * i + k,
                        k < 8,
                        i < bytes@.len(),
                ;
                assert(r@[t] == bit_of_byte(bytes@[t / 8], t % 8));
            }
            k = k + 1;
        }
        i = i + 1;
    }
    assert(r@ =~= bits_of_bytes(bytes@));
    r
}

/// Packs `bits` into bytes, eight at a time, most significant bit first,
/// dropping any trailing bits that do not fill a byte.
pub fn bits_to_bytes(bits: &Vec<bool>) -> (r: Vec<u8>)
    ensures
        r@ == bytes_of_bits(bits@),
{
    let total = bits.len();
    let n = total / 8;
    proof {
        assert(8 * n <= bits@.len()) by (nonlinear_arith)
            requires
                n == bits@.len() / 8,
                bits@.len() >= 0,
        ;
    }
    let mut r: Vec<u8> = Vec::new();
    let mut j: usize = 0;
    while j < n
        invariant
            j <= n,
            n == bits@.len() / 8,
            8 * n <= bits@.len(),
            bits@.len() <= usize::MAX,
            r@.len() == j,
            forall|t: int| 0 <= t < j ==> r@[t] == bytes_of_bits(bits@)[t],
        decreases n - j,
    {
        proof {
            assert(8 * j + 8 <= 8 * n) by (nonlinear_arith)
                requires
                    j < n,
            ;
        }
        let base = 8 * j;
        let byte: u8 = (if bits[base] {
            128
        } else {
            0
        }) + (if bits[base + 1] {
            64
        } else {
            0
        }) + (if bits[base + 2] {
            32
        } else {
            0
        }) + (if bits[base + 3] {
            16
        } else {
            0
        }) + (if bits[base + 4] {
            8
        } else {
            0
        }) + (if bits[base + 5] {
            4
        } else {
            0
        }) + (if bits[base + 6] {
            2
        } else {
            0
        }) + (if bits[base + 7] {
            1
        } else {
            0
        });
        proof {
            let sub = bits@.subrange(8 * j as int, 8 * j + 8);
            assert(forall|k: int| 0 <= k < 8 ==> sub[k] == bits@[8 * j + k]);
            assert(byte == byte_of_bits(sub));
        }
        r.push(byte);
        j = j + 1;
    }
    assert(r@ =~= bytes_of_bits(bits@));
    r
}

} // verus!
