use vstd::prelude::*;

verus! {

/// The mask that selects bit `k` of a byte.
pub open spec fn mask_of(k: int) -> u8 {
    (1u8 << (k as u8)) as u8
}

/// Whether bit `i` of a byte sequence is set; bit `i` lives in byte `i / 8`
/// at position `i % 8`.
pub open spec fn bit_at(bytes: Seq<u8>, i: int) -> bool {
    bytes[i / 8] & mask_of(i % 8) != 0
}

/// Number of bytes needed to hold `n` bits.
pub open spec fn bytes_for(n: int) -> int {
    (n + 7) / 8
}

/// Setting or clearing bit `k` of a byte makes bit `k` what was asked and
/// leaves the other seven bits as they were.
pub proof fn lemma_byte_write(b: u8, k: u8, j: u8, alive: bool)
    requires
        k < 8,
        j < 8,
    ensures
        (if alive { b | (1u8 << k) } else { b & !(1u8 << k) }) & (1u8 << j) != 0 <==> if j == k {
            alive
        } else {
            b & (1u8 << j) != 0
        },
{
    if alive {
        assert((b | (1u8 << k)) & (1u8 << j) != 0 <==> if j == k {
            true
        } else {
            b & (1u8 << j) != 0
        }) by (bit_vector)
            requires
                k < 8,
                j < 8,
        ;
    } else {
        assert((b & !(1u8 << k)) & (1u8 << j) != 0 <==> if j == k {
            false
        } else {
            b & (1u8 << j) != 0
        }) by (bit_vector)
            requires
                k < 8,
                j < 8,
        ;
    }
}

/// Bit `j` of `a ^ b` is set exactly when it is set in one of the two.
pub proof fn lemma_byte_xor(a: u8, b: u8, j: u8)
    requires
        j < 8,
    ensures
        (a ^ b) & (1u8 << j) != 0 <==> ((a & (1u8 << j) != 0) != (b & (1u8 << j) != 0)),
{
    assert((a ^ b) & (1u8 << j) != 0 <==> ((a & (1u8 << j) != 0) != (b & (1u8 << j) != 0)))
        by (bit_vector)
        requires
            j < 8,
    ;
}

/// No bit of a zero byte is set.
pub proof fn lemma_byte_zero(j: u8)
    requires
        j < 8,
    ensures
        0u8 & (1u8 << j) == 0,
{
    assert(0u8 & (1u8 << j) == 0) by (bit_vector);
}

/// Sets (`alive`) or clears bit `offset` of `bytes`; no other bit changes.
pub fn write_bit(bytes: &mut Vec<u8>, offset: usize, alive: bool)
    requires
        offset / 8 < old(bytes)@.len(),
    ensures
        final(bytes)@.len() == old(bytes)@.len(),
        forall|i: int|
            0 <= i < 8 * old(bytes)@.len() ==> #[trigger] bit_at(final(bytes)@, i) == if i
                == offset {
                alive
            } else {
                bit_at(old(bytes)@, i)
            },
{
    let unit = offset / 8;
    let shift = (offset % 8) as u8;
    let mask: u8 = 1u8 << shift;
    let b = bytes[unit];
    let nb = if alive {
        b | mask
    } else {
        b & !mask
    };
    bytes.set(unit, nb);
    assert forall|i: int| 0 <= i < 8 * old(bytes)@.len() implies #[trigger] bit_at(bytes@, i)
        == if i == offset {
        alive
    } else {
        bit_at(old(bytes)@, i)
    } by {
        if i / 8 == unit as int {
            lemma_byte_write(b, shift, (i % 8) as u8, alive);
        }
    }
}

} // verus!
