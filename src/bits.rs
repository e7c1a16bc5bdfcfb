use vstd::prelude::*;

verus! {

/// Whether bit `b` of `x` is set.
pub open spec fn bit_set(x: u64, b: u64) -> bool {
    (x >> b) & 1 == 1
}

pub fn has_bit(x: u64, b: u64) -> (r: bool)
    requires
        b < 64,
    ensures
        r == bit_set(x, b),
{
    (x >> b) & 1 == 1
}

/// The mask of bits `lo..=hi`.
pub open spec fn mask_bits(lo: u64, hi: u64) -> u64 {
    let upper: u64 = if hi >= 63 {
        u64::MAX
    } else {
        ((1u64 << ((hi + 1) as u64)) - 1) as u64
    };
    upper ^ (((1u64 << lo) - 1) as u64)
}

pub fn mask_range(lo: u64, hi: u64) -> (r: u64)
    requires
        lo <= hi < 64,
    ensures
        r == mask_bits(lo, hi),
{
    let upper: u64 = if hi >= 63 {
        u64::MAX
    } else {
        assert(1u64 << ((hi + 1) as u64) >= 1) by (bit_vector)
            requires
                hi < 63,
        ;
        (1u64 << (hi + 1)) - 1
    };
    assert(1u64 << lo >= 1) by (bit_vector)
        requires
            lo < 64,
    ;
    upper ^ ((1u64 << lo) - 1)
}

pub proof fn lemma_and_le(x: u64, m: u64)
    ensures
        x & m <= m,
{
    assert(x & m <= m) by (bit_vector);
}

/// The value of four bytes read as a little-endian integer.
pub open spec fn le_u32(b: Seq<u8>, off: int) -> u64 {
    (b[off] as int + 0x100 * b[off + 1] + 0x1_0000 * b[off + 2] + 0x100_0000 * b[off
        + 3]) as u64
}

/// The value of eight bytes read as a little-endian integer.
pub open spec fn le_u64(b: Seq<u8>, off: int) -> u64 {
    (le_u32(b, off) + 0x1_0000_0000 * le_u32(b, off + 4)) as u64
}

pub fn read_u32_le(b: &[u8], off: usize) -> (r: u64)
    requires
        off + 4 <= b@.len(),
    ensures
        r == le_u32(b@, off as int),
        r < 0x1_0000_0000,
{
    let b0 = b[off] as u64;
    let b1 = b[off + 1] as u64;
    let b2 = b[off + 2] as u64;
    let b3 = b[off + 3] as u64;
    b0 + 0x100 * b1 + 0x1_0000 * b2 + 0x100_0000 * b3
}

pub fn read_u64_le(b: &[u8], off: usize) -> (r: u64)
    requires
        off + 8 <= b@.len(),
    ensures
        r == le_u64(b@, off as int),
{
    let _n = b.len();
    let lo = read_u32_le(b, off);
    let hi = read_u32_le(b, off + 4);
    lo + 0x1_0000_0000 * hi
}

/// A 48-bit address sign-extended from bit 47.
pub open spec fn canonical(va: u64) -> u64 {
    if (va >> 47u64) & 1 == 1 {
        va | 0xFFFF_0000_0000_0000u64
    } else {
        va
    }
}

/// An address in canonical 48-bit form: bits 48 to 63 all copy bit 47.
pub open spec fn sign_extended(va: u64) -> bool {
    &&& ((va >> 47u64) & 1 == 1 ==> va >> 48u64 == 0xFFFFu64)
    &&& ((va >> 47u64) & 1 == 0 ==> va >> 48u64 == 0)
}

/// Sign-extending a 48-bit address gives a canonical one.
pub proof fn lemma_canonical_is_sign_extended(va: u64)
    requires
        va < 0x1_0000_0000_0000u64,
    ensures
        sign_extended(canonical(va)),
{
    let c = va | 0xFFFF_0000_0000_0000u64;
    assert((va >> 47u64) & 1 == 1 ==> (c >> 47u64) & 1 == 1 && c >> 48u64 == 0xFFFFu64)
        by (bit_vector)
        requires
            c == va | 0xFFFF_0000_0000_0000u64,
    ;
    assert((va >> 47u64) & 1 == 0 ==> va >> 48u64 == 0) by (bit_vector)
        requires
            va < 0x1_0000_0000_0000u64,
    ;
}

/// Folding an entry index into a 48-bit table address keeps it below 2^48.
pub proof fn lemma_index_bits_fit(a: u64, i: u64, low: u64)
    requires
        a < 0x1_0000_0000_0000u64,
        i < 1024,
        low <= 38 || (low == 39 && i < 512),
    ensures
        (a | (i << low)) < 0x1_0000_0000_0000u64,
{
    assert((a | (i << low)) < 0x1_0000_0000_0000u64) by (bit_vector)
        requires
            a < 0x1_0000_0000_0000u64,
            i < 1024,
            low <= 38 || (low == 39 && i < 512),
    ;
}

/// An entry index folded into an aligned table address: the bits do not
/// overlap, the result stays aligned to the entry's span, and the entry lies
/// inside the table's span.
pub proof fn lemma_index_va(a: u64, i: u64, low: u64, tb: u64)
    requires
        12 <= low < tb <= 48,
        a & (((1u64 << tb) - 1) as u64) == 0,
        a < 0x1_0000_0000_0000u64,
        i < (1u64 << ((tb - low) as u64)),
    ensures
        (a | (i << low)) == a + (i << low),
        (a | (i << low)) & (((1u64 << low) - 1) as u64) == 0,
        (i << low) + (1u64 << low) <= (1u64 << tb),
        ((i + 1) as u64) << low == (i << low) + (1u64 << low),
        a + (1u64 << tb) <= 0x1_0000_0000_0000u64,
        (a | (i << low)) < 0x8000_0000_0000u64 ==> (a | (i << low)) + (1u64 << low) <= 0x8000_0000_0000u64,
{
    assert((a | (i << low)) == a + (i << low)
        && (a | (i << low)) & (((1u64 << low) - 1) as u64) == 0
        && (i << low) + (1u64 << low) <= (1u64 << tb)
        && ((i + 1) as u64) << low == (i << low) + (1u64 << low)
        && a + (1u64 << tb) <= 0x1_0000_0000_0000u64
        && ((a | (i << low)) < 0x8000_0000_0000u64 ==> (a | (i << low)) + (1u64 << low) <= 0x8000_0000_0000u64))
        by (bit_vector)
        requires
            12 <= low < tb <= 48,
            a & (((1u64 << tb) - 1) as u64) == 0,
            a < 0x1_0000_0000_0000u64,
            i < (1u64 << ((tb - low) as u64)),
    ;
}

/// A canonical 48-bit address as an integer: the lower half unchanged, the
/// upper half moved to the top of the 64-bit space.
pub open spec fn canon_int(x: int) -> int {
    if x < 0x8000_0000_0000 {
        x
    } else {
        x + 0xFFFF_0000_0000_0000
    }
}

pub proof fn lemma_canonical_value(x: u64)
    requires
        x < 0x1_0000_0000_0000u64,
    ensures
        canonical(x) as int == canon_int(x as int),
{
    let c = x | 0xFFFF_0000_0000_0000u64;
    assert(((x >> 47u64) & 1 == 1) == (x >= 0x8000_0000_0000u64) && (x >= 0x8000_0000_0000u64 ==> c
        == x + 0xFFFF_0000_0000_0000u64)) by (bit_vector)
        requires
            x < 0x1_0000_0000_0000u64,
            c == x | 0xFFFF_0000_0000_0000u64,
    ;
}

} // verus!
