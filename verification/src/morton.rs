//! Morton (Z-order) codes: the two coordinates of a cell are interleaved bit
//! by bit into one index, so that cells close in the plane are close in memory.
use vstd::prelude::*;

verus! {

/// Bit `k` of `v`, bit 0 being the least significant.
pub open spec fn bit(v: usize, k: usize) -> bool {
    (v >> k) & 1 == 1
}

/// Bit `2k` of `v`.
pub open spec fn even_bit(v: usize, k: usize) -> bool {
    (v >> (2 * k)) & 1 == 1
}

/// Bit `2k + 1` of `v`.
pub open spec fn odd_bit(v: usize, k: usize) -> bool {
    (v >> (2 * k + 1)) & 1 == 1
}

/// `z` is the Morton code of the point `(x, y)`: both coordinates have 16 bits,
/// bit `2k` of `z` is bit `k` of `x`, bit `2k + 1` of `z` is bit `k` of `y`,
/// and `z` has no bit above bit 31.
pub open spec fn is_morton_code(z: usize, x: usize, y: usize) -> bool {
    &&& x < 0x1_0000
    &&& y < 0x1_0000
    &&& z <= 0xffff_ffff
    &&& forall|k: usize| #![trigger even_bit(z, k)] #![trigger odd_bit(z, k)] k < 16 ==> ((even_bit(z, k) == bit(x, k)) && (odd_bit(z, k) == bit(y, k)))
}

/// The Morton code of `(x, y)`, taken on the 16 low bits of each coordinate.
pub open spec fn morton_code(x: usize, y: usize) -> usize {
    choose|z: usize| is_morton_code(z, x & 0xffff, y & 0xffff)
}

/// The point whose Morton code is the 32 low bits of `z`.
pub open spec fn morton_coords(z: usize) -> (usize, usize) {
    choose|x: usize, y: usize| is_morton_code(z & 0xffff_ffff, x, y)
}

/// One round of spreading: `n` or'ed with itself shifted left by `s`, then masked.
spec fn spread_round(n: usize, s: usize, mask: usize) -> usize {
    (n | (n << s)) & mask
}

/// One round of gathering: `n` or'ed with itself shifted right by `s`, then masked.
spec fn gather_round(n: usize, s: usize, mask: usize) -> usize {
    (n | (n >> s)) & mask
}

/// The 16 low bits of `n` moved to the even bit positions, by the classic
/// sequence of shifts and masks.
spec fn spread(n: usize) -> usize {
    spread_round(
        spread_round(
            spread_round(spread_round(n & 0x0000ffff, 8, 0x00ff00ff), 4, 0x0f0f0f0f),
            2,
            0x33333333,
        ),
        1,
        0x55555555,
    )
}

/// The even bits of `n` gathered into the 16 low bits.
spec fn gather(n: usize) -> usize {
    gather_round(
        gather_round(
            gather_round(gather_round(n & 0x55555555, 1, 0x33333333), 2, 0x0f0f0f0f),
            4,
            0x00ff00ff,
        ),
        8,
        0x0000ffff,
    )
}

proof fn lemma_spread_is_code(x: usize, y: usize)
    ensures
        is_morton_code(spread(x) | (spread(y) << 1), x & 0xffff, y & 0xffff),
{
    let z = spread(x) | (spread(y) << 1);
    let xl = x & 0xffff;
    let yl = y & 0xffff;
    assert(xl < 0x1_0000 && yl < 0x1_0000 && z <= 0xffff_ffff) by (bit_vector)
        requires
            z == spread(x) | (spread(y) << 1),
            xl == x & 0xffff,
            yl == y & 0xffff,
    ;
    assert(forall|k: usize| #![trigger even_bit(z, k)] k < 16 ==> ((even_bit(z, k) == bit(xl, k)) && (odd_bit(z, k) == bit(yl, k)))) by (bit_vector)
        requires
            z == spread(x) | (spread(y) << 1),
            xl == x & 0xffff,
            yl == y & 0xffff,
    ;
}

proof fn lemma_gather_is_coords(z: usize)
    ensures
        is_morton_code(z & 0xffff_ffff, gather(z), gather(z >> 1)),
{
    let zl = z & 0xffff_ffff;
    let x = gather(z);
    let y = gather(z >> 1);
    assert(x < 0x1_0000 && y < 0x1_0000 && zl <= 0xffff_ffff) by (bit_vector)
        requires
            zl == z & 0xffff_ffff,
            x == gather(z),
            y == gather(z >> 1),
    ;
    assert(forall|k: usize| #![trigger even_bit(zl, k)] k < 16 ==> ((even_bit(zl, k) == bit(x, k)) && (odd_bit(zl, k) == bit(y, k)))) by (bit_vector)
        requires
            zl == z & 0xffff_ffff,
            x == gather(z),
            y == gather(z >> 1),
    ;
}

proof fn lemma_code_bits_agree(z1: usize, z2: usize)
    by (bit_vector)
    requires
        z1 <= 0xffff_ffff,
        z2 <= 0xffff_ffff,
            even_bit(z1, 0) == even_bit(z2, 0), odd_bit(z1, 0) == odd_bit(z2, 0),
            even_bit(z1, 1) == even_bit(z2, 1), odd_bit(z1, 1) == odd_bit(z2, 1),
            even_bit(z1, 2) == even_bit(z2, 2), odd_bit(z1, 2) == odd_bit(z2, 2),
            even_bit(z1, 3) == even_bit(z2, 3), odd_bit(z1, 3) == odd_bit(z2, 3),
            even_bit(z1, 4) == even_bit(z2, 4), odd_bit(z1, 4) == odd_bit(z2, 4),
            even_bit(z1, 5) == even_bit(z2, 5), odd_bit(z1, 5) == odd_bit(z2, 5),
            even_bit(z1, 6) == even_bit(z2, 6), odd_bit(z1, 6) == odd_bit(z2, 6),
            even_bit(z1, 7) == even_bit(z2, 7), odd_bit(z1, 7) == odd_bit(z2, 7),
            even_bit(z1, 8) == even_bit(z2, 8), odd_bit(z1, 8) == odd_bit(z2, 8),
            even_bit(z1, 9) == even_bit(z2, 9), odd_bit(z1, 9) == odd_bit(z2, 9),
            even_bit(z1, 10) == even_bit(z2, 10), odd_bit(z1, 10) == odd_bit(z2, 10),
            even_bit(z1, 11) == even_bit(z2, 11), odd_bit(z1, 11) == odd_bit(z2, 11),
            even_bit(z1, 12) == even_bit(z2, 12), odd_bit(z1, 12) == odd_bit(z2, 12),
            even_bit(z1, 13) == even_bit(z2, 13), odd_bit(z1, 13) == odd_bit(z2, 13),
            even_bit(z1, 14) == even_bit(z2, 14), odd_bit(z1, 14) == odd_bit(z2, 14),
            even_bit(z1, 15) == even_bit(z2, 15), odd_bit(z1, 15) == odd_bit(z2, 15),
    ensures
        z1 == z2,
{
}

proof fn lemma_coord_bits_agree(x1: usize, y1: usize, x2: usize, y2: usize)
    by (bit_vector)
    requires
        x1 < 0x1_0000,
        y1 < 0x1_0000,
        x2 < 0x1_0000,
        y2 < 0x1_0000,
            bit(x1, 0) == bit(x2, 0), bit(y1, 0) == bit(y2, 0),
            bit(x1, 1) == bit(x2, 1), bit(y1, 1) == bit(y2, 1),
            bit(x1, 2) == bit(x2, 2), bit(y1, 2) == bit(y2, 2),
            bit(x1, 3) == bit(x2, 3), bit(y1, 3) == bit(y2, 3),
            bit(x1, 4) == bit(x2, 4), bit(y1, 4) == bit(y2, 4),
            bit(x1, 5) == bit(x2, 5), bit(y1, 5) == bit(y2, 5),
            bit(x1, 6) == bit(x2, 6), bit(y1, 6) == bit(y2, 6),
            bit(x1, 7) == bit(x2, 7), bit(y1, 7) == bit(y2, 7),
            bit(x1, 8) == bit(x2, 8), bit(y1, 8) == bit(y2, 8),
            bit(x1, 9) == bit(x2, 9), bit(y1, 9) == bit(y2, 9),
            bit(x1, 10) == bit(x2, 10), bit(y1, 10) == bit(y2, 10),
            bit(x1, 11) == bit(x2, 11), bit(y1, 11) == bit(y2, 11),
            bit(x1, 12) == bit(x2, 12), bit(y1, 12) == bit(y2, 12),
            bit(x1, 13) == bit(x2, 13), bit(y1, 13) == bit(y2, 13),
            bit(x1, 14) == bit(x2, 14), bit(y1, 14) == bit(y2, 14),
            bit(x1, 15) == bit(x2, 15), bit(y1, 15) == bit(y2, 15),
    ensures
        x1 == x2,
        y1 == y2,
{
}

proof fn lemma_code_bit(z: usize, x: usize, y: usize, k: usize)
    requires
        is_morton_code(z, x, y),
        k < 16,
    ensures
        even_bit(z, k) == bit(x, k),
        odd_bit(z, k) == bit(y, k),
{
}

/// A point has a single Morton code.
pub proof fn lemma_code_unique(z1: usize, z2: usize, x: usize, y: usize)
    requires
        is_morton_code(z1, x, y),
        is_morton_code(z2, x, y),
    ensures
        z1 == z2,
{
    lemma_code_bit(z1, x, y, 0);
    lemma_code_bit(z2, x, y, 0);
    lemma_code_bit(z1, x, y, 1);
    lemma_code_bit(z2, x, y, 1);
    lemma_code_bit(z1, x, y, 2);
    lemma_code_bit(z2, x, y, 2);
    lemma_code_bit(z1, x, y, 3);
    lemma_code_bit(z2, x, y, 3);
    lemma_code_bit(z1, x, y, 4);
    lemma_code_bit(z2, x, y, 4);
    lemma_code_bit(z1, x, y, 5);
    lemma_code_bit(z2, x, y, 5);
    lemma_code_bit(z1, x, y, 6);
    lemma_code_bit(z2, x, y, 6);
    lemma_code_bit(z1, x, y, 7);
    lemma_code_bit(z2, x, y, 7);
    lemma_code_bit(z1, x, y, 8);
    lemma_code_bit(z2, x, y, 8);
    lemma_code_bit(z1, x, y, 9);
    lemma_code_bit(z2, x, y, 9);
    lemma_code_bit(z1, x, y, 10);
    lemma_code_bit(z2, x, y, 10);
    lemma_code_bit(z1, x, y, 11);
    lemma_code_bit(z2, x, y, 11);
    lemma_code_bit(z1, x, y, 12);
    lemma_code_bit(z2, x, y, 12);
    lemma_code_bit(z1, x, y, 13);
    lemma_code_bit(z2, x, y, 13);
    lemma_code_bit(z1, x, y, 14);
    lemma_code_bit(z2, x, y, 14);
    lemma_code_bit(z1, x, y, 15);
    lemma_code_bit(z2, x, y, 15);
    lemma_code_bits_agree(z1, z2);
}

/// A Morton code belongs to a single point.
pub proof fn lemma_coords_unique(z: usize, x1: usize, y1: usize, x2: usize, y2: usize)
    requires
        is_morton_code(z, x1, y1),
        is_morton_code(z, x2, y2),
    ensures
        x1 == x2,
        y1 == y2,
{
    lemma_code_bit(z, x1, y1, 0);
    lemma_code_bit(z, x2, y2, 0);
    lemma_code_bit(z, x1, y1, 1);
    lemma_code_bit(z, x2, y2, 1);
    lemma_code_bit(z, x1, y1, 2);
    lemma_code_bit(z, x2, y2, 2);
    lemma_code_bit(z, x1, y1, 3);
    lemma_code_bit(z, x2, y2, 3);
    lemma_code_bit(z, x1, y1, 4);
    lemma_code_bit(z, x2, y2, 4);
    lemma_code_bit(z, x1, y1, 5);
    lemma_code_bit(z, x2, y2, 5);
    lemma_code_bit(z, x1, y1, 6);
    lemma_code_bit(z, x2, y2, 6);
    lemma_code_bit(z, x1, y1, 7);
    lemma_code_bit(z, x2, y2, 7);
    lemma_code_bit(z, x1, y1, 8);
    lemma_code_bit(z, x2, y2, 8);
    lemma_code_bit(z, x1, y1, 9);
    lemma_code_bit(z, x2, y2, 9);
    lemma_code_bit(z, x1, y1, 10);
    lemma_code_bit(z, x2, y2, 10);
    lemma_code_bit(z, x1, y1, 11);
    lemma_code_bit(z, x2, y2, 11);
    lemma_code_bit(z, x1, y1, 12);
    lemma_code_bit(z, x2, y2, 12);
    lemma_code_bit(z, x1, y1, 13);
    lemma_code_bit(z, x2, y2, 13);
    lemma_code_bit(z, x1, y1, 14);
    lemma_code_bit(z, x2, y2, 14);
    lemma_code_bit(z, x1, y1, 15);
    lemma_code_bit(z, x2, y2, 15);
    lemma_coord_bits_agree(x1, y1, x2, y2);
}

proof fn lemma_morton_code_closed(x: usize, y: usize)
    ensures
        morton_code(x, y) == spread(x) | (spread(y) << 1),
        is_morton_code(morton_code(x, y), x & 0xffff, y & 0xffff),
{
    lemma_spread_is_code(x, y);
    let z = morton_code(x, y);
    lemma_code_unique(z, spread(x) | (spread(y) << 1), x & 0xffff, y & 0xffff);
}

proof fn lemma_morton_coords_closed(z: usize)
    ensures
        morton_coords(z) == (gather(z), gather(z >> 1)),
        is_morton_code(z & 0xffff_ffff, morton_coords(z).0, morton_coords(z).1),
{
    lemma_gather_is_coords(z);
    let p = morton_coords(z);
    lemma_coords_unique(z & 0xffff_ffff, p.0, p.1, gather(z), gather(z >> 1));
}

/// Every pair of coordinates has a Morton code, made of their 16 low bits.
pub proof fn lemma_morton_code_defined(x: usize, y: usize)
    ensures
        is_morton_code(morton_code(x, y), x & 0xffff, y & 0xffff),
{
    lemma_morton_code_closed(x, y);
}

/// Every index has coordinates: those of its 32 low bits.
pub proof fn lemma_morton_coords_defined(z: usize)
    ensures
        is_morton_code(z & 0xffff_ffff, morton_coords(z).0, morton_coords(z).1),
{
    lemma_morton_coords_closed(z);
}

/// Decoding the code of a point gives the point back.
pub proof fn lemma_decode_encode(x: usize, y: usize)
    requires
        x < 0x1_0000,
        y < 0x1_0000,
    ensures
        morton_coords(morton_code(x, y)) == (x, y),
{
    lemma_morton_code_closed(x, y);
    let z = morton_code(x, y);
    assert(x & 0xffff == x && y & 0xffff == y && z & 0xffff_ffff == z) by (bit_vector)
        requires
            x < 0x1_0000,
            y < 0x1_0000,
            z <= 0xffff_ffff,
    ;
    lemma_morton_coords_closed(z);
    lemma_coords_unique(z, x, y, morton_coords(z).0, morton_coords(z).1);
}

/// Encoding the coordinates of an index of 32 bits gives the index back.
pub proof fn lemma_encode_decode(z: usize)
    requires
        z <= 0xffff_ffff,
    ensures
        morton_code(morton_coords(z).0, morton_coords(z).1) == z,
{
    lemma_morton_coords_closed(z);
    let (x, y) = morton_coords(z);
    assert(x & 0xffff == x && y & 0xffff == y && z & 0xffff_ffff == z) by (bit_vector)
        requires
            x < 0x1_0000,
            y < 0x1_0000,
            z <= 0xffff_ffff,
    ;
    lemma_morton_code_closed(x, y);
    lemma_code_unique(morton_code(x, y), z, x, y);
}

/// Two distinct points of 16-bit coordinates have distinct codes.
pub proof fn lemma_morton_code_injective(x1: usize, y1: usize, x2: usize, y2: usize)
    requires
        x1 < 0x1_0000,
        y1 < 0x1_0000,
        x2 < 0x1_0000,
        y2 < 0x1_0000,
        morton_code(x1, y1) == morton_code(x2, y2),
    ensures
        x1 == x2,
        y1 == y2,
{
    lemma_decode_encode(x1, y1);
    lemma_decode_encode(x2, y2);
}

/// A point with `x < 2^kx` and `y < 2^ky`, where `ky <= kx <= ky + 1`, has a
/// code below `2^(kx + ky)`: the points of such a rectangle fill exactly the
/// first `2^(kx + ky)` indices.
pub proof fn lemma_morton_code_bound(x: usize, y: usize, kx: usize, ky: usize)
    requires
        ky <= kx <= ky + 1,
        kx + ky < 32,
        x < (1usize << kx),
        y < (1usize << ky),
    ensures
        morton_code(x, y) < (1usize << (kx + ky)),
{
    lemma_morton_code_closed(x, y);
    assert((spread(x) | (spread(y) << 1)) < (1usize << (kx + ky))) by (bit_vector)
        requires
            ky <= kx <= ky + 1,
            kx + ky < 32,
            x < (1usize << kx),
            y < (1usize << ky),
    ;
}

/// A point of 16-bit coordinates whose code is below `4^k` lies in the
/// square `2^k` by `2^k`.
pub proof fn lemma_morton_code_below_square(x: usize, y: usize, k: usize)
    requires
        x < 0x1_0000,
        y < 0x1_0000,
        k <= 15,
        morton_code(x, y) < (1usize << (2 * k)),
    ensures
        x < (1usize << k),
        y < (1usize << k),
{
    lemma_morton_code_closed(x, y);
    let z = spread(x) | (spread(y) << 1);
    assert(x < (1usize << k) && y < (1usize << k)) by (bit_vector)
        requires
            x < 0x1_0000,
            y < 0x1_0000,
            k <= 15,
            z == spread(x) | (spread(y) << 1),
            z < (1usize << (2 * k)),
    ;
}

/// Conversely, an index below `2^(kx + ky)`, where `ky <= kx <= ky + 1`,
/// decodes to a point with `x < 2^kx` and `y < 2^ky`, and has no bit above
/// bit 31.
pub proof fn lemma_morton_coords_bound(z: usize, kx: usize, ky: usize)
    requires
        ky <= kx <= ky + 1,
        kx + ky < 32,
        z < (1usize << (kx + ky)),
    ensures
        morton_coords(z).0 < (1usize << kx),
        morton_coords(z).1 < (1usize << ky),
        z <= 0xffff_ffff,
{
    lemma_morton_coords_closed(z);
    assert(gather(z) < (1usize << kx) && gather(z >> 1) < (1usize << ky) && z <= 0xffff_ffff) by (bit_vector)
        requires
            ky <= kx <= ky + 1,
            kx + ky < 32,
            z < (1usize << (kx + ky)),
    ;
}

/// Spreads the 16 low bits of `n` over the even bit positions.
fn part1by1(n: usize) -> (r: usize)
    ensures
        r == spread(n),
        r <= 0x5555_5555,
        forall|k: usize| #![trigger even_bit(r, k)] k < 16 ==> ((even_bit(r, k) == bit(n, k)) && !odd_bit(r, k)),
{
    let mut m = n;
    m &= 0x0000ffff;
    m = (m | (m << 8)) & 0x00ff00ff;
    m = (m | (m << 4)) & 0x0f0f0f0f;
    m = (m | (m << 2)) & 0x33333333;
    m = (m | (m << 1)) & 0x55555555;
    proof {
        assert(m <= 0x5555_5555 && forall|k: usize| #![trigger even_bit(m, k)] k < 16 ==> ((even_bit(m, k) == bit(n, k)) && !odd_bit(m, k))) by (bit_vector)
            requires m == spread(n);
    }
    m
}

/// Gathers the even bits of `n` into its 16 low bits.
fn compact1by1(n: usize) -> (r: usize)
    ensures
        r == gather(n),
        r < 0x1_0000,
        forall|k: usize| #![trigger bit(r, k)] k < 16 ==> bit(r, k) == even_bit(n, k),
{
    let mut m = n;
    m &= 0x55555555;
    m = (m | (m >> 1)) & 0x33333333;
    m = (m | (m >> 2)) & 0x0f0f0f0f;
    m = (m | (m >> 4)) & 0x00ff00ff;
    m = (m | (m >> 8)) & 0x0000ffff;
    proof {
        assert(m < 0x1_0000 && forall|k: usize| #![trigger bit(m, k)] k < 16 ==> bit(m, k) == even_bit(n, k)) by (bit_vector)
            requires m == gather(n);
    }
    m
}

/// Encodes the point `(x, y)` into its Morton index (16 low bits of each
/// coordinate are kept).
pub fn morton_encode(x: usize, y: usize) -> (z: usize)
    ensures
        z == morton_code(x, y),
{
    let z = part1by1(x) | (part1by1(y) << 1);
    proof {
        lemma_morton_code_closed(x, y);
    }
    z
}

/// Decodes a Morton index (its 32 low bits) into the point `(x, y)`.
pub fn morton_decode(z: usize) -> (p: (usize, usize))
    ensures
        p == morton_coords(z),
{
    let p = (compact1by1(z), compact1by1(z >> 1));
    proof {
        lemma_morton_coords_closed(z);
    }
    p
}

} // verus!
