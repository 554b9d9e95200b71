//! The pure parts of the multi-dimensional list that holds the edges of a
//! vertex: the tag bits on its child pointers and the coordinates of a key.

use vstd::prelude::*;

verus! {

/// Number of coordinates of a key, two bits each.
pub const DIMENSION: usize = 16;

/// Sets the adoption-invalid bit (bit 0), leaving the other bits.
pub fn set_adpinv(p: usize) -> (r: usize)
    ensures
        r % 2 == 1,
        r / 2 == p / 2,
{
    assert((p | 1) % 2 == 1 && (p | 1) / 2 == p / 2) by (bit_vector);
    p | 1
}

/// Clears the adoption-invalid bit, leaving the other bits.
pub fn clr_adpinv(p: usize) -> (r: usize)
    ensures
        r % 2 == 0,
        r / 2 == p / 2,
{
    assert((p & !1usize) % 2 == 0 && (p & !1usize) / 2 == p / 2) by (bit_vector);
    p & !1
}

/// The adoption-invalid bit, as `0` or `1`.
pub fn is_adpinv(p: usize) -> (r: usize)
    ensures
        r == p % 2,
{
    assert(p & 1 == p % 2) by (bit_vector);
    p & 1
}

/// Sets the deletion-invalid bit (bit 1), leaving the other bits.
pub fn set_delinv(p: usize) -> (r: usize)
    ensures
        (r / 2) % 2 == 1,
        r % 2 == p % 2,
        r / 4 == p / 4,
{
    assert(((p | 2) / 2) % 2 == 1 && (p | 2) % 2 == p % 2 && (p | 2) / 4 == p / 4) by (bit_vector);
    p | 2
}

/// Clears the deletion-invalid bit, leaving the other bits.
pub fn clr_delinv(p: usize) -> (r: usize)
    ensures
        (r / 2) % 2 == 0,
        r % 2 == p % 2,
        r / 4 == p / 4,
{
    assert(((p & !2usize) / 2) % 2 == 0 && (p & !2usize) % 2 == p % 2 && (p & !2usize) / 4 == p / 4)
        by (bit_vector);
    p & !2
}

/// The deletion-invalid bit, as `0` or `2`.
pub fn is_delinv(p: usize) -> (r: usize)
    ensures
        r == (p / 2) % 2 * 2,
{
    assert(p & 2 == (p / 2) % 2 * 2) by (bit_vector);
    p & 2
}

/// The pointer with both tag bits cleared.
pub fn clr_invalid(p: usize) -> (r: usize)
    ensures
        r == p - p % 4,
{
    assert(p & !3usize == p - p % 4) by (bit_vector);
    p & !3
}

/// Both tag bits, as a number below 4.
pub fn is_invalid(p: usize) -> (r: usize)
    ensures
        r == p % 4,
{
    assert(p & 3 == p % 4) by (bit_vector);
    p & 3
}

/// What the search for a key's predecessor found.
pub enum LocatePredStatus {
    Found,
    LogicallyDeleted,
}

/// The coordinates `key_to_coord` gives `key`: its low 32 bits in pairs,
/// most significant first.
pub open spec fn coords(key: usize) -> Seq<usize> {
    seq![
        (key >> 30usize) & 3, (key >> 28usize) & 3, (key >> 26usize) & 3, (key >> 24usize) & 3,
        (key >> 22usize) & 3, (key >> 20usize) & 3, (key >> 18usize) & 3, (key >> 16usize) & 3,
        (key >> 14usize) & 3, (key >> 12usize) & 3, (key >> 10usize) & 3, (key >> 8usize) & 3,
        (key >> 6usize) & 3, (key >> 4usize) & 3, (key >> 2usize) & 3, key & 3,
    ]
}

/// The number whose base-4 digits, most significant first, are the
/// sixteen coordinates `c`.
pub open spec fn from_coords(c: Seq<usize>) -> int {
    c[0] * 0x4000_0000 + c[1] * 0x1000_0000 + c[2] * 0x400_0000 + c[3] * 0x100_0000 + c[4]
        * 0x40_0000 + c[5] * 0x10_0000 + c[6] * 0x4_0000 + c[7] * 0x1_0000 + c[8] * 0x4000 + c[9]
        * 0x1000 + c[10] * 0x400 + c[11] * 0x100 + c[12] * 0x40 + c[13] * 0x10 + c[14] * 0x4
        + c[15]
}

/// The coordinates of `key` in the list.
pub fn key_to_coord(key: usize) -> (coord: [usize; DIMENSION])
    ensures
        coord@ == coords(key),
{
    assert(
        (key & (0x3usize << 30usize)) >> 30usize == (key >> 30usize) & 3
        && (key & (0x3usize << 28usize)) >> 28usize == (key >> 28usize) & 3
        && (key & (0x3usize << 26usize)) >> 26usize == (key >> 26usize) & 3
        && (key & (0x3usize << 24usize)) >> 24usize == (key >> 24usize) & 3
        && (key & (0x3usize << 22usize)) >> 22usize == (key >> 22usize) & 3
        && (key & (0x3usize << 20usize)) >> 20usize == (key >> 20usize) & 3
        && (key & (0x3usize << 18usize)) >> 18usize == (key >> 18usize) & 3
        && (key & (0x3usize << 16usize)) >> 16usize == (key >> 16usize) & 3
        && (key & (0x3usize << 14usize)) >> 14usize == (key >> 14usize) & 3
        && (key & (0x3usize << 12usize)) >> 12usize == (key >> 12usize) & 3
        && (key & (0x3usize << 10usize)) >> 10usize == (key >> 10usize) & 3
        && (key & (0x3usize << 8usize)) >> 8usize == (key >> 8usize) & 3
        && (key & (0x3usize << 6usize)) >> 6usize == (key >> 6usize) & 3
        && (key & (0x3usize << 4usize)) >> 4usize == (key >> 4usize) & 3
        && (key & (0x3usize << 2usize)) >> 2usize == (key >> 2usize) & 3
    ) by (bit_vector);
    let coord: [usize; DIMENSION] = [
        (key & (0x3 << 30)) >> 30,
        (key & (0x3 << 28)) >> 28,
        (key & (0x3 << 26)) >> 26,
        (key & (0x3 << 24)) >> 24,
        (key & (0x3 << 22)) >> 22,
        (key & (0x3 << 20)) >> 20,
        (key & (0x3 << 18)) >> 18,
        (key & (0x3 << 16)) >> 16,
        (key & (0x3 << 14)) >> 14,
        (key & (0x3 << 12)) >> 12,
        (key & (0x3 << 10)) >> 10,
        (key & (0x3 << 8)) >> 8,
        (key & (0x3 << 6)) >> 6,
        (key & (0x3 << 4)) >> 4,
        (key & (0x3 << 2)) >> 2,
        key & 0x3,
    ];
    assert(coord@ =~= coords(key));
    coord
}

/// Keys below `2^32` are told apart by their coordinates: reading the
/// coordinates as base-4 digits gives the key back.
pub proof fn lemma_coords_determine_key(key: usize)
    requires
        key < 0x1_0000_0000,
    ensures
        from_coords(coords(key)) == key,
{
    assert(key == ((key >> 30usize) & 3) * 0x4000_0000 + ((key >> 28usize) & 3) * 0x1000_0000
        + ((key >> 26usize) & 3) * 0x400_0000 + ((key >> 24usize) & 3) * 0x100_0000 + ((key
        >> 22usize) & 3) * 0x40_0000 + ((key >> 20usize) & 3) * 0x10_0000 + ((key >> 18usize) & 3)
        * 0x4_0000 + ((key >> 16usize) & 3) * 0x1_0000 + ((key >> 14usize) & 3) * 0x4000 + ((key
        >> 12usize) & 3) * 0x1000 + ((key >> 10usize) & 3) * 0x400 + ((key >> 8usize) & 3) * 0x100
        + ((key >> 6usize) & 3) * 0x40 + ((key >> 4usize) & 3) * 0x10 + ((key >> 2usize) & 3) * 0x4
        + (key & 3)) by (bit_vector)
        requires
            key < 0x1_0000_0000,
    ;
}


/// The value of the first `k` digits of `c` read in base 4, most
/// significant first.
pub open spec fn digits_value(c: Seq<usize>, k: int) -> int
    decreases k,
{
    if k <= 0 {
        0
    } else {
        4 * digits_value(c, k - 1) + c[k - 1]
    }
}

/// `c` and `d` agree on their first `k` entries.
pub open spec fn prefix_eq(c: Seq<usize>, d: Seq<usize>, k: int) -> bool
    decreases k,
{
    k <= 0 || (prefix_eq(c, d, k - 1) && c[k - 1] == d[k - 1])
}

/// `c` comes before `d` in lexicographic order on their first `k`
/// entries: at the first entry where they differ, `c`'s is smaller.
pub open spec fn lex_less(c: Seq<usize>, d: Seq<usize>, k: int) -> bool
    decreases k,
{
    k > 0 && (lex_less(c, d, k - 1) || (prefix_eq(c, d, k - 1) && c[k - 1] < d[k - 1]))
}

/// Every one of the first `k` entries of `c` is a base-4 digit.
pub open spec fn base4_digits(c: Seq<usize>, k: int) -> bool {
    forall|i: int| 0 <= i < k ==> #[trigger] c[i] < 4
}

/// On base-4 digits, lexicographic order is the order of the numbers the
/// digits spell, and agreeing digits spell the same number.
proof fn lemma_digits_order(c: Seq<usize>, d: Seq<usize>, k: int)
    requires
        0 <= k,
        base4_digits(c, k),
        base4_digits(d, k),
    ensures
        lex_less(c, d, k) <==> digits_value(c, k) < digits_value(d, k),
        prefix_eq(c, d, k) <==> digits_value(c, k) == digits_value(d, k),
    decreases k,
{
    if k > 0 {
        lemma_digits_order(c, d, k - 1);
        lemma_digits_order(d, c, k - 1);
        assert(c[k - 1] < 4 && d[k - 1] < 4);
    }
}

/// The sixteen coordinates spell their number digit by digit.
proof fn lemma_from_coords_digits(c: Seq<usize>)
    ensures
        from_coords(c) == digits_value(c, 16),
{
    reveal_with_fuel(digits_value, 17);
}

/// For every key, the coordinates are base-4 digits and spell the key's
/// low 32 bits.
pub proof fn lemma_coords_low_bits(key: usize)
    ensures
        base4_digits(coords(key), 16),
        from_coords(coords(key)) == key as nat % 0x1_0000_0000,
{
    assert(key as nat % 0x1_0000_0000 == ((key >> 30usize) & 3) * 0x4000_0000 + ((key >> 28usize) & 3)
        * 0x1000_0000 + ((key >> 26usize) & 3) * 0x400_0000 + ((key >> 24usize) & 3) * 0x100_0000
        + ((key >> 22usize) & 3) * 0x40_0000 + ((key >> 20usize) & 3) * 0x10_0000 + ((key
        >> 18usize) & 3) * 0x4_0000 + ((key >> 16usize) & 3) * 0x1_0000 + ((key >> 14usize) & 3)
        * 0x4000 + ((key >> 12usize) & 3) * 0x1000 + ((key >> 10usize) & 3) * 0x400 + ((key
        >> 8usize) & 3) * 0x100 + ((key >> 6usize) & 3) * 0x40 + ((key >> 4usize) & 3) * 0x10
        + ((key >> 2usize) & 3) * 0x4 + (key & 3)) by (bit_vector);
    assert forall|i: int| 0 <= i < 16 implies #[trigger] coords(key)[i] < 4 by {
        assert(forall|x: usize| #[trigger] (x & 3) < 4) by (bit_vector);
    }
}

/// Keys below `2^32` are ordered as their coordinates are, read
/// lexicographically.
#[verifier::spinoff_prover]
pub proof fn lemma_coords_order(a: usize, b: usize)
    requires
        a < 0x1_0000_0000,
        b < 0x1_0000_0000,
    ensures
        a < b <==> lex_less(coords(a), coords(b), 16),
        a == b <==> prefix_eq(coords(a), coords(b), 16),
{
    let ca = coords(a);
    let cb = coords(b);
    lemma_coords_low_bits(a);
    lemma_coords_low_bits(b);
    vstd::arithmetic::div_mod::lemma_small_mod(a as nat, 0x1_0000_0000);
    vstd::arithmetic::div_mod::lemma_small_mod(b as nat, 0x1_0000_0000);
    lemma_from_coords_digits(ca);
    lemma_from_coords_digits(cb);
    assert(digits_value(ca, 16) == a && digits_value(cb, 16) == b);
    lemma_digits_order(ca, cb, 16);
}

} // verus!
