//! Bit-level addressing over a 256-bit big-endian key.
//!
//! Reading the key from its most-significant bit down gives the branching
//! decisions taken when descending from the root (depth 0) to a leaf
//! (depth 256). The bit consumed when moving from depth `d - 1` to depth `d`
//! is bit number `256 - d`, counting bit 0 as least-significant and bit 255
//! as most-significant: in the big-endian 32-byte key, bit number `b` lives
//! in byte `31 - b / 8` under the mask `1 << (b % 8)`.

use vstd::prelude::*;

verus! {

/// The byte of a 32-byte big-endian address that holds the bit consumed at
/// `depth`: bit number `256 - depth`, with bit 0 the least-significant.
pub open spec fn byte_index(depth: int) -> int {
    31 - (256 - depth) / 8
}

/// How far the mask of the bit consumed at `depth` is shifted within its
/// byte, counting from the byte's least-significant bit.
pub open spec fn bit_shift(depth: int) -> u8 {
    (((256 - depth) % 8) as u8)
}

/// The single-bit mask, within its byte, of the bit consumed at `depth`.
pub open spec fn bit_mask(depth: int) -> u8 {
    1u8 << bit_shift(depth)
}

/// The branching bit consumed at `depth`: true means the node at `depth` on
/// this address's path is a right child.
pub open spec fn addr_bit(addr: Seq<u8>, depth: int) -> bool {
    addr[byte_index(depth)] & bit_mask(depth) != 0
}

/// The address with the bit consumed at `depth` cleared: where the parent of
/// the node at `depth` stands.
pub open spec fn parent_addr(addr: Seq<u8>, depth: int) -> Seq<u8> {
    addr.update(byte_index(depth), addr[byte_index(depth)] & !bit_mask(depth))
}

/// The address with the bit consumed at `depth` flipped: where the sibling of
/// the node at `depth` stands.
pub open spec fn sibling_addr(addr: Seq<u8>, depth: int) -> Seq<u8> {
    addr.update(byte_index(depth), addr[byte_index(depth)] ^ bit_mask(depth))
}

/// The canonical address of the ancestor at `depth` of the leaf at `addr`:
/// every bit consumed deeper than `depth` is cleared, one per ascent step.
pub open spec fn path_addr(addr: Seq<u8>, depth: int) -> Seq<u8>
    decreases 256 - depth,
{
    if depth >= 256 {
        addr
    } else {
        parent_addr(path_addr(addr, depth + 1), depth + 1)
    }
}

/// The address of the sibling, at `depth`, of the path from the leaf at
/// `addr` up to the root.
pub open spec fn sib_addr(addr: Seq<u8>, depth: int) -> Seq<u8> {
    sibling_addr(path_addr(addr, depth), depth)
}

/// The all-zero address: the root's canonical address.
pub open spec fn zero_addr() -> Seq<u8> {
    Seq::new(32, |i: int| 0u8)
}

/// A depth at which a branching bit exists: leaf level down to the root's
/// children.
pub open spec fn branch_depth(depth: int) -> bool {
    1 <= depth <= 256
}

proof fn lemma_shift_range(depth: int)
    requires
        branch_depth(depth),
    ensures
        bit_shift(depth) < 8,
        0 <= byte_index(depth) < 32,
        (31 - byte_index(depth)) * 8 + bit_shift(depth) == 256 - depth,
{
    let b = 256 - depth;
    assert(0 <= b < 256);
    assert(b == (b / 8) * 8 + b % 8);
    assert(0 <= b % 8 < 8);
    assert(0 <= b / 8 < 32);
}

/// Distinct branch depths that share a byte use distinct shifts.
proof fn lemma_distinct_shifts(d1: int, d2: int)
    requires
        branch_depth(d1),
        branch_depth(d2),
        d1 != d2,
        byte_index(d1) == byte_index(d2),
    ensures
        bit_shift(d1) != bit_shift(d2),
        bit_shift(d1) < 8,
        bit_shift(d2) < 8,
{
    lemma_shift_range(d1);
    lemma_shift_range(d2);
}

/// Clearing one bit of a byte: that bit reads zero, the others are untouched.
proof fn lemma_byte_clear(x: u8, s1: u8, s2: u8)
    requires
        s1 < 8,
        s2 < 8,
    ensures
        (x & !(1u8 << s1)) & (1u8 << s1) == 0,
        s1 != s2 ==> ((x & !(1u8 << s1)) & (1u8 << s2)) == (x & (1u8 << s2)),
        x & (1u8 << s1) == 0 ==> (x & !(1u8 << s1)) == x,
{
    assert((x & !(1u8 << s1)) & (1u8 << s1) == 0) by (bit_vector);
    assert(s1 != s2 && s1 < 8 && s2 < 8 ==> ((x & !(1u8 << s1)) & (1u8 << s2)) == (x & (
    1u8 << s2))) by (bit_vector);
    assert(x & (1u8 << s1) == 0 ==> (x & !(1u8 << s1)) == x) by (bit_vector);
}

/// Flipping one bit of a byte: that bit inverts, the others are untouched.
proof fn lemma_byte_flip(x: u8, s1: u8, s2: u8)
    requires
        s1 < 8,
        s2 < 8,
    ensures
        ((x ^ (1u8 << s1)) & (1u8 << s1) != 0) == (x & (1u8 << s1) == 0),
        s1 != s2 ==> ((x ^ (1u8 << s1)) & (1u8 << s2)) == (x & (1u8 << s2)),
        (x ^ (1u8 << s1)) & !(1u8 << s1) == x & !(1u8 << s1),
        x & (1u8 << s1) != 0 ==> ((x & !(1u8 << s1)) ^ (1u8 << s1)) == x,
        x & (1u8 << s1) != 0 ==> (x ^ (1u8 << s1)) == (x & !(1u8 << s1)),
{
    assert(s1 < 8 ==> ((x ^ (1u8 << s1)) & (1u8 << s1) != 0) == (x & (1u8 << s1)
        == 0)) by (bit_vector);
    assert(s1 != s2 && s1 < 8 && s2 < 8 ==> ((x ^ (1u8 << s1)) & (1u8 << s2)) == (x & (
    1u8 << s2))) by (bit_vector);
    assert((x ^ (1u8 << s1)) & !(1u8 << s1) == x & !(1u8 << s1)) by (bit_vector);
    assert(s1 < 8 && x & (1u8 << s1) != 0 ==> ((x & !(1u8 << s1)) ^ (1u8 << s1))
        == x) by (bit_vector);
    assert(s1 < 8 && x & (1u8 << s1) != 0 ==> (x ^ (1u8 << s1)) == (x & !(1u8
        << s1))) by (bit_vector);
}

/// What clearing the bit at `d` does to every branching bit of the address.
pub proof fn lemma_parent_addr(a: Seq<u8>, d: int)
    requires
        a.len() == 32,
        branch_depth(d),
    ensures
        parent_addr(a, d).len() == 32,
        !addr_bit(parent_addr(a, d), d),
        forall|e: int|
            branch_depth(e) && e != d ==> #[trigger] addr_bit(parent_addr(a, d), e) == addr_bit(
                a,
                e,
            ),
{
    lemma_shift_range(d);
    let p = parent_addr(a, d);
    lemma_byte_clear(a[byte_index(d)], bit_shift(d), bit_shift(d));
    assert forall|e: int| branch_depth(e) && e != d implies #[trigger] addr_bit(p, e) == addr_bit(
        a,
        e,
    ) by {
        lemma_shift_range(e);
        if byte_index(e) == byte_index(d) {
            lemma_distinct_shifts(d, e);
            lemma_byte_clear(a[byte_index(d)], bit_shift(d), bit_shift(e));
        }
    }
}

/// What flipping the bit at `d` does to every branching bit of the address.
pub proof fn lemma_sibling_addr(a: Seq<u8>, d: int)
    requires
        a.len() == 32,
        branch_depth(d),
    ensures
        sibling_addr(a, d).len() == 32,
        addr_bit(sibling_addr(a, d), d) == !addr_bit(a, d),
        forall|e: int|
            branch_depth(e) && e != d ==> #[trigger] addr_bit(sibling_addr(a, d), e) == addr_bit(
                a,
                e,
            ),
        sibling_addr(a, d) != a,
{
    lemma_shift_range(d);
    let p = sibling_addr(a, d);
    lemma_byte_flip(a[byte_index(d)], bit_shift(d), bit_shift(d));
    assert forall|e: int| branch_depth(e) && e != d implies #[trigger] addr_bit(p, e) == addr_bit(
        a,
        e,
    ) by {
        lemma_shift_range(e);
        if byte_index(e) == byte_index(d) {
            lemma_distinct_shifts(d, e);
            lemma_byte_flip(a[byte_index(d)], bit_shift(d), bit_shift(e));
        }
    }
    assert(addr_bit(p, d) != addr_bit(a, d));
}

/// Ascending from a node or from its sibling lands on the same parent.
pub proof fn lemma_parent_of_sibling(a: Seq<u8>, d: int)
    requires
        a.len() == 32,
        branch_depth(d),
    ensures
        parent_addr(sibling_addr(a, d), d) == parent_addr(a, d),
{
    lemma_shift_range(d);
    let i = byte_index(d);
    lemma_byte_flip(a[i], bit_shift(d), bit_shift(d));
    assert(parent_addr(sibling_addr(a, d), d) =~= parent_addr(a, d));
}

/// Clearing a bit that is already zero changes nothing.
pub proof fn lemma_parent_noop(a: Seq<u8>, d: int)
    requires
        a.len() == 32,
        branch_depth(d),
        !addr_bit(a, d),
    ensures
        parent_addr(a, d) == a,
{
    lemma_shift_range(d);
    lemma_byte_clear(a[byte_index(d)], bit_shift(d), bit_shift(d));
    assert(parent_addr(a, d) =~= a);
}

/// Flipping the bit back after clearing it restores an address whose bit was
/// set; and on such an address, flipping is the same as clearing.
pub proof fn lemma_sibling_of_parent(a: Seq<u8>, d: int)
    requires
        a.len() == 32,
        branch_depth(d),
        addr_bit(a, d),
    ensures
        sibling_addr(parent_addr(a, d), d) == a,
        sibling_addr(a, d) == parent_addr(a, d),
{
    lemma_shift_range(d);
    let i = byte_index(d);
    lemma_byte_flip(a[i], bit_shift(d), bit_shift(d));
    assert(sibling_addr(parent_addr(a, d), d) =~= a);
    assert(sibling_addr(a, d) =~= parent_addr(a, d));
}

/// The canonical ancestor address at `depth`: 32 bytes long, every bit
/// consumed deeper than `depth` cleared, every bit at `depth` or above kept.
pub proof fn lemma_path_addr_props(addr: Seq<u8>, depth: int)
    requires
        addr.len() == 32,
        0 <= depth <= 256,
    ensures
        path_addr(addr, depth).len() == 32,
        forall|e: int| depth < e <= 256 ==> !#[trigger] addr_bit(path_addr(addr, depth), e),
        forall|e: int|
            1 <= e <= depth ==> #[trigger] addr_bit(path_addr(addr, depth), e) == addr_bit(addr, e),
    decreases 256 - depth,
{
    if depth < 256 {
        lemma_path_addr_props(addr, depth + 1);
        let p1 = path_addr(addr, depth + 1);
        lemma_parent_addr(p1, depth + 1);
    }
}

/// A byte all of whose bits read zero is zero.
proof fn lemma_byte_zero(x: u8)
    requires
        forall|s: u8| s < 8 ==> x & (1u8 << s) == 0,
    ensures
        x == 0,
{
    assert(x & (1u8 << 0u8) == 0);
    assert(x & (1u8 << 1u8) == 0);
    assert(x & (1u8 << 2u8) == 0);
    assert(x & (1u8 << 3u8) == 0);
    assert(x & (1u8 << 4u8) == 0);
    assert(x & (1u8 << 5u8) == 0);
    assert(x & (1u8 << 6u8) == 0);
    assert(x & (1u8 << 7u8) == 0);
    assert(x & (1u8 << 0u8) == 0 && x & (1u8 << 1u8) == 0 && x & (1u8 << 2u8) == 0 && x & (
    1u8 << 3u8) == 0 && x & (1u8 << 4u8) == 0 && x & (1u8 << 5u8) == 0 && x & (1u8
        << 6u8) == 0 && x & (1u8 << 7u8) == 0 ==> x == 0) by (bit_vector);
}

/// Ascending all the way clears every bit: the root's address is all zero.
pub proof fn lemma_path_addr_zero(addr: Seq<u8>)
    requires
        addr.len() == 32,
    ensures
        path_addr(addr, 0) == zero_addr(),
{
    lemma_path_addr_props(addr, 0);
    let p = path_addr(addr, 0);
    assert forall|i: int| 0 <= i < 32 implies p[i] == 0u8 by {
        assert forall|s: u8| s < 8 implies p[i] & (1u8 << s) == 0 by {
            let d = 256 - (8 * (31 - i) + s);
            assert(branch_depth(d));
            assert(byte_index(d) == 31 - (8 * (31 - i) + s as int) / 8);
            assert((8 * (31 - i) + s as int) / 8 == 31 - i);
            assert(bit_shift(d) == ((8 * (31 - i) + s as int) % 8) as u8);
            assert((8 * (31 - i) + s as int) % 8 == s as int);
            assert(!addr_bit(p, d));
        }
        lemma_byte_zero(p[i]);
    }
    assert(p =~= zero_addr());
}

} // verus!
