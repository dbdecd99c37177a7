//! The mathematical model of the tree.
//!
//! A tree state is a map from composite keys — a depth in `[0, 256]` paired
//! with a canonical 32-byte address — to digests. Absence of a key means the
//! node equals the default digest of its depth. The model gives the default
//! ladder, the digest recomputed from an inclusion proof, and the exact map
//! an insertion produces, together with the lemmas that tie them together.

use vstd::prelude::*;

use crate::digest::combine_digest;
use crate::digest::leaf_digest;
use crate::digest::Digest;
use crate::path::addr_bit;
use crate::path::branch_depth;
use crate::path::lemma_parent_addr;
use crate::path::lemma_parent_noop;
use crate::path::lemma_parent_of_sibling;
use crate::path::lemma_path_addr_props;
use crate::path::lemma_sibling_addr;
use crate::path::lemma_sibling_of_parent;
use crate::path::parent_addr;
use crate::path::path_addr;
use crate::path::sib_addr;
use crate::path::sibling_addr;

verus! {

/// A tree state: digests keyed by (depth, canonical address).
pub type StoreMap = Map<(int, Seq<u8>), Digest>;

/// The default-subtree ladder: the digest of a fully-empty subtree whose root
/// stands at `depth`. At leaf level it is the hash of the default value 0;
/// above, an empty subtree's two children are both empty subtrees one level
/// deeper.
pub open spec fn default_digest(depth: int) -> Digest
    decreases 256 - depth,
{
    if depth >= 256 {
        leaf_digest(0)
    } else {
        combine_digest(default_digest(depth + 1), default_digest(depth + 1))
    }
}

/// The digest of the node at (`depth`, `addr`): the stored entry, or the
/// default digest of `depth` when the store never touched that node.
pub open spec fn node_digest(m: StoreMap, depth: int, addr: Seq<u8>) -> Digest {
    if m.contains_key((depth, addr)) {
        m[(depth, addr)]
    } else {
        default_digest(depth)
    }
}

/// A key the store may hold: depth in range, a 32-byte address, and canonical
/// — every bit consumed deeper than the key's depth is zero.
pub open spec fn valid_key(k: (int, Seq<u8>)) -> bool {
    &&& 0 <= k.0 <= 256
    &&& k.1.len() == 32
    &&& forall|e: int| k.0 < e <= 256 ==> !#[trigger] addr_bit(k.1, e)
}

/// The store invariant that every reachable tree state satisfies: keys are
/// valid, every stored node's ancestors are stored too (insertion always
/// rewrites the full path), and every stored internal node is the ordered
/// combination of its two children's digests. A key's own address is its
/// left child's address; setting the next consumed bit gives the right one.
pub open spec fn store_ok(m: StoreMap) -> bool {
    &&& forall|k: (int, Seq<u8>)| #[trigger] m.contains_key(k) ==> valid_key(k)
    &&& forall|k: (int, Seq<u8>)|
        #[trigger] m.contains_key(k) && k.0 >= 1 ==> m.contains_key(
            ((k.0 - 1) as int, parent_addr(k.1, k.0)),
        )
    &&& forall|k: (int, Seq<u8>)|
        #[trigger] m.contains_key(k) && k.0 < 256 ==> m[k] == combine_digest(
            node_digest(m, k.0 + 1, k.1),
            node_digest(m, k.0 + 1, sibling_addr(k.1, k.0 + 1)),
        )
}

/// The digest recomputed at `depth`, on the path of `addr`, from the leaf
/// value and the proof entries below `depth`. Entry `j` of a proof is the
/// sibling at depth `256 - j`, so the entry consumed when stepping up from
/// depth `d + 1` to `d` is entry `255 - d`.
pub open spec fn recompute(addr: Seq<u8>, value: u64, proof: Seq<Digest>, depth: int) -> Digest
    decreases 256 - depth,
{
    if depth >= 256 {
        leaf_digest(value)
    } else {
        let child = recompute(addr, value, proof, depth + 1);
        let sib = proof[255 - depth];
        if addr_bit(addr, depth + 1) {
            combine_digest(sib, child)
        } else {
            combine_digest(child, sib)
        }
    }
}

/// The inclusion proof for `addr` read from state `m`: the sibling digests
/// along the ascent, leaf sibling first, root's-child sibling last.
pub open spec fn proof_digests(m: StoreMap, addr: Seq<u8>) -> Seq<Digest> {
    Seq::new(256, |j: int| node_digest(m, 256 - j, sib_addr(addr, 256 - j)))
}

/// The digest an insertion of `value` at `addr` writes at `depth` on the
/// path, over the state `m` the insertion started from: the leaf hash at the
/// bottom, and above it the ordered combination with the sibling as `m` held
/// it.
pub open spec fn path_digest_after(m: StoreMap, addr: Seq<u8>, value: u64, depth: int) -> Digest
    decreases 256 - depth,
{
    if depth >= 256 {
        leaf_digest(value)
    } else {
        let child = path_digest_after(m, addr, value, depth + 1);
        let sib = node_digest(m, depth + 1, sib_addr(addr, depth + 1));
        if addr_bit(addr, depth + 1) {
            combine_digest(sib, child)
        } else {
            combine_digest(child, sib)
        }
    }
}

/// Whether `k` lies on the path of `addr`: its address is the canonical
/// ancestor address of `addr` at its depth.
pub open spec fn is_path_key(addr: Seq<u8>, k: (int, Seq<u8>)) -> bool {
    0 <= k.0 <= 256 && k.1 == path_addr(addr, k.0)
}

/// The state `m` with the path keys of `addr` at depths `dlow` and deeper
/// overridden by the digests the insertion writes: the intermediate states
/// of the ascent, `dlow` counting down from 256.
pub open spec fn map_after_to(m: StoreMap, addr: Seq<u8>, value: u64, dlow: int) -> StoreMap {
    Map::new(
        |k: (int, Seq<u8>)|
            m.contains_key(k) || (dlow <= k.0 <= 256 && k.1 == path_addr(addr, k.0)),
        |k: (int, Seq<u8>)|
            if dlow <= k.0 <= 256 && k.1 == path_addr(addr, k.0) {
                path_digest_after(m, addr, value, k.0)
            } else {
                m[k]
            },
    )
}

/// The state after inserting `value` at `addr` into state `m`: every key on
/// the path, leaf through root, overridden; everything else untouched.
pub open spec fn map_after_insert(m: StoreMap, addr: Seq<u8>, value: u64) -> StoreMap {
    map_after_to(m, addr, value, 0)
}

/// A sibling of the path is never itself on the path at its depth, so the
/// override leaves it exactly as `m` held it.
pub proof fn lemma_map_after_to_sibling(
    m: StoreMap,
    addr: Seq<u8>,
    value: u64,
    dlow: int,
    d: int,
)
    requires
        addr.len() == 32,
        branch_depth(d),
    ensures
        node_digest(map_after_to(m, addr, value, dlow), d, sib_addr(addr, d)) == node_digest(
            m,
            d,
            sib_addr(addr, d),
        ),
{
    lemma_path_addr_props(addr, d);
    lemma_sibling_addr(path_addr(addr, d), d);
}

/// Writing the next parent turns the override-down-to-`d` state into the
/// override-down-to-`d - 1` state.
pub proof fn lemma_map_after_to_step(m: StoreMap, addr: Seq<u8>, value: u64, d: int)
    requires
        addr.len() == 32,
        branch_depth(d),
    ensures
        map_after_to(m, addr, value, d).insert(
            ((d - 1) as int, path_addr(addr, (d - 1) as int)),
            path_digest_after(m, addr, value, (d - 1) as int),
        ) == map_after_to(m, addr, value, (d - 1) as int),
{
    let lhs = map_after_to(m, addr, value, d).insert(
        ((d - 1) as int, path_addr(addr, (d - 1) as int)),
        path_digest_after(m, addr, value, (d - 1) as int),
    );
    let rhs = map_after_to(m, addr, value, (d - 1) as int);
    assert(lhs =~= rhs);
}

/// The first write of an insertion: storing the leaf hash is the
/// override-down-to-256 state.
pub proof fn lemma_map_after_to_base(m: StoreMap, addr: Seq<u8>, value: u64)
    requires
        addr.len() == 32,
    ensures
        m.insert((256int, addr), leaf_digest(value)) == map_after_to(m, addr, value, 256),
{
    assert(m.insert((256int, addr), leaf_digest(value)) =~= map_after_to(m, addr, value, 256));
}

/// The ascent theorem: in a state satisfying the store invariant, if the
/// leaf of `addr` carries `leaf_digest(value)` (stored, or absent with
/// `value` the default 0), then replaying the ascent from `value` with the
/// proof read from the state reproduces the stored path digest at every
/// depth — at depth 0, the root.
pub proof fn lemma_recompute_matches(m: StoreMap, addr: Seq<u8>, value: u64, depth: int)
    requires
        store_ok(m),
        addr.len() == 32,
        0 <= depth <= 256,
        node_digest(m, 256, addr) == leaf_digest(value),
    ensures
        recompute(addr, value, proof_digests(m, addr), depth) == node_digest(
            m,
            depth,
            path_addr(addr, depth),
        ),
    decreases 256 - depth,
{
    let pf = proof_digests(m, addr);
    if depth < 256 {
        lemma_recompute_matches(m, addr, value, depth + 1);
        let p = path_addr(addr, depth);
        let p1 = path_addr(addr, depth + 1);
        let s1 = sib_addr(addr, depth + 1);
        lemma_path_addr_props(addr, depth + 1);
        lemma_sibling_addr(p1, depth + 1);
        lemma_parent_addr(p1, depth + 1);
        assert(pf[255 - depth] == node_digest(m, depth + 1, s1));
        let bit = addr_bit(addr, depth + 1);
        assert(addr_bit(p1, depth + 1) == bit);
        if m.contains_key((depth, p)) {
            if bit {
                lemma_sibling_of_parent(p1, depth + 1);
                assert(s1 == p);
                assert(sibling_addr(p, depth + 1) == p1);
            } else {
                lemma_parent_noop(p1, depth + 1);
                assert(p == p1);
            }
        } else {
            if m.contains_key((depth + 1, p1)) {
                assert(m.contains_key((depth, parent_addr(p1, depth + 1))));
                assert(false);
            }
            if m.contains_key((depth + 1, s1)) {
                lemma_parent_of_sibling(p1, depth + 1);
                assert(m.contains_key((depth, parent_addr(s1, depth + 1))));
                assert(false);
            }
        }
    }
}

/// Insertion preserves the store invariant: the rewritten path is stored
/// with its ancestors and satisfies the combine relation by construction,
/// and no write lands on a child of an untouched stored node.
pub proof fn lemma_insert_preserves_store_ok(m: StoreMap, addr: Seq<u8>, value: u64)
    requires
        store_ok(m),
        addr.len() == 32,
    ensures
        store_ok(map_after_insert(m, addr, value)),
{
    let m2 = map_after_insert(m, addr, value);
    assert forall|k: (int, Seq<u8>)| #[trigger] m2.contains_key(k) implies valid_key(k) by {
        if is_path_key(addr, k) {
            lemma_path_addr_props(addr, k.0);
        }
    }
    assert forall|k: (int, Seq<u8>)| #[trigger] m2.contains_key(k) && k.0 >= 1 implies m2
        .contains_key(((k.0 - 1) as int, parent_addr(k.1, k.0))) by {
        if is_path_key(addr, k) {
            assert(path_addr(addr, k.0 - 1) == parent_addr(path_addr(addr, k.0), k.0));
            assert(is_path_key(addr, ((k.0 - 1) as int, parent_addr(k.1, k.0))));
        }
    }
    assert forall|k: (int, Seq<u8>)| #[trigger] m2.contains_key(k) && k.0 < 256 implies m2[k]
        == combine_digest(
        node_digest(m2, k.0 + 1, k.1),
        node_digest(m2, k.0 + 1, sibling_addr(k.1, k.0 + 1)),
    ) by {
        let d = k.0;
        if is_path_key(addr, k) {
            let p = path_addr(addr, d);
            let p1 = path_addr(addr, d + 1);
            let s1 = sib_addr(addr, d + 1);
            lemma_path_addr_props(addr, d + 1);
            lemma_sibling_addr(p1, d + 1);
            lemma_parent_addr(p1, d + 1);
            let bit = addr_bit(addr, d + 1);
            assert(addr_bit(p1, d + 1) == bit);
            assert(is_path_key(addr, (d + 1, p1)));
            assert(node_digest(m2, d + 1, p1) == path_digest_after(m, addr, value, d + 1));
            assert(s1 != p1);
            assert(!is_path_key(addr, (d + 1, s1)));
            assert(node_digest(m2, d + 1, s1) == node_digest(m, d + 1, s1));
            if bit {
                lemma_sibling_of_parent(p1, d + 1);
                assert(s1 == p);
                assert(sibling_addr(p, d + 1) == p1);
            } else {
                lemma_parent_noop(p1, d + 1);
                assert(p == p1);
            }
        } else {
            let a = k.1;
            assert(m.contains_key(k));
            assert(valid_key(k));
            assert(!addr_bit(a, d + 1));
            lemma_parent_noop(a, d + 1);
            let sb = sibling_addr(a, d + 1);
            lemma_sibling_addr(a, d + 1);
            lemma_parent_of_sibling(a, d + 1);
            if a == path_addr(addr, d + 1) {
                assert(path_addr(addr, d) == parent_addr(path_addr(addr, d + 1), d + 1));
                assert(path_addr(addr, d) == a);
                assert(is_path_key(addr, k));
                assert(false);
            }
            if sb == path_addr(addr, d + 1) {
                assert(path_addr(addr, d) == parent_addr(path_addr(addr, d + 1), d + 1));
                assert(parent_addr(sb, d + 1) == parent_addr(a, d + 1));
                assert(path_addr(addr, d) == a);
                assert(is_path_key(addr, k));
                assert(false);
            }
            assert(!is_path_key(addr, (d + 1, a)));
            assert(!is_path_key(addr, (d + 1, sb)));
            assert(node_digest(m2, d + 1, a) == node_digest(m, d + 1, a));
            assert(node_digest(m2, d + 1, sb) == node_digest(m, d + 1, sb));
        }
    }
}

/// After an insertion the leaf of `addr` carries the hash of the inserted
/// value: the leaf's key is on the path, and its override is `leaf_digest`.
pub proof fn lemma_insert_leaf_stored(m: StoreMap, addr: Seq<u8>, value: u64)
    requires
        addr.len() == 32,
    ensures
        node_digest(map_after_insert(m, addr, value), 256, addr) == leaf_digest(value),
        proof_digests(map_after_insert(m, addr, value), addr).len() == 256,
{
    assert(path_addr(addr, 256) == addr);
    assert(is_path_key(addr, (256int, addr)));
    assert(map_after_insert(m, addr, value)[(256int, addr)] == path_digest_after(
        m,
        addr,
        value,
        256,
    ));
}

/// Re-inserting the same leaf over the state it produced writes the same
/// digests again: the siblings an ascent reads are off the path, so the
/// first insertion left them as they were.
pub proof fn lemma_path_digest_after_reinsert(m: StoreMap, addr: Seq<u8>, value: u64, d: int)
    requires
        addr.len() == 32,
        0 <= d <= 256,
    ensures
        path_digest_after(map_after_insert(m, addr, value), addr, value, d) == path_digest_after(
            m,
            addr,
            value,
            d,
        ),
    decreases 256 - d,
{
    if d < 256 {
        lemma_path_digest_after_reinsert(m, addr, value, d + 1);
        lemma_map_after_to_sibling(m, addr, value, 0, d + 1);
    }
}

} // verus!
