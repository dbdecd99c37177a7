//! The laws of the tree, each proved against the model that the public
//! contracts speak: `insert` ensures the state is `map_after_insert`,
//! `root` returns `node_digest(state, 0, zero_addr())`, `prove` returns
//! `proof_digests(state, addr)`, and `verify_proof` returns whether the
//! proof has 256 entries and `recompute` reproduces the given root.

use vstd::prelude::*;

use crate::model::default_digest;
use crate::model::is_path_key;
use crate::model::lemma_insert_leaf_stored;
use crate::model::lemma_insert_preserves_store_ok;
use crate::model::lemma_path_digest_after_reinsert;
use crate::model::lemma_recompute_matches;
use crate::model::map_after_insert;
use crate::model::node_digest;
use crate::model::proof_digests;
use crate::model::recompute;
use crate::model::store_ok;
use crate::model::StoreMap;
use crate::path::lemma_path_addr_zero;
use crate::path::zero_addr;

verus! {

/// Law: a tree that was never written to has the known constant root — on
/// the empty state, `root()` yields the top entry of the default ladder.
pub proof fn lemma_empty_root()
    ensures
        node_digest(Map::empty(), 0, zero_addr()) == default_digest(0),
{
    assert(!Map::<(int, Seq<u8>), crate::digest::Digest>::empty().contains_key(
        (0int, zero_addr()),
    ));
}

/// Law (round trip): for every reachable state, address and value, the
/// state after `insert(addr, value)` satisfies the store invariant, its
/// proof for `addr` has exactly 256 entries, and replaying the ascent from
/// `value` with that proof reproduces the new root — so
/// `verify_proof(root(), addr, value, prove(addr))` returns true.
pub proof fn lemma_insert_round_trip(m: StoreMap, addr: Seq<u8>, value: u64)
    requires
        store_ok(m),
        addr.len() == 32,
    ensures
        ({
            let m2 = map_after_insert(m, addr, value);
            &&& store_ok(m2)
            &&& proof_digests(m2, addr).len() == 256
            &&& recompute(addr, value, proof_digests(m2, addr), 0) == node_digest(
                m2,
                0,
                zero_addr(),
            )
        }),
{
    let m2 = map_after_insert(m, addr, value);
    lemma_insert_preserves_store_ok(m, addr, value);
    lemma_insert_leaf_stored(m, addr, value);
    lemma_recompute_matches(m2, addr, value, 0);
    lemma_path_addr_zero(addr);
}

/// Law (untouched address): in any reachable state whose store never
/// received the leaf at `addr`, the proof for `addr` verifies against the
/// root with the default value 0 — the absent leaf already carries
/// `leaf_digest(0)`, so the replayed ascent meets every stored ancestor.
pub proof fn lemma_untouched_default_verifies(m: StoreMap, addr: Seq<u8>)
    requires
        store_ok(m),
        addr.len() == 32,
        !m.contains_key((256int, addr)),
    ensures
        recompute(addr, 0, proof_digests(m, addr), 0) == node_digest(m, 0, zero_addr()),
{
    assert(node_digest(m, 256, addr) == default_digest(256));
    lemma_recompute_matches(m, addr, 0, 0);
    lemma_path_addr_zero(addr);
}

/// Law (idempotence): inserting the same `(addr, value)` twice produces the
/// very state the first insertion produced — the second ascent reads the
/// same siblings, so the root is unchanged by the second insertion.
pub proof fn lemma_insert_idempotent(m: StoreMap, addr: Seq<u8>, value: u64)
    requires
        addr.len() == 32,
    ensures
        map_after_insert(map_after_insert(m, addr, value), addr, value) == map_after_insert(
            m,
            addr,
            value,
        ),
{
    let m1 = map_after_insert(m, addr, value);
    let m2 = map_after_insert(m1, addr, value);
    assert forall|k: (int, Seq<u8>)| #[trigger] m2.contains_key(k) implies m1.contains_key(k)
        && m2[k] == m1[k] by {
        if is_path_key(addr, k) {
            lemma_path_digest_after_reinsert(m, addr, value, k.0);
        }
    }
    assert(m2 =~= m1);
}

} // verus!
