//! The tree engine: sparse node store, default ladder, insertion, proof
//! generation and proof verification.
//!
//! The store holds every node an insertion ever wrote, keyed by depth and
//! canonical address; a node the store never touched equals the default
//! digest of its depth. Insertion walks from the leaf up to the root,
//! rewriting the whole path; proof generation performs the same ascent
//! read-only; verification replays it purely from its inputs.

use vstd::prelude::*;

use crate::digest::combine;
use crate::digest::hash_leaf;
use crate::digest::Digest;
use crate::model::default_digest;
use crate::model::is_path_key;
use crate::model::lemma_insert_preserves_store_ok;
use crate::model::lemma_map_after_to_base;
use crate::model::lemma_map_after_to_sibling;
use crate::model::lemma_map_after_to_step;
use crate::model::map_after_insert;
use crate::model::map_after_to;
use crate::model::node_digest;
use crate::model::path_digest_after;
use crate::model::proof_digests;
use crate::model::recompute;
use crate::model::store_ok;
use crate::model::StoreMap;
use crate::path::addr_bit;
use crate::path::bit_mask;
use crate::path::bit_shift;
use crate::path::branch_depth;
use crate::path::byte_index;
use crate::path::lemma_path_addr_props;
use crate::path::parent_addr;
use crate::path::path_addr;
use crate::path::sib_addr;
use crate::path::sibling_addr;
use crate::path::zero_addr;

verus! {

/// One stored node: its depth, its canonical address, and its digest.
#[derive(Clone, Copy)]
struct Node {
    depth: u16,
    addr: [u8; 32],
    digest: Digest,
}

/// The composite key of a stored node.
spec fn node_key(n: Node) -> (int, Seq<u8>) {
    (n.depth as int, n.addr@)
}

/// The map a run of stored nodes denotes: later entries supersede earlier
/// ones with the same key, as insertion overwrites path nodes.
spec fn store_view(s: Seq<Node>) -> StoreMap
    decreases s.len(),
{
    if s.len() == 0 {
        Map::empty()
    } else {
        store_view(s.drop_last()).insert(node_key(s.last()), s.last().digest)
    }
}

/// An entry not superseded by any later one gives its key's value.
proof fn lemma_store_view_get(s: Seq<Node>, i: int)
    requires
        0 <= i < s.len(),
        forall|j: int| i < j < s.len() ==> node_key(s[j]) != node_key(s[i]),
    ensures
        store_view(s).contains_key(node_key(s[i])),
        store_view(s)[node_key(s[i])] == s[i].digest,
    decreases s.len(),
{
    if i < s.len() - 1 {
        let s0 = s.drop_last();
        assert forall|j: int| i < j < s0.len() implies node_key(s0[j]) != node_key(s0[i]) by {
            assert(s0[j] == s[j]);
        }
        lemma_store_view_get(s0, i);
        assert(node_key(s.last()) != node_key(s[i]));
    }
}

/// A key no entry carries is absent from the denoted map.
proof fn lemma_store_view_absent(s: Seq<Node>, k: (int, Seq<u8>))
    requires
        forall|j: int| 0 <= j < s.len() ==> node_key(s[j]) != k,
    ensures
        !store_view(s).contains_key(k),
    decreases s.len(),
{
    if s.len() > 0 {
        lemma_store_view_absent(s.drop_last(), k);
    }
}

/// Whether two 32-byte addresses hold the same bytes.
fn eq_bytes(a: &[u8; 32], b: &[u8; 32]) -> (r: bool)
    ensures
        r == (a@ == b@),
{
    let mut i: usize = 0;
    while i < 32
        invariant
            i <= 32,
            forall|j: int| 0 <= j < i ==> a@[j] == b@[j],
        decreases 32 - i,
    {
        if a[i] != b[i] {
            return false;
        }
        i += 1;
    }
    proof {
        assert(a@ =~= b@);
    }
    true
}

/// A sparse Merkle tree of depth 256: the default-subtree ladder, built once
/// at construction, and the sparse node store, which only ever grows.
pub struct SparseMerkleTree {
    defaults: Vec<Digest>,
    nodes: Vec<Node>,
}

impl View for SparseMerkleTree {
    type V = StoreMap;

    closed spec fn view(&self) -> StoreMap {
        store_view(self.nodes@)
    }
}

impl SparseMerkleTree {
    /// The ladder holds the 257 default digests, indexed by depth.
    spec fn defaults_ok(&self) -> bool {
        &&& self.defaults@.len() == 257
        &&& forall|d: int| 0 <= d <= 256 ==> self.defaults@[d] == default_digest(d)
    }

    /// The tree is well formed: the ladder is the default-digest ladder and
    /// the store satisfies the invariant of every reachable state.
    pub closed spec fn wf(&self) -> bool {
        &&& self.defaults_ok()
        &&& store_ok(self@)
    }

    /// A well-formed tree's state satisfies the store invariant, which the
    /// public laws take as their premise.
    pub proof fn lemma_wf_store_ok(&self)
        requires
            self.wf(),
        ensures
            store_ok(self@),
    {
    }

    /// Builds an empty tree: computes the 257-digest default ladder from the
    /// leaf level up, and starts with nothing stored.
    pub fn new() -> (r: Self)
        ensures
            r.wf(),
            r@ == StoreMap::empty(),
    {
        let mut ladder_rev: Vec<Digest> = Vec::new();
        let mut cur = hash_leaf(0);
        ladder_rev.push(cur);
        let mut i: usize = 0;
        while i < 256
            invariant
                i <= 256,
                ladder_rev@.len() == i + 1,
                cur == default_digest(256 - i),
                forall|j: int| 0 <= j <= i ==> ladder_rev@[j] == default_digest(256 - j),
            decreases 256 - i,
        {
            cur = combine(&cur, &cur);
            ladder_rev.push(cur);
            i += 1;
        }
        let mut defaults: Vec<Digest> = Vec::new();
        while ladder_rev.len() > 0
            invariant
                ladder_rev@.len() + defaults@.len() == 257,
                forall|j: int|
                    0 <= j < ladder_rev@.len() ==> ladder_rev@[j] == default_digest(256 - j),
                forall|d: int| 0 <= d < defaults@.len() ==> defaults@[d] == default_digest(d),
            decreases ladder_rev.len(),
        {
            let x = ladder_rev.pop().unwrap();
            defaults.push(x);
        }
        let r = SparseMerkleTree { defaults, nodes: Vec::new() };
        proof {
            assert(r@ =~= StoreMap::empty());
        }
        r
    }

    /// The branching bit of `index` consumed at `depth`.
    fn get_bit(index: &[u8; 32], depth: u16) -> (r: bool)
        requires
            branch_depth(depth as int),
        ensures
            r == addr_bit(index@, depth as int),
    {
        let b: u16 = 256 - depth;
        let byte: usize = 31 - (b / 8) as usize;
        let s: u8 = (b % 8) as u8;
        let mask: u8 = 1u8 << s;
        proof {
            assert(byte as int == byte_index(depth as int));
            assert(s == bit_shift(depth as int));
            assert(mask == bit_mask(depth as int));
        }
        (index[byte] & mask) != 0
    }

    /// Clears the bit consumed at `depth`.
    fn clear_bit(index: &mut [u8; 32], depth: u16)
        requires
            branch_depth(depth as int),
        ensures
            final(index)@ == parent_addr(old(index)@, depth as int),
    {
        let b: u16 = 256 - depth;
        let byte: usize = 31 - (b / 8) as usize;
        let s: u8 = (b % 8) as u8;
        let mask: u8 = 1u8 << s;
        proof {
            assert(byte as int == byte_index(depth as int));
            assert(s == bit_shift(depth as int));
            assert(mask == bit_mask(depth as int));
        }
        index[byte] = index[byte] & !mask;
        proof {
            assert(index@ =~= parent_addr(old(index)@, depth as int));
        }
    }

    /// Flips the bit consumed at `depth`.
    fn flip_bit(index: &mut [u8; 32], depth: u16)
        requires
            branch_depth(depth as int),
        ensures
            final(index)@ == sibling_addr(old(index)@, depth as int),
    {
        let b: u16 = 256 - depth;
        let byte: usize = 31 - (b / 8) as usize;
        let s: u8 = (b % 8) as u8;
        let mask: u8 = 1u8 << s;
        proof {
            assert(byte as int == byte_index(depth as int));
            assert(s == bit_shift(depth as int));
            assert(mask == bit_mask(depth as int));
        }
        index[byte] = index[byte] ^ mask;
        proof {
            assert(index@ =~= sibling_addr(old(index)@, depth as int));
        }
    }

    /// Whether the node at `depth` on the path of `index` is a right child.
    fn is_right_child(depth: u16, index: &[u8; 32]) -> (r: bool)
        requires
            branch_depth(depth as int),
        ensures
            r == addr_bit(index@, depth as int),
    {
        Self::get_bit(index, depth)
    }

    /// The address of the parent of the node at `depth` on this path.
    fn parent_index(depth: u16, index: &[u8; 32]) -> (r: [u8; 32])
        requires
            branch_depth(depth as int),
        ensures
            r@ == parent_addr(index@, depth as int),
    {
        let mut parent = *index;
        Self::clear_bit(&mut parent, depth);
        parent
    }

    /// The address of the sibling of the node at `depth` on this path.
    fn get_sibling_index(depth: u16, index: &[u8; 32]) -> (r: [u8; 32])
        requires
            branch_depth(depth as int),
        ensures
            r@ == sibling_addr(index@, depth as int),
    {
        let mut sibling = *index;
        Self::flip_bit(&mut sibling, depth);
        sibling
    }

    /// Looks the node up in the store: the latest write at its key, if any.
    fn get_node(&self, depth: u16, index: &[u8; 32]) -> (r: Option<Digest>)
        ensures
            r == if self@.contains_key((depth as int, index@)) {
                Some(self@[(depth as int, index@)])
            } else {
                None::<Digest>
            },
    {
        let mut i: usize = self.nodes.len();
        while i > 0
            invariant
                i <= self.nodes@.len(),
                forall|j: int|
                    i <= j < self.nodes@.len() ==> node_key(self.nodes@[j]) != (
                    depth as int,
                    index@,
                ),
            decreases i,
        {
            i -= 1;
            let n = self.nodes[i];
            if n.depth == depth && eq_bytes(&n.addr, index) {
                proof {
                    assert(node_key(self.nodes@[i as int]) == (depth as int, index@));
                    lemma_store_view_get(self.nodes@, i as int);
                }
                return Some(n.digest);
            }
        }
        proof {
            lemma_store_view_absent(self.nodes@, (depth as int, index@));
        }
        None
    }

    /// The node's digest: the stored entry, or the default of its depth.
    fn node_or_default(&self, depth: u16, index: &[u8; 32]) -> (r: Digest)
        requires
            self.defaults_ok(),
            depth <= 256,
        ensures
            r == node_digest(self@, depth as int, index@),
    {
        match self.get_node(depth, index) {
            Some(d) => d,
            None => self.defaults[depth as usize],
        }
    }

    /// Appends one write to the store; the denoted map gains that key.
    fn push_node(&mut self, depth: u16, index: [u8; 32], digest: Digest)
        ensures
            final(self)@ == old(self)@.insert((depth as int, index@), digest),
            final(self).defaults == old(self).defaults,
    {
        let ghost s0 = self.nodes@;
        self.nodes.push(Node { depth, addr: index, digest });
        proof {
            assert(self.nodes@.drop_last() =~= s0);
        }
    }

    /// Inserts `value` at leaf `index`: stores the leaf hash, then ascends to
    /// the root, rewriting every ancestor as the ordered combination of the
    /// current node and its sibling (default-substituted when absent).
    /// The new state is exactly the old one with the whole path overridden.
    pub fn insert(&mut self, index: [u8; 32], value: u64)
        requires
            old(self).wf(),
        ensures
            final(self).wf(),
            final(self)@ == map_after_insert(old(self)@, index@, value),
    {
        let ghost m0 = self@;
        let leaf = hash_leaf(value);
        self.push_node(256, index, leaf);
        proof {
            assert(path_addr(index@, 256) == index@);
            lemma_map_after_to_base(m0, index@, value);
        }
        let mut depth: u16 = 256;
        let mut cur_index: [u8; 32] = index;
        while depth > 0
            invariant
                depth <= 256,
                self.defaults_ok(),
                store_ok(m0),
                cur_index@ == path_addr(index@, depth as int),
                self@ == map_after_to(m0, index@, value, depth as int),
            decreases depth,
        {
            let parent_depth = depth - 1;
            let parent_index = Self::parent_index(depth, &cur_index);
            let sibling_index = Self::get_sibling_index(depth, &cur_index);
            let current_hash = self.node_or_default(depth, &cur_index);
            let sibling_hash = self.node_or_default(depth, &sibling_index);
            let parent_hash = if Self::is_right_child(depth, &cur_index) {
                combine(&sibling_hash, &current_hash)
            } else {
                combine(&current_hash, &sibling_hash)
            };
            proof {
                let d = depth as int;
                lemma_path_addr_props(index@, d);
                assert(is_path_key(index@, (d, cur_index@)));
                assert(self@[(d, cur_index@)] == path_digest_after(m0, index@, value, d));
                assert(sibling_index@ == sib_addr(index@, d));
                lemma_map_after_to_sibling(m0, index@, value, d, d);
                assert(sibling_hash == node_digest(m0, d, sib_addr(index@, d)));
                assert(parent_hash == path_digest_after(m0, index@, value, d - 1));
                assert(parent_index@ == path_addr(index@, d - 1));
                lemma_map_after_to_step(m0, index@, value, d);
            }
            self.push_node(parent_depth, parent_index, parent_hash);
            depth = parent_depth;
            cur_index = parent_index;
        }
        proof {
            lemma_insert_preserves_store_ok(m0, index@, value);
        }
    }

    /// The root digest: the stored root, or the whole-tree default when
    /// nothing was ever inserted.
    pub fn root(&self) -> (r: Digest)
        requires
            self.wf(),
        ensures
            r == node_digest(self@, 0, zero_addr()),
    {
        let root_index = [0u8; 32];
        proof {
            assert(root_index@ =~= zero_addr());
        }
        self.node_or_default(0, &root_index)
    }

    /// The inclusion proof for `index`: the 256 sibling digests along the
    /// ascent, leaf sibling first, default-substituted where absent. Always
    /// exactly 256 entries, whatever the fill state.
    pub fn prove(&self, index: &[u8; 32]) -> (r: Vec<Digest>)
        requires
            self.wf(),
        ensures
            r@.len() == 256,
            r@ == proof_digests(self@, index@),
    {
        let mut out: Vec<Digest> = Vec::new();
        let mut current_index: [u8; 32] = *index;
        let mut depth: u16 = 256;
        while depth > 0
            invariant
                depth <= 256,
                self.wf(),
                current_index@ == path_addr(index@, depth as int),
                out@.len() == 256 - depth,
                forall|j: int|
                    0 <= j < out@.len() ==> out@[j] == node_digest(
                        self@,
                        256 - j,
                        sib_addr(index@, 256 - j),
                    ),
            decreases depth,
        {
            let sibling_index = Self::get_sibling_index(depth, &current_index);
            let entry = self.node_or_default(depth, &sibling_index);
            out.push(entry);
            let next_index = Self::parent_index(depth, &current_index);
            current_index = next_index;
            depth -= 1;
        }
        proof {
            assert(out@ =~= proof_digests(self@, index@));
        }
        out
    }

    /// Verifies an inclusion proof purely from its inputs: a proof of any
    /// length other than 256 is rejected at once; otherwise the ascent is
    /// replayed from `Hash(value)` through the entries in leaf-to-root
    /// order, and the result is whether the recomputed root equals
    /// `root_hash`.
    pub fn verify_proof(
        root_hash: &Digest,
        index: &[u8; 32],
        value: u64,
        proof_entries: &Vec<Digest>,
    ) -> (r: bool)
        ensures
            r == (proof_entries@.len() == 256 && *root_hash == recompute(
                index@,
                value,
                proof_entries@,
                0,
            )),
    {
        if proof_entries.len() != 256 {
            return false;
        }
        let mut current_hash = hash_leaf(value);
        let mut current_index: [u8; 32] = *index;
        let mut j: usize = 0;
        while j < 256
            invariant
                j <= 256,
                proof_entries@.len() == 256,
                current_index@ == path_addr(index@, 256 - j as int),
                current_hash == recompute(index@, value, proof_entries@, 256 - j as int),
            decreases 256 - j,
        {
            let depth: u16 = 256 - (j as u16);
            let sibling_hash = proof_entries[j];
            let is_right = Self::is_right_child(depth, &current_index);
            proof {
                lemma_path_addr_props(index@, depth as int);
            }
            current_hash = if is_right {
                combine(&sibling_hash, &current_hash)
            } else {
                combine(&current_hash, &sibling_hash)
            };
            current_index = Self::parent_index(depth, &current_index);
            j += 1;
        }
        current_hash == *root_hash
    }
}

} // verus!
