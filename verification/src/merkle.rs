//! The sparse Merkle tree of note leaves: node hashing, the hashes of empty
//! subtrees, root reconstruction from an authentication path, and building a
//! tree (root and paths) from indexed leaves.
use crate::bytes::{append_be_bytes, append_bytes, be_bytes};
use crate::digest::{sha256, sha256_digest};
use vstd::arithmetic::div_mod::{lemma_basic_div, lemma_div_denominator};
use vstd::arithmetic::power2::{lemma2_to64, lemma_pow2_adds, lemma_pow2_pos, lemma_pow2_unfold, pow2};
use std::collections::{BTreeMap, BTreeSet};
use vstd::prelude::*;
use vstd::string::StringSliceAdditionalSpecFns;

verus! {

/// Levels between a leaf and the root.
pub const DEPTH: usize = 45;

/// Number of leaf positions, `2^DEPTH`.
pub const MAX_LEAVES: u64 = 0x2000_0000_0000;

/// Domain separator of interior nodes.
pub const NODE_DOMAIN: &'static str = "stellar-mixer-node-v1";

/// The bytes hashed into the node at `level + 1` above children `left`, `right`.
pub open spec fn node_message(level: nat, left: Seq<u8>, right: Seq<u8>) -> Seq<u8> {
    NODE_DOMAIN.spec_bytes() + be_bytes(level, 4) + left + right
}

/// The hash of two sibling nodes at `level`.
pub open spec fn node_hash(level: nat, left: Seq<u8>, right: Seq<u8>) -> Seq<u8> {
    sha256_digest(node_message(level, left, right))
}

/// The value of an unoccupied leaf position: 32 zero bytes.
pub open spec fn empty_leaf() -> Seq<u8> {
    Seq::new(32, |i: int| 0u8)
}

/// The root of an empty subtree of height `level`.
pub open spec fn zero_hash(level: nat) -> Seq<u8>
    decreases level,
{
    if level == 0 {
        empty_leaf()
    } else {
        let below = zero_hash((level - 1) as nat);
        node_hash((level - 1) as nat, below, below)
    }
}

/// The position, `level` levels up, of the ancestor of position `index`.
pub open spec fn ancestor(index: int, level: nat) -> int
    decreases level,
{
    if level == 0 {
        index
    } else {
        ancestor(index, (level - 1) as nat) / 2
    }
}

/// The other child of the parent of position `k`.
pub open spec fn sibling(k: int) -> int {
    if k % 2 == 0 {
        k + 1
    } else {
        k - 1
    }
}

/// The node that `level` steps of an authentication path lead to from `leaf`
/// at position `index`: at each step the path's node is the sibling, on the
/// side that the position's bit at that level says.
pub open spec fn path_root(leaf: Seq<u8>, index: int, path: Seq<[u8; 32]>, level: nat) -> Seq<u8>
    decreases level,
{
    if level == 0 {
        leaf
    } else {
        let below = path_root(leaf, index, path, (level - 1) as nat);
        let other = path[level - 1]@;
        if ancestor(index, (level - 1) as nat) % 2 == 0 {
            node_hash((level - 1) as nat, below, other)
        } else {
            node_hash((level - 1) as nat, other, below)
        }
    }
}

/// The node at height `level` and position `k` of the tree whose occupied leaf
/// positions are those of `leaves`.
pub open spec fn subtree_hash(leaves: Map<u64, [u8; 32]>, level: nat, k: int) -> Seq<u8>
    decreases level,
{
    if level == 0 {
        if 0 <= k <= u64::MAX && leaves.contains_key(k as u64) {
            leaves[k as u64]@
        } else {
            empty_leaf()
        }
    } else {
        node_hash(
            (level - 1) as nat,
            subtree_hash(leaves, (level - 1) as nat, 2 * k),
            subtree_hash(leaves, (level - 1) as nat, 2 * k + 1),
        )
    }
}

/// The root of the depth-`DEPTH` tree over `leaves`.
pub open spec fn sparse_root(leaves: Map<u64, [u8; 32]>) -> Seq<u8> {
    subtree_hash(leaves, DEPTH as nat, 0)
}

/// Node `l` of the authentication path of position `index`: the sibling of its
/// ancestor at height `l`.
pub open spec fn path_node(leaves: Map<u64, [u8; 32]>, index: int, l: nat) -> Seq<u8> {
    subtree_hash(leaves, l, sibling(ancestor(index, l)))
}

/// `path` is the authentication path of position `index` in the tree over `leaves`.
pub open spec fn is_auth_path(leaves: Map<u64, [u8; 32]>, index: int, path: Seq<[u8; 32]>) -> bool {
    &&& path.len() == DEPTH
    &&& forall|l: int| 0 <= l < DEPTH ==> #[trigger] path[l]@ == path_node(leaves, index, l as nat)
}

/// The hash of the two children `left`, `right` at `level`: SHA-256 over the
/// domain separator, the level (4 bytes big-endian), `left` and `right`.
pub fn hash_node(level: u32, left: &[u8; 32], right: &[u8; 32]) -> (h: [u8; 32])
    ensures
        h@ == node_hash(level as nat, left@, right@),
{
    let mut message: Vec<u8> = Vec::new();
    append_bytes(&mut message, NODE_DOMAIN.as_bytes());
    append_be_bytes(&mut message, level as u128, 4);
    append_bytes(&mut message, left);
    append_bytes(&mut message, right);
    sha256(message.as_slice())
}

/// The roots of empty subtrees of every height from 0 to `DEPTH`.
pub fn zero_hashes() -> (zeros: Vec<[u8; 32]>)
    ensures
        zeros@.len() == DEPTH + 1,
        forall|l: int| 0 <= l <= DEPTH ==> #[trigger] zeros@[l]@ == zero_hash(l as nat),
{
    let mut zeros: Vec<[u8; 32]> = Vec::with_capacity(DEPTH + 1);
    let mut cur = [0u8; 32];
    assert(cur@ =~= empty_leaf());
    zeros.push(cur);
    let mut level: usize = 0;
    while level < DEPTH
        invariant
            level <= DEPTH,
            zeros@.len() == level + 1,
            cur@ == zero_hash(level as nat),
            forall|l: int| 0 <= l <= level ==> #[trigger] zeros@[l]@ == zero_hash(l as nat),
        decreases DEPTH - level,
    {
        cur = hash_node(level as u32, &cur, &cur);
        zeros.push(cur);
        level = level + 1;
    }
    zeros
}

proof fn lemma_shift_halves(x: u64, l: u64)
    requires
        l < 63,
    ensures
        x >> (l + 1) as u64 == (x >> l) / 2,
{
    assert(x >> (l + 1) as u64 == (x >> l) / 2) by (bit_vector)
        requires
            l < 63,
    ;
}

/// `x >> l` is the position of the ancestor `l` levels above `x`.
proof fn lemma_shift_is_ancestor(x: u64, l: nat)
    requires
        l < 64,
    ensures
        (x >> (l as u64)) as int == ancestor(x as int, l),
    decreases l,
{
    if l == 0 {
        assert(x >> 0u64 == x) by (bit_vector);
    } else {
        lemma_shift_is_ancestor(x, (l - 1) as nat);
        lemma_shift_halves(x, (l - 1) as u64);
    }
}

proof fn lemma_low_bit(y: u64)
    ensures
        y & 1 == y % 2,
{
    assert(y & 1 == y % 2) by (bit_vector);
}

/// The root reached from `leaf` at position `leaf_index` by following `path`
/// up all `DEPTH` levels.
pub fn compute_root(leaf: [u8; 32], leaf_index: u64, path: &[[u8; 32]; DEPTH]) -> (root: [u8; 32])
    ensures
        root@ == path_root(leaf@, leaf_index as int, path@, DEPTH as nat),
{
    let mut cur = leaf;
    let mut level: usize = 0;
    while level < DEPTH
        invariant
            level <= DEPTH,
            cur@ == path_root(leaf@, leaf_index as int, path@, level as nat),
        decreases DEPTH - level,
    {
        let bit = (leaf_index >> (level as u64)) & 1;
        proof {
            lemma_shift_is_ancestor(leaf_index, level as nat);
            lemma_low_bit(leaf_index >> (level as u64));
        }
        cur = if bit == 0 {
            hash_node(level as u32, &cur, &path[level])
        } else {
            hash_node(level as u32, &path[level], &cur)
        };
        level = level + 1;
    }
    cur
}

/// Ancestor positions of a position are never negative and never above it.
pub proof fn lemma_ancestor_range(x: int, l: nat)
    requires
        0 <= x,
    ensures
        0 <= ancestor(x, l) <= x,
    decreases l,
{
    if l > 0 {
        lemma_ancestor_range(x, (l - 1) as nat);
    }
}

/// The ancestor `l` levels up is the position divided by `2^l`.
pub proof fn lemma_ancestor_is_div(x: int, l: nat)
    requires
        0 <= x,
    ensures
        ancestor(x, l) == x / pow2(l) as int,
    decreases l,
{
    lemma_pow2_pos(l);
    if l == 0 {
        lemma2_to64();
    } else {
        lemma_ancestor_is_div(x, (l - 1) as nat);
        lemma_pow2_pos((l - 1) as nat);
        lemma_pow2_unfold(l);
        lemma_div_denominator(x, pow2((l - 1) as nat) as int, 2);
        assert(pow2((l - 1) as nat) * 2 == pow2(l)) by (nonlinear_arith)
            requires
                pow2(l) == 2 * pow2((l - 1) as nat),
        ;
    }
}

/// Every leaf position of the tree lies below the root.
pub proof fn lemma_root_is_ancestor(x: int)
    requires
        0 <= x < MAX_LEAVES,
    ensures
        ancestor(x, DEPTH as nat) == 0,
{
    lemma_ancestor_is_div(x, DEPTH as nat);
    lemma2_to64();
    lemma_pow2_adds(32, 13);
    assert(pow2(DEPTH as nat) == 0x2000_0000_0000);
    lemma_basic_div(x, pow2(DEPTH as nat) as int);
}

/// A subtree with no occupied leaf below it hashes to the empty-subtree root
/// of its height.
pub proof fn lemma_empty_subtree(leaves: Map<u64, [u8; 32]>, level: nat, k: int)
    requires
        forall|key: u64| #[trigger] leaves.contains_key(key) ==> ancestor(key as int, level) != k,
    ensures
        subtree_hash(leaves, level, k) == zero_hash(level),
    decreases level,
{
    if level > 0 {
        let l1 = (level - 1) as nat;
        assert forall|key: u64| #[trigger] leaves.contains_key(key) implies ancestor(key as int, l1)
            != 2 * k by {
            assert(ancestor(key as int, level) == ancestor(key as int, l1) / 2);
        }
        assert forall|key: u64| #[trigger] leaves.contains_key(key) implies ancestor(key as int, l1)
            != 2 * k + 1 by {
            assert(ancestor(key as int, level) == ancestor(key as int, l1) / 2);
        }
        lemma_empty_subtree(leaves, l1, 2 * k);
        lemma_empty_subtree(leaves, l1, 2 * k + 1);
    } else {
        if 0 <= k <= u64::MAX && leaves.contains_key(k as u64) {
            assert(ancestor((k as u64) as int, 0) == k);
        }
        assert(empty_leaf() =~= zero_hash(0));
    }
}

/// Following the authentication path of an occupied position `level` steps up
/// from its leaf reaches that position's ancestor node.
pub proof fn lemma_path_reaches_ancestor(
    leaves: Map<u64, [u8; 32]>,
    index: u64,
    path: Seq<[u8; 32]>,
    level: nat,
)
    requires
        leaves.contains_key(index),
        level <= path.len(),
        forall|l: int| 0 <= l < level ==> #[trigger] path[l]@ == path_node(leaves, index as int, l as nat),
    ensures
        path_root(leaves[index]@, index as int, path, level) == subtree_hash(
            leaves,
            level,
            ancestor(index as int, level),
        ),
    decreases level,
{
    if level > 0 {
        let l1 = (level - 1) as nat;
        lemma_path_reaches_ancestor(leaves, index, path, l1);
        lemma_ancestor_range(index as int, l1);
        let a = ancestor(index as int, l1);
        let p = ancestor(index as int, level);
        assert(path[l1 as int]@ == path_node(leaves, index as int, l1));
        if a % 2 == 0 {
            assert(a == 2 * p && sibling(a) == 2 * p + 1);
        } else {
            assert(a == 2 * p + 1 && sibling(a) == 2 * p);
        }
    }
}

/// Membership: from an occupied leaf position, its authentication path in the
/// tree over `leaves` leads `compute_root` to the tree's root.
pub proof fn lemma_auth_path_leads_to_root(
    leaves: Map<u64, [u8; 32]>,
    index: u64,
    path: Seq<[u8; 32]>,
)
    requires
        leaves.contains_key(index),
        index < MAX_LEAVES,
        is_auth_path(leaves, index as int, path),
    ensures
        path_root(leaves[index]@, index as int, path, DEPTH as nat) == sparse_root(leaves),
{
    lemma_path_reaches_ancestor(leaves, index, path, DEPTH as nat);
    lemma_root_is_ancestor(index as int);
}

/// Why indexed leaves cannot form a tree.
#[derive(Clone, Copy, Debug, PartialEq, Eq, Structural)]
pub enum TreeError {
    /// No leaf was given.
    NoLeaves,
    /// A leaf index is not below `2^DEPTH`.
    IndexOutOfRange,
    /// Two leaves were given for the same index.
    DuplicateIndex,
}

/// The entries before position `j` have in-range indices, none repeated.
pub open spec fn entries_ok_before(entries: Seq<(u64, [u8; 32])>, j: int) -> bool {
    forall|k: int|
        0 <= k < j ==> (#[trigger] entries[k]).0 < MAX_LEAVES && forall|m: int|
            0 <= m < k ==> entries[m].0 != entries[k].0
}

/// Some entry holds index `key`.
pub open spec fn has_index(entries: Seq<(u64, [u8; 32])>, key: u64) -> bool {
    exists|m: int| 0 <= m < entries.len() && (#[trigger] entries[m]).0 == key
}

/// The leaves that `entries` place: each index mapped to its leaf.
pub open spec fn leaf_map(entries: Seq<(u64, [u8; 32])>) -> Map<u64, [u8; 32]> {
    Map::new(
        |key: u64| has_index(entries, key),
        |key: u64| entries[choose|m: int| 0 <= m < entries.len() && (#[trigger] entries[m]).0 == key].1,
    )
}

/// The error `build_sparse_tree` reports for `entries`, if any: the first
/// entry whose index is out of range or repeats an earlier one decides.
pub open spec fn tree_error(entries: Seq<(u64, [u8; 32])>) -> Option<TreeError> {
    if entries.len() == 0 {
        Some(TreeError::NoLeaves)
    } else if entries_ok_before(entries, entries.len() as int) {
        None
    } else {
        let j = choose|j: int|
            0 <= j < entries.len() && #[trigger] entries_ok_before(entries, j) && !entries_ok_before(
                entries,
                j + 1,
            );
        if entries[j].0 >= MAX_LEAVES {
            Some(TreeError::IndexOutOfRange)
        } else {
            Some(TreeError::DuplicateIndex)
        }
    }
}

/// The first bad entry, if there is one, is unique.
proof fn lemma_first_bad_entry(entries: Seq<(u64, [u8; 32])>, j: int)
    requires
        0 <= j < entries.len(),
        entries_ok_before(entries, j),
        !entries_ok_before(entries, j + 1),
    ensures
        tree_error(entries) == (if entries[j].0 >= MAX_LEAVES {
            Some(TreeError::IndexOutOfRange)
        } else {
            Some(TreeError::DuplicateIndex)
        }),
{
    let j2 = choose|j2: int|
        0 <= j2 < entries.len() && #[trigger] entries_ok_before(entries, j2) && !entries_ok_before(
            entries,
            j2 + 1,
        );
    assert(0 <= j2 < entries.len() && entries_ok_before(entries, j2) && !entries_ok_before(
        entries,
        j2 + 1,
    ));
    if j2 < j {
        assert(entries_ok_before(entries, j2 + 1)) by {
            assert forall|k: int| 0 <= k < j2 + 1 implies (#[trigger] entries[k]).0 < MAX_LEAVES
                && forall|m: int| 0 <= m < k ==> entries[m].0 != entries[k].0 by {
                assert(0 <= k < j);
            }
        }
    }
    if j < j2 {
        assert(entries_ok_before(entries, j + 1)) by {
            assert forall|k: int| 0 <= k < j + 1 implies (#[trigger] entries[k]).0 < MAX_LEAVES
                && forall|m: int| 0 <= m < k ==> entries[m].0 != entries[k].0 by {
                assert(0 <= k < j2);
            }
        }
    }
    assert(j == j2);
}

/// The parents of the occupied positions of one level.
fn collect_parents(current: &BTreeMap<u64, [u8; 32]>) -> (parents: BTreeSet<u64>)
    ensures
        forall|p: u64|
            parents@.contains(p) <==> exists|k: u64| #[trigger] current@.contains_key(k) && k / 2 == p,
{
    let mut parent_indices: BTreeSet<u64> = BTreeSet::new();
    let ghost mut seen: Set<u64> = Set::empty();
    for index in it: current.keys()
        invariant
            it.seq().unref().to_set() == current@.dom(),
            seen == it.seq().unref().take(it.index()).to_set(),
            it.index() == it.seq().len() ==> seen == current@.dom(),
            forall|p: u64|
                parent_indices@.contains(p) <==> exists|k: u64| #[trigger] seen.contains(k) && k / 2 == p,
    {
        parent_indices.insert(*index / 2);
        proof {
            let old_seen = seen;
            seen = seen.insert(*index);
            assert(it.seq().unref().take(it.index() + 1) =~= it.seq().unref().take(it.index()).push(
                *index,
            ));
            assert forall|p: u64| parent_indices@.contains(p) implies exists|k: u64|
                #[trigger] seen.contains(k) && k / 2 == p by {
                if p != *index / 2 {
                    let k = choose|k: u64| #[trigger] old_seen.contains(k) && k / 2 == p;
                    assert(seen.contains(k));
                } else {
                    assert(seen.contains(*index));
                }
            }
            assert(it.seq().unref().take(it.seq().len() as int) =~= it.seq().unref());
        }
    }
    parent_indices
}

/// The node value of child position `c` at `level`: the map's entry when it
/// has one, else the empty-subtree root, which is then the subtree's hash.
proof fn lemma_child_value(
    current: Map<u64, [u8; 32]>,
    leaves: Map<u64, [u8; 32]>,
    level: nat,
    c: u64,
    value: [u8; 32],
)
    requires
        forall|k: u64| #[trigger]
            current.contains_key(k) ==> current[k]@ == subtree_hash(leaves, level, k as int),
        forall|key: u64| #[trigger]
            leaves.contains_key(key) ==> current.contains_key(ancestor(key as int, level) as u64),
        current.contains_key(c) ==> value == current[c],
        !current.contains_key(c) ==> value@ == zero_hash(level),
    ensures
        value@ == subtree_hash(leaves, level, c as int),
{
    if !current.contains_key(c) {
        assert forall|key: u64| #[trigger] leaves.contains_key(key) implies ancestor(key as int, level)
            != c by {
            lemma_ancestor_range(key as int, level);
            assert(current.contains_key(ancestor(key as int, level) as u64));
        }
        lemma_empty_subtree(leaves, level, c as int);
    }
}

/// The nodes of the level above `current`: one per parent position, each the
/// hash of its two children, an absent child standing for an empty subtree.
fn hash_parent_level(
    current: &BTreeMap<u64, [u8; 32]>,
    parents: &BTreeSet<u64>,
    level: usize,
    zeros: &Vec<[u8; 32]>,
    Ghost(leaves): Ghost<Map<u64, [u8; 32]>>,
) -> (next: BTreeMap<u64, [u8; 32]>)
    requires
        level < DEPTH,
        zeros@.len() == DEPTH + 1,
        forall|l: int| 0 <= l <= DEPTH ==> #[trigger] zeros@[l]@ == zero_hash(l as nat),
        forall|k: u64| #[trigger] current@.contains_key(k) ==> k < MAX_LEAVES,
        forall|k: u64| #[trigger]
            current@.contains_key(k) ==> current@[k]@ == subtree_hash(leaves, level as nat, k as int),
        forall|key: u64| #[trigger]
            leaves.contains_key(key) ==> current@.contains_key(
                ancestor(key as int, level as nat) as u64,
            ),
        forall|p: u64|
            parents@.contains(p) <==> exists|k: u64| #[trigger] current@.contains_key(k) && k / 2 == p,
    ensures
        forall|p: u64| next@.contains_key(p) <==> parents@.contains(p),
        forall|p: u64| #[trigger]
            next@.contains_key(p) ==> next@[p]@ == subtree_hash(leaves, (level + 1) as nat, p as int),
{
    let mut next: BTreeMap<u64, [u8; 32]> = BTreeMap::new();
    let ghost mut seen: Set<u64> = Set::empty();
    for parent_index in it: parents.iter()
        invariant
            level < DEPTH,
            zeros@.len() == DEPTH + 1,
            forall|l: int| 0 <= l <= DEPTH ==> #[trigger] zeros@[l]@ == zero_hash(l as nat),
            forall|k: u64| #[trigger] current@.contains_key(k) ==> k < MAX_LEAVES,
            forall|k: u64| #[trigger]
                current@.contains_key(k) ==> current@[k]@ == subtree_hash(
                    leaves,
                    level as nat,
                    k as int,
                ),
            forall|key: u64| #[trigger]
                leaves.contains_key(key) ==> current@.contains_key(
                    ancestor(key as int, level as nat) as u64,
                ),
            forall|p: u64|
                parents@.contains(p) <==> exists|k: u64|
                    #[trigger] current@.contains_key(k) && k / 2 == p,
            it.seq().unref().to_set() == parents@,
            seen == it.seq().unref().take(it.index()).to_set(),
            it.index() == it.seq().len() ==> seen == parents@,
            forall|p: u64| next@.contains_key(p) <==> seen.contains(p),
            forall|p: u64| #[trigger]
                next@.contains_key(p) ==> next@[p]@ == subtree_hash(
                    leaves,
                    (level + 1) as nat,
                    p as int,
                ),
    {
        let p = *parent_index;
        proof {
            assert(it.seq().unref().to_set().contains(it.seq().unref()[it.index()]));
            assert(parents@.contains(p));
            let k = choose|k: u64| #[trigger] current@.contains_key(k) && k / 2 == p;
            assert(k < MAX_LEAVES);
        }
        let left_index = p * 2;
        let right_index = left_index + 1;
        let left = *current.get(&left_index).unwrap_or(&zeros[level]);
        let right = *current.get(&right_index).unwrap_or(&zeros[level]);
        proof {
            lemma_child_value(current@, leaves, level as nat, left_index, left);
            lemma_child_value(current@, leaves, level as nat, right_index, right);
        }
        let parent = hash_node(level as u32, &left, &right);
        next.insert(p, parent);
        proof {
            seen = seen.insert(p);
            assert(it.seq().unref().take(it.index() + 1) =~= it.seq().unref().take(it.index()).push(
                p,
            ));
            assert(it.seq().unref().take(it.seq().len() as int) =~= it.seq().unref());
        }
    }
    next
}

proof fn lemma_flip_low_bit(x: u64)
    ensures
        (x ^ 1) as int == sibling(x as int),
{
    assert(x % 2 == 0 ==> x ^ 1 == x + 1) by (bit_vector);
    assert(x % 2 == 1 ==> x ^ 1 == x - 1) by (bit_vector);
}

/// Writes, for every leaf, the level-`level` node of its authentication path:
/// the sibling of the leaf's ancestor at that level.
fn fill_path_level(
    paths: &mut Vec<[[u8; 32]; DEPTH]>,
    positions: &Vec<u64>,
    current: &BTreeMap<u64, [u8; 32]>,
    level: usize,
    zeros: &Vec<[u8; 32]>,
    Ghost(leaves): Ghost<Map<u64, [u8; 32]>>,
    Ghost(entries): Ghost<Seq<(u64, [u8; 32])>>,
)
    requires
        level < DEPTH,
        zeros@.len() == DEPTH + 1,
        forall|l: int| 0 <= l <= DEPTH ==> #[trigger] zeros@[l]@ == zero_hash(l as nat),
        old(paths)@.len() == entries.len(),
        positions@.len() == entries.len(),
        forall|m: int| 0 <= m < entries.len() ==> (#[trigger] positions@[m]) as int == ancestor(
            entries[m].0 as int,
            level as nat,
        ),
        forall|key: u64| leaves.contains_key(key) <==> has_index(entries, key),
        forall|k: u64| current@.contains_key(k) <==> exists|m: int|
            0 <= m < entries.len() && #[trigger] positions@[m] == k,
        forall|k: u64| #[trigger]
            current@.contains_key(k) ==> current@[k]@ == subtree_hash(leaves, level as nat, k as int),
    ensures
        final(paths)@.len() == old(paths)@.len(),
        forall|m: int, l: int|
            0 <= m < entries.len() && 0 <= l < DEPTH && l != level ==> #[trigger] final(paths)@[m]@[l]
                == old(paths)@[m]@[l],
        forall|m: int|
            0 <= m < entries.len() ==> #[trigger] final(paths)@[m]@[level as int]@ == path_node(
                leaves,
                entries[m].0 as int,
                level as nat,
            ),
{
    proof {
        assert forall|key: u64| #[trigger] leaves.contains_key(key) implies current@.contains_key(
            ancestor(key as int, level as nat) as u64,
        ) by {
            assert(has_index(entries, key));
            let m = choose|m: int| 0 <= m < entries.len() && (#[trigger] entries[m]).0 == key;
            assert(positions@[m] as int == ancestor(key as int, level as nat));
        }
    }
    let ghost start = paths@;
    let n = positions.len();
    let mut i: usize = 0;
    while i < n
        invariant
            level < DEPTH,
            n == positions@.len() == entries.len() == paths@.len(),
            zeros@.len() == DEPTH + 1,
            forall|l: int| 0 <= l <= DEPTH ==> #[trigger] zeros@[l]@ == zero_hash(l as nat),
            forall|m: int| 0 <= m < entries.len() ==> (#[trigger] positions@[m]) as int == ancestor(
                entries[m].0 as int,
                level as nat,
            ),
            forall|k: u64| #[trigger]
                current@.contains_key(k) ==> current@[k]@ == subtree_hash(
                    leaves,
                    level as nat,
                    k as int,
                ),
            forall|key: u64| #[trigger]
                leaves.contains_key(key) ==> current@.contains_key(
                    ancestor(key as int, level as nat) as u64,
                ),
            i <= n,
            forall|m: int, l: int|
                0 <= m < n && 0 <= l < DEPTH && l != level ==> #[trigger] paths@[m]@[l]
                    == start[m]@[l],
            forall|m: int|
                0 <= m < i ==> #[trigger] paths@[m]@[level as int]@ == path_node(
                    leaves,
                    entries[m].0 as int,
                    level as nat,
                ),
        decreases n - i,
    {
        let sibling_index = positions[i] ^ 1;
        let node = *current.get(&sibling_index).unwrap_or(&zeros[level]);
        proof {
            lemma_flip_low_bit(positions@[i as int]);
            lemma_child_value(current@, leaves, level as nat, sibling_index, node);
        }
        let mut path = paths[i];
        path[level] = node;
        paths.set(i, path);
        i = i + 1;
    }
}

/// The root of the depth-`DEPTH` tree whose occupied leaf positions are given
/// by `indexed_leaves` (position, leaf), and for each given leaf, in order, its
/// authentication path.
pub fn build_sparse_tree(indexed_leaves: &[(u64, [u8; 32])]) -> (res: Result<
    ([u8; 32], Vec<[[u8; 32]; DEPTH]>),
    TreeError,
>)
    ensures
        match res {
            Err(e) => tree_error(indexed_leaves@) == Some(e),
            Ok((root, paths)) => {
                let entries = indexed_leaves@;
                let leaves = leaf_map(entries);
                &&& tree_error(entries) is None
                &&& root@ == sparse_root(leaves)
                &&& paths@.len() == entries.len()
                &&& forall|i: int|
                    0 <= i < entries.len() ==> {
                        &&& leaves.contains_key(#[trigger] entries[i].0)
                        &&& leaves[entries[i].0] == entries[i].1
                        &&& is_auth_path(leaves, entries[i].0 as int, paths@[i]@)
                    }
            },
        },
{
    let ghost entries = indexed_leaves@;
    let n = indexed_leaves.len();
    if n == 0 {
        return Err(TreeError::NoLeaves);
    }
    let max_leaves: u64 = 1u64 << (DEPTH as u64);
    assert(1u64 << 45u64 == 0x2000_0000_0000u64) by (bit_vector);
    let zeros = zero_hashes();

    let mut current: BTreeMap<u64, [u8; 32]> = BTreeMap::new();
    let mut positions: Vec<u64> = Vec::with_capacity(n);
    let mut i: usize = 0;
    while i < n
        invariant
            n == entries.len() > 0,
            entries == indexed_leaves@,
            max_leaves == MAX_LEAVES,
            i <= n,
            entries_ok_before(entries, i as int),
            positions@.len() == i,
            forall|m: int| 0 <= m < i ==> #[trigger] positions@[m] == entries[m].0,
            forall|key: u64| current@.contains_key(key) <==> exists|m: int|
                0 <= m < i && (#[trigger] entries[m]).0 == key,
            forall|m: int| 0 <= m < i ==> current@[(#[trigger] entries[m]).0] == entries[m].1,
        decreases n - i,
    {
        let (index, leaf) = indexed_leaves[i];
        if index >= max_leaves {
            proof {
                lemma_first_bad_entry(entries, i as int);
            }
            return Err(TreeError::IndexOutOfRange);
        }
        if current.insert(index, leaf).is_some() {
            proof {
                let m = choose|m: int| 0 <= m < i && (#[trigger] entries[m]).0 == index;
                assert(entries[m].0 == entries[i as int].0);
                lemma_first_bad_entry(entries, i as int);
            }
            return Err(TreeError::DuplicateIndex);
        }
        positions.push(index);
        i = i + 1;
    }
    let ghost leaves = leaf_map(entries);
    proof {
        assert forall|key: u64| current@.contains_key(key) <==> leaves.contains_key(key) by {
            if current@.contains_key(key) {
                let m = choose|m: int| 0 <= m < n && (#[trigger] entries[m]).0 == key;
                assert(has_index(entries, key));
            }
            if has_index(entries, key) {
                let m = choose|m: int| 0 <= m < n && (#[trigger] entries[m]).0 == key;
            }
        }
        assert forall|key: u64| current@.contains_key(key) implies current@[key] == leaves[key] by {
            let m = choose|m: int| 0 <= m < n && (#[trigger] entries[m]).0 == key;
            assert(has_index(entries, key));
        }
        assert(current@ =~= leaves);
        assert forall|m: int| 0 <= m < n implies (#[trigger] entries[m]).0 < MAX_LEAVES by {}
        assert forall|k: u64| current@.contains_key(k) <==> exists|m: int|
            0 <= m < n && #[trigger] positions@[m] == k by {
            if current@.contains_key(k) {
                let m = choose|m: int| 0 <= m < n && (#[trigger] entries[m]).0 == k;
                assert(positions@[m] == k);
            }
            if exists|m: int| 0 <= m < n && #[trigger] positions@[m] == k {
                let m = choose|m: int| 0 <= m < n && #[trigger] positions@[m] == k;
                assert(entries[m].0 == k);
            }
        }
        assert(ancestor(0, 0) == 0);
    }

    let mut paths: Vec<[[u8; 32]; DEPTH]> = vec![[[0u8; 32]; DEPTH]; n];
    let mut level: usize = 0;
    while level < DEPTH
        invariant
            level <= DEPTH,
            n == entries.len() == positions@.len() == paths@.len(),
            zeros@.len() == DEPTH + 1,
            forall|l: int| 0 <= l <= DEPTH ==> #[trigger] zeros@[l]@ == zero_hash(l as nat),
            forall|m: int| 0 <= m < n ==> (#[trigger] entries[m]).0 < MAX_LEAVES,
            forall|key: u64| leaves.contains_key(key) <==> has_index(entries, key),
            forall|m: int| 0 <= m < n ==> (#[trigger] positions@[m]) as int == ancestor(
                entries[m].0 as int,
                level as nat,
            ),
            forall|k: u64| current@.contains_key(k) <==> exists|m: int|
                0 <= m < n && #[trigger] positions@[m] == k,
            forall|k: u64| #[trigger]
                current@.contains_key(k) ==> current@[k]@ == subtree_hash(
                    leaves,
                    level as nat,
                    k as int,
                ),
            forall|m: int, l: int|
                0 <= m < n && 0 <= l < level ==> #[trigger] paths@[m]@[l]@ == path_node(
                    leaves,
                    entries[m].0 as int,
                    l as nat,
                ),
        decreases DEPTH - level,
    {
        let ghost before = paths@;
        fill_path_level(
            &mut paths,
            &positions,
            &current,
            level,
            &zeros,
            Ghost(leaves),
            Ghost(entries),
        );
        proof {
            assert forall|m: int, l: int| 0 <= m < n && 0 <= l < level + 1 implies #[trigger] paths@[m]@[l]@
                == path_node(leaves, entries[m].0 as int, l as nat) by {
                if l < level {
                    assert(paths@[m]@[l] == before[m]@[l]);
                }
            }
            assert forall|k: u64| #[trigger] current@.contains_key(k) implies k < MAX_LEAVES by {
                let m = choose|m: int| 0 <= m < n && #[trigger] positions@[m] == k;
                lemma_ancestor_range(entries[m].0 as int, level as nat);
            }
            assert forall|key: u64| #[trigger] leaves.contains_key(key) implies current@.contains_key(
                ancestor(key as int, level as nat) as u64,
            ) by {
                assert(has_index(entries, key));
                let m = choose|m: int| 0 <= m < entries.len() && (#[trigger] entries[m]).0 == key;
                assert(positions@[m] as int == ancestor(key as int, level as nat));
            }
        }
        let parents = collect_parents(&current);
        let next = hash_parent_level(&current, &parents, level, &zeros, Ghost(leaves));
        let ghost old_positions = positions@;
        let ghost old_current = current@;
        current = next;

        let mut i: usize = 0;
        while i < n
            invariant
                n == positions@.len() == old_positions.len(),
                i <= n,
                forall|m: int| 0 <= m < i ==> #[trigger] positions@[m] == old_positions[m] / 2,
                forall|m: int| i <= m < n ==> #[trigger] positions@[m] == old_positions[m],
            decreases n - i,
        {
            let halved = positions[i] / 2;
            positions.set(i, halved);
            i = i + 1;
        }
        proof {
            assert forall|k: u64| current@.contains_key(k) <==> exists|m: int|
                0 <= m < n && #[trigger] positions@[m] == k by {
                if current@.contains_key(k) {
                    assert(next@.contains_key(k));
                    assert(parents@.contains(k));
                    let c = choose|c: u64| #[trigger] old_current.contains_key(c) && c / 2 == k;
                    let m = choose|m: int| 0 <= m < n && #[trigger] old_positions[m] == c;
                    assert(positions@[m] == k);
                }
                if exists|m: int| 0 <= m < n && #[trigger] positions@[m] == k {
                    let m = choose|m: int| 0 <= m < n && #[trigger] positions@[m] == k;
                    assert(old_current.contains_key(old_positions[m]));
                    assert(parents@.contains(k));
                }
            }
        }
        level = level + 1;
    }
    let root = *current.get(&0).unwrap_or(&zeros[DEPTH]);
    proof {
        assert forall|key: u64| #[trigger] leaves.contains_key(key) implies current@.contains_key(
            ancestor(key as int, DEPTH as nat) as u64,
        ) by {
            assert(has_index(entries, key));
            let m = choose|m: int| 0 <= m < entries.len() && (#[trigger] entries[m]).0 == key;
            assert(positions@[m] as int == ancestor(key as int, DEPTH as nat));
        }
        lemma_child_value(current@, leaves, DEPTH as nat, 0, root);
        assert forall|i: int| 0 <= i < n implies {
            &&& leaves.contains_key(#[trigger] entries[i].0)
            &&& leaves[entries[i].0] == entries[i].1
            &&& is_auth_path(leaves, entries[i].0 as int, paths@[i]@)
        } by {
            assert(has_index(entries, entries[i].0));
            let m = choose|m: int| 0 <= m < n && (#[trigger] entries[m]).0 == entries[i].0;
            assert(entries_ok_before(entries, n as int));
            if m != i {
                if m < i {
                    assert(entries[m].0 != entries[i].0);
                } else {
                    assert(entries[i].0 != entries[m].0);
                }
            }
            assert(paths@[i]@.len() == DEPTH);
        }
    }
    Ok((root, paths))
}

/// Membership, stated for the indexed leaves a tree is built from: when
/// `build_sparse_tree` accepts `entries`, every leaf, taken with its position
/// and an authentication path of that position, leads `compute_root` to the
/// tree's root.
pub proof fn lemma_built_paths_lead_to_root(
    entries: Seq<(u64, [u8; 32])>,
    i: int,
    path: Seq<[u8; 32]>,
)
    requires
        tree_error(entries) is None,
        0 <= i < entries.len(),
        is_auth_path(leaf_map(entries), entries[i].0 as int, path),
    ensures
        path_root(entries[i].1@, entries[i].0 as int, path, DEPTH as nat) == sparse_root(
            leaf_map(entries),
        ),
{
    let leaves = leaf_map(entries);
    let key = entries[i].0;
    assert(entries_ok_before(entries, entries.len() as int));
    assert(has_index(entries, key));
    let m = choose|m: int| 0 <= m < entries.len() && (#[trigger] entries[m]).0 == key;
    if m != i {
        if m < i {
            assert(entries[m].0 != entries[i].0);
        } else {
            assert(entries[i].0 != entries[m].0);
        }
    }
    assert(leaves[key] == entries[i].1);
    lemma_auth_path_leads_to_root(leaves, key, path);
}

/// `perm` and `inv` are inverse permutations of `0..n`.
pub open spec fn inverse_permutations(perm: Seq<int>, inv: Seq<int>, n: nat) -> bool {
    &&& perm.len() == n
    &&& inv.len() == n
    &&& forall|k: int| 0 <= k < n ==> 0 <= #[trigger] perm[k] < n && inv[perm[k]] == k
    &&& forall|k: int| 0 <= k < n ==> 0 <= #[trigger] inv[k] < n && perm[inv[k]] == k
}

/// Reordering well-formed entries keeps them well-formed.
proof fn lemma_reordered_ok(
    entries: Seq<(u64, [u8; 32])>,
    reordered: Seq<(u64, [u8; 32])>,
    perm: Seq<int>,
    inv: Seq<int>,
)
    requires
        inverse_permutations(perm, inv, entries.len()),
        reordered.len() == entries.len(),
        forall|k: int| 0 <= k < reordered.len() ==> #[trigger] reordered[k] == entries[perm[k]],
        entries_ok_before(entries, entries.len() as int),
    ensures
        entries_ok_before(reordered, reordered.len() as int),
{
    assert forall|k: int| 0 <= k < reordered.len() implies (#[trigger] reordered[k]).0 < MAX_LEAVES
        && forall|m: int| 0 <= m < k ==> reordered[m].0 != reordered[k].0 by {
        assert(reordered[k] == entries[perm[k]]);
        assert forall|m: int| 0 <= m < k implies reordered[m].0 != reordered[k].0 by {
            assert(reordered[m] == entries[perm[m]]);
            assert(perm[m] != perm[k]);
            if perm[m] < perm[k] {
                assert(entries[perm[k]].0 != entries[perm[m]].0);
            } else {
                assert(entries[perm[m]].0 != entries[perm[k]].0);
            }
        }
    }
}

/// In well-formed entries, the leaf map sends each entry's index to its leaf.
proof fn lemma_leaf_map_at(entries: Seq<(u64, [u8; 32])>, i: int)
    requires
        entries_ok_before(entries, entries.len() as int),
        0 <= i < entries.len(),
    ensures
        leaf_map(entries).contains_key(entries[i].0),
        leaf_map(entries)[entries[i].0] == entries[i].1,
{
    let key = entries[i].0;
    assert(has_index(entries, key));
    let m = choose|m: int| 0 <= m < entries.len() && (#[trigger] entries[m]).0 == key;
    if m != i {
        if m < i {
            assert(entries[m].0 != entries[i].0);
        } else {
            assert(entries[i].0 != entries[m].0);
        }
    }
}

/// An authentication path is determined by the tree and the position.
pub proof fn lemma_auth_path_unique(
    leaves: Map<u64, [u8; 32]>,
    index: int,
    path: Seq<[u8; 32]>,
    other: Seq<[u8; 32]>,
)
    requires
        is_auth_path(leaves, index, path),
        is_auth_path(leaves, index, other),
    ensures
        path == other,
{
    assert forall|l: int| 0 <= l < path.len() implies path[l] == other[l] by {
        assert(path[l]@ == path_node(leaves, index, l as nat));
        assert(other[l]@ == path_node(leaves, index, l as nat));
        assert(path[l] =~= other[l]);
    }
    assert(path =~= other);
}

/// The order of the leaves does not matter: indexed leaves that
/// `build_sparse_tree` accepts, taken in another order, are accepted too,
/// place the same leaves, give the same root, and give each leaf the same
/// authentication path.
pub proof fn lemma_tree_ignores_leaf_order(
    entries: Seq<(u64, [u8; 32])>,
    reordered: Seq<(u64, [u8; 32])>,
    perm: Seq<int>,
    inv: Seq<int>,
)
    requires
        inverse_permutations(perm, inv, entries.len()),
        reordered.len() == entries.len(),
        forall|k: int| 0 <= k < reordered.len() ==> #[trigger] reordered[k] == entries[perm[k]],
        tree_error(entries) is None,
    ensures
        tree_error(reordered) is None,
        leaf_map(reordered) == leaf_map(entries),
        sparse_root(leaf_map(reordered)) == sparse_root(leaf_map(entries)),
        forall|k: int, path: Seq<[u8; 32]>, other: Seq<[u8; 32]>|
            0 <= k < reordered.len() && #[trigger] is_auth_path(
                leaf_map(reordered),
                reordered[k].0 as int,
                path,
            ) && #[trigger] is_auth_path(leaf_map(entries), entries[perm[k]].0 as int, other)
                ==> path == other,
{
    let n = entries.len();
    assert(entries_ok_before(entries, n as int));
    assert(n > 0);
    lemma_reordered_ok(entries, reordered, perm, inv);
    assert forall|key: u64| #[trigger] leaf_map(reordered).contains_key(key) <==> leaf_map(
        entries,
    ).contains_key(key) by {
        if has_index(reordered, key) {
            let k = choose|k: int| 0 <= k < reordered.len() && (#[trigger] reordered[k]).0 == key;
            assert(reordered[k] == entries[perm[k]]);
            assert(has_index(entries, key));
        }
        if has_index(entries, key) {
            let j = choose|j: int| 0 <= j < entries.len() && (#[trigger] entries[j]).0 == key;
            assert(reordered[inv[j]] == entries[perm[inv[j]]]);
            assert(has_index(reordered, key));
        }
    }
    assert forall|key: u64| #[trigger] leaf_map(reordered).contains_key(key) implies leaf_map(
        reordered,
    )[key] == leaf_map(entries)[key] by {
        assert(has_index(reordered, key));
        let k = choose|k: int| 0 <= k < reordered.len() && (#[trigger] reordered[k]).0 == key;
        assert(reordered[k] == entries[perm[k]]);
        lemma_leaf_map_at(reordered, k);
        lemma_leaf_map_at(entries, perm[k]);
    }
    assert(leaf_map(reordered) =~= leaf_map(entries));
    assert forall|k: int, path: Seq<[u8; 32]>, other: Seq<[u8; 32]>|
        0 <= k < reordered.len() && #[trigger] is_auth_path(
            leaf_map(reordered),
            reordered[k].0 as int,
            path,
        ) && #[trigger] is_auth_path(leaf_map(entries), entries[perm[k]].0 as int, other) implies path
        == other by {
        assert(reordered[k] == entries[perm[k]]);
        lemma_auth_path_unique(leaf_map(entries), entries[perm[k]].0 as int, path, other);
    }
}

/// When building a tree fails, and only then: `build_sparse_tree` accepts
/// every non-empty list of indexed leaves whose indices are below `2^DEPTH`
/// and pairwise distinct, and each error it gives has its named cause: no
/// leaves, an index not below `2^DEPTH`, or an index given twice.
pub proof fn lemma_tree_error_causes(entries: Seq<(u64, [u8; 32])>)
    ensures
        (entries.len() > 0 && (forall|i: int| 0 <= i < entries.len() ==> (#[trigger] entries[i]).0
            < MAX_LEAVES) && (forall|i: int, j: int|
            0 <= i < j < entries.len() ==> #[trigger] entries[i].0 != #[trigger] entries[j].0))
            ==> tree_error(entries) is None,
        tree_error(entries) == Some(TreeError::NoLeaves) ==> entries.len() == 0,
        tree_error(entries) == Some(TreeError::IndexOutOfRange) ==> exists|i: int|
            0 <= i < entries.len() && (#[trigger] entries[i]).0 >= MAX_LEAVES,
        tree_error(entries) == Some(TreeError::DuplicateIndex) ==> exists|i: int, j: int|
            0 <= i < j < entries.len() && #[trigger] entries[i].0 == #[trigger] entries[j].0,
{
    if entries.len() > 0 && !entries_ok_before(entries, entries.len() as int) {
        let k = choose|k: int|
            0 <= k < entries.len() && !((#[trigger] entries[k]).0 < MAX_LEAVES && forall|m: int|
                0 <= m < k ==> entries[m].0 != entries[k].0);
        // the first bad entry is at most `k`
        let j = choose|j: int|
            0 <= j < entries.len() && #[trigger] entries_ok_before(entries, j) && !entries_ok_before(
                entries,
                j + 1,
            );
        if !(exists|j: int|
            0 <= j < entries.len() && #[trigger] entries_ok_before(entries, j) && !entries_ok_before(
                entries,
                j + 1,
            )) {
            lemma_first_bad_exists(entries, k);
        }
        assert(0 <= j < entries.len() && entries_ok_before(entries, j) && !entries_ok_before(
            entries,
            j + 1,
        ));
        assert(!((entries[j]).0 < MAX_LEAVES && forall|m: int|
            0 <= m < j ==> entries[m].0 != entries[j].0)) by {
            if (entries[j]).0 < MAX_LEAVES && forall|m: int| 0 <= m < j ==> entries[m].0 != entries[j].0 {
                assert(entries_ok_before(entries, j + 1));
            }
        }
        if entries[j].0 >= MAX_LEAVES {
            assert(tree_error(entries) == Some(TreeError::IndexOutOfRange));
        } else {
            let m = choose|m: int| 0 <= m < j && entries[m].0 == entries[j].0;
            assert(entries[m].0 == entries[j].0);
        }
    }
}

/// Some prefix is the longest that is well-formed, if the whole is not.
proof fn lemma_first_bad_exists(entries: Seq<(u64, [u8; 32])>, k: int)
    requires
        0 <= k < entries.len(),
        !((entries[k]).0 < MAX_LEAVES && forall|m: int| 0 <= m < k ==> entries[m].0 != entries[k].0),
    ensures
        exists|j: int|
            0 <= j < entries.len() && #[trigger] entries_ok_before(entries, j) && !entries_ok_before(
                entries,
                j + 1,
            ),
    decreases k,
{
    if entries_ok_before(entries, k) {
        assert(!entries_ok_before(entries, k + 1));
        assert(entries_ok_before(entries, k));
    } else {
        let k2 = choose|k2: int|
            0 <= k2 < k && !((#[trigger] entries[k2]).0 < MAX_LEAVES && forall|m: int|
                0 <= m < k2 ==> entries[m].0 != entries[k2].0);
        lemma_first_bad_exists(entries, k2);
    }
}

} // verus!
