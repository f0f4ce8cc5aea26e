//! Append-only Merkle log with inclusion and consistency proofs.
//!
//! The tree structure, proof construction, and proof verification follow the
//! append-only log described in RFC 6962 and RFC 9162 (Certificate
//! Transparency), with BLAKE3 in place of SHA-256 and an additional domain
//! separation tag on every node.
//!
//! Two properties matter, and they are why this structure is used rather than a
//! chained hash over entries:
//!
//! - **Concurrency.** A leaf hash depends only on its own entry, so leaves can be
//!   computed in parallel by unrelated writers. Only the sequencing step is
//!   ordered, and it is cheap.
//! - **Selective disclosure.** An inclusion proof establishes that one entry sits
//!   at one index under a published root, in `O(log n)` hashes, without revealing
//!   any other entry. A chained hash cannot do this.
//!
//! A consistency proof establishes that one tree is a prefix of another — that
//! the log was appended to and never rewritten.
//!
//! # The model
//!
//! A tree is described from its leaves upward. [`parents`] pairs the nodes of
//! one level into the nodes of the next, carrying an unpaired last node up
//! unchanged; [`tree`] is the root that the recursive definition gives, and
//! pairing a level does not change it. Proof paths are read off level by level
//! from the same picture.

use crate::hash::{self, tagged, Digest};
use crate::tag;
use vstd::arithmetic::power2::*;
use vstd::prelude::*;
use vstd::slice::*;
use vstd::utf8::*;

verus! {

// ── node hashing ────────────────────────────────────────────────────────────

/// The root of the empty tree.
pub open spec fn empty_tree() -> Digest {
    hash::tagged_hash(encode_utf8(tag::MERKLE_EMPTY_V1@), Seq::empty())
}

/// The node a leaf payload hashes to.
pub open spec fn leaf_node(payload: Digest) -> Digest {
    hash::tagged_hash(encode_utf8(tag::MERKLE_LEAF_V1@), payload@)
}

/// The interior node over two children.
pub open spec fn join(left: Digest, right: Digest) -> Digest {
    hash::tagged_hash(encode_utf8(tag::MERKLE_NODE_V1@), left@ + right@)
}

/// The root hash of an empty log.
#[must_use]
pub fn empty_root() -> (root: Digest)
    ensures
        root == empty_tree(),
{
    let none: [u8; 0] = [];
    assert(none@ =~= Seq::<u8>::empty());
    tagged(tag::MERKLE_EMPTY_V1.as_bytes(), none.as_slice())
}

/// Hashes a leaf's payload into a leaf node.
#[must_use]
pub fn leaf_hash(payload: &Digest) -> (node: Digest)
    ensures
        node == leaf_node(*payload),
{
    tagged(tag::MERKLE_LEAF_V1.as_bytes(), payload.bytes.as_slice())
}

/// Combines two child hashes into an interior node.
#[must_use]
pub fn node_hash(left: &Digest, right: &Digest) -> (node: Digest)
    ensures
        node == join(*left, *right),
{
    let mut buf: Vec<u8> = Vec::with_capacity(2 * Digest::LEN);
    buf.extend_from_slice(left.bytes.as_slice());
    buf.extend_from_slice(right.bytes.as_slice());
    assert(buf@ =~= left@ + right@);
    tagged(tag::MERKLE_NODE_V1.as_bytes(), buf.as_slice())
}

proof fn lemma_tags_are_short()
    ensures
        encode_utf8(tag::MERKLE_EMPTY_V1@).len() <= u64::MAX,
        encode_utf8(tag::MERKLE_LEAF_V1@).len() <= u64::MAX,
        encode_utf8(tag::MERKLE_NODE_V1@).len() <= u64::MAX,
{
    reveal_strlit("doubleentry/merkle/empty/v1");
    reveal_strlit("doubleentry/merkle/leaf/v1");
    reveal_strlit("doubleentry/merkle/node/v1");
    assert(is_ascii_chars(tag::MERKLE_EMPTY_V1@));
    assert(is_ascii_chars(tag::MERKLE_LEAF_V1@));
    assert(is_ascii_chars(tag::MERKLE_NODE_V1@));
    is_ascii_chars_encode_utf8(tag::MERKLE_EMPTY_V1@);
    is_ascii_chars_encode_utf8(tag::MERKLE_LEAF_V1@);
    is_ascii_chars_encode_utf8(tag::MERKLE_NODE_V1@);
}

/// The bytes hashed for the empty tree.
pub open spec fn empty_input() -> Seq<u8> {
    hash::tagged_preimage(encode_utf8(tag::MERKLE_EMPTY_V1@), Seq::empty())
}

/// The bytes hashed for a leaf.
pub open spec fn leaf_input(payload: Digest) -> Seq<u8> {
    hash::tagged_preimage(encode_utf8(tag::MERKLE_LEAF_V1@), payload@)
}

/// The bytes hashed for an interior node.
pub open spec fn join_input(left: Digest, right: Digest) -> Seq<u8> {
    hash::tagged_preimage(encode_utf8(tag::MERKLE_NODE_V1@), left@ + right@)
}

/// Two leaf nodes agree only if their payloads do.
pub proof fn lemma_leaf_binds(a: Digest, b: Digest, hashed: Set<Seq<u8>>)
    requires
        leaf_node(a) == leaf_node(b),
        hash::collision_free(hashed),
        hashed.contains(leaf_input(a)),
        hashed.contains(leaf_input(b)),
    ensures
        a == b,
{
    lemma_tags_are_short();
    let t = encode_utf8(tag::MERKLE_LEAF_V1@);
    hash::lemma_tagged_hash_binds(t, a@, t, b@, hashed);
    hash::lemma_hash_bytes_determine(a, b);
}

/// Two interior nodes agree only if both children do.
pub proof fn lemma_join_binds(a: Digest, b: Digest, c: Digest, d: Digest, hashed: Set<Seq<u8>>)
    requires
        join(a, b) == join(c, d),
        hash::collision_free(hashed),
        hashed.contains(join_input(a, b)),
        hashed.contains(join_input(c, d)),
    ensures
        a == c,
        b == d,
{
    lemma_tags_are_short();
    let t = encode_utf8(tag::MERKLE_NODE_V1@);
    hash::lemma_tagged_hash_binds(t, a@ + b@, t, c@ + d@, hashed);
    crate::canonical::lemma_split_at(a@, c@, b@, d@);
    hash::lemma_hash_bytes_determine(a, c);
    hash::lemma_hash_bytes_determine(b, d);
}

/// A leaf can never be taken for an interior node, nor either for the empty
/// tree: the domains are separated.
pub proof fn law_node_kinds_are_separated(payload: Digest, left: Digest, right: Digest)
    requires
        hash::collision_free(set![leaf_input(payload), join_input(left, right), empty_input()]),
    ensures
        leaf_node(payload) != join(left, right),
        leaf_node(payload) != empty_tree(),
        join(left, right) != empty_tree(),
{
    lemma_tags_are_short();
    let hashed = set![leaf_input(payload), join_input(left, right), empty_input()];
    let empty_tag = encode_utf8(tag::MERKLE_EMPTY_V1@);
    let leaf_tag = encode_utf8(tag::MERKLE_LEAF_V1@);
    let node_tag = encode_utf8(tag::MERKLE_NODE_V1@);
    assert(payload@.len() == 32);
    assert((left@ + right@).len() == 64);
    if leaf_node(payload) == join(left, right) {
        hash::lemma_tagged_hash_binds(leaf_tag, payload@, node_tag, left@ + right@, hashed);
    }
    if leaf_node(payload) == empty_tree() {
        hash::lemma_tagged_hash_binds(leaf_tag, payload@, empty_tag, Seq::empty(), hashed);
    }
    if join(left, right) == empty_tree() {
        hash::lemma_tagged_hash_binds(node_tag, left@ + right@, empty_tag, Seq::empty(), hashed);
    }
}

// ── the tree ────────────────────────────────────────────────────────────────

/// The largest power of two strictly less than `n`, for `n > 1`.
pub open spec fn split(n: nat) -> nat
    decreases n,
{
    if n <= 2 {
        1
    } else {
        2 * split(((n + 1) / 2) as nat)
    }
}

/// True for 1, 2, 4, 8, …
pub open spec fn is_power_of_two(k: nat) -> bool
    decreases k,
{
    k == 1 || (k > 1 && k % 2 == 0 && is_power_of_two(k / 2))
}

/// The root over a non-empty run of nodes: the left subtree takes the largest
/// power of two below their number.
pub open spec fn tree(nodes: Seq<Digest>) -> Digest
    decreases nodes.len(),
    when nodes.len() >= 1
    via tree_decreases
{
    if nodes.len() == 1 {
        nodes[0]
    } else {
        let k = split(nodes.len()) as int;
        join(tree(nodes.take(k)), tree(nodes.skip(k)))
    }
}

#[via_fn]
proof fn tree_decreases(nodes: Seq<Digest>) {
    if nodes.len() >= 2 {
        lemma_split(nodes.len());
    }
}

/// The leaf nodes of a run of payloads.
pub open spec fn leaf_nodes(leaves: Seq<Digest>) -> Seq<Digest> {
    leaves.map_values(|payload: Digest| leaf_node(payload))
}

/// The Merkle Tree Hash of a run of leaf payloads.
pub open spec fn root_of(leaves: Seq<Digest>) -> Digest {
    if leaves.len() == 0 {
        empty_tree()
    } else {
        tree(leaf_nodes(leaves))
    }
}

/// The level above `nodes`: neighbours are joined in pairs, and an unpaired
/// last node is carried up unchanged.
pub open spec fn parents(nodes: Seq<Digest>) -> Seq<Digest> {
    Seq::new(
        ((nodes.len() + 1) / 2) as nat,
        |i: int|
            if 2 * i + 1 < nodes.len() {
                join(nodes[2 * i], nodes[2 * i + 1])
            } else {
                nodes[2 * i]
            },
    )
}

/// [`split`] is a power of two below `n`, and doubling it reaches `n`.
pub proof fn lemma_split(n: nat)
    requires
        n >= 2,
    ensures
        is_power_of_two(split(n)),
        1 <= split(n) < n <= 2 * split(n),
        n > 2 ==> split(n) % 2 == 0,
    decreases n,
{
    if n > 2 {
        lemma_split(((n + 1) / 2) as nat);
    }
}

proof fn lemma_parents_take(nodes: Seq<Digest>, k: int)
    requires
        0 <= k <= nodes.len(),
        k % 2 == 0,
    ensures
        parents(nodes.take(k)) == parents(nodes).take(k / 2),
{
    assert(parents(nodes.take(k)) =~= parents(nodes).take(k / 2));
}

proof fn lemma_parents_skip(nodes: Seq<Digest>, k: int)
    requires
        0 <= k <= nodes.len(),
        k % 2 == 0,
    ensures
        parents(nodes.skip(k)) == parents(nodes).skip(k / 2),
{
    assert(parents(nodes.skip(k)) =~= parents(nodes).skip(k / 2));
}

/// Pairing up a level leaves the root unchanged.
pub proof fn lemma_tree_parents(nodes: Seq<Digest>)
    requires
        nodes.len() >= 1,
    ensures
        tree(parents(nodes)) == tree(nodes),
    decreases nodes.len(),
{
    let n = nodes.len();
    let up = parents(nodes);
    if n == 1 {
        assert(up =~= nodes);
    } else if n == 2 {
        reveal_with_fuel(tree, 2);
        assert(nodes.take(1)[0] == nodes[0] && nodes.skip(1)[0] == nodes[1]);
        assert(tree(nodes) == join(nodes[0], nodes[1]));
        assert(up.len() == 1 && up[0] == join(nodes[0], nodes[1]));
    } else {
        lemma_split(n);
        let k = split(n) as int;
        lemma_parents_take(nodes, k);
        lemma_parents_skip(nodes, k);
        lemma_tree_parents(nodes.take(k));
        lemma_tree_parents(nodes.skip(k));
        assert(split(up.len()) == k / 2);
    }
}

/// The largest power of two strictly less than `n`, for `n > 1`.
pub fn split_point(n: usize) -> (k: usize)
    requires
        n > 1,
    ensures
        k as nat == split(n as nat),
        is_power_of_two(k as nat),
        k < n <= 2 * k,
    decreases n,
{
    proof {
        lemma_split(n as nat);
    }
    if n <= 2 {
        1
    } else {
        let half: usize = n / 2 + n % 2;
        assert(half as int == (n + 1) / 2);
        2 * split_point(half)
    }
}

/// The Merkle Tree Hash of a run of leaf payloads.
pub fn mth(leaves: &[Digest]) -> (root: Digest)
    ensures
        root == root_of(leaves@),
    decreases leaves@.len(),
{
    let n: usize = leaves.len();
    if n == 0 {
        empty_root()
    } else if n == 1 {
        leaf_hash(&leaves[0])
    } else {
        let k: usize = split_point(n);
        let left = slice_subrange(leaves, 0, k);
        let right = slice_subrange(leaves, k, n);
        let root = node_hash(&mth(left), &mth(right));
        assert(leaf_nodes(leaves@).take(k as int) =~= leaf_nodes(left@));
        assert(leaf_nodes(leaves@).skip(k as int) =~= leaf_nodes(right@));
        root
    }
}

// ── audit paths ─────────────────────────────────────────────────────────────

/// The sibling a node needs at its own level to climb one level: nothing when
/// it is carried up unpaired.
pub open spec fn sibling(i: nat, nodes: Seq<Digest>) -> Seq<Digest> {
    if i % 2 == 1 {
        seq![nodes[i - 1]]
    } else if i + 1 == nodes.len() {
        Seq::empty()
    } else {
        seq![nodes[(i + 1) as int]]
    }
}

/// The siblings met climbing from node `i` to the root, lowest first.
pub open spec fn audit_path(i: nat, nodes: Seq<Digest>) -> Seq<Digest>
    decreases nodes.len(),
{
    if nodes.len() <= 1 {
        Seq::empty()
    } else {
        sibling(i, nodes) + audit_path(i / 2, parents(nodes))
    }
}

/// The pair of roots that climbing from position `i` in a level of `n` nodes
/// rebuilds, one path element per sibling.
///
/// `new` stands for the node at that position in the whole tree; `old` for the
/// last node of the tree that ends there, which a right sibling does not extend.
/// `None` when the path is too short or too long for the position.
pub open spec fn rebuild(i: nat, n: nat, old: Digest, new: Digest, path: Seq<Digest>) -> Option<
    (Digest, Digest),
>
    decreases n,
{
    if n <= 1 {
        if path.len() == 0 {
            Some((old, new))
        } else {
            None
        }
    } else if i % 2 == 1 {
        if path.len() == 0 {
            None
        } else {
            rebuild(
                i / 2,
                ((n + 1) / 2) as nat,
                join(path[0], old),
                join(path[0], new),
                path.skip(1),
            )
        }
    } else if i + 1 == n {
        rebuild(i / 2, ((n + 1) / 2) as nat, old, new, path)
    } else if path.len() == 0 {
        None
    } else {
        rebuild(i / 2, ((n + 1) / 2) as nat, old, join(new, path[0]), path.skip(1))
    }
}

/// The root an inclusion path leads to from leaf payload `payload`.
pub open spec fn inclusion_root(i: nat, n: nat, payload: Digest, path: Seq<Digest>) -> Option<
    Digest,
> {
    match rebuild(i, n, leaf_node(payload), leaf_node(payload), path) {
        Some((_, root)) => Some(root),
        None => None,
    }
}

/// The path that relates the tree over the first `m` nodes to the whole tree.
///
/// A level on which the earlier tree ends between two pairs is climbed without
/// any hash. On the first level where it does not, its last node is given —
/// unless the earlier tree is that one node, which the verifier holds — and the
/// climb goes on from there.
pub open spec fn consistency_path(m: nat, nodes: Seq<Digest>) -> Seq<Digest>
    decreases m,
{
    if m == 0 {
        Seq::empty()
    } else if m % 2 == 0 {
        consistency_path(m / 2, parents(nodes))
    } else if m == 1 {
        audit_path(0, nodes)
    } else {
        seq![nodes[m - 1]] + audit_path((m - 1) as nat, nodes)
    }
}

/// What a verifier rebuilds from a consistency path: the roots of the earlier
/// and of the later tree. `old_root` is consulted only when the earlier tree is
/// one complete subtree, which the path then leaves out.
pub open spec fn consistency_roots(
    m: nat,
    n: nat,
    old_root: Digest,
    path: Seq<Digest>,
) -> Option<(Digest, Digest)>
    decreases m,
{
    if m == 0 {
        None
    } else if m % 2 == 0 {
        consistency_roots(m / 2, ((n + 1) / 2) as nat, old_root, path)
    } else if m == 1 {
        rebuild(0, n, old_root, old_root, path)
    } else if path.len() == 0 {
        None
    } else {
        rebuild((m - 1) as nat, n, path[0], path[0], path.skip(1))
    }
}

proof fn lemma_rebuild_needs_a_path(i: nat, n: nat, old: Digest, new: Digest)
    requires
        i < n,
        n > 1,
    ensures
        rebuild(i, n, old, new, Seq::empty()) is None,
    decreases n,
{
    if i % 2 == 0 && i + 1 == n {
        lemma_rebuild_needs_a_path(i / 2, ((n + 1) / 2) as nat, old, new);
    }
}

/// The audit path of a node rebuilds the root, and with it the root of the tree
/// that ends at that node with `old` in its place.
pub proof fn lemma_audit_path_rebuilds(i: nat, nodes: Seq<Digest>, old: Digest)
    requires
        i < nodes.len(),
    ensures
        rebuild(i, nodes.len(), old, nodes[i as int], audit_path(i, nodes)) == Some(
            (tree(nodes.take(i as int).push(old)), tree(nodes)),
        ),
    decreases nodes.len(),
{
    let n = nodes.len();
    let prefix = nodes.take(i as int).push(old);
    if n == 1 {
        assert(prefix.len() == 1 && prefix[0] == old);
    } else {
        let up = parents(nodes);
        let rest = audit_path(i / 2, up);
        let path = audit_path(i, nodes);
        lemma_tree_parents(nodes);
        lemma_tree_parents(prefix);
        if i % 2 == 1 {
            assert(path.skip(1) =~= rest);
            let carried = join(nodes[i - 1], old);
            assert(parents(prefix) =~= up.take((i / 2) as int).push(carried));
            lemma_audit_path_rebuilds(i / 2, up, carried);
        } else {
            assert(parents(prefix) =~= up.take((i / 2) as int).push(old));
            lemma_audit_path_rebuilds(i / 2, up, old);
            if i + 1 == n {
                assert(path =~= rest);
            } else {
                assert(path.skip(1) =~= rest);
            }
        }
    }
}

/// A consistency path rebuilds the roots of both trees.
pub proof fn lemma_consistency_path_rebuilds(m: nat, nodes: Seq<Digest>)
    requires
        0 < m < nodes.len(),
    ensures
        consistency_roots(
            m,
            nodes.len(),
            tree(nodes.take(m as int)),
            consistency_path(m, nodes),
        ) == Some((tree(nodes.take(m as int)), tree(nodes))),
    decreases m,
{
    let prefix = nodes.take(m as int);
    if m % 2 == 0 {
        lemma_tree_parents(nodes);
        lemma_tree_parents(prefix);
        lemma_parents_take(nodes, m as int);
        lemma_consistency_path_rebuilds(m / 2, parents(nodes));
    } else {
        let i = (m - 1) as nat;
        lemma_audit_path_rebuilds(i, nodes, nodes[i as int]);
        assert(nodes.take(i as int).push(nodes[i as int]) =~= prefix);
        if m == 1 {
            assert(prefix.len() == 1 && prefix[0] == nodes[0]);
        } else {
            let path = consistency_path(m, nodes);
            assert(path.skip(1) =~= audit_path(i, nodes));
        }
    }
}

/// The bytes hashed to go from one level of a tree to the next.
pub open spec fn level_inputs(nodes: Seq<Digest>) -> Set<Seq<u8>> {
    Set::new(
        |x: Seq<u8>|
            exists|y: int|
                0 <= y && 2 * y + 1 < nodes.len() && x == #[trigger] join_input(
                    nodes[2 * y],
                    nodes[2 * y + 1],
                ),
    )
}

/// The bytes hashed for the root of a tree over `nodes`.
pub open spec fn tree_inputs(nodes: Seq<Digest>) -> Set<Seq<u8>>
    decreases nodes.len(),
{
    if nodes.len() <= 1 {
        Set::empty()
    } else {
        level_inputs(nodes).union(tree_inputs(parents(nodes)))
    }
}

/// The bytes hashed for the root of a log.
pub open spec fn log_inputs(leaves: Seq<Digest>) -> Set<Seq<u8>> {
    leaves.map_values(|payload: Digest| leaf_input(payload)).to_set().union(
        tree_inputs(leaf_nodes(leaves)),
    )
}

/// The bytes hashed while climbing, as [`rebuild`] does.
pub open spec fn climb_inputs(
    i: nat,
    n: nat,
    old: Digest,
    new: Digest,
    path: Seq<Digest>,
) -> Set<Seq<u8>>
    decreases n,
{
    if n <= 1 {
        Set::empty()
    } else if i % 2 == 1 {
        if path.len() == 0 {
            Set::empty()
        } else {
            climb_inputs(
                i / 2,
                ((n + 1) / 2) as nat,
                join(path[0], old),
                join(path[0], new),
                path.skip(1),
            ).insert(join_input(path[0], old)).insert(join_input(path[0], new))
        }
    } else if i + 1 == n {
        climb_inputs(i / 2, ((n + 1) / 2) as nat, old, new, path)
    } else if path.len() == 0 {
        Set::empty()
    } else {
        climb_inputs(
            i / 2,
            ((n + 1) / 2) as nat,
            old,
            join(new, path[0]),
            path.skip(1),
        ).insert(join_input(new, path[0]))
    }
}

/// The bytes hashed while checking a consistency path.
pub open spec fn consistency_inputs(
    m: nat,
    n: nat,
    old_root: Digest,
    path: Seq<Digest>,
) -> Set<Seq<u8>>
    decreases m,
{
    if m == 0 {
        Set::empty()
    } else if m % 2 == 0 {
        consistency_inputs(m / 2, ((n + 1) / 2) as nat, old_root, path)
    } else if m == 1 {
        climb_inputs(0, n, old_root, old_root, path)
    } else if path.len() == 0 {
        Set::empty()
    } else {
        climb_inputs((m - 1) as nat, n, path[0], path[0], path.skip(1))
    }
}

proof fn lemma_pair_is_hashed(nodes: Seq<Digest>, y: int, hashed: Set<Seq<u8>>)
    requires
        0 <= y,
        2 * y + 1 < nodes.len(),
        tree_inputs(nodes).subset_of(hashed),
    ensures
        hashed.contains(join_input(nodes[2 * y], nodes[2 * y + 1])),
        tree_inputs(parents(nodes)).subset_of(hashed),
{
    assert(level_inputs(nodes).contains(join_input(nodes[2 * y], nodes[2 * y + 1])));
    assert(tree_inputs(nodes).contains(join_input(nodes[2 * y], nodes[2 * y + 1])));
    assert forall|x: Seq<u8>| tree_inputs(parents(nodes)).contains(x) implies hashed.contains(
        x,
    ) by {
        assert(tree_inputs(nodes).contains(x));
    }
}

/// A path that leads from a node to the root of `nodes` starts from the node
/// that is there, and is that node's own. The same holds of the tree that ends at
/// that position: it shares every earlier node.
pub proof fn lemma_rebuild_binds(
    i: nat,
    old: Digest,
    new: Digest,
    path: Seq<Digest>,
    earlier: Seq<Digest>,
    nodes: Seq<Digest>,
    hashed: Set<Seq<u8>>,
)
    requires
        i < nodes.len(),
        earlier.len() == i + 1,
        rebuild(i, nodes.len(), old, new, path) == Some((tree(earlier), tree(nodes))),
        hash::collision_free(hashed),
        climb_inputs(i, nodes.len(), old, new, path).subset_of(hashed),
        tree_inputs(earlier).subset_of(hashed),
        tree_inputs(nodes).subset_of(hashed),
    ensures
        old == earlier[i as int],
        new == nodes[i as int],
        earlier.take(i as int) == nodes.take(i as int),
        path == audit_path(i, nodes),
    decreases nodes.len(),
{
    let n = nodes.len();
    if n == 1 {
        assert(earlier.take(0) =~= nodes.take(0));
        assert(path =~= audit_path(i, nodes));
    } else {
        let up = parents(nodes);
        let up_earlier = parents(earlier);
        lemma_tree_parents(nodes);
        lemma_tree_parents(earlier);
        lemma_pair_is_hashed(nodes, 0, hashed);
        if earlier.len() > 1 {
            lemma_pair_is_hashed(earlier, 0, hashed);
        } else {
            assert(up_earlier.len() == 1);
        }
        let j = (i / 2) as int;
        let all = climb_inputs(i, n, old, new, path);
        if i % 2 == 1 {
            assert(all.contains(join_input(path[0], old)));
            assert(all.contains(join_input(path[0], new)));
            lemma_rebuild_binds(
                i / 2,
                join(path[0], old),
                join(path[0], new),
                path.skip(1),
                up_earlier,
                up,
                hashed,
            );
            lemma_pair_is_hashed(earlier, j, hashed);
            lemma_pair_is_hashed(nodes, j, hashed);
            assert(up_earlier[j] == join(earlier[i - 1], earlier[i as int]));
            assert(up[j] == join(nodes[i - 1], nodes[i as int]));
            lemma_join_binds(path[0], old, earlier[i - 1], earlier[i as int], hashed);
            lemma_join_binds(path[0], new, nodes[i - 1], nodes[i as int], hashed);
            assert(path =~= seq![path[0]] + path.skip(1));
        } else if i + 1 == n {
            lemma_rebuild_binds(i / 2, old, new, path, up_earlier, up, hashed);
            assert(path =~= sibling(i, nodes) + path);
        } else {
            assert(all.contains(join_input(new, path[0])));
            lemma_rebuild_binds(
                i / 2,
                old,
                join(new, path[0]),
                path.skip(1),
                up_earlier,
                up,
                hashed,
            );
            lemma_pair_is_hashed(nodes, j, hashed);
            assert(up[j] == join(nodes[i as int], nodes[(i + 1) as int]));
            lemma_join_binds(new, path[0], nodes[i as int], nodes[(i + 1) as int], hashed);
            assert(path =~= seq![path[0]] + path.skip(1));
        }
        assert forall|x: int| 0 <= x < i implies earlier[x] == nodes[x] by {
            let y = x / 2;
            if 2 * y + 1 < i {
                assert(up_earlier.take(j)[y] == up.take(j)[y]);
                assert(up_earlier[y] == join(earlier[2 * y], earlier[2 * y + 1]));
                assert(up[y] == join(nodes[2 * y], nodes[2 * y + 1]));
                lemma_pair_is_hashed(earlier, y, hashed);
                lemma_pair_is_hashed(nodes, y, hashed);
                lemma_join_binds(
                    earlier[2 * y],
                    earlier[2 * y + 1],
                    nodes[2 * y],
                    nodes[2 * y + 1],
                    hashed,
                );
            } else {
                assert(x == i - 1 && i % 2 == 1);
            }
        }
        assert(earlier.take(i as int) =~= nodes.take(i as int));
    }
}

/// A consistency path that rebuilds the roots of two trees shows the earlier one
/// to be a prefix of the later, and is the path between the two.
pub proof fn lemma_consistency_binds(
    m: nat,
    path: Seq<Digest>,
    earlier: Seq<Digest>,
    nodes: Seq<Digest>,
    hashed: Set<Seq<u8>>,
)
    requires
        0 < m < nodes.len(),
        earlier.len() == m,
        consistency_roots(m, nodes.len(), tree(earlier), path) == Some(
            (tree(earlier), tree(nodes)),
        ),
        hash::collision_free(hashed),
        consistency_inputs(m, nodes.len(), tree(earlier), path).subset_of(hashed),
        tree_inputs(earlier).subset_of(hashed),
        tree_inputs(nodes).subset_of(hashed),
    ensures
        earlier == nodes.take(m as int),
        path == consistency_path(m, nodes),
    decreases m,
{
    if m % 2 == 0 {
        let up = parents(nodes);
        let up_earlier = parents(earlier);
        lemma_tree_parents(nodes);
        lemma_tree_parents(earlier);
        lemma_pair_is_hashed(nodes, 0, hashed);
        lemma_pair_is_hashed(earlier, 0, hashed);
        lemma_consistency_binds(m / 2, path, up_earlier, up, hashed);
        assert forall|x: int| 0 <= x < m implies earlier[x] == nodes[x] by {
            let y = x / 2;
            assert(up_earlier[y] == up.take((m / 2) as int)[y]);
            assert(up_earlier[y] == join(earlier[2 * y], earlier[2 * y + 1]));
            assert(up[y] == join(nodes[2 * y], nodes[2 * y + 1]));
            lemma_pair_is_hashed(earlier, y, hashed);
            lemma_pair_is_hashed(nodes, y, hashed);
            lemma_join_binds(
                earlier[2 * y],
                earlier[2 * y + 1],
                nodes[2 * y],
                nodes[2 * y + 1],
                hashed,
            );
        }
        assert(earlier =~= nodes.take(m as int));
    } else {
        let i = (m - 1) as nat;
        if m == 1 {
            lemma_rebuild_binds(i, tree(earlier), tree(earlier), path, earlier, nodes, hashed);
        } else {
            lemma_rebuild_binds(i, path[0], path[0], path.skip(1), earlier, nodes, hashed);
            assert(path =~= seq![path[0]] + path.skip(1));
        }
        assert forall|x: int| 0 <= x < m implies earlier[x] == nodes[x] by {
            if x < i {
                assert(earlier.take(i as int)[x] == nodes.take(i as int)[x]);
            }
        }
        assert(earlier =~= nodes.take(m as int));
    }
}

// ── building paths from the top ─────────────────────────────────────────────

/// `PATH(i, D[n])` of RFC 6962, which descends from the root.
spec fn descent(i: nat, nodes: Seq<Digest>) -> Seq<Digest>
    decreases nodes.len(),
    via descent_decreases
{
    if nodes.len() <= 1 {
        Seq::empty()
    } else {
        let k = split(nodes.len());
        if i < k {
            descent(i, nodes.take(k as int)).push(tree(nodes.skip(k as int)))
        } else {
            descent((i - k) as nat, nodes.skip(k as int)).push(tree(nodes.take(k as int)))
        }
    }
}

#[via_fn]
proof fn descent_decreases(i: nat, nodes: Seq<Digest>) {
    if nodes.len() >= 2 {
        lemma_split(nodes.len());
    }
}

proof fn lemma_descent_step(i: nat, nodes: Seq<Digest>)
    requires
        i < nodes.len(),
        nodes.len() >= 2,
    ensures
        descent(i, nodes) == sibling(i, nodes) + descent(i / 2, parents(nodes)),
    decreases nodes.len(),
{
    let n = nodes.len();
    let up = parents(nodes);
    lemma_split(n);
    let k = split(n);
    if n == 2 {
        reveal_with_fuel(descent, 2);
        reveal_with_fuel(tree, 2);
        assert(nodes.take(1)[0] == nodes[0] && nodes.skip(1)[0] == nodes[1]);
        assert(descent(i, nodes) =~= sibling(i, nodes) + descent(i / 2, up));
    } else {
        let left = nodes.take(k as int);
        let right = nodes.skip(k as int);
        lemma_parents_take(nodes, k as int);
        lemma_parents_skip(nodes, k as int);
        lemma_tree_parents(left);
        lemma_tree_parents(right);
        assert(split(up.len()) == k / 2);
        if i < k {
            lemma_descent_step(i, left);
            assert(sibling(i, left) =~= sibling(i, nodes));
        } else {
            let j = (i - k) as nat;
            if right.len() == 1 {
                assert(parents(right) =~= right);
                assert(sibling(i, nodes) =~= Seq::<Digest>::empty());
            } else {
                lemma_descent_step(j, right);
                assert(sibling(j, right) =~= sibling(i, nodes));
            }
            assert(j / 2 == i / 2 - k / 2);
        }
        assert(descent(i, nodes) =~= sibling(i, nodes) + descent(i / 2, up));
    }
}

proof fn lemma_descent_is_audit_path(i: nat, nodes: Seq<Digest>)
    requires
        i < nodes.len(),
    ensures
        descent(i, nodes) == audit_path(i, nodes),
    decreases nodes.len(),
{
    if nodes.len() >= 2 {
        lemma_descent_step(i, nodes);
        lemma_descent_is_audit_path(i / 2, parents(nodes));
    }
}

/// `SUBPROOF(m, D[n], b)` of RFC 6962, which descends from the root.
spec fn subproof(m: nat, nodes: Seq<Digest>, known: bool) -> Seq<Digest>
    decreases nodes.len(),
    via subproof_decreases
{
    if m >= nodes.len() || nodes.len() <= 1 {
        if known {
            Seq::empty()
        } else {
            seq![tree(nodes)]
        }
    } else {
        let k = split(nodes.len());
        if m <= k {
            subproof(m, nodes.take(k as int), known).push(tree(nodes.skip(k as int)))
        } else {
            subproof((m - k) as nat, nodes.skip(k as int), false).push(tree(nodes.take(k as int)))
        }
    }
}

#[via_fn]
proof fn subproof_decreases(m: nat, nodes: Seq<Digest>, known: bool) {
    if nodes.len() >= 2 {
        lemma_split(nodes.len());
    }
}

proof fn lemma_subproof_even(m: nat, nodes: Seq<Digest>, known: bool)
    requires
        0 < m <= nodes.len(),
        m % 2 == 0,
    ensures
        subproof(m, nodes, known) == subproof(m / 2, parents(nodes), known),
    decreases nodes.len(),
{
    let n = nodes.len();
    let up = parents(nodes);
    lemma_split(n);
    let k = split(n);
    if m == n {
        lemma_tree_parents(nodes);
    } else {
        let left = nodes.take(k as int);
        let right = nodes.skip(k as int);
        lemma_parents_take(nodes, k as int);
        lemma_parents_skip(nodes, k as int);
        lemma_tree_parents(left);
        lemma_tree_parents(right);
        assert(split(up.len()) == k / 2);
        if m <= k {
            lemma_subproof_even(m, left, known);
        } else {
            lemma_subproof_even((m - k) as nat, right, false);
            assert((m - k) as nat / 2 == m / 2 - k / 2);
        }
        assert(subproof(m, nodes, known) =~= subproof(m / 2, up, known));
    }
}

proof fn lemma_subproof_odd(m: nat, nodes: Seq<Digest>, known: bool)
    requires
        m % 2 == 1,
        m < nodes.len() || (m == 1 && nodes.len() == 1),
    ensures
        subproof(m, nodes, known) == (if known && m == 1 {
            Seq::empty()
        } else {
            seq![nodes[m - 1]]
        }) + descent((m - 1) as nat, nodes),
    decreases nodes.len(),
{
    let n = nodes.len();
    let i = (m - 1) as nat;
    let given = if known && m == 1 {
        Seq::empty()
    } else {
        seq![nodes[m - 1]]
    };
    if n == 1 {
        assert(subproof(m, nodes, known) =~= given + descent(i, nodes));
    } else {
        lemma_split(n);
        let k = split(n);
        let left = nodes.take(k as int);
        let right = nodes.skip(k as int);
        if m <= k {
            lemma_subproof_odd(m, left, known);
        } else {
            lemma_subproof_odd((m - k) as nat, right, false);
        }
        assert(subproof(m, nodes, known) =~= given + descent(i, nodes));
    }
}

proof fn lemma_subproof_is_consistency_path(m: nat, nodes: Seq<Digest>)
    requires
        0 < m < nodes.len(),
    ensures
        subproof(m, nodes, true) == consistency_path(m, nodes),
    decreases m,
{
    if m % 2 == 0 {
        lemma_subproof_even(m, nodes, true);
        lemma_subproof_is_consistency_path(m / 2, parents(nodes));
    } else {
        lemma_subproof_odd(m, nodes, true);
        lemma_descent_is_audit_path((m - 1) as nat, nodes);
        assert(subproof(m, nodes, true) =~= consistency_path(m, nodes));
    }
}

/// Appends the audit path of the leaf at `m`, lowest sibling first.
fn build_inclusion_path(m: usize, leaves: &[Digest], out: &mut Vec<Digest>)
    requires
        m < leaves@.len(),
    ensures
        final(out)@ == old(out)@ + descent(m as nat, leaf_nodes(leaves@)),
    decreases leaves@.len(),
{
    let n: usize = leaves.len();
    if n <= 1 {
        assert(out@ =~= old(out)@ + descent(m as nat, leaf_nodes(leaves@)));
        return;
    }
    let k: usize = split_point(n);
    let left = slice_subrange(leaves, 0, k);
    let right = slice_subrange(leaves, k, n);
    proof {
        assert(leaf_nodes(leaves@).take(k as int) =~= leaf_nodes(left@));
        assert(leaf_nodes(leaves@).skip(k as int) =~= leaf_nodes(right@));
    }
    if m < k {
        build_inclusion_path(m, left, out);
        out.push(mth(right));
    } else {
        build_inclusion_path(m - k, right, out);
        out.push(mth(left));
    }
    assert(out@ =~= old(out)@ + descent(m as nat, leaf_nodes(leaves@)));
}

/// Appends the path relating the first `m` leaves to all of them. `known` says
/// that the verifier holds the root over those `m` leaves already.
fn build_consistency_path(m: usize, leaves: &[Digest], known: bool, out: &mut Vec<Digest>)
    requires
        0 < m <= leaves@.len(),
    ensures
        final(out)@ == old(out)@ + subproof(m as nat, leaf_nodes(leaves@), known),
    decreases leaves@.len(),
{
    let n: usize = leaves.len();
    if m == n {
        if !known {
            out.push(mth(leaves));
        }
        assert(out@ =~= old(out)@ + subproof(m as nat, leaf_nodes(leaves@), known));
        return;
    }
    let k: usize = split_point(n);
    let left = slice_subrange(leaves, 0, k);
    let right = slice_subrange(leaves, k, n);
    proof {
        assert(leaf_nodes(leaves@).take(k as int) =~= leaf_nodes(left@));
        assert(leaf_nodes(leaves@).skip(k as int) =~= leaf_nodes(right@));
    }
    if m <= k {
        build_consistency_path(m, left, known, out);
        out.push(mth(right));
    } else {
        build_consistency_path(m - k, right, false, out);
        out.push(mth(left));
    }
    assert(out@ =~= old(out)@ + subproof(m as nat, leaf_nodes(leaves@), known));
}

// ── heads and anchors ───────────────────────────────────────────────────────

/// A commitment to the log at a given size.
///
/// Publishing a tree head — to an auditor, a timestamping service, or an
/// append-only public location — is what turns detectable tampering into
/// tampering detectable *by someone else*.
#[derive(Debug, Clone, Copy, Eq)]
pub struct TreeHead {
    /// Number of leaves committed to.
    pub size: u64,
    /// Merkle Tree Hash over those leaves.
    pub root: Digest,
}

impl PartialEq for TreeHead {
    fn eq(&self, other: &Self) -> (same: bool) {
        self.size == other.size && self.root == other.root
    }
}

impl vstd::std_specs::cmp::PartialEqSpecImpl for TreeHead {
    open spec fn obeys_eq_spec() -> bool {
        true
    }

    open spec fn eq_spec(&self, other: &Self) -> bool {
        self.size == other.size && self.root == other.root
    }
}

/// The head of a log holding `leaves`.
pub open spec fn head_of(leaves: Seq<Digest>) -> TreeHead {
    TreeHead { size: leaves.len() as u64, root: root_of(leaves) }
}

/// What a proof is checked against: a bare root, or a whole tree head.
///
/// A head also pins the size of the tree, so the position a proof names is
/// checked rather than taken on the prover's word.
pub trait Anchor {
    /// The root the proof must lead to.
    spec fn anchored_root(&self) -> Digest;

    /// True when a tree of `size` leaves is one this commitment can be about.
    spec fn admits_size(&self, size: u64) -> bool;

    /// The root the proof must lead to.
    fn root_hash(&self) -> (root: Digest)
        ensures
            root == self.anchored_root(),
    ;

    /// True when a tree of `size` leaves is one this commitment can be about.
    fn admits(&self, size: u64) -> (r: bool)
        ensures
            r == self.admits_size(size),
    ;
}

impl Anchor for Digest {
    open spec fn anchored_root(&self) -> Digest {
        *self
    }

    open spec fn admits_size(&self, size: u64) -> bool {
        true
    }

    fn root_hash(&self) -> (root: Digest) {
        *self
    }

    fn admits(&self, size: u64) -> (r: bool) {
        true
    }
}

impl Anchor for TreeHead {
    open spec fn anchored_root(&self) -> Digest {
        self.root
    }

    open spec fn admits_size(&self, size: u64) -> bool {
        self.size == size
    }

    fn root_hash(&self) -> (root: Digest) {
        self.root
    }

    fn admits(&self, size: u64) -> (r: bool) {
        self.size == size
    }
}

// ── proofs ──────────────────────────────────────────────────────────────────

/// Failure constructing a proof.
#[derive(Debug, Clone, Copy, PartialEq, Eq, Structural)]
#[non_exhaustive]
pub enum ProofError {
    /// The requested leaf index is at or beyond the log size.
    IndexOutOfRange {
        /// Index requested.
        index: u64,
        /// Size of the log the proof was asked against.
        size: u64,
    },
    /// A proof was requested against a size larger than the log.
    SizeOutOfRange {
        /// Size requested.
        from: u64,
        /// Size of the log the proof was asked against.
        size: u64,
    },
}

/// Climbs from position `i` of a level of `n` nodes to the root.
fn climb(i: u64, n: u64, old: &Digest, new: &Digest, path: &[Digest]) -> (roots: Option<
    (Digest, Digest),
>)
    requires
        i < n,
    ensures
        roots == rebuild(i as nat, n as nat, *old, *new, path@),
{
    // The position and the last position of the level being climbed from.
    let mut at: u64 = i;
    let mut last: u64 = n - 1;
    let mut fr = *old;
    let mut sr = *new;
    let mut j: usize = 0;
    assert(path@.skip(0) =~= path@);
    while j < path.len()
        invariant
            j <= path.len(),
            at <= last,
            rebuild(i as nat, n as nat, *old, *new, path@) == rebuild(
                at as nat,
                (last + 1) as nat,
                fr,
                sr,
                path@.skip(j as int),
            ),
        decreases path.len() - j,
    {
        if last == 0 {
            return None;
        }
        // An unpaired last node is carried up without consuming a sibling.
        while at % 2 == 0 && at == last
            invariant
                at <= last,
                0 < last,
                rebuild(i as nat, n as nat, *old, *new, path@) == rebuild(
                    at as nat,
                    (last + 1) as nat,
                    fr,
                    sr,
                    path@.skip(j as int),
                ),
            decreases at,
        {
            at = at / 2;
            last = last / 2;
        }
        let p = path[j];
        assert(path@.skip(j as int)[0] == p);
        assert(path@.skip(j as int).skip(1) =~= path@.skip(j + 1));
        if at % 2 == 1 {
            fr = node_hash(&p, &fr);
            sr = node_hash(&p, &sr);
        } else {
            sr = node_hash(&sr, &p);
        }
        at = at / 2;
        last = last / 2;
        j += 1;
    }
    assert(path@.skip(j as int) =~= Seq::<Digest>::empty());
    if last == 0 {
        Some((fr, sr))
    } else {
        proof {
            lemma_rebuild_needs_a_path(at as nat, (last + 1) as nat, fr, sr);
        }
        None
    }
}

/// Proof that a leaf sits at a given index under a given root.
#[derive(Debug, PartialEq, Eq)]
pub struct InclusionProof {
    /// Index of the leaf being proven.
    pub leaf_index: u64,
    /// Size of the tree the proof is against.
    pub tree_size: u64,
    /// Sibling hashes from the leaf upward.
    pub path: Vec<Digest>,
}

impl Clone for InclusionProof {
    fn clone(&self) -> (copy: Self)
        ensures
            copy.leaf_index == self.leaf_index,
            copy.tree_size == self.tree_size,
            copy.path@ == self.path@,
    {
        InclusionProof {
            leaf_index: self.leaf_index,
            tree_size: self.tree_size,
            path: clone_path(&self.path),
        }
    }
}

fn clone_path(path: &Vec<Digest>) -> (copy: Vec<Digest>)
    ensures
        copy@ == path@,
{
    let mut copy: Vec<Digest> = Vec::with_capacity(path.len());
    let mut i: usize = 0;
    while i < path.len()
        invariant
            i <= path.len(),
            copy@ == path@.take(i as int),
        decreases path.len() - i,
    {
        copy.push(path[i]);
        assert(copy@ =~= path@.take(i + 1));
        i += 1;
    }
    assert(path@.take(path@.len() as int) =~= path@);
    copy
}

impl InclusionProof {
    /// The bytes hashed while checking this proof for a leaf payload.
    pub open spec fn inputs(&self, payload: Digest) -> Set<Seq<u8>> {
        climb_inputs(
            self.leaf_index as nat,
            self.tree_size as nat,
            leaf_node(payload),
            leaf_node(payload),
            self.path@,
        ).insert(leaf_input(payload))
    }

    /// True when the path leads from `payload` to the anchored root.
    pub open spec fn proves<A: Anchor>(&self, payload: Digest, anchor: A) -> bool {
        &&& anchor.admits_size(self.tree_size)
        &&& self.leaf_index < self.tree_size
        &&& inclusion_root(
            self.leaf_index as nat,
            self.tree_size as nat,
            payload,
            self.path@,
        ) == Some(anchor.anchored_root())
    }

    /// Verifies this proof against a leaf payload and an expected root or head.
    ///
    /// Returns `false` on any inconsistency rather than distinguishing failure
    /// modes: a caller cannot act differently on a malformed proof than on a
    /// forged one.
    #[must_use]
    pub fn verify<A: Anchor>(&self, leaf_payload: &Digest, root: &A) -> (valid: bool)
        ensures
            valid == self.proves(*leaf_payload, *root),
    {
        if !root.admits(self.tree_size) || self.leaf_index >= self.tree_size {
            return false;
        }
        let leaf = leaf_hash(leaf_payload);
        match climb(self.leaf_index, self.tree_size, &leaf, &leaf, self.path.as_slice()) {
            Some(roots) => roots.1 == root.root_hash(),
            None => false,
        }
    }
}

/// Proof that an earlier tree is a prefix of a later one.
#[derive(Debug, PartialEq, Eq)]
pub struct ConsistencyProof {
    /// Size of the earlier tree.
    pub old_size: u64,
    /// Size of the later tree.
    pub new_size: u64,
    /// Hashes needed to relate the two roots.
    pub path: Vec<Digest>,
}

impl Clone for ConsistencyProof {
    fn clone(&self) -> (copy: Self)
        ensures
            copy.old_size == self.old_size,
            copy.new_size == self.new_size,
            copy.path@ == self.path@,
    {
        ConsistencyProof {
            old_size: self.old_size,
            new_size: self.new_size,
            path: clone_path(&self.path),
        }
    }
}

impl ConsistencyProof {
    /// The bytes hashed while checking this proof against an earlier root.
    pub open spec fn inputs(&self, old_root: Digest) -> Set<Seq<u8>> {
        consistency_inputs(self.old_size as nat, self.new_size as nat, old_root, self.path@)
    }

    /// True when the path relates the two anchored roots at the two sizes.
    pub open spec fn relates<A: Anchor, B: Anchor>(&self, old: A, new: B) -> bool {
        let (m, n) = (self.old_size, self.new_size);
        let (old_root, new_root) = (old.anchored_root(), new.anchored_root());
        &&& old.admits_size(m)
        &&& new.admits_size(n)
        &&& m <= n
        &&& if m == n {
            self.path@.len() == 0 && old_root == new_root
        } else if m == 0 {
            self.path@.len() == 0 && old_root == empty_tree()
        } else {
            consistency_roots(m as nat, n as nat, old_root, self.path@) == Some(
                (old_root, new_root),
            )
        }
    }

    /// True when the earlier tree is empty.
    ///
    /// Every log extends the empty tree, so such a proof constrains nothing
    /// about the later one.
    #[must_use]
    pub fn is_vacuous(&self) -> (r: bool)
        ensures
            r == (self.old_size == 0),
    {
        self.old_size == 0
    }

    /// Verifies that `old` at `old_size` is a prefix of `new` at `new_size`.
    #[must_use]
    pub fn verify<A: Anchor, B: Anchor>(&self, old: &A, new: &B) -> (valid: bool)
        ensures
            valid == self.relates(*old, *new),
    {
        if !old.admits(self.old_size) || !new.admits(self.new_size) {
            return false;
        }
        let old_root = old.root_hash();
        let new_root = new.root_hash();
        if self.old_size > self.new_size {
            return false;
        }
        if self.old_size == self.new_size {
            return self.path.len() == 0 && old_root == new_root;
        }
        if self.old_size == 0 {
            // Every tree is consistent with the empty tree, but the verifier must
            // still confirm that the root it was handed *is* the empty root.
            // Accepting any value here would let a caller "prove" consistency
            // with a history that never existed.
            return self.path.len() == 0 && old_root == empty_root();
        }
        // Levels on which the earlier tree ends between two pairs need no hash.
        let mut m: u64 = self.old_size;
        let mut last: u64 = self.new_size - 1;
        while m % 2 == 0
            invariant
                0 < m,
                m <= last < self.new_size,
                consistency_roots(
                    self.old_size as nat,
                    self.new_size as nat,
                    old_root,
                    self.path@,
                ) == consistency_roots(m as nat, (last + 1) as nat, old_root, self.path@),
            decreases m,
        {
            m = m / 2;
            last = last / 2;
        }
        // A tree whose size is an exact power of two is a complete subtree the
        // verifier already holds, so its root is not part of the path.
        let path = self.path.as_slice();
        let roots = if m == 1 {
            climb(0, last + 1, &old_root, &old_root, path)
        } else if path.len() == 0 {
            None
        } else {
            let seed = path[0];
            let rest = slice_subrange(path, 1, path.len());
            assert(rest@ =~= path@.skip(1));
            climb(m - 1, last + 1, &seed, &seed, rest)
        };
        match roots {
            Some(found) => found.0 == old_root && found.1 == new_root,
            None => false,
        }
    }
}

// ── the accumulator ─────────────────────────────────────────────────────────

/// The roots of the complete subtrees covering a level, largest first, each with
/// its height. A level of odd length leaves its last node unpaired, and that
/// node is then a complete subtree of its own.
pub open spec fn cover_of_nodes(nodes: Seq<Digest>, height: nat) -> Seq<(nat, Digest)>
    decreases nodes.len(),
{
    if nodes.len() == 0 {
        Seq::empty()
    } else {
        let above = cover_of_nodes(paired(nodes), height + 1);
        if nodes.len() % 2 == 1 {
            above.push((height, nodes.last()))
        } else {
            above
        }
    }
}

/// The nodes of a level joined in pairs, leaving out an unpaired last one.
pub open spec fn paired(nodes: Seq<Digest>) -> Seq<Digest> {
    Seq::new(nodes.len() / 2, |i: int| join(nodes[2 * i], nodes[2 * i + 1]))
}

/// The complete-subtree roots covering a log of leaf payloads.
pub open spec fn cover_of_leaves(leaves: Seq<Digest>) -> Seq<(nat, Digest)> {
    cover_of_nodes(leaf_nodes(leaves), 0)
}

/// The subtree heights a log of `size` leaves decomposes into, largest first:
/// one per set bit.
pub open spec fn cover_heights(size: nat, height: nat) -> Seq<nat>
    decreases size,
{
    if size == 0 {
        Seq::empty()
    } else {
        let above = cover_heights(size / 2, height + 1);
        if size % 2 == 1 {
            above.push(height)
        } else {
            above
        }
    }
}

/// The heights of a cover.
pub open spec fn heights(cover: Seq<(nat, Digest)>) -> Seq<nat> {
    cover.map_values(|subtree: (nat, Digest)| subtree.0)
}

/// A cover after one more node of `height`: equal-height neighbours merge.
pub open spec fn absorb(cover: Seq<(nat, Digest)>, height: nat, node: Digest) -> Seq<(nat, Digest)>
    decreases cover.len(),
{
    if cover.len() > 0 && cover.last().0 == height {
        absorb(cover.drop_last(), height + 1, join(cover.last().1, node))
    } else {
        cover.push((height, node))
    }
}

/// The root a cover folds to, right to left.
pub open spec fn fold_cover(cover: Seq<(nat, Digest)>, tail: Option<Digest>) -> Option<Digest>
    decreases cover.len(),
{
    if cover.len() == 0 {
        tail
    } else {
        let left = cover.last().1;
        fold_cover(
            cover.drop_last(),
            Some(
                match tail {
                    None => left,
                    Some(right) => join(left, right),
                },
            ),
        )
    }
}

/// The root over a cover; the empty cover has the root of the empty tree.
pub open spec fn cover_root(cover: Seq<(nat, Digest)>) -> Digest {
    match fold_cover(cover, None) {
        None => empty_tree(),
        Some(root) => root,
    }
}

proof fn lemma_heights_push(cover: Seq<(nat, Digest)>, subtree: (nat, Digest))
    ensures
        heights(cover.push(subtree)) == heights(cover).push(subtree.0),
{
    assert(heights(cover.push(subtree)) =~= heights(cover).push(subtree.0));
}

proof fn lemma_heights_drop_last(cover: Seq<(nat, Digest)>)
    requires
        cover.len() > 0,
    ensures
        heights(cover.drop_last()) == heights(cover).drop_last(),
        heights(cover).last() == cover.last().0,
{
    assert(heights(cover.drop_last()) =~= heights(cover).drop_last());
}

proof fn lemma_heights_at_least(size: nat, height: nat)
    ensures
        forall|i: int|
            0 <= i < cover_heights(size, height).len() ==> #[trigger] cover_heights(
                size,
                height,
            )[i] >= height,
    decreases size,
{
    if size > 0 {
        lemma_heights_at_least(size / 2, height + 1);
        let above = cover_heights(size / 2, height + 1);
        assert forall|i: int| 0 <= i < cover_heights(size, height).len() implies #[trigger]
        cover_heights(size, height)[i] >= height by {
            if i < above.len() {
                assert(cover_heights(size, height)[i] == above[i]);
            }
        }
    }
}

proof fn lemma_heights_below(size: nat, height: nat, bits: nat)
    requires
        size < pow2(bits),
    ensures
        forall|i: int|
            0 <= i < cover_heights(size, height).len() ==> #[trigger] cover_heights(
                size,
                height,
            )[i] < height + bits,
    decreases size,
{
    if size > 0 {
        if bits == 0 {
            lemma2_to64();
        } else {
            lemma_pow2_unfold(bits);
            lemma_heights_below(size / 2, height + 1, (bits - 1) as nat);
            let above = cover_heights(size / 2, height + 1);
            assert forall|i: int| 0 <= i < cover_heights(size, height).len() implies #[trigger]
            cover_heights(size, height)[i] < height + bits by {
                if i < above.len() {
                    assert(cover_heights(size, height)[i] == above[i]);
                }
            }
        }
    }
}

/// A cover's heights are determined by how many nodes it covers.
pub proof fn lemma_cover_heights(nodes: Seq<Digest>, height: nat)
    ensures
        heights(cover_of_nodes(nodes, height)) == cover_heights(nodes.len(), height),
    decreases nodes.len(),
{
    if nodes.len() > 0 {
        lemma_cover_heights(paired(nodes), height + 1);
        lemma_heights_push(
            cover_of_nodes(paired(nodes), height + 1),
            (height, nodes.last()),
        );
    } else {
        assert(heights(cover_of_nodes(nodes, height)) =~= cover_heights(nodes.len(), height));
    }
}

proof fn lemma_absorb_heights(cover: Seq<(nat, Digest)>, size: nat, height: nat, node: Digest)
    requires
        heights(cover) == cover_heights(size, height),
    ensures
        heights(absorb(cover, height, node)) == cover_heights(size + 1, height),
    decreases size,
{
    assert(cover.len() == heights(cover).len());
    if size % 2 == 1 {
        let above = cover_heights(size / 2, height + 1);
        lemma_heights_drop_last(cover);
        assert(above.push(height).drop_last() =~= above);
        lemma_absorb_heights(
            cover.drop_last(),
            size / 2,
            height + 1,
            join(cover.last().1, node),
        );
        assert((size + 1) / 2 == size / 2 + 1);
    } else {
        lemma_heights_push(cover, (height, node));
        if cover.len() > 0 {
            let above = cover_heights(size / 2, height + 1);
            lemma_heights_drop_last(cover);
            lemma_heights_at_least(size / 2, height + 1);
            assert(heights(cover) == above);
            assert(above[cover.len() - 1] >= height + 1);
        }
        assert((size + 1) / 2 == size / 2);
        if size == 0 {
            assert(cover_heights(0, height + 1) =~= Seq::empty());
        }
    }
}

/// Absorbing a node gives the cover of the nodes with that one added.
pub proof fn lemma_absorb_covers(nodes: Seq<Digest>, height: nat, node: Digest)
    ensures
        absorb(cover_of_nodes(nodes, height), height, node) == cover_of_nodes(
            nodes.push(node),
            height,
        ),
    decreases nodes.len(),
{
    let more = nodes.push(node);
    if nodes.len() % 2 == 1 {
        let cover = cover_of_nodes(nodes, height);
        let above = cover_of_nodes(paired(nodes), height + 1);
        assert(cover.drop_last() =~= above);
        lemma_absorb_covers(paired(nodes), height + 1, join(nodes.last(), node));
        assert(paired(more) =~= paired(nodes).push(join(nodes.last(), node)));
        assert(cover.last() == (height, nodes.last()));
    } else {
        assert(paired(more) =~= paired(nodes));
        lemma_cover_heights(nodes, height);
        let cover = cover_of_nodes(nodes, height);
        if nodes.len() == 0 {
            assert(paired(nodes) =~= nodes);
            assert(cover_of_nodes(nodes, height + 1) =~= cover);
        } else if cover.len() > 0 {
            let above = cover_heights(nodes.len() / 2, height + 1);
            lemma_heights_drop_last(cover);
            lemma_heights_at_least(nodes.len() / 2, height + 1);
            assert(heights(cover) == above);
            assert(above[cover.len() - 1] >= height + 1);
        }
        assert(more.last() == node);
    }
}

/// Folding a cover reproduces the root the recursive definition gives, with a
/// trailing incomplete subtree taken as one more node.
proof fn lemma_fold_cover(nodes: Seq<Digest>, height: nat, tail: Option<Digest>)
    ensures
        fold_cover(cover_of_nodes(nodes, height), tail) == (match tail {
            None => if nodes.len() == 0 {
                None
            } else {
                Some(tree(nodes))
            },
            Some(right) => Some(tree(nodes.push(right))),
        }),
    decreases nodes.len(),
{
    let cover = cover_of_nodes(nodes, height);
    if nodes.len() == 0 {
        if tail is Some {
            assert(nodes.push(tail->0).len() == 1);
        }
    } else {
        let above = cover_of_nodes(paired(nodes), height + 1);
        lemma_tree_parents(nodes);
        if nodes.len() % 2 == 1 {
            assert(cover.drop_last() =~= above);
            match tail {
                None => {
                    lemma_fold_cover(paired(nodes), height + 1, Some(nodes.last()));
                    assert(parents(nodes) =~= paired(nodes).push(nodes.last()));
                },
                Some(right) => {
                    let joined = join(nodes.last(), right);
                    lemma_fold_cover(paired(nodes), height + 1, Some(joined));
                    lemma_tree_parents(nodes.push(right));
                    assert(parents(nodes.push(right)) =~= paired(nodes).push(joined));
                },
            }
        } else {
            lemma_fold_cover(paired(nodes), height + 1, tail);
            match tail {
                None => {
                    assert(parents(nodes) =~= paired(nodes));
                },
                Some(right) => {
                    lemma_tree_parents(nodes.push(right));
                    assert(parents(nodes.push(right)) =~= paired(nodes).push(right));
                },
            }
        }
    }
}

/// The cover of a log folds to the log's Merkle Tree Hash.
pub proof fn lemma_cover_root(leaves: Seq<Digest>)
    ensures
        cover_root(cover_of_leaves(leaves)) == root_of(leaves),
{
    lemma_fold_cover(leaf_nodes(leaves), 0, None);
}

/// How many nodes of the level `base` lie under the first `i` subtrees.
pub open spec fn nodes_before(cover: Seq<(nat, Digest)>, base: nat, i: int) -> nat
    decreases i,
{
    if i <= 0 {
        0
    } else {
        nodes_before(cover, base, i - 1) + pow2((cover[i - 1].0 - base) as nat)
    }
}

/// Number of set bits.
pub open spec fn set_bits(n: nat) -> nat
    decreases n,
{
    if n == 0 {
        0
    } else {
        set_bits(n / 2) + n % 2
    }
}

/// True when bit `k` is set.
pub open spec fn has_bit(n: nat, k: nat) -> bool {
    (n / pow2(k)) % 2 == 1
}

proof fn lemma_nodes_before_agree(
    a: Seq<(nat, Digest)>,
    b: Seq<(nat, Digest)>,
    base: nat,
    i: int,
)
    requires
        i <= a.len(),
        i <= b.len(),
        forall|j: int| 0 <= j < i ==> a[j] == b[j],
    ensures
        nodes_before(a, base, i) == nodes_before(b, base, i),
    decreases i,
{
    if i > 0 {
        lemma_nodes_before_agree(a, b, base, i - 1);
        assert(a[i - 1] == b[i - 1]);
    }
}

/// Each node of a level stands for two of the level below.
proof fn lemma_nodes_before_double(cover: Seq<(nat, Digest)>, base: nat, i: int)
    requires
        i <= cover.len(),
        forall|j: int| 0 <= j < cover.len() ==> (#[trigger] cover[j]).0 >= base + 1,
    ensures
        nodes_before(cover, base, i) == 2 * nodes_before(cover, base + 1, i),
    decreases i,
{
    if i > 0 {
        lemma_nodes_before_double(cover, base, i - 1);
        assert(cover[i - 1].0 >= base + 1);
        lemma_pow2_unfold((cover[i - 1].0 - base) as nat);
        assert((cover[i - 1].0 - base - 1) as nat == (cover[i - 1].0 - (base + 1)) as nat);
    }
}

proof fn lemma_cover_is_above(nodes: Seq<Digest>, height: nat)
    ensures
        forall|j: int|
            0 <= j < cover_of_nodes(nodes, height).len() ==> (#[trigger] cover_of_nodes(
                nodes,
                height,
            )[j]).0 >= height,
{
    let cover = cover_of_nodes(nodes, height);
    lemma_cover_heights(nodes, height);
    lemma_heights_at_least(nodes.len(), height);
    assert forall|j: int| 0 <= j < cover.len() implies (#[trigger] cover[j]).0 >= height by {
        assert(heights(cover)[j] == cover[j].0);
    }
}

/// The subtrees of a cover take up its nodes from the first to the last.
proof fn lemma_cover_is_whole(nodes: Seq<Digest>, height: nat)
    ensures
        nodes_before(
            cover_of_nodes(nodes, height),
            height,
            cover_of_nodes(nodes, height).len() as int,
        ) == nodes.len(),
    decreases nodes.len(),
{
    if nodes.len() > 0 {
        let cover = cover_of_nodes(nodes, height);
        let above = cover_of_nodes(paired(nodes), height + 1);
        let n = above.len() as int;
        lemma_cover_is_whole(paired(nodes), height + 1);
        lemma_cover_is_above(paired(nodes), height + 1);
        lemma_nodes_before_double(above, height, n);
        lemma_nodes_before_agree(cover, above, height, n);
        lemma2_to64();
    }
}

/// A subtree of a cover is the root over the run of nodes that it stands for.
proof fn lemma_cover_runs(nodes: Seq<Digest>, height: nat, i: int)
    requires
        0 <= i < cover_of_nodes(nodes, height).len(),
    ensures
        ({
            let cover = cover_of_nodes(nodes, height);
            let (from, to) = (
                nodes_before(cover, height, i) as int,
                nodes_before(cover, height, i + 1) as int,
            );
            &&& from < to <= nodes.len()
            &&& cover[i].1 == tree(nodes.subrange(from, to))
        }),
    decreases nodes.len(),
{
    let cover = cover_of_nodes(nodes, height);
    let above = cover_of_nodes(paired(nodes), height + 1);
    let n = above.len() as int;
    lemma_cover_is_above(paired(nodes), height + 1);
    lemma2_to64();
    if i < n {
        lemma_cover_runs(paired(nodes), height + 1, i);
        lemma_nodes_before_double(above, height, i);
        lemma_nodes_before_double(above, height, i + 1);
        lemma_nodes_before_agree(cover, above, height, i);
        lemma_nodes_before_agree(cover, above, height, i + 1);
        let (from, to) = (
            nodes_before(above, height + 1, i) as int,
            nodes_before(above, height + 1, i + 1) as int,
        );
        let run = nodes.subrange(2 * from, 2 * to);
        assert(paired(nodes).subrange(from, to) =~= parents(run));
        lemma_tree_parents(run);
        assert(cover[i] == above[i]);
    } else {
        lemma_cover_is_whole(nodes, height);
        assert(cover[i] == (height, nodes.last()));
        let run = nodes.subrange(nodes.len() - 1, nodes.len() as int);
        assert(run.len() == 1 && run[0] == nodes.last());
    }
}

proof fn lemma_heights_are_bits(size: nat, height: nat)
    ensures
        cover_heights(size, height).len() == set_bits(size),
        forall|i: int, j: int|
            0 <= i < j < cover_heights(size, height).len() ==> #[trigger] cover_heights(
                size,
                height,
            )[i] > #[trigger] cover_heights(size, height)[j],
        forall|k: nat|
            cover_heights(size, height).contains(height + k) <==> #[trigger] has_bit(size, k),
    decreases size,
{
    let all = cover_heights(size, height);
    if size == 0 {
        assert forall|k: nat| all.contains(height + k) <==> #[trigger] has_bit(size, k) by {
            lemma_pow2_pos(k);
            assert(0nat / pow2(k) == 0) by (nonlinear_arith)
                requires
                    pow2(k) > 0,
            ;
        }
    } else {
        let above = cover_heights(size / 2, height + 1);
        lemma_heights_are_bits(size / 2, height + 1);
        lemma_heights_at_least(size / 2, height + 1);
        assert forall|i: int, j: int| 0 <= i < j < all.len() implies #[trigger] all[i]
            > #[trigger] all[j] by {
            assert(all[i] == above[i]);
            if j < above.len() {
                assert(all[j] == above[j]);
            }
        }
        assert forall|k: nat| all.contains(height + k) <==> #[trigger] has_bit(size, k) by {
            lemma2_to64();
            if k == 0 {
                assert(size / 1 == size);
                if all.contains(height + k) {
                    let i = choose|i: int| 0 <= i < all.len() && all[i] == height + k;
                    if i < above.len() {
                        assert(above[i] >= height + 1);
                    }
                }
                if size % 2 == 1 {
                    assert(all[above.len() as int] == height);
                }
            } else {
                let up = (k - 1) as nat;
                lemma_pow2_unfold(k);
                lemma_pow2_pos(up);
                vstd::arithmetic::div_mod::lemma_div_denominator(size as int, 2, pow2(up) as int);
                assert(size / pow2(k) == (size / 2) / pow2(up));
                assert(has_bit(size, k) == has_bit(size / 2, up));
                assert(height + 1 + up == height + k);
                if above.contains(height + k) {
                    let i = choose|i: int| 0 <= i < above.len() && above[i] == height + k;
                    assert(all[i] == height + k);
                }
                if all.contains(height + k) {
                    let i = choose|i: int| 0 <= i < all.len() && all[i] == height + k;
                    assert(above[i] == height + k);
                }
            }
        }
    }
}

/// Persisted accumulator state does not describe a log of the claimed size.
///
/// Separate from [`ProofError`] because it is not a proof failure: it means the
/// rows a backend read back are not the rows it wrote.
#[derive(Debug, PartialEq, Eq)]
pub struct MalformedAccumulator {
    /// Number of leaves the state claims to summarise.
    pub size: u64,
    /// The heights a log of that size must decompose into, largest first.
    pub expected: Vec<u8>,
    /// The heights actually supplied.
    pub found: Vec<u8>,
}

/// Heights as they are stored.
pub open spec fn stored_heights(stored: Seq<u8>) -> Seq<nat> {
    stored.map_values(|height: u8| height as nat)
}

/// A cover as it is stored.
pub open spec fn stored_cover(stored: Seq<(u8, Digest)>) -> Seq<(nat, Digest)> {
    stored.map_values(|subtree: (u8, Digest)| (subtree.0 as nat, subtree.1))
}

/// The perfect-subtree roots covering a log, without the leaves.
///
/// A [`MerkleLog`] keeps every leaf so it can build proofs. A durable backend
/// does not want that in memory, and does not need it to answer "what is the
/// root now" — that depends only on this stack, which holds one node per set bit
/// in the size. Appending merges equal-height neighbours, so it is amortised
/// `O(1)` and the whole structure is `O(log n)`.
#[derive(Debug, PartialEq, Eq)]
pub struct MerkleAccumulator {
    subtrees: Vec<(u8, Digest)>,
    size: u64,
}

impl Clone for MerkleAccumulator {
    fn clone(&self) -> (copy: Self)
        ensures
            copy.cover() == self.cover(),
            copy.count() == self.count(),
    {
        let mut subtrees: Vec<(u8, Digest)> = Vec::with_capacity(self.subtrees.len());
        let mut i: usize = 0;
        while i < self.subtrees.len()
            invariant
                i <= self.subtrees.len(),
                subtrees@ == self.subtrees@.take(i as int),
            decreases self.subtrees.len() - i,
        {
            let subtree = self.subtrees[i];
            subtrees.push(subtree);
            assert(subtrees@ =~= self.subtrees@.take(i + 1));
            i += 1;
        }
        assert(self.subtrees@.take(self.subtrees@.len() as int) =~= self.subtrees@);
        MerkleAccumulator { subtrees, size: self.size }
    }
}

impl Default for MerkleAccumulator {
    fn default() -> (acc: Self)
        ensures
            acc.wf(),
            acc.represents(Seq::empty()),
    {
        MerkleAccumulator::new()
    }
}

impl MerkleAccumulator {
    /// The complete-subtree roots held, largest first.
    pub closed spec fn cover(&self) -> Seq<(nat, Digest)> {
        stored_cover(self.subtrees@)
    }

    /// Number of leaves accumulated.
    pub closed spec fn count(&self) -> u64 {
        self.size
    }

    /// The subtrees are one per set bit of the size, largest first.
    pub open spec fn wf(&self) -> bool {
        heights(self.cover()) == cover_heights(self.count() as nat, 0)
    }

    /// True when this is the state of a log holding `leaves`.
    pub open spec fn represents(&self, leaves: Seq<Digest>) -> bool {
        &&& self.count() == leaves.len()
        &&& self.cover() == cover_of_leaves(leaves)
    }

    /// Creates an empty accumulator.
    #[must_use]
    pub fn new() -> (acc: Self)
        ensures
            acc.wf(),
            acc.represents(Seq::empty()),
            acc.count() == 0,
    {
        let acc = MerkleAccumulator { subtrees: Vec::new(), size: 0 };
        assert(leaf_nodes(Seq::empty()) =~= Seq::empty());
        assert(acc.cover() =~= Seq::empty());
        assert(heights(acc.cover()) =~= Seq::empty());
        acc
    }

    /// Appends the subtree heights `size` decomposes into, starting at `height`.
    fn push_cover(size: u64, height: u8, out: &mut Vec<u8>)
        requires
            size < pow2((64 - height) as nat),
            height <= 64,
        ensures
            stored_heights(final(out)@) == stored_heights(old(out)@) + cover_heights(
                size as nat,
                height as nat,
            ),
        decreases size,
    {
        if size == 0 {
            assert(stored_heights(out@) =~= stored_heights(old(out)@) + cover_heights(
                0,
                height as nat,
            ));
            return;
        }
        proof {
            lemma2_to64();
            if height < 64 {
                lemma_pow2_unfold((64 - height) as nat);
            }
        }
        Self::push_cover(size / 2, height + 1, out);
        let ghost above = out@;
        if size % 2 == 1 {
            out.push(height);
            assert(stored_heights(out@) =~= stored_heights(above).push(height as nat));
        }
        assert(stored_heights(out@) =~= stored_heights(old(out)@) + cover_heights(
            size as nat,
            height as nat,
        ));
    }

    /// The subtree heights a log of `size` leaves must decompose into, largest
    /// first — one per set bit, from the most significant down.
    fn cover_of(size: u64) -> (found: Vec<u8>)
        ensures
            stored_heights(found@) == cover_heights(size as nat, 0),
    {
        let mut out: Vec<u8> = Vec::new();
        proof {
            lemma2_to64();
        }
        Self::push_cover(size, 0, &mut out);
        assert(stored_heights(out@) =~= cover_heights(size as nat, 0));
        out
    }

    /// Restores an accumulator from persisted state.
    ///
    /// `subtrees` must be ordered largest-height first, as
    /// [`MerkleAccumulator::subtrees`] returns them.
    ///
    /// The shape is checked rather than trusted. A log of `size` leaves has
    /// exactly one perfect-subtree decomposition — one subtree per set bit in
    /// `size` — so a row lost, duplicated, reordered, or written against a
    /// different size is a shape error, and this catches it. It cannot catch a
    /// node whose *hash* is wrong; that is what [`MerkleLog::verify_incremental_state`]
    /// is for, and what recording the root alongside each entry lets a backend
    /// cross-check cheaply.
    ///
    /// # Errors
    ///
    /// Returns [`MalformedAccumulator`] when the heights supplied are not the
    /// decomposition `size` requires.
    pub fn try_from_parts(subtrees: Vec<(u8, Digest)>, size: u64) -> (r: Result<
        Self,
        MalformedAccumulator,
    >)
        ensures
            r is Ok <==> heights(stored_cover(subtrees@)) == cover_heights(size as nat, 0),
            match r {
                Ok(acc) => {
                    &&& acc.wf()
                    &&& acc.cover() == stored_cover(subtrees@)
                    &&& acc.count() == size
                },
                Err(e) => {
                    &&& e.size == size
                    &&& stored_heights(e.expected@) == cover_heights(size as nat, 0)
                    &&& stored_heights(e.found@) == heights(stored_cover(subtrees@))
                },
            },
    {
        let expected = Self::cover_of(size);
        let mut found: Vec<u8> = Vec::with_capacity(subtrees.len());
        let mut i: usize = 0;
        while i < subtrees.len()
            invariant
                i <= subtrees.len(),
                stored_heights(found@) == heights(stored_cover(subtrees@)).take(i as int),
            decreases subtrees.len() - i,
        {
            let ghost before = found@;
            found.push(subtrees[i].0);
            assert(stored_heights(found@) =~= stored_heights(before).push(subtrees@[i as int].0 as nat));
            assert(heights(stored_cover(subtrees@)).take(i + 1) =~= heights(
                stored_cover(subtrees@),
            ).take(i as int).push(subtrees@[i as int].0 as nat));
            i += 1;
        }
        assert(heights(stored_cover(subtrees@)).take(subtrees@.len() as int) =~= heights(
            stored_cover(subtrees@),
        ));
        if same_heights(&found, &expected) {
            Ok(MerkleAccumulator { subtrees, size })
        } else {
            Err(MalformedAccumulator { size, expected, found })
        }
    }

    /// The perfect-subtree roots, largest first.
    #[must_use]
    pub fn subtrees(&self) -> (subtrees: &[(u8, Digest)])
        ensures
            stored_cover(subtrees@) == self.cover(),
    {
        self.subtrees.as_slice()
    }

    /// Number of leaves accumulated.
    #[must_use]
    pub fn size(&self) -> (size: u64)
        ensures
            size == self.count(),
    {
        self.size
    }

    /// True when nothing has been accumulated.
    #[must_use]
    pub fn is_empty(&self) -> (r: bool)
        ensures
            r == (self.count() == 0),
    {
        self.size == 0
    }

    /// Appends a leaf payload and returns its index.
    pub fn push(&mut self, payload: Digest) -> (index: u64)
        requires
            old(self).wf(),
            old(self).count() < u64::MAX,
        ensures
            index == old(self).count(),
            final(self).wf(),
            final(self).count() == old(self).count() + 1,
            final(self).cover() == absorb(old(self).cover(), 0, leaf_node(payload)),
            forall|leaves: Seq<Digest>|
                #![trigger old(self).represents(leaves)]
                old(self).represents(leaves) ==> final(self).represents(leaves.push(payload)),
    {
        let index: u64 = self.size;
        let mut node = leaf_hash(&payload);
        let mut level: u8 = 0;
        proof {
            lemma2_to64();
            lemma_heights_below(self.size as nat, 0, 64);
            lemma_absorb_heights(self.cover(), self.size as nat, 0, node);
            assert forall|i: int| 0 <= i < self.subtrees@.len() implies (#[trigger] self.subtrees@[i]).0
                < 64 by {
                assert(heights(self.cover())[i] == self.subtrees@[i].0 as nat);
            }
        }
        // The left sibling is always the one already on the stack.
        while self.subtrees.len() > 0 && self.subtrees[self.subtrees.len() - 1].0 == level
            invariant
                level <= 64,
                self.size == old(self).size,
                forall|i: int|
                    0 <= i < self.subtrees@.len() ==> (#[trigger] self.subtrees@[i]).0 < 64,
                absorb(self.cover(), level as nat, node) == absorb(
                    old(self).cover(),
                    0,
                    leaf_node(payload),
                ),
            decreases self.subtrees.len(),
        {
            let ghost before = self.cover();
            let last: usize = self.subtrees.len() - 1;
            let top = self.subtrees[last].1;
            self.subtrees.pop();
            assert(self.cover() =~= before.drop_last());
            node = node_hash(&top, &node);
            level = level + 1;
        }
        let ghost before = self.cover();
        self.subtrees.push((level, node));
        assert(self.cover() =~= before.push((level as nat, node)));
        assert(before.len() > 0 ==> before.last().0 == self.subtrees@[before.len() - 1].0 as nat);
        self.size = self.size + 1;
        proof {
            assert forall|leaves: Seq<Digest>| #[trigger]
                old(self).represents(leaves) implies self.represents(leaves.push(payload)) by {
                lemma_absorb_covers(leaf_nodes(leaves), 0, leaf_node(payload));
                assert(leaf_nodes(leaves.push(payload)) =~= leaf_nodes(leaves).push(
                    leaf_node(payload),
                ));
            }
        }
        index
    }

    /// The current Merkle Tree Hash.
    ///
    /// Folds the perfect subtrees right to left, which reproduces the
    /// left-perfect split the tree hash is defined by.
    #[must_use]
    pub fn root(&self) -> (root: Digest)
        ensures
            root == cover_root(self.cover()),
            forall|leaves: Seq<Digest>| #[trigger]
                self.represents(leaves) ==> root == root_of(leaves),
    {
        let mut i: usize = self.subtrees.len();
        let mut tail: Option<Digest> = None;
        assert(self.cover().take(i as int) =~= self.cover());
        while i > 0
            invariant
                i <= self.subtrees.len(),
                fold_cover(self.cover(), None) == fold_cover(self.cover().take(i as int), tail),
            decreases i,
        {
            let left = self.subtrees[i - 1].1;
            assert(self.cover().take(i as int).drop_last() =~= self.cover().take(i - 1));
            assert(self.cover().take(i as int).last().1 == left);
            tail = Some(
                match tail {
                    None => left,
                    Some(right) => node_hash(&left, &right),
                },
            );
            i -= 1;
        }
        proof {
            assert forall|leaves: Seq<Digest>| #[trigger] self.represents(leaves) implies cover_root(
                self.cover(),
            ) == root_of(leaves) by {
                lemma_cover_root(leaves);
            }
        }
        match tail {
            None => empty_root(),
            Some(root) => root,
        }
    }

    /// The current tree head.
    #[must_use]
    pub fn head(&self) -> (head: TreeHead)
        ensures
            head.size == self.count(),
            head.root == cover_root(self.cover()),
            forall|leaves: Seq<Digest>| #[trigger]
                self.represents(leaves) ==> head == head_of(leaves),
    {
        TreeHead { size: self.size, root: self.root() }
    }
}

/// An accumulator holds one subtree per set bit of its size, in strictly
/// descending height, and each is the Merkle Tree Hash of the next payloads in
/// push order: two to the power of its height of them.
pub proof fn law_subtrees_cover_the_pushes(acc: MerkleAccumulator, leaves: Seq<Digest>)
    requires
        acc.represents(leaves),
    ensures
        acc.cover().len() == set_bits(acc.count() as nat),
        forall|i: int, j: int|
            0 <= i < j < acc.cover().len() ==> (#[trigger] acc.cover()[i]).0 > (
            #[trigger] acc.cover()[j]).0,
        forall|k: nat|
            heights(acc.cover()).contains(k) <==> #[trigger] has_bit(acc.count() as nat, k),
        forall|i: int|
            0 <= i < acc.cover().len() ==> {
                let (height, root) = #[trigger] acc.cover()[i];
                let from = nodes_before(acc.cover(), 0, i) as int;
                &&& from + pow2(height) <= leaves.len()
                &&& root == root_of(leaves.subrange(from, from + pow2(height)))
            },
        nodes_before(acc.cover(), 0, acc.cover().len() as int) == leaves.len(),
{
    let cover = acc.cover();
    let nodes = leaf_nodes(leaves);
    lemma_cover_heights(nodes, 0);
    lemma_heights_are_bits(leaves.len(), 0);
    lemma_cover_is_whole(nodes, 0);
    assert forall|i: int, j: int| 0 <= i < j < cover.len() implies (#[trigger] cover[i]).0 > (
    #[trigger] cover[j]).0 by {
        assert(heights(cover)[i] == cover[i].0 && heights(cover)[j] == cover[j].0);
    }
    assert forall|k: nat| heights(cover).contains(k) <==> #[trigger] has_bit(
        acc.count() as nat,
        k,
    ) by {
        assert(0 + k == k);
    }
    assert forall|i: int| 0 <= i < cover.len() implies {
        let (height, root) = #[trigger] cover[i];
        let from = nodes_before(cover, 0, i) as int;
        &&& from + pow2(height) <= leaves.len()
        &&& root == root_of(leaves.subrange(from, from + pow2(height)))
    } by {
        let (height, root) = cover[i];
        let from = nodes_before(cover, 0, i) as int;
        lemma_cover_runs(nodes, 0, i);
        lemma_pow2_pos(height);
        assert(nodes.subrange(from, from + pow2(height)) =~= leaf_nodes(
            leaves.subrange(from, from + pow2(height)),
        ));
    }
}

fn same_heights(a: &Vec<u8>, b: &Vec<u8>) -> (same: bool)
    ensures
        same == (stored_heights(a@) == stored_heights(b@)),
{
    if a.len() != b.len() {
        assert(stored_heights(a@).len() != stored_heights(b@).len());
        return false;
    }
    let mut i: usize = 0;
    while i < a.len()
        invariant
            i <= a.len(),
            a.len() == b.len(),
            forall|j: int| 0 <= j < i ==> a@[j] == b@[j],
        decreases a.len() - i,
    {
        if a[i] != b[i] {
            assert(stored_heights(a@)[i as int] != stored_heights(b@)[i as int]);
            return false;
        }
        i += 1;
    }
    assert(stored_heights(a@) =~= stored_heights(b@));
    true
}

// ── the log ─────────────────────────────────────────────────────────────────

/// An append-only log of leaf payloads.
///
/// Leaves are the content hashes of whatever the log commits to; the log itself
/// does not interpret them.
///
/// # Cost
///
/// The log keeps the roots of the perfect subtrees covering its leaves, so
/// appending is amortised `O(1)` and reading the current root is `O(log n)`
/// rather than a full recomputation. Historical roots and proofs are derived
/// from the stored leaves and cost `O(n)`; they are audit-time operations, not
/// write-path ones.
#[derive(Debug)]
pub struct MerkleLog {
    leaves: Vec<Digest>,
    /// Derived state: [`MerkleLog::root`] folds it, and
    /// [`MerkleLog::verify_incremental_state`] proves it still agrees with a
    /// recomputation from the leaves.
    accumulator: MerkleAccumulator,
}

impl View for MerkleLog {
    type V = Seq<Digest>;

    /// The leaf payloads, in log order.
    closed spec fn view(&self) -> Seq<Digest> {
        self.leaves@
    }
}

impl Clone for MerkleLog {
    fn clone(&self) -> (copy: Self)
        ensures
            copy@ == self@,
            self.wf() ==> copy.wf(),
    {
        MerkleLog { leaves: clone_path(&self.leaves), accumulator: self.accumulator.clone() }
    }
}

impl Default for MerkleLog {
    fn default() -> (log: Self)
        ensures
            log.wf(),
            log@ == Seq::<Digest>::empty(),
    {
        MerkleLog::new()
    }
}

impl MerkleLog {
    /// The subtree state is that of the leaves.
    pub closed spec fn wf(&self) -> bool {
        &&& self.accumulator.wf()
        &&& self.accumulator.represents(self.leaves@)
    }

    /// A log holds no more leaves than a `u64` can count.
    pub proof fn lemma_bounded(&self)
        requires
            self.wf(),
        ensures
            self@.len() <= u64::MAX,
    {
    }

    /// Creates an empty log.
    #[must_use]
    pub fn new() -> (log: Self)
        ensures
            log.wf(),
            log@ == Seq::<Digest>::empty(),
    {
        let log = MerkleLog { leaves: Vec::new(), accumulator: MerkleAccumulator::new() };
        assert(log@ =~= Seq::<Digest>::empty());
        log
    }

    /// Builds a log from existing leaf payloads, in order.
    #[must_use]
    pub fn from_leaves(leaves: Vec<Digest>) -> (log: Self)
        ensures
            log.wf(),
            log@ == leaves@,
    {
        let mut log = MerkleLog::new();
        let mut i: usize = 0;
        while i < leaves.len()
            invariant
                i <= leaves.len(),
                log.wf(),
                log@ == leaves@.take(i as int),
            decreases leaves.len() - i,
        {
            log.append(leaves[i]);
            assert(log@ =~= leaves@.take(i + 1));
            i += 1;
        }
        assert(leaves@.take(leaves@.len() as int) =~= leaves@);
        log
    }

    /// Number of leaves.
    #[must_use]
    pub fn len(&self) -> (n: u64)
        ensures
            n == self@.len(),
    {
        self.leaves.len() as u64
    }

    /// True when the log holds no leaves.
    #[must_use]
    pub fn is_empty(&self) -> (r: bool)
        ensures
            r == (self@.len() == 0),
    {
        self.leaves.len() == 0
    }

    /// The leaf payloads, in log order.
    #[must_use]
    pub fn leaves(&self) -> (leaves: &[Digest])
        ensures
            leaves@ == self@,
    {
        self.leaves.as_slice()
    }

    /// Appends a leaf payload and returns its index.
    ///
    /// Amortised `O(1)`: the new leaf merges with any equal-sized subtree
    /// already on the stack, which happens once per power of two.
    pub fn append(&mut self, payload: Digest) -> (index: u64)
        requires
            old(self).wf(),
        ensures
            final(self).wf(),
            final(self)@ == old(self)@.push(payload),
            index == old(self)@.len(),
    {
        self.leaves.push(payload);
        assert(self.leaves.len() <= usize::MAX);
        let index: u64 = self.accumulator.push(payload);
        index
    }

    /// The perfect-subtree state, for a backend that wants to persist it.
    #[must_use]
    pub fn accumulator(&self) -> (accumulator: &MerkleAccumulator)
        requires
            self.wf(),
        ensures
            accumulator.wf(),
            accumulator.represents(self@),
    {
        &self.accumulator
    }

    /// Drops every leaf from `len` onward and rebuilds the subtree state.
    ///
    /// Deliberately not public: a log that can be shortened is not append-only.
    /// It exists so an in-memory journal can undo a batch that turned out to be
    /// unacceptable partway through — leaves that were never committed to
    /// anything, because the batch never returned. `O(n)`, and only on that
    /// path.
    pub(crate) fn truncate(&mut self, len: u64)
        requires
            old(self).wf(),
        ensures
            final(self).wf(),
            final(self)@ == (if len < old(self)@.len() {
                old(self)@.take(len as int)
            } else {
                old(self)@
            }),
    {
        if len >= self.leaves.len() as u64 {
            return;
        }
        self.leaves.truncate(len as usize);
        assert(self.leaves@ =~= old(self)@.take(len as int));
        self.accumulator = MerkleAccumulator::new();
        let mut i: usize = 0;
        assert(self.leaves@.take(0) =~= Seq::<Digest>::empty());
        while i < self.leaves.len()
            invariant
                i <= self.leaves.len(),
                self.leaves@ == old(self)@.take(len as int),
                self.accumulator.wf(),
                self.accumulator.represents(self.leaves@.take(i as int)),
            decreases self.leaves.len() - i,
        {
            self.accumulator.push(self.leaves[i]);
            assert(self.leaves@.take(i as int).push(self.leaves@[i as int]) =~= self.leaves@.take(
                i + 1,
            ));
            i += 1;
        }
        assert(self.leaves@.take(self.leaves@.len() as int) =~= self.leaves@);
    }

    /// The current Merkle Tree Hash.
    #[must_use]
    pub fn root(&self) -> (root: Digest)
        ensures
            root == self.kept_root(),
            self.wf() ==> root == root_of(self@),
    {
        self.accumulator.root()
    }

    /// The root of the incrementally maintained subtrees.
    pub closed spec fn kept_root(&self) -> Digest {
        cover_root(self.accumulator.cover())
    }

    /// The maintained subtrees of a log that is in order fold to its root.
    pub proof fn lemma_kept_root(&self)
        requires
            self.wf(),
        ensures
            self.kept_root() == root_of(self@),
    {
        lemma_cover_root(self.leaves@);
    }

    /// Recomputes the root from the stored leaves and compares it with the
    /// incrementally maintained one.
    ///
    /// The incremental subtree stack is derived state; this checks that it has
    /// not drifted from the leaves it claims to summarise. In a log that is in
    /// order it never has.
    #[must_use]
    pub fn verify_incremental_state(&self) -> (r: bool)
        ensures
            r == (self.kept_root() == root_of(self@)),
            self.wf() ==> r,
    {
        self.root() == mth(self.leaves.as_slice())
    }

    /// The current tree head.
    #[must_use]
    pub fn head(&self) -> (head: TreeHead)
        requires
            self.wf(),
        ensures
            head == head_of(self@),
    {
        TreeHead { size: self.len(), root: self.root() }
    }

    /// The Merkle Tree Hash over the first `size` leaves.
    ///
    /// Used to reconstruct a historical root without replaying the log.
    pub fn root_at(&self, size: u64) -> (r: Result<Digest, ProofError>)
        ensures
            r == (if size <= self@.len() {
                Ok::<Digest, ProofError>(root_of(self@.take(size as int)))
            } else {
                Err::<Digest, ProofError>(
                    ProofError::SizeOutOfRange { from: size, size: self@.len() as u64 },
                )
            }),
    {
        if size > self.leaves.len() as u64 {
            return Err(ProofError::SizeOutOfRange { from: size, size: self.len() });
        }
        let prefix = slice_subrange(self.leaves.as_slice(), 0, size as usize);
        assert(prefix@ =~= self@.take(size as int));
        Ok(mth(prefix))
    }

    /// The tree head as of an earlier size.
    pub fn head_at(&self, size: u64) -> (r: Result<TreeHead, ProofError>)
        ensures
            r == (if size <= self@.len() {
                Ok::<TreeHead, ProofError>(head_of(self@.take(size as int)))
            } else {
                Err::<TreeHead, ProofError>(
                    ProofError::SizeOutOfRange { from: size, size: self@.len() as u64 },
                )
            }),
    {
        match self.root_at(size) {
            Ok(root) => Ok(TreeHead { size, root }),
            Err(e) => Err(e),
        }
    }

    /// Builds an inclusion proof for the leaf at `index`.
    pub fn inclusion_proof(&self, index: u64) -> (r: Result<InclusionProof, ProofError>)
        ensures
            match r {
                Ok(proof) => {
                    &&& index < self@.len()
                    &&& proof.is_audit_path(index, self@)
                },
                Err(e) => index >= self@.len() && e == (ProofError::IndexOutOfRange {
                    index,
                    size: self@.len() as u64,
                }),
            },
    {
        self.inclusion_proof_at(index, self.len())
    }

    /// Builds an inclusion proof for the leaf at `index` against the log as it
    /// stood at `size` leaves.
    pub fn inclusion_proof_at(&self, index: u64, size: u64) -> (r: Result<
        InclusionProof,
        ProofError,
    >)
        ensures
            match r {
                Ok(proof) => {
                    &&& index < size <= self@.len()
                    &&& proof.is_audit_path(index, self@.take(size as int))
                },
                Err(e) => if size > self@.len() {
                    e == (ProofError::SizeOutOfRange { from: size, size: self@.len() as u64 })
                } else {
                    index >= size && e == (ProofError::IndexOutOfRange { index, size })
                },
            },
            size == self@.len() ==> self@.take(size as int) == self@,
    {
        assert(self@.take(self@.len() as int) =~= self@);
        if size > self.leaves.len() as u64 {
            return Err(ProofError::SizeOutOfRange { from: size, size: self.len() });
        }
        if index >= size {
            return Err(ProofError::IndexOutOfRange { index, size });
        }
        let prefix = slice_subrange(self.leaves.as_slice(), 0, size as usize);
        assert(prefix@ =~= self@.take(size as int));
        let mut path: Vec<Digest> = Vec::new();
        build_inclusion_path(index as usize, prefix, &mut path);
        let proof = InclusionProof { leaf_index: index, tree_size: size, path };
        proof {
            lemma_descent_is_audit_path(index as nat, leaf_nodes(prefix@));
            assert(path@ =~= audit_path(index as nat, leaf_nodes(prefix@)));
        }
        Ok(proof)
    }

    /// Builds a consistency proof from an earlier size to the current size.
    pub fn consistency_proof(&self, old_size: u64) -> (r: Result<ConsistencyProof, ProofError>)
        ensures
            match r {
                Ok(proof) => {
                    &&& old_size <= self@.len()
                    &&& proof.is_consistency_path(old_size, self@)
                },
                Err(e) => old_size > self@.len() && e == (ProofError::SizeOutOfRange {
                    from: old_size,
                    size: self@.len() as u64,
                }),
            },
    {
        self.consistency_proof_between(old_size, self.len())
    }

    /// Builds a consistency proof between two sizes the log has had.
    pub fn consistency_proof_between(&self, old_size: u64, new_size: u64) -> (r: Result<
        ConsistencyProof,
        ProofError,
    >)
        ensures
            match r {
                Ok(proof) => {
                    &&& old_size <= new_size <= self@.len()
                    &&& proof.is_consistency_path(old_size, self@.take(new_size as int))
                },
                Err(e) => if new_size > self@.len() {
                    e == (ProofError::SizeOutOfRange { from: new_size, size: self@.len() as u64 })
                } else {
                    old_size > new_size && e == (ProofError::SizeOutOfRange {
                        from: old_size,
                        size: new_size,
                    })
                },
            },
            new_size == self@.len() ==> self@.take(new_size as int) == self@,
    {
        assert(self@.take(self@.len() as int) =~= self@);
        if new_size > self.leaves.len() as u64 {
            return Err(ProofError::SizeOutOfRange { from: new_size, size: self.len() });
        }
        if old_size > new_size {
            return Err(ProofError::SizeOutOfRange { from: old_size, size: new_size });
        }
        let prefix = slice_subrange(self.leaves.as_slice(), 0, new_size as usize);
        assert(prefix@ =~= self@.take(new_size as int));
        let mut path: Vec<Digest> = Vec::new();
        if 0 < old_size && old_size < new_size {
            build_consistency_path(old_size as usize, prefix, true, &mut path);
            proof {
                lemma_subproof_is_consistency_path(old_size as nat, leaf_nodes(prefix@));
                assert(path@ =~= consistency_path(old_size as nat, leaf_nodes(prefix@)));
            }
        }
        Ok(ConsistencyProof { old_size, new_size, path })
    }
}

impl InclusionProof {
    /// True for the proof a log of `leaves` gives for the leaf at `index`.
    pub open spec fn is_audit_path(&self, index: u64, leaves: Seq<Digest>) -> bool {
        &&& self.leaf_index == index
        &&& self.tree_size == leaves.len()
        &&& self.path@ == audit_path(index as nat, leaf_nodes(leaves))
    }
}

impl ConsistencyProof {
    /// True for the proof a log of `leaves` gives for its first `old_size` ones.
    pub open spec fn is_consistency_path(&self, old_size: u64, leaves: Seq<Digest>) -> bool {
        &&& self.old_size == old_size
        &&& self.new_size == leaves.len()
        &&& self.path@ == (if 0 < old_size < leaves.len() {
            consistency_path(old_size as nat, leaf_nodes(leaves))
        } else {
            Seq::empty()
        })
    }
}

// ── what the proofs establish ───────────────────────────────────────────────

/// Every entry can be proven included: the proof a log gives for a leaf verifies
/// against the log's root and against its head.
pub proof fn law_inclusion_proofs_verify(proof: InclusionProof, index: u64, leaves: Seq<Digest>)
    requires
        index < leaves.len() <= u64::MAX,
        proof.is_audit_path(index, leaves),
    ensures
        proof.proves(leaves[index as int], root_of(leaves)),
        proof.proves(leaves[index as int], head_of(leaves)),
{
    let nodes = leaf_nodes(leaves);
    lemma_audit_path_rebuilds(index as nat, nodes, nodes[index as int]);
}

proof fn lemma_leaf_is_hashed(leaves: Seq<Digest>, x: int, hashed: Set<Seq<u8>>)
    requires
        0 <= x < leaves.len(),
        log_inputs(leaves).subset_of(hashed),
    ensures
        hashed.contains(leaf_input(leaves[x])),
        tree_inputs(leaf_nodes(leaves)).subset_of(hashed),
{
    let inputs = leaves.map_values(|payload: Digest| leaf_input(payload));
    assert(inputs[x] == leaf_input(leaves[x]));
    assert(inputs.to_set().contains(leaf_input(leaves[x])));
    assert(log_inputs(leaves).contains(leaf_input(leaves[x])));
    assert forall|y: Seq<u8>| tree_inputs(leaf_nodes(leaves)).contains(y) implies hashed.contains(
        y,
    ) by {
        assert(log_inputs(leaves).contains(y));
    }
}

/// A path has at most one node per level.
proof fn lemma_audit_path_is_short(i: nat, nodes: Seq<Digest>, levels: nat)
    requires
        i < nodes.len() <= pow2(levels),
    ensures
        audit_path(i, nodes).len() <= levels,
    decreases nodes.len(),
{
    if nodes.len() > 1 {
        lemma2_to64();
        assert(levels > 0) by {
            if levels == 0 {
                assert(pow2(0) == 1);
            }
        }
        lemma_pow2_unfold(levels);
        assert(parents(nodes).len() == (nodes.len() + 1) / 2);
        lemma_audit_path_is_short(i / 2, parents(nodes), (levels - 1) as nat);
    }
}

proof fn lemma_consistency_path_is_short(m: nat, nodes: Seq<Digest>, levels: nat)
    requires
        m <= nodes.len() <= pow2(levels),
    ensures
        consistency_path(m, nodes).len() <= levels + 1,
    decreases m,
{
    if m == 0 {
    } else if m % 2 == 0 {
        lemma2_to64();
        assert(levels > 0) by {
            if levels == 0 {
                assert(pow2(0) == 1);
            }
        }
        lemma_pow2_unfold(levels);
        assert(parents(nodes).len() == (nodes.len() + 1) / 2);
        lemma_consistency_path_is_short(m / 2, parents(nodes), (levels - 1) as nat);
    } else {
        lemma_audit_path_is_short((m - 1) as nat, nodes, levels);
    }
}

/// Inclusion proofs are logarithmic: over at most two to the `levels` leaves, a
/// proof holds at most `levels` hashes.
pub proof fn law_inclusion_proofs_are_short(
    proof: InclusionProof,
    index: u64,
    leaves: Seq<Digest>,
    levels: nat,
)
    requires
        index < leaves.len() <= pow2(levels),
        proof.is_audit_path(index, leaves),
    ensures
        proof.path@.len() <= levels,
{
    lemma_audit_path_is_short(index as nat, leaf_nodes(leaves), levels);
}

/// Consistency proofs are logarithmic: over at most two to the `levels` leaves, a
/// proof holds at most one hash more than `levels`.
pub proof fn law_consistency_proofs_are_short(
    proof: ConsistencyProof,
    old_size: u64,
    leaves: Seq<Digest>,
    levels: nat,
)
    requires
        old_size <= leaves.len() <= pow2(levels),
        proof.is_consistency_path(old_size, leaves),
    ensures
        proof.path@.len() <= levels + 1,
{
    lemma_consistency_path_is_short(old_size as nat, leaf_nodes(leaves), levels);
}

/// An inclusion proof that verifies against a log's head names the leaf that is
/// there and is the proof that the log itself gives: no other payload and no other
/// path can be passed off at that position.
pub proof fn law_inclusion_proofs_bind(proof: InclusionProof, payload: Digest, leaves: Seq<Digest>)
    requires
        leaves.len() <= u64::MAX,
        proof.proves(payload, head_of(leaves)),
        hash::collision_free(proof.inputs(payload).union(log_inputs(leaves))),
    ensures
        proof.leaf_index < leaves.len(),
        payload == leaves[proof.leaf_index as int],
        proof.is_audit_path(proof.leaf_index, leaves),
{
    let nodes = leaf_nodes(leaves);
    let i = proof.leaf_index as nat;
    let hashed = proof.inputs(payload).union(log_inputs(leaves));
    lemma_leaf_is_hashed(leaves, i as int, hashed);
    lemma_inclusion_binds(i, leaf_node(payload), leaf_node(payload), proof.path@, nodes, hashed);
    lemma_leaf_binds(payload, leaves[i as int], hashed);
}

/// An inclusion path that rebuilds the root of `nodes` starts from the node that
/// is there, and is that node's own.
proof fn lemma_inclusion_binds(
    i: nat,
    old: Digest,
    new: Digest,
    path: Seq<Digest>,
    nodes: Seq<Digest>,
    hashed: Set<Seq<u8>>,
)
    requires
        i < nodes.len(),
        rebuild(i, nodes.len(), old, new, path) is Some,
        (rebuild(i, nodes.len(), old, new, path)->0).1 == tree(nodes),
        hash::collision_free(hashed),
        climb_inputs(i, nodes.len(), old, new, path).subset_of(hashed),
        tree_inputs(nodes).subset_of(hashed),
    ensures
        new == nodes[i as int],
        path == audit_path(i, nodes),
    decreases nodes.len(),
{
    if nodes.len() <= 1 {
        assert(path =~= audit_path(i, nodes));
    } else {
        let up = parents(nodes);
        let j = (i / 2) as int;
        lemma_tree_parents(nodes);
        lemma_pair_is_hashed(nodes, 0, hashed);
        let all = climb_inputs(i, nodes.len(), old, new, path);
        if i % 2 == 1 {
            assert(all.contains(join_input(path[0], old)));
            assert(all.contains(join_input(path[0], new)));
            lemma_inclusion_binds(
                i / 2,
                join(path[0], old),
                join(path[0], new),
                path.skip(1),
                up,
                hashed,
            );
            lemma_pair_is_hashed(nodes, j, hashed);
            assert(up[j] == join(nodes[i - 1], nodes[i as int]));
            lemma_join_binds(path[0], new, nodes[i - 1], nodes[i as int], hashed);
            assert(path =~= seq![path[0]] + path.skip(1));
        } else if i + 1 == nodes.len() {
            lemma_inclusion_binds(i / 2, old, new, path, up, hashed);
            assert(path =~= sibling(i, nodes) + path);
        } else {
            assert(all.contains(join_input(new, path[0])));
            lemma_inclusion_binds(i / 2, old, join(new, path[0]), path.skip(1), up, hashed);
            lemma_pair_is_hashed(nodes, j, hashed);
            assert(up[j] == join(nodes[i as int], nodes[(i + 1) as int]));
            lemma_join_binds(new, path[0], nodes[i as int], nodes[(i + 1) as int], hashed);
            assert(path =~= seq![path[0]] + path.skip(1));
        }
    }
}

/// Growth is provably append-only: the proof a log gives for an earlier size
/// verifies between the roots, and between the heads, of the log then and now.
pub proof fn law_consistency_proofs_verify(
    proof: ConsistencyProof,
    old_size: u64,
    leaves: Seq<Digest>,
)
    requires
        old_size <= leaves.len() <= u64::MAX,
        proof.is_consistency_path(old_size, leaves),
    ensures
        proof.relates(root_of(leaves.take(old_size as int)), root_of(leaves)),
        proof.relates(head_of(leaves.take(old_size as int)), head_of(leaves)),
{
    let earlier = leaves.take(old_size as int);
    if old_size == leaves.len() {
        assert(earlier =~= leaves);
    } else if old_size > 0 {
        let nodes = leaf_nodes(leaves);
        assert(leaf_nodes(earlier) =~= nodes.take(old_size as int));
        lemma_consistency_path_rebuilds(old_size as nat, nodes);
    }
}

/// A consistency proof that verifies between the heads of two logs shows the
/// earlier to be a prefix of the later: nothing was rewritten in between. It is
/// the proof that the later log itself gives.
pub proof fn law_consistency_proofs_bind(
    proof: ConsistencyProof,
    earlier: Seq<Digest>,
    leaves: Seq<Digest>,
)
    requires
        earlier.len() <= u64::MAX,
        leaves.len() <= u64::MAX,
        proof.relates(head_of(earlier), head_of(leaves)),
        hash::collision_free(
            proof.inputs(root_of(earlier)).union(log_inputs(earlier)).union(log_inputs(leaves)),
        ),
    ensures
        earlier.len() <= leaves.len(),
        earlier == leaves.take(earlier.len() as int),
        proof.is_consistency_path(earlier.len() as u64, leaves),
{
    let m = earlier.len();
    let hashed = proof.inputs(root_of(earlier)).union(log_inputs(earlier)).union(
        log_inputs(leaves),
    );
    if m == 0 || m == leaves.len() {
        assert(proof.path@ =~= Seq::empty());
    }
    if m == 0 {
        assert(earlier =~= leaves.take(0));
    } else {
        let nodes = leaf_nodes(leaves);
        let earlier_nodes = leaf_nodes(earlier);
        lemma_leaf_is_hashed(leaves, 0, hashed);
        lemma_leaf_is_hashed(earlier, 0, hashed);
        if m == leaves.len() {
            lemma_same_root_same_nodes(earlier_nodes, nodes, hashed);
        } else {
            lemma_consistency_binds(m, proof.path@, earlier_nodes, nodes, hashed);
        }
        assert forall|x: int| 0 <= x < m implies earlier[x] == leaves[x] by {
            assert(earlier_nodes[x] == nodes.take(m as int)[x]);
            lemma_leaf_is_hashed(leaves, x, hashed);
            lemma_leaf_is_hashed(earlier, x, hashed);
            lemma_leaf_binds(earlier[x], leaves[x], hashed);
        }
        assert(earlier =~= leaves.take(m as int));
    }
}

/// Trees of one size with one root have the same nodes.
proof fn lemma_same_root_same_nodes(a: Seq<Digest>, b: Seq<Digest>, hashed: Set<Seq<u8>>)
    requires
        a.len() == b.len(),
        a.len() >= 1,
        tree(a) == tree(b),
        hash::collision_free(hashed),
        tree_inputs(a).subset_of(hashed),
        tree_inputs(b).subset_of(hashed),
    ensures
        a == b,
    decreases a.len(),
{
    if a.len() == 1 {
        assert(a =~= b);
    } else {
        let up_a = parents(a);
        let up_b = parents(b);
        lemma_tree_parents(a);
        lemma_tree_parents(b);
        lemma_pair_is_hashed(a, 0, hashed);
        lemma_pair_is_hashed(b, 0, hashed);
        lemma_same_root_same_nodes(up_a, up_b, hashed);
        assert forall|x: int| 0 <= x < a.len() implies a[x] == b[x] by {
            let y = x / 2;
            assert(up_a[y] == up_b[y]);
            if 2 * y + 1 < a.len() {
                lemma_pair_is_hashed(a, y, hashed);
                lemma_pair_is_hashed(b, y, hashed);
                lemma_join_binds(a[2 * y], a[2 * y + 1], b[2 * y], b[2 * y + 1], hashed);
            }
        }
        assert(a =~= b);
    }
}

/// Two logs of one size with one root hold the same leaves: changing a leaf
/// changes the root.
pub proof fn law_root_binds_leaves(a: Seq<Digest>, b: Seq<Digest>)
    requires
        a.len() == b.len(),
        root_of(a) == root_of(b),
        hash::collision_free(log_inputs(a).union(log_inputs(b))),
    ensures
        a == b,
{
    let hashed = log_inputs(a).union(log_inputs(b));
    if a.len() == 0 {
        assert(a =~= b);
    } else {
        lemma_leaf_is_hashed(a, 0, hashed);
        lemma_leaf_is_hashed(b, 0, hashed);
        lemma_same_root_same_nodes(leaf_nodes(a), leaf_nodes(b), hashed);
        assert forall|i: int| 0 <= i < a.len() implies a[i] == b[i] by {
            assert(leaf_nodes(a)[i] == leaf_nodes(b)[i]);
            lemma_leaf_is_hashed(a, i, hashed);
            lemma_leaf_is_hashed(b, i, hashed);
            lemma_leaf_binds(a[i], b[i], hashed);
        }
        assert(a =~= b);
    }
}

// ── what a bare root establishes ────────────────────────────────────────────

/// Every node of the tree over `nodes`, the nodes themselves among them.
pub open spec fn tree_nodes(nodes: Seq<Digest>) -> Set<Digest>
    decreases nodes.len(),
{
    if nodes.len() <= 1 {
        nodes.to_set()
    } else {
        nodes.to_set().union(tree_nodes(parents(nodes)))
    }
}

/// The root is a node of its tree.
proof fn lemma_root_is_a_node(nodes: Seq<Digest>)
    requires
        nodes.len() >= 1,
    ensures
        tree_nodes(nodes).contains(tree(nodes)),
    decreases nodes.len(),
{
    if nodes.len() == 1 {
        assert(nodes.to_set().contains(nodes[0]));
    } else {
        lemma_tree_parents(nodes);
        lemma_root_is_a_node(parents(nodes));
    }
}

/// A node of a tree is one of those it was built over, or joins two others.
proof fn lemma_node_is_leaf_or_join(nodes: Seq<Digest>, node: Digest) -> (children: Option<
    (Digest, Digest),
>)
    requires
        tree_nodes(nodes).contains(node),
    ensures
        match children {
            None => nodes.contains(node),
            Some((left, right)) => {
                &&& node == join(left, right)
                &&& tree_nodes(nodes).contains(left)
                &&& tree_nodes(nodes).contains(right)
                &&& tree_inputs(nodes).contains(join_input(left, right))
            },
        },
    decreases nodes.len(),
{
    if nodes.contains(node) {
        None
    } else {
        let up = parents(nodes);
        assert(tree_nodes(up).contains(node));
        let found = lemma_node_is_leaf_or_join(up, node);
        if found is None {
            let y = choose|y: int| 0 <= y < up.len() && up[y] == node;
            if 2 * y + 1 < nodes.len() {
                let (left, right) = (nodes[2 * y], nodes[2 * y + 1]);
                assert(nodes.to_set().contains(left));
                assert(nodes.to_set().contains(right));
                assert(level_inputs(nodes).contains(join_input(left, right)));
                Some((left, right))
            } else {
                assert(nodes.contains(nodes[2 * y]));
                None
            }
        } else {
            found
        }
    }
}

/// What joins two digests into a node of a log's tree is in the tree as well.
proof fn lemma_children_are_nodes(
    leaves: Seq<Digest>,
    left: Digest,
    right: Digest,
    hashed: Set<Seq<u8>>,
)
    requires
        tree_nodes(leaf_nodes(leaves)).contains(join(left, right)),
        hash::collision_free(hashed),
        log_inputs(leaves).subset_of(hashed),
        hashed.contains(join_input(left, right)),
    ensures
        tree_nodes(leaf_nodes(leaves)).contains(left),
        tree_nodes(leaf_nodes(leaves)).contains(right),
{
    let nodes = leaf_nodes(leaves);
    match lemma_node_is_leaf_or_join(nodes, join(left, right)) {
        None => {
            let x = choose|x: int| 0 <= x < nodes.len() && nodes[x] == join(left, right);
            lemma_leaf_is_hashed(leaves, x, hashed);
            lemma_leaf_is_no_join(leaves[x], left, right, hashed);
        },
        Some((a, b)) => {
            assert(log_inputs(leaves).contains(join_input(a, b)));
            lemma_join_binds(left, right, a, b, hashed);
        },
    }
}

proof fn lemma_leaf_is_no_join(
    payload: Digest,
    left: Digest,
    right: Digest,
    hashed: Set<Seq<u8>>,
)
    requires
        hash::collision_free(hashed),
        hashed.contains(leaf_input(payload)),
        hashed.contains(join_input(left, right)),
    ensures
        leaf_node(payload) != join(left, right),
{
    if leaf_node(payload) == join(left, right) {
        lemma_tags_are_short();
        hash::lemma_tagged_hash_binds(
            encode_utf8(tag::MERKLE_LEAF_V1@),
            payload@,
            encode_utf8(tag::MERKLE_NODE_V1@),
            left@ + right@,
            hashed,
        );
        assert(payload@.len() == 32);
        assert((left@ + right@).len() == 64);
    }
}

/// A leaf node of a log's tree is that of one of its leaves.
proof fn lemma_leaf_of_tree(leaves: Seq<Digest>, payload: Digest, hashed: Set<Seq<u8>>)
    requires
        tree_nodes(leaf_nodes(leaves)).contains(leaf_node(payload)),
        hash::collision_free(hashed),
        log_inputs(leaves).subset_of(hashed),
        hashed.contains(leaf_input(payload)),
    ensures
        leaves.contains(payload),
{
    let nodes = leaf_nodes(leaves);
    match lemma_node_is_leaf_or_join(nodes, leaf_node(payload)) {
        None => {
            let x = choose|x: int| 0 <= x < nodes.len() && nodes[x] == leaf_node(payload);
            lemma_leaf_is_hashed(leaves, x, hashed);
            lemma_leaf_binds(payload, leaves[x], hashed);
        },
        Some((a, b)) => {
            assert(log_inputs(leaves).contains(join_input(a, b)));
            lemma_leaf_is_no_join(payload, a, b, hashed);
        },
    }
}

/// A path that climbs to a node of a log's tree starts from one.
proof fn lemma_climb_starts_in_tree(
    i: nat,
    n: nat,
    old: Digest,
    new: Digest,
    path: Seq<Digest>,
    leaves: Seq<Digest>,
    hashed: Set<Seq<u8>>,
)
    requires
        rebuild(i, n, old, new, path) is Some,
        tree_nodes(leaf_nodes(leaves)).contains((rebuild(i, n, old, new, path)->0).1),
        hash::collision_free(hashed),
        climb_inputs(i, n, old, new, path).subset_of(hashed),
        log_inputs(leaves).subset_of(hashed),
    ensures
        tree_nodes(leaf_nodes(leaves)).contains(new),
    decreases n,
{
    if n > 1 {
        let all = climb_inputs(i, n, old, new, path);
        let m = ((n + 1) / 2) as nat;
        if i % 2 == 1 {
            assert(all.contains(join_input(path[0], new)));
            lemma_climb_starts_in_tree(
                i / 2,
                m,
                join(path[0], old),
                join(path[0], new),
                path.skip(1),
                leaves,
                hashed,
            );
            lemma_children_are_nodes(leaves, path[0], new, hashed);
        } else if i + 1 == n {
            lemma_climb_starts_in_tree(i / 2, m, old, new, path, leaves, hashed);
        } else {
            assert(all.contains(join_input(new, path[0])));
            lemma_climb_starts_in_tree(
                i / 2,
                m,
                old,
                join(new, path[0]),
                path.skip(1),
                leaves,
                hashed,
            );
            lemma_children_are_nodes(leaves, new, path[0], hashed);
        }
    }
}

/// An inclusion proof that verifies against a bare root, which does not say how
/// many leaves it covers, still shows its payload to be one of them.
pub proof fn law_inclusion_under_a_root_binds(
    proof: InclusionProof,
    payload: Digest,
    leaves: Seq<Digest>,
)
    requires
        proof.proves(payload, root_of(leaves)),
        hash::collision_free(
            proof.inputs(payload).union(log_inputs(leaves)).insert(empty_input()),
        ),
    ensures
        leaves.contains(payload),
{
    let hashed = proof.inputs(payload).union(log_inputs(leaves)).insert(empty_input());
    let (i, n) = (proof.leaf_index as nat, proof.tree_size as nat);
    let leaf = leaf_node(payload);
    if leaves.len() == 0 {
        assert(hashed.contains(leaf_input(payload)));
        lemma_climb_is_not_empty(i, n, leaf, leaf, proof.path@, hashed);
    } else {
        lemma_root_is_a_node(leaf_nodes(leaves));
        lemma_climb_starts_in_tree(i, n, leaf, leaf, proof.path@, leaves, hashed);
        lemma_leaf_of_tree(leaves, payload, hashed);
    }
}

/// True when a digest is that of a leaf or of an interior node among the inputs.
spec fn is_hashed_node(node: Digest, hashed: Set<Seq<u8>>) -> bool {
    ||| exists|p: Digest| node == leaf_node(p) && #[trigger] hashed.contains(leaf_input(p))
    ||| exists|l: Digest, r: Digest|
        node == join(l, r) && #[trigger] hashed.contains(join_input(l, r))
}

proof fn lemma_climb_is_not_empty(
    i: nat,
    n: nat,
    old: Digest,
    new: Digest,
    path: Seq<Digest>,
    hashed: Set<Seq<u8>>,
)
    requires
        rebuild(i, n, old, new, path) is Some,
        is_hashed_node(new, hashed),
        hash::collision_free(hashed),
        hashed.contains(empty_input()),
        climb_inputs(i, n, old, new, path).subset_of(hashed),
    ensures
        (rebuild(i, n, old, new, path)->0).1 != empty_tree(),
    decreases n,
{
    if n > 1 {
        let all = climb_inputs(i, n, old, new, path);
        let m = ((n + 1) / 2) as nat;
        if i % 2 == 1 {
            assert(all.contains(join_input(path[0], new)));
            assert(is_hashed_node(join(path[0], new), hashed));
            lemma_climb_is_not_empty(
                i / 2,
                m,
                join(path[0], old),
                join(path[0], new),
                path.skip(1),
                hashed,
            );
        } else if i + 1 == n {
            lemma_climb_is_not_empty(i / 2, m, old, new, path, hashed);
        } else {
            assert(all.contains(join_input(new, path[0])));
            assert(is_hashed_node(join(new, path[0]), hashed));
            lemma_climb_is_not_empty(
                i / 2,
                m,
                old,
                join(new, path[0]),
                path.skip(1),
                hashed,
            );
        }
    } else {
        lemma_hashed_node_is_not_empty(new, hashed);
    }
}

proof fn lemma_hashed_node_is_not_empty(node: Digest, hashed: Set<Seq<u8>>)
    requires
        is_hashed_node(node, hashed),
        hash::collision_free(hashed),
        hashed.contains(empty_input()),
    ensures
        node != empty_tree(),
{
    if node == empty_tree() {
        lemma_tags_are_short();
        let empty_tag = encode_utf8(tag::MERKLE_EMPTY_V1@);
        if exists|p: Digest| node == leaf_node(p) && #[trigger] hashed.contains(leaf_input(p)) {
            let p = choose|p: Digest|
                node == leaf_node(p) && #[trigger] hashed.contains(leaf_input(p));
            hash::lemma_tagged_hash_binds(
                encode_utf8(tag::MERKLE_LEAF_V1@),
                p@,
                empty_tag,
                Seq::empty(),
                hashed,
            );
            assert(p@.len() == 32);
        } else {
            let (l, r) = choose|l: Digest, r: Digest|
                node == join(l, r) && #[trigger] hashed.contains(join_input(l, r));
            hash::lemma_tagged_hash_binds(
                encode_utf8(tag::MERKLE_NODE_V1@),
                l@ + r@,
                empty_tag,
                Seq::empty(),
                hashed,
            );
            assert((l@ + r@).len() == 64);
        }
    }
}

/// Where the root of `nodes` is in a log's tree, so is each of them.
proof fn lemma_subtree_is_in_tree(nodes: Seq<Digest>, leaves: Seq<Digest>, hashed: Set<Seq<u8>>)
    requires
        nodes.len() >= 1,
        tree_nodes(leaf_nodes(leaves)).contains(tree(nodes)),
        hash::collision_free(hashed),
        tree_inputs(nodes).subset_of(hashed),
        log_inputs(leaves).subset_of(hashed),
    ensures
        forall|x: int|
            0 <= x < nodes.len() ==> tree_nodes(leaf_nodes(leaves)).contains(#[trigger] nodes[x]),
    decreases nodes.len(),
{
    if nodes.len() > 1 {
        let up = parents(nodes);
        lemma_tree_parents(nodes);
        lemma_pair_is_hashed(nodes, 0, hashed);
        lemma_subtree_is_in_tree(up, leaves, hashed);
        assert forall|x: int| 0 <= x < nodes.len() implies tree_nodes(leaf_nodes(leaves)).contains(
            #[trigger] nodes[x],
        ) by {
            let y = x / 2;
            assert(tree_nodes(leaf_nodes(leaves)).contains(up[y]));
            if 2 * y + 1 < nodes.len() {
                lemma_pair_is_hashed(nodes, y, hashed);
                lemma_children_are_nodes(leaves, nodes[2 * y], nodes[2 * y + 1], hashed);
            }
        }
    }
}

/// A root, though it does not say how many leaves it covers, tells which they
/// are: a leaf of one log is a leaf of any other with that root.
pub proof fn law_root_binds_the_set_of_leaves(a: Seq<Digest>, b: Seq<Digest>)
    requires
        root_of(a) == root_of(b),
        hash::collision_free(log_inputs(a).union(log_inputs(b)).insert(empty_input())),
    ensures
        forall|x: int| 0 <= x < a.len() ==> b.contains(#[trigger] a[x]),
{
    let hashed = log_inputs(a).union(log_inputs(b)).insert(empty_input());
    if a.len() > 0 {
        lemma_root_is_a_node(leaf_nodes(a));
        lemma_leaf_is_hashed(a, 0, hashed);
        if b.len() == 0 {
            lemma_tree_is_hashed(a, hashed);
            lemma_hashed_node_is_not_empty(tree(leaf_nodes(a)), hashed);
        } else {
            lemma_root_is_a_node(leaf_nodes(b));
            lemma_subtree_is_in_tree(leaf_nodes(a), b, hashed);
            assert forall|x: int| 0 <= x < a.len() implies b.contains(#[trigger] a[x]) by {
                assert(tree_nodes(leaf_nodes(b)).contains(leaf_nodes(a)[x]));
                lemma_leaf_is_hashed(a, x, hashed);
                lemma_leaf_of_tree(b, a[x], hashed);
            }
        }
    }
}

proof fn lemma_tree_is_hashed(leaves: Seq<Digest>, hashed: Set<Seq<u8>>)
    requires
        leaves.len() >= 1,
        log_inputs(leaves).subset_of(hashed),
    ensures
        is_hashed_node(tree(leaf_nodes(leaves)), hashed),
{
    let nodes = leaf_nodes(leaves);
    lemma_root_is_a_node(nodes);
    match lemma_node_is_leaf_or_join(nodes, tree(nodes)) {
        None => {
            let x = choose|x: int| 0 <= x < nodes.len() && nodes[x] == tree(nodes);
            lemma_leaf_is_hashed(leaves, x, hashed);
        },
        Some((l, r)) => {
            assert(log_inputs(leaves).contains(join_input(l, r)));
        },
    }
}

} // verus!
