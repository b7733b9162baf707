//! Iterative verifier for Equihash proof-of-work solutions.
//!
//! A solution to an Equihash puzzle with parameters `(n, k)` is a list of
//! `2^k` table indices. Each index selects an `n`-bit slice of a personalized
//! BLAKE2b digest; the verifier merges adjacent tree nodes pairwise, checking
//! an XOR-collision of fixed byte width, a strict ordering of leading indices,
//! and distinctness of the index sets at every level, and finally accepts only
//! if the root node's remaining hash bytes are all zero.

use vstd::prelude::*;
use vstd::arithmetic::div_mod::{
    lemma_div_is_ordered, lemma_div_is_ordered_by_denominator, lemma_div_multiples_vanish,
    lemma_div_multiples_vanish_fancy, lemma_fundamental_div_mod, lemma_mod_bound, lemma_mod_mod,
    lemma_small_mod,
};
use vstd::arithmetic::mul::lemma_mul_inequality;
use vstd::arithmetic::power2::pow2;

verus! {

// ---------------------------------------------------------------------------
// Puzzle parameters and the constants derived from them
// ---------------------------------------------------------------------------

/// Parameter sanity: `n` must lie in the range a 512-bit BLAKE2b block can
/// serve, and the collision bit length `n / (k + 1)` must be a whole number
/// of bytes so that byte-level trimming is exact.
pub open spec fn valid_params(n: u32, k: u32) -> bool {
    &&& 8 <= n <= 512
    &&& n as int % (8 * (k as int + 1)) == 0
}

/// How many `n`-bit sub-digests fit in one raw hash invocation's output.
pub open spec fn indices_per_hash_output_spec(n: u32) -> int {
    512int / n as int
}

/// Raw digest length in bytes requested from the hash primitive.
pub open spec fn hash_output_spec(n: u32) -> int {
    indices_per_hash_output_spec(n) * n as int / 8
}

/// Required XOR-collision width at each tree level, in bits.
pub open spec fn collision_bit_length_spec(n: u32, k: u32) -> int {
    n as int / (k as int + 1)
}

/// Required XOR-collision width at each tree level, in bytes.
pub open spec fn collision_byte_length_spec(n: u32, k: u32) -> int {
    (collision_bit_length_spec(n, k) + 7) / 8
}

/// Total meaningful hash length carried by a leaf node, in bytes.
pub open spec fn initial_hash_length_spec(n: u32, k: u32) -> int {
    (k as int + 1) * collision_byte_length_spec(n, k)
}

/// Facts about the derived constants that the verifier's arithmetic relies on.
pub proof fn lemma_derived_params(n: u32, k: u32)
    requires
        valid_params(n, k),
    ensures
        n as int % 8 == 0,
        k < 64,
        1 <= indices_per_hash_output_spec(n) <= 64,
        indices_per_hash_output_spec(n) * n as int <= 512,
        hash_output_spec(n) == indices_per_hash_output_spec(n) * (n as int / 8),
        1 <= hash_output_spec(n) <= 64,
        collision_byte_length_spec(n, k) == n as int / (8 * (k as int + 1)),
        collision_byte_length_spec(n, k) >= 1,
        initial_hash_length_spec(n, k) == n as int / 8,
        1 <= n as int / 8 <= 64,
{
    let nn = n as int;
    let kk = k as int;
    let d = 8 * (kk + 1);
    // The divisor cannot exceed n, since n is a nonzero multiple of it.
    if nn < d {
        lemma_small_mod(nn as nat, d as nat);
        assert(false);
    }
    assert(k < 64);
    lemma_mod_mod(nn, 8, kk + 1);
    assert(nn % 8 == 0);
    let q = nn / d;
    lemma_fundamental_div_mod(nn, d);
    assert(nn == d * q);
    lemma_div_is_ordered(d, nn, d);
    lemma_div_multiples_vanish(1, d);
    assert(q >= 1);
    // Collision bit length is 8 * q, so the byte length is exactly q.
    assert(d * q == (kk + 1) * (8 * q)) by (nonlinear_arith)
        requires
            d == 8 * (kk + 1),
    ;
    lemma_div_multiples_vanish(8 * q, kk + 1);
    assert(collision_bit_length_spec(n, k) == 8 * q);
    lemma_div_multiples_vanish_fancy(q, 7, 8);
    assert(collision_byte_length_spec(n, k) == q);
    // The initial hash length (k + 1) * q equals n / 8.
    assert(d * q == 8 * ((kk + 1) * q)) by (nonlinear_arith)
        requires
            d == 8 * (kk + 1),
    ;
    lemma_div_multiples_vanish((kk + 1) * q, 8);
    assert(nn / 8 == (kk + 1) * q);
    lemma_div_is_ordered(nn, 512, 8);
    assert(nn / 8 <= 64);
    lemma_div_is_ordered(8, nn, 8);
    assert(nn / 8 >= 1);
    // Bounds on the number of sub-digests per hash output.
    let ipho: int = 512int / nn;
    lemma_div_is_ordered(nn, 512, nn);
    lemma_div_multiples_vanish(1, nn);
    assert(ipho >= 1);
    lemma_div_is_ordered_by_denominator(512, 8, nn);
    assert(ipho <= 64);
    lemma_fundamental_div_mod(512, nn);
    lemma_mod_bound(512, nn);
    assert(nn * ipho <= 512);
    assert(ipho * nn == nn * ipho) by (nonlinear_arith);
    // The raw digest length is ipho * (n / 8) bytes.
    assert(ipho * nn == 8 * (ipho * (nn / 8))) by (nonlinear_arith)
        requires
            nn == 8 * (nn / 8),
    ;
    lemma_div_multiples_vanish(ipho * (nn / 8), 8);
    assert(hash_output_spec(n) == ipho * (nn / 8));
    assert(ipho * (nn / 8) >= 1 * 1) by (nonlinear_arith)
        requires
            ipho >= 1,
            nn / 8 >= 1,
    ;
    lemma_div_is_ordered(ipho * nn, 512, 8);
}

/// Byte-range facts for the `n`-bit sub-digest at position `q` within one
/// raw digest: the slice is byte-aligned and lies inside the digest.
pub proof fn lemma_leaf_slice(n: u32, q: int)
    requires
        8 <= n <= 512,
        n as int % 8 == 0,
        0 <= q < indices_per_hash_output_spec(n),
    ensures
        q * n as int <= 512,
        (q * n as int) / 8 == q * (n as int / 8),
        q * (n as int / 8) + n as int / 8 <= hash_output_spec(n),
{
    let nn = n as int;
    let ipho: int = 512int / nn;
    lemma_fundamental_div_mod(512, nn);
    lemma_mod_bound(512, nn);
    assert(nn * ipho <= 512);
    lemma_mul_inequality(q, ipho, nn);
    assert(q * nn <= ipho * nn) by (nonlinear_arith)
        requires
            q <= ipho,
            nn >= 0,
    ;
    assert(ipho * nn == nn * ipho) by (nonlinear_arith);
    lemma_fundamental_div_mod(nn, 8);
    assert(q * nn == 8 * (q * (nn / 8))) by (nonlinear_arith)
        requires
            nn == 8 * (nn / 8),
    ;
    lemma_div_multiples_vanish(q * (nn / 8), 8);
    assert((q + 1) * (nn / 8) <= ipho * (nn / 8)) by (nonlinear_arith)
        requires
            q + 1 <= ipho,
            nn / 8 >= 0,
    ;
    assert(ipho * nn == 8 * (ipho * (nn / 8))) by (nonlinear_arith)
        requires
            nn == 8 * (nn / 8),
    ;
    lemma_div_multiples_vanish(ipho * (nn / 8), 8);
    assert(hash_output_spec(n) == ipho * (nn / 8));
    assert((q + 1) * (nn / 8) == q * (nn / 8) + nn / 8) by (nonlinear_arith);
}

// ---------------------------------------------------------------------------
// The personalized digest generator
// ---------------------------------------------------------------------------

/// Little-endian four-byte encoding of a 32-bit value.
pub open spec fn le32_spec(x: u32) -> Seq<u8> {
    seq![
        (x & 0xff) as u8,
        ((x >> 8) & 0xff) as u8,
        ((x >> 16) & 0xff) as u8,
        ((x >> 24) & 0xff) as u8,
    ]
}

/// The 16-byte hash personalization: the ASCII tag "ZcashPoW" followed by
/// `n` and `k`, each as four little-endian bytes.
pub open spec fn personal_spec(n: u32, k: u32) -> Seq<u8> {
    seq![90u8, 99u8, 97u8, 115u8, 104u8, 80u8, 111u8, 87u8] + le32_spec(n) + le32_spec(k)
}

/// The byte stream fed to the hash for one table block: the input, the
/// nonce, then the block index as four little-endian bytes.
pub open spec fn digest_input_spec(input: Seq<u8>, nonce: Seq<u8>, block: u32) -> Seq<u8> {
    input + nonce + le32_spec(block)
}

/// The BLAKE2b digest of `data` under the given personalization and output
/// length. The digest is a function of these arguments alone; no further
/// characterization is assumed.
pub uninterp spec fn blake2b_of(personal: Seq<u8>, out_len: int, data: Seq<u8>) -> Seq<u8>;

/// Relies on `blake2b_simd::Params::hash` (with `hash_length` and `personal`
/// set): the digest is a pure function of the personalization, the configured
/// output length, and the input bytes, and has exactly the configured length.
/// `hash_length` accepts 1 to 64 and `personal` at most 16 bytes; anything
/// else panics, so those inputs are excluded here.
#[verifier::external_body]
fn blake2b_personal(personal: &[u8], out_len: usize, data: &[u8]) -> (r: Vec<u8>)
    requires
        personal@.len() <= 16,
        1 <= out_len <= 64,
    ensures
        r@ == blake2b_of(personal@, out_len as int, data@),
        r@.len() == out_len,
{
    let hash = blake2b_simd::Params::new()
        .hash_length(out_len)
        .personal(personal)
        .hash(data);
    hash.as_bytes().to_vec()
}

/// The raw digest for one table block, as the verifier requests it.
pub open spec fn block_digest_spec(
    n: u32,
    k: u32,
    input: Seq<u8>,
    nonce: Seq<u8>,
    block: u32,
) -> Seq<u8> {
    blake2b_of(personal_spec(n, k), hash_output_spec(n), digest_input_spec(input, nonce, block))
}

/// Appends every byte of `src` to `dst`.
fn extend_bytes(dst: &mut Vec<u8>, src: &[u8])
    ensures
        final(dst)@ == old(dst)@ + src@,
{
    let ghost dst0 = dst@;
    let mut i: usize = 0;
    while i < src.len()
        invariant
            i <= src@.len(),
            dst@ == dst0 + src@.subrange(0, i as int),
        decreases src@.len() - i,
    {
        let b = *vstd::slice::slice_index_get(src, i);
        dst.push(b);
        proof {
            assert(dst@ =~= dst0 + src@.subrange(0, i + 1));
        }
        i += 1;
    }
    proof {
        assert(dst@ =~= dst0 + src@);
    }
}

/// Encodes a 32-bit value as four little-endian bytes.
fn le32(x: u32) -> (r: Vec<u8>)
    ensures
        r@ == le32_spec(x),
{
    let mut r: Vec<u8> = Vec::new();
    r.push((x & 0xff) as u8);
    r.push(((x >> 8) & 0xff) as u8);
    r.push(((x >> 16) & 0xff) as u8);
    r.push(((x >> 24) & 0xff) as u8);
    proof {
        assert(r@ =~= le32_spec(x));
    }
    r
}

/// Produces the personalized digest for one table block: a fresh BLAKE2b
/// context keyed with "ZcashPoW" plus `n` and `k`, fed the input, the nonce,
/// and the little-endian block index.
pub fn generate_hash(n: u32, k: u32, input: &[u8], nonce: &[u8], block: u32) -> (r: Vec<u8>)
    requires
        valid_params(n, k),
        input@.len() + nonce@.len() + 4 <= usize::MAX,
    ensures
        r@ == block_digest_spec(n, k, input@, nonce@, block),
        r@.len() == hash_output_spec(n),
{
    proof {
        lemma_derived_params(n, k);
    }
    let mut personal: Vec<u8> = Vec::new();
    personal.push(90u8);
    personal.push(99u8);
    personal.push(97u8);
    personal.push(115u8);
    personal.push(104u8);
    personal.push(80u8);
    personal.push(111u8);
    personal.push(87u8);
    let n_bytes = le32(n);
    let k_bytes = le32(k);
    extend_bytes(&mut personal, n_bytes.as_slice());
    extend_bytes(&mut personal, k_bytes.as_slice());
    proof {
        assert(personal@ =~= personal_spec(n, k));
    }
    let mut data: Vec<u8> = Vec::new();
    extend_bytes(&mut data, input);
    extend_bytes(&mut data, nonce);
    let block_bytes = le32(block);
    extend_bytes(&mut data, block_bytes.as_slice());
    proof {
        assert(data@ =~= digest_input_spec(input@, nonce@, block));
    }
    let indices_per_hash_output: u32 = 512 / n;
    let out_len: usize = ((indices_per_hash_output * n) / 8) as usize;
    blake2b_personal(personal.as_slice(), out_len, data.as_slice())
}

// ---------------------------------------------------------------------------
// Tree nodes and the merge operator
// ---------------------------------------------------------------------------

/// The mathematical value of a tree node: its current (possibly truncated)
/// hash bytes and the list of original table indices it summarizes.
#[verifier::ext_equal]
pub ghost struct SpecNode {
    pub hash: Seq<u8>,
    pub indices: Seq<u32>,
}

/// A node of the binary merge tree.
pub struct Node {
    pub hash: Vec<u8>,
    pub indices: Vec<u32>,
}

impl View for Node {
    type V = SpecNode;

    open spec fn view(&self) -> SpecNode {
        SpecNode { hash: self.hash@, indices: self.indices@ }
    }
}

/// Byte-wise XOR of two equally long byte sequences.
pub open spec fn xor_bytes(a: Seq<u8>, b: Seq<u8>) -> Seq<u8>
    recommends
        a.len() == b.len(),
{
    Seq::new(a.len(), |i: int| a[i] ^ b[i])
}

/// The parent of two sibling nodes: the XOR of their hashes with the first
/// `trim` (already collided) bytes dropped, and the two index lists
/// concatenated with the one holding the smaller leading index first.
pub open spec fn merge_spec(a: SpecNode, b: SpecNode, trim: int) -> SpecNode
    recommends
        a.hash.len() == b.hash.len(),
        0 <= trim <= a.hash.len(),
        a.indices.len() > 0,
        b.indices.len() > 0,
{
    SpecNode {
        hash: xor_bytes(a.hash.skip(trim), b.hash.skip(trim)),
        indices: if a.indices[0] < b.indices[0] {
            a.indices + b.indices
        } else {
            b.indices + a.indices
        },
    }
}

/// The collision check: the first `cbl` hash bytes of the siblings agree.
pub open spec fn collision_ok(a: SpecNode, b: SpecNode, cbl: int) -> bool {
    forall|i: int| 0 <= i < cbl ==> a.hash[i] == b.hash[i]
}

/// The ordering check: the left sibling's leading index is strictly smaller.
pub open spec fn ordered_ok(a: SpecNode, b: SpecNode) -> bool {
    a.indices[0] < b.indices[0]
}

/// The distinctness check: no table index occurs in both siblings.
pub open spec fn distinct_ok(a: SpecNode, b: SpecNode) -> bool {
    forall|i: int, j: int|
        0 <= i < a.indices.len() && 0 <= j < b.indices.len() ==> a.indices[i] != b.indices[j]
}

/// All three per-pair checks together.
pub open spec fn pair_ok(a: SpecNode, b: SpecNode, cbl: int) -> bool {
    collision_ok(a, b, cbl) && ordered_ok(a, b) && distinct_ok(a, b)
}

/// The checks for the `m`-th pair of the current level.
pub open spec fn pair_at(nodes: Seq<SpecNode>, cbl: int, m: int) -> bool {
    pair_ok(nodes[2 * m], nodes[2 * m + 1], cbl)
}

/// Every non-overlapping adjacent pair at the current level passes.
pub open spec fn level_ok(nodes: Seq<SpecNode>, cbl: int) -> bool {
    forall|m: int| 0 <= m < nodes.len() / 2 ==> #[trigger] pair_at(nodes, cbl, m)
}

/// One pairwise reduction step: node `2m` merges with node `2m + 1`.
pub open spec fn merge_level(nodes: Seq<SpecNode>, cbl: int) -> Seq<SpecNode> {
    Seq::new(nodes.len() / 2, |m: int| merge_spec(nodes[2 * m], nodes[2 * m + 1], cbl))
}

/// The first `len` bytes of `h` are zero.
pub open spec fn all_zero(h: Seq<u8>, len: int) -> bool {
    forall|i: int| 0 <= i < len ==> h[i] == 0
}

/// The verifier's state machine, from an arbitrary level down to the root:
/// every pair at every level must pass the three checks, and the lone root's
/// first `final_len` hash bytes must all be zero.
pub open spec fn valid_from(nodes: Seq<SpecNode>, cbl: int, final_len: int) -> bool
    decreases nodes.len(),
{
    if nodes.len() <= 1 {
        nodes.len() == 1 && all_zero(nodes[0].hash, final_len)
    } else {
        level_ok(nodes, cbl) && valid_from(merge_level(nodes, cbl), cbl, final_len)
    }
}

impl Node {
    /// Merges two sibling nodes into their parent, dropping the first `trim`
    /// already-collided hash bytes.
    pub fn new(a: &Node, b: &Node, trim: usize) -> (r: Node)
        requires
            a.hash@.len() == b.hash@.len(),
            trim <= a.hash@.len(),
            a.indices@.len() > 0,
            b.indices@.len() > 0,
        ensures
            r@ == merge_spec(a@, b@, trim as int),
            r@.hash.len() == a.hash@.len() - trim,
            r@.indices.len() == a.indices@.len() + b.indices@.len(),
    {
        let mut hash: Vec<u8> = Vec::new();
        let mut i: usize = trim;
        while i < a.hash.len()
            invariant
                trim <= i <= a.hash@.len(),
                a.hash@.len() == b.hash@.len(),
                hash@.len() == i - trim,
                forall|j: int|
                    0 <= j < hash@.len() ==> hash@[j] == (a.hash@[trim + j] ^ b.hash@[trim + j]),
            decreases a.hash@.len() - i,
        {
            hash.push(a.hash[i] ^ b.hash[i]);
            i += 1;
        }
        let mut indices: Vec<u32> = Vec::new();
        if a.indices_before(b) {
            append_indices(&mut indices, &a.indices);
            append_indices(&mut indices, &b.indices);
        } else {
            append_indices(&mut indices, &b.indices);
            append_indices(&mut indices, &a.indices);
        }
        let r = Node { hash, indices };
        proof {
            assert(r@.hash =~= merge_spec(a@, b@, trim as int).hash);
            assert(r@.indices =~= merge_spec(a@, b@, trim as int).indices);
            assert(r@ =~= merge_spec(a@, b@, trim as int));
        }
        r
    }

    /// Whether this node's indices sort before the other's: the leading
    /// indices decide, since index lists are ordered big-endian-style.
    pub fn indices_before(&self, other: &Node) -> (r: bool)
        requires
            self.indices@.len() > 0,
            other.indices@.len() > 0,
        ensures
            r == ordered_ok(self@, other@),
    {
        self.indices[0] < other.indices[0]
    }

    /// Whether the first `len` bytes of this node's hash are all zero.
    pub fn is_zero(&self, len: usize) -> (r: bool)
        requires
            len <= self.hash@.len(),
        ensures
            r == all_zero(self@.hash, len as int),
    {
        let mut i: usize = 0;
        while i < len
            invariant
                i <= len,
                len <= self.hash@.len(),
                forall|j: int| 0 <= j < i ==> self.hash@[j] == 0,
            decreases len - i,
        {
            if self.hash[i] != 0 {
                return false;
            }
            i += 1;
        }
        true
    }
}

/// Appends every element of `src` to `dst`.
fn append_indices(dst: &mut Vec<u32>, src: &Vec<u32>)
    ensures
        final(dst)@ == old(dst)@ + src@,
{
    let ghost dst0 = dst@;
    let mut i: usize = 0;
    while i < src.len()
        invariant
            i <= src@.len(),
            dst@ == dst0 + src@.subrange(0, i as int),
        decreases src@.len() - i,
    {
        dst.push(src[i]);
        proof {
            assert(dst@ =~= dst0 + src@.subrange(0, i + 1));
        }
        i += 1;
    }
    proof {
        assert(dst@ =~= dst0 + src@);
    }
}

/// The collision check on two live nodes: their first `len` hash bytes agree.
pub fn has_collision(a: &Node, b: &Node, len: usize) -> (r: bool)
    requires
        len <= a.hash@.len(),
        len <= b.hash@.len(),
    ensures
        r == collision_ok(a@, b@, len as int),
{
    let mut i: usize = 0;
    while i < len
        invariant
            i <= len,
            len <= a.hash@.len(),
            len <= b.hash@.len(),
            forall|j: int| 0 <= j < i ==> a.hash@[j] == b.hash@[j],
        decreases len - i,
    {
        if a.hash[i] != b.hash[i] {
            proof {
                assert(a@.hash[i as int] != b@.hash[i as int]);
                assert(!collision_ok(a@, b@, len as int));
            }
            return false;
        }
        i += 1;
    }
    true
}

/// The distinctness check on two live nodes: no index occurs in both.
pub fn distinct_indices(a: &Node, b: &Node) -> (r: bool)
    ensures
        r == distinct_ok(a@, b@),
{
    let mut i: usize = 0;
    while i < a.indices.len()
        invariant
            i <= a.indices@.len(),
            forall|p: int, q: int|
                0 <= p < i && 0 <= q < b.indices@.len() ==> a.indices@[p] != b.indices@[q],
        decreases a.indices@.len() - i,
    {
        let mut j: usize = 0;
        while j < b.indices.len()
            invariant
                i < a.indices@.len(),
                j <= b.indices@.len(),
                forall|q: int| 0 <= q < j ==> a.indices@[i as int] != b.indices@[q],
            decreases b.indices@.len() - j,
        {
            if a.indices[i] == b.indices[j] {
                proof {
                    assert(a@.indices[i as int] == b@.indices[j as int]);
                    assert(!distinct_ok(a@, b@));
                }
                return false;
            }
            j += 1;
        }
        i += 1;
    }
    true
}

// ---------------------------------------------------------------------------
// The iterative verifier
// ---------------------------------------------------------------------------

/// The leaf hash for table index `idx`: the `n`-bit, byte-aligned slice of
/// the raw digest of the block `idx / IndicesPerHashOutput`, at bit offset
/// `(idx % IndicesPerHashOutput) * n`.
pub open spec fn leaf_hash_spec(
    n: u32,
    k: u32,
    input: Seq<u8>,
    nonce: Seq<u8>,
    idx: u32,
) -> Seq<u8> {
    let ipho = indices_per_hash_output_spec(n);
    let start = (idx as int % ipho) * n as int / 8;
    block_digest_spec(n, k, input, nonce, (idx as int / ipho) as u32).subrange(
        start,
        start + n as int / 8,
    )
}

/// The leaf node for table index `idx`.
pub open spec fn leaf_node_spec(
    n: u32,
    k: u32,
    input: Seq<u8>,
    nonce: Seq<u8>,
    idx: u32,
) -> SpecNode {
    SpecNode { hash: leaf_hash_spec(n, k, input, nonce, idx), indices: seq![idx] }
}

/// The row of leaf nodes for a candidate solution, in solution order.
pub open spec fn leaf_nodes_spec(
    n: u32,
    k: u32,
    input: Seq<u8>,
    nonce: Seq<u8>,
    indices: Seq<u32>,
) -> Seq<SpecNode> {
    Seq::new(indices.len(), |i: int| leaf_node_spec(n, k, input, nonce, indices[i]))
}

/// What it means for a candidate solution to be valid: starting from its
/// leaf row, every merge level passes all three checks and the root's
/// remaining `InitialHashLength - k * CollisionByteLength` bytes are zero.
pub open spec fn valid_solution(
    n: u32,
    k: u32,
    input: Seq<u8>,
    nonce: Seq<u8>,
    indices: Seq<u32>,
) -> bool {
    let cbl = collision_byte_length_spec(n, k);
    valid_from(
        leaf_nodes_spec(n, k, input, nonce, indices),
        cbl,
        initial_hash_length_spec(n, k) - k as int * cbl,
    )
}

/// The mathematical values of a row of live nodes.
pub open spec fn views_of(nodes: Seq<Node>) -> Seq<SpecNode> {
    nodes.map_values(|nd: Node| nd@)
}

/// Runs the full verifier: builds the leaf nodes, reduces them pairwise for
/// `k` levels with all three checks at every merge, and accepts exactly when
/// the final node's remaining hash bytes are all zero.
#[verifier::loop_isolation(false)]
pub fn is_valid_solution_iterative(
    n: u32,
    k: u32,
    input: &[u8],
    nonce: &[u8],
    indices: &[u32],
) -> (r: bool)
    requires
        valid_params(n, k),
        indices@.len() == pow2(k as nat),
        input@.len() + nonce@.len() + 4 <= usize::MAX,
    ensures
        r == valid_solution(n, k, input@, nonce@, indices@),
{
    proof {
        lemma_derived_params(n, k);
    }
    let indices_per_hash_output: u32 = 512 / n;
    let collision_bit_length: usize = (n / (k + 1)) as usize;
    let collision_byte_length: usize = (collision_bit_length + 7) / 8;
    let hash_length: usize = ((k as usize) + 1) * collision_byte_length;
    let ghost cbl = collision_byte_length_spec(n, k);
    let ghost leaves = leaf_nodes_spec(n, k, input@, nonce@, indices@);
    assert(collision_byte_length == cbl);
    assert(hash_length == n as int / 8);

    let mut x: Vec<Node> = Vec::new();
    let mut i: usize = 0;
    while i < indices.len()
        invariant
            i <= indices@.len(),
            x@.len() == i,
            forall|j: int| 0 <= j < i ==> #[trigger] x@[j]@ == leaves[j],
            forall|j: int| 0 <= j < i ==> (#[trigger] x@[j]@).hash.len() == hash_length,
        decreases indices@.len() - i,
    {
        let idx: u32 = *vstd::slice::slice_index_get(indices, i);
        let block: u32 = idx / indices_per_hash_output;
        let digest = generate_hash(n, k, input, nonce, block);
        let sub: u32 = idx % indices_per_hash_output;
        proof {
            lemma_leaf_slice(n, sub as int);
        }
        let start: usize = ((sub * n) / 8) as usize;
        let end: usize = start + (n as usize) / 8;
        let mut h: Vec<u8> = Vec::new();
        let mut t: usize = start;
        while t < end
            invariant
                start <= t <= end,
                end <= digest@.len(),
                h@ == digest@.subrange(start as int, t as int),
            decreases end - t,
        {
            h.push(digest[t]);
            proof {
                assert(h@ =~= digest@.subrange(start as int, t + 1));
            }
            t += 1;
        }
        let mut ind: Vec<u32> = Vec::new();
        ind.push(idx);
        let node = Node { hash: h, indices: ind };
        proof {
            assert(node@.hash =~= leaf_hash_spec(n, k, input@, nonce@, idx));
            assert(node@.indices =~= seq![idx]);
            assert(node@ =~= leaves[i as int]);
        }
        x.push(node);
        i += 1;
    }

    let mut hash_len: usize = hash_length;
    let ghost mut lvl: int = 0;
    proof {
        assert(views_of(x@) =~= leaves);
        vstd::arithmetic::power2::lemma2_to64();
        assert((k as int + 1) * cbl - k as int * cbl == cbl) by (nonlinear_arith);
        assert((k as int - 0 + 1) * cbl == (k as int + 1) * cbl);
    }
    while x.len() > 1
        invariant
            0 <= lvl <= k,
            x@.len() == pow2((k as int - lvl) as nat),
            hash_len as int == (k as int - lvl + 1) * cbl,
            hash_len <= 64,
            forall|j: int| 0 <= j < x@.len() ==> (#[trigger] x@[j]@).hash.len() == hash_len,
            forall|j: int| 0 <= j < x@.len() ==> (#[trigger] x@[j]@).indices.len() > 0,
            valid_solution(n, k, input@, nonce@, indices@) <==> valid_from(
                views_of(x@),
                cbl,
                cbl,
            ),
        decreases x@.len(),
    {
        let ghost cur = views_of(x@);
        proof {
            // The row is longer than one node, so at least one level remains.
            if k as int - lvl == 0 {
                assert(pow2(0) == 1);
                assert(false);
            }
            vstd::arithmetic::power2::lemma_pow2_unfold((k as int - lvl) as nat);
            assert(cur.len() == x@.len());
            lemma_mul_inequality(1, k as int - lvl + 1, cbl);
        }
        let half: usize = x.len() / 2;
        let mut xc: Vec<Node> = Vec::new();
        let mut m: usize = 0;
        while m < half
            invariant
                m <= half,
                xc@.len() == m,
                forall|p: int| 0 <= p < m ==> #[trigger] xc@[p]@ == merge_spec(
                    cur[2 * p],
                    cur[2 * p + 1],
                    cbl,
                ),
                forall|p: int| 0 <= p < m ==> #[trigger] pair_at(cur, cbl, p),
            decreases half - m,
        {
            let a = &x[2 * m];
            let b = &x[2 * m + 1];
            proof {
                assert(x@[2 * m as int]@ == cur[2 * m as int]);
                assert(x@[2 * m as int + 1]@ == cur[2 * m as int + 1]);
                assert((x@[2 * m as int]@).hash.len() == hash_len);
                assert((x@[2 * m as int + 1]@).hash.len() == hash_len);
                assert((x@[2 * m as int]@).indices.len() > 0);
                assert((x@[2 * m as int + 1]@).indices.len() > 0);
                assert(1 * cbl <= (k as int - lvl + 1) * cbl);
            }
            if !has_collision(a, b, collision_byte_length) {
                // Invalid solution: invalid collision length between rows.
                proof {
                    assert(!pair_at(cur, cbl, m as int));
                    assert(!valid_from(views_of(x@), cbl, cbl));
                }
                return false;
            }
            if b.indices_before(a) {
                // Invalid solution: index tree incorrectly ordered.
                proof {
                    assert(!pair_at(cur, cbl, m as int));
                    assert(!valid_from(views_of(x@), cbl, cbl));
                }
                return false;
            }
            if !distinct_indices(a, b) {
                // Invalid solution: duplicate indices.
                proof {
                    assert(!pair_at(cur, cbl, m as int));
                    assert(!valid_from(views_of(x@), cbl, cbl));
                }
                return false;
            }
            let node = Node::new(a, b, collision_byte_length);
            proof {
                // Distinctness at the leading positions upgrades "not
                // reversed" to the strict ordering the merge spec uses.
                assert(cur[2 * m as int].indices[0] != cur[2 * m as int + 1].indices[0]);
                assert(pair_at(cur, cbl, m as int));
            }
            xc.push(node);
            m += 1;
        }
        proof {
            assert(views_of(xc@) =~= merge_level(cur, cbl));
            assert(level_ok(cur, cbl));
            assert(valid_from(cur, cbl, cbl) == valid_from(merge_level(cur, cbl), cbl, cbl));
            lvl = lvl + 1;
            assert((k as int - lvl + 1 + 1) * cbl == (k as int - lvl + 1) * cbl + cbl)
                by (nonlinear_arith);
        }
        x = xc;
        hash_len = hash_len - collision_byte_length;
    }
    proof {
        vstd::arithmetic::power2::lemma_pow2_pos((k as int - lvl) as nat);
        if k as int - lvl > 0 {
            vstd::arithmetic::power2::lemma_pow2_unfold((k as int - lvl) as nat);
            vstd::arithmetic::power2::lemma_pow2_pos((k as int - lvl - 1) as nat);
            assert(false);
        }
        assert(x@.len() == 1);
        assert(lvl == k);
        assert((k as int - lvl + 1) * cbl == cbl) by (nonlinear_arith)
            requires
                lvl == k as int,
        ;
        assert(hash_len as int == cbl);
    }
    let root = &x[0];
    let r = root.is_zero(hash_len);
    proof {
        assert(views_of(x@)[0] == root@);
        assert(valid_from(views_of(x@), cbl, cbl) == all_zero(root@.hash, cbl));
    }
    r
}

/// Verifies a candidate Equihash solution: true exactly when the index list
/// names leaf digests that merge cleanly through all `k` levels and leave an
/// all-zero root hash.
pub fn is_valid_solution(n: u32, k: u32, input: &[u8], nonce: &[u8], indices: &[u32]) -> (r: bool)
    requires
        valid_params(n, k),
        indices@.len() == pow2(k as nat),
        input@.len() + nonce@.len() + 4 <= usize::MAX,
    ensures
        r == valid_solution(n, k, input@, nonce@, indices@),
{
    is_valid_solution_iterative(n, k, input, nonce, indices)
}

// ---------------------------------------------------------------------------
// Laws: rejection guarantees provable from the model alone
// ---------------------------------------------------------------------------

/// A node's indices survive one merge level: whatever value position `p`
/// holds appears in its parent at position `p / 2`.
proof fn lemma_merge_level_contains(nodes: Seq<SpecNode>, cbl: int, p: int, v: u32)
    requires
        0 <= p,
        p / 2 < nodes.len() / 2,
        p < nodes.len(),
        nodes[p].indices.contains(v),
    ensures
        merge_level(nodes, cbl)[p / 2].indices.contains(v),
{
    let m = p / 2;
    let a = nodes[2 * m];
    let b = nodes[2 * m + 1];
    let merged = merge_spec(a, b, cbl);
    assert(merge_level(nodes, cbl)[m] == merged);
    let i = choose|i: int| 0 <= i < nodes[p].indices.len() && nodes[p].indices[i] == v;
    assert(p == 2 * m || p == 2 * m + 1);
    if a.indices[0] < b.indices[0] {
        if p == 2 * m {
            assert(merged.indices[i] == v);
        } else {
            assert(merged.indices[a.indices.len() + i] == v);
        }
    } else {
        if p == 2 * m {
            assert(merged.indices[b.indices.len() + i] == v);
        } else {
            assert(merged.indices[i] == v);
        }
    }
    assert(merged.indices.contains(v));
}

/// Inside a valid merge tree, two distinct node positions never share a
/// table index: at the level where their subtrees become siblings, the
/// distinctness check would fail.
proof fn lemma_valid_from_no_shared_index(
    nodes: Seq<SpecNode>,
    cbl: int,
    fl: int,
    e: nat,
    p: int,
    q: int,
    v: u32,
)
    requires
        nodes.len() == pow2(e),
        0 <= p < q < nodes.len(),
        nodes[p].indices.contains(v),
        nodes[q].indices.contains(v),
    ensures
        !valid_from(nodes, cbl, fl),
    decreases nodes.len(),
{
    if valid_from(nodes, cbl, fl) {
        vstd::arithmetic::power2::lemma2_to64();
        if e == 0 {
            assert(nodes.len() == 1);
            assert(false);
        }
        vstd::arithmetic::power2::lemma_pow2_unfold(e);
        vstd::arithmetic::power2::lemma_pow2_pos((e - 1) as nat);
        assert(nodes.len() >= 2);
        assert(level_ok(nodes, cbl));
        if p / 2 == q / 2 {
            let m = p / 2;
            assert(p == 2 * m && q == 2 * m + 1);
            assert(0 <= m < nodes.len() / 2);
            assert(pair_at(nodes, cbl, m));
            let i = choose|i: int| 0 <= i < nodes[p].indices.len() && nodes[p].indices[i] == v;
            let j = choose|j: int| 0 <= j < nodes[q].indices.len() && nodes[q].indices[j] == v;
            assert(nodes[p].indices[i] != nodes[q].indices[j]);
            assert(false);
        } else {
            let next = merge_level(nodes, cbl);
            assert(next.len() == nodes.len() / 2 == pow2((e - 1) as nat));
            lemma_merge_level_contains(nodes, cbl, p, v);
            lemma_merge_level_contains(nodes, cbl, q, v);
            assert(0 <= p / 2 < q / 2 < next.len());
            lemma_valid_from_no_shared_index(next, cbl, fl, (e - 1) as nat, p / 2, q / 2, v);
            assert(false);
        }
    }
}

/// Duplicate rejection: an index list that repeats a value at any two
/// positions is never a valid solution, whatever the hashes look like — at
/// the level where the two positions' subtrees become siblings, the
/// distinctness check fails.
pub proof fn lemma_duplicate_indices_rejected(
    n: u32,
    k: u32,
    input: Seq<u8>,
    nonce: Seq<u8>,
    indices: Seq<u32>,
    p: int,
    q: int,
)
    requires
        indices.len() == pow2(k as nat),
        0 <= p < q < indices.len(),
        indices[p] == indices[q],
    ensures
        !valid_solution(n, k, input, nonce, indices),
{
    if valid_solution(n, k, input, nonce, indices) {
        let leaves = leaf_nodes_spec(n, k, input, nonce, indices);
        let cbl = collision_byte_length_spec(n, k);
        let fl = initial_hash_length_spec(n, k) - k as int * cbl;
        let v = indices[p];
        assert(leaves[p].indices[0] == v);
        assert(leaves[p].indices.contains(v));
        assert(leaves[q].indices[0] == v);
        assert(leaves[q].indices.contains(v));
        lemma_valid_from_no_shared_index(leaves, cbl, fl, k as nat, p, q, v);
    }
}

/// Order sensitivity: if some adjacent leaf pair does not carry strictly
/// ascending indices, the solution is never valid — the ordering check fails
/// on a reversed pair, and the distinctness check on an equal one.
pub proof fn lemma_misordered_pair_rejected(
    n: u32,
    k: u32,
    input: Seq<u8>,
    nonce: Seq<u8>,
    indices: Seq<u32>,
    m: int,
)
    requires
        indices.len() == pow2(k as nat),
        0 <= m,
        2 * m + 1 < indices.len(),
        indices[2 * m + 1] <= indices[2 * m],
    ensures
        !valid_solution(n, k, input, nonce, indices),
{
    if valid_solution(n, k, input, nonce, indices) {
        let leaves = leaf_nodes_spec(n, k, input, nonce, indices);
        let cbl = collision_byte_length_spec(n, k);
        assert(leaves.len() >= 2);
        assert(level_ok(leaves, cbl));
        assert(0 <= m < leaves.len() / 2);
        assert(pair_at(leaves, cbl, m));
        assert(leaves[2 * m].indices[0] == indices[2 * m]);
        assert(leaves[2 * m + 1].indices[0] == indices[2 * m + 1]);
        assert(ordered_ok(leaves[2 * m], leaves[2 * m + 1]));
        assert(false);
    }
}

} // verus!
