//! A binary Merkle tree over a power-of-two number of data blocks, stored
//! level by level in one flat array (leaves first, root last), with
//! membership proofs.

use vstd::prelude::*;

verus! {

/// The SHA-256 digest of the given bytes.
pub uninterp spec fn sha256(data: Seq<u8>) -> Seq<u8>;

/// Relies on `sha2::Sha256::digest`: the 32-byte SHA-256 digest of the data,
/// a function of the data alone.
#[verifier::external_body]
fn sha256_digest(data: &[u8]) -> (r: Vec<u8>)
    ensures
        r@ == sha256(data@),
        r@.len() == 32,
{
    <sha2::Sha256 as sha2::Digest>::digest(data).to_vec()
}

/// The hash of an inner node: the digest of its children's hashes, left then right.
pub open spec fn hash_pair(left: Seq<u8>, right: Seq<u8>) -> Seq<u8> {
    sha256(left + right)
}

/// `2^k`.
pub open spec fn pow2(k: nat) -> nat
    decreases k,
{
    if k == 0 {
        1
    } else {
        2 * pow2((k - 1) as nat)
    }
}

/// `n` is a power of two (and so at least one).
pub open spec fn is_pow2(n: nat) -> bool {
    exists|k: nat| pow2(k) == n
}

/// The bytes of each block.
pub open spec fn blocks_view(blocks: Seq<Vec<u8>>) -> Seq<Seq<u8>> {
    blocks.map_values(|b: Vec<u8>| b@)
}

proof fn lemma_pow2_positive(k: nat)
    ensures
        pow2(k) >= 1,
    decreases k,
{
    if k > 0 {
        lemma_pow2_positive((k - 1) as nat);
    }
}

proof fn lemma_pow2_word()
    ensures
        usize::MAX + 1 == pow2(32) || usize::MAX + 1 == pow2(64),
{
    reveal_with_fuel(pow2, 65);
    assert(pow2(32) == 0x1_0000_0000);
    assert(pow2(64) == 0x1_0000_0000_0000_0000);
}

/// A power of two below `pow2(w)` is at most half of it.
proof fn lemma_pow2_half(a: nat, w: nat)
    requires
        pow2(a) < pow2(w),
    ensures
        2 * pow2(a) <= pow2(w),
    decreases w,
{
    lemma_pow2_positive(a);
    if w == 0 {
    } else if a == 0 {
        lemma_pow2_positive((w - 1) as nat);
    } else {
        lemma_pow2_half((a - 1) as nat, (w - 1) as nat);
    }
}

/// A tree over `n` leaves has `2n - 1` nodes, and that count fits in a `usize`.
proof fn lemma_node_count_fits(n: nat)
    requires
        is_pow2(n),
        n <= usize::MAX,
    ensures
        2 * n - 1 <= usize::MAX,
{
    let k = choose|k: nat| pow2(k) == n;
    lemma_pow2_word();
    if usize::MAX + 1 == pow2(32) {
        lemma_pow2_half(k, 32);
    } else {
        lemma_pow2_half(k, 64);
    }
}

proof fn lemma_bits_even(n: usize)
    requires
        n > 1,
        n % 2 == 0,
    ensures
        (n & ((n - 1) as usize)) == 0 <==> ((n / 2) & (((n / 2) - 1) as usize)) == 0,
{
    assert(n > 1 && n % 2 == 0 ==> ((n & ((n - 1) as usize)) == 0 <==> ((n >> 1) & (((n >> 1) - 1) as usize)) == 0))
        by (bit_vector);
    assert(n >> 1 == n / 2) by (bit_vector);
}

proof fn lemma_bits_odd(n: usize)
    requires
        n > 1,
        n % 2 == 1,
    ensures
        (n & ((n - 1) as usize)) != 0,
{
    assert(n > 1 && n % 2 == 1 ==> (n & ((n - 1) as usize)) != 0) by (bit_vector);
}

proof fn lemma_power_of_two_bits(n: usize)
    ensures
        (n != 0 && (n & ((n - 1) as usize)) == 0) <==> is_pow2(n as nat),
    decreases n,
{
    if n == 0 {
        assert forall|k: nat| pow2(k) != 0 by {
            lemma_pow2_positive(k);
        }
    } else if n == 1 {
        assert((1usize & 0usize) == 0) by (bit_vector);
        assert(pow2(0) == 1);
    } else if n % 2 == 1 {
        lemma_bits_odd(n);
        if is_pow2(n as nat) {
            let k = choose|k: nat| pow2(k) == n;
            assert(k > 0);
            assert(false);
        }
    } else {
        lemma_bits_even(n);
        lemma_power_of_two_bits(n / 2);
        if is_pow2(n as nat) {
            let k = choose|k: nat| pow2(k) == n;
            assert(k > 0);
            assert(pow2((k - 1) as nat) == n / 2);
        }
        if is_pow2((n / 2) as nat) {
            let k = choose|k: nat| pow2(k) == n / 2;
            assert(pow2(k + 1) == n);
        }
    }
}

/// Whether `n` is a power of two (zero is not).
pub fn is_power_of_two(n: usize) -> (r: bool)
    ensures
        r == is_pow2(n as nat),
{
    proof {
        lemma_power_of_two_bits(n);
    }
    n != 0 && (n & (n - 1)) == 0
}

/// Digest of a data block.
pub fn hash_data(data: &Vec<u8>) -> (r: Vec<u8>)
    ensures
        r@ == sha256(data@),
        r@.len() == 32,
{
    sha256_digest(data.as_slice())
}

/// Digest of two hashes joined, the first on the left.
pub fn hash_concat(h1: &Vec<u8>, h2: &Vec<u8>) -> (r: Vec<u8>)
    ensures
        r@ == hash_pair(h1@, h2@),
        r@.len() == 32,
{
    let mut joined: Vec<u8> = Vec::new();
    let mut i: usize = 0;
    while i < h1.len()
        invariant
            i <= h1@.len(),
            joined@ == h1@.subrange(0, i as int),
        decreases h1@.len() - i,
    {
        joined.push(h1[i]);
        i = i + 1;
    }
    let mut j: usize = 0;
    while j < h2.len()
        invariant
            j <= h2@.len(),
            joined@ == h1@ + h2@.subrange(0, j as int),
        decreases h2@.len() - j,
    {
        joined.push(h2[j]);
        j = j + 1;
    }
    assert(h1@.subrange(0, h1@.len() as int) == h1@);
    assert(h2@.subrange(0, h2@.len() as int) == h2@);
    sha256_digest(joined.as_slice())
}

/// Which side a proof's sibling hash is joined on.
#[derive(Debug, Clone, Copy, PartialEq, Eq, Structural)]
pub enum HashDirection {
    Left,
    Right,
}

/// Why a tree or a proof could not be produced.
#[derive(Debug, Clone, Copy, PartialEq, Eq, Structural)]
pub enum Error {
    /// The data block is not among the tree's leaves.
    CantFindDataInMerkleTree,
    /// The index is not that of a leaf.
    IndexIsNotALeaf,
    /// The number of data blocks is not a power of two.
    InvalidLeafCount,
}

/// A membership proof: the sibling hashes met on the way from a leaf to the
/// root, each with the side it is joined on.
#[derive(Debug)]
pub struct Proof {
    pub hashes: Vec<(HashDirection, Vec<u8>)>,
}

impl View for Proof {
    type V = Seq<(HashDirection, Seq<u8>)>;

    open spec fn view(&self) -> Seq<(HashDirection, Seq<u8>)> {
        self.hashes@.map_values(|s: (HashDirection, Vec<u8>)| (s.0, s.1@))
    }
}

/// One step up the tree: join the running hash with a sibling on its side.
pub open spec fn apply_step(current: Seq<u8>, step: (HashDirection, Seq<u8>)) -> Seq<u8> {
    match step.0 {
        HashDirection::Left => hash_pair(step.1, current),
        HashDirection::Right => hash_pair(current, step.1),
    }
}

/// The hash reached from `start` after the given steps, in order.
pub open spec fn fold_path(start: Seq<u8>, steps: Seq<(HashDirection, Seq<u8>)>) -> Seq<u8>
    decreases steps.len(),
{
    if steps.len() == 0 {
        start
    } else {
        apply_step(fold_path(start, steps.drop_last()), steps.last())
    }
}

/// The steps lead from the digest of `data` to `root`.
pub open spec fn proves(steps: Seq<(HashDirection, Seq<u8>)>, data: Seq<u8>, root: Seq<u8>) -> bool {
    fold_path(sha256(data), steps) == root
}

/// Flat index of the parent of node `i` in an array of `len` nodes.
pub open spec fn parent_of(len: int, i: int) -> int {
    len - (len - i) / 2
}

/// Flat index of the sibling of node `i`: even nodes are left children.
pub open spec fn sibling_of(i: int) -> int {
    if i % 2 == 0 {
        i + 1
    } else {
        i - 1
    }
}

/// The side on which the sibling of node `i` is joined.
pub open spec fn side_of(i: int) -> HashDirection {
    if i % 2 == 0 {
        HashDirection::Right
    } else {
        HashDirection::Left
    }
}

/// The node reached from `i` after `k` moves to the parent.
pub open spec fn path_index(len: int, i: int, k: nat) -> int
    decreases k,
{
    if k == 0 {
        i
    } else {
        parent_of(len, path_index(len, i, (k - 1) as nat))
    }
}

/// Node `p` of the tree built over `blocks`: the digest of block `p` for a
/// leaf, else the hash of its children at `2(p - n)` and `2(p - n) + 1`.
pub open spec fn tree_node(blocks: Seq<Seq<u8>>, p: int) -> Seq<u8>
    decreases p,
{
    let n = blocks.len() as int;
    if p < 0 {
        Seq::empty()
    } else if p < n {
        sha256(blocks[p])
    } else if p < 2 * n - 1 {
        hash_pair(tree_node(blocks, 2 * (p - n)), tree_node(blocks, 2 * (p - n) + 1))
    } else {
        Seq::empty()
    }
}

/// Root of the tree built over `blocks`.
pub open spec fn merkle_root(blocks: Seq<Seq<u8>>) -> Seq<u8> {
    tree_node(blocks, 2 * blocks.len() - 2)
}

/// Some two distinct byte strings have the same SHA-256 digest.
pub open spec fn sha256_collision_exists() -> bool {
    exists|x: Seq<u8>, y: Seq<u8>| x != y && sha256(x) == sha256(y)
}

/// Whether two byte strings are equal.
fn same_bytes(a: &Vec<u8>, b: &Vec<u8>) -> (r: bool)
    ensures
        r == (a@ == b@),
{
    if a.len() != b.len() {
        return false;
    }
    let mut i: usize = 0;
    while i < a.len()
        invariant
            a@.len() == b@.len(),
            i <= a@.len(),
            forall|j: int| 0 <= j < i ==> a@[j] == b@[j],
        decreases a@.len() - i,
    {
        if a[i] != b[i] {
            return false;
        }
        i = i + 1;
    }
    assert(a@ =~= b@);
    true
}

/// Copy of a byte string.
fn copy_bytes(a: &Vec<u8>) -> (r: Vec<u8>)
    ensures
        r@ == a@,
{
    let mut r: Vec<u8> = Vec::new();
    let mut i: usize = 0;
    while i < a.len()
        invariant
            i <= a@.len(),
            r@ == a@.subrange(0, i as int),
        decreases a@.len() - i,
    {
        r.push(a[i]);
        i = i + 1;
    }
    assert(a@.subrange(0, a@.len() as int) == a@);
    r
}

/// Checks a membership proof: hashes `data`, applies the proof's steps in
/// order, and compares the result with `root_hash`.
pub fn verify_merkle_proof(proof: &Proof, data: &Vec<u8>, root_hash: &Vec<u8>) -> (r: bool)
    ensures
        r == proves(proof@, data@, root_hash@),
{
    let mut current = hash_data(data);
    let mut k: usize = 0;
    while k < proof.hashes.len()
        invariant
            k <= proof@.len(),
            proof@.len() == proof.hashes@.len(),
            current@ == fold_path(sha256(data@), proof@.take(k as int)),
        decreases proof@.len() - k,
    {
        let step = &proof.hashes[k];
        proof {
            assert(proof@.take(k + 1).drop_last() == proof@.take(k as int));
            assert(proof@.take(k + 1).last() == proof@[k as int]);
        }
        current = match step.0 {
            HashDirection::Left => hash_concat(&step.1, &current),
            HashDirection::Right => hash_concat(&current, &step.1),
        };
        k = k + 1;
    }
    assert(proof@.take(proof@.len() as int) == proof@);
    same_bytes(&current, root_hash)
}

/// A complete binary hash tree. `nodes` holds each level in turn, from the
/// leaf hashes up to the root, which is the last element; `levels` counts the
/// levels, the leaf level included.
#[derive(Debug)]
pub struct MerkleTree {
    pub nodes: Vec<Vec<u8>>,
    pub levels: usize,
}

impl MerkleTree {
    /// Number of leaves: `2^(levels - 1)`.
    pub open spec fn leaf_count(&self) -> nat {
        pow2((self.levels - 1) as nat)
    }

    /// The hash stored at flat index `i`.
    pub open spec fn node(&self, i: int) -> Seq<u8> {
        self.nodes@[i]@
    }

    /// The shape of the tree: `2n - 1` nodes of 32 bytes over
    /// `n = 2^(levels - 1)` leaves, each node past the leaves being the hash of its two children,
    /// which for node `p` sit at `2(p - n)` and `2(p - n) + 1`.
    pub open spec fn wf(&self) -> bool {
        let n = self.leaf_count();
        &&& self.levels >= 1
        &&& self.nodes@.len() == 2 * n - 1
        &&& forall|p: int| 0 <= p < 2 * n - 1 ==> (#[trigger] self.node(p)).len() == 32
        &&& forall|p: int|
            n <= p < 2 * n - 1 ==> #[trigger] self.node(p) == hash_pair(
                self.node(2 * (p - n)),
                self.node(2 * (p - n) + 1),
            )
    }

    /// The tree is the one built over `blocks`: well formed, with one leaf per
    /// block holding the block's digest, in order.
    pub open spec fn built_from(&self, blocks: Seq<Seq<u8>>) -> bool {
        &&& self.wf()
        &&& blocks.len() == self.leaf_count()
        &&& forall|i: int| 0 <= i < blocks.len() ==> #[trigger] self.node(i) == sha256(blocks[i])
    }

    /// The root hash.
    pub open spec fn root(&self) -> Seq<u8> {
        self.node(self.nodes@.len() - 1)
    }

    /// Builds the tree over the given data blocks, whose number must be a
    /// power of two.
    pub fn construct(input: &[Vec<u8>]) -> (r: Result<MerkleTree, Error>)
        ensures
            match r {
                Ok(t) => is_pow2(input@.len()) && t.built_from(blocks_view(input@)),
                Err(e) => !is_pow2(input@.len()) && e == Error::InvalidLeafCount,
            },
    {
        let n = input.len();
        if !is_power_of_two(n) {
            return Err(Error::InvalidLeafCount);
        }
        proof {
            lemma_node_count_fits(n as nat);
        }
        let ghost blocks = blocks_view(input@);
        let mut nodes: Vec<Vec<u8>> = Vec::new();
        let mut i: usize = 0;
        while i < n
            invariant
                n == input@.len(),
                blocks == blocks_view(input@),
                i <= n,
                nodes@.len() == i,
                forall|k: int| 0 <= k < i ==> #[trigger] nodes@[k]@ == sha256(blocks[k]),
                forall|k: int| 0 <= k < i ==> (#[trigger] nodes@[k])@.len() == 32,
            decreases n - i,
        {
            nodes.push(hash_data(&input[i]));
            i = i + 1;
        }
        let mut start: usize = 0;
        let mut size: usize = n;
        let mut levels: usize = 1;
        let ghost k: nat = choose|k: nat| pow2(k) == n;
        proof {
            lemma_pow2_positive(k);
            lemma_exponent_below(k);
            assert(pow2(0) == 1);
            assert(pow2((levels - 1) as nat) == 1);
            assert(size * pow2((levels - 1) as nat) == n);
        }
        while size > 1
            invariant
                n == input@.len(),
                blocks == blocks_view(input@),
                2 * n - 1 <= usize::MAX,
                pow2(k) == n,
                size >= 1,
                is_pow2(size as nat),
                size * pow2((levels - 1) as nat) == n,
                1 <= levels <= k + 1,
                k < n,
                start + 2 * size == 2 * n,
                nodes@.len() == start + size,
                forall|q: int| 0 <= q < nodes@.len() ==> (#[trigger] nodes@[q])@.len() == 32,
                forall|q: int| 0 <= q < n ==> #[trigger] nodes@[q]@ == sha256(blocks[q]),
                forall|p: int|
                    n <= p < nodes@.len() ==> #[trigger] nodes@[p]@ == hash_pair(
                        nodes@[2 * (p - n)]@,
                        nodes@[2 * (p - n) + 1]@,
                    ),
            decreases size,
        {
            let ghost ks: nat = choose|ks: nat| pow2(ks) == size;
            assert(ks > 0) by {
                if ks == 0 {
                    assert(pow2(0) == 1);
                }
            }
            assert(pow2((ks - 1) as nat) * 2 == size);
            proof {
                if levels - 1 >= k {
                    if levels - 1 > k {
                        lemma_pow2_grows(k, (levels - 1) as nat);
                    }
                    assert(size * pow2((levels - 1) as nat) >= 2 * pow2((levels - 1) as nat))
                        by (nonlinear_arith)
                        requires
                            size >= 2,
                    ;
                    lemma_pow2_positive(k);
                }
                assert(levels <= k);
            }
            let half = size / 2;
            let mut j: usize = 0;
            while j < half
                invariant
                    n == input@.len(),
                    blocks == blocks_view(input@),
                    2 * n - 1 <= usize::MAX,
                    size > 1,
                    half * 2 == size,
                    start + 2 * size == 2 * n,
                    j <= half,
                    nodes@.len() == start + size + j,
                    forall|q: int| 0 <= q < nodes@.len() ==> (#[trigger] nodes@[q])@.len() == 32,
                    forall|q: int| 0 <= q < n ==> #[trigger] nodes@[q]@ == sha256(blocks[q]),
                    forall|p: int|
                        n <= p < nodes@.len() ==> #[trigger] nodes@[p]@ == hash_pair(
                            nodes@[2 * (p - n)]@,
                            nodes@[2 * (p - n) + 1]@,
                        ),
                decreases half - j,
            {
                let h = hash_concat(&nodes[start + 2 * j], &nodes[start + 2 * j + 1]);
                nodes.push(h);
                j = j + 1;
            }
            proof {
                assert(is_pow2(half as nat));
                assert(pow2(levels as nat) == 2 * pow2((levels - 1) as nat));
                assert(half * pow2(levels as nat) == n) by (nonlinear_arith)
                    requires
                        half * 2 == size,
                        size * pow2((levels - 1) as nat) == n,
                        pow2(levels as nat) == 2 * pow2((levels - 1) as nat),
                ;
                if levels > k {
                    lemma_pow2_positive(levels as nat);
                    lemma_pow2_grows(k, levels as nat);
                    assert(half * pow2(levels as nat) >= pow2(levels as nat)) by (nonlinear_arith)
                        requires
                            half >= 1,
                    ;
                }
            }
            start = start + size;
            size = half;
            levels = levels + 1;
        }
        let tree = MerkleTree { nodes, levels };
        proof {
            assert(size == 1);
            assert(tree.leaf_count() == n);
            assert forall|p: int|
                n <= p < 2 * n - 1 implies #[trigger] tree.node(p) == hash_pair(
                tree.node(2 * (p - n)),
                tree.node(2 * (p - n) + 1),
            ) by {
                assert(nodes@[p]@ == hash_pair(nodes@[2 * (p - n)]@, nodes@[2 * (p - n) + 1]@));
            }
            assert forall|q: int| 0 <= q < 2 * n - 1 implies (#[trigger] tree.node(q)).len() == 32 by {
                assert(nodes@[q]@.len() == 32);
            }
            assert forall|q: int| 0 <= q < blocks.len() implies #[trigger] tree.node(q) == sha256(
                blocks[q],
            ) by {
                assert(nodes@[q]@ == sha256(blocks[q]));
            }
        }
        Ok(tree)
    }

    /// The proof for leaf `leaf`: one step per level above the leaves.
    pub open spec fn proof_for(&self, leaf: int) -> Seq<(HashDirection, Seq<u8>)> {
        let len = self.nodes@.len() as int;
        Seq::new(
            (self.levels - 1) as nat,
            |k: int|
                {
                    let j = path_index(len, leaf, k as nat);
                    (side_of(j), self.node(sibling_of(j)))
                },
        )
    }

    /// Number of leaves.
    pub fn num_leaves(&self) -> (r: usize)
        requires
            self.wf(),
        ensures
            r == self.leaf_count(),
    {
        self.nodes.len() / 2 + 1
    }

    /// The root hash: the last node.
    pub fn root_hash(&self) -> (r: Vec<u8>)
        requires
            self.wf(),
        ensures
            r@ == self.root(),
    {
        copy_bytes(&self.nodes[self.nodes.len() - 1])
    }

    /// The leaf hashes, in order.
    pub fn leaves(&self) -> (r: &[Vec<u8>])
        requires
            self.wf(),
        ensures
            r@ == self.nodes@.subrange(0, self.leaf_count() as int),
    {
        let n = self.num_leaves();
        vstd::slice::slice_subrange(self.nodes.as_slice(), 0, n)
    }

    /// Flat index of the parent of a node other than the root.
    fn parent_index(&self, index: usize) -> (r: usize)
        requires
            self.wf(),
            index < self.nodes@.len() - 1,
        ensures
            r == parent_of(self.nodes@.len() as int, index as int),
    {
        self.nodes.len() - ((self.nodes.len() - index) / 2)
    }

    /// Produces the membership proof for the leaf at `leaf_index`.
    pub fn get_merkle_proof_by_index(&self, leaf_index: usize) -> (r: Result<Proof, Error>)
        requires
            self.wf(),
        ensures
            match r {
                Ok(p) => leaf_index < self.leaf_count() && p@ == self.proof_for(leaf_index as int)
                    && p@.len() == self.levels - 1,
                Err(e) => leaf_index >= self.leaf_count() && e == Error::IndexIsNotALeaf,
            },
    {
        if leaf_index >= self.num_leaves() {
            return Err(Error::IndexIsNotALeaf);
        }
        let ghost len = self.nodes@.len() as int;
        let ghost m = (self.levels - 1) as nat;
        let mut hashes: Vec<(HashDirection, Vec<u8>)> = Vec::new();
        let mut current: usize = leaf_index;
        let mut k: usize = 0;
        proof {
            lemma_path_distance(self, leaf_index as int, 0);
        }
        while k < self.levels - 1
            invariant
                self.wf(),
                len == self.nodes@.len(),
                m == self.levels - 1,
                leaf_index < self.leaf_count(),
                k <= m,
                current == path_index(len, leaf_index as int, k as nat),
                pow2((m - k) as nat) <= len - current <= 2 * pow2((m - k) as nat) - 1,
                0 <= current,
                (Proof { hashes })@ == self.proof_for(leaf_index as int).take(k as int),
            decreases m - k,
        {
            proof {
                lemma_pow2_positive((m - k - 1) as nat);
                lemma_path_distance(self, leaf_index as int, (k + 1) as nat);
            }
            let step = if current % 2 == 0 {
                (HashDirection::Right, copy_bytes(&self.nodes[current + 1]))
            } else {
                (HashDirection::Left, copy_bytes(&self.nodes[current - 1]))
            };
            let ghost j = current as int;
            let ghost before = (Proof { hashes })@;
            assert(step.1@ == self.node(sibling_of(j)));
            assert(step.0 == side_of(j));
            hashes.push(step);
            proof {
                let full = self.proof_for(leaf_index as int);
                assert((Proof { hashes })@ =~= before.push((side_of(j), self.node(sibling_of(j)))));
                assert(full[k as int] == (side_of(j), self.node(sibling_of(j))));
                assert(full.take(k + 1) =~= full.take(k as int).push(full[k as int]));
            }
            current = self.parent_index(current);
            k = k + 1;
        }
        let proof = Proof { hashes };
        proof {
            assert(proof@ =~= self.proof_for(leaf_index as int));
        }
        Ok(proof)
    }

    /// Produces the membership proof for the first leaf whose hash is the
    /// digest of `data`.
    pub fn get_merkle_proof_by_data(&self, data: &Vec<u8>) -> (r: Result<Proof, Error>)
        requires
            self.wf(),
        ensures
            match r {
                Ok(p) => exists|i: int|
                    0 <= i < self.leaf_count() && self.node(i) == sha256(data@) && (forall|j: int|
                        0 <= j < i ==> self.node(j) != sha256(data@)) && p@ == self.proof_for(i),
                Err(e) => e == Error::CantFindDataInMerkleTree && forall|i: int|
                    0 <= i < self.leaf_count() ==> #[trigger] self.node(i) != sha256(data@),
            },
    {
        let data_hash = hash_data(data);
        let leaves = self.leaves();
        let mut i: usize = 0;
        while i < leaves.len()
            invariant
                self.wf(),
                data_hash@ == sha256(data@),
                leaves@ == self.nodes@.subrange(0, self.leaf_count() as int),
                i <= leaves@.len(),
                forall|j: int| 0 <= j < i ==> #[trigger] self.node(j) != sha256(data@),
            decreases leaves@.len() - i,
        {
            if same_bytes(&leaves[i], &data_hash) {
                let r = self.get_merkle_proof_by_index(i);
                return r;
            }
            i = i + 1;
        }
        Err(Error::CantFindDataInMerkleTree)
    }

    /// Whether the tree built over `input` has root `root_hash`; false when
    /// the number of blocks is not a power of two.
    pub fn verify(input: &[Vec<u8>], root_hash: &Vec<u8>) -> (r: bool)
        ensures
            r == (is_pow2(input@.len()) && merkle_root(blocks_view(input@)) == root_hash@),
    {
        match MerkleTree::construct(input) {
            Ok(tree) => {
                proof {
                    lemma_built_tree_nodes(&tree, blocks_view(input@));
                }
                same_bytes(&tree.root_hash(), root_hash)
            },
            Err(_) => false,
        }
    }
}

/// Walking up from a leaf, the distance to the end of the array halves at
/// each move: after `k` moves it lies in `[2^(m-k), 2^(m-k+1) - 1]`.
proof fn lemma_path_distance(t: &MerkleTree, i: int, k: nat)
    requires
        t.wf(),
        0 <= i < t.leaf_count(),
        k <= t.levels - 1,
    ensures
        ({
            let len = t.nodes@.len() as int;
            let e = (t.levels - 1 - k) as nat;
            let j = path_index(len, i, k);
            &&& pow2(e) <= len - j <= 2 * pow2(e) - 1
            &&& 0 <= j
        }),
    decreases k,
{
    let len = t.nodes@.len() as int;
    if k > 0 {
        lemma_path_distance(t, i, (k - 1) as nat);
        let e = (t.levels - 1 - k) as nat;
        let j = path_index(len, i, (k - 1) as nat);
        assert(pow2(e + 1) == 2 * pow2(e));
        lemma_pow2_positive(e);
        assert(path_index(len, i, k) == parent_of(len, j));
    }
}

/// One step of a proof taken at a node below the root leads to its parent.
proof fn lemma_step_to_parent(t: &MerkleTree, j: int)
    requires
        t.wf(),
        0 <= j < t.nodes@.len() - 1,
    ensures
        0 <= sibling_of(j) < t.nodes@.len(),
        apply_step(t.node(j), (side_of(j), t.node(sibling_of(j)))) == t.node(
            parent_of(t.nodes@.len() as int, j),
        ),
{
    let n = t.leaf_count() as int;
    let len = t.nodes@.len() as int;
    let p = parent_of(len, j);
    if j % 2 == 0 {
        assert(p == n + j / 2);
        assert(2 * (p - n) == j);
        assert(t.node(p) == hash_pair(t.node(2 * (p - n)), t.node(2 * (p - n) + 1)));
    } else {
        assert(p == n + (j - 1) / 2);
        assert(2 * (p - n) == j - 1);
        assert(t.node(p) == hash_pair(t.node(2 * (p - n)), t.node(2 * (p - n) + 1)));
    }
}

/// Following the proof of leaf `i` for `k` steps from the leaf's hash
/// reaches the node `k` levels above it.
proof fn lemma_fold_proof_prefix(t: &MerkleTree, i: int, k: nat)
    requires
        t.wf(),
        0 <= i < t.leaf_count(),
        k <= t.levels - 1,
    ensures
        fold_path(t.node(i), t.proof_for(i).take(k as int)) == t.node(
            path_index(t.nodes@.len() as int, i, k),
        ),
    decreases k,
{
    let len = t.nodes@.len() as int;
    if k == 0 {
        assert(t.proof_for(i).take(0).len() == 0);
    } else {
        let k1 = (k - 1) as nat;
        lemma_fold_proof_prefix(t, i, k1);
        lemma_path_distance(t, i, k1);
        lemma_pow2_positive((t.levels - 1 - k) as nat);
        let j = path_index(len, i, k1);
        lemma_step_to_parent(t, j);
        let steps = t.proof_for(i).take(k as int);
        assert(steps.drop_last() == t.proof_for(i).take(k1 as int));
        assert(steps.last() == (side_of(j), t.node(sibling_of(j))));
    }
}

/// Round trip: in a tree built over `blocks`, the proof generated for any
/// leaf index checks out against that leaf's block and the tree's root.
pub proof fn lemma_proof_round_trip(t: &MerkleTree, blocks: Seq<Seq<u8>>, i: int)
    requires
        t.built_from(blocks),
        0 <= i < blocks.len(),
    ensures
        proves(t.proof_for(i), blocks[i], t.root()),
{
    let m = (t.levels - 1) as nat;
    lemma_fold_proof_prefix(t, i, m);
    lemma_path_distance(t, i, m);
    assert(pow2(0) == 1);
    assert(t.proof_for(i).take(m as int) == t.proof_for(i));
}

/// Every proof of a well formed tree has one step per level above the leaves.
pub proof fn lemma_proof_length(t: &MerkleTree, i: int)
    requires
        t.wf(),
    ensures
        t.proof_for(i).len() == t.levels - 1,
{
}

/// A tree built over `blocks` holds exactly the nodes that `tree_node`
/// gives, so its root is `merkle_root(blocks)`.
pub proof fn lemma_built_tree_nodes(t: &MerkleTree, blocks: Seq<Seq<u8>>)
    requires
        t.built_from(blocks),
    ensures
        forall|p: int| 0 <= p < t.nodes@.len() ==> #[trigger] t.node(p) == tree_node(blocks, p),
        t.root() == merkle_root(blocks),
{
    assert forall|p: int| 0 <= p < t.nodes@.len() implies #[trigger] t.node(p) == tree_node(
        blocks,
        p,
    ) by {
        lemma_built_tree_node(t, blocks, p);
    }
}

proof fn lemma_built_tree_node(t: &MerkleTree, blocks: Seq<Seq<u8>>, p: int)
    requires
        t.built_from(blocks),
        0 <= p < t.nodes@.len(),
    ensures
        t.node(p) == tree_node(blocks, p),
    decreases p,
{
    let n = blocks.len() as int;
    if p >= n {
        lemma_built_tree_node(t, blocks, 2 * (p - n));
        lemma_built_tree_node(t, blocks, 2 * (p - n) + 1);
        assert(t.node(p) == hash_pair(t.node(2 * (p - n)), t.node(2 * (p - n) + 1)));
    }
}

/// Determinism: two trees built over the same blocks have the same levels,
/// the same nodes and the same root.
pub proof fn lemma_construct_deterministic(a: &MerkleTree, b: &MerkleTree, blocks: Seq<Seq<u8>>)
    requires
        a.built_from(blocks),
        b.built_from(blocks),
    ensures
        a.levels == b.levels,
        a.nodes@.len() == b.nodes@.len(),
        forall|p: int| 0 <= p < a.nodes@.len() ==> #[trigger] a.node(p) == b.node(p),
        a.root() == b.root(),
{
    lemma_built_tree_nodes(a, blocks);
    lemma_built_tree_nodes(b, blocks);
    if a.levels != b.levels {
        if a.levels < b.levels {
            lemma_pow2_grows((a.levels - 1) as nat, (b.levels - 1) as nat);
        } else {
            lemma_pow2_grows((b.levels - 1) as nat, (a.levels - 1) as nat);
        }
    }
}

/// Two different starting hashes that some steps lead to the same hash
/// expose a SHA-256 collision.
proof fn lemma_fold_collision(x: Seq<u8>, y: Seq<u8>, steps: Seq<(HashDirection, Seq<u8>)>)
    requires
        x != y,
        fold_path(x, steps) == fold_path(y, steps),
    ensures
        sha256_collision_exists(),
    decreases steps.len(),
{
    if steps.len() > 0 {
        let u = fold_path(x, steps.drop_last());
        let v = fold_path(y, steps.drop_last());
        if u == v {
            lemma_fold_collision(x, y, steps.drop_last());
        } else {
            let sib = steps.last().1;
            let (a, b) = match steps.last().0 {
                HashDirection::Left => (sib + u, sib + v),
                HashDirection::Right => (u + sib, v + sib),
            };
            if a == b {
                match steps.last().0 {
                    HashDirection::Left => {
                        assert(u == a.subrange(sib.len() as int, a.len() as int));
                        assert(v == b.subrange(sib.len() as int, b.len() as int));
                    },
                    HashDirection::Right => {
                        assert(u.len() == v.len());
                        assert(u == a.subrange(0, u.len() as int));
                        assert(v == b.subrange(0, v.len() as int));
                    },
                }
            }
            assert(a != b && sha256(a) == sha256(b));
        }
    }
}

/// Negative membership: the proof generated for one leaf, checked against a
/// different block under the same root, is accepted only if SHA-256 has a
/// collision.
pub proof fn lemma_proof_rejects_other_block(
    t: &MerkleTree,
    blocks: Seq<Seq<u8>>,
    i: int,
    other: Seq<u8>,
)
    requires
        t.built_from(blocks),
        0 <= i < blocks.len(),
        other != blocks[i],
    ensures
        proves(t.proof_for(i), other, t.root()) ==> sha256_collision_exists(),
{
    lemma_proof_round_trip(t, blocks, i);
    if proves(t.proof_for(i), other, t.root()) {
        if sha256(other) == sha256(blocks[i]) {
            assert(other != blocks[i] && sha256(other) == sha256(blocks[i]));
        } else {
            lemma_fold_collision(sha256(other), sha256(blocks[i]), t.proof_for(i));
        }
    }
}

/// Two trees of the same shape and root, without a SHA-256 collision, agree
/// on node `p` and on every node above it.
proof fn lemma_nodes_agree(t1: &MerkleTree, t2: &MerkleTree, p: int)
    requires
        t1.wf(),
        t2.wf(),
        t1.levels == t2.levels,
        t1.root() == t2.root(),
        !sha256_collision_exists(),
        0 <= p < t1.nodes@.len(),
    ensures
        t1.node(p) == t2.node(p),
    decreases t1.nodes@.len() - p,
{
    let len = t1.nodes@.len() as int;
    let n = t1.leaf_count() as int;
    if p < len - 1 {
        let q = parent_of(len, p);
        let c = if p % 2 == 0 {
            p
        } else {
            p - 1
        };
        if p % 2 == 0 {
            assert(q == n + p / 2);
        } else {
            assert(q == n + (p - 1) / 2);
        }
        assert(2 * (q - n) == c);
        lemma_nodes_agree(t1, t2, q);
        let x = t1.node(c) + t1.node(c + 1);
        let y = t2.node(c) + t2.node(c + 1);
        assert(t1.node(q) == sha256(x));
        assert(t2.node(q) == sha256(y));
        if x != y {
            assert(x != y && sha256(x) == sha256(y));
        }
        assert(t1.node(c) == x.subrange(0, 32));
        assert(t2.node(c) == y.subrange(0, 32));
        assert(t1.node(c + 1) == x.subrange(32, 64));
        assert(t2.node(c + 1) == y.subrange(32, 64));
    }
}

/// Tamper sensitivity: trees built over two different sequences of blocks
/// of the same length have the same root only if SHA-256 has a collision.
pub proof fn lemma_tampered_blocks_change_root(
    t1: &MerkleTree,
    t2: &MerkleTree,
    a: Seq<Seq<u8>>,
    b: Seq<Seq<u8>>,
)
    requires
        t1.built_from(a),
        t2.built_from(b),
        a.len() == b.len(),
        a != b,
        t1.root() == t2.root(),
    ensures
        sha256_collision_exists(),
{
    if !sha256_collision_exists() {
        if t1.levels != t2.levels {
            if t1.levels < t2.levels {
                lemma_pow2_grows((t1.levels - 1) as nat, (t2.levels - 1) as nat);
            } else {
                lemma_pow2_grows((t2.levels - 1) as nat, (t1.levels - 1) as nat);
            }
        }
        assert forall|i: int| 0 <= i < a.len() implies a[i] == b[i] by {
            lemma_nodes_agree(t1, t2, i);
            if a[i] != b[i] {
                assert(a[i] != b[i] && sha256(a[i]) == sha256(b[i]));
            }
        }
        assert(a =~= b);
    }
}

/// An exponent is below its power of two.
proof fn lemma_exponent_below(k: nat)
    ensures
        k < pow2(k),
    decreases k,
{
    if k > 0 {
        lemma_exponent_below((k - 1) as nat);
        lemma_pow2_positive((k - 1) as nat);
    }
}

/// A larger exponent gives a strictly larger power of two.
proof fn lemma_pow2_grows(a: nat, b: nat)
    requires
        a < b,
    ensures
        pow2(a) < pow2(b),
    decreases b,
{
    lemma_pow2_positive(a);
    if a + 1 < b {
        lemma_pow2_grows(a, (b - 1) as nat);
    }
}

} // verus!
