//! Binary Merkle accumulator over 32-byte SHA-256 digests.
//!
//! Odd-node rule: when a level holds an odd number of nodes, the last node is
//! paired with itself (`Hash(x || x)`), never promoted unchanged. The tree over
//! no leaves has the all-zero digest as its root.
use rs_merkle::algorithms::Sha256;
use rs_merkle::Hasher;
use vstd::prelude::*;

verus! {

/// A 32-byte digest.
pub type Digest = [u8; 32];

/// The SHA-256 digest of a byte sequence.
pub uninterp spec fn sha256_of(data: Seq<u8>) -> Seq<u8>;

/// Relies on `rs_merkle::algorithms::Sha256::hash`: the SHA-256 digest of the bytes.
#[verifier::external_body]
pub(crate) fn sha256(data: &[u8]) -> (r: Digest)
    ensures
        r@ == sha256_of(data@),
{
    Sha256::hash(data)
}

/// Relies on `rs_merkle::Hasher::concat_and_hash` for `Sha256` with a right node
/// present: it hashes the left digest's bytes followed by the right digest's bytes.
#[verifier::external_body]
pub(crate) fn concat_and_hash(left: &Digest, right: &Digest) -> (r: Digest)
    ensures
        r@ == sha256_of(left@ + right@),
{
    Sha256::concat_and_hash(left, Some(right))
}

/// The lowercase hexadecimal digit of a value below sixteen.
pub open spec fn hex_digit(n: u8) -> char {
    seq!['0', '1', '2', '3', '4', '5', '6', '7', '8', '9', 'a', 'b', 'c', 'd', 'e', 'f'][n as int]
}

/// Lowercase hexadecimal text of a byte sequence, two digits per byte, high digit first.
pub open spec fn hex_of(b: Seq<u8>) -> Seq<char> {
    Seq::new(
        2 * b.len(),
        |i: int|
            if i % 2 == 0 {
                hex_digit(b[i / 2] / 16)
            } else {
                hex_digit(b[i / 2] % 16)
            },
    )
}

/// Relies on `rs_merkle::utils::collections::to_hex_string`: each byte as two
/// lowercase hexadecimal digits (`{:02x}`), joined in order.
#[verifier::external_body]
pub(crate) fn to_hex(d: &Digest) -> (r: String)
    ensures
        r@ == hex_of(d@),
{
    rs_merkle::utils::collections::to_hex_string(d)
}

/// The root of the tree over no leaves.
pub open spec fn empty_root() -> Seq<u8> {
    Seq::new(32, |i: int| 0u8)
}

/// The digest of an internal node over its two children.
pub open spec fn node_of(left: Seq<u8>, right: Seq<u8>) -> Seq<u8> {
    sha256_of(left + right)
}

/// The view of a sequence of digests.
pub open spec fn digests_view(v: Seq<Digest>) -> Seq<Seq<u8>> {
    v.map_values(|d: Digest| d@)
}

/// The level above `s`: nodes paired left to right, an odd last node paired with itself.
pub open spec fn parent_level(s: Seq<Seq<u8>>) -> Seq<Seq<u8>> {
    Seq::new(
        ((s.len() + 1) / 2) as nat,
        |j: int|
            node_of(s[2 * j], if 2 * j + 1 < s.len() { s[2 * j + 1] } else { s[2 * j] }),
    )
}

/// The Merkle root over an ordered sequence of leaf digests.
pub open spec fn root_of(s: Seq<Seq<u8>>) -> Seq<u8>
    decreases s.len(),
{
    if s.len() == 0 {
        empty_root()
    } else if s.len() == 1 {
        s[0]
    } else {
        root_of(parent_level(s))
    }
}

/// Computes the level above `level`.
pub(crate) fn next_level(level: &Vec<Digest>) -> (r: Vec<Digest>)
    ensures
        r.len() == (level.len() + 1) / 2,
        digests_view(r@) == parent_level(digests_view(level@)),
{
    let n = level.len();
    let half: usize = n / 2 + n % 2;
    let mut out: Vec<Digest> = Vec::new();
    let mut j: usize = 0;
    while j < half
        invariant
            n == level.len(),
            half == (n + 1) / 2,
            j <= half,
            out.len() == j,
            forall|t: int|
                0 <= t < j ==> (#[trigger] out@[t])@ == parent_level(digests_view(level@))[t],
        decreases half - j,
    {
        let left = level[2 * j];
        let right = if 2 * j + 1 < n {
            level[2 * j + 1]
        } else {
            level[2 * j]
        };
        let h = concat_and_hash(&left, &right);
        out.push(h);
        j += 1;
    }
    assert(digests_view(out@) =~= parent_level(digests_view(level@)));
    out
}

/// Computes the Merkle root over `leaves`, in their order.
pub fn build(leaves: &Vec<Digest>) -> (r: Digest)
    ensures
        r@ == root_of(digests_view(leaves@)),
{
    if leaves.len() == 0 {
        let z: Digest = [0u8; 32];
        assert(z@ =~= empty_root());
        return z;
    }
    let mut level: Vec<Digest> = leaves.clone();
    assert(digests_view(level@) =~= digests_view(leaves@));
    while level.len() > 1
        invariant
            level.len() >= 1,
            root_of(digests_view(level@)) == root_of(digests_view(leaves@)),
        decreases level.len(),
    {
        level = next_level(&level);
    }
    level[0]
}

/// One step of a membership proof: the sibling digest at one level, and whether
/// that sibling stands on the left of the running digest.
#[derive(Clone, Copy, Debug)]
pub struct ProofStep {
    pub sibling: Digest,
    pub sibling_on_left: bool,
}

/// The view of one proof step.
pub open spec fn step_view(p: ProofStep) -> (Seq<u8>, bool) {
    (p.sibling@, p.sibling_on_left)
}

/// The view of a membership proof.
pub open spec fn steps_view(v: Seq<ProofStep>) -> Seq<(Seq<u8>, bool)> {
    v.map_values(|p: ProofStep| step_view(p))
}

/// The step that leads from node `i` of level `s` to its parent.
pub open spec fn step_at(s: Seq<Seq<u8>>, i: int) -> (Seq<u8>, bool) {
    if i % 2 == 1 {
        (s[i - 1], true)
    } else if i + 1 < s.len() {
        (s[i + 1], false)
    } else {
        (s[i], false)
    }
}

/// The membership proof of leaf `i`: the siblings from the leaf up to the root.
pub open spec fn path_of(s: Seq<Seq<u8>>, i: int) -> Seq<(Seq<u8>, bool)>
    decreases s.len(),
{
    if s.len() <= 1 {
        Seq::empty()
    } else {
        seq![step_at(s, i)] + path_of(parent_level(s), i / 2)
    }
}

/// The digest one level up from `d` along `step`.
pub open spec fn apply_step(d: Seq<u8>, step: (Seq<u8>, bool)) -> Seq<u8> {
    if step.1 {
        node_of(step.0, d)
    } else {
        node_of(d, step.0)
    }
}

/// The root that a proof leads to from a leaf digest.
pub open spec fn fold_path(leaf: Seq<u8>, p: Seq<(Seq<u8>, bool)>) -> Seq<u8>
    decreases p.len(),
{
    if p.len() == 0 {
        leaf
    } else {
        fold_path(apply_step(leaf, p[0]), p.drop_first())
    }
}

/// The membership proof of every leaf leads from that leaf to the root.
pub proof fn lemma_path_leads_to_root(s: Seq<Seq<u8>>, i: int)
    requires
        0 <= i < s.len(),
    ensures
        fold_path(s[i], path_of(s, i)) == root_of(s),
    decreases s.len(),
{
    if s.len() > 1 {
        let p = parent_level(s);
        let rest = path_of(p, i / 2);
        let whole = path_of(s, i);
        assert(whole.drop_first() =~= rest);
        assert(apply_step(s[i], step_at(s, i)) == p[i / 2]);
        lemma_path_leads_to_root(p, i / 2);
    }
}

/// Root computation is deterministic: two results computed over the same ordered
/// leaves are the same digest.
pub proof fn lemma_build_deterministic(leaves: Seq<Seq<u8>>, r1: Seq<u8>, r2: Seq<u8>)
    requires
        r1 == root_of(leaves),
        r2 == root_of(leaves),
    ensures
        r1 == r2,
{
}

/// Builds the membership proof of leaf `index`.
pub fn prove(leaves: &Vec<Digest>, index: usize) -> (r: Vec<ProofStep>)
    requires
        index < leaves.len(),
    ensures
        steps_view(r@) == path_of(digests_view(leaves@), index as int),
{
    let mut level: Vec<Digest> = leaves.clone();
    let mut i: usize = index;
    let mut out: Vec<ProofStep> = Vec::new();
    assert(digests_view(level@) =~= digests_view(leaves@));
    assert(steps_view(out@) + path_of(digests_view(level@), i as int) =~= path_of(
        digests_view(leaves@),
        index as int,
    ));
    while level.len() > 1
        invariant
            i < level.len(),
            steps_view(out@) + path_of(digests_view(level@), i as int) == path_of(
                digests_view(leaves@),
                index as int,
            ),
        decreases level.len(),
    {
        let ghost lv = digests_view(level@);
        let step = if i % 2 == 1 {
            ProofStep { sibling: level[i - 1], sibling_on_left: true }
        } else if i + 1 < level.len() {
            ProofStep { sibling: level[i + 1], sibling_on_left: false }
        } else {
            ProofStep { sibling: level[i], sibling_on_left: false }
        };
        let ghost before = steps_view(out@);
        out.push(step);
        assert(steps_view(out@) =~= before.push(step_at(lv, i as int)));
        level = next_level(&level);
        i = i / 2;
        assert(path_of(lv, (2 * i + (if step.sibling_on_left { 1int } else { 0int })))
            =~= seq![step_at(lv, (2 * i + (if step.sibling_on_left { 1int } else { 0int })))]
            + path_of(digests_view(level@), i as int));
        assert(steps_view(out@) + path_of(digests_view(level@), i as int) =~= before + path_of(
            lv,
            (2 * i + (if step.sibling_on_left { 1int } else { 0int })),
        ));
    }
    assert(path_of(digests_view(level@), i as int) =~= Seq::empty());
    assert(steps_view(out@) =~= steps_view(out@) + path_of(digests_view(level@), i as int));
    out
}

/// Whether two digests are the same bytes.
pub fn digests_equal(a: &Digest, b: &Digest) -> (r: bool)
    ensures
        r == (a@ == b@),
{
    let mut k: usize = 0;
    while k < 32
        invariant
            k <= 32,
            a@.len() == 32,
            b@.len() == 32,
            forall|t: int| 0 <= t < k ==> a@[t] == b@[t],
        decreases 32 - k,
    {
        if a[k] != b[k] {
            return false;
        }
        k += 1;
    }
    assert(a@ =~= b@);
    true
}

/// Follows `proof` up from `leaf` and reports whether it arrives at `root`.
pub fn verify_proof(leaf: &Digest, proof: &Vec<ProofStep>, root: &Digest) -> (r: bool)
    ensures
        r == (fold_path(leaf@, steps_view(proof@)) == root@),
{
    let mut acc: Digest = *leaf;
    let mut k: usize = 0;
    assert(steps_view(proof@).skip(0) =~= steps_view(proof@));
    while k < proof.len()
        invariant
            k <= proof.len(),
            fold_path(acc@, steps_view(proof@).skip(k as int)) == fold_path(
                leaf@,
                steps_view(proof@),
            ),
        decreases proof.len() - k,
    {
        let step = proof[k];
        let ghost rest = steps_view(proof@).skip(k as int);
        assert(rest.drop_first() =~= steps_view(proof@).skip(k + 1));
        acc = if step.sibling_on_left {
            concat_and_hash(&step.sibling, &acc)
        } else {
            concat_and_hash(&acc, &step.sibling)
        };
        k += 1;
    }
    assert(steps_view(proof@).skip(k as int) =~= Seq::empty());
    digests_equal(&acc, root)
}

} // verus!
