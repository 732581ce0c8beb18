//! The append-only interaction ledger: one leaf per logged exchange, and the
//! Merkle root over all leaves as its tamper-evident checkpoint.
use crate::accumulator::MerkleAccumulator;
use crate::merkle::{
    digests_view, fold_path, hex_of, lemma_path_leads_to_root, path_of, root_of, sha256, sha256_of,
    steps_view, to_hex, verify_proof, Digest, ProofStep,
};
use vstd::prelude::*;
use vstd::utf8::encode_utf8;

verus! {

/// The digest of one exchange: SHA-256 over the user text's UTF-8 bytes followed
/// by the response text's.
pub open spec fn leaf_digest_of(user_text: Seq<char>, response_text: Seq<char>) -> Seq<u8> {
    sha256_of(encode_utf8(user_text) + encode_utf8(response_text))
}

/// Computes the leaf digest of one exchange.
pub fn leaf_digest(user_text: &str, response_text: &str) -> (r: Digest)
    ensures
        r@ == leaf_digest_of(user_text@, response_text@),
{
    let a = user_text.as_bytes();
    let b = response_text.as_bytes();
    let mut buf: Vec<u8> = Vec::new();
    let mut k: usize = 0;
    while k < a.len()
        invariant
            k <= a@.len(),
            buf@ == a@.subrange(0, k as int),
        decreases a@.len() - k,
    {
        buf.push(a[k]);
        k += 1;
        assert(buf@ =~= a@.subrange(0, k as int));
    }
    let mut k: usize = 0;
    assert(buf@ =~= a@ + b@.subrange(0, 0));
    while k < b.len()
        invariant
            k <= b@.len(),
            buf@ == a@ + b@.subrange(0, k as int),
        decreases b@.len() - k,
    {
        buf.push(b[k]);
        k += 1;
        assert(buf@ =~= a@ + b@.subrange(0, k as int));
    }
    assert(b@.subrange(0, b@.len() as int) =~= b@);
    sha256(buf.as_slice())
}

/// One logged exchange and its leaf digest.
#[derive(Clone, Debug)]
pub struct LeafRecord {
    pub user_text: String,
    pub response_text: String,
    pub leaf_digest: Digest,
}

/// The ledger: the exchanges in the order they were logged, and the accumulator
/// over their leaf digests, whose root is the tamper-evident checkpoint.
pub struct Ledger {
    records: Vec<LeafRecord>,
    acc: MerkleAccumulator,
}

impl Ledger {
    /// The leaf digests, in order.
    pub closed spec fn leaves_view(&self) -> Seq<Seq<u8>> {
        self.acc.leaves_view()
    }

    /// The logged exchanges, in order, as (user text, response text).
    pub closed spec fn texts_view(&self) -> Seq<(Seq<char>, Seq<char>)> {
        self.records@.map_values(|r: LeafRecord| (r.user_text@, r.response_text@))
    }

    /// The root kept by the ledger.
    pub closed spec fn root_view(&self) -> Seq<u8> {
        self.acc.root_view()
    }

    /// One leaf per exchange, each the digest of its exchange.
    pub closed spec fn wf(&self) -> bool {
        &&& self.acc.wf()
        &&& self.records.len() == self.acc.leaves_view().len()
        &&& forall|i: int|
            0 <= i < self.records.len() ==> {
                &&& (#[trigger] self.records@[i]).leaf_digest@ == self.acc.leaves_view()[i]
                &&& self.acc.leaves_view()[i] == leaf_digest_of(
                    self.records@[i].user_text@,
                    self.records@[i].response_text@,
                )
            }
    }

    /// The ledger's leaves are the digests of its exchanges, and the root it keeps
    /// is the root computed from scratch over those leaves.
    pub proof fn lemma_root_is_rebuilt_root(&self)
        requires
            self.wf(),
        ensures
            self.root_view() == root_of(self.leaves_view()),
            self.leaves_view().len() == self.texts_view().len(),
            forall|i: int|
                0 <= i < self.leaves_view().len() ==> #[trigger] self.leaves_view()[i]
                    == leaf_digest_of(self.texts_view()[i].0, self.texts_view()[i].1),
    {
        self.acc.lemma_root_view_is_root();
        assert forall|i: int| 0 <= i < self.leaves_view().len() implies #[trigger] self.leaves_view()[i]
            == leaf_digest_of(self.texts_view()[i].0, self.texts_view()[i].1) by {
            assert(self.records@[i].leaf_digest@ == self.acc.leaves_view()[i]);
        }
    }

    /// An empty ledger.
    pub fn new() -> (r: Ledger)
        ensures
            r.wf(),
            r.leaves_view() == Seq::<Seq<u8>>::empty(),
            r.texts_view() == Seq::<(Seq<char>, Seq<char>)>::empty(),
            r.root_view() == root_of(Seq::empty()),
    {
        let r = Ledger { records: Vec::new(), acc: MerkleAccumulator::new() };
        assert(r.texts_view() =~= Seq::<(Seq<char>, Seq<char>)>::empty());
        proof {
            r.acc.lemma_root_view_is_root();
        }
        r
    }

    /// The number of logged exchanges.
    pub fn len(&self) -> (r: usize)
        requires
            self.wf(),
        ensures
            r == self.leaves_view().len(),
            r == self.texts_view().len(),
    {
        self.records.len()
    }

    /// The leaf digests, in the order the exchanges were logged.
    pub fn leaf_digests(&self) -> (r: &Vec<Digest>)
        requires
            self.wf(),
        ensures
            digests_view(r@) == self.leaves_view(),
    {
        self.acc.leaves()
    }

    /// The current root; the root over no leaves when nothing was logged.
    pub fn current_root(&self) -> (r: Digest)
        requires
            self.wf(),
        ensures
            r@ == self.root_view(),
            r@ == root_of(self.leaves_view()),
    {
        self.acc.root()
    }

    /// Logs one exchange and returns the new root.
    pub fn append(&mut self, user_text: &str, response_text: &str) -> (r: Digest)
        requires
            old(self).wf(),
        ensures
            final(self).wf(),
            final(self).leaves_view() == old(self).leaves_view().push(
                leaf_digest_of(user_text@, response_text@),
            ),
            final(self).texts_view() == old(self).texts_view().push(
                (user_text@, response_text@),
            ),
            final(self).root_view() == r@,
            r@ == root_of(final(self).leaves_view()),
    {
        let d = leaf_digest(user_text, response_text);
        let rec = LeafRecord {
            user_text: user_text.to_owned(),
            response_text: response_text.to_owned(),
            leaf_digest: d,
        };
        let ghost old_leaves = self.acc.leaves_view();
        let ghost old_records = self.records@;
        self.records.push(rec);
        self.acc.push(d);
        assert(self.texts_view() =~= old_records.map_values(
            |r: LeafRecord| (r.user_text@, r.response_text@),
        ).push((user_text@, response_text@)));
        assert forall|i: int| 0 <= i < self.records.len() implies {
            &&& (#[trigger] self.records@[i]).leaf_digest@ == self.acc.leaves_view()[i]
            &&& self.acc.leaves_view()[i] == leaf_digest_of(
                self.records@[i].user_text@,
                self.records@[i].response_text@,
            )
        } by {
            if i < old_records.len() {
                assert(self.records@[i] == old_records[i]);
                assert(self.acc.leaves_view()[i] == old_leaves[i]);
            }
        }
        self.acc.root()
    }

    /// The membership proof of the exchange at `index`, or `None` past the end.
    pub fn prove(&self, index: usize) -> (r: Option<Vec<ProofStep>>)
        requires
            self.wf(),
        ensures
            r.is_some() == (index < self.leaves_view().len()),
            r matches Some(p) ==> steps_view(p@) == path_of(self.leaves_view(), index as int),
    {
        if index < self.records.len() {
            Some(self.acc.prove(index))
        } else {
            None
        }
    }

    /// Whether `proof` leads from the leaf at `index` to the current root.
    pub fn verify(&self, index: usize, proof: &Vec<ProofStep>) -> (r: bool)
        requires
            self.wf(),
        ensures
            r == (index < self.leaves_view().len() && fold_path(
                self.leaves_view()[index as int],
                steps_view(proof@),
            ) == root_of(self.leaves_view())),
    {
        if index < self.records.len() {
            let root = self.acc.root();
            let leaf = self.records[index].leaf_digest;
            verify_proof(&leaf, proof, &root)
        } else {
            false
        }
    }

    /// Every proof this ledger issues verifies against its current root.
    pub proof fn lemma_issued_proofs_verify(&self, index: int)
        requires
            self.wf(),
            0 <= index < self.leaves_view().len(),
        ensures
            fold_path(self.leaves_view()[index], path_of(self.leaves_view(), index)) == root_of(
                self.leaves_view(),
            ),
    {
        lemma_path_leads_to_root(self.leaves_view(), index);
    }
}

/// Logs one exchange and returns the new root as lowercase hexadecimal text.
pub fn log_interaction(ledger: &mut Ledger, user_input: &str, ai_response: &str) -> (r: String)
    requires
        old(ledger).wf(),
    ensures
        final(ledger).wf(),
        final(ledger).leaves_view() == old(ledger).leaves_view().push(
            leaf_digest_of(user_input@, ai_response@),
        ),
        final(ledger).texts_view() == old(ledger).texts_view().push((user_input@, ai_response@)),
        r@ == hex_of(root_of(final(ledger).leaves_view())),
{
    let root = ledger.append(user_input, ai_response);
    to_hex(&root)
}

} // verus!
