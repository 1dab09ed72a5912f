//! Immutable, content-addressed block and slot model. A `BlockRef` names a
//! block by (author, round, digest); equality of references is digest
//! equality. The digest and signature are carried as plain values computed
//! by the external crypto layer before a block reaches this core.

use vstd::prelude::*;

verus! {

/// Logical time step of the protocol.
pub type Round = u32;

/// Position of a validator in the committee table.
pub type AuthorityIndex = usize;

/// One transaction batch, opaque bytes to the ordering layer.
pub struct Transaction {
    pub data: Vec<u8>,
}

/// Globally unique, content-addressed block identifier.
#[derive(Clone, Copy, PartialEq, Eq, Structural, Hash, Debug)]
pub struct BlockRef {
    pub author: AuthorityIndex,
    pub round: Round,
    pub digest: u64,
}

/// The addressable unit for leader election: at most one non-equivocating
/// block can occupy a slot in the canonical history.
#[derive(Clone, Copy, PartialEq, Eq, Structural, Hash, Debug)]
pub struct Slot {
    pub author: AuthorityIndex,
    pub round: Round,
}

impl Slot {
    pub fn new(author: AuthorityIndex, round: Round) -> (r: Slot)
        ensures
            r.author == author && r.round == round,
    {
        Slot { author, round }
    }
}

/// Mathematical image of a block: what the contracts speak of.
#[verifier::ext_equal]
pub ghost struct BlockData {
    pub author: AuthorityIndex,
    pub round: Round,
    pub timestamp_ms: u64,
    pub ancestors: Seq<BlockRef>,
    pub transactions: Seq<Seq<u8>>,
    pub digest: u64,
    pub signature: u64,
}

impl BlockData {
    /// The reference a block with this content answers to.
    pub open spec fn reference(self) -> BlockRef {
        BlockRef { author: self.author, round: self.round, digest: self.digest }
    }

    /// Whether `r` is listed among the ancestors.
    pub open spec fn references(self, r: BlockRef) -> bool {
        self.ancestors.contains(r)
    }

    /// Structural validity relative to a committee of `n` validators:
    /// the author is a committee member, ancestors come from strictly
    /// lower rounds, and no author appears twice among the ancestors.
    /// Genesis blocks (round zero) carry no ancestors.
    pub open spec fn valid_structure(self, n: int) -> bool {
        &&& 0 <= self.author < n
        &&& forall|i: int| 0 <= i < self.ancestors.len()
            ==> (#[trigger] self.ancestors[i]).round < self.round
                && 0 <= self.ancestors[i].author < n
        &&& forall|i: int, j: int|
            0 <= i < j < self.ancestors.len()
                ==> (#[trigger] self.ancestors[i]).author != (#[trigger] self.ancestors[j]).author
        &&& self.round == 0 ==> self.ancestors.len() == 0
    }
}

/// A block as accepted into the DAG: author, round, timestamp, ancestor
/// references (at most one per author, all from strictly lower rounds),
/// transaction batches, and the content digest and author signature the
/// external crypto layer derived from them.
pub struct Block {
    pub author: AuthorityIndex,
    pub round: Round,
    pub timestamp_ms: u64,
    pub ancestors: Vec<BlockRef>,
    pub transactions: Vec<Transaction>,
    pub digest: u64,
    pub signature: u64,
}

impl View for Block {
    type V = BlockData;

    open spec fn view(&self) -> BlockData {
        BlockData {
            author: self.author,
            round: self.round,
            timestamp_ms: self.timestamp_ms,
            ancestors: self.ancestors@,
            transactions: self.transactions@.map(|i: int, t: Transaction| t.data@),
            digest: self.digest,
            signature: self.signature,
        }
    }
}

impl Block {
    pub fn reference(&self) -> (r: BlockRef)
        ensures
            r == self@.reference(),
    {
        BlockRef { author: self.author, round: self.round, digest: self.digest }
    }

    /// Linear scan for an ancestor reference.
    pub fn references(&self, r: &BlockRef) -> (found: bool)
        ensures
            found == self@.references(*r),
    {
        let mut i: usize = 0;
        while i < self.ancestors.len()
            invariant
                0 <= i <= self.ancestors@.len(),
                forall|k: int| 0 <= k < i ==> self.ancestors@[k] != *r,
            decreases self.ancestors@.len() - i,
        {
            if self.ancestors[i] == *r {
                return true;
            }
            i = i + 1;
        }
        false
    }

    /// An exact copy of the block: same content, hence the same view and
    /// the same reference.
    pub fn duplicate(&self) -> (r: Block)
        ensures
            r@ == self@,
    {
        let mut ancestors: Vec<BlockRef> = Vec::new();
        let mut i: usize = 0;
        while i < self.ancestors.len()
            invariant
                0 <= i <= self.ancestors@.len(),
                ancestors@ == self.ancestors@.subrange(0, i as int),
            decreases self.ancestors@.len() - i,
        {
            ancestors.push(self.ancestors[i]);
            proof {
                assert(ancestors@ =~= self.ancestors@.subrange(0, i + 1));
            }
            i = i + 1;
        }
        let mut transactions: Vec<Transaction> = Vec::new();
        let mut j: usize = 0;
        while j < self.transactions.len()
            invariant
                0 <= j <= self.transactions@.len(),
                transactions@.len() == j,
                forall|k: int| 0 <= k < j
                    ==> #[trigger] transactions@[k].data@ == self.transactions@[k].data@,
            decreases self.transactions@.len() - j,
        {
            transactions.push(Transaction { data: copy_bytes(&self.transactions[j].data) });
            j = j + 1;
        }
        let out = Block {
            author: self.author,
            round: self.round,
            timestamp_ms: self.timestamp_ms,
            ancestors,
            transactions,
            digest: self.digest,
            signature: self.signature,
        };
        proof {
            assert(out.ancestors@ =~= self.ancestors@);
            assert(out@.transactions =~= self@.transactions);
            assert(out@ =~= self@);
        }
        out
    }
}

/// Byte-for-byte copy of a buffer.
pub fn copy_bytes(v: &Vec<u8>) -> (r: Vec<u8>)
    ensures
        r@ == v@,
{
    let mut out: Vec<u8> = Vec::new();
    let mut i: usize = 0;
    while i < v.len()
        invariant
            0 <= i <= v@.len(),
            out@ == v@.subrange(0, i as int),
        decreases v@.len() - i,
    {
        out.push(v[i]);
        proof {
            assert(out@ =~= v@.subrange(0, i + 1));
        }
        i = i + 1;
    }
    proof {
        assert(out@ =~= v@);
    }
    out
}

} // verus!
