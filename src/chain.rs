//! The chain: an ordered sequence of blocks, its validation rules and append.
use vstd::prelude::*;

use crate::block::{
    block_preimage, is_first_solution, lemma_preimage_changes, lemma_zero_difficulty_solvable, meets_difficulty,
    meets_difficulty_spec, no_solution, sha256_of, unix_now, Block,
};
use crate::text::lemma_lower_hex_injective;
use vstd::utf8::encode_utf8;

verus! {

/// The difficulty a chain gets unless another is chosen: five leading `'0'` hex characters.
pub const DEFAULT_DIFFICULTY: usize = 5;

/// Why a candidate block was not admitted after its predecessor.
#[derive(Clone, Copy, Debug, PartialEq, Eq, Structural)]
pub enum BlockRejection {
    /// Its id is not one more than the predecessor's.
    WrongId,
    /// Its hash does not start with the required run of `'0'`.
    InsufficientWork,
    /// Its `previous_hash` is not the predecessor's hash.
    BrokenLink,
    /// Its hash is not the digest of its own fields.
    HashMismatch,
}

/// The first of the four admission conditions that `block` fails after
/// `previous`, given the digest recomputed from `block`'s fields.
pub open spec fn rejection_of(
    difficulty: nat,
    block: Block,
    previous: Block,
    recomputed: Seq<char>,
) -> Option<BlockRejection> {
    if block.id != previous.id + 1 {
        Some(BlockRejection::WrongId)
    } else if !meets_difficulty_spec(block.hash@, difficulty) {
        Some(BlockRejection::InsufficientWork)
    } else if block.previous_hash@ != previous.hash@ {
        Some(BlockRejection::BrokenLink)
    } else if recomputed != block.hash@ {
        Some(BlockRejection::HashMismatch)
    } else {
        None
    }
}

/// `Ok(())` when there is no rejection, else the rejection as the error.
pub open spec fn as_result(rejection: Option<BlockRejection>) -> Result<(), BlockRejection> {
    match rejection {
        Some(e) => Err(e),
        None => Ok(()),
    }
}

/// `block` may follow `previous`: consecutive ids, enough work, the hash
/// pointer to `previous`, and a hash that is the digest of `block`'s fields.
pub open spec fn block_valid(difficulty: nat, block: Block, previous: Block) -> bool {
    &&& block.id == previous.id + 1
    &&& meets_difficulty_spec(block.hash@, difficulty)
    &&& block.previous_hash@ == previous.hash@
    &&& block.recomputed_hash() == block.hash@
}

/// Every block after the first is valid after the block before it.
pub open spec fn chain_valid(blocks: Seq<Block>, difficulty: nat) -> bool {
    forall|i: int|
        1 <= i < blocks.len() ==> block_valid(difficulty, #[trigger] blocks[i], blocks[i - 1])
}

/// The genesis block mined at `timestamp`: id 0, and `"genesis"` as both its
/// predecessor hash and its data.
pub open spec fn is_genesis(b: Block, timestamp: i64, difficulty: nat) -> bool {
    &&& b.id == 0
    &&& b.previous_hash@ == "genesis"@
    &&& b.data@ == "genesis"@
    &&& b.timestamp == timestamp
    &&& is_first_solution(0, "genesis"@, timestamp, "genesis"@, difficulty, b.hash@, b.nonce)
}

/// Appending a block that is valid after the last one keeps a valid chain valid.
pub proof fn lemma_extend_valid_chain(blocks: Seq<Block>, difficulty: nat, block: Block)
    requires
        blocks.len() > 0,
        chain_valid(blocks, difficulty),
        block_valid(difficulty, block, blocks.last()),
    ensures
        chain_valid(blocks.push(block), difficulty),
{
    let extended = blocks.push(block);
    assert forall|i: int| 1 <= i < extended.len() implies block_valid(
        difficulty,
        #[trigger] extended[i],
        extended[i - 1],
    ) by {
        if i < blocks.len() {
            assert(extended[i] == blocks[i]);
        }
    }
}

/// A chain grown from a single genesis block by successful appends, each of a
/// block valid after the tip it was appended to, is valid at every stage.
/// `stages[k]` is the chain after `k` appends.
pub proof fn lemma_appends_from_genesis_valid(stages: Seq<Seq<Block>>, difficulty: nat)
    requires
        stages.len() >= 1,
        stages[0].len() == 1,
        forall|k: int|
            0 <= k < stages.len() - 1 ==> {
                &&& #[trigger] stages[k + 1].len() == stages[k].len() + 1
                &&& stages[k + 1].drop_last() == stages[k]
                &&& block_valid(difficulty, stages[k + 1].last(), stages[k].last())
            },
    ensures
        forall|k: int|
            0 <= k < stages.len() ==> chain_valid(#[trigger] stages[k], difficulty) && stages[k].len()
                == k + 1,
    decreases stages.len(),
{
    if stages.len() > 1 {
        let earlier = stages.drop_last();
        assert forall|k: int| 0 <= k < earlier.len() - 1 implies {
            &&& #[trigger] earlier[k + 1].len() == earlier[k].len() + 1
            &&& earlier[k + 1].drop_last() == earlier[k]
            &&& block_valid(difficulty, earlier[k + 1].last(), earlier[k].last())
        } by {
            assert(stages[k + 1].len() == stages[k].len() + 1);
        }
        lemma_appends_from_genesis_valid(earlier, difficulty);
        let n = stages.len() - 1;
        let m = n - 1;
        assert(stages[m] == earlier[m]);
        assert(stages[m + 1].len() == stages[m].len() + 1);
        assert(stages[n] == stages[m + 1]);
        lemma_extend_valid_chain(stages[n - 1], difficulty, stages[n].last());
        assert(stages[n] =~= stages[n - 1].push(stages[n].last()));
        assert forall|k: int| 0 <= k < stages.len() implies chain_valid(
            #[trigger] stages[k],
            difficulty,
        ) && stages[k].len() == k + 1 by {
            if k < n {
                assert(stages[k] == earlier[k]);
            }
        }
    } else {
        assert forall|k: int| 0 <= k < stages.len() implies chain_valid(
            #[trigger] stages[k],
            difficulty,
        ) && stages[k].len() == k + 1 by {
            assert(k == 0);
        }
    }
}

/// A block mined with the next id and the hash of `previous` as its
/// predecessor hash is valid after `previous`.
pub proof fn lemma_mined_block_valid(difficulty: nat, previous: Block, block: Block)
    requires
        block.id == previous.id + 1,
        block.previous_hash@ == previous.hash@,
        is_first_solution(
            block.id,
            block.previous_hash@,
            block.timestamp,
            block.data@,
            difficulty,
            block.hash@,
            block.nonce,
        ),
    ensures
        block_valid(difficulty, block, previous),
{
}

/// 1 for a field that differs, 0 for one that does not.
pub open spec fn count_if(differs: bool) -> int {
    if differs {
        1
    } else {
        0
    }
}

/// `tampered` differs from `block` in exactly one of the six fields.
pub open spec fn one_field_changed(block: Block, tampered: Block) -> bool {
    count_if(block.id != tampered.id) + count_if(block.hash@ != tampered.hash@) + count_if(
        block.previous_hash@ != tampered.previous_hash@,
    ) + count_if(block.timestamp != tampered.timestamp) + count_if(block.data@ != tampered.data@)
        + count_if(block.nonce != tampered.nonce) == 1
}

/// The UTF-8 bytes that a block's digest is taken over.
pub open spec fn preimage_bytes(b: Block) -> Seq<u8> {
    encode_utf8(block_preimage(b.id, b.previous_hash@, b.timestamp, b.data@, b.nonce))
}

/// Changing one field of a block that is valid after `previous`, without
/// mining it again, makes it invalid there, unless the change lands on two
/// distinct byte strings with the same SHA-256 digest.
pub proof fn lemma_tampered_block_rejected(
    difficulty: nat,
    previous: Block,
    block: Block,
    tampered: Block,
)
    requires
        block_valid(difficulty, block, previous),
        one_field_changed(block, tampered),
    ensures
        block_valid(difficulty, tampered, previous) ==> {
            &&& preimage_bytes(tampered) != preimage_bytes(block)
            &&& sha256_of(preimage_bytes(tampered)) == sha256_of(preimage_bytes(block))
        },
{
    if block_valid(difficulty, tampered, previous) {
        if block.hash@ != tampered.hash@ {
            assert(tampered.recomputed_hash() == block.recomputed_hash());
        } else {
            lemma_preimage_changes(
                block.id,
                block.previous_hash@,
                block.timestamp,
                block.data@,
                block.nonce,
                tampered.timestamp,
                tampered.data@,
                tampered.nonce,
            );
            lemma_lower_hex_injective(
                sha256_of(preimage_bytes(tampered)),
                sha256_of(preimage_bytes(block)),
            );
        }
    }
}

/// In a valid chain, changing one field of any block after the first, without
/// mining it again, leaves a chain that is no longer valid, unless the change
/// lands on two distinct byte strings with the same SHA-256 digest.
pub proof fn lemma_tampered_chain_invalid(
    blocks: Seq<Block>,
    difficulty: nat,
    i: int,
    tampered: Block,
)
    requires
        chain_valid(blocks, difficulty),
        1 <= i < blocks.len(),
        one_field_changed(blocks[i], tampered),
    ensures
        chain_valid(blocks.update(i, tampered), difficulty) ==> {
            &&& preimage_bytes(tampered) != preimage_bytes(blocks[i])
            &&& sha256_of(preimage_bytes(tampered)) == sha256_of(preimage_bytes(blocks[i]))
        },
{
    lemma_tampered_block_rejected(difficulty, blocks[i - 1], blocks[i], tampered);
    let changed = blocks.update(i, tampered);
    if chain_valid(changed, difficulty) {
        assert(block_valid(difficulty, changed[i], changed[i - 1]));
    }
}

/// The append-only sequence of blocks, with the difficulty its blocks must meet.
pub struct Blockchain {
    pub blocks: Vec<Block>,
    pub difficulty: usize,
}

impl Blockchain {
    /// An empty chain with the default difficulty.
    pub fn new() -> (r: Blockchain)
        ensures
            r.blocks@.len() == 0,
            r.difficulty == DEFAULT_DIFFICULTY,
    {
        Blockchain { blocks: Vec::new(), difficulty: DEFAULT_DIFFICULTY }
    }

    /// An empty chain whose blocks must start with `difficulty` characters `'0'`.
    pub fn with_difficulty(difficulty: usize) -> (r: Blockchain)
        ensures
            r.blocks@.len() == 0,
            r.difficulty == difficulty,
    {
        Blockchain { blocks: Vec::new(), difficulty }
    }

    /// Mines the genesis block at `timestamp` and appends it; `false`, with the
    /// chain unchanged, when no nonce meets the difficulty.
    pub fn create_genesis_at(&mut self, timestamp: i64) -> (r: bool)
        ensures
            final(self).difficulty == old(self).difficulty,
            r ==> final(self).blocks@.len() == old(self).blocks@.len() + 1,
            r ==> final(self).blocks@.drop_last() == old(self).blocks@,
            r ==> is_genesis(final(self).blocks@.last(), timestamp, old(self).difficulty as nat),
            !r ==> final(self).blocks@ == old(self).blocks@,
            old(self).blocks@.len() == 0 ==> chain_valid(
                final(self).blocks@,
                final(self).difficulty as nat,
            ),
            !r <==> no_solution(0, "genesis"@, timestamp, "genesis"@, old(self).difficulty as nat),
            r && old(self).blocks@.len() == 0 ==> final(self).blocks@.len() == 1,
            r && old(self).blocks@.len() == 0 ==> is_genesis(
                final(self).blocks@[0],
                final(self).blocks@[0].timestamp,
                old(self).difficulty as nat,
            ),
            old(self).difficulty == 0 ==> r,
    {
        proof {
            lemma_zero_difficulty_solvable(0, "genesis"@, timestamp, "genesis"@);
        }
        let previous_hash = String::from_str("genesis");
        let data = String::from_str("genesis");
        match Block::new_at(0, previous_hash, timestamp, data, self.difficulty) {
            Some(genesis) => {
                self.blocks.push(genesis);
                assert(final(self).blocks@.drop_last() =~= old(self).blocks@);
                true
            },
            None => false,
        }
    }

    /// Mines the genesis block, stamped with the current time, and appends it;
    /// `false`, with the chain unchanged, when no nonce meets the difficulty.
    pub fn create_genesis(&mut self) -> (r: bool)
        ensures
            final(self).difficulty == old(self).difficulty,
            r ==> final(self).blocks@.len() == old(self).blocks@.len() + 1,
            r ==> final(self).blocks@.drop_last() == old(self).blocks@,
            r ==> is_genesis(
                final(self).blocks@.last(),
                final(self).blocks@.last().timestamp,
                old(self).difficulty as nat,
            ),
            !r ==> final(self).blocks@ == old(self).blocks@,
            old(self).blocks@.len() == 0 ==> chain_valid(
                final(self).blocks@,
                final(self).difficulty as nat,
            ),
            !r ==> exists|t: i64|
                #[trigger] no_solution(0, "genesis"@, t, "genesis"@, old(self).difficulty as nat),
            r && old(self).blocks@.len() == 0 ==> final(self).blocks@.len() == 1,
            r && old(self).blocks@.len() == 0 ==> is_genesis(
                final(self).blocks@[0],
                final(self).blocks@[0].timestamp,
                old(self).difficulty as nat,
            ),
            old(self).difficulty == 0 ==> r,
    {
        let timestamp: i64 = unix_now();
        self.create_genesis_at(timestamp)
    }

    /// Checks `block` after `previous_block` against the four admission
    /// conditions in order, with `recomputed_hash` as the digest of `block`'s fields.
    pub fn check_block_with_hash(
        &self,
        block: &Block,
        previous_block: &Block,
        recomputed_hash: &String,
    ) -> (r: Result<(), BlockRejection>)
        ensures
            r == as_result(
                rejection_of(self.difficulty as nat, *block, *previous_block, recomputed_hash@),
            ),
    {
        if block.id as u128 != previous_block.id as u128 + 1 {
            Err(BlockRejection::WrongId)
        } else if !meets_difficulty(block.hash.as_str(), self.difficulty) {
            Err(BlockRejection::InsufficientWork)
        } else if block.previous_hash != previous_block.hash {
            Err(BlockRejection::BrokenLink)
        } else if *recomputed_hash != block.hash {
            Err(BlockRejection::HashMismatch)
        } else {
            Ok(())
        }
    }
    /// Checks `block` after `previous_block` against the four admission
    /// conditions in order: the first one it fails is the error.
    pub fn check_block(&self, block: &Block, previous_block: &Block) -> (r: Result<
        (),
        BlockRejection,
    >)
        ensures
            r == as_result(
                rejection_of(
                    self.difficulty as nat,
                    *block,
                    *previous_block,
                    block.recomputed_hash(),
                ),
            ),
            r is Ok <==> block_valid(self.difficulty as nat, *block, *previous_block),
    {
        let recomputed = Block::hash(
            block.id,
            block.previous_hash.as_str(),
            block.timestamp,
            block.data.as_str(),
            block.nonce,
        );
        self.check_block_with_hash(block, previous_block, &recomputed)
    }

    /// Tells whether `block` may follow `previous_block` in this chain.
    pub fn is_block_valid(&self, block: &Block, previous_block: &Block) -> (r: bool)
        ensures
            r == block_valid(self.difficulty as nat, *block, *previous_block),
    {
        self.check_block(block, previous_block).is_ok()
    }

    /// Tells whether every block after the first is valid after its predecessor.
    pub fn is_chain_valid(&self) -> (r: bool)
        ensures
            r == chain_valid(self.blocks@, self.difficulty as nat),
    {
        let n: usize = self.blocks.len();
        let mut i: usize = 1;
        while i < n
            invariant
                n == self.blocks@.len(),
                1 <= i,
                forall|j: int|
                    1 <= j < i && j < n ==> block_valid(
                        self.difficulty as nat,
                        #[trigger] self.blocks@[j],
                        self.blocks@[j - 1],
                    ),
            decreases n - i,
        {
            if !self.is_block_valid(&self.blocks[i], &self.blocks[i - 1]) {
                return false;
            }
            i = i + 1;
        }
        true
    }

    /// Appends `block` when it is valid after the current last block; else
    /// leaves the chain as it was and says which condition failed first.
    pub fn try_add_block(&mut self, block: Block) -> (r: Result<(), BlockRejection>)
        requires
            old(self).blocks@.len() > 0,
        ensures
            final(self).difficulty == old(self).difficulty,
            r == as_result(
                rejection_of(
                    old(self).difficulty as nat,
                    block,
                    old(self).blocks@.last(),
                    block.recomputed_hash(),
                ),
            ),
            r is Ok <==> block_valid(old(self).difficulty as nat, block, old(self).blocks@.last()),
            r is Ok ==> final(self).blocks@ == old(self).blocks@.push(block),
            r is Err ==> final(self).blocks@ == old(self).blocks@,
            chain_valid(old(self).blocks@, old(self).difficulty as nat) ==> chain_valid(
                final(self).blocks@,
                final(self).difficulty as nat,
            ),
    {
        let last: usize = self.blocks.len() - 1;
        let verdict = self.check_block(&block, &self.blocks[last]);
        if verdict.is_ok() {
            proof {
                if chain_valid(self.blocks@, self.difficulty as nat) {
                    lemma_extend_valid_chain(self.blocks@, self.difficulty as nat, block);
                }
            }
            self.blocks.push(block);
        }
        verdict
    }
}

} // verus!
