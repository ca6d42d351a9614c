//! Blocks: their hash preimage, digest, difficulty predicate and nonce search.
use vstd::prelude::*;
use vstd::utf8::{encode_utf8, encode_utf8_decode_utf8};

use crate::text::{
    decimal, lemma_decimal_injective, lemma_lower_hex_len, lemma_signed_decimal_injective, lower_hex, push_decimal, push_signed_decimal, signed_decimal, to_lower_hex,
};

verus! {

/// The SHA-256 digest of a byte sequence.
pub uninterp spec fn sha256_of(data: Seq<u8>) -> Seq<u8>;

/// Relies on `sha2::Sha256::digest` (the `digest::Digest` trait): the 32-byte
/// SHA-256 digest of `data`, which depends on `data` alone.
#[verifier::external_body]
fn sha256(data: &[u8]) -> (r: Vec<u8>)
    ensures
        r@ == sha256_of(data@),
        r@.len() == 32,
{
    <sha2::Sha256 as sha2::Digest>::digest(data).to_vec()
}

/// Relies on chrono's `From<SystemTime> for DateTime<Utc>` and
/// `DateTime::timestamp`: the system clock's time in whole seconds since the
/// Unix epoch, negative for a clock set before 1970. Nothing is promised of
/// the value. The conversion panics only for a clock outside chrono's range
/// of dates (years beyond about 262,000 either side of year 0).
#[verifier::external_body]
pub(crate) fn unix_now() -> (r: i64) {
    chrono::DateTime::<chrono::Utc>::from(std::time::SystemTime::now()).timestamp()
}

/// The string that a block's digest is taken over: the five fields in order,
/// integers in decimal, with no delimiters.
pub open spec fn block_preimage(
    id: u64,
    previous_hash: Seq<char>,
    timestamp: i64,
    data: Seq<char>,
    nonce: u64,
) -> Seq<char> {
    decimal(id as nat) + previous_hash + signed_decimal(timestamp as int) + data + decimal(
        nonce as nat,
    )
}

/// The lowercase hex SHA-256 digest of the UTF-8 bytes of the preimage.
pub open spec fn block_digest(
    id: u64,
    previous_hash: Seq<char>,
    timestamp: i64,
    data: Seq<char>,
    nonce: u64,
) -> Seq<char> {
    lower_hex(sha256_of(encode_utf8(block_preimage(id, previous_hash, timestamp, data, nonce))))
}

/// A digest satisfies the difficulty predicate when it starts with
/// `difficulty` characters `'0'`.
pub open spec fn meets_difficulty_spec(hash: Seq<char>, difficulty: nat) -> bool {
    &&& difficulty <= hash.len()
    &&& forall|i: int| 0 <= i < difficulty ==> hash[i] == '0'
}

/// `nonce` is the first nonce whose digest meets the difficulty, and `hash` is that digest.
pub open spec fn is_first_solution(
    id: u64,
    previous_hash: Seq<char>,
    timestamp: i64,
    data: Seq<char>,
    difficulty: nat,
    hash: Seq<char>,
    nonce: u64,
) -> bool {
    &&& hash == block_digest(id, previous_hash, timestamp, data, nonce)
    &&& meets_difficulty_spec(hash, difficulty)
    &&& forall|k: u64|
        k < nonce ==> !meets_difficulty_spec(
            #[trigger] block_digest(id, previous_hash, timestamp, data, k),
            difficulty,
        )
}

/// No nonce of the `u64` range gives a digest that meets the difficulty.
pub open spec fn no_solution(
    id: u64,
    previous_hash: Seq<char>,
    timestamp: i64,
    data: Seq<char>,
    difficulty: nat,
) -> bool {
    forall|k: u64|
        !meets_difficulty_spec(
            #[trigger] block_digest(id, previous_hash, timestamp, data, k),
            difficulty,
        )
}

/// Tells whether `hash` starts with `difficulty` characters `'0'`.
pub fn meets_difficulty(hash: &str, difficulty: usize) -> (r: bool)
    ensures
        r == meets_difficulty_spec(hash@, difficulty as nat),
{
    let len: usize = hash.unicode_len();
    if difficulty > len {
        return false;
    }
    let mut i: usize = 0;
    while i < difficulty
        invariant
            difficulty <= len == hash@.len(),
            i <= difficulty,
            forall|j: int| 0 <= j < i ==> hash@[j] == '0',
        decreases difficulty - i,
    {
        if hash.get_char(i) != '0' {
            return false;
        }
        i = i + 1;
    }
    true
}

/// One record of the chain. Its `hash` is meant to be the digest of the other
/// five fields, and to meet the chain's difficulty.
#[derive(Clone, Debug, PartialEq, Eq)]
pub struct Block {
    pub id: u64,
    pub hash: String,
    pub previous_hash: String,
    pub timestamp: i64,
    pub data: String,
    pub nonce: u64,
}

impl Block {
    /// The digest recomputed from the block's own fields.
    pub open spec fn recomputed_hash(&self) -> Seq<char> {
        block_digest(self.id, self.previous_hash@, self.timestamp, self.data@, self.nonce)
    }

    /// Builds the string that a block's digest is taken over.
    pub fn preimage(
        id: u64,
        previous_hash: &str,
        timestamp: i64,
        data: &str,
        nonce: u64,
    ) -> (r: String)
        ensures
            r@ == block_preimage(id, previous_hash@, timestamp, data@, nonce),
    {
        let mut out = String::new();
        push_decimal(&mut out, id);
        out.append(previous_hash);
        push_signed_decimal(&mut out, timestamp);
        out.append(data);
        push_decimal(&mut out, nonce);
        assert(out@ =~= block_preimage(id, previous_hash@, timestamp, data@, nonce));
        out
    }

    /// The lowercase hex SHA-256 digest of the block's fields.
    pub fn hash(id: u64, previous_hash: &str, timestamp: i64, data: &str, nonce: u64) -> (r: String)
        ensures
            r@ == block_digest(id, previous_hash@, timestamp, data@, nonce),
            r@.len() == 64,
    {
        let text = Block::preimage(id, previous_hash, timestamp, data, nonce);
        let digest = sha256(text.as_str().as_bytes());
        proof {
            lemma_lower_hex_len(digest@);
        }
        to_lower_hex(digest.as_slice())
    }

    /// Searches the nonces upward from 0 for the first whose digest meets the
    /// difficulty; `None` once the whole `u64` range has failed.
    pub fn mine(
        id: u64,
        previous_hash: &str,
        timestamp: i64,
        data: &str,
        difficulty: usize,
    ) -> (r: Option<(String, u64)>)
        ensures
            match r {
                Some((hash, nonce)) => is_first_solution(
                    id,
                    previous_hash@,
                    timestamp,
                    data@,
                    difficulty as nat,
                    hash@,
                    nonce,
                ),
                None => no_solution(id, previous_hash@, timestamp, data@, difficulty as nat),
            },
            difficulty == 0 ==> r is Some,
    {
        proof {
            lemma_zero_difficulty_solvable(id, previous_hash@, timestamp, data@);
        }
        let mut nonce: u64 = 0;
        loop
            invariant
                forall|k: u64|
                    k < nonce ==> !meets_difficulty_spec(
                        #[trigger] block_digest(id, previous_hash@, timestamp, data@, k),
                        difficulty as nat,
                    ),
            decreases u64::MAX - nonce,
        {
            let hash = Block::hash(id, previous_hash, timestamp, data, nonce);
            if meets_difficulty(hash.as_str(), difficulty) {
                return Some((hash, nonce));
            }
            if nonce == u64::MAX {
                assert forall|k: u64|
                    !meets_difficulty_spec(
                        #[trigger] block_digest(id, previous_hash@, timestamp, data@, k),
                        difficulty as nat,
                    ) by {
                    if k < nonce {
                    }
                }
                return None;
            }
            nonce = nonce + 1;
        }
    }

    /// Mines a block with the given fields and timestamp.
    pub fn new_at(
        id: u64,
        previous_hash: String,
        timestamp: i64,
        data: String,
        difficulty: usize,
    ) -> (r: Option<Block>)
        ensures
            match r {
                Some(b) => {
                    &&& b.id == id
                    &&& b.previous_hash@ == previous_hash@
                    &&& b.timestamp == timestamp
                    &&& b.data@ == data@
                    &&& is_first_solution(
                        id,
                        previous_hash@,
                        timestamp,
                        data@,
                        difficulty as nat,
                        b.hash@,
                        b.nonce,
                    )
                },
                None => no_solution(id, previous_hash@, timestamp, data@, difficulty as nat),
            },
            difficulty == 0 ==> r is Some,
    {
        match Block::mine(id, previous_hash.as_str(), timestamp, data.as_str(), difficulty) {
            Some((hash, nonce)) => Some(Block { id, hash, previous_hash, timestamp, data, nonce }),
            None => None,
        }
    }

    /// Mines a block with the given fields, stamped with the current time.
    pub fn new(id: u64, previous_hash: String, data: String, difficulty: usize) -> (r: Option<
        Block,
    >)
        ensures
            match r {
                Some(b) => {
                    &&& b.id == id
                    &&& b.previous_hash@ == previous_hash@
                    &&& b.data@ == data@
                    &&& is_first_solution(
                        id,
                        previous_hash@,
                        b.timestamp,
                        data@,
                        difficulty as nat,
                        b.hash@,
                        b.nonce,
                    )
                },
                None => exists|t: i64|
                    #[trigger] no_solution(id, previous_hash@, t, data@, difficulty as nat),
            },
            difficulty == 0 ==> r is Some,
    {
        let timestamp: i64 = unix_now();
        Block::new_at(id, previous_hash, timestamp, data, difficulty)
    }
}

/// At difficulty 0 every digest qualifies, so a solution always exists.
pub proof fn lemma_zero_difficulty_solvable(
    id: u64,
    previous_hash: Seq<char>,
    timestamp: i64,
    data: Seq<char>,
)
    ensures
        !no_solution(id, previous_hash, timestamp, data, 0),
{
    assert(meets_difficulty_spec(block_digest(id, previous_hash, timestamp, data, 0), 0));
}

/// The digest is a function of the five fields: blocks that agree on them
/// recompute the same hash, however often it is computed.
pub proof fn lemma_hash_deterministic(a: Block, b: Block)
    requires
        a.id == b.id,
        a.previous_hash@ == b.previous_hash@,
        a.timestamp == b.timestamp,
        a.data@ == b.data@,
        a.nonce == b.nonce,
    ensures
        a.recomputed_hash() == b.recomputed_hash(),
{
}

/// `pre + x + post == pre + y + post` only when `x == y`.
proof fn lemma_middle_cancel(pre: Seq<char>, x: Seq<char>, y: Seq<char>, post: Seq<char>)
    requires
        pre + x + post == pre + y + post,
    ensures
        x == y,
{
    assert((pre + x + post).len() == pre.len() + x.len() + post.len());
    assert((pre + y + post).len() == pre.len() + y.len() + post.len());
    assert(x.len() == y.len());
    assert((pre + x + post).subrange(pre.len() as int, (pre.len() + x.len()) as int) =~= x);
    assert((pre + y + post).subrange(pre.len() as int, (pre.len() + y.len()) as int) =~= y);
}

/// Changing only the timestamp, only the data or only the nonce changes the
/// bytes that the digest is taken over.
pub proof fn lemma_preimage_changes(
    id: u64,
    previous_hash: Seq<char>,
    timestamp: i64,
    data: Seq<char>,
    nonce: u64,
    timestamp2: i64,
    data2: Seq<char>,
    nonce2: u64,
)
    requires
        (timestamp != timestamp2 && data == data2 && nonce == nonce2) || (timestamp == timestamp2
            && data != data2 && nonce == nonce2) || (timestamp == timestamp2 && data == data2
            && nonce != nonce2),
    ensures
        encode_utf8(block_preimage(id, previous_hash, timestamp, data, nonce)) != encode_utf8(
            block_preimage(id, previous_hash, timestamp2, data2, nonce2),
        ),
{
    let p1 = block_preimage(id, previous_hash, timestamp, data, nonce);
    let p2 = block_preimage(id, previous_hash, timestamp2, data2, nonce2);
    if encode_utf8(p1) == encode_utf8(p2) {
        encode_utf8_decode_utf8(p1);
        encode_utf8_decode_utf8(p2);
        assert(p1 == p2);
        let head = decimal(id as nat) + previous_hash;
        let ts1 = signed_decimal(timestamp as int);
        let ts2 = signed_decimal(timestamp2 as int);
        let n1 = decimal(nonce as nat);
        let n2 = decimal(nonce2 as nat);
        if timestamp != timestamp2 {
            assert(p1 =~= head + ts1 + (data + n1));
            assert(p2 =~= head + ts2 + (data + n1));
            lemma_middle_cancel(head, ts1, ts2, data + n1);
            lemma_signed_decimal_injective(timestamp as int, timestamp2 as int);
        } else if data != data2 {
            lemma_middle_cancel(head + ts1, data, data2, n1);
        } else {
            assert(p1 =~= head + ts1 + data + n1 + Seq::<char>::empty());
            assert(p2 =~= head + ts1 + data + n2 + Seq::<char>::empty());
            lemma_middle_cancel(head + ts1 + data, n1, n2, Seq::<char>::empty());
            lemma_decimal_injective(nonce as nat, nonce2 as nat);
        }
    }
}

} // verus!
