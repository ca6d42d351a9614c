use pow_chain::block::Block;
use pow_chain::chain::{BlockRejection, Blockchain, DEFAULT_DIFFICULTY};

fn chain_with_genesis(difficulty: usize) -> Blockchain {
    let mut chain = Blockchain::with_difficulty(difficulty);
    assert!(chain.create_genesis_at(1700000000));
    chain
}

fn next_block(chain: &Blockchain, data: &str) -> Block {
    let tip = chain.blocks.last().unwrap();
    Block::new_at(tip.id + 1, tip.hash.clone(), 1700000001, String::from(data), chain.difficulty)
        .unwrap()
}

#[test]
fn new_chain_is_empty_with_default_difficulty() {
    let chain = Blockchain::new();
    assert!(chain.blocks.is_empty());
    assert_eq!(chain.difficulty, DEFAULT_DIFFICULTY);
    assert_eq!(DEFAULT_DIFFICULTY, 5);
    assert!(chain.is_chain_valid());
}

#[test]
fn genesis_is_well_formed() {
    let chain = chain_with_genesis(2);
    assert_eq!(chain.blocks.len(), 1);
    let g = &chain.blocks[0];
    assert_eq!(g.id, 0);
    assert_eq!(g.previous_hash, "genesis");
    assert_eq!(g.data, "genesis");
    assert_eq!(g.timestamp, 1700000000);
    assert!(g.hash.starts_with("00"));
    assert_eq!(g.hash, Block::hash(0, "genesis", 1700000000, "genesis", g.nonce));
    assert!(chain.is_chain_valid());
}

#[test]
fn genesis_with_clock() {
    let mut chain = Blockchain::with_difficulty(1);
    assert!(chain.create_genesis());
    assert_eq!(chain.blocks.len(), 1);
    assert!(chain.blocks[0].timestamp > 1_600_000_000);
    assert!(chain.blocks[0].hash.starts_with('0'));
}

#[test]
fn example_scenario() {
    let mut chain = chain_with_genesis(2);
    assert!(chain.blocks[0].hash.starts_with("00"));
    let genesis_hash = chain.blocks[0].hash.clone();
    let b1 = Block::new(1, genesis_hash, String::from("Hello"), 2).unwrap();
    assert_eq!(chain.try_add_block(b1), Ok(()));
    assert_eq!(chain.blocks.len(), 2);
    assert!(chain.is_chain_valid());
    chain.blocks[1].data = String::from("Jello");
    assert!(!chain.is_chain_valid());
}

#[test]
fn repeated_appends_keep_chain_valid() {
    let mut chain = chain_with_genesis(2);
    for i in 0..5 {
        let b = next_block(&chain, &format!("payload {}", i));
        assert_eq!(chain.try_add_block(b), Ok(()));
        assert!(chain.is_chain_valid());
    }
    assert_eq!(chain.blocks.len(), 6);
}

#[test]
fn wrong_id_is_rejected() {
    let mut chain = chain_with_genesis(2);
    let tip_hash = chain.blocks[0].hash.clone();
    let b = Block::new_at(2, tip_hash, 5, String::from("x"), 2).unwrap();
    assert_eq!(chain.try_add_block(b), Err(BlockRejection::WrongId));
    assert_eq!(chain.blocks.len(), 1);
}

#[test]
fn insufficient_work_is_rejected() {
    let mut chain = chain_with_genesis(2);
    let tip_hash = chain.blocks[0].hash.clone();
    let mut b = Block::new_at(1, tip_hash, 5, String::from("x"), 2).unwrap();
    b.hash = String::from("f").repeat(64);
    assert_eq!(chain.try_add_block(b), Err(BlockRejection::InsufficientWork));
    assert_eq!(chain.blocks.len(), 1);
}

#[test]
fn broken_link_is_rejected() {
    let mut chain = chain_with_genesis(2);
    let b = Block::new_at(1, String::from("elsewhere"), 5, String::from("x"), 2).unwrap();
    assert_eq!(chain.try_add_block(b), Err(BlockRejection::BrokenLink));
    assert_eq!(chain.blocks.len(), 1);
}

#[test]
fn hash_mismatch_is_rejected() {
    let mut chain = chain_with_genesis(2);
    let mut b = next_block(&chain, "x");
    b.data = String::from("y");
    assert_eq!(chain.try_add_block(b), Err(BlockRejection::HashMismatch));
    assert_eq!(chain.blocks.len(), 1);
}

#[test]
fn check_block_with_given_hash() {
    let chain = chain_with_genesis(1);
    let g = chain.blocks[0].clone();
    let b = Block {
        id: 1,
        hash: String::from("0abc"),
        previous_hash: g.hash.clone(),
        timestamp: 0,
        data: String::new(),
        nonce: 0,
    };
    assert_eq!(chain.check_block_with_hash(&b, &g, &String::from("0abc")), Ok(()));
    assert_eq!(
        chain.check_block_with_hash(&b, &g, &String::from("0abd")),
        Err(BlockRejection::HashMismatch)
    );
    let mut far = b.clone();
    far.id = 3;
    assert_eq!(
        chain.check_block_with_hash(&far, &g, &String::from("0abc")),
        Err(BlockRejection::WrongId)
    );
    let mut lazy = b.clone();
    lazy.hash = String::from("abc");
    assert_eq!(
        chain.check_block_with_hash(&lazy, &g, &String::from("abc")),
        Err(BlockRejection::InsufficientWork)
    );
    assert!(!chain.is_block_valid(&b, &g));
}

#[test]
fn is_block_valid_on_mined_successor() {
    let chain = chain_with_genesis(2);
    let b = next_block(&chain, "Hello");
    assert!(chain.is_block_valid(&b, &chain.blocks[0]));
    assert!(!chain.is_block_valid(&chain.blocks[0], &b));
    assert_eq!(chain.check_block(&b, &chain.blocks[0]), Ok(()));
}

#[test]
fn tampering_any_field_is_detected() {
    let mut chain = chain_with_genesis(2);
    let b = next_block(&chain, "Hello");
    assert_eq!(chain.try_add_block(b.clone()), Ok(()));
    let edits: Vec<fn(&mut Block)> = vec![
        |b| b.id += 1,
        |b| b.hash = format!("00{}", &b.hash[2..63]) + "x",
        |b| b.previous_hash.push('0'),
        |b| b.timestamp += 1,
        |b| b.data.push('!'),
        |b| b.nonce += 1,
    ];
    for edit in edits {
        let mut tampered = chain.blocks.clone();
        edit(&mut tampered[1]);
        let g = tampered[0].clone();
        assert!(!chain.is_block_valid(&tampered[1], &g));
        let copy = Blockchain { blocks: tampered, difficulty: chain.difficulty };
        assert!(!copy.is_chain_valid());
    }
    assert!(chain.is_chain_valid());
}

#[test]
fn genesis_at_zero_difficulty_always_succeeds() {
    let mut chain = Blockchain::with_difficulty(0);
    assert!(chain.create_genesis_at(-5));
    assert_eq!(chain.blocks.len(), 1);
    assert_eq!(chain.blocks[0].nonce, 0);
    assert_eq!(chain.blocks[0].hash, Block::hash(0, "genesis", -5, "genesis", 0));
}
