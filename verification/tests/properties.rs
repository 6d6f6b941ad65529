use prism::block::{proposer, transaction, voter, Block, Content};
use prism::blockchain::BlockChain;
use prism::config::{proposer_genesis_hash, voter_genesis_hash};
use prism::experiment::ico;
use prism::hash::H256;
use prism::votes::vote_vec_merge;

const NUM_VOTER_CHAINS: u16 = 7;

fn h(k: u64) -> H256 {
    H256::new(9, 9, 0, k)
}

fn proposer_block_at(hash: H256, parent: H256, timestamp: u64) -> Block {
    Block::new(hash, parent, timestamp, Content::Proposer(proposer::Content::new(vec![], vec![])))
}

/// A block sequence that confirms one ledger level, reusable across
/// determinism and reorg checks.
fn build_scenario(db: &mut BlockChain) {
    let gp = proposer_genesis_hash();
    db.insert_block(&Block::new(
        h(1),
        gp,
        0,
        Content::Transaction(transaction::Content::new(vec![])),
    ));
    db.insert_block(&Block::new(
        h(2),
        gp,
        0,
        Content::Proposer(proposer::Content::new(vec![], vec![])),
    ));
    db.insert_block(&Block::new(
        h(3),
        gp,
        0,
        Content::Proposer(proposer::Content::new(vec![h(1)], vec![h(2)])),
    ));
    db.insert_block(&Block::new(
        h(4),
        h(3),
        0,
        Content::Voter(voter::Content::new(0, voter_genesis_hash(0), vec![h(2)])),
    ));
    db.insert_block(&Block::new(
        h(5),
        h(3),
        0,
        Content::Voter(voter::Content::new(0, voter_genesis_hash(0), vec![h(3)])),
    ));
    db.insert_block(&Block::new(
        h(6),
        h(3),
        0,
        Content::Voter(voter::Content::new(0, h(5), vec![])),
    ));
    for chain_num in 1..NUM_VOTER_CHAINS {
        db.insert_block(&Block::new(
            h(100 + chain_num as u64),
            h(3),
            0,
            Content::Voter(voter::Content::new(
                chain_num,
                voter_genesis_hash(chain_num),
                vec![h(3)],
            )),
        ));
    }
}

/// Inserting the same block sequence into two fresh engines yields
/// identical leaders, ledger orders and best tips.
#[test]
fn round_trip_determinism() {
    let mut a = BlockChain::new(NUM_VOTER_CHAINS);
    let mut b = BlockChain::new(NUM_VOTER_CHAINS);
    build_scenario(&mut a);
    build_scenario(&mut b);
    assert_eq!(a.get_ledger_tip(), b.get_ledger_tip());
    for level in 0..=a.get_ledger_tip() {
        assert_eq!(a.get_leader(level), b.get_leader(level));
        assert_eq!(a.get_ledger_order(level), b.get_ledger_order(level));
    }
    assert_eq!(a.best_proposer(), b.best_proposer());
    for chain in 0..NUM_VOTER_CHAINS {
        assert_eq!(a.best_voter(chain as usize), b.best_voter(chain as usize));
    }
    assert_eq!(a.unconfirmed_proposer(), b.unconfirmed_proposer());
    assert_eq!(a.unreferred_proposer(), b.unreferred_proposer());
}

/// After a chain switches to a tip that is no descendant of the old one,
/// every proposer's vote set equals the set recomputed from scratch by
/// walking each chain's current best tip down to its genesis.
#[test]
fn reorg_vote_sets_match_recomputation() {
    let mut db = BlockChain::new(NUM_VOTER_CHAINS);
    build_scenario(&mut db);
    // fork chains 1 and 2 away from the branches that voted
    for chain_num in 1..3u16 {
        db.insert_block(&Block::new(
            h(200 + chain_num as u64),
            proposer_genesis_hash(),
            0,
            Content::Voter(voter::Content::new(
                chain_num,
                voter_genesis_hash(chain_num),
                vec![],
            )),
        ));
        db.insert_block(&Block::new(
            h(300 + chain_num as u64),
            proposer_genesis_hash(),
            0,
            Content::Voter(voter::Content::new(chain_num, h(200 + chain_num as u64), vec![])),
        ));
    }

    // recompute every proposer's vote set by walking the main chains
    let proposers = vec![proposer_genesis_hash(), h(2), h(3)];
    for p in &proposers {
        let mut recomputed: Vec<(u16, u64)> = vec![];
        for chain in 0..NUM_VOTER_CHAINS {
            let mut cursor = db.best_voter(chain as usize);
            loop {
                let level = db.get_voter_level(&cursor).unwrap();
                for vote in db.get_vote_edges(&cursor).unwrap() {
                    if vote == *p {
                        recomputed.push((chain, level));
                    }
                }
                match db.get_voter_parent(&cursor) {
                    Some(up) => cursor = up,
                    None => break,
                }
            }
        }
        let mut actual = db.proposer_votes(p);
        actual.sort();
        recomputed.sort();
        assert_eq!(actual, recomputed);
    }
}

/// When timestamps make the measured rate equal the target rate exactly,
/// a retarget level keeps the difficulty up to division truncation.
#[test]
fn steady_rate_difficulty() {
    let mut db = BlockChain::new(NUM_VOTER_CHAINS);
    let gp = proposer_genesis_hash();
    let initial = db.get_proposer_difficulty(&gp);
    assert_eq!(initial, H256::new(0, 1, 0, 0));

    // (K-1) * RATE_SCALE / elapsed == CHAIN_MINING_RATE_SCALED requires
    // elapsed == 90 between the ancestor at level 1 and the block at
    // level 10; timestamps 10*level give exactly that.
    let mut parent = gp;
    for level in 1..=10u64 {
        let hash = h(level);
        db.insert_block(&proposer_block_at(hash, parent, 10 * level));
        parent = hash;
    }
    // levels below the retarget interval copy the parent's difficulty
    for level in 1..=9u64 {
        assert_eq!(db.get_proposer_difficulty(&h(level)), initial);
    }
    // at level 10 the difficulty is (2^128 / 10^6) * 10^6 = 2^128 - 211456
    let expected = H256::new(0, 0, u64::MAX, 18446744073709340160);
    assert_eq!(db.get_proposer_difficulty(&h(10)), expected);
}

/// A zero elapsed time saturates the retarget at the lower clamp.
#[test]
fn zero_elapsed_difficulty_halves() {
    let mut db = BlockChain::new(NUM_VOTER_CHAINS);
    let gp = proposer_genesis_hash();
    let mut parent = gp;
    for level in 1..=10u64 {
        let hash = h(level);
        db.insert_block(&proposer_block_at(hash, parent, 7));
        parent = hash;
    }
    // 2^128 / 2 = 2^127
    let expected = H256::new(0, 0, 0x8000000000000000, 0);
    assert_eq!(db.get_proposer_difficulty(&h(10)), expected);
}

/// Removing a vote for a chain with no matching entry is silently
/// skipped.
#[test]
fn vote_merge_missing_remove() {
    let result = vote_vec_merge(None, &vec![(false, 3, 4)]);
    assert_eq!(result, vec![] as Vec<(u16, u64)>);
    let result = vote_vec_merge(Some(vec![(1, 2)]), &vec![(false, 3, 4)]);
    assert_eq!(result, vec![(1, 2)]);
}

/// The funding transaction gives every recipient the asked number of
/// coins of the asked value, in recipient order.
#[test]
fn ico_output_layout() {
    let recipients = vec![h(1), h(2)];
    let t = ico(&recipients, 3, 42);
    assert_eq!(t.input.len(), 0);
    assert_eq!(t.authorization.len(), 0);
    assert_eq!(t.output.len(), 6);
    for (i, out) in t.output.iter().enumerate() {
        assert_eq!(out.value, 42);
        assert_eq!(out.recipient, recipients[i / 3]);
    }
}

/// Transaction block content keeps the transactions it was built from.
#[test]
fn transaction_content_new() {
    let t = ico(&vec![h(1)], 1, 5);
    let content = transaction::Content::new(vec![t]);
    assert_eq!(content.transactions.len(), 1);
    assert_eq!(content.transactions[0].output.len(), 1);
    assert_eq!(content.transactions[0].output[0].value, 5);
}

/// The ledger slice pairs each confirmed proposer block with its cited
/// transaction blocks.
#[test]
fn ledger_slice_contents() {
    let mut db = BlockChain::new(NUM_VOTER_CHAINS);
    build_scenario(&mut db);
    let slice = db.proposer_transaction_in_ledger(100);
    assert_eq!(slice.len(), 3);
    assert_eq!(slice[0].0, proposer_genesis_hash());
    assert_eq!(slice[0].1, vec![] as Vec<H256>);
    assert_eq!(slice[1].0, h(3));
    assert_eq!(slice[1].1, vec![h(1)]);
    assert_eq!(slice[2].0, h(2));
    assert_eq!(slice[2].1, vec![] as Vec<H256>);
}

/// The dump snapshot mirrors the queried state.
#[test]
fn dump_data_fields() {
    let mut db = BlockChain::new(NUM_VOTER_CHAINS);
    build_scenario(&mut db);
    let dump = db.dump(100);
    assert_eq!(dump.ledger_tip, 1);
    assert_eq!(dump.voter_longest.len(), NUM_VOTER_CHAINS as usize);
    assert_eq!(dump.proposer_in_ledger, vec![proposer_genesis_hash(), h(3), h(2)]);
    assert_eq!(dump.transaction_in_ledger, vec![h(1)]);
    assert_eq!(dump.transaction_unreferred, vec![] as Vec<H256>);
    assert_eq!(dump.proposer_levels.len(), 2);
    assert_eq!(dump.proposer_levels[0].0, 0);
    assert_eq!(dump.proposer_levels[1].1, vec![h(2), h(3)]);
    assert_eq!(dump.proposer_leaders, vec![(0, proposer_genesis_hash()), (1, h(3))]);
}
