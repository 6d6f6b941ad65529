use prism::block::{proposer, transaction, voter, Block, Content};
use prism::blockchain::BlockChain;
use prism::config::{proposer_genesis_hash, voter_genesis_hash};
use prism::hash::H256;
use prism::votes::{h256_vec_append_merge, vote_vec_merge};

const NUM_VOTER_CHAINS: u16 = 7;

fn h(k: u64) -> H256 {
    H256::new(9, 9, 0, k)
}

fn tx_block(hash: H256, parent: H256) -> Block {
    Block::new(hash, parent, 0, Content::Transaction(transaction::Content::new(vec![])))
}

fn proposer_block(
    hash: H256,
    parent: H256,
    transaction_refs: Vec<H256>,
    proposer_refs: Vec<H256>,
) -> Block {
    Block::new(hash, parent, 0, Content::Proposer(proposer::Content::new(transaction_refs, proposer_refs)))
}

fn voter_block(hash: H256, parent: H256, voter_parent: H256, votes: Vec<H256>) -> Block {
    Block::new(hash, parent, 0, Content::Voter(voter::Content::new(0, voter_parent, votes)))
}

#[test]
fn initialize_new() {
    let db = BlockChain::new(NUM_VOTER_CHAINS);
    let gp = proposer_genesis_hash();

    // validate proposer genesis
    assert_eq!(db.proposer_level(&gp), 0);
    let level_0_blocks = db.get_proposer_tree_level(0).unwrap();
    assert_eq!(level_0_blocks, vec![gp]);
    let genesis_votes = db.proposer_votes(&gp);
    let mut true_genesis_votes: Vec<(u16, u64)> = vec![];
    for chain_num in 0..NUM_VOTER_CHAINS {
        true_genesis_votes.push((chain_num, 0));
    }
    assert_eq!(genesis_votes, true_genesis_votes);
    assert_eq!(db.best_proposer(), gp);
    assert_eq!(db.best_proposer_level(), 0);
    assert_eq!(db.unconfirmed_proposer().len(), 0);
    assert_eq!(db.unreferred_proposer(), vec![gp]);
    assert_eq!(db.get_leader(0), Some(gp));
    assert_eq!(db.get_ledger_order(0).unwrap(), vec![gp]);

    // validate voter genesis
    for chain_num in 0..NUM_VOTER_CHAINS {
        let gv = voter_genesis_hash(chain_num);
        assert_eq!(db.get_voter_level(&gv), Some(0));
        assert_eq!(db.get_voted_level(&gv), Some(0));
        assert_eq!(db.get_voter_chain(&gv), Some(chain_num));
        assert_eq!(db.get_parent(&gv), Some(gp));
        assert_eq!(db.get_vote_edges(&gv).unwrap(), vec![gp]);
        assert_eq!(db.best_voter(chain_num as usize), gv);
    }
}

#[test]
fn insert_block() {
    let mut db = BlockChain::new(NUM_VOTER_CHAINS);
    let gp = proposer_genesis_hash();

    // a transaction block on the proposer genesis
    let new_transaction_block = tx_block(h(1), gp);
    db.insert_block(&new_transaction_block);
    assert_eq!(db.get_parent(&h(1)), Some(gp));
    assert_eq!(db.unreferred_transaction(), vec![h(1)]);

    // two proposer blocks on the genesis: the first refers to nothing,
    // the second refers to the first and to the transaction block
    let new_proposer_block_1 = proposer_block(h(2), gp, vec![], vec![]);
    db.insert_block(&new_proposer_block_1);
    let new_proposer_block_2 = proposer_block(h(3), gp, vec![h(1)], vec![h(2)]);
    db.insert_block(&new_proposer_block_2);

    assert_eq!(db.get_parent(&h(3)), Some(gp));
    assert_eq!(db.proposer_level(&h(3)), 1);
    assert_eq!(db.get_proposer_tree_level(1).unwrap(), vec![h(2), h(3)]);
    assert_eq!(db.get_proposer_refs(&h(3)).unwrap(), vec![gp, h(2)]);
    assert_eq!(db.get_transaction_refs(&h(3)).unwrap(), vec![h(1)]);
    assert_eq!(db.best_proposer(), h(2));
    assert_eq!(db.best_proposer_level(), 1);
    assert_eq!(db.unreferred_proposer(), vec![h(3)]);
    let unconfirmed = db.unconfirmed_proposer();
    assert_eq!(unconfirmed.len(), 2);
    assert!(unconfirmed.contains(&h(2)));
    assert!(unconfirmed.contains(&h(3)));
    assert_eq!(db.unreferred_transaction().len(), 0);

    // a voter block on chain 0 voting for proposer block 1
    let new_voter_block = voter_block(h(4), h(3), voter_genesis_hash(0), vec![h(2)]);
    db.insert_block(&new_voter_block);
    assert_eq!(db.get_parent(&h(4)), Some(h(3)));
    assert_eq!(db.get_voter_parent(&h(4)), Some(voter_genesis_hash(0)));
    assert_eq!(db.get_voter_level(&h(4)), Some(1));
    assert_eq!(db.get_voter_chain(&h(4)), Some(0));
    assert_eq!(db.get_voted_level(&h(4)), Some(1));
    assert_eq!(db.get_vote_edges(&h(4)).unwrap(), vec![h(2)]);
    assert_eq!(db.best_voter(0), h(4));
    assert_eq!(db.proposer_votes(&h(2)), vec![(0, 1)]);

    // a fork of the voter chain voting for proposer block 2
    let fork_voter = voter_block(h(5), h(3), voter_genesis_hash(0), vec![h(3)]);
    db.insert_block(&fork_voter);
    assert_eq!(db.proposer_votes(&h(2)), vec![(0, 1)]);

    // extend the fork so it becomes the longest chain
    let fork_child = voter_block(h(6), h(3), h(5), vec![]);
    db.insert_block(&fork_child);
    assert_eq!(db.proposer_votes(&h(2)), vec![] as Vec<(u16, u64)>);
    assert_eq!(db.proposer_votes(&h(3)), vec![(0, 1)]);

    // a voter on every remaining chain votes for proposer block 2
    for chain_num in 1..NUM_VOTER_CHAINS {
        let b = Block::new(
            h(100 + chain_num as u64),
            h(3),
            0,
            Content::Voter(voter::Content::new(
                chain_num,
                voter_genesis_hash(chain_num),
                vec![h(3)],
            )),
        );
        let diff = db.insert_block(&b);

        let level_1_leader = db.get_leader(1);
        let level_1_ledger = db.get_ledger_order(1);
        let num_voted = chain_num + 1;
        if num_voted == NUM_VOTER_CHAINS / 2 + 1 + 1 {
            assert_eq!(diff, (vec![h(1)], vec![]));
        }
        if num_voted > NUM_VOTER_CHAINS / 2 + 1 {
            assert_eq!(level_1_leader, Some(h(3)));
            assert_eq!(level_1_ledger, Some(vec![h(3), h(2)]));
            assert_eq!(db.unconfirmed_proposer().len(), 0);
        } else {
            assert_eq!(level_1_leader, None);
            assert_eq!(level_1_ledger, None);
            assert_eq!(db.unconfirmed_proposer().len(), 2);
        }
    }

    // fork every chain but chain 0 to revert ledger level 1
    for chain_num in 1..NUM_VOTER_CHAINS {
        let fork_base = Block::new(
            h(200 + chain_num as u64),
            gp,
            0,
            Content::Voter(voter::Content::new(
                chain_num,
                voter_genesis_hash(chain_num),
                vec![],
            )),
        );
        db.insert_block(&fork_base);
        let fork_tip = Block::new(
            h(300 + chain_num as u64),
            gp,
            0,
            Content::Voter(voter::Content::new(chain_num, h(200 + chain_num as u64), vec![])),
        );
        let diff = db.insert_block(&fork_tip);

        let level_1_leader = db.get_leader(1);
        let num_voted = NUM_VOTER_CHAINS - chain_num;
        if num_voted == NUM_VOTER_CHAINS / 2 + 1 {
            assert_eq!(diff, (vec![], vec![h(1)]));
        }
        if num_voted > NUM_VOTER_CHAINS / 2 + 1 {
            assert_eq!(level_1_leader, Some(h(3)));
            assert_eq!(db.unconfirmed_proposer().len(), 0);
        } else {
            assert_eq!(level_1_leader, None);
            assert_eq!(db.unconfirmed_proposer().len(), 2);
        }
    }
}

#[test]
fn best_proposer_and_voter() {
    let mut db = BlockChain::new(NUM_VOTER_CHAINS);
    let gp = proposer_genesis_hash();
    assert_eq!(db.best_proposer(), gp);
    assert_eq!(db.best_voter(0), voter_genesis_hash(0));

    let new_proposer_block = proposer_block(h(1), gp, vec![], vec![]);
    db.insert_block(&new_proposer_block);
    let new_voter_block = voter_block(h(2), h(1), voter_genesis_hash(0), vec![h(1)]);
    db.insert_block(&new_voter_block);
    assert_eq!(db.best_proposer(), h(1));
    assert_eq!(db.best_voter(0), h(2));
}

#[test]
fn unreferred_transaction_and_proposer() {
    let mut db = BlockChain::new(NUM_VOTER_CHAINS);
    let gp = proposer_genesis_hash();

    let new_transaction_block = tx_block(h(1), gp);
    db.insert_block(&new_transaction_block);
    assert_eq!(db.unreferred_transaction(), vec![h(1)]);
    assert_eq!(db.unreferred_proposer(), vec![gp]);

    let new_proposer_block_1 = proposer_block(h(2), gp, vec![], vec![]);
    db.insert_block(&new_proposer_block_1);
    assert_eq!(db.unreferred_transaction(), vec![h(1)]);
    assert_eq!(db.unreferred_proposer(), vec![h(2)]);

    let new_proposer_block_2 = proposer_block(h(3), gp, vec![h(1)], vec![h(2)]);
    db.insert_block(&new_proposer_block_2);
    assert_eq!(db.unreferred_transaction(), vec![] as Vec<H256>);
    assert_eq!(db.unreferred_proposer(), vec![h(3)]);
}

#[test]
fn unvoted_proposer() {
    let mut db = BlockChain::new(NUM_VOTER_CHAINS);
    let gp = proposer_genesis_hash();
    assert_eq!(db.unvoted_proposer(&voter_genesis_hash(0)), vec![] as Vec<H256>);

    let new_proposer_block_1 = proposer_block(h(1), gp, vec![], vec![]);
    db.insert_block(&new_proposer_block_1);
    let new_proposer_block_2 = proposer_block(h(2), gp, vec![], vec![]);
    db.insert_block(&new_proposer_block_2);
    assert_eq!(db.unvoted_proposer(&voter_genesis_hash(0)), vec![h(1)]);

    let new_voter_block = voter_block(h(3), h(2), voter_genesis_hash(0), vec![h(1)]);
    db.insert_block(&new_voter_block);
    assert_eq!(db.unvoted_proposer(&voter_genesis_hash(0)), vec![h(1)]);
    assert_eq!(db.unvoted_proposer(&h(3)), vec![] as Vec<H256>);
}

#[test]
fn merge_operator_u256_vec() {
    let z = H256::new(0, 0, 0, 0);

    // merge with a nonexistent entry
    let result = h256_vec_append_merge(None, &vec![z]);
    assert_eq!(result, vec![z]);

    // merge with an existing entry
    let result = h256_vec_append_merge(Some(result), &vec![z]);
    let result = h256_vec_append_merge(Some(result), &vec![z]);
    assert_eq!(result, vec![z, z, z]);
}

#[test]
fn merge_operator_btreemap() {
    // merge with a nonexistent entry
    let result = vote_vec_merge(None, &vec![(true, 0, 0)]);
    assert_eq!(result, vec![(0, 0)]);

    // insert
    let result = vote_vec_merge(Some(result), &vec![(true, 10, 0)]);
    let result = vote_vec_merge(Some(result), &vec![(true, 5, 0)]);
    assert_eq!(result, vec![(0, 0), (10, 0), (5, 0)]);

    // remove
    let result = vote_vec_merge(Some(result), &vec![(false, 5, 0)]);
    assert_eq!(result, vec![(0, 0), (10, 0)]);
}

#[test]
fn dump() {
    let mut db = BlockChain::new(NUM_VOTER_CHAINS);
    let gp = proposer_genesis_hash();

    let new_proposer_block_1 = proposer_block(h(1), gp, vec![], vec![]);
    db.insert_block(&new_proposer_block_1);
    let new_proposer_block_2 = proposer_block(h(2), gp, vec![], vec![]);
    db.insert_block(&new_proposer_block_2);
    let new_voter_block = voter_block(h(3), h(2), voter_genesis_hash(0), vec![h(1)]);
    db.insert_block(&new_voter_block);
    println!("{:?}", db.dump(100));
}
